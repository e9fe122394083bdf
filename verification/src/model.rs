//! Shared mathematical helpers: sequences of string views, membership,
//! distinctness, locating a value inside a distinct sequence, and the
//! lexicographic order on strings.

use vstd::prelude::*;
use vstd::string::StrSliceExecFns;

verus! {

/// The character sequences of a sequence of strings.
pub open spec fn string_views(s: Seq<String>) -> Seq<Seq<char>> {
    s.map_values(|x: String| x@)
}

/// Whether `v` occurs among `views`.
pub open spec fn contains_view(views: Seq<Seq<char>>, v: Seq<char>) -> bool {
    exists|i: int| 0 <= i < views.len() && views[i] == v
}

/// No two positions of `s` hold the same value.
pub open spec fn seq_distinct<A>(s: Seq<A>) -> bool {
    forall|i: int, j: int| 0 <= i < j < s.len() ==> s[i] != s[j]
}

/// Lexicographic order on character sequences, by code point; a prefix
/// precedes its extensions.
pub open spec fn lex_le(a: Seq<char>, b: Seq<char>) -> bool
    decreases a.len(),
{
    if a.len() == 0 {
        true
    } else if b.len() == 0 {
        false
    } else if (a[0] as u32) == (b[0] as u32) {
        lex_le(a.drop_first(), b.drop_first())
    } else {
        (a[0] as u32) < (b[0] as u32)
    }
}

/// The lexicographic order is total: of any two sequences one precedes the
/// other.
pub proof fn lemma_lex_le_total(a: Seq<char>, b: Seq<char>)
    ensures
        lex_le(a, b) || lex_le(b, a),
    decreases a.len(),
{
    if a.len() > 0 && b.len() > 0 && (a[0] as u32) == (b[0] as u32) {
        lemma_lex_le_total(a.drop_first(), b.drop_first());
    }
}

/// Whether `a` precedes `b` (or equals it) in lexicographic order.
pub fn str_lex_le(a: &str, b: &str) -> (r: bool)
    ensures
        r == lex_le(a@, b@),
{
    let na = a.unicode_len();
    let nb = b.unicode_len();
    let mut i: usize = 0;
    proof {
        assert(a@.skip(0) =~= a@);
        assert(b@.skip(0) =~= b@);
    }
    while i < na && i < nb
        invariant
            i <= na,
            i <= nb,
            na == a@.len(),
            nb == b@.len(),
            lex_le(a@, b@) == lex_le(a@.skip(i as int), b@.skip(i as int)),
        decreases na - i,
    {
        let ca = a.get_char(i);
        let cb = b.get_char(i);
        proof {
            assert(a@.skip(i as int)[0] == a@[i as int]);
            assert(b@.skip(i as int)[0] == b@[i as int]);
            assert(a@.skip(i as int).drop_first() =~= a@.skip(i + 1));
            assert(b@.skip(i as int).drop_first() =~= b@.skip(i + 1));
        }
        let xa = ca as u32;
        let xb = cb as u32;
        if xa != xb {
            return xa < xb;
        }
        i = i + 1;
    }
    proof {
        if i >= na {
            assert(a@.skip(i as int).len() == 0);
        } else {
            assert(b@.skip(i as int).len() == 0);
            assert(a@.skip(i as int).len() > 0);
        }
    }
    i >= na
}

/// The position of `v` inside `views`; meaningful only when `v` occurs.
pub open spec fn view_index(views: Seq<Seq<char>>, v: Seq<char>) -> int {
    choose|i: int| 0 <= i < views.len() && views[i] == v
}

/// In a distinct sequence every occurrence of a value stands at
/// `view_index`, so any found position equals it.
pub proof fn lemma_view_index_unique(views: Seq<Seq<char>>, v: Seq<char>, i: int)
    requires
        seq_distinct(views),
        0 <= i < views.len(),
        views[i] == v,
    ensures
        view_index(views, v) == i,
        contains_view(views, v),
{
    assert(contains_view(views, v));
    let j = view_index(views, v);
    if i < j {
        assert(views[i] != views[j]);
    } else if j < i {
        assert(views[j] != views[i]);
    }
}

} // verus!
