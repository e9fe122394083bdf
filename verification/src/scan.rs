//! Classifying scanned directory entries: extracting the file name from a
//! relative path and deciding whether it names an audio file. The allow-list
//! of audio extensions is `wav`, `mp3` and `flac`, matched case-sensitively.

use vstd::prelude::*;
use vstd::string::StrSliceExecFns;

verus! {

/// The position where the file name of `s` starts: one past the last `/`,
/// or zero when the path has no directory part.
pub open spec fn after_last_slash(s: Seq<char>) -> int
    decreases s.len(),
{
    if s.len() == 0 {
        0
    } else if s.last() == '/' {
        s.len() as int
    } else {
        after_last_slash(s.drop_last())
    }
}

proof fn lemma_after_last_slash_bounds(s: Seq<char>)
    ensures
        0 <= after_last_slash(s) <= s.len(),
    decreases s.len(),
{
    if s.len() > 0 && s.last() != '/' {
        lemma_after_last_slash_bounds(s.drop_last());
    }
}

/// The file-name portion of a relative path: everything after the last `/`.
pub open spec fn spec_file_name(s: Seq<char>) -> Seq<char> {
    s.subrange(after_last_slash(s), s.len() as int)
}

/// The position where the extension of file name `s` starts: one past the
/// last `.`, provided something precedes that dot (a name that starts with
/// its only dot, like a hidden file, has no extension); `-1` otherwise.
pub open spec fn after_last_dot(s: Seq<char>) -> int
    decreases s.len(),
{
    if s.len() <= 1 {
        -1
    } else if s.last() == '.' {
        s.len() as int
    } else {
        after_last_dot(s.drop_last())
    }
}

proof fn lemma_after_last_dot_bounds(s: Seq<char>)
    ensures
        after_last_dot(s) == -1 || 2 <= after_last_dot(s) <= s.len(),
    decreases s.len(),
{
    if s.len() > 1 && s.last() != '.' {
        lemma_after_last_dot_bounds(s.drop_last());
    }
}

/// The extension of file name `s`: the part after the last dot, or nothing
/// when no dot gives one.
pub open spec fn spec_extension(s: Seq<char>) -> Option<Seq<char>> {
    if after_last_dot(s) >= 0 {
        Some(s.subrange(after_last_dot(s), s.len() as int))
    } else {
        None
    }
}

/// Whether file name `s` carries one of the recognized audio extensions.
pub open spec fn is_audio_name(s: Seq<char>) -> bool {
    ||| spec_extension(s) == Some("wav"@)
    ||| spec_extension(s) == Some("mp3"@)
    ||| spec_extension(s) == Some("flac"@)
}

/// Whether the file a relative path points at is recognized as audio.
pub open spec fn spec_is_audio_path(p: Seq<char>) -> bool {
    is_audio_name(spec_file_name(p))
}

/// The file name of a relative path: everything after the last `/`.
pub fn file_name_of(path: &String) -> (r: String)
    ensures
        r@ == spec_file_name(path@),
{
    let s = path.as_str();
    let n = s.unicode_len();
    let mut i: usize = n;
    let mut start: usize = 0;
    let mut found = false;
    proof {
        assert(path@.take(n as int) =~= path@);
    }
    while i > 0 && !found
        invariant
            i <= n,
            n == s@.len(),
            s@ == path@,
            !found ==> start == 0,
            !found ==> after_last_slash(path@) == after_last_slash(path@.take(i as int)),
            found ==> start == after_last_slash(path@),
            found ==> start <= n,
        decreases i + (if found { 0int } else { 1 }),
    {
        let c = s.get_char(i - 1);
        proof {
            assert(path@.take(i as int).last() == path@[i - 1]);
            assert(path@.take(i as int).drop_last() =~= path@.take(i - 1));
        }
        if c == '/' {
            start = i;
            found = true;
        } else {
            i = i - 1;
        }
    }
    proof {
        if !found {
            assert(path@.take(0) =~= Seq::<char>::empty());
        }
        lemma_after_last_slash_bounds(path@);
    }
    let name = s.substring_char(start, n);
    name.to_owned()
}

/// Whether file name `name` ends in one of the recognized audio extensions.
pub fn is_audio_name_exec(name: &String) -> (r: bool)
    ensures
        r == is_audio_name(name@),
{
    let s = name.as_str();
    let n = s.unicode_len();
    let mut i: usize = n;
    let mut start: usize = 0;
    let mut found = false;
    proof {
        assert(name@.take(n as int) =~= name@);
    }
    while i > 1 && !found
        invariant
            i <= n,
            n == s@.len(),
            s@ == name@,
            !found ==> start == 0,
            !found && n > 1 ==> after_last_dot(name@) == after_last_dot(name@.take(i as int)),
            found ==> start == after_last_dot(name@),
            found ==> start <= n,
        decreases i + (if found { 0int } else { 1 }),
    {
        let c = s.get_char(i - 1);
        proof {
            assert(name@.take(i as int).last() == name@[i - 1]);
            assert(name@.take(i as int).drop_last() =~= name@.take(i - 1));
        }
        if c == '.' {
            start = i;
            found = true;
        } else {
            i = i - 1;
        }
    }
    if !found {
        proof {
            if n > 1 {
                assert(name@.take(1).len() <= 1);
            }
        }
        assert(spec_extension(name@) is None);
        return false;
    }
    proof {
        lemma_after_last_dot_bounds(name@);
        reveal_strlit("wav");
        reveal_strlit("mp3");
        reveal_strlit("flac");
    }
    let ghost ext = name@.subrange(start as int, n as int);
    let ext_len = n - start;
    if ext_len == 3 {
        let c0 = s.get_char(start);
        let c1 = s.get_char(start + 1);
        let c2 = s.get_char(start + 2);
        proof {
            assert(ext.len() == 3);
            assert(ext[0] == name@[start as int]);
            assert(ext[1] == name@[start + 1]);
            assert(ext[2] == name@[start + 2]);
        }
        if c0 == 'w' && c1 == 'a' && c2 == 'v' {
            assert(ext =~= "wav"@);
            true
        } else if c0 == 'm' && c1 == 'p' && c2 == '3' {
            assert(ext =~= "mp3"@);
            true
        } else {
            assert(ext != "wav"@ && ext != "mp3"@);
            assert(ext.len() != "flac"@.len());
            false
        }
    } else if ext_len == 4 {
        let c0 = s.get_char(start);
        let c1 = s.get_char(start + 1);
        let c2 = s.get_char(start + 2);
        let c3 = s.get_char(start + 3);
        proof {
            assert(ext.len() == 4);
            assert(ext[0] == name@[start as int]);
            assert(ext[1] == name@[start + 1]);
            assert(ext[2] == name@[start + 2]);
            assert(ext[3] == name@[start + 3]);
        }
        if c0 == 'f' && c1 == 'l' && c2 == 'a' && c3 == 'c' {
            assert(ext =~= "flac"@);
            true
        } else {
            assert(ext != "flac"@);
            false
        }
    } else {
        assert(ext.len() != "wav"@.len() && ext.len() != "mp3"@.len() && ext.len() != "flac"@.len());
        false
    }
}

/// Whether the file a relative path points at is recognized as audio.
pub fn is_audio_path(path: &String) -> (r: bool)
    ensures
        r == spec_is_audio_path(path@),
{
    let name = file_name_of(path);
    is_audio_name_exec(&name)
}

} // verus!
