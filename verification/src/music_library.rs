//! The catalog: the aggregate root owning the track arena, the playlist
//! arena, and the two interning tables (artist names and tags). Tracks hold
//! their artist and tags as indices into the tables, so equal strings are
//! shared through exactly one table entry; playlists hold tracks by arena
//! index, so every holder observes the same canonical track.

use vstd::prelude::*;
use vstd::pervasive::VecAdditionalExecFns;

use crate::model::{contains_view, lemma_lex_le_total, lex_le, seq_distinct, str_lex_le, string_views};
use crate::playlist::{items_wf, Playlist};

verus! {

/// A playable audio file of the catalog.
#[derive(Debug)]
pub struct Track {
    /// Relative to the library root; immutable identity key for dedup.
    pub path: String,
    /// Display name, mutable.
    pub name: String,
    /// Index into the catalog's artist table, when known.
    pub artist: Option<usize>,
    /// Path of a cover image, when known.
    pub album_art: Option<String>,
    /// Indices into the catalog's tag table, in their original order.
    pub tags: Vec<usize>,
}

/// A track with its interned references spelled out as the strings they
/// stand for.
#[verifier::ext_equal]
pub struct TrackModel {
    pub path: Seq<char>,
    pub name: Seq<char>,
    pub artist: Option<Seq<char>>,
    pub album_art: Option<Seq<char>>,
    pub tags: Seq<Seq<char>>,
}

/// The view of an optional string.
pub open spec fn opt_view(s: Option<String>) -> Option<Seq<char>> {
    match s {
        None => None,
        Some(x) => Some(x@),
    }
}

impl Track {
    /// Every interned reference points inside its table.
    pub open spec fn idx_wf(self, artist_count: int, tag_count: int) -> bool {
        &&& (self.artist matches Some(a) ==> (a as int) < artist_count)
        &&& forall|j: int| 0 <= j < self.tags@.len() ==> (self.tags@[j] as int) < tag_count
    }

    /// This track with its references read back through the given tables.
    pub open spec fn model(self, artists: Seq<Seq<char>>, tags: Seq<Seq<char>>) -> TrackModel {
        TrackModel {
            path: self.path@,
            name: self.name@,
            artist: match self.artist {
                None => None,
                Some(a) => Some(artists[a as int]),
            },
            album_art: opt_view(self.album_art),
            tags: self.tags@.map_values(|t: usize| tags[t as int]),
        }
    }

    /// The path, relative to the library root.
    pub fn path(&self) -> (r: &str)
        ensures
            r@ == self.path@,
    {
        self.path.as_str()
    }

    /// The display name.
    pub fn name(&self) -> (r: &str)
        ensures
            r@ == self.name@,
    {
        self.name.as_str()
    }

    /// Appends an interned tag reference, keeping the order of addition;
    /// a reference already present is appended again.
    pub fn add_tag(&mut self, tag: usize)
        ensures
            final(self).tags@ == old(self).tags@.push(tag),
            final(self).path == old(self).path,
            final(self).name == old(self).name,
            final(self).artist == old(self).artist,
            final(self).album_art == old(self).album_art,
    {
        self.tags.push(tag);
    }

    /// Appends an interned tag reference unless it is already present.
    pub fn _add_tag(&mut self, tag: usize)
        ensures
            old(self).tags@.contains(tag) ==> *final(self) == *old(self),
            !old(self).tags@.contains(tag) ==> final(self).tags@ == old(self).tags@.push(tag),
            final(self).path == old(self).path,
            final(self).name == old(self).name,
            final(self).artist == old(self).artist,
            final(self).album_art == old(self).album_art,
    {
        if !self._has_tag(tag) {
            self.tags.push(tag);
        }
    }

    /// Whether the track carries the given interned tag reference.
    pub fn _has_tag(&self, tag: usize) -> (r: bool)
        ensures
            r == self.tags@.contains(tag),
    {
        let n = self.tags.len();
        let mut i: usize = 0;
        while i < n
            invariant
                i <= n,
                n == self.tags@.len(),
                forall|j: int| 0 <= j < i ==> self.tags@[j] != tag,
            decreases n - i,
        {
            if self.tags[i] == tag {
                return true;
            }
            i = i + 1;
        }
        false
    }

    /// The track's interned tag references, in order.
    pub fn _tags(&self) -> (r: &Vec<usize>)
        ensures
            r == &self.tags,
    {
        &self.tags
    }
}

/// Equality of optional strings, by contents.
pub fn opt_string_eq(a: &Option<String>, b: &Option<String>) -> (r: bool)
    ensures
        r == (opt_view(*a) == opt_view(*b)),
{
    match a {
        None => match b {
            None => true,
            Some(_) => false,
        },
        Some(x) => match b {
            None => false,
            Some(y) => *x == *y,
        },
    }
}

/// Equality of two index lists.
fn usize_vec_eq(a: &Vec<usize>, b: &Vec<usize>) -> (r: bool)
    ensures
        r == (a@ == b@),
{
    let n = a.len();
    if n != b.len() {
        return false;
    }
    let mut i: usize = 0;
    while i < n
        invariant
            i <= n,
            n == a@.len() == b@.len(),
            forall|j: int| 0 <= j < i ==> a@[j] == b@[j],
        decreases n - i,
    {
        if a[i] != b[i] {
            return false;
        }
        i = i + 1;
    }
    proof {
        assert(a@ =~= b@);
    }
    true
}

/// Two tracks carry the same content: equal paths, names, artist
/// references, art and tag references.
pub open spec fn track_like(a: Track, b: Track) -> bool {
    &&& a.path@ == b.path@
    &&& a.name@ == b.name@
    &&& a.artist == b.artist
    &&& opt_view(a.album_art) == opt_view(b.album_art)
    &&& a.tags@ == b.tags@
}

impl PartialEq for Track {
    fn eq(&self, other: &Self) -> (r: bool) {
        let fields = self.path == other.path && self.name == other.name && (match (
            &self.artist,
            &other.artist,
        ) {
            (None, None) => true,
            (Some(x), Some(y)) => *x == *y,
            _ => false,
        });
        fields && opt_string_eq(&self.album_art, &other.album_art) && usize_vec_eq(
            &self.tags,
            &other.tags,
        )
    }
}

impl vstd::std_specs::cmp::PartialEqSpecImpl for Track {
    open spec fn obeys_eq_spec() -> bool {
        true
    }

    open spec fn eq_spec(&self, other: &Self) -> bool {
        track_like(*self, *other)
    }
}

impl PartialEq for Playlist {
    /// Equality of the persistent part: the transient playback state (the
    /// pending lap and the lap flag) does not take part.
    fn eq(&self, other: &Self) -> (r: bool) {
        let head = opt_string_eq(&self.name, &other.name) && self.playback_mode
            == other.playback_mode && self.id == other.id;
        if !head {
            return false;
        }
        let n = self.items.len();
        if n != other.items.len() {
            proof {
                crate::playlist::lemma_item_models(self.items@);
                crate::playlist::lemma_item_models(other.items@);
            }
            return false;
        }
        let mut i: usize = 0;
        while i < n
            invariant
                i <= n,
                n == self.items@.len() == other.items@.len(),
                forall|j: int| 0 <= j < i ==> self.items@[j].model() == other.items@[j].model(),
            decreases n - i,
        {
            if !crate::playlist::item_eq(&self.items[i], &other.items[i]) {
                proof {
                    crate::playlist::lemma_item_models(self.items@);
                    crate::playlist::lemma_item_models(other.items@);
                }
                return false;
            }
            i = i + 1;
        }
        proof {
            crate::playlist::lemma_item_models(self.items@);
            crate::playlist::lemma_item_models(other.items@);
            assert forall|j: int|
                0 <= j < crate::playlist::item_models(self.items@).len() implies crate::playlist::item_models(
                self.items@,
            )[j] == crate::playlist::item_models(other.items@)[j] by {
                assert(self.items@[j].model() == other.items@[j].model());
            }
            assert(crate::playlist::item_models(self.items@) =~= crate::playlist::item_models(
                other.items@,
            ));
        }
        true
    }
}

impl vstd::std_specs::cmp::PartialEqSpecImpl for Playlist {
    open spec fn obeys_eq_spec() -> bool {
        true
    }

    open spec fn eq_spec(&self, other: &Self) -> bool {
        self.model() == other.model()
    }
}

/// The paths of a sequence of tracks.
pub open spec fn track_paths(ts: Seq<Track>) -> Seq<Seq<char>> {
    ts.map_values(|t: Track| t.path@)
}

/// The stable identities of a sequence of playlists.
pub open spec fn playlist_ids(ps: Seq<Playlist>) -> Seq<u128> {
    ps.map_values(|p: Playlist| p.id)
}

/// The tag strings a track carries, in order, read through the tag table.
pub open spec fn tag_views_of(t: Track, tags: Seq<Seq<char>>) -> Seq<Seq<char>> {
    t.tags@.map_values(|j: usize| tags[j as int])
}

/// Whether some track of `tracks` carries the tag at table position `t`.
pub open spec fn tag_held_by(tracks: Seq<Track>, t: int) -> bool {
    exists|i: int, j: int|
        0 <= i < tracks.len() && 0 <= j < tracks[i].tags@.len() && tracks[i].tags@[j] as int == t
}

/// Whether, among the first `upto` old table positions, some held one is
/// renumbered to the new position `p`.
pub open spec fn remap_covers(remap: Seq<usize>, held: Seq<bool>, upto: int, p: int) -> bool {
    exists|q: int| 0 <= q < upto && held[q] && remap[q] as int == p
}

/// Whether the renumbering of old table position `q` is sound: a held entry
/// is sent to a position of the new table that spells the same string.
pub open spec fn remap_ok(
    remap: Seq<usize>,
    held: Seq<bool>,
    newv: Seq<Seq<char>>,
    oldv: Seq<Seq<char>>,
    q: int,
) -> bool {
    held[q] ==> (remap[q] as int) < newv.len() && newv[remap[q] as int] == oldv[q]
}

/// The tag table entries that survive a collection over the first `n`
/// positions: exactly those some track still carries, in table order.
pub open spec fn kept_tags_upto(views: Seq<Seq<char>>, tracks: Seq<Track>, n: int) -> Seq<
    Seq<char>,
>
    decreases n,
{
    if n <= 0 {
        Seq::empty()
    } else {
        kept_tags_upto(views, tracks, n - 1) + (if tag_held_by(tracks, n - 1) {
            seq![views[n - 1]]
        } else {
            Seq::empty()
        })
    }
}

/// A collection on a table whose every entry is held keeps the whole table:
/// collecting a second time, right after a collection, removes nothing.
pub proof fn lemma_gc_idempotent(views: Seq<Seq<char>>, tracks: Seq<Track>, n: int)
    requires
        0 <= n <= views.len(),
        forall|g: int| 0 <= g < n ==> tag_held_by(tracks, g),
    ensures
        kept_tags_upto(views, tracks, n) == views.take(n),
    decreases n,
{
    if n > 0 {
        lemma_gc_idempotent(views, tracks, n - 1);
        assert(views.take(n - 1) =~= views.take(n).drop_last());
        assert(kept_tags_upto(views, tracks, n) =~= views.take(n));
    }
}

/// The smaller of two lengths.
pub open spec fn zip_len(a: int, b: int) -> int {
    if a < b {
        a
    } else {
        b
    }
}

/// Two catalogs look alike: equal roots, and equal content wherever their
/// track lists, playlist lists and tag tables overlap. This compares the
/// common prefixes of the three lists, entry by entry.
pub open spec fn library_like(a: MusicLibrary, b: MusicLibrary) -> bool {
    &&& a.path@ == b.path@
    &&& forall|i: int|
        0 <= i < zip_len(a.tracks@.len() as int, b.tracks@.len() as int) ==> track_like(
            #[trigger] a.tracks@[i],
            b.tracks@[i],
        )
    &&& forall|i: int|
        0 <= i < zip_len(a.playlists@.len() as int, b.playlists@.len() as int)
            ==> (#[trigger] a.playlists@[i]).model() == b.playlists@[i].model()
    &&& forall|i: int|
        0 <= i < zip_len(a.tags@.len() as int, b.tags@.len() as int) ==> (
        #[trigger] a.tags@[i])@ == b.tags@[i]@
}

/// The one hard failure of opening a library: the root directory itself
/// cannot be read. Everything below that degrades to a skipped entry, a
/// dropped item or an empty catalog, never an error.
pub enum MusicLibraryError {
    IOError(String),
}

impl MusicLibraryError {
    /// What went wrong, in words.
    pub fn message(&self) -> (r: &String)
        ensures
            *self matches MusicLibraryError::IOError(m) && r == &m,
    {
        match self {
            MusicLibraryError::IOError(m) => m,
        }
    }
}

/// What `str::to_lowercase` maps the characters of a string to.
pub uninterp spec fn lower_of(s: Seq<char>) -> Seq<char>;

/// Relies on `str::to_lowercase`: the Unicode lowercase mapping, a function
/// of the characters alone.
#[verifier::external_body]
fn lowercase(s: &str) -> (r: String)
    ensures
        r@ == lower_of(s@),
{
    s.to_lowercase()
}

/// The tag table reads sorted: every adjacent pair of entries is ordered by
/// the lexicographic order of the entries' lowercase forms.
pub open spec fn sorted_by_lowercase(views: Seq<Seq<char>>) -> bool {
    forall|i: int|
        0 <= i < views.len() - 1 ==> lex_le(lower_of(#[trigger] views[i]), lower_of(views[i + 1]))
}

/// The aggregate root: the library root path, the track and playlist
/// arenas, and the artist and tag interning tables.
#[derive(Debug)]
pub struct MusicLibrary {
    /// The root directory the catalog was opened on.
    pub path: String,
    pub tracks: Vec<Track>,
    pub playlists: Vec<Playlist>,
    /// Artist interning table: at most one entry per distinct string.
    pub artists: Vec<String>,
    /// Tag interning table: at most one entry per distinct string.
    pub tags: Vec<String>,
}

impl MusicLibrary {
    /// The catalog's integrity: track paths are pairwise distinct (the dedup
    /// invariant), each interning table holds pairwise distinct strings (the
    /// interning invariant), every interned reference points inside its
    /// table, every playlist identity is distinct, and every playlist item
    /// referring to a track points inside the track arena.
    pub open spec fn wf(self) -> bool {
        &&& seq_distinct(track_paths(self.tracks@))
        &&& seq_distinct(string_views(self.artists@))
        &&& seq_distinct(string_views(self.tags@))
        &&& seq_distinct(playlist_ids(self.playlists@))
        &&& forall|i: int|
            0 <= i < self.tracks@.len() ==> (#[trigger] self.tracks@[i]).idx_wf(
                self.artists@.len() as int,
                self.tags@.len() as int,
            )
        &&& forall|i: int|
            0 <= i < self.playlists@.len() ==> items_wf(
                (#[trigger] self.playlists@[i]).items@,
                self.tracks@.len() as int,
            ) && self.playlists@[i].wf()
    }

    /// Whether some track carries the tag at table position `t`.
    pub open spec fn tag_held(self, t: int) -> bool {
        tag_held_by(self.tracks@, t)
    }

    /// Every tag of the table is carried by at least one track.
    pub open spec fn all_tags_held(self) -> bool {
        forall|t: int| 0 <= t < self.tags@.len() ==> #[trigger] self.tag_held(t)
    }

    /// Whether some track names the artist at table position `a`.
    pub open spec fn artist_held(self, a: int) -> bool {
        exists|i: int|
            0 <= i < self.tracks@.len() && self.tracks@[i].artist == Some(a as usize)
    }

    /// Every artist of the table is named by at least one track.
    pub open spec fn all_artists_held(self) -> bool {
        forall|a: int| 0 <= a < self.artists@.len() ==> #[trigger] self.artist_held(a)
    }

    /// The tracks with their interned references spelled out as strings.
    pub open spec fn track_models(self) -> Seq<TrackModel> {
        Seq::new(
            self.tracks@.len(),
            |i: int|
                self.tracks@[i].model(string_views(self.artists@), string_views(self.tags@)),
        )
    }

    /// An empty catalog rooted at `root`.
    pub fn empty(root: String) -> (r: MusicLibrary)
        ensures
            r.path == root,
            r.tracks@.len() == 0,
            r.playlists@.len() == 0,
            r.artists@.len() == 0,
            r.tags@.len() == 0,
            r.wf(),
            r.all_tags_held(),
            r.all_artists_held(),
    {
        MusicLibrary {
            path: root,
            tracks: Vec::new(),
            playlists: Vec::new(),
            artists: Vec::new(),
            tags: Vec::new(),
        }
    }

    /// The track arena. Canonical instances: every playlist item and every
    /// interface selection refers to a track by its index in here.
    pub fn get_tracks(&self) -> (r: &Vec<Track>)
        ensures
            r == &self.tracks,
    {
        &self.tracks
    }

    /// Interns `tag` in the tag table (reusing the entry when an equal
    /// string is present, inserting it otherwise), appends the interned
    /// reference to the chosen track, and re-sorts the table ascending by
    /// the lowercase form of its entries, renumbering every track's
    /// references so each track still spells the same tag strings.
    pub fn add_tag(&mut self, track: usize, tag: &String)
        requires
            track < old(self).tracks@.len(),
            old(self).wf(),
        ensures
            final(self).wf(),
            final(self).path == old(self).path,
            final(self).artists == old(self).artists,
            final(self).playlists == old(self).playlists,
            ({
                let before = crate::ingest::interned_views(string_views(old(self).tags@), tag@);
                let after = string_views(final(self).tags@);
                &&& after.len() == before.len()
                &&& forall|v: Seq<char>|
                    #[trigger] contains_view(after, v) <==> contains_view(before, v)
                &&& sorted_by_lowercase(after)
                &&& seq_distinct(after)
            }),
            final(self).tracks@.len() == old(self).tracks@.len(),
            forall|i: int|
                0 <= i < old(self).tracks@.len() ==> {
                    let t_old = old(self).tracks@[i];
                    let t_new = #[trigger] final(self).tracks@[i];
                    &&& t_new.path == t_old.path
                    &&& t_new.name == t_old.name
                    &&& t_new.artist == t_old.artist
                    &&& t_new.album_art == t_old.album_art
                    &&& (i != track ==> tag_views_of(t_new, string_views(final(self).tags@))
                        == tag_views_of(t_old, string_views(old(self).tags@)))
                    &&& (i == track ==> tag_views_of(t_new, string_views(final(self).tags@))
                        == tag_views_of(t_old, string_views(old(self).tags@)).push(tag@))
                },
    {
        let ghost views0 = string_views(self.tags@);
        let idx = crate::ingest::intern(&mut self.tags, tag);
        let ghost views1 = string_views(self.tags@);
        let ghost tracks0 = self.tracks@;
        let t = &mut self.tracks[track];
        t.add_tag(idx);
        proof {
            assert(final(t).tags@ == tracks0[track as int].tags@.push(idx));
            assert(self.tracks@ =~= tracks0.update(track as int, self.tracks@[track as int]));
            assert forall|i: int|
                0 <= i < self.tracks@.len() implies (#[trigger] self.tracks@[i]).idx_wf(
                self.artists@.len() as int,
                self.tags@.len() as int,
            ) by {
                assert(tracks0[i].idx_wf(
                    old(self).artists@.len() as int,
                    old(self).tags@.len() as int,
                ));
                assert(views0.len() <= views1.len());
            }
            // Under the grown table the untouched tracks spell the same
            // strings, and the chosen track gains exactly `tag`.
            assert forall|i: int|
                0 <= i < self.tracks@.len() && i != track implies #[trigger] tag_views_of(
                self.tracks@[i],
                views1,
            ) == tag_views_of(tracks0[i], views0) by {
                assert(tracks0[i].idx_wf(
                    old(self).artists@.len() as int,
                    old(self).tags@.len() as int,
                ));
                assert(tag_views_of(self.tracks@[i], views1) =~= tag_views_of(
                    tracks0[i],
                    views0,
                ));
            }
            assert(tag_views_of(self.tracks@[track as int], views1) =~= tag_views_of(
                tracks0[track as int],
                views0,
            ).push(tag@)) by {
                assert(tracks0[track as int].idx_wf(
                    old(self).artists@.len() as int,
                    old(self).tags@.len() as int,
                ));
                assert(views1[idx as int] == tag@);
            }
        }
        self.sort_tags();
        proof {
            assert(track_paths(self.tracks@) =~= track_paths(old(self).tracks@));
            assert forall|v: Seq<char>|
                #[trigger] contains_view(string_views(self.tags@), v) <==> contains_view(
                crate::ingest::interned_views(views0, tag@),
                v,
            ) by {
                assert(views1 == crate::ingest::interned_views(views0, tag@));
            }
        }
    }

    /// Re-sorts the tag table ascending by the lowercase form of its
    /// entries and renumbers every track's tag references so each track
    /// still spells exactly the same strings.
    fn sort_tags(&mut self)
        requires
            seq_distinct(string_views(old(self).tags@)),
            forall|i: int|
                0 <= i < old(self).tracks@.len() ==> (#[trigger] old(self).tracks@[i]).idx_wf(
                    old(self).artists@.len() as int,
                    old(self).tags@.len() as int,
                ),
        ensures
            final(self).path == old(self).path,
            final(self).artists == old(self).artists,
            final(self).playlists == old(self).playlists,
            final(self).tags@.len() == old(self).tags@.len(),
            seq_distinct(string_views(final(self).tags@)),
            sorted_by_lowercase(string_views(final(self).tags@)),
            forall|v: Seq<char>|
                #[trigger] contains_view(string_views(final(self).tags@), v) <==> contains_view(
                    string_views(old(self).tags@),
                    v,
                ),
            final(self).tracks@.len() == old(self).tracks@.len(),
            forall|i: int|
                0 <= i < old(self).tracks@.len() ==> {
                    let t_old = old(self).tracks@[i];
                    let t_new = #[trigger] final(self).tracks@[i];
                    &&& t_new.path == t_old.path
                    &&& t_new.name == t_old.name
                    &&& t_new.artist == t_old.artist
                    &&& t_new.album_art == t_old.album_art
                    &&& tag_views_of(t_new, string_views(final(self).tags@)) == tag_views_of(
                        t_old,
                        string_views(old(self).tags@),
                    )
                },
            forall|i: int|
                0 <= i < final(self).tracks@.len() ==> (#[trigger] final(self).tracks@[i]).idx_wf(
                    final(self).artists@.len() as int,
                    final(self).tags@.len() as int,
                ),
    {
        let ghost views0 = string_views(self.tags@);
        let ghost tracks0 = self.tracks@;
        let n = self.tags.len();
        let n_tracks = self.tracks.len();

        // The sort keys: the lowercase form of each entry.
        let mut keys: Vec<String> = Vec::new();
        let mut g: usize = 0;
        while g < n
            invariant
                g <= n,
                n == self.tags@.len(),
                views0 == string_views(self.tags@),
                keys@.len() == g,
                forall|j: int| 0 <= j < g ==> (#[trigger] keys@[j])@ == lower_of(views0[j]),
            decreases n - g,
        {
            let k = lowercase(self.tags[g].as_str());
            keys.push(k);
            proof {
                assert(views0[g as int] == self.tags@[g as int]@);
            }
            g = g + 1;
        }

        // `order[j]` is the old position of the j-th entry of the sorted
        // table: built by inserting each position after every earlier one
        // whose key does not exceed its own, so equal keys keep their
        // relative order.
        let mut order: Vec<usize> = Vec::new();
        let mut g: usize = 0;
        while g < n
            invariant
                g <= n,
                n == self.tags@.len(),
                views0 == string_views(self.tags@),
                keys@.len() == n,
                forall|j: int| 0 <= j < n ==> (#[trigger] keys@[j])@ == lower_of(views0[j]),
                order@.len() == g,
                forall|j: int| 0 <= j < g ==> (#[trigger] order@[j] as int) < g,
                forall|j: int, k: int| 0 <= j < k < g ==> order@[j] != order@[k],
                forall|q: int| 0 <= q < g ==> #[trigger] crate::ingest::covered_by(order@, q),
                forall|j: int|
                    0 <= j < g - 1 ==> lex_le(
                        lower_of(views0[#[trigger] order@[j] as int]),
                        lower_of(views0[order@[j + 1] as int]),
                    ),
            decreases n - g,
        {
            let m = order.len();
            let mut p: usize = 0;
            while p < m && str_lex_le(keys[order[p]].as_str(), keys[g].as_str())
                invariant
                    p <= m,
                    m == order@.len(),
                    g < n,
                    n == self.tags@.len(),
                    views0 == string_views(self.tags@),
                    keys@.len() == n,
                    forall|j: int| 0 <= j < n ==> (#[trigger] keys@[j])@ == lower_of(views0[j]),
                    forall|j: int| 0 <= j < m ==> (#[trigger] order@[j] as int) < g,
                    forall|j: int|
                        0 <= j < p ==> lex_le(
                            lower_of(views0[#[trigger] order@[j] as int]),
                            lower_of(views0[g as int]),
                        ),
                decreases m - p,
            {
                p = p + 1;
            }
            let ghost order_pre = order@;
            order.insert(p, g);
            proof {
                let on = order@;
                assert forall|j: int| 0 <= j < on.len() implies #[trigger] on[j] == (if j < p {
                    order_pre[j]
                } else if j == p {
                    g as usize
                } else {
                    order_pre[j - 1]
                }) by {
                    if j < p {
                        assert(on[j] == order_pre.subrange(0, p as int).push(g as usize)[j]);
                    } else if j > p {
                        assert(on[j] == order_pre.subrange(p as int, order_pre.len() as int)[j - p
                            - 1]);
                    }
                }
                assert forall|j: int, k: int| 0 <= j < k < g + 1 implies on[j] != on[k] by {
                    if j != p && k != p {
                        let ja: int = if j < p {
                            j
                        } else {
                            j - 1
                        };
                        let ka: int = if k < p {
                            k
                        } else {
                            k - 1
                        };
                        assert(order_pre[ja] != order_pre[ka]);
                    } else if j == p {
                        assert(on[j] == g as usize);
                        assert((on[k] as int) < g);
                    } else {
                        assert(on[k] == g as usize);
                        assert((on[j] as int) < g);
                    }
                }
                assert forall|q: int|
                    0 <= q < g + 1 implies #[trigger] crate::ingest::covered_by(on, q) by {
                    if q < g {
                        assert(crate::ingest::covered_by(order_pre, q));
                        let j = choose|j: int|
                            0 <= j < order_pre.len() && order_pre[j] as int == q;
                        if j < p {
                            assert(on[j] as int == q);
                        } else {
                            assert(on[j + 1] as int == q);
                        }
                    } else {
                        assert(on[p as int] as int == q);
                    }
                }
                assert forall|j: int|
                    0 <= j < g implies lex_le(
                    lower_of(views0[#[trigger] on[j] as int]),
                    lower_of(views0[on[j + 1] as int]),
                ) by {
                    if j + 1 < p {
                        assert(lex_le(
                            lower_of(views0[order_pre[j] as int]),
                            lower_of(views0[order_pre[j + 1] as int]),
                        ));
                    } else if j + 1 == p {
                        assert(lex_le(
                            lower_of(views0[order_pre[j] as int]),
                            lower_of(views0[g as int]),
                        ));
                    } else if j == p {
                        assert(!lex_le(
                            lower_of(views0[order_pre[p as int] as int]),
                            lower_of(views0[g as int]),
                        ));
                        lemma_lex_le_total(
                            lower_of(views0[order_pre[p as int] as int]),
                            lower_of(views0[g as int]),
                        );
                    } else {
                        assert(lex_le(
                            lower_of(views0[order_pre[j - 1] as int]),
                            lower_of(views0[order_pre[j] as int]),
                        ));
                    }
                }
            }
            g = g + 1;
        }

        // The sorted table, and the renumbering of old positions into it.
        let mut new_tags: Vec<String> = Vec::new();
        let mut j: usize = 0;
        while j < n
            invariant
                j <= n,
                n == self.tags@.len(),
                views0 == string_views(self.tags@),
                order@.len() == n,
                forall|k: int| 0 <= k < n ==> (#[trigger] order@[k] as int) < n,
                new_tags@.len() == j,
                forall|k: int|
                    0 <= k < j ==> (#[trigger] new_tags@[k])@ == views0[order@[k] as int],
            decreases n - j,
        {
            new_tags.push(self.tags[order[j]].clone());
            j = j + 1;
        }
        let mut remap: Vec<usize> = Vec::new();
        let mut j: usize = 0;
        while j < n
            invariant
                j <= n,
                remap@.len() == j,
                forall|k: int| 0 <= k < j ==> remap@[k] == 0usize,
            decreases n - j,
        {
            remap.push(0);
            j = j + 1;
        }
        let mut j: usize = 0;
        while j < n
            invariant
                j <= n,
                n == self.tags@.len(),
                order@.len() == n,
                remap@.len() == n,
                forall|k: int| 0 <= k < n ==> (#[trigger] order@[k] as int) < n,
                forall|a: int, b: int| 0 <= a < b < n ==> order@[a] != order@[b],
                forall|k: int| 0 <= k < j ==> (remap@[#[trigger] order@[k] as int] as int) == k,
            decreases n - j,
        {
            let ghost remap_pre = remap@;
            let pos = order[j];
            remap.set(pos, j);
            proof {
                assert forall|k: int|
                    0 <= k < j + 1 implies (remap@[#[trigger] order@[k] as int] as int) == k by {
                    if k < j {
                        assert(order@[k] != order@[j as int]);
                        assert(remap@[order@[k] as int] == remap_pre[order@[k] as int]);
                    }
                }
            }
            j = j + 1;
        }
        proof {
            // Every old position is renumbered soundly: the entry at its new
            // position spells the same string.
            assert forall|q: int|
                0 <= q < n implies (remap@[q] as int) < n && string_views(new_tags@)[
                #[trigger] remap@[q] as int] == views0[q] by {
                assert(crate::ingest::covered_by(order@, q));
                let k = choose|k: int| 0 <= k < order@.len() && order@[k] as int == q;
                assert((remap@[order@[k] as int] as int) == k);
                assert(string_views(new_tags@)[k] == new_tags@[k]@);
                assert(new_tags@[k]@ == views0[order@[k] as int]);
            }
        }
        let ghost remap_g = remap@;
        let ghost newv = string_views(new_tags@);

        // Renumber every track's tag references into the sorted table.
        let mut i: usize = 0;
        while i < n_tracks
            invariant
                i <= n_tracks,
                n_tracks == tracks0.len(),
                self.tracks@.len() == tracks0.len(),
                self.tags@.len() == n,
                self.tags == old(self).tags,
                self.artists == old(self).artists,
                self.path == old(self).path,
                self.playlists == old(self).playlists,
                views0 == string_views(self.tags@),
                tracks0 == old(self).tracks@,
                forall|q: int|
                    0 <= q < old(self).tracks@.len() ==> (#[trigger] old(self).tracks@[q]).idx_wf(
                        old(self).artists@.len() as int,
                        old(self).tags@.len() as int,
                    ),
                remap_g.len() == n,
                remap@ == remap_g,
                newv.len() == n,
                forall|q: int|
                    0 <= q < n ==> (#[trigger] remap_g[q] as int) < n && newv[remap_g[q] as int]
                        == views0[q],
                forall|j: int| i <= j < n_tracks ==> self.tracks@[j] == tracks0[j],
                forall|j: int|
                    0 <= j < i ==> {
                        let t_old = tracks0[j];
                        let t_new = #[trigger] self.tracks@[j];
                        &&& t_new.path == t_old.path
                        &&& t_new.name == t_old.name
                        &&& t_new.artist == t_old.artist
                        &&& t_new.album_art == t_old.album_art
                        &&& t_new.tags@.len() == t_old.tags@.len()
                        &&& forall|b: int|
                            0 <= b < t_old.tags@.len() ==> #[trigger] t_new.tags@[b]
                                == remap_g[t_old.tags@[b] as int]
                    },
            decreases n_tracks - i,
        {
            let m = self.tracks[i].tags.len();
            let mut renumbered: Vec<usize> = Vec::new();
            let mut b: usize = 0;
            while b < m
                invariant
                    b <= m,
                    i < n_tracks,
                    n_tracks == tracks0.len(),
                    self.tracks@.len() == tracks0.len(),
                    self.tracks@[i as int] == tracks0[i as int],
                    tracks0 == old(self).tracks@,
                    forall|q: int|
                        0 <= q < old(self).tracks@.len() ==> (
                        #[trigger] old(self).tracks@[q]).idx_wf(
                            old(self).artists@.len() as int,
                            old(self).tags@.len() as int,
                        ),
                    self.tags@.len() == n,
                    n == old(self).tags@.len(),
                    m == tracks0[i as int].tags@.len(),
                    remap_g.len() == n,
                    remap@ == remap_g,
                    renumbered@.len() == b,
                    forall|k: int|
                        0 <= k < b ==> #[trigger] renumbered@[k]
                            == remap_g[tracks0[i as int].tags@[k] as int],
                decreases m - b,
            {
                proof {
                    assert(tracks0[i as int].idx_wf(
                        old(self).artists@.len() as int,
                        old(self).tags@.len() as int,
                    ));
                }
                let t = self.tracks[i].tags[b];
                renumbered.push(remap[t]);
                b = b + 1;
            }
            let ghost tracks_pre = self.tracks@;
            let tr = &mut self.tracks[i];
            tr.tags = renumbered;
            proof {
                assert(final(tr).path == tracks0[i as int].path);
                assert(self.tracks@ =~= tracks_pre.update(i as int, self.tracks@[i as int]));
            }
            i = i + 1;
        }

        self.tags = new_tags;
        proof {
            let vnew = string_views(self.tags@);
            assert(vnew == newv);
            // Distinctness survives reordering distinct entries.
            assert forall|a: int, b: int| 0 <= a < b < vnew.len() implies vnew[a] != vnew[b] by {
                assert(vnew[a] == views0[order@[a] as int]);
                assert(vnew[b] == views0[order@[b] as int]);
                assert(order@[a] != order@[b]);
                if (order@[a] as int) < (order@[b] as int) {
                    assert(views0[order@[a] as int] != views0[order@[b] as int]);
                } else {
                    assert(views0[order@[b] as int] != views0[order@[a] as int]);
                }
            }
            // Sortedness comes straight from the insertion order.
            assert forall|a: int|
                0 <= a < vnew.len() - 1 implies lex_le(
                lower_of(#[trigger] vnew[a]),
                lower_of(vnew[a + 1]),
            ) by {
                assert(lex_le(
                    lower_of(views0[order@[a] as int]),
                    lower_of(views0[order@[a + 1] as int]),
                ));
            }
            // Same members: the table is a permutation of the old one.
            assert forall|v: Seq<char>|
                #[trigger] contains_view(vnew, v) <==> contains_view(views0, v) by {
                if contains_view(vnew, v) {
                    let a = choose|a: int| 0 <= a < vnew.len() && vnew[a] == v;
                    assert(views0[order@[a] as int] == v);
                }
                if contains_view(views0, v) {
                    let q = choose|q: int| 0 <= q < views0.len() && views0[q] == v;
                    assert(newv[remap_g[q] as int] == v);
                }
            }
            // Each track spells the same strings through the sorted table.
            assert forall|i: int|
                0 <= i < tracks0.len() implies #[trigger] tag_views_of(self.tracks@[i], vnew)
                == tag_views_of(tracks0[i], views0) by {
                assert(tracks0[i].idx_wf(
                    old(self).artists@.len() as int,
                    old(self).tags@.len() as int,
                ));
                assert forall|b: int|
                    0 <= b < tracks0[i].tags@.len() implies tag_views_of(self.tracks@[i], vnew)[b]
                    == tag_views_of(tracks0[i], views0)[b] by {
                    let q = tracks0[i].tags@[b] as int;
                    assert(self.tracks@[i].tags@[b] == remap_g[q]);
                    assert(vnew[remap_g[q] as int] == views0[q]);
                }
                assert(tag_views_of(self.tracks@[i], vnew) =~= tag_views_of(tracks0[i], views0));
            }
            // Renumbered references stay inside the table.
            assert forall|i: int|
                0 <= i < self.tracks@.len() implies (#[trigger] self.tracks@[i]).idx_wf(
                self.artists@.len() as int,
                self.tags@.len() as int,
            ) by {
                assert(tracks0[i].idx_wf(
                    old(self).artists@.len() as int,
                    old(self).tags@.len() as int,
                ));
                assert forall|b: int|
                    0 <= b < self.tracks@[i].tags@.len() implies (self.tracks@[i].tags@[b] as int)
                    < self.tags@.len() by {
                    let q = tracks0[i].tags@[b] as int;
                    assert(self.tracks@[i].tags@[b] == remap_g[q]);
                }
            }
        }
    }

    /// Garbage-collects the tag table: every tag no track carries any more
    /// is removed, every tag some track still carries is kept, in table
    /// order, and the tracks' tag references are renumbered so that each
    /// track still spells exactly the same tag strings as before. Afterwards
    /// every remaining tag has at least one holder, so collecting again
    /// removes nothing (see `lemma_gc_idempotent`).
    pub fn gc_tags(&mut self)
        requires
            old(self).wf(),
        ensures
            final(self).wf(),
            final(self).all_tags_held(),
            final(self).path == old(self).path,
            final(self).artists == old(self).artists,
            final(self).playlists == old(self).playlists,
            string_views(final(self).tags@) == kept_tags_upto(
                string_views(old(self).tags@),
                old(self).tracks@,
                old(self).tags@.len() as int,
            ),
            final(self).tracks@.len() == old(self).tracks@.len(),
            forall|i: int|
                0 <= i < old(self).tracks@.len() ==> {
                    let t_old = old(self).tracks@[i];
                    let t_new = #[trigger] final(self).tracks@[i];
                    &&& t_new.path == t_old.path
                    &&& t_new.name == t_old.name
                    &&& t_new.artist == t_old.artist
                    &&& t_new.album_art == t_old.album_art
                    &&& tag_views_of(t_new, string_views(final(self).tags@)) == tag_views_of(
                        t_old,
                        string_views(old(self).tags@),
                    )
                },
    {
        let ghost tracks0 = self.tracks@;
        let ghost views0 = string_views(self.tags@);
        let n_tags = self.tags.len();
        let n_tracks = self.tracks.len();

        // Mark which table positions some track still carries.
        let mut held: Vec<bool> = Vec::new();
        let mut g: usize = 0;
        while g < n_tags
            invariant
                g <= n_tags,
                held@.len() == g,
                forall|q: int| 0 <= q < g ==> held@[q] == false,
            decreases n_tags - g,
        {
            held.push(false);
            g = g + 1;
        }
        let mut i: usize = 0;
        proof {
            assert forall|q: int|
                0 <= q < n_tags implies held@[q] == tag_held_by(tracks0.take(0), q) by {
                if tag_held_by(tracks0.take(0), q) {
                    let (a, b) = choose|a: int, b: int|
                        0 <= a < tracks0.take(0).len() && 0 <= b < tracks0.take(0)[a].tags@.len()
                            && tracks0.take(0)[a].tags@[b] as int == q;
                }
            }
        }
        while i < n_tracks
            invariant
                i <= n_tracks,
                n_tracks == tracks0.len(),
                self.tracks@ == tracks0,
                self.tags@.len() == n_tags,
                old(self).wf(),
                tracks0 == old(self).tracks@,
                held@.len() == n_tags,
                forall|q: int| 0 <= q < n_tags ==> held@[q] == tag_held_by(tracks0.take(i as int), q),
            decreases n_tracks - i,
        {
            let m = self.tracks[i].tags.len();
            let mut j: usize = 0;
            while j < m
                invariant
                    j <= m,
                    i < n_tracks,
                    n_tracks == tracks0.len(),
                    self.tracks@ == tracks0,
                    self.tags@.len() == n_tags,
                    old(self).wf(),
                    tracks0 == old(self).tracks@,
                    m == tracks0[i as int].tags@.len(),
                    held@.len() == n_tags,
                    forall|q: int|
                        0 <= q < n_tags ==> held@[q] == (tag_held_by(tracks0.take(i as int), q)
                            || exists|b: int|
                            0 <= b < j && tracks0[i as int].tags@[b] as int == q),
                decreases m - j,
            {
                let ghost held_pre = held@;
                let t = self.tracks[i].tags[j];
                proof {
                    assert(tracks0[i as int].idx_wf(
                        old(self).artists@.len() as int,
                        old(self).tags@.len() as int,
                    ));
                }
                held.set(t, true);
                proof {
                    assert forall|q: int|
                        0 <= q < n_tags implies held@[q] == (tag_held_by(tracks0.take(i as int), q)
                        || exists|b: int|
                        0 <= b < j + 1 && tracks0[i as int].tags@[b] as int == q) by {
                        if q == t as int {
                            assert(tracks0[i as int].tags@[j as int] as int == q);
                        } else {
                            assert(held@[q] == held_pre[q]);
                            if exists|b: int|
                                0 <= b < j + 1 && tracks0[i as int].tags@[b] as int == q {
                                let b = choose|b: int|
                                    0 <= b < j + 1 && tracks0[i as int].tags@[b] as int == q;
                                assert(b < j);
                            }
                        }
                    }
                }
                j = j + 1;
            }
            proof {
                assert forall|q: int|
                    0 <= q < n_tags implies held@[q] == tag_held_by(tracks0.take(i + 1), q) by {
                    if held@[q] {
                        if tag_held_by(tracks0.take(i as int), q) {
                            let (a, b) = choose|a: int, b: int|
                                0 <= a < i && 0 <= b < tracks0.take(i as int)[a].tags@.len()
                                    && tracks0.take(i as int)[a].tags@[b] as int == q;
                            assert(tracks0.take(i + 1)[a].tags@[b] as int == q);
                        } else {
                            let b = choose|b: int|
                                0 <= b < m && tracks0[i as int].tags@[b] as int == q;
                            assert(tracks0.take(i + 1)[i as int].tags@[b] as int == q);
                        }
                    } else {
                        if tag_held_by(tracks0.take(i + 1), q) {
                            let (a, b) = choose|a: int, b: int|
                                0 <= a < i + 1 && 0 <= b < tracks0.take(i + 1)[a].tags@.len()
                                    && #[trigger] tracks0.take(i + 1)[a].tags@[b] as int == q;
                            if a < i {
                                assert(tracks0.take(i as int)[a].tags@[b] as int == q);
                            } else {
                                assert(tracks0[i as int].tags@[b] as int == q);
                            }
                        }
                    }
                }
            }
            i = i + 1;
        }
        proof {
            assert(tracks0.take(n_tracks as int) =~= tracks0);
        }

        // Build the surviving table and the renumbering of old positions.
        let mut remap: Vec<usize> = Vec::new();
        let mut new_tags: Vec<String> = Vec::new();
        let mut g: usize = 0;
        while g < n_tags
            invariant
                g <= n_tags,
                self.tags@.len() == n_tags,
                n_tags == old(self).tags@.len(),
                views0 == string_views(self.tags@),
                self.tracks@ == tracks0,
                old(self).wf(),
                tracks0 == old(self).tracks@,
                held@.len() == n_tags,
                forall|q: int| 0 <= q < n_tags ==> held@[q] == tag_held_by(tracks0, q),
                remap@.len() == g,
                string_views(new_tags@) == kept_tags_upto(views0, tracks0, g as int),
                new_tags@.len() <= g,
                forall|q: int|
                    0 <= q < g ==> #[trigger] remap_ok(
                        remap@,
                        held@,
                        string_views(new_tags@),
                        views0,
                        q,
                    ),
                forall|p: int|
                    0 <= p < new_tags@.len() ==> #[trigger] remap_covers(remap@, held@, g as int, p),
            decreases n_tags - g,
        {
            let ghost new_pre = new_tags@;
            let ghost remap_pre = remap@;
            if held[g] {
                remap.push(new_tags.len());
                new_tags.push(self.tags[g].clone());
                proof {
                    assert(string_views(new_tags@) =~= string_views(new_pre).push(views0[g as int]));
                    assert(string_views(new_tags@) =~= kept_tags_upto(views0, tracks0, g + 1));
                }
            } else {
                remap.push(0);
                proof {
                    assert(string_views(new_tags@) =~= string_views(new_pre));
                    assert(string_views(new_tags@) =~= kept_tags_upto(views0, tracks0, g + 1));
                }
            }
            proof {
                assert forall|x: int|
                    0 <= x < new_pre.len() implies string_views(new_tags@)[x] == string_views(
                    new_pre,
                )[x] by {}
                assert forall|q: int|
                    0 <= q < g + 1 implies #[trigger] remap_ok(
                    remap@,
                    held@,
                    string_views(new_tags@),
                    views0,
                    q,
                ) by {
                    if q < g {
                        assert(remap_ok(remap_pre, held@, string_views(new_pre), views0, q));
                        assert(remap@[q] == remap_pre[q]);
                    } else if held@[q] {
                        assert(remap@[g as int] as int == new_pre.len());
                    }
                }
                assert forall|p: int|
                    0 <= p < new_tags@.len() implies #[trigger] remap_covers(
                    remap@,
                    held@,
                    g + 1,
                    p,
                ) by {
                    if p < new_pre.len() {
                        assert(remap_covers(remap_pre, held@, g as int, p));
                        let q = choose|q: int|
                            0 <= q < g && held@[q] && remap_pre[q] as int == p;
                        assert(remap@[q] as int == p);
                    } else {
                        assert(held@[g as int] && remap@[g as int] as int == p);
                    }
                }
            }
            g = g + 1;
        }

        // Renumber every track's tag references into the surviving table.
        let mut i: usize = 0;
        while i < n_tracks
            invariant
                i <= n_tracks,
                n_tracks == tracks0.len(),
                self.tracks@.len() == tracks0.len(),
                self.tags@.len() == n_tags,
                n_tags == old(self).tags@.len(),
                self.tags == old(self).tags,
                self.artists == old(self).artists,
                self.path == old(self).path,
                self.playlists == old(self).playlists,
                views0 == string_views(self.tags@),
                old(self).wf(),
                tracks0 == old(self).tracks@,
                held@.len() == n_tags,
                remap@.len() == n_tags,
                string_views(new_tags@) == kept_tags_upto(views0, tracks0, n_tags as int),
                forall|p: int|
                    0 <= p < new_tags@.len() ==> #[trigger] remap_covers(
                        remap@,
                        held@,
                        n_tags as int,
                        p,
                    ),
                forall|q: int| 0 <= q < n_tags ==> held@[q] == tag_held_by(tracks0, q),
                forall|q: int|
                    0 <= q < n_tags ==> #[trigger] remap_ok(
                        remap@,
                        held@,
                        string_views(new_tags@),
                        views0,
                        q,
                    ),
                forall|j: int| i <= j < n_tracks ==> self.tracks@[j] == tracks0[j],
                forall|j: int|
                    0 <= j < i ==> {
                        let t_old = tracks0[j];
                        let t_new = #[trigger] self.tracks@[j];
                        &&& t_new.path == t_old.path
                        &&& t_new.name == t_old.name
                        &&& t_new.artist == t_old.artist
                        &&& t_new.album_art == t_old.album_art
                        &&& t_new.tags@.len() == t_old.tags@.len()
                        &&& forall|b: int|
                            0 <= b < t_old.tags@.len() ==> #[trigger] t_new.tags@[b]
                                == remap@[t_old.tags@[b] as int]
                    },
            decreases n_tracks - i,
        {
            let m = self.tracks[i].tags.len();
            let mut renumbered: Vec<usize> = Vec::new();
            let mut j: usize = 0;
            while j < m
                invariant
                    j <= m,
                    i < n_tracks,
                    n_tracks == tracks0.len(),
                    self.tracks@.len() == tracks0.len(),
                    self.tracks@[i as int] == tracks0[i as int],
                    old(self).wf(),
                    tracks0 == old(self).tracks@,
                    self.tags@.len() == n_tags,
                    n_tags == old(self).tags@.len(),
                    self.tags == old(self).tags,
                    self.artists == old(self).artists,
                    self.path == old(self).path,
                    self.playlists == old(self).playlists,
                    m == tracks0[i as int].tags@.len(),
                    remap@.len() == n_tags,
                    renumbered@.len() == j,
                    forall|b: int|
                        0 <= b < j ==> #[trigger] renumbered@[b]
                            == remap@[tracks0[i as int].tags@[b] as int],
                decreases m - j,
            {
                proof {
                    assert(tracks0[i as int].idx_wf(
                        old(self).artists@.len() as int,
                        old(self).tags@.len() as int,
                    ));
                }
                let t = self.tracks[i].tags[j];
                renumbered.push(remap[t]);
                j = j + 1;
            }
            let ghost tracks_pre = self.tracks@;
            let tr = &mut self.tracks[i];
            tr.tags = renumbered;
            proof {
                assert(final(tr).path == tracks0[i as int].path);
                assert(self.tracks@ =~= tracks_pre.update(i as int, self.tracks@[i as int]));
            }
            i = i + 1;
        }

        let ghost new_len = new_tags@.len();
        self.tags = new_tags;
        proof {
            let vnew = string_views(self.tags@);
            assert(vnew == kept_tags_upto(views0, tracks0, n_tags as int));
            assert(vnew.len() == new_len);
            // Distinctness of the surviving table.
            assert forall|a: int, b: int| 0 <= a < b < vnew.len() implies vnew[a] != vnew[b] by {
                assert(remap_covers(remap@, held@, n_tags as int, a));
                assert(remap_covers(remap@, held@, n_tags as int, b));
                let qa = choose|q: int|
                    0 <= q < n_tags && held@[q] && remap@[q] as int == a;
                let qb = choose|q: int|
                    0 <= q < n_tags && held@[q] && remap@[q] as int == b;
                assert(remap_ok(remap@, held@, vnew, views0, qa));
                assert(remap_ok(remap@, held@, vnew, views0, qb));
                assert(vnew[a] == views0[qa]);
                assert(vnew[b] == views0[qb]);
                if qa < qb {
                    assert(views0[qa] != views0[qb]);
                } else if qb < qa {
                    assert(views0[qb] != views0[qa]);
                }
            }
            // Every kept tag has a holder, under the renumbered references.
            assert forall|p: int| 0 <= p < self.tags@.len() implies #[trigger] self.tag_held(p) by {
                assert(remap_covers(remap@, held@, n_tags as int, p));
                let q = choose|q: int|
                    0 <= q < n_tags && held@[q] && remap@[q] as int == p;
                assert(tag_held_by(tracks0, q));
                let (a, b) = choose|a: int, b: int|
                    0 <= a < tracks0.len() && 0 <= b < tracks0[a].tags@.len()
                        && tracks0[a].tags@[b] as int == q;
                assert(self.tracks@[a].tags@[b] == remap@[q]);
                assert(self.tracks@[a].tags@[b] as int == p);
            }
            // Track contents, read as strings, are unchanged.
            assert forall|i: int|
                0 <= i < tracks0.len() implies #[trigger] tag_views_of(self.tracks@[i], vnew)
                == tag_views_of(tracks0[i], views0) by {
                assert(tracks0[i].idx_wf(
                    old(self).artists@.len() as int,
                    old(self).tags@.len() as int,
                ));
                assert forall|b: int|
                    0 <= b < tracks0[i].tags@.len() implies tag_views_of(self.tracks@[i], vnew)[b]
                    == tag_views_of(tracks0[i], views0)[b] by {
                    let q = tracks0[i].tags@[b] as int;
                    assert(tag_held_by(tracks0, q)) by {
                        assert(tracks0[i].tags@[b] as int == q);
                    }
                    assert(held@[q]);
                    assert(remap_ok(remap@, held@, vnew, views0, q));
                    assert(self.tracks@[i].tags@[b] == remap@[q]);
                    assert(vnew[remap@[q] as int] == views0[q]);
                }
                assert(tag_views_of(self.tracks@[i], vnew) =~= tag_views_of(tracks0[i], views0));
            }
            // Well-formedness of the collected catalog.
            assert(track_paths(self.tracks@) =~= track_paths(tracks0));
            assert forall|i: int|
                0 <= i < self.tracks@.len() implies (#[trigger] self.tracks@[i]).idx_wf(
                self.artists@.len() as int,
                self.tags@.len() as int,
            ) by {
                assert(tracks0[i].idx_wf(
                    old(self).artists@.len() as int,
                    old(self).tags@.len() as int,
                ));
                assert forall|b: int|
                    0 <= b < self.tracks@[i].tags@.len() implies (self.tracks@[i].tags@[b] as int)
                    < self.tags@.len() by {
                    let q = tracks0[i].tags@[b] as int;
                    assert(tag_held_by(tracks0, q)) by {
                        assert(tracks0[i].tags@[b] as int == q);
                    }
                    assert(held@[q]);
                    assert(remap_ok(remap@, held@, vnew, views0, q));
                    assert(self.tracks@[i].tags@[b] == remap@[q]);
                }
            }
        }
    }
}

/// Dedup invariant: in a well-formed catalog two track positions with the
/// same path are the same position, so every holder of a path observes the
/// one canonical track instance.
pub proof fn lemma_track_identity_unique(lib: MusicLibrary, i: int, j: int)
    requires
        lib.wf(),
        0 <= i < lib.tracks@.len(),
        0 <= j < lib.tracks@.len(),
        lib.tracks@[i].path@ == lib.tracks@[j].path@,
    ensures
        i == j,
{
    assert(track_paths(lib.tracks@)[i] == lib.tracks@[i].path@);
    assert(track_paths(lib.tracks@)[j] == lib.tracks@[j].path@);
    if i < j {
        assert(track_paths(lib.tracks@)[i] != track_paths(lib.tracks@)[j]);
    } else if j < i {
        assert(track_paths(lib.tracks@)[j] != track_paths(lib.tracks@)[i]);
    }
}

/// Interning invariant for tags: in a well-formed catalog two tag-table
/// positions holding equal strings are the same position — exactly one
/// shared instance per distinct string.
pub proof fn lemma_tag_interning_unique(lib: MusicLibrary, i: int, j: int)
    requires
        lib.wf(),
        0 <= i < lib.tags@.len(),
        0 <= j < lib.tags@.len(),
        lib.tags@[i]@ == lib.tags@[j]@,
    ensures
        i == j,
{
    assert(string_views(lib.tags@)[i] == lib.tags@[i]@);
    assert(string_views(lib.tags@)[j] == lib.tags@[j]@);
    if i < j {
        assert(string_views(lib.tags@)[i] != string_views(lib.tags@)[j]);
    } else if j < i {
        assert(string_views(lib.tags@)[j] != string_views(lib.tags@)[i]);
    }
}

/// Interning invariant for artists: as for tags, one table entry per
/// distinct artist name.
pub proof fn lemma_artist_interning_unique(lib: MusicLibrary, i: int, j: int)
    requires
        lib.wf(),
        0 <= i < lib.artists@.len(),
        0 <= j < lib.artists@.len(),
        lib.artists@[i]@ == lib.artists@[j]@,
    ensures
        i == j,
{
    assert(string_views(lib.artists@)[i] == lib.artists@[i]@);
    assert(string_views(lib.artists@)[j] == lib.artists@[j]@);
    if i < j {
        assert(string_views(lib.artists@)[i] != string_views(lib.artists@)[j]);
    } else if j < i {
        assert(string_views(lib.artists@)[j] != string_views(lib.artists@)[i]);
    }
}

impl PartialEq for MusicLibrary {
    /// Equality as the catalog renders it: the common prefixes of the track
    /// lists, playlist lists and tag tables are compared entry by entry,
    /// together with the root path.
    fn eq(&self, other: &Self) -> (r: bool) {
        let tn = if self.tracks.len() < other.tracks.len() {
            self.tracks.len()
        } else {
            other.tracks.len()
        };
        let mut i: usize = 0;
        while i < tn
            invariant
                i <= tn,
                tn == zip_len(self.tracks@.len() as int, other.tracks@.len() as int),
                forall|j: int| 0 <= j < i ==> track_like(#[trigger] self.tracks@[j], other.tracks@[j]),
            decreases tn - i,
        {
            if !(self.tracks[i] == other.tracks[i]) {
                return false;
            }
            i = i + 1;
        }
        let pn = if self.playlists.len() < other.playlists.len() {
            self.playlists.len()
        } else {
            other.playlists.len()
        };
        let mut i: usize = 0;
        while i < pn
            invariant
                i <= pn,
                pn == zip_len(self.playlists@.len() as int, other.playlists@.len() as int),
                forall|j: int|
                    0 <= j < i ==> (#[trigger] self.playlists@[j]).model()
                        == other.playlists@[j].model(),
            decreases pn - i,
        {
            if !(self.playlists[i] == other.playlists[i]) {
                return false;
            }
            i = i + 1;
        }
        let gn = if self.tags.len() < other.tags.len() {
            self.tags.len()
        } else {
            other.tags.len()
        };
        let mut i: usize = 0;
        while i < gn
            invariant
                i <= gn,
                gn == zip_len(self.tags@.len() as int, other.tags@.len() as int),
                forall|j: int| 0 <= j < i ==> (#[trigger] self.tags@[j])@ == other.tags@[j]@,
            decreases gn - i,
        {
            if !(self.tags[i] == other.tags[i]) {
                return false;
            }
            i = i + 1;
        }
        self.path == other.path
    }
}

impl vstd::std_specs::cmp::PartialEqSpecImpl for MusicLibrary {
    open spec fn obeys_eq_spec() -> bool {
        true
    }

    open spec fn eq_spec(&self, other: &Self) -> bool {
        library_like(*self, *other)
    }
}

} // verus!
