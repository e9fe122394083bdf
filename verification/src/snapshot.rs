//! The persisted form of the catalog. A snapshot spells every interned
//! reference out as the string it stands for, and every track reference of a
//! playlist as the track's path, which is what resolution keys on when the
//! snapshot is loaded back.

use vstd::prelude::*;

use crate::music_library::{opt_view, track_paths, MusicLibrary, Track, TrackModel};
use crate::playlist::{item_models, items_wf, ItemModel, PlaybackMode, PlaylistItem};

verus! {

/// A track as persisted: artist and tags as plain strings.
#[derive(Debug)]
pub struct SnapshotTrack {
    pub path: String,
    pub name: String,
    pub artist: Option<String>,
    pub album_art: Option<String>,
    pub tags: Vec<String>,
}

impl SnapshotTrack {
    /// The persisted track in mathematical form.
    pub open spec fn model(self) -> TrackModel {
        TrackModel {
            path: self.path@,
            name: self.name@,
            artist: opt_view(self.artist),
            album_art: opt_view(self.album_art),
            tags: self.tags@.map_values(|s: String| s@),
        }
    }
}

/// The models of a sequence of persisted tracks.
pub open spec fn snap_track_models(ts: Seq<SnapshotTrack>) -> Seq<TrackModel> {
    ts.map_values(|t: SnapshotTrack| t.model())
}

/// The paths of a sequence of persisted tracks.
pub open spec fn snap_track_paths(ts: Seq<SnapshotTrack>) -> Seq<Seq<char>> {
    ts.map_values(|t: SnapshotTrack| t.path@)
}

/// A playlist item as persisted: tracks by path, playlists by identity.
#[derive(Debug)]
pub enum SnapshotItem {
    Track(String),
    Playlist(u128),
    Block(Vec<SnapshotItem>),
}

/// The mathematical shape of a persisted playlist item.
#[verifier::ext_equal]
pub enum SnapItemModel {
    Track(Seq<char>),
    Playlist(u128),
    Block(Seq<SnapItemModel>),
}

impl SnapshotItem {
    /// The mathematical shape of this persisted item.
    pub open spec fn model(self) -> SnapItemModel
        decreases self, 1int,
    {
        match self {
            SnapshotItem::Track(p) => SnapItemModel::Track(p@),
            SnapshotItem::Playlist(id) => SnapItemModel::Playlist(id),
            SnapshotItem::Block(v) => SnapItemModel::Block(snap_item_models(v@)),
        }
    }
}

/// The mathematical shapes of a sequence of persisted items.
pub open spec fn snap_item_models(items: Seq<SnapshotItem>) -> Seq<SnapItemModel>
    decreases items, 0int,
{
    if items.len() == 0 {
        Seq::empty()
    } else {
        snap_item_models(items.drop_last()).push(items.last().model())
    }
}

/// `snap_item_models` maps the sequence pointwise.
pub proof fn lemma_snap_item_models(items: Seq<SnapshotItem>)
    ensures
        snap_item_models(items).len() == items.len(),
        forall|i: int|
            0 <= i < items.len() ==> snap_item_models(items)[i] == #[trigger] items[i].model(),
    decreases items.len(),
{
    if items.len() > 0 {
        lemma_snap_item_models(items.drop_last());
        assert forall|i: int|
            0 <= i < items.len() implies snap_item_models(items)[i] == #[trigger] items[i].model() by {
            if i < items.len() - 1 {
                assert(items.drop_last()[i] == items[i]);
            } else {
                assert(items[i] == items.last());
            }
        }
    }
}

/// A playlist as persisted: the playback queue and lap flag are transient
/// and not written out.
#[derive(Debug)]
pub struct SnapshotPlaylist {
    pub name: Option<String>,
    pub items: Vec<SnapshotItem>,
    pub playback_mode: PlaybackMode,
    pub id: u128,
}

/// The mathematical shape of a persisted playlist.
#[verifier::ext_equal]
pub struct SnapPlaylistModel {
    pub name: Option<Seq<char>>,
    pub items: Seq<SnapItemModel>,
    pub playback_mode: PlaybackMode,
    pub id: u128,
}

impl SnapshotPlaylist {
    /// The persisted playlist in mathematical form.
    pub open spec fn model(self) -> SnapPlaylistModel {
        SnapPlaylistModel {
            name: opt_view(self.name),
            items: snap_item_models(self.items@),
            playback_mode: self.playback_mode,
            id: self.id,
        }
    }
}

/// The models of a sequence of persisted playlists.
pub open spec fn snap_playlist_models(ps: Seq<SnapshotPlaylist>) -> Seq<SnapPlaylistModel> {
    ps.map_values(|p: SnapshotPlaylist| p.model())
}

/// The identities of a sequence of persisted playlists.
pub open spec fn snap_playlist_ids(ps: Seq<SnapshotPlaylist>) -> Seq<u128> {
    ps.map_values(|p: SnapshotPlaylist| p.id)
}

/// The full persisted catalog.
#[derive(Debug)]
pub struct Snapshot {
    pub path: String,
    pub tracks: Vec<SnapshotTrack>,
    pub playlists: Vec<SnapshotPlaylist>,
    pub artists: Vec<String>,
    pub tags: Vec<String>,
}

/// A catalog item spelled out the way a snapshot stores it: track indices
/// become the tracks' paths.
pub open spec fn item_to_snap(m: ItemModel, paths: Seq<Seq<char>>) -> SnapItemModel
    decreases m, 1int,
{
    match m {
        ItemModel::Track(i) => SnapItemModel::Track(paths[i]),
        ItemModel::Playlist(id) => SnapItemModel::Playlist(id),
        ItemModel::Block(s) => SnapItemModel::Block(items_to_snap(s, paths)),
    }
}

/// A sequence of catalog items spelled out the way a snapshot stores them.
pub open spec fn items_to_snap(s: Seq<ItemModel>, paths: Seq<Seq<char>>) -> Seq<SnapItemModel>
    decreases s, 0int,
{
    if s.len() == 0 {
        Seq::empty()
    } else {
        items_to_snap(s.drop_last(), paths).push(item_to_snap(s.last(), paths))
    }
}

/// `items_to_snap` maps the sequence pointwise.
pub proof fn lemma_items_to_snap(s: Seq<ItemModel>, paths: Seq<Seq<char>>)
    ensures
        items_to_snap(s, paths).len() == s.len(),
        forall|i: int|
            0 <= i < s.len() ==> items_to_snap(s, paths)[i] == item_to_snap(#[trigger] s[i], paths),
    decreases s.len(),
{
    if s.len() > 0 {
        lemma_items_to_snap(s.drop_last(), paths);
        assert forall|i: int|
            0 <= i < s.len() implies items_to_snap(s, paths)[i] == item_to_snap(
            #[trigger] s[i],
            paths,
        ) by {
            if i < s.len() - 1 {
                assert(s.drop_last()[i] == s[i]);
            } else {
                assert(s[i] == s.last());
            }
        }
    }
}

/// One catalog item written in persisted form: the track reference becomes
/// the referenced track's path.
fn snap_of_item(item: &PlaylistItem, tracks: &Vec<Track>) -> (r: SnapshotItem)
    requires
        crate::playlist::item_wf(*item, tracks@.len() as int),
    ensures
        r.model() == item_to_snap(item.model(), track_paths(tracks@)),
    decreases *item,
{
    match item {
        PlaylistItem::Track(i) => {
            let r = SnapshotItem::Track(tracks[*i].path.clone());
            proof {
                assert(track_paths(tracks@)[*i as int] == tracks@[*i as int].path@);
            }
            r
        },
        PlaylistItem::Playlist(id) => SnapshotItem::Playlist(*id),
        PlaylistItem::Block(v) => {
            let n = v.len();
            let mut out: Vec<SnapshotItem> = Vec::new();
            let mut k: usize = 0;
            proof {
                crate::playlist::lemma_items_wf(v@, tracks@.len() as int);
            }
            while k < n
                invariant
                    k <= n,
                    n == v@.len(),
                    *item matches PlaylistItem::Block(vv) && vv == *v,
                    crate::playlist::item_wf(*item, tracks@.len() as int),
                    forall|j: int|
                        0 <= j < v@.len() ==> crate::playlist::item_wf(
                            #[trigger] v@[j],
                            tracks@.len() as int,
                        ),
                    out@.len() == k,
                    forall|j: int|
                        0 <= j < k ==> (#[trigger] out@[j]).model() == item_to_snap(
                            v@[j].model(),
                            track_paths(tracks@),
                        ),
                decreases n - k,
            {
                proof {
                    assert(decreases_to!(*item => v@[k as int]));
                }
                let s = snap_of_item(&v[k], tracks);
                out.push(s);
                k = k + 1;
            }
            let r = SnapshotItem::Block(out);
            proof {
                lemma_snap_item_models(out@);
                crate::playlist::lemma_item_models(v@);
                lemma_items_to_snap(item_models(v@), track_paths(tracks@));
                assert forall|j: int| 0 <= j < out@.len() implies snap_item_models(out@)[j]
                    == items_to_snap(item_models(v@), track_paths(tracks@))[j] by {
                    assert(out@[j].model() == item_to_snap(v@[j].model(), track_paths(tracks@)));
                    assert(item_models(v@)[j] == v@[j].model());
                }
                assert(snap_item_models(out@) =~= items_to_snap(
                    item_models(v@),
                    track_paths(tracks@),
                ));
            }
            r
        },
    }
}

impl MusicLibrary {
    /// The catalog written in persisted form: interned references spelled
    /// out as strings, track references as paths, tables and root copied.
    pub fn to_snapshot(&self) -> (r: Snapshot)
        requires
            self.wf(),
        ensures
            r.path@ == self.path@,
            snap_track_models(r.tracks@) == self.track_models(),
            snap_track_paths(r.tracks@) == track_paths(self.tracks@),
            crate::model::string_views(r.artists@) == crate::model::string_views(self.artists@),
            crate::model::string_views(r.tags@) == crate::model::string_views(self.tags@),
            snap_playlist_models(r.playlists@) == Seq::new(
                self.playlists@.len(),
                |i: int|
                    (SnapPlaylistModel {
                        name: opt_view(self.playlists@[i].name),
                        items: items_to_snap(
                            item_models(self.playlists@[i].items@),
                            track_paths(self.tracks@),
                        ),
                        playback_mode: self.playlists@[i].playback_mode,
                        id: self.playlists@[i].id,
                    }),
            ),
    {
        let mut tracks: Vec<SnapshotTrack> = Vec::new();
        let mut i: usize = 0;
        let n = self.tracks.len();
        while i < n
            invariant
                i <= n,
                n == self.tracks@.len(),
                self.wf(),
                tracks@.len() == i,
                forall|j: int|
                    0 <= j < i ==> (#[trigger] tracks@[j]).model() == self.track_models()[j],
                forall|j: int| 0 <= j < i ==> (#[trigger] tracks@[j]).path@ == self.tracks@[j].path@,
            decreases n - i,
        {
            let t = &self.tracks[i];
            let artist: Option<String> = match &t.artist {
                None => None,
                Some(a) => Some(self.artists[*a].clone()),
            };
            let album_art: Option<String> = match &t.album_art {
                None => None,
                Some(s) => Some(s.clone()),
            };
            let mut tag_strings: Vec<String> = Vec::new();
            let m = t.tags.len();
            let mut j: usize = 0;
            while j < m
                invariant
                    j <= m,
                    m == t.tags@.len(),
                    self.wf(),
                    t == &self.tracks@[i as int],
                    i < self.tracks@.len(),
                    tag_strings@.len() == j,
                    forall|p: int|
                        0 <= p < j ==> (#[trigger] tag_strings@[p])@ == self.tags@[t.tags@[p] as int]@,
                decreases m - j,
            {
                proof {
                    assert(self.tracks@[i as int].idx_wf(
                        self.artists@.len() as int,
                        self.tags@.len() as int,
                    ));
                }
                tag_strings.push(self.tags[t.tags[j]].clone());
                j = j + 1;
            }
            let st = SnapshotTrack {
                path: t.path.clone(),
                name: t.name.clone(),
                artist,
                album_art,
                tags: tag_strings,
            };
            proof {
                assert(self.tracks@[i as int].idx_wf(
                    self.artists@.len() as int,
                    self.tags@.len() as int,
                ));
                assert(st.model().tags =~= self.track_models()[i as int].tags);
                assert(st.model() =~= self.track_models()[i as int]);
            }
            tracks.push(st);
            i = i + 1;
        }
        let mut playlists: Vec<SnapshotPlaylist> = Vec::new();
        let np = self.playlists.len();
        let mut k: usize = 0;
        while k < np
            invariant
                k <= np,
                np == self.playlists@.len(),
                self.wf(),
                playlists@.len() == k,
                forall|j: int|
                    0 <= j < k ==> (#[trigger] playlists@[j]).model() == (SnapPlaylistModel {
                        name: opt_view(self.playlists@[j].name),
                        items: items_to_snap(
                            item_models(self.playlists@[j].items@),
                            track_paths(self.tracks@),
                        ),
                        playback_mode: self.playlists@[j].playback_mode,
                        id: self.playlists@[j].id,
                    }),
            decreases np - k,
        {
            let p = &self.playlists[k];
            let name: Option<String> = match &p.name {
                None => None,
                Some(s) => Some(s.clone()),
            };
            let ni = p.items.len();
            let mut items: Vec<SnapshotItem> = Vec::new();
            let mut q: usize = 0;
            proof {
                assert(items_wf(self.playlists@[k as int].items@, self.tracks@.len() as int));
                crate::playlist::lemma_items_wf(p.items@, self.tracks@.len() as int);
            }
            while q < ni
                invariant
                    q <= ni,
                    ni == p.items@.len(),
                    p == &self.playlists@[k as int],
                    k < self.playlists@.len(),
                    forall|j: int|
                        0 <= j < p.items@.len() ==> crate::playlist::item_wf(
                            #[trigger] p.items@[j],
                            self.tracks@.len() as int,
                        ),
                    items@.len() == q,
                    forall|j: int|
                        0 <= j < q ==> (#[trigger] items@[j]).model() == item_to_snap(
                            p.items@[j].model(),
                            track_paths(self.tracks@),
                        ),
                decreases ni - q,
            {
                let s = snap_of_item(&p.items[q], &self.tracks);
                items.push(s);
                q = q + 1;
            }
            let sp = SnapshotPlaylist {
                name,
                items,
                playback_mode: p.playback_mode,
                id: p.id,
            };
            proof {
                lemma_snap_item_models(sp.items@);
                crate::playlist::lemma_item_models(p.items@);
                lemma_items_to_snap(item_models(p.items@), track_paths(self.tracks@));
                assert forall|j: int| 0 <= j < sp.items@.len() implies snap_item_models(sp.items@)[j]
                    == items_to_snap(item_models(p.items@), track_paths(self.tracks@))[j] by {
                    assert(sp.items@[j].model() == item_to_snap(
                        p.items@[j].model(),
                        track_paths(self.tracks@),
                    ));
                    assert(item_models(p.items@)[j] == p.items@[j].model());
                }
                assert(snap_item_models(sp.items@) =~= items_to_snap(
                    item_models(p.items@),
                    track_paths(self.tracks@),
                ));
                assert(sp.model() =~= (SnapPlaylistModel {
                    name: opt_view(self.playlists@[k as int].name),
                    items: items_to_snap(
                        item_models(self.playlists@[k as int].items@),
                        track_paths(self.tracks@),
                    ),
                    playback_mode: self.playlists@[k as int].playback_mode,
                    id: self.playlists@[k as int].id,
                }));
            }
            playlists.push(sp);
            k = k + 1;
        }
        let r = Snapshot {
            path: self.path.clone(),
            tracks,
            playlists,
            artists: copy_strings(&self.artists),
            tags: copy_strings(&self.tags),
        };
        proof {
            assert(snap_track_models(r.tracks@) =~= self.track_models());
            assert(snap_track_paths(r.tracks@) =~= track_paths(self.tracks@));
            assert(snap_playlist_models(r.playlists@) =~= Seq::new(
                self.playlists@.len(),
                |i: int|
                    (SnapPlaylistModel {
                        name: opt_view(self.playlists@[i].name),
                        items: items_to_snap(
                            item_models(self.playlists@[i].items@),
                            track_paths(self.tracks@),
                        ),
                        playback_mode: self.playlists@[i].playback_mode,
                        id: self.playlists@[i].id,
                    }),
            ));
        }
        r
    }
}

/// A fresh vector holding clones of the given strings.
fn copy_strings(v: &Vec<String>) -> (r: Vec<String>)
    ensures
        r@ == v@,
{
    let mut r: Vec<String> = Vec::new();
    let n = v.len();
    let mut i: usize = 0;
    while i < n
        invariant
            i <= n,
            n == v@.len(),
            r@ == v@.take(i as int),
        decreases n - i,
    {
        r.push(v[i].clone());
        proof {
            assert(r@ =~= v@.take(i + 1));
        }
        i = i + 1;
    }
    proof {
        assert(v@.take(n as int) =~= v@);
    }
    r
}

} // verus!
