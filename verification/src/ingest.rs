//! Ingestion: merging a freshly scanned directory with a previously
//! persisted catalog into one canonical catalog with no duplicate
//! identities. Interning is the insert-or-get primitive the whole dedup
//! pass rests on.

use vstd::prelude::*;

use crate::model::{contains_view, lemma_view_index_unique, seq_distinct, string_views, view_index};
use crate::music_library::{playlist_ids, track_paths, MusicLibrary, Track, TrackModel};
use crate::playlist::{
    item_models, item_wf, items_wf, lemma_items_wf, ItemModel, Playlist, PlaylistItem,
    PlaylistModel,
};
use crate::scan::{is_audio_path, spec_file_name, spec_is_audio_path};
use crate::snapshot::{
    snap_item_models, snap_playlist_ids, snap_playlist_models, snap_track_models, snap_track_paths,
    SnapItemModel, SnapPlaylistModel, Snapshot, SnapshotItem, SnapshotPlaylist, SnapshotTrack,
};

verus! {

/// The paths of a sequence of track models.
pub open spec fn model_paths(ms: Seq<TrackModel>) -> Seq<Seq<char>> {
    ms.map_values(|m: TrackModel| m.path)
}

/// Deduplication by path, keeping the first track of each path.
pub open spec fn spec_dedup(ms: Seq<TrackModel>) -> Seq<TrackModel>
    decreases ms.len(),
{
    if ms.len() == 0 {
        ms
    } else {
        let rest = spec_dedup(ms.drop_last());
        if contains_view(model_paths(rest), ms.last().path) {
            rest
        } else {
            rest.push(ms.last())
        }
    }
}

/// The track a scan creates for a newly discovered audio file: named after
/// the file, with no artist, art or tags yet.
pub open spec fn fresh_track_model(p: Seq<char>) -> TrackModel {
    TrackModel {
        path: p,
        name: spec_file_name(p),
        artist: None,
        album_art: None,
        tags: Seq::empty(),
    }
}

/// The merge of already-known tracks with scanned candidate paths: each
/// candidate that is an audio file and not yet cataloged becomes a fresh
/// track; everything else is skipped.
pub open spec fn spec_merge(ms: Seq<TrackModel>, cands: Seq<Seq<char>>) -> Seq<TrackModel>
    decreases cands.len(),
{
    if cands.len() == 0 {
        ms
    } else {
        let prev = spec_merge(ms, cands.drop_last());
        let c = cands.last();
        if spec_is_audio_path(c) && !contains_view(model_paths(prev), c) {
            prev.push(fresh_track_model(c))
        } else {
            prev
        }
    }
}

/// The track list ingestion produces: the persisted tracks deduplicated by
/// path, then merged with the scanned candidates.
pub open spec fn ingest_tracks_spec(ms: Seq<TrackModel>, cands: Seq<Seq<char>>) -> Seq<TrackModel> {
    spec_merge(spec_dedup(ms), cands)
}

/// Deduplication leaves tracks whose paths are pairwise distinct.
pub proof fn lemma_dedup_distinct(ms: Seq<TrackModel>)
    ensures
        seq_distinct(model_paths(spec_dedup(ms))),
    decreases ms.len(),
{
    if ms.len() > 0 {
        lemma_dedup_distinct(ms.drop_last());
        let rest = spec_dedup(ms.drop_last());
        if !contains_view(model_paths(rest), ms.last().path) {
            let r = rest.push(ms.last());
            assert(model_paths(r) =~= model_paths(rest).push(ms.last().path));
            assert forall|i: int, j: int|
                0 <= i < j < model_paths(r).len() implies model_paths(r)[i] != model_paths(r)[j] by {
                if j < model_paths(rest).len() {
                    assert(model_paths(rest)[i] != model_paths(rest)[j]);
                } else {
                    assert(model_paths(r)[j] == ms.last().path);
                    assert(model_paths(r)[i] == model_paths(rest)[i]);
                }
            }
        }
    }
}

/// Deduplicating tracks whose paths are already distinct changes nothing.
pub proof fn lemma_dedup_identity(ms: Seq<TrackModel>)
    requires
        seq_distinct(model_paths(ms)),
    ensures
        spec_dedup(ms) == ms,
    decreases ms.len(),
{
    if ms.len() > 0 {
        assert forall|i: int, j: int|
            0 <= i < j < model_paths(ms.drop_last()).len() implies model_paths(ms.drop_last())[i]
            != model_paths(ms.drop_last())[j] by {
            assert(model_paths(ms.drop_last())[i] == model_paths(ms)[i]);
            assert(model_paths(ms.drop_last())[j] == model_paths(ms)[j]);
        }
        lemma_dedup_identity(ms.drop_last());
        assert(!contains_view(model_paths(ms.drop_last()), ms.last().path)) by {
            if contains_view(model_paths(ms.drop_last()), ms.last().path) {
                let i = choose|i: int|
                    0 <= i < model_paths(ms.drop_last()).len() && model_paths(ms.drop_last())[i]
                        == ms.last().path;
                assert(model_paths(ms)[i] == model_paths(ms)[ms.len() - 1]);
            }
        }
        assert(spec_dedup(ms) =~= ms);
    }
}

/// Merging keeps paths pairwise distinct.
pub proof fn lemma_merge_distinct(ms: Seq<TrackModel>, cands: Seq<Seq<char>>)
    requires
        seq_distinct(model_paths(ms)),
    ensures
        seq_distinct(model_paths(spec_merge(ms, cands))),
    decreases cands.len(),
{
    if cands.len() > 0 {
        lemma_merge_distinct(ms, cands.drop_last());
        let prev = spec_merge(ms, cands.drop_last());
        let c = cands.last();
        if spec_is_audio_path(c) && !contains_view(model_paths(prev), c) {
            let r = prev.push(fresh_track_model(c));
            assert(model_paths(r) =~= model_paths(prev).push(c));
            assert forall|i: int, j: int|
                0 <= i < j < model_paths(r).len() implies model_paths(r)[i] != model_paths(r)[j] by {
                if j < model_paths(prev).len() {
                    assert(model_paths(prev)[i] != model_paths(prev)[j]);
                } else {
                    assert(model_paths(r)[j] == c);
                    assert(model_paths(r)[i] == model_paths(prev)[i]);
                }
            }
        }
    }
}

/// A path cataloged before a merge is still cataloged after it, and every
/// scanned audio path is cataloged after it.
pub proof fn lemma_merge_covers(ms: Seq<TrackModel>, cands: Seq<Seq<char>>)
    ensures
        forall|p: Seq<char>|
            contains_view(model_paths(ms), p) ==> #[trigger] contains_view(
                model_paths(spec_merge(ms, cands)),
                p,
            ),
        forall|k: int|
            0 <= k < cands.len() && spec_is_audio_path(#[trigger] cands[k]) ==> contains_view(
                model_paths(spec_merge(ms, cands)),
                cands[k],
            ),
    decreases cands.len(),
{
    if cands.len() > 0 {
        lemma_merge_covers(ms, cands.drop_last());
        let prev = spec_merge(ms, cands.drop_last());
        let c = cands.last();
        assert forall|p: Seq<char>|
            contains_view(model_paths(prev), p) implies #[trigger] contains_view(
            model_paths(spec_merge(ms, cands)),
            p,
        ) by {
            if spec_is_audio_path(c) && !contains_view(model_paths(prev), c) {
                let i = choose|i: int|
                    0 <= i < model_paths(prev).len() && model_paths(prev)[i] == p;
                assert(model_paths(prev.push(fresh_track_model(c)))[i] == p);
            }
        }
        assert forall|k: int|
            0 <= k < cands.len() && spec_is_audio_path(#[trigger] cands[k]) implies contains_view(
            model_paths(spec_merge(ms, cands)),
            cands[k],
        ) by {
            if k < cands.len() - 1 {
                assert(cands.drop_last()[k] == cands[k]);
            } else {
                let r = spec_merge(ms, cands);
                if spec_is_audio_path(c) && !contains_view(model_paths(prev), c) {
                    assert(model_paths(r)[model_paths(r).len() - 1] == c);
                }
            }
        }
    }
}

/// Merging candidates that are all already cataloged changes nothing.
pub proof fn lemma_merge_identity(ms: Seq<TrackModel>, cands: Seq<Seq<char>>)
    requires
        forall|k: int|
            0 <= k < cands.len() && spec_is_audio_path(#[trigger] cands[k]) ==> contains_view(
                model_paths(ms),
                cands[k],
            ),
    ensures
        spec_merge(ms, cands) == ms,
    decreases cands.len(),
{
    if cands.len() > 0 {
        assert forall|k: int|
            0 <= k < cands.drop_last().len() && spec_is_audio_path(
            #[trigger] cands.drop_last()[k],
        ) implies contains_view(model_paths(ms), cands.drop_last()[k]) by {
            assert(cands.drop_last()[k] == cands[k]);
        }
        lemma_merge_identity(ms, cands.drop_last());
        assert(cands[cands.len() - 1] == cands.last());
    }
}

/// Ingestion is idempotent on the track list: feeding the tracks an
/// ingestion produced back through ingestion, with the same scanned
/// candidates, reproduces them exactly; in particular the set of track
/// paths is unchanged and still free of duplicates.
pub proof fn lemma_ingestion_idempotent(ms: Seq<TrackModel>, cands: Seq<Seq<char>>)
    ensures
        ingest_tracks_spec(ingest_tracks_spec(ms, cands), cands) == ingest_tracks_spec(ms, cands),
        seq_distinct(model_paths(ingest_tracks_spec(ms, cands))),
{
    lemma_dedup_distinct(ms);
    let d = spec_dedup(ms);
    let r = spec_merge(d, cands);
    lemma_merge_distinct(d, cands);
    lemma_dedup_identity(r);
    lemma_merge_covers(d, cands);
    lemma_merge_identity(r, cands);
}

/// The table after interning `v`: unchanged when an equal string is
/// present, extended by `v` otherwise.
pub open spec fn interned_views(views: Seq<Seq<char>>, v: Seq<char>) -> Seq<Seq<char>> {
    if contains_view(views, v) {
        views
    } else {
        views.push(v)
    }
}

/// The table position interning `v` hands back: the position of the equal
/// string already present, or one past the old end.
pub open spec fn interned_index(views: Seq<Seq<char>>, v: Seq<char>) -> int {
    if contains_view(views, v) {
        view_index(views, v)
    } else {
        views.len() as int
    }
}

/// The table after interning every string of `vs` in order.
pub open spec fn spec_intern_all(t: Seq<Seq<char>>, vs: Seq<Seq<char>>) -> Seq<Seq<char>>
    decreases vs.len(),
{
    if vs.len() == 0 {
        t
    } else {
        interned_views(spec_intern_all(t, vs.drop_last()), vs.last())
    }
}

/// The artist table after interning, in track order, every artist the given
/// tracks name.
pub open spec fn collect_artists_from(t: Seq<Seq<char>>, ms: Seq<TrackModel>) -> Seq<Seq<char>>
    decreases ms.len(),
{
    if ms.len() == 0 {
        t
    } else {
        let prev = collect_artists_from(t, ms.drop_last());
        match ms.last().artist {
            None => prev,
            Some(a) => interned_views(prev, a),
        }
    }
}

/// The tag table after interning, in track order, every tag the given
/// tracks carry.
pub open spec fn collect_tags_from(t: Seq<Seq<char>>, ms: Seq<TrackModel>) -> Seq<Seq<char>>
    decreases ms.len(),
{
    if ms.len() == 0 {
        t
    } else {
        spec_intern_all(collect_tags_from(t, ms.drop_last()), ms.last().tags)
    }
}

/// Insert-or-get: hands back the position of the table entry equal to
/// `value`, inserting `value` when no such entry exists. All callers that
/// intern equal strings observe the same entry, which is what makes
/// reference counts over table positions meaningful.
pub fn intern(table: &mut Vec<String>, value: &String) -> (idx: usize)
    requires
        seq_distinct(string_views(old(table)@)),
    ensures
        string_views(final(table)@) == interned_views(string_views(old(table)@), value@),
        idx as int == interned_index(string_views(old(table)@), value@),
        idx < final(table)@.len(),
        final(table)@[idx as int]@ == value@,
        seq_distinct(string_views(final(table)@)),
        final(table)@.len() >= old(table)@.len(),
        forall|j: int| 0 <= j < old(table)@.len() ==> final(table)@[j] == old(table)@[j],
{
    let ghost views = string_views(table@);
    let n = table.len();
    let mut i: usize = 0;
    while i < n
        invariant
            i <= n,
            n == table@.len(),
            views == string_views(table@),
            seq_distinct(views),
            forall|j: int| 0 <= j < i ==> views[j] != value@,
        decreases n - i,
    {
        if table[i] == *value {
            proof {
                assert(views[i as int] == table@[i as int]@);
                lemma_view_index_unique(views, value@, i as int);
            }
            return i;
        }
        proof {
            assert(views[i as int] == table@[i as int]@);
        }
        i = i + 1;
    }
    proof {
        assert(!contains_view(views, value@));
    }
    table.push(value.clone());
    proof {
        assert(string_views(table@) =~= views.push(value@));
        assert forall|a: int, b: int|
            0 <= a < b < string_views(table@).len() implies string_views(table@)[a] != string_views(
            table@,
        )[b] by {
            if b < views.len() {
                assert(views[a] != views[b]);
            } else {
                assert(string_views(table@)[b] == value@);
                assert(string_views(table@)[a] == views[a]);
            }
        }
    }
    n
}

/// Whether some position of `idxs` holds the value `q`.
pub open spec fn covered_by(idxs: Seq<usize>, q: int) -> bool {
    exists|p: int| 0 <= p < idxs.len() && idxs[p] as int == q
}

/// Interns every string of `tags` in order, handing back the table position
/// assigned to each.
pub fn intern_tags(table: &mut Vec<String>, tags: &Vec<String>) -> (idxs: Vec<usize>)
    requires
        seq_distinct(string_views(old(table)@)),
    ensures
        string_views(final(table)@) == spec_intern_all(
            string_views(old(table)@),
            tags@.map_values(|s: String| s@),
        ),
        seq_distinct(string_views(final(table)@)),
        final(table)@.len() >= old(table)@.len(),
        forall|j: int| 0 <= j < old(table)@.len() ==> final(table)@[j] == old(table)@[j],
        idxs@.len() == tags@.len(),
        forall|p: int|
            0 <= p < idxs@.len() ==> (idxs@[p] as int) < final(table)@.len() && string_views(
                final(table)@,
            )[idxs@[p] as int] == tags@[p]@,
        forall|q: int|
            old(table)@.len() <= q < final(table)@.len() ==> #[trigger] covered_by(idxs@, q),
{
    let ghost views0 = string_views(table@);
    let ghost vs = tags@.map_values(|s: String| s@);
    let n = tags.len();
    let mut idxs: Vec<usize> = Vec::new();
    let mut i: usize = 0;
    proof {
        assert(vs.take(0) =~= Seq::<Seq<char>>::empty());
    }
    while i < n
        invariant
            i <= n,
            n == tags@.len(),
            vs == tags@.map_values(|s: String| s@),
            string_views(table@) == spec_intern_all(views0, vs.take(i as int)),
            seq_distinct(string_views(table@)),
            table@.len() >= views0.len(),
            forall|j: int| 0 <= j < views0.len() ==> table@[j] == old(table)@[j],
            idxs@.len() == i,
            forall|p: int|
                0 <= p < i ==> (idxs@[p] as int) < table@.len() && string_views(table@)[idxs@[p] as int]
                    == tags@[p]@,
            forall|q: int| views0.len() <= q < table@.len() ==> #[trigger] covered_by(idxs@, q),
        decreases n - i,
    {
        let ghost table_pre = table@;
        let ghost idxs_pre = idxs@;
        let idx = intern(table, &tags[i]);
        idxs.push(idx);
        proof {
            assert(vs.take(i + 1).drop_last() =~= vs.take(i as int));
            assert(vs.take(i + 1).last() == vs[i as int]);
            assert(vs[i as int] == tags@[i as int]@);
            assert(string_views(table@) == spec_intern_all(views0, vs.take(i + 1)));
            assert forall|p: int|
                0 <= p < idxs@.len() implies (idxs@[p] as int) < table@.len() && string_views(
                table@,
            )[idxs@[p] as int] == tags@[p]@ by {
                if p < idxs@.len() - 1 {
                    assert(string_views(table_pre)[idxs@[p] as int] == tags@[p]@);
                    assert(table@[idxs@[p] as int] == table_pre[idxs@[p] as int]);
                }
            }
            assert forall|q: int|
                views0.len() <= q < table@.len() implies #[trigger] covered_by(idxs@, q) by {
                if q < table_pre.len() {
                    assert(covered_by(idxs_pre, q));
                    let p = choose|p: int| 0 <= p < idxs_pre.len() && idxs_pre[p] as int == q;
                    assert(idxs@[p] as int == q);
                } else {
                    assert(idxs@[idxs@.len() - 1] as int == q);
                }
            }
        }
        i = i + 1;
    }
    proof {
        assert(vs.take(n as int) =~= vs);
    }
    idxs
}

/// Whether some persisted track of `ts` has path `p`.
fn snap_contains_path(ts: &Vec<SnapshotTrack>, p: &String) -> (r: bool)
    ensures
        r == contains_view(snap_track_paths(ts@), p@),
{
    let n = ts.len();
    let mut i: usize = 0;
    while i < n
        invariant
            i <= n,
            n == ts@.len(),
            forall|j: int| 0 <= j < i ==> snap_track_paths(ts@)[j] != p@,
        decreases n - i,
    {
        if ts[i].path == *p {
            proof {
                assert(snap_track_paths(ts@)[i as int] == p@);
            }
            return true;
        }
        proof {
            assert(snap_track_paths(ts@)[i as int] == ts@[i as int].path@);
        }
        i = i + 1;
    }
    false
}

/// The arena position of the canonical track with path `p`, when one exists.
pub fn find_track(tracks: &Vec<Track>, p: &String) -> (r: Option<usize>)
    requires
        seq_distinct(track_paths(tracks@)),
    ensures
        r is Some ==> contains_view(track_paths(tracks@), p@) && (r->0 as int) == view_index(
            track_paths(tracks@),
            p@,
        ) && (r->0 as int) < tracks@.len(),
        r is None ==> !contains_view(track_paths(tracks@), p@),
{
    let n = tracks.len();
    let mut i: usize = 0;
    while i < n
        invariant
            i <= n,
            n == tracks@.len(),
            seq_distinct(track_paths(tracks@)),
            forall|j: int| 0 <= j < i ==> track_paths(tracks@)[j] != p@,
        decreases n - i,
    {
        if tracks[i].path == *p {
            proof {
                assert(track_paths(tracks@)[i as int] == p@);
                lemma_view_index_unique(track_paths(tracks@), p@, i as int);
            }
            return Some(i);
        }
        proof {
            assert(track_paths(tracks@)[i as int] == tracks@[i as int].path@);
        }
        i = i + 1;
    }
    None
}

/// Deduplication by path: the first track of each path is kept, later ones
/// are dropped.
pub fn dedup_tracks(tracks: Vec<SnapshotTrack>) -> (r: Vec<SnapshotTrack>)
    ensures
        snap_track_models(r@) == spec_dedup(snap_track_models(tracks@)),
        seq_distinct(model_paths(snap_track_models(r@))),
{
    let ghost ts0 = tracks@;
    let mut rest = tracks;
    let mut rev: Vec<SnapshotTrack> = Vec::new();
    while rest.len() > 0
        invariant
            rest@.len() + rev@.len() == ts0.len(),
            rest@ == ts0.take(rest@.len() as int),
            forall|j: int| 0 <= j < rev@.len() ==> rev@[j] == ts0[ts0.len() - 1 - j],
        decreases rest@.len(),
    {
        let t = rest.pop().unwrap();
        rev.push(t);
        proof {
            assert(rest@ =~= ts0.take(rest@.len() as int));
        }
    }
    let mut out: Vec<SnapshotTrack> = Vec::new();
    let ghost k: int = 0;
    proof {
        assert(snap_track_models(ts0.take(0)) =~= Seq::<TrackModel>::empty());
        assert(spec_dedup(snap_track_models(ts0.take(0))) =~= Seq::<TrackModel>::empty());
        assert(snap_track_models(out@) =~= Seq::<TrackModel>::empty());
    }
    while rev.len() > 0
        invariant
            k == ts0.len() - rev@.len(),
            0 <= k <= ts0.len(),
            forall|j: int| 0 <= j < rev@.len() ==> rev@[j] == ts0[ts0.len() - 1 - j],
            snap_track_models(out@) == spec_dedup(snap_track_models(ts0.take(k))),
            seq_distinct(model_paths(snap_track_models(out@))),
        decreases rev@.len(),
    {
        let t = rev.pop().unwrap();
        proof {
            assert(t == ts0[k]);
        }
        let ghost out_pre = out@;
        let present = snap_contains_path(&out, &t.path);
        if !present {
            out.push(t);
        }
        proof {
            assert(model_paths(snap_track_models(out_pre)) =~= snap_track_paths(out_pre));
            assert(snap_track_models(ts0.take(k + 1)).drop_last() =~= snap_track_models(
                ts0.take(k),
            )) by {
                assert(ts0.take(k + 1).drop_last() =~= ts0.take(k));
                assert(snap_track_models(ts0.take(k + 1)).drop_last() =~= snap_track_models(
                    ts0.take(k + 1).drop_last(),
                ));
            }
            assert(snap_track_models(ts0.take(k + 1)).last() == ts0[k].model());
            assert(spec_dedup(snap_track_models(ts0.take(k + 1))) == (if contains_view(
                model_paths(spec_dedup(snap_track_models(ts0.take(k)))),
                ts0[k].model().path,
            ) {
                spec_dedup(snap_track_models(ts0.take(k)))
            } else {
                spec_dedup(snap_track_models(ts0.take(k))).push(ts0[k].model())
            }));
            if !present {
                assert(snap_track_models(out@) =~= snap_track_models(out_pre).push(t.model()));
                let mp = model_paths(snap_track_models(out@));
                assert forall|a: int, b: int| 0 <= a < b < mp.len() implies mp[a] != mp[b] by {
                    let mpp = model_paths(snap_track_models(out_pre));
                    if b < mpp.len() {
                        assert(mp[a] == mpp[a] && mp[b] == mpp[b]);
                    } else {
                        assert(mp[b] == t.model().path);
                        assert(mp[a] == mpp[a]);
                        assert(mpp[a] == snap_track_paths(out_pre)[a]);
                    }
                }
            }
            k = k + 1;
        }
    }
    proof {
        assert(ts0.take(k) =~= ts0);
    }
    out
}

/// Merges scanned candidate paths into the known tracks: each candidate
/// that is an audio file and not yet present becomes a fresh track.
pub fn merge_scanned(tracks: &mut Vec<SnapshotTrack>, scanned: &Vec<String>)
    ensures
        snap_track_models(final(tracks)@) == spec_merge(
            snap_track_models(old(tracks)@),
            string_views(scanned@),
        ),
        seq_distinct(model_paths(snap_track_models(old(tracks)@))) ==> seq_distinct(
            model_paths(snap_track_models(final(tracks)@)),
        ),
{
    let ghost ms0 = snap_track_models(tracks@);
    let ghost cs = string_views(scanned@);
    let n = scanned.len();
    let mut i: usize = 0;
    proof {
        assert(cs.take(0) =~= Seq::<Seq<char>>::empty());
    }
    while i < n
        invariant
            i <= n,
            n == scanned@.len(),
            cs == string_views(scanned@),
            ms0 == snap_track_models(old(tracks)@),
            snap_track_models(tracks@) == spec_merge(ms0, cs.take(i as int)),
        decreases n - i,
    {
        let ghost tracks_pre = tracks@;
        let audio = is_audio_path(&scanned[i]);
        let present = snap_contains_path(tracks, &scanned[i]);
        proof {
            assert(model_paths(snap_track_models(tracks@)) =~= snap_track_paths(tracks@));
            assert(cs[i as int] == scanned@[i as int]@);
        }
        if audio && !present {
            let name = crate::scan::file_name_of(&scanned[i]);
            let fresh = SnapshotTrack {
                path: scanned[i].clone(),
                name,
                artist: None,
                album_art: None,
                tags: Vec::new(),
            };
            proof {
                assert(fresh.model().tags =~= Seq::<Seq<char>>::empty());
                assert(fresh.model() =~= fresh_track_model(cs[i as int]));
            }
            tracks.push(fresh);
            proof {
                assert(snap_track_models(tracks@) =~= snap_track_models(tracks_pre).push(
                    fresh_track_model(cs[i as int]),
                ));
            }
        }
        proof {
            assert(cs.take(i + 1).drop_last() =~= cs.take(i as int));
            assert(cs.take(i + 1).last() == cs[i as int]);
        }
        i = i + 1;
    }
    proof {
        assert(cs.take(n as int) =~= cs);
        if seq_distinct(model_paths(ms0)) {
            lemma_merge_distinct(ms0, cs);
        }
    }
}

/// A track's model only reads table positions below the lengths it is well
/// formed for, so extending either table does not change the model.
proof fn lemma_model_extend(
    t: Track,
    a1: Seq<Seq<char>>,
    g1: Seq<Seq<char>>,
    a2: Seq<Seq<char>>,
    g2: Seq<Seq<char>>,
)
    requires
        t.idx_wf(a1.len() as int, g1.len() as int),
        a2.len() >= a1.len(),
        forall|j: int| 0 <= j < a1.len() ==> a2[j] == a1[j],
        g2.len() >= g1.len(),
        forall|j: int| 0 <= j < g1.len() ==> g2[j] == g1[j],
    ensures
        t.model(a2, g2) == t.model(a1, g1),
{
    assert(t.model(a2, g2).tags =~= t.model(a1, g1).tags);
    assert(t.model(a2, g2) =~= t.model(a1, g1));
}

/// Whether some track of `ts` names the artist at table position `a`.
pub open spec fn artist_covered(ts: Seq<Track>, a: int) -> bool {
    exists|i: int| 0 <= i < ts.len() && ts[i].artist == Some(a as usize)
}

/// Whether some track of `ts` carries the tag at table position `g`.
pub open spec fn tag_covered(ts: Seq<Track>, g: int) -> bool {
    exists|i: int, j: int|
        0 <= i < ts.len() && 0 <= j < ts[i].tags@.len() && ts[i].tags@[j] as int == g
}

/// The interning pass: turns persisted tracks into canonical catalog tracks
/// whose artist and tags are positions in freshly built interning tables.
/// The tables hold exactly the distinct strings the tracks reference, every
/// table entry is referenced by some track, and each track, read back
/// through the tables, spells the same strings as before.
pub fn canonicalize(raw: Vec<SnapshotTrack>) -> (r: (Vec<Track>, Vec<String>, Vec<String>))
    ensures
        ({
            let (tracks, artists, tags) = r;
            let ms = snap_track_models(raw@);
            &&& tracks@.len() == raw@.len()
            &&& string_views(artists@) == collect_artists_from(Seq::empty(), ms)
            &&& string_views(tags@) == collect_tags_from(Seq::empty(), ms)
            &&& seq_distinct(string_views(artists@))
            &&& seq_distinct(string_views(tags@))
            &&& forall|i: int|
                0 <= i < tracks@.len() ==> (#[trigger] tracks@[i]).idx_wf(
                    artists@.len() as int,
                    tags@.len() as int,
                )
            &&& forall|i: int|
                0 <= i < tracks@.len() ==> (#[trigger] tracks@[i]).model(
                    string_views(artists@),
                    string_views(tags@),
                ) == ms[i]
            &&& track_paths(tracks@) == model_paths(ms)
            &&& forall|a: int| 0 <= a < artists@.len() ==> #[trigger] artist_covered(tracks@, a)
            &&& forall|g: int| 0 <= g < tags@.len() ==> #[trigger] tag_covered(tracks@, g)
        }),
{
    let ghost ts0 = raw@;
    let ghost ms = snap_track_models(raw@);
    let mut rest = raw;
    let mut rev: Vec<SnapshotTrack> = Vec::new();
    while rest.len() > 0
        invariant
            rest@.len() + rev@.len() == ts0.len(),
            rest@ == ts0.take(rest@.len() as int),
            forall|j: int| 0 <= j < rev@.len() ==> rev@[j] == ts0[ts0.len() - 1 - j],
        decreases rest@.len(),
    {
        let t = rest.pop().unwrap();
        rev.push(t);
        proof {
            assert(rest@ =~= ts0.take(rest@.len() as int));
        }
    }
    let mut tracks: Vec<Track> = Vec::new();
    let mut artists: Vec<String> = Vec::new();
    let mut tags: Vec<String> = Vec::new();
    let ghost k: int = 0;
    proof {
        assert(snap_track_models(ts0.take(0)) =~= Seq::<TrackModel>::empty());
        assert(string_views(artists@) =~= Seq::<Seq<char>>::empty());
        assert(string_views(tags@) =~= Seq::<Seq<char>>::empty());
    }
    while rev.len() > 0
        invariant
            k == ts0.len() - rev@.len(),
            0 <= k <= ts0.len(),
            ms == snap_track_models(ts0),
            forall|j: int| 0 <= j < rev@.len() ==> rev@[j] == ts0[ts0.len() - 1 - j],
            tracks@.len() == k,
            string_views(artists@) == collect_artists_from(
                Seq::empty(),
                snap_track_models(ts0.take(k)),
            ),
            string_views(tags@) == collect_tags_from(Seq::empty(), snap_track_models(ts0.take(k))),
            seq_distinct(string_views(artists@)),
            seq_distinct(string_views(tags@)),
            forall|i: int|
                0 <= i < k ==> (#[trigger] tracks@[i]).idx_wf(
                    artists@.len() as int,
                    tags@.len() as int,
                ),
            forall|i: int|
                0 <= i < k ==> (#[trigger] tracks@[i]).model(
                    string_views(artists@),
                    string_views(tags@),
                ) == snap_track_models(ts0)[i],
            forall|a: int| 0 <= a < artists@.len() ==> #[trigger] artist_covered(tracks@, a),
            forall|g: int| 0 <= g < tags@.len() ==> #[trigger] tag_covered(tracks@, g),
        decreases rev@.len(),
    {
        let st = rev.pop().unwrap();
        proof {
            assert(st == ts0[k]);
            assert(snap_track_models(ts0)[k] == ts0[k].model());
        }
        let SnapshotTrack { path, name, artist, album_art, tags: tag_strings } = st;
        let ghost artists_pre = artists@;
        let ghost tags_pre = tags@;
        let ghost tracks_pre = tracks@;
        let artist_idx: Option<usize> = match &artist {
            None => None,
            Some(s) => Some(intern(&mut artists, s)),
        };
        let tag_idxs = intern_tags(&mut tags, &tag_strings);
        let t = Track { path, name, artist: artist_idx, album_art, tags: tag_idxs };
        proof {
            // The freshly built track reads back as the persisted one.
            assert(t.model(string_views(artists@), string_views(tags@)).tags =~= ts0[k].model().tags);
            assert(t.model(string_views(artists@), string_views(tags@)) =~= ts0[k].model());
            // Earlier tracks are unaffected: the tables only grew.
            assert forall|i: int|
                0 <= i < k implies (#[trigger] tracks_pre[i]).model(
                string_views(artists@),
                string_views(tags@),
            ) == snap_track_models(ts0)[i] && tracks_pre[i].idx_wf(
                artists@.len() as int,
                tags@.len() as int,
            ) by {
                assert(tracks_pre[i].idx_wf(artists_pre.len() as int, tags_pre.len() as int));
                assert forall|j: int|
                    0 <= j < artists_pre.len() implies string_views(artists@)[j] == string_views(
                    artists_pre,
                )[j] by {
                    assert(artists@[j] == artists_pre[j]);
                }
                assert forall|j: int|
                    0 <= j < tags_pre.len() implies string_views(tags@)[j] == string_views(
                    tags_pre,
                )[j] by {
                    assert(tags@[j] == tags_pre[j]);
                }
                lemma_model_extend(
                    tracks_pre[i],
                    string_views(artists_pre),
                    string_views(tags_pre),
                    string_views(artists@),
                    string_views(tags@),
                );
            }
            // The tables evolved exactly as the collection spec says.
            assert(ts0.take(k + 1).drop_last() =~= ts0.take(k));
            assert(snap_track_models(ts0.take(k + 1)).drop_last() =~= snap_track_models(
                ts0.take(k),
            ));
            assert(snap_track_models(ts0.take(k + 1)).last() == ts0[k].model());
            assert(ts0[k].model().tags =~= tag_strings@.map_values(|s: String| s@));
        }
        tracks.push(t);
        proof {
            // Coverage: every table entry, old or new, has a holder.
            assert forall|a: int|
                0 <= a < artists@.len() implies #[trigger] artist_covered(tracks@, a) by {
                if a < artists_pre.len() {
                    assert(artist_covered(tracks_pre, a));
                    let i = choose|i: int|
                        0 <= i < tracks_pre.len() && tracks_pre[i].artist == Some(a as usize);
                    assert(tracks@[i].artist == Some(a as usize));
                } else {
                    assert(tracks@[k].artist == Some(a as usize));
                }
            }
            assert forall|g: int| 0 <= g < tags@.len() implies #[trigger] tag_covered(tracks@, g) by {
                if g < tags_pre.len() {
                    assert(tag_covered(tracks_pre, g));
                    let (i, j) = choose|i: int, j: int|
                        0 <= i < tracks_pre.len() && 0 <= j < tracks_pre[i].tags@.len()
                            && tracks_pre[i].tags@[j] as int == g;
                    assert(tracks@[i].tags@[j] as int == g);
                } else {
                    assert(covered_by(t.tags@, g));
                    let p = choose|p: int| 0 <= p < t.tags@.len() && t.tags@[p] as int == g;
                    assert(tracks@[k].tags@[p] as int == g);
                }
            }
            k = k + 1;
        }
    }
    proof {
        assert(ts0.take(k) =~= ts0);
        assert(track_paths(tracks@) =~= model_paths(ms));
    }
    (tracks, artists, tags)
}

/// The identities of a sequence of persisted playlist models.
pub open spec fn snap_pl_ids(ms: Seq<SnapPlaylistModel>) -> Seq<u128> {
    ms.map_values(|m: SnapPlaylistModel| m.id)
}

/// Registration by stable identity: the first playlist of each identity is
/// kept; a later playlist claiming an already-registered identity is
/// dropped (and reported by `spec_collisions`).
pub open spec fn spec_register(ms: Seq<SnapPlaylistModel>) -> Seq<SnapPlaylistModel>
    decreases ms.len(),
{
    if ms.len() == 0 {
        ms
    } else {
        let rest = spec_register(ms.drop_last());
        if snap_pl_ids(ms.drop_last()).contains(ms.last().id) {
            rest
        } else {
            rest.push(ms.last())
        }
    }
}

/// The identities of playlists dropped during registration, in input order:
/// each is a collision, two distinct playlist objects claiming one identity.
pub open spec fn spec_collisions(ms: Seq<SnapPlaylistModel>) -> Seq<u128>
    decreases ms.len(),
{
    if ms.len() == 0 {
        Seq::empty()
    } else {
        let rest = spec_collisions(ms.drop_last());
        if snap_pl_ids(ms.drop_last()).contains(ms.last().id) {
            rest.push(ms.last().id)
        } else {
            rest
        }
    }
}

/// Registration keeps exactly the identities of its input, each once.
pub proof fn lemma_register_ids(ms: Seq<SnapPlaylistModel>)
    ensures
        forall|id: u128|
            #[trigger] snap_pl_ids(spec_register(ms)).contains(id) <==> snap_pl_ids(ms).contains(
                id,
            ),
        seq_distinct(snap_pl_ids(spec_register(ms))),
    decreases ms.len(),
{
    if ms.len() > 0 {
        lemma_register_ids(ms.drop_last());
        let rest = spec_register(ms.drop_last());
        let last = ms.last();
        assert forall|id: u128|
            #[trigger] snap_pl_ids(spec_register(ms)).contains(id) <==> snap_pl_ids(ms).contains(
            id,
        ) by {
            if snap_pl_ids(ms.drop_last()).contains(last.id) {
                assert(spec_register(ms) == rest);
                if snap_pl_ids(ms).contains(id) {
                    let i = choose|i: int|
                        0 <= i < snap_pl_ids(ms).len() && snap_pl_ids(ms)[i] == id;
                    if i < ms.len() - 1 {
                        assert(ms.drop_last()[i] == ms[i]);
                        assert(snap_pl_ids(ms.drop_last())[i] == id);
                    } else {
                        assert(id == last.id);
                        assert(snap_pl_ids(ms.drop_last()).contains(id));
                    }
                }
                if snap_pl_ids(ms.drop_last()).contains(id) {
                    let i = choose|i: int|
                        0 <= i < snap_pl_ids(ms.drop_last()).len() && snap_pl_ids(
                            ms.drop_last(),
                        )[i] == id;
                    assert(ms.drop_last()[i] == ms[i]);
                    assert(snap_pl_ids(ms)[i] == id);
                }
            } else {
                assert(snap_pl_ids(spec_register(ms)) =~= snap_pl_ids(rest).push(last.id));
                if snap_pl_ids(ms).contains(id) {
                    let i = choose|i: int|
                        0 <= i < snap_pl_ids(ms).len() && snap_pl_ids(ms)[i] == id;
                    if i < ms.len() - 1 {
                        assert(ms.drop_last()[i] == ms[i]);
                        assert(snap_pl_ids(ms.drop_last())[i] == id);
                        assert(snap_pl_ids(rest).contains(id));
                        let j = choose|j: int|
                            0 <= j < snap_pl_ids(rest).len() && snap_pl_ids(rest)[j] == id;
                        assert(snap_pl_ids(spec_register(ms))[j] == id);
                    } else {
                        assert(snap_pl_ids(spec_register(ms)).last() == id);
                    }
                }
                if snap_pl_ids(spec_register(ms)).contains(id) {
                    let i = choose|i: int|
                        0 <= i < snap_pl_ids(spec_register(ms)).len() && snap_pl_ids(
                            spec_register(ms),
                        )[i] == id;
                    if i < snap_pl_ids(rest).len() {
                        assert(snap_pl_ids(rest)[i] == id);
                        assert(snap_pl_ids(rest).contains(id));
                        let j = choose|j: int|
                            0 <= j < snap_pl_ids(ms.drop_last()).len() && snap_pl_ids(
                                ms.drop_last(),
                            )[j] == id;
                        assert(ms.drop_last()[j] == ms[j]);
                        assert(snap_pl_ids(ms)[j] == id);
                    } else {
                        assert(id == last.id);
                        assert(snap_pl_ids(ms)[ms.len() - 1] == id);
                    }
                }
            }
        }
        if !snap_pl_ids(ms.drop_last()).contains(last.id) {
            let r = snap_pl_ids(spec_register(ms));
            assert(r =~= snap_pl_ids(rest).push(last.id));
            assert forall|a: int, b: int| 0 <= a < b < r.len() implies r[a] != r[b] by {
                if b < snap_pl_ids(rest).len() {
                    assert(snap_pl_ids(rest)[a] != snap_pl_ids(rest)[b]);
                } else {
                    assert(r[b] == last.id);
                    assert(snap_pl_ids(rest).contains(r[a]));
                    assert(snap_pl_ids(ms.drop_last()).contains(r[a]));
                }
            }
        }
    }
}

/// Whether `id` is the identity of some playlist in `ps`.
fn contains_pl_id(ps: &Vec<SnapshotPlaylist>, id: u128) -> (r: bool)
    ensures
        r == snap_playlist_ids(ps@).contains(id),
{
    let n = ps.len();
    let mut i: usize = 0;
    while i < n
        invariant
            i <= n,
            n == ps@.len(),
            forall|j: int| 0 <= j < i ==> snap_playlist_ids(ps@)[j] != id,
        decreases n - i,
    {
        if ps[i].id == id {
            proof {
                assert(snap_playlist_ids(ps@)[i as int] == id);
            }
            return true;
        }
        proof {
            assert(snap_playlist_ids(ps@)[i as int] == ps@[i as int].id);
        }
        i = i + 1;
    }
    false
}

/// Whether `id` occurs in `ids`.
fn contains_id(ids: &Vec<u128>, id: u128) -> (r: bool)
    ensures
        r == ids@.contains(id),
{
    let n = ids.len();
    let mut i: usize = 0;
    while i < n
        invariant
            i <= n,
            n == ids@.len(),
            forall|j: int| 0 <= j < i ==> ids@[j] != id,
        decreases n - i,
    {
        if ids[i] == id {
            return true;
        }
        i = i + 1;
    }
    false
}

/// Registration: keeps the first playlist of each stable identity and
/// reports the identity of every later playlist that collides with an
/// already-registered one. A collision is surfaced, never silently merged.
pub fn register_playlists(ps: Vec<SnapshotPlaylist>) -> (r: (Vec<SnapshotPlaylist>, Vec<u128>))
    ensures
        snap_playlist_models(r.0@) == spec_register(snap_playlist_models(ps@)),
        r.1@ == spec_collisions(snap_playlist_models(ps@)),
        seq_distinct(snap_playlist_ids(r.0@)),
{
    let ghost ps0 = ps@;
    let ghost ms = snap_playlist_models(ps@);
    let mut rest = ps;
    let mut rev: Vec<SnapshotPlaylist> = Vec::new();
    while rest.len() > 0
        invariant
            rest@.len() + rev@.len() == ps0.len(),
            rest@ == ps0.take(rest@.len() as int),
            forall|j: int| 0 <= j < rev@.len() ==> rev@[j] == ps0[ps0.len() - 1 - j],
        decreases rest@.len(),
    {
        let p = rest.pop().unwrap();
        rev.push(p);
        proof {
            assert(rest@ =~= ps0.take(rest@.len() as int));
        }
    }
    let mut kept: Vec<SnapshotPlaylist> = Vec::new();
    let mut faults: Vec<u128> = Vec::new();
    let ghost k: int = 0;
    proof {
        assert(snap_playlist_models(ps0.take(0)) =~= Seq::<SnapPlaylistModel>::empty());
        assert(snap_playlist_models(kept@) =~= Seq::<SnapPlaylistModel>::empty());
        assert(spec_register(snap_playlist_models(ps0.take(0))) =~= Seq::<
            SnapPlaylistModel,
        >::empty());
        assert(spec_collisions(snap_playlist_models(ps0.take(0))) =~= Seq::<u128>::empty());
    }
    while rev.len() > 0
        invariant
            k == ps0.len() - rev@.len(),
            0 <= k <= ps0.len(),
            ms == snap_playlist_models(ps0),
            forall|j: int| 0 <= j < rev@.len() ==> rev@[j] == ps0[ps0.len() - 1 - j],
            snap_playlist_models(kept@) == spec_register(snap_playlist_models(ps0.take(k))),
            faults@ == spec_collisions(snap_playlist_models(ps0.take(k))),
            seq_distinct(snap_playlist_ids(kept@)),
            forall|id: u128|
                #[trigger] snap_playlist_ids(kept@).contains(id) <==> snap_pl_ids(
                    snap_playlist_models(ps0.take(k)),
                ).contains(id),
        decreases rev@.len(),
    {
        let p = rev.pop().unwrap();
        proof {
            assert(p == ps0[k]);
            assert(snap_playlist_models(ps0)[k] == ps0[k].model());
        }
        let ghost kept_pre = kept@;
        let ghost faults_pre = faults@;
        let present = contains_pl_id(&kept, p.id);
        proof {
            let mk = snap_playlist_models(ps0.take(k));
            assert(snap_playlist_models(ps0.take(k + 1)).drop_last() =~= mk) by {
                assert(ps0.take(k + 1).drop_last() =~= ps0.take(k));
            }
            assert(snap_playlist_models(ps0.take(k + 1)).last() == ps0[k].model());
            assert(snap_pl_ids(mk).contains(p.model().id) == present) by {
                if present {
                    let i = choose|i: int|
                        0 <= i < snap_playlist_ids(kept_pre).len() && snap_playlist_ids(
                            kept_pre,
                        )[i] == p.id;
                }
            }
        }
        if present {
            faults.push(p.id);
        } else {
            kept.push(p);
            proof {
                assert(snap_playlist_models(kept@) =~= snap_playlist_models(kept_pre).push(
                    ps0[k].model(),
                ));
                assert(snap_playlist_ids(kept@) =~= snap_playlist_ids(kept_pre).push(ps0[k].id));
                let ki = snap_playlist_ids(kept@);
                assert forall|a: int, b: int| 0 <= a < b < ki.len() implies ki[a] != ki[b] by {
                    let kp = snap_playlist_ids(kept_pre);
                    if b < kp.len() {
                        assert(kp[a] != kp[b]);
                    } else {
                        assert(ki[b] == ps0[k].id);
                        assert(ki[a] == kp[a]);
                        assert(kp.contains(kp[a]));
                    }
                }
            }
        }
        proof {
            let mk1 = snap_playlist_models(ps0.take(k + 1));
            assert forall|id: u128|
                #[trigger] snap_playlist_ids(kept@).contains(id) <==> snap_pl_ids(mk1).contains(
                id,
            ) by {
                let mk = snap_playlist_models(ps0.take(k));
                if snap_playlist_ids(kept@).contains(id) {
                    let i = choose|i: int|
                        0 <= i < snap_playlist_ids(kept@).len() && snap_playlist_ids(kept@)[i]
                            == id;
                    if i < kept_pre.len() {
                        assert(snap_playlist_ids(kept_pre)[i] == id);
                        assert(snap_playlist_ids(kept_pre).contains(id));
                        assert(snap_pl_ids(mk).contains(id));
                        let j = choose|j: int|
                            0 <= j < snap_pl_ids(mk).len() && snap_pl_ids(mk)[j] == id;
                        assert(mk1.drop_last()[j] == mk1[j]);
                        assert(snap_pl_ids(mk1)[j] == id);
                    } else {
                        assert(id == ps0[k].id);
                        assert(snap_pl_ids(mk1)[k] == id);
                    }
                }
                if snap_pl_ids(mk1).contains(id) {
                    let j = choose|j: int|
                        0 <= j < snap_pl_ids(mk1).len() && snap_pl_ids(mk1)[j] == id;
                    if j < k {
                        assert(mk1.drop_last()[j] == mk1[j]);
                        assert(mk[j] == mk1[j]);
                        assert(snap_pl_ids(mk)[j] == id);
                        assert(snap_pl_ids(mk).contains(id));
                        assert(snap_playlist_ids(kept_pre).contains(id));
                        let i = choose|i: int|
                            0 <= i < snap_playlist_ids(kept_pre).len() && snap_playlist_ids(
                                kept_pre,
                            )[i] == id;
                        assert(snap_playlist_ids(kept@)[i] == id);
                    } else {
                        assert(id == ps0[k].id);
                        if present {
                            assert(snap_playlist_ids(kept@).contains(id));
                        } else {
                            assert(snap_playlist_ids(kept@).last() == id);
                        }
                    }
                }
            }
            k = k + 1;
        }
    }
    proof {
        assert(ps0.take(k) =~= ps0);
    }
    (kept, faults)
}

/// What one persisted item resolves to: a track item whose path is
/// cataloged becomes the canonical track's index; a playlist item whose
/// identity is registered keeps that identity as a re-taken weak reference;
/// a block is kept with its children resolved; everything unresolved is
/// dropped, never an error.
pub open spec fn resolve_one(m: SnapItemModel, paths: Seq<Seq<char>>, ids: Seq<u128>) -> Seq<
    ItemModel,
>
    decreases m, 1int,
{
    match m {
        SnapItemModel::Track(p) => if contains_view(paths, p) {
            seq![ItemModel::Track(view_index(paths, p))]
        } else {
            Seq::empty()
        },
        SnapItemModel::Playlist(id) => if ids.contains(id) {
            seq![ItemModel::Playlist(id)]
        } else {
            Seq::empty()
        },
        SnapItemModel::Block(s) => seq![ItemModel::Block(resolve_items_spec(s, paths, ids))],
    }
}

/// What a sequence of persisted items resolves to, dropped items omitted.
pub open spec fn resolve_items_spec(
    items: Seq<SnapItemModel>,
    paths: Seq<Seq<char>>,
    ids: Seq<u128>,
) -> Seq<ItemModel>
    decreases items, 0int,
{
    if items.len() == 0 {
        Seq::empty()
    } else {
        resolve_items_spec(items.drop_last(), paths, ids) + resolve_one(items.last(), paths, ids)
    }
}

/// Resolves persisted items against the canonical track arena and the set
/// of registered playlist identities. Unresolved items are dropped; blocks
/// are kept even when they become empty.
#[verifier::loop_isolation(false)]
pub fn resolve_items(items: Vec<SnapshotItem>, tracks: &Vec<Track>, ids: &Vec<u128>) -> (r: Vec<
    PlaylistItem,
>)
    requires
        seq_distinct(track_paths(tracks@)),
    ensures
        item_models(r@) == resolve_items_spec(
            snap_item_models(items@),
            track_paths(tracks@),
            ids@,
        ),
        items_wf(r@, tracks@.len() as int),
    decreases items@,
{
    let ghost items0 = items@;
    let mut rest = items;
    let mut rev: Vec<SnapshotItem> = Vec::new();
    while rest.len() > 0
        invariant
            rest@.len() + rev@.len() == items0.len(),
            rest@ == items0.take(rest@.len() as int),
            forall|j: int| 0 <= j < rev@.len() ==> rev@[j] == items0[items0.len() - 1 - j],
        decreases rest@.len(),
    {
        let it = rest.pop().unwrap();
        rev.push(it);
        proof {
            assert(rest@ =~= items0.take(rest@.len() as int));
        }
    }
    let mut out: Vec<PlaylistItem> = Vec::new();
    let ghost k: int = 0;
    let ghost paths = track_paths(tracks@);
    proof {
        assert(snap_item_models(items0.take(0)) =~= Seq::<SnapItemModel>::empty());
        assert(item_models(out@) =~= Seq::<ItemModel>::empty());
        assert(resolve_items_spec(snap_item_models(items0.take(0)), paths, ids@) =~= Seq::<
            ItemModel,
        >::empty());
    }
    while rev.len() > 0
        invariant
            k == items0.len() - rev@.len(),
            0 <= k <= items0.len(),
            paths == track_paths(tracks@),
            seq_distinct(paths),
            forall|j: int| 0 <= j < rev@.len() ==> rev@[j] == items0[items0.len() - 1 - j],
            item_models(out@) == resolve_items_spec(snap_item_models(items0.take(k)), paths, ids@),
            forall|j: int|
                0 <= j < out@.len() ==> item_wf(#[trigger] out@[j], tracks@.len() as int),
        decreases rev@.len(),
    {
        let it = rev.pop().unwrap();
        proof {
            assert(it == items0[k]);
            crate::snapshot::lemma_snap_item_models(items0);
            assert(snap_item_models(items0)[k] == items0[k].model());
            assert(snap_item_models(items0.take(k + 1)).drop_last() =~= snap_item_models(
                items0.take(k),
            )) by {
                assert(items0.take(k + 1).drop_last() =~= items0.take(k));
            }
            assert(snap_item_models(items0.take(k + 1)).last() == items0[k].model());
        }
        let ghost out_pre = out@;
        let ghost it_model = it.model();
        match it {
            SnapshotItem::Track(p) => {
                match find_track(tracks, &p) {
                    Some(i) => {
                        out.push(PlaylistItem::Track(i));
                        proof {
                            assert(out@.drop_last() =~= out_pre);
                            assert(out@.last() == PlaylistItem::Track(i));
                            assert(item_models(out@) =~= item_models(out_pre).push(
                                ItemModel::Track(i as int),
                            ));
                            assert(resolve_one(it_model, paths, ids@) =~= seq![
                                ItemModel::Track(view_index(paths, p@)),
                            ]);
                        }
                    },
                    None => {
                        proof {
                            assert(resolve_one(it_model, paths, ids@) =~= Seq::<ItemModel>::empty());
                        }
                    },
                }
            },
            SnapshotItem::Playlist(id) => {
                if contains_id(ids, id) {
                    out.push(PlaylistItem::Playlist(id));
                    proof {
                        assert(out@.drop_last() =~= out_pre);
                        assert(out@.last() == PlaylistItem::Playlist(id));
                        assert(item_models(out@) =~= item_models(out_pre).push(
                            ItemModel::Playlist(id),
                        ));
                    }
                } else {
                    proof {
                        assert(resolve_one(it_model, paths, ids@) =~= Seq::<ItemModel>::empty());
                    }
                }
            },
            SnapshotItem::Block(v) => {
                proof {
                    assert(decreases_to!(items0 => items0[k]));
                    assert(items0[k] == it);
                    assert(decreases_to!(it => it->Block_0));
                    assert(it->Block_0 == v);
                    assert(decreases_to!(v => v@));
                    assert(decreases_to!(items0 => v@));
                }
                let inner = resolve_items(v, tracks, ids);
                out.push(PlaylistItem::Block(inner));
                proof {
                    assert(out@.drop_last() =~= out_pre);
                    assert(out@.last() == PlaylistItem::Block(inner));
                    assert(out@.last().model() == ItemModel::Block(item_models(inner@)));
                    assert(item_models(out@) =~= item_models(out_pre).push(
                        out@.last().model(),
                    ));
                    assert(resolve_one(it_model, paths, ids@) =~= seq![
                        ItemModel::Block(
                            resolve_items_spec(snap_item_models(v@), paths, ids@),
                        ),
                    ]);
                }
            },
        }
        proof {
            let spec_pre = resolve_items_spec(snap_item_models(items0.take(k)), paths, ids@);
            let one = resolve_one(it_model, paths, ids@);
            assert(resolve_items_spec(snap_item_models(items0.take(k + 1)), paths, ids@)
                == spec_pre + one);
            if one.len() == 0 {
                assert(spec_pre + one =~= spec_pre);
            } else {
                assert(spec_pre + one =~= spec_pre.push(one[0]));
            }
            assert(item_models(out@) =~= resolve_items_spec(
                snap_item_models(items0.take(k + 1)),
                paths,
                ids@,
            ));
            k = k + 1;
        }
    }
    proof {
        assert(items0.take(k) =~= items0);
        lemma_items_wf(out@, tracks@.len() as int);
    }
    out
}

/// Builds canonical playlists from the registered persisted ones: items are
/// resolved against the track arena and the full registry, and the playback
/// iterator starts at the beginning of a fresh lap.
pub fn build_playlists(kept: Vec<SnapshotPlaylist>, tracks: &Vec<Track>) -> (r: Vec<Playlist>)
    requires
        seq_distinct(track_paths(tracks@)),
    ensures
        r@.len() == kept@.len(),
        playlist_ids(r@) == snap_playlist_ids(kept@),
        forall|k: int|
            0 <= k < r@.len() ==> (#[trigger] r@[k]).model() == (PlaylistModel {
                name: snap_playlist_models(kept@)[k].name,
                items: resolve_items_spec(
                    snap_playlist_models(kept@)[k].items,
                    track_paths(tracks@),
                    snap_playlist_ids(kept@),
                ),
                playback_mode: snap_playlist_models(kept@)[k].playback_mode,
                id: snap_playlist_models(kept@)[k].id,
            }),
        forall|k: int|
            0 <= k < r@.len() ==> items_wf((#[trigger] r@[k]).items@, tracks@.len() as int)
                && r@[k].wf() && r@[k].queue().len() == 0 && r@[k].at_lap_start(),
{
    let ghost ps0 = kept@;
    let ghost ids0 = snap_playlist_ids(kept@);
    let mut ids: Vec<u128> = Vec::new();
    let n = kept.len();
    let mut i: usize = 0;
    while i < n
        invariant
            i <= n,
            n == kept@.len(),
            ids@ == snap_playlist_ids(kept@).take(i as int),
        decreases n - i,
    {
        ids.push(kept[i].id);
        proof {
            assert(snap_playlist_ids(kept@)[i as int] == kept@[i as int].id);
            assert(ids@ =~= snap_playlist_ids(kept@).take(i + 1));
        }
        i = i + 1;
    }
    proof {
        assert(snap_playlist_ids(kept@).take(n as int) =~= snap_playlist_ids(kept@));
    }
    let mut rest = kept;
    let mut rev: Vec<SnapshotPlaylist> = Vec::new();
    while rest.len() > 0
        invariant
            rest@.len() + rev@.len() == ps0.len(),
            rest@ == ps0.take(rest@.len() as int),
            forall|j: int| 0 <= j < rev@.len() ==> rev@[j] == ps0[ps0.len() - 1 - j],
        decreases rest@.len(),
    {
        let p = rest.pop().unwrap();
        rev.push(p);
        proof {
            assert(rest@ =~= ps0.take(rest@.len() as int));
        }
    }
    let mut out: Vec<Playlist> = Vec::new();
    let ghost k: int = 0;
    while rev.len() > 0
        invariant
            k == ps0.len() - rev@.len(),
            0 <= k <= ps0.len(),
            ids@ == ids0,
            ids0 == snap_playlist_ids(ps0),
            seq_distinct(track_paths(tracks@)),
            forall|j: int| 0 <= j < rev@.len() ==> rev@[j] == ps0[ps0.len() - 1 - j],
            out@.len() == k,
            forall|j: int|
                0 <= j < k ==> (#[trigger] out@[j]).model() == (PlaylistModel {
                    name: snap_playlist_models(ps0)[j].name,
                    items: resolve_items_spec(
                        snap_playlist_models(ps0)[j].items,
                        track_paths(tracks@),
                        ids0,
                    ),
                    playback_mode: snap_playlist_models(ps0)[j].playback_mode,
                    id: snap_playlist_models(ps0)[j].id,
                }),
            forall|j: int| 0 <= j < k ==> (#[trigger] out@[j]).id == ps0[j].id,
            forall|j: int|
                0 <= j < k ==> items_wf((#[trigger] out@[j]).items@, tracks@.len() as int)
                    && out@[j].wf() && out@[j].queue().len() == 0 && out@[j].at_lap_start(),
        decreases rev@.len(),
    {
        let p = rev.pop().unwrap();
        proof {
            assert(p == ps0[k]);
            assert(snap_playlist_models(ps0)[k] == ps0[k].model());
        }
        let SnapshotPlaylist { name, items, playback_mode, id } = p;
        let ghost items_snap = snap_item_models(items@);
        let resolved = resolve_items(items, tracks, &ids);
        let pl = Playlist {
            name,
            items: resolved,
            playback_mode,
            id,
            play_queue: Vec::new(),
            first: true,
        };
        proof {
            assert(pl.model() =~= (PlaylistModel {
                name: snap_playlist_models(ps0)[k].name,
                items: resolve_items_spec(
                    snap_playlist_models(ps0)[k].items,
                    track_paths(tracks@),
                    ids0,
                ),
                playback_mode: snap_playlist_models(ps0)[k].playback_mode,
                id: snap_playlist_models(ps0)[k].id,
            }));
        }
        out.push(pl);
        proof {
            k = k + 1;
        }
    }
    proof {
        assert(playlist_ids(out@) =~= snap_playlist_ids(ps0));
    }
    out
}

impl MusicLibrary {
    /// Ingestion: the previously persisted catalog (when one could be read)
    /// is deduplicated by track path and playlist identity, merged with the
    /// scanned candidate paths, canonicalized through freshly built interning
    /// tables, and its playlists re-resolved against the canonical arena.
    /// The root stored in the snapshot is always overwritten by the root the
    /// catalog was opened on. The second component reports every playlist
    /// identity collision: two distinct persisted playlists claiming one
    /// identity, a logic fault that is surfaced, not silently merged.
    pub fn ingest(root: String, snapshot: Option<Snapshot>, scanned: Vec<String>) -> (r: (
        MusicLibrary,
        Vec<u128>,
    ))
        ensures
            ({
                let lib = r.0;
                let faults = r.1;
                let ms0 = match snapshot {
                    None => Seq::<TrackModel>::empty(),
                    Some(s) => snap_track_models(s.tracks@),
                };
                let pls0 = match snapshot {
                    None => Seq::<SnapPlaylistModel>::empty(),
                    Some(s) => snap_playlist_models(s.playlists@),
                };
                let kept = spec_register(pls0);
                &&& lib.wf()
                &&& lib.path == root
                &&& lib.track_models() == ingest_tracks_spec(ms0, string_views(scanned@))
                &&& string_views(lib.artists@) == collect_artists_from(
                    Seq::empty(),
                    lib.track_models(),
                )
                &&& string_views(lib.tags@) == collect_tags_from(Seq::empty(), lib.track_models())
                &&& lib.all_tags_held()
                &&& lib.all_artists_held()
                &&& lib.playlists@.len() == kept.len()
                &&& forall|k: int|
                    0 <= k < kept.len() ==> (#[trigger] lib.playlists@[k]).model() == (PlaylistModel {
                        name: kept[k].name,
                        items: resolve_items_spec(
                            kept[k].items,
                            track_paths(lib.tracks@),
                            snap_pl_ids(kept),
                        ),
                        playback_mode: kept[k].playback_mode,
                        id: kept[k].id,
                    })
                &&& forall|k: int|
                    0 <= k < lib.playlists@.len() ==> (#[trigger] lib.playlists@[k]).at_lap_start()
                        && lib.playlists@[k].queue().len() == 0
                &&& faults@ == spec_collisions(pls0)
            }),
    {
        let (snap_tracks, snap_playlists): (Vec<SnapshotTrack>, Vec<SnapshotPlaylist>) =
            match snapshot {
            None => (Vec::new(), Vec::new()),
            Some(s) => {
                let Snapshot { path: _, tracks, playlists, artists: _, tags: _ } = s;
                (tracks, playlists)
            },
        };
        let ghost ms0 = snap_track_models(snap_tracks@);
        let ghost pls0 = snap_playlist_models(snap_playlists@);
        proof {
            if snapshot is None {
                assert(ms0 =~= Seq::<TrackModel>::empty());
                assert(pls0 =~= Seq::<SnapPlaylistModel>::empty());
            }
        }
        let deduped = dedup_tracks(snap_tracks);
        let mut merged = deduped;
        merge_scanned(&mut merged, &scanned);
        let ghost merged_models = snap_track_models(merged@);
        let (tracks, artists, tags) = canonicalize(merged);
        let (kept, faults) = register_playlists(snap_playlists);
        let ghost kept_models = snap_playlist_models(kept@);
        let ghost kept_ids = snap_playlist_ids(kept@);
        proof {
            lemma_register_ids(pls0);
            assert(kept_models == spec_register(pls0));
            assert forall|j: int| 0 <= j < kept_ids.len() implies kept_ids[j] == snap_pl_ids(
                kept_models,
            )[j] by {
                assert(kept_ids[j] == kept@[j].id);
                assert(kept_models[j] == kept@[j].model());
            }
            assert(kept_ids =~= snap_pl_ids(kept_models));
        }
        let playlists = build_playlists(kept, &tracks);
        let lib = MusicLibrary { path: root, tracks, playlists, artists, tags };
        proof {
            assert(merged_models == ingest_tracks_spec(ms0, string_views(scanned@)));
            assert(lib.track_models() =~= merged_models);
            assert(seq_distinct(track_paths(lib.tracks@)));
            assert forall|g: int| 0 <= g < lib.tags@.len() implies #[trigger] lib.tag_held(g) by {
                assert(tag_covered(lib.tracks@, g));
                let (i, j) = choose|i: int, j: int|
                    0 <= i < lib.tracks@.len() && 0 <= j < lib.tracks@[i].tags@.len()
                        && lib.tracks@[i].tags@[j] as int == g;
                assert(lib.tag_held(g));
            }
            assert forall|a: int|
                0 <= a < lib.artists@.len() implies #[trigger] lib.artist_held(a) by {
                assert(artist_covered(lib.tracks@, a));
            }
            assert(lib.wf());
        }
        (lib, faults)
    }
}

} // verus!
