use segue_attacca::music_library::MusicLibrary;
use segue_attacca::playlist::{PlaybackMode, PlaylistItem};
use segue_attacca::snapshot::{Snapshot, SnapshotItem, SnapshotPlaylist, SnapshotTrack};

fn plain_track(path: &str) -> SnapshotTrack {
    SnapshotTrack {
        path: String::from(path),
        name: String::from(path),
        artist: None,
        album_art: None,
        tags: Vec::new(),
    }
}

fn empty_snapshot(root: &str) -> Snapshot {
    Snapshot {
        path: String::from(root),
        tracks: Vec::new(),
        playlists: Vec::new(),
        artists: Vec::new(),
        tags: Vec::new(),
    }
}

#[test]
fn scanning_a_fresh_root_keeps_only_audio_files() {
    let scanned = vec![
        String::from("a.mp3"),
        String::from("sub/b.wav"),
        String::from("notes.txt"),
    ];
    let (lib, faults) = MusicLibrary::ingest(String::from("root"), None, scanned);
    assert!(faults.is_empty());
    assert_eq!(lib.tracks.len(), 2);
    let mut paths: Vec<&str> = lib.tracks.iter().map(|t| t.path()).collect();
    paths.sort();
    assert_eq!(paths, vec!["a.mp3", "sub/b.wav"]);
}

#[test]
fn scanned_tracks_are_named_after_their_file() {
    let scanned = vec![String::from("sub/b.wav")];
    let (lib, _) = MusicLibrary::ingest(String::from("root"), None, scanned);
    assert_eq!(lib.tracks[0].name(), "b.wav");
    assert_eq!(lib.tracks[0].path(), "sub/b.wav");
}

#[test]
fn ingestion_twice_yields_the_same_track_paths() {
    let scanned = vec![String::from("a.mp3"), String::from("sub/b.wav")];
    let (first, _) = MusicLibrary::ingest(String::from("root"), None, scanned.clone());
    let snapshot = first.to_snapshot();
    let (second, faults) = MusicLibrary::ingest(String::from("root"), Some(snapshot), scanned);
    assert!(faults.is_empty());
    assert_eq!(second.tracks.len(), first.tracks.len());
    let mut a: Vec<&str> = first.tracks.iter().map(|t| t.path()).collect();
    let mut b: Vec<&str> = second.tracks.iter().map(|t| t.path()).collect();
    a.sort();
    b.sort();
    assert_eq!(a, b);
    for i in 0..b.len() {
        for j in 0..i {
            assert!(b[i] != b[j]);
        }
    }
}

#[test]
fn duplicate_paths_in_a_snapshot_collapse_to_one_track() {
    let mut snap = empty_snapshot("root");
    snap.tracks.push(plain_track("a.mp3"));
    snap.tracks.push(plain_track("a.mp3"));
    let (lib, _) = MusicLibrary::ingest(String::from("root"), Some(snap), Vec::new());
    assert_eq!(lib.tracks.len(), 1);
    assert_eq!(lib.tracks[0].path(), "a.mp3");
}

#[test]
fn rescanning_a_known_file_creates_no_second_track() {
    let mut snap = empty_snapshot("root");
    snap.tracks.push(plain_track("a.mp3"));
    let (lib, _) = MusicLibrary::ingest(
        String::from("root"),
        Some(snap),
        vec![String::from("a.mp3")],
    );
    assert_eq!(lib.tracks.len(), 1);
}

#[test]
fn the_snapshot_root_is_overwritten_by_the_opened_root() {
    let snap = empty_snapshot("elsewhere");
    let (lib, _) = MusicLibrary::ingest(String::from("here"), Some(snap), Vec::new());
    assert_eq!(lib.path, "here");
}

#[test]
fn equal_strings_intern_to_one_shared_table_entry() {
    let mut snap = empty_snapshot("root");
    let mut t1 = plain_track("a.mp3");
    t1.artist = Some(String::from("ada"));
    t1.tags = vec![String::from("calm"), String::from("late")];
    let mut t2 = plain_track("b.mp3");
    t2.artist = Some(String::from("ada"));
    t2.tags = vec![String::from("late"), String::from("calm")];
    snap.tracks.push(t1);
    snap.tracks.push(t2);
    let (lib, _) = MusicLibrary::ingest(String::from("root"), Some(snap), Vec::new());
    assert_eq!(lib.artists.len(), 1);
    assert_eq!(lib.artists[0], "ada");
    assert_eq!(lib.tags.len(), 2);
    assert_eq!(lib.tracks[0].artist, lib.tracks[1].artist);
    // Order of each track's tags is preserved; the references are shared.
    let a = &lib.tracks[0].tags;
    let b = &lib.tracks[1].tags;
    assert_eq!(a.len(), 2);
    assert_eq!(b.len(), 2);
    assert_eq!(a[0], b[1]);
    assert_eq!(a[1], b[0]);
    assert_eq!(lib.tags[a[0]], "calm");
    assert_eq!(lib.tags[a[1]], "late");
}

#[test]
fn table_entries_not_referenced_by_any_track_are_rebuilt_away() {
    let mut snap = empty_snapshot("root");
    snap.tags.push(String::from("stale"));
    snap.artists.push(String::from("nobody"));
    snap.tracks.push(plain_track("a.mp3"));
    let (lib, _) = MusicLibrary::ingest(String::from("root"), Some(snap), Vec::new());
    assert!(lib.tags.is_empty());
    assert!(lib.artists.is_empty());
}

#[test]
fn playlist_identity_collision_is_surfaced_and_first_wins() {
    let mut snap = empty_snapshot("root");
    snap.playlists.push(SnapshotPlaylist {
        name: Some(String::from("first")),
        items: Vec::new(),
        playback_mode: PlaybackMode::Continuous,
        id: 7,
    });
    snap.playlists.push(SnapshotPlaylist {
        name: Some(String::from("second")),
        items: Vec::new(),
        playback_mode: PlaybackMode::Continuous,
        id: 7,
    });
    let (lib, faults) = MusicLibrary::ingest(String::from("root"), Some(snap), Vec::new());
    assert_eq!(faults, vec![7]);
    assert_eq!(lib.playlists.len(), 1);
    assert_eq!(lib.playlists[0].name, Some(String::from("first")));
}

#[test]
fn track_items_resolve_to_the_canonical_track() {
    let mut snap = empty_snapshot("root");
    snap.tracks.push(plain_track("a.mp3"));
    snap.tracks.push(plain_track("b.mp3"));
    snap.playlists.push(SnapshotPlaylist {
        name: None,
        items: vec![
            SnapshotItem::Track(String::from("b.mp3")),
            SnapshotItem::Track(String::from("gone.mp3")),
        ],
        playback_mode: PlaybackMode::Continuous,
        id: 1,
    });
    let (lib, _) = MusicLibrary::ingest(String::from("root"), Some(snap), Vec::new());
    let items = &lib.playlists[0].items;
    assert_eq!(items.len(), 1);
    match &items[0] {
        PlaylistItem::Track(i) => assert_eq!(lib.tracks[*i].path(), "b.mp3"),
        _ => panic!("expected a track item"),
    }
}

#[test]
fn absent_playlist_references_are_dropped_not_an_error() {
    let mut snap = empty_snapshot("root");
    snap.playlists.push(SnapshotPlaylist {
        name: None,
        items: vec![SnapshotItem::Playlist(99), SnapshotItem::Playlist(2)],
        playback_mode: PlaybackMode::Continuous,
        id: 1,
    });
    snap.playlists.push(SnapshotPlaylist {
        name: None,
        items: Vec::new(),
        playback_mode: PlaybackMode::Continuous,
        id: 2,
    });
    let (lib, faults) = MusicLibrary::ingest(String::from("root"), Some(snap), Vec::new());
    assert!(faults.is_empty());
    let items = &lib.playlists[0].items;
    assert_eq!(items.len(), 1);
    assert!(matches!(items[0], PlaylistItem::Playlist(2)));
}

#[test]
fn an_emptied_block_remains_a_valid_empty_item() {
    let mut snap = empty_snapshot("root");
    snap.playlists.push(SnapshotPlaylist {
        name: None,
        items: vec![SnapshotItem::Block(vec![SnapshotItem::Track(String::from(
            "gone.mp3",
        ))])],
        playback_mode: PlaybackMode::Continuous,
        id: 1,
    });
    let (lib, _) = MusicLibrary::ingest(String::from("root"), Some(snap), Vec::new());
    let items = &lib.playlists[0].items;
    assert_eq!(items.len(), 1);
    match &items[0] {
        PlaylistItem::Block(inner) => assert!(inner.is_empty()),
        _ => panic!("expected a block item"),
    }
}

#[test]
fn an_ingested_playlist_plays_its_resolved_items_in_order() {
    let mut snap = empty_snapshot("root");
    snap.tracks.push(plain_track("a.mp3"));
    snap.tracks.push(plain_track("b.mp3"));
    snap.playlists.push(SnapshotPlaylist {
        name: Some(String::from("set")),
        items: vec![
            SnapshotItem::Track(String::from("b.mp3")),
            SnapshotItem::Track(String::from("a.mp3")),
        ],
        playback_mode: PlaybackMode::Continuous,
        id: 5,
    });
    let (mut lib, _) = MusicLibrary::ingest(String::from("root"), Some(snap), Vec::new());
    let first = lib.playlists[0].next().unwrap();
    let second = lib.playlists[0].next().unwrap();
    assert!(lib.playlists[0].next().is_none());
    let as_path = |item: &PlaylistItem| match item {
        PlaylistItem::Track(i) => String::from(lib.tracks[*i].path()),
        _ => panic!("expected track items"),
    };
    assert_eq!(as_path(&lib.playlists[0].items[first]), "b.mp3");
    assert_eq!(as_path(&lib.playlists[0].items[second]), "a.mp3");
}

#[test]
fn snapshot_round_trip_preserves_track_content() {
    let mut snap = empty_snapshot("root");
    let mut t = plain_track("a.mp3");
    t.artist = Some(String::from("ada"));
    t.album_art = Some(String::from("art/a.webp"));
    t.tags = vec![String::from("calm")];
    snap.tracks.push(t);
    let (lib, _) = MusicLibrary::ingest(String::from("root"), Some(snap), Vec::new());
    let out = lib.to_snapshot();
    assert_eq!(out.path, "root");
    assert_eq!(out.tracks.len(), 1);
    assert_eq!(out.tracks[0].path, "a.mp3");
    assert_eq!(out.tracks[0].artist, Some(String::from("ada")));
    assert_eq!(out.tracks[0].album_art, Some(String::from("art/a.webp")));
    assert_eq!(out.tracks[0].tags, vec![String::from("calm")]);
    assert_eq!(out.artists, vec![String::from("ada")]);
    assert_eq!(out.tags, vec![String::from("calm")]);
}
