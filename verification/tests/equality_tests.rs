use segue_attacca::music_library::Track;
use segue_attacca::playlist::{PlaybackMode, Playlist, PlaylistItem};

fn track(path: &str) -> Track {
    Track {
        path: String::from(path),
        name: String::from(path),
        artist: None,
        album_art: None,
        tags: Vec::new(),
    }
}

#[test]
fn items_compare_structurally() {
    assert!(PlaylistItem::Track(1) == PlaylistItem::Track(1));
    assert!(PlaylistItem::Track(1) != PlaylistItem::Track(2));
    assert!(PlaylistItem::Playlist(7) == PlaylistItem::Playlist(7));
    assert!(PlaylistItem::Track(1) != PlaylistItem::Playlist(1));
}

#[test]
fn blocks_compare_by_their_children() {
    let a = PlaylistItem::Block(vec![PlaylistItem::Track(0), PlaylistItem::Playlist(9)]);
    let b = PlaylistItem::Block(vec![PlaylistItem::Track(0), PlaylistItem::Playlist(9)]);
    let c = PlaylistItem::Block(vec![PlaylistItem::Track(0)]);
    let d = PlaylistItem::Block(vec![PlaylistItem::Track(0), PlaylistItem::Playlist(8)]);
    assert!(a == b);
    assert!(a != c);
    assert!(a != d);
    assert!(PlaylistItem::Block(Vec::new()) == PlaylistItem::Block(Vec::new()));
}

#[test]
fn nested_blocks_compare_recursively() {
    let a = PlaylistItem::Block(vec![PlaylistItem::Block(vec![PlaylistItem::Track(3)])]);
    let b = PlaylistItem::Block(vec![PlaylistItem::Block(vec![PlaylistItem::Track(3)])]);
    let c = PlaylistItem::Block(vec![PlaylistItem::Block(vec![PlaylistItem::Track(4)])]);
    assert!(a == b);
    assert!(a != c);
}

#[test]
fn tracks_compare_by_all_their_fields() {
    assert!(track("a.mp3") == track("a.mp3"));
    assert!(track("a.mp3") != track("b.mp3"));
    let mut with_artist = track("a.mp3");
    with_artist.artist = Some(0);
    assert!(track("a.mp3") != with_artist);
    let mut with_tag = track("a.mp3");
    with_tag.tags.push(2);
    assert!(track("a.mp3") != with_tag);
}

#[test]
fn playlist_equality_ignores_the_transient_playback_state() {
    let items = vec![PlaylistItem::Track(0), PlaylistItem::Track(1)];
    let mut a = Playlist::new(Some(String::from("set")), items, PlaybackMode::Continuous);
    let mut b = Playlist {
        name: a.name.clone(),
        items: vec![PlaylistItem::Track(0), PlaylistItem::Track(1)],
        playback_mode: a.playback_mode,
        id: a.id,
        play_queue: Vec::new(),
        first: true,
    };
    assert!(a == b);
    // Pull from one copy only: the pending lap differs, equality does not.
    assert_eq!(a.next(), Some(0));
    assert!(a == b);
    b.playback_mode = PlaybackMode::Shuffle;
    assert!(a != b);
}

#[test]
fn playlists_with_different_identities_compare_unequal() {
    let a = Playlist::new(None, Vec::new(), PlaybackMode::Continuous);
    let mut b = Playlist::new(None, Vec::new(), PlaybackMode::Continuous);
    b.id = a.id.wrapping_add(1);
    assert!(a != b);
}
