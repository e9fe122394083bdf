use segue_attacca::playlist::{PlaybackMode, Playlist, PlaylistItem};

fn three_items() -> Vec<PlaylistItem> {
    vec![
        PlaylistItem::Track(0),
        PlaylistItem::Track(1),
        PlaylistItem::Track(2),
    ]
}

#[test]
fn continuous_plays_in_order_then_terminates() {
    let mut pl = Playlist::new(None, three_items(), PlaybackMode::Continuous);
    assert_eq!(pl.next(), Some(0));
    assert_eq!(pl.next(), Some(1));
    assert_eq!(pl.next(), Some(2));
    assert_eq!(pl.next(), None);
    assert_eq!(pl.next(), None);
}

#[test]
fn loop_continuous_repeats_the_order() {
    let items = vec![PlaylistItem::Track(0), PlaylistItem::Track(1)];
    let mut pl = Playlist::new(None, items, PlaybackMode::LoopContinuous);
    let pulls: Vec<Option<usize>> = (0..6).map(|_| pl.next()).collect();
    assert_eq!(
        pulls,
        vec![Some(0), Some(1), Some(0), Some(1), Some(0), Some(1)]
    );
}

#[test]
fn shuffle_plays_each_item_once_then_terminates() {
    let mut pl = Playlist::new(None, three_items(), PlaybackMode::Shuffle);
    let mut seen = vec![
        pl.next().unwrap(),
        pl.next().unwrap(),
        pl.next().unwrap(),
    ];
    assert_eq!(pl.next(), None);
    seen.sort();
    assert_eq!(seen, vec![0, 1, 2]);
}

#[test]
fn loop_shuffle_gives_a_full_permutation_every_lap() {
    let mut pl = Playlist::new(None, three_items(), PlaybackMode::LoopShuffle);
    for _ in 0..4 {
        let mut lap = vec![
            pl.next().unwrap(),
            pl.next().unwrap(),
            pl.next().unwrap(),
        ];
        lap.sort();
        assert_eq!(lap, vec![0, 1, 2]);
    }
}

#[test]
fn an_empty_playlist_terminates_immediately_in_every_mode() {
    let modes = vec![
        PlaybackMode::Continuous,
        PlaybackMode::Shuffle,
        PlaybackMode::LoopContinuous,
        PlaybackMode::LoopShuffle,
    ];
    for mode in modes {
        let mut pl = Playlist::new(None, Vec::new(), mode);
        assert_eq!(pl.next(), None);
        assert_eq!(pl.next(), None);
    }
}

#[test]
fn a_single_item_loops_forever() {
    let mut pl = Playlist::new(
        None,
        vec![PlaylistItem::Track(0)],
        PlaybackMode::LoopShuffle,
    );
    for _ in 0..5 {
        assert_eq!(pl.next(), Some(0));
    }
}

#[test]
fn default_playlist_is_empty_and_continuous() {
    let pl = Playlist::default();
    assert!(pl.name.is_none());
    assert!(pl.items.is_empty());
    assert_eq!(pl.playback_mode, PlaybackMode::Continuous);
}
