use segue_attacca::music_library::{MusicLibrary, Track};

fn track(path: &str, tags: Vec<usize>) -> Track {
    Track {
        path: String::from(path),
        name: String::from(path),
        artist: None,
        album_art: None,
        tags,
    }
}

fn library_with(tracks: Vec<Track>, tags: Vec<String>) -> MusicLibrary {
    MusicLibrary {
        path: String::from("root"),
        tracks,
        playlists: Vec::new(),
        artists: Vec::new(),
        tags,
    }
}

#[test]
fn add_tag_reuses_an_equal_table_entry() {
    let mut lib = library_with(
        vec![track("a.mp3", Vec::new()), track("b.mp3", Vec::new())],
        Vec::new(),
    );
    lib.add_tag(0, &String::from("calm"));
    lib.add_tag(1, &String::from("calm"));
    assert_eq!(lib.tags, vec![String::from("calm")]);
    assert_eq!(lib.tracks[0].tags, vec![0]);
    assert_eq!(lib.tracks[1].tags, vec![0]);
}

#[test]
fn add_tag_inserts_a_new_string_and_keeps_the_table_sorted() {
    let mut lib = library_with(
        vec![track("a.mp3", Vec::new())],
        vec![String::from("calm")],
    );
    lib.add_tag(0, &String::from("loud"));
    assert_eq!(lib.tags, vec![String::from("calm"), String::from("loud")]);
    assert_eq!(lib.tracks[0].tags, vec![1]);
}

#[test]
fn add_tag_resorts_the_table_and_renumbers_references() {
    let mut lib = library_with(
        vec![track("a.mp3", vec![0])],
        vec![String::from("calm")],
    );
    lib.add_tag(0, &String::from("apple"));
    assert_eq!(lib.tags, vec![String::from("apple"), String::from("calm")]);
    // The old reference to "calm" now points at position 1; the new
    // reference to "apple" at position 0, appended in order of addition.
    assert_eq!(lib.tracks[0].tags, vec![1, 0]);
}

#[test]
fn tag_table_order_is_case_insensitive() {
    let mut lib = library_with(
        vec![track("a.mp3", vec![0])],
        vec![String::from("Beta")],
    );
    lib.add_tag(0, &String::from("alpha"));
    assert_eq!(lib.tags, vec![String::from("alpha"), String::from("Beta")]);
    assert_eq!(lib.tracks[0].tags, vec![1, 0]);
}

#[test]
fn track_tag_helpers_behave_as_a_set_and_a_list() {
    let mut t = track("a.mp3", Vec::new());
    t.add_tag(3);
    t.add_tag(3);
    assert_eq!(t._tags(), &vec![3, 3]);
    t._add_tag(3);
    assert_eq!(t._tags(), &vec![3, 3]);
    t._add_tag(4);
    assert_eq!(t._tags(), &vec![3, 3, 4]);
    assert!(t._has_tag(4));
    assert!(!t._has_tag(5));
}

#[test]
fn gc_removes_only_unheld_tags_and_renumbers() {
    let mut lib = library_with(
        vec![track("a.mp3", vec![2]), track("b.mp3", vec![0, 2])],
        vec![
            String::from("kept-low"),
            String::from("dropped"),
            String::from("kept-high"),
        ],
    );
    lib.gc_tags();
    assert_eq!(
        lib.tags,
        vec![String::from("kept-low"), String::from("kept-high")]
    );
    assert_eq!(lib.tracks[0].tags, vec![1]);
    assert_eq!(lib.tracks[1].tags, vec![0, 1]);
}

#[test]
fn gc_is_idempotent() {
    let mut lib = library_with(
        vec![track("a.mp3", vec![1])],
        vec![String::from("dropped"), String::from("kept")],
    );
    lib.gc_tags();
    let tags_after_one = lib.tags.clone();
    let refs_after_one = lib.tracks[0].tags.clone();
    lib.gc_tags();
    assert_eq!(lib.tags, tags_after_one);
    assert_eq!(lib.tracks[0].tags, refs_after_one);
}

#[test]
fn gc_on_an_all_held_table_changes_nothing() {
    let mut lib = library_with(
        vec![track("a.mp3", vec![0, 1])],
        vec![String::from("x"), String::from("y")],
    );
    lib.gc_tags();
    assert_eq!(lib.tags, vec![String::from("x"), String::from("y")]);
    assert_eq!(lib.tracks[0].tags, vec![0, 1]);
}

#[test]
fn get_tracks_hands_back_the_arena() {
    let lib = library_with(vec![track("a.mp3", Vec::new())], Vec::new());
    assert_eq!(lib.get_tracks().len(), 1);
    assert_eq!(lib.get_tracks()[0].path(), "a.mp3");
}

#[test]
fn equal_catalogs_compare_equal() {
    let a = library_with(vec![track("a.mp3", vec![0])], vec![String::from("x")]);
    let b = library_with(vec![track("a.mp3", vec![0])], vec![String::from("x")]);
    assert!(a == b);
}

#[test]
fn catalogs_with_different_roots_compare_unequal() {
    let a = library_with(Vec::new(), Vec::new());
    let mut b = library_with(Vec::new(), Vec::new());
    b.path = String::from("elsewhere");
    assert!(a != b);
}

#[test]
fn catalogs_differing_in_a_shared_track_compare_unequal() {
    let a = library_with(vec![track("a.mp3", Vec::new())], Vec::new());
    let b = library_with(vec![track("b.mp3", Vec::new())], Vec::new());
    assert!(a != b);
}

#[test]
fn an_empty_catalog_owns_nothing() {
    let lib = MusicLibrary::empty(String::from("root"));
    assert_eq!(lib.path, "root");
    assert!(lib.tracks.is_empty());
    assert!(lib.playlists.is_empty());
    assert!(lib.artists.is_empty());
    assert!(lib.tags.is_empty());
}

#[test]
fn gc_never_removes_a_tag_just_added() {
    let mut lib = library_with(vec![track("a.mp3", Vec::new())], Vec::new());
    lib.add_tag(0, &String::from("fresh"));
    lib.gc_tags();
    assert_eq!(lib.tags, vec![String::from("fresh")]);
    assert_eq!(lib.tracks[0].tags, vec![0]);
}

#[test]
fn error_carries_its_message() {
    let e = segue_attacca::music_library::MusicLibraryError::IOError(String::from(
        "cannot read root",
    ));
    assert_eq!(e.message(), "cannot read root");
}
