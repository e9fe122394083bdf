use segue_attacca::scan::{file_name_of, is_audio_path};

#[test]
fn recognizes_the_three_audio_extensions() {
    assert!(is_audio_path(&String::from("a.mp3")));
    assert!(is_audio_path(&String::from("b.wav")));
    assert!(is_audio_path(&String::from("c.flac")));
}

#[test]
fn recognizes_audio_in_subdirectories() {
    assert!(is_audio_path(&String::from("sub/b.wav")));
    assert!(is_audio_path(&String::from("deep/er/tree/song.mp3")));
}

#[test]
fn rejects_other_extensions() {
    assert!(!is_audio_path(&String::from("notes.txt")));
    assert!(!is_audio_path(&String::from("cover.webp")));
    assert!(!is_audio_path(&String::from("mp3")));
}

#[test]
fn extension_match_is_case_sensitive() {
    assert!(!is_audio_path(&String::from("A.MP3")));
    assert!(!is_audio_path(&String::from("b.Wav")));
}

#[test]
fn hidden_files_have_no_extension() {
    assert!(!is_audio_path(&String::from(".mp3")));
    assert!(!is_audio_path(&String::from("sub/.mp3")));
}

#[test]
fn trailing_dot_is_an_empty_extension() {
    assert!(!is_audio_path(&String::from("a.")));
}

#[test]
fn dot_before_the_extension_still_counts() {
    assert!(is_audio_path(&String::from("a.b.mp3")));
    assert!(is_audio_path(&String::from("..mp3")));
}

#[test]
fn a_dotted_directory_gives_the_file_no_extension() {
    assert!(!is_audio_path(&String::from("a.mp3/c")));
}

#[test]
fn file_name_is_the_part_after_the_last_slash() {
    assert_eq!(file_name_of(&String::from("sub/b.wav")), "b.wav");
    assert_eq!(file_name_of(&String::from("a.mp3")), "a.mp3");
    assert_eq!(file_name_of(&String::from("x/y/z.flac")), "z.flac");
    assert_eq!(file_name_of(&String::from("dir/")), "");
}

#[test]
fn empty_path_has_empty_file_name() {
    assert_eq!(file_name_of(&String::from("")), "");
}
