use music_typer::display::line_is_displayed;
use music_typer::PlayingMusic;

#[test]
fn test_playing_music() {
    let mut playing_music = PlayingMusic::new("héllo, world".to_string());
    playing_music.add_typed_text("héllo");
    playing_music.add_typed_char(',');
    playing_music.add_typed_char(' ');
    playing_music.add_typed_text("world");
    assert_eq!(playing_music.get_typed_text(), "héllo world");
    let (valid, maximal) = playing_music.correctness_ratio();
    let correctness = valid as f64 / maximal as f64;
    assert!((correctness - 1.0) < 0.00000001);
}

#[test]
fn test_playing_music_lines() {
    let playing_music = PlayingMusic::new("h\ne\n\nl\nlo".into());
    let expected = ["h", "e", "", "l", "lo"];
    let _ = playing_music
        .lines()
        .iter()
        .zip(expected.iter())
        .map(|(music_line, expected_line)| assert_eq!(music_line, expected_line))
        .collect::<Vec<_>>();
}

#[test]
fn lines_drop_a_trailing_empty_line() {
    let playing_music = PlayingMusic::new("a\nb\n".to_string());
    assert_eq!(playing_music.lines(), &vec!["a".to_string(), "b".to_string()]);
    let playing_music = PlayingMusic::new("".to_string());
    assert!(playing_music.lines().is_empty());
    let playing_music = PlayingMusic::new("a\n\n".to_string());
    assert_eq!(playing_music.lines(), &vec!["a".to_string(), "".to_string()]);
}

#[test]
fn typed_letters_are_lowercased() {
    let mut playing_music = PlayingMusic::new("Hello".to_string());
    playing_music.add_typed_char('H');
    assert_eq!(playing_music.get_typed_text(), "h");
}

#[test]
fn source_is_lowercased() {
    let mut playing_music = PlayingMusic::new("HELLO World".to_string());
    playing_music.add_typed_text("hello world");
    assert_eq!(playing_music.correctness_ratio(), (11, 11));
}

#[test]
fn punctuation_and_spaces_collapse() {
    let mut playing_music = PlayingMusic::new("a b".to_string());
    playing_music.add_typed_text("a ,.!  b");
    assert_eq!(playing_music.get_typed_text(), "a b");
    playing_music.add_typed_text("!! c");
    assert_eq!(playing_music.get_typed_text(), "a b c");
}

#[test]
fn backspace_takes_back_a_pending_space_then_a_letter() {
    let mut playing_music = PlayingMusic::new("ab cd".to_string());
    playing_music.add_typed_text("ab ");
    assert_eq!(playing_music.get_typed_text(), "ab");
    playing_music.add_typed_char('\u{8}');
    assert_eq!(playing_music.get_typed_text(), "ab");
    playing_music.add_typed_char('c');
    assert_eq!(playing_music.get_typed_text(), "abc");
    playing_music.add_typed_char('\u{8}');
    assert_eq!(playing_music.get_typed_text(), "ab");
    playing_music.add_typed_char('\u{8}');
    playing_music.add_typed_char('\u{8}');
    playing_music.add_typed_char('\u{8}');
    assert_eq!(playing_music.get_typed_text(), "");
}

#[test]
fn correctness_counts() {
    let mut playing_music = PlayingMusic::new("abcd".to_string());
    assert_eq!(playing_music.correctness_ratio(), (0, 4));
    playing_music.add_typed_text("abxd");
    assert_eq!(playing_music.correctness_ratio(), (3, 4));
    playing_music.add_typed_text("xxxxxxxx");
    assert_eq!(playing_music.correctness_ratio(), (0, 4));
}

#[test]
fn position_in_source_text_and_lines() {
    let mut playing_music = PlayingMusic::new("hello world\nthis is a song".to_string());
    assert_eq!(playing_music.position_in_source_text(), 0);
    assert_eq!(playing_music.position_in_source_lines(), 0);
    playing_music.add_typed_text("hello world this");
    assert_eq!(playing_music.position_in_source_text(), 17);
    assert_eq!(playing_music.position_in_source_lines(), 1);
}

#[test]
fn position_past_the_words() {
    let mut playing_music = PlayingMusic::new("hi".to_string());
    playing_music.add_typed_text("hi there friend");
    assert_eq!(playing_music.position_in_source_text(), 2);
    assert_eq!(playing_music.position_in_source_lines(), 1);
}

#[test]
fn try_new_accepts_ordinary_text() {
    let playing_music = PlayingMusic::try_new("la la".to_string());
    assert!(playing_music.is_some());
    assert_eq!(playing_music.unwrap().lines(), &vec!["la la".to_string()]);
}

#[test]
fn try_add_accepts_ordinary_typing() {
    let mut playing_music = PlayingMusic::new("la la".to_string());
    assert!(playing_music.try_add_typed_char('L'));
    assert!(playing_music.try_add_typed_text("a la"));
    assert_eq!(playing_music.get_typed_text(), "la la");
}

#[test]
fn with_lowercased_words_scores_against_the_given_text() {
    let mut playing_music =
        PlayingMusic::with_lowercased_words("Hi, there".to_string(), "hi there".to_string());
    playing_music.add_typed_text("hi there");
    assert_eq!(playing_music.correctness_ratio(), (8, 8));
    assert_eq!(playing_music.lines(), &vec!["Hi, there".to_string()]);
}

#[test]
fn add_typed_char_lowered_writes_the_given_form() {
    let mut playing_music = PlayingMusic::new("ab".to_string());
    playing_music.add_typed_char_lowered('A', "a");
    playing_music.add_typed_char_lowered(' ', "");
    playing_music.add_typed_char_lowered('B', "b");
    assert_eq!(playing_music.get_typed_text(), "a b");
}

#[test]
fn lines_near_the_current_one_are_displayed() {
    assert!(line_is_displayed(5, 5, 3, 3));
    assert!(line_is_displayed(8, 5, 3, 3));
    assert!(!line_is_displayed(9, 5, 3, 3));
    assert!(line_is_displayed(2, 5, 3, 3));
    assert!(!line_is_displayed(1, 5, 3, 3));
    assert!(line_is_displayed(0, 0, 0, 0));
    assert!(!line_is_displayed(1, 0, 0, 0));
}

#[test]
fn typing_the_song_as_written_scores_fully() {
    let song = "Hello, world!\nThis is: a song.";
    let mut playing_music = PlayingMusic::new(song.to_string());
    playing_music.add_typed_text(song);
    assert_eq!(playing_music.get_typed_text(), "hello world this is a song");
    assert_eq!(playing_music.correctness_ratio(), (26, 26));
    assert_eq!(playing_music.position_in_source_text(), 26);
    assert_eq!(playing_music.position_in_source_lines(), 2);
}

#[test]
fn position_within_words_tells_the_fallback() {
    let mut playing_music = PlayingMusic::new("hi you\nthere".to_string());
    assert!(playing_music.position_is_within_words());
    playing_music.add_typed_text("hi you there");
    assert!(!playing_music.position_is_within_words());
    assert_eq!(playing_music.position_in_source_lines(), 2);
    assert_eq!(playing_music.lines().len(), 2);
    let mut playing_music = PlayingMusic::new("hi you\nthere".to_string());
    playing_music.add_typed_text("hi you t");
    assert!(playing_music.position_is_within_words());
    assert!(playing_music.position_in_source_lines() < playing_music.lines().len());
}
