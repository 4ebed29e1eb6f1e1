use private_speech::cache::{cache_path, cache_path_for_key};
use private_speech::menu::SinkCommand;
use private_speech::normalize::NormalizeError;
use private_speech::playback::{next_action, ClipAction, ClipEvent};
use private_speech::{calculate_hash, chunk_text, process_text, Menu};

const DELIMS: [char; 3] = ['.', ',', '\n'];

#[test]
fn short_text_is_one_trimmed_chunk() {
    let out = chunk_text("  hi there \n", 20, true, 1, &DELIMS);
    assert_eq!(out, vec!["hi there"]);
}

#[test]
fn blank_text_is_one_empty_chunk() {
    let out = chunk_text("   ", 5, false, 1, &DELIMS);
    assert_eq!(out, vec![""]);
}

#[test]
fn empty_text_with_zero_minimum_has_no_chunks() {
    let out = chunk_text("", 0, false, 1, &DELIMS);
    assert!(out.is_empty());
}

#[test]
fn chunks_rebuild_the_text() {
    let input = " One, two. Three four, five six seven.\nEight ";
    let out = chunk_text(input, 8, false, 1, &DELIMS);
    assert_eq!(out, vec!["One, two.", "Three four,", "five six seven.", "Eight"]);
    assert_eq!(out.join(" "), input.trim().replace('\n', " "));
}

#[test]
fn trailing_chunk_may_be_short() {
    let out = chunk_text("abcdefgh, ij", 5, false, 1, &DELIMS);
    assert_eq!(out, vec!["abcdefgh,", "ij"]);
}

#[test]
fn minimum_is_strictly_exceeded() {
    // The first run takes exactly five bytes: not enough to close a chunk.
    let out = chunk_text("abcd, efgh, ij", 5, false, 1, &DELIMS);
    assert_eq!(out, vec!["abcd, efgh,", "ij"]);
}

#[test]
fn multibyte_text_is_cut_on_characters() {
    let out = chunk_text("héllo, wörld, ünïcode", 6, false, 1, &DELIMS);
    assert_eq!(out, vec!["héllo,", "wörld,", "ünïcode"]);
}

#[test]
fn byte_length_decides_single_chunk() {
    // Four characters but eight bytes.
    let out = chunk_text("éééé", 8, false, 1, &DELIMS);
    assert_eq!(out, vec!["éééé"]);
    let out = chunk_text("éééé", 9, false, 1, &DELIMS);
    assert_eq!(out, vec!["éééé"]);
}

#[test]
fn quick_first_stops_after_the_nth_space() {
    let out = chunk_text("one two three four, five", 5, true, 2, &DELIMS);
    assert_eq!(out, vec!["one two", "three four,", "five"]);
}

#[test]
fn quick_first_with_fewer_spaces_takes_everything() {
    let out = chunk_text("one two three", 5, true, 7, &DELIMS);
    assert_eq!(out, vec!["one two three"]);
}

#[test]
fn quick_first_of_zero_spaces_takes_one_character() {
    let out = chunk_text("Hello world", 1, true, 0, &DELIMS);
    assert_eq!(out, vec!["H", "ello world"]);
}

#[test]
fn hash_is_deterministic() {
    assert_eq!(calculate_hash("some chunk"), calculate_hash("some chunk"));
    assert_ne!(calculate_hash("some chunk"), calculate_hash("another chunk"));
}

#[test]
fn cache_path_renders_key_in_decimal() {
    assert_eq!(cache_path_for_key("/tmp/speech", 123), "/tmp/speech/123.wav");
    assert_eq!(cache_path_for_key("/tmp", 0), "/tmp/0.wav");
    assert_eq!(
        cache_path_for_key("c", u64::MAX),
        "c/18446744073709551615.wav"
    );
}

#[test]
fn cache_path_of_chunk_uses_its_hash() {
    assert_eq!(
        cache_path("/tmp", "This is a test"),
        "/tmp/10995228888654166610.wav"
    );
}

#[test]
fn strip_patterns_are_alternatives() {
    let out = process_text("a-b_c".to_string(), &[], &["-".to_string(), "_".to_string()]);
    assert_eq!(out, Ok("abc".to_string()));
}

#[test]
fn substitutions_apply_in_order() {
    let subs = vec![
        ("cat".to_string(), "dog".to_string()),
        ("dog".to_string(), "wolf".to_string()),
    ];
    let out = process_text("a cat and a dog".to_string(), &subs, &[]);
    assert_eq!(out, Ok("a wolf and a wolf".to_string()));
}

#[test]
fn substitution_sees_capture_groups() {
    let subs = vec![(r"(\w+)@(\w+)".to_string(), "$2 at $1".to_string())];
    let out = process_text("me@home".to_string(), &subs, &[]);
    assert_eq!(out, Ok("home at me".to_string()));
}

#[test]
fn normalized_text_is_unchanged_without_patterns() {
    let once = process_text(" \u{3000}Already clean\u{a0}\n".to_string(), &[], &[]).unwrap();
    assert_eq!(once, "Already clean");
    let twice = process_text(once.clone(), &[], &[]).unwrap();
    assert_eq!(twice, once);
}

#[test]
fn invalid_strip_pattern_is_reported() {
    let out = process_text("text".to_string(), &[], &["(".to_string(), "x".to_string()]);
    assert_eq!(out, Err(NormalizeError::InvalidPattern("(|x".to_string())));
}

#[test]
fn invalid_substitution_pattern_is_reported() {
    let subs = vec![
        ("a".to_string(), "b".to_string()),
        ("[".to_string(), "c".to_string()),
    ];
    let out = process_text("text".to_string(), &subs, &[]);
    assert_eq!(out, Err(NormalizeError::InvalidPattern("[".to_string())));
}

#[test]
fn menu_click_toggles_playing() {
    let mut m = Menu { playing: true, status: "Testing".to_string() };
    assert_eq!(m.title(), "Testing");
    assert_eq!(m.icon_name(), "help-about");
    m.activate(0, 0);
    assert!(!m.playing);
    assert_eq!(m.status, "Testing");
    m.activate(3, 4);
    assert!(m.playing);
}

#[test]
fn menu_status_follows_flag() {
    let mut m = Menu { playing: true, status: "Testing".to_string() };
    assert_eq!(m.sync_status(), SinkCommand::Play);
    assert_eq!(m.status, "Playing");
    m.playing = false;
    assert_eq!(m.sync_status(), SinkCommand::Pause);
    assert_eq!(m.title(), "Paused");
    assert!(!m.playing);
}

#[test]
fn clip_steps() {
    assert_eq!(next_action(ClipEvent::Found, true), ClipAction::Enqueue);
    assert_eq!(next_action(ClipEvent::Missing, false), ClipAction::Fetch);
    assert_eq!(next_action(ClipEvent::Fetched, false), ClipAction::Enqueue);
    assert_eq!(next_action(ClipEvent::Fetched, true), ClipAction::AdjustSpeed);
    assert_eq!(next_action(ClipEvent::SpeedAdjusted, true), ClipAction::Enqueue);
    assert_eq!(next_action(ClipEvent::FetchFailed(500), false), ClipAction::Abort(500));
}

#[test]
fn blank_piece_gives_no_chunk() {
    let out = chunk_text("a\n\nb", 0, false, 0, &['\n']);
    assert_eq!(out, vec!["a", "b"]);
    let out = chunk_text("abcdef\n       \nxyz", 3, false, 1, &['\n']);
    assert_eq!(out, vec!["abcdef", "xyz"]);
}

#[test]
fn chunks_are_nonempty_and_trimmed() {
    let input = "First part,  \n  , second part, , third.";
    let out = chunk_text(input, 4, true, 1, &DELIMS);
    assert_eq!(out, vec!["First", "part,", ",", "second part,", ", third."]);
    for c in &out {
        assert!(!c.is_empty());
        assert_eq!(c.trim(), c);
    }
}
