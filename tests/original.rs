use private_speech::{calculate_hash, chunk_text, process_text};

#[test]
fn main_hash() {
    let text = "This is a test";
    let hash = calculate_hash(text);
    assert_eq!(hash, 10995228888654166610);
}

#[test]
fn tests_hash() {
    let text = "This is a test";
    let hash = calculate_hash(text);
    assert_eq!(hash, 10_995_228_888_654_166_610);
}

fn check_process_text() {
    let input = "This is, a test";
    let substitutions = vec![("test".to_string(), "toast".to_string())];
    let strip_regex = vec![",".to_string()];
    let output = process_text(input.to_string(), &substitutions, &strip_regex).unwrap();
    assert_eq!(output, "This is a toast");
}

#[test]
fn main_process_text() {
    check_process_text();
}

#[test]
fn tests_process_text() {
    check_process_text();
}

fn check_chunk_text() {
    let mut input = "This is, a test";
    let mut min_length = 5;
    let mut quick_first = false;
    let quick_first_length = 1;
    let split_on = vec!['.', ',', '\n'];
    let output = chunk_text(input, min_length, quick_first, quick_first_length, &split_on);
    assert_eq!(output, vec!["This is,", "a test"]);

    min_length = 10;
    let output = chunk_text(input, min_length, quick_first, quick_first_length, &split_on);
    assert_eq!(output, vec![input]);

    quick_first = true;
    let output = chunk_text(input, min_length, quick_first, quick_first_length, &split_on);
    assert_eq!(output, vec!["This", "is, a test"]);

    input = "This is a long test that should, be split into multiple chunks, and should be split on punctuation.";
    let output = chunk_text(input, min_length, quick_first, quick_first_length, &split_on);
    assert_eq!(
        output,
        vec![
            "This",
            "is a long test that should,",
            "be split into multiple chunks,",
            "and should be split on punctuation.",
        ]
    );
}

#[test]
fn main_chunk_text() {
    check_chunk_text();
}

#[test]
fn tests_chunk_text() {
    check_chunk_text();
}
