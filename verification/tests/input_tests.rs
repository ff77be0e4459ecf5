use threadkit::input::{line_chunks, sleep_micros};

#[test]
fn short_line_is_one_chunk() {
    assert_eq!(line_chunks("hello"), vec!["hello"]);
}

#[test]
fn empty_line_has_no_chunks() {
    assert!(line_chunks("").is_empty());
}

#[test]
fn long_line_is_cut_every_eighty_bytes() {
    let line = "a".repeat(80) + &"b".repeat(80) + "c";
    let chunks = line_chunks(&line);
    assert_eq!(chunks, vec!["a".repeat(80), "b".repeat(80), "c".to_string()]);
}

#[test]
fn chunk_cut_inside_a_character_gets_replacement() {
    let line = "a".repeat(79) + "é";
    let chunks = line_chunks(&line);
    assert_eq!(chunks.len(), 2);
    assert_eq!(chunks[0], "a".repeat(79) + "\u{fffd}");
    assert_eq!(chunks[1], "\u{fffd}");
}

#[test]
fn sleep_grows_with_length() {
    assert_eq!(sleep_micros(0), 0);
    assert_eq!(sleep_micros(3), 300000);
    assert!(sleep_micros(2) < sleep_micros(5));
}

#[test]
fn chunks_put_together_give_the_line() {
    let line = "0123456789".repeat(25);
    let chunks = line_chunks(&line);
    assert_eq!(chunks.len(), 4);
    assert!(chunks.iter().all(|c| !c.is_empty() && c.len() <= 80));
    assert_eq!(chunks.concat(), line);
}
