use threadkit::pager::{
    by_count_is_safe, check_user_input, print_buffered, print_buffered_by_count, process_output,
    try_print_buffered_by_count, Pager, SPACE,
};

fn text(lines: &[Vec<u8>]) -> Vec<String> {
    lines.iter().map(|l| String::from_utf8(l.clone()).unwrap()).collect()
}

fn numbered(n: usize) -> Vec<u8> {
    let mut s = String::new();
    for i in 0..n {
        s.push_str(&format!("{}\n", i));
    }
    s.into_bytes()
}

#[test]
fn print_buffered_shows_all_that_fits() {
    let mut buf = b"a\nb\nc".to_vec();
    let mut printed = 0;
    let mut waiting = false;
    let (shown, prompt) = print_buffered(&mut buf, &mut printed, &mut waiting);
    assert_eq!(text(&shown), vec!["a", "b", "c"]);
    assert!(!prompt);
    assert_eq!(printed, 3);
    assert!(buf.is_empty());
}

#[test]
fn print_buffered_empty_buffer_shows_one_empty_line() {
    let mut buf = Vec::new();
    let mut printed = 0;
    let mut waiting = false;
    let (shown, prompt) = print_buffered(&mut buf, &mut printed, &mut waiting);
    assert_eq!(text(&shown), vec![""]);
    assert!(!prompt);
    assert_eq!(printed, 1);
}

#[test]
fn print_buffered_stops_at_a_full_screen() {
    let mut buf = numbered(30);
    let mut printed = 0;
    let mut waiting = false;
    let (shown, prompt) = print_buffered(&mut buf, &mut printed, &mut waiting);
    assert_eq!(shown.len(), 25);
    assert_eq!(text(&shown)[24], "24");
    assert!(prompt);
    assert!(waiting);
    assert_eq!(printed, 25);
    assert_eq!(String::from_utf8(buf).unwrap(), "25\n26\n27\n28\n29\n");
}

#[test]
fn print_buffered_counts_lines_already_on_screen() {
    let mut buf = b"x\ny\nz".to_vec();
    let mut printed = 24;
    let mut waiting = false;
    let (shown, prompt) = print_buffered(&mut buf, &mut printed, &mut waiting);
    assert_eq!(text(&shown), vec!["x"]);
    assert!(prompt);
    assert_eq!(printed, 25);
    assert_eq!(buf, b"y\nz".to_vec());
}

#[test]
fn process_output_drops_what_does_not_fit() {
    let data = numbered(27);
    let mut printed = 0;
    let mut waiting = false;
    let (shown, prompt) = process_output(&data, &mut printed, &mut waiting);
    assert_eq!(shown.len(), 25);
    assert!(prompt);
    assert!(waiting);
    let (shown2, prompt2) = process_output(b"more", &mut printed, &mut waiting);
    assert!(shown2.is_empty());
    assert!(!prompt2);
}

#[test]
fn check_user_input_space_resets_screen() {
    let mut waiting = true;
    let mut printed = 25;
    check_user_input(Some(b'x'), &mut waiting, &mut printed);
    assert!(waiting);
    assert_eq!(printed, 25);
    check_user_input(None, &mut waiting, &mut printed);
    assert!(waiting);
    check_user_input(Some(b' '), &mut waiting, &mut printed);
    assert!(!waiting);
    assert_eq!(printed, 0);
}

#[test]
fn pager_keeps_text_while_waiting() {
    let mut p = Pager::new();
    let (shown, prompt) = p.feed(&numbered(26));
    assert_eq!(shown.len(), 25);
    assert!(prompt);
    let (shown, prompt) = p.feed(b"late\n");
    assert!(shown.is_empty());
    assert!(!prompt);
    let (shown, prompt) = p.press_key(b'q');
    assert!(shown.is_empty());
    assert!(!prompt);
    let (shown, prompt) = p.press_key(SPACE);
    assert_eq!(text(&shown), vec!["25", "late", ""]);
    assert!(!prompt);
    assert!(p.into_rest().is_empty());
}

#[test]
fn paging_loses_no_line() {
    let all = numbered(40);
    let mut buf = all.clone();
    let mut printed = 3;
    let mut waiting = false;
    let (shown, _) = print_buffered(&mut buf, &mut printed, &mut waiting);
    let mut lines = text(&shown);
    lines.extend(String::from_utf8(buf).unwrap().split('\n').map(|s| s.to_string()));
    let expected: Vec<String> = String::from_utf8(all).unwrap().split('\n').map(|s| s.to_string()).collect();
    assert_eq!(lines, expected);
}

#[test]
fn by_count_on_empty_screen_keeps_the_unshown_lines() {
    let mut buf = numbered(30);
    let mut printed = 0;
    let mut waiting = false;
    assert!(by_count_is_safe(&buf, printed));
    let (shown, prompt) = print_buffered_by_count(&mut buf, &mut printed, &mut waiting);
    assert_eq!(shown.len(), 25);
    assert_eq!(String::from_utf8(shown[24].clone()).unwrap(), "24");
    assert!(prompt);
    assert!(waiting);
    assert_eq!(printed, 25);
    assert_eq!(buf, b"25\n26\n27\n28\n29\n".to_vec());
}

#[test]
fn by_count_after_lines_on_screen_skips_to_the_count() {
    let mut buf = numbered(30);
    let mut printed = 10;
    let mut waiting = false;
    let r = try_print_buffered_by_count(&mut buf, &mut printed, &mut waiting);
    let (shown, prompt) = r.unwrap();
    assert_eq!(shown.len(), 15);
    assert_eq!(String::from_utf8(shown[14].clone()).unwrap(), "14");
    assert!(prompt);
    assert!(waiting);
    assert_eq!(printed, 25);
    assert_eq!(buf, b"25\n26\n27\n28\n29\n".to_vec());
}

#[test]
fn by_count_keeps_nothing_when_the_count_is_the_last_line() {
    let mut buf = numbered(24);
    let mut printed = 10;
    let mut waiting = false;
    let (shown, prompt) = try_print_buffered_by_count(&mut buf, &mut printed, &mut waiting).unwrap();
    assert_eq!(shown.len(), 15);
    assert!(prompt);
    assert_eq!(printed, 25);
    assert!(buf.is_empty());
}

#[test]
fn by_count_refuses_a_count_past_the_last_line() {
    let mut buf = numbered(20);
    let mut printed = 10;
    let mut waiting = false;
    assert!(!by_count_is_safe(&buf, printed));
    assert!(try_print_buffered_by_count(&mut buf, &mut printed, &mut waiting).is_none());
    assert_eq!(buf, numbered(20));
    assert_eq!(printed, 10);
    assert!(!waiting);

    let mut buf = b"a\nb\nc".to_vec();
    let mut printed = 30;
    assert!(try_print_buffered_by_count(&mut buf, &mut printed, &mut waiting).is_none());
    assert_eq!(printed, 30);
}

#[test]
fn by_count_shows_all_that_fits() {
    let mut buf = b"a\nb".to_vec();
    let mut printed = 3;
    let mut waiting = false;
    let (shown, prompt) = try_print_buffered_by_count(&mut buf, &mut printed, &mut waiting).unwrap();
    assert_eq!(text(&shown), vec!["a", "b"]);
    assert!(!prompt);
    assert!(!waiting);
    assert_eq!(printed, 5);
    assert!(buf.is_empty());
}
