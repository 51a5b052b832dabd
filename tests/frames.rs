use asciinema_grep::frame::{expand_carriage_returns, flatten_rows, frames, is_white_space, should_emit, trimmed_len, FrameReconstructor};

fn rows(v: &[&str]) -> Vec<Vec<char>> {
    v.iter().map(|r| r.chars().collect()).collect()
}

#[test]
fn flatten_trims_and_drops_blank_rows() {
    let text: String = flatten_rows(&rows(&["ab  ", "   ", "", "cd\t", " e"])).into_iter().collect();
    assert_eq!(text, "ab\ncd\n e");
}

#[test]
fn flatten_of_blank_screen_is_empty() {
    assert!(flatten_rows(&rows(&["  ", "", "\u{3000}"])).is_empty());
    assert!(flatten_rows(&Vec::new()).is_empty());
}

#[test]
fn flatten_same_rows_same_text() {
    let a = rows(&["x ", "", "y"]);
    assert_eq!(flatten_rows(&a), flatten_rows(&a.clone()));
}

#[test]
fn trimmed_len_counts_unicode_space() {
    let r: Vec<char> = "ab\u{3000} \u{a0}".chars().collect();
    assert_eq!(trimmed_len(&r), 2);
    let k: Vec<char> = "a b".chars().collect();
    assert_eq!(trimmed_len(&k), 3);
}

#[test]
fn carriage_returns_gain_line_feeds() {
    assert_eq!(expand_carriage_returns(&"ls\rpwd\r".to_string()), "ls\r\npwd\r\n");
    assert_eq!(expand_carriage_returns(&"plain".to_string()), "plain");
}

#[test]
fn emit_rule() {
    assert!(should_emit(1, Some((0, 0)), Some((0, 0))));
    assert!(should_emit(0, Some((0, 0)), Some((1, 0))));
    assert!(should_emit(0, None, Some((0, 0))));
    assert!(!should_emit(0, Some((2, 3)), Some((2, 3))));
    assert!(!should_emit(0, None, None));
}

#[test]
fn color_change_takes_no_frame() {
    let mut rec = FrameReconstructor::new(false);
    let f = rec.feed(0, &"hi".to_string()).unwrap();
    assert_eq!(f.cursor, Some((2, 0)));
    assert!(rec.feed(1, &"\x1b[31m".to_string()).is_none());
    let g = rec.feed(2, &"\r\nthere".to_string()).unwrap();
    assert_eq!(g.index, 1);
    assert_eq!(g.time, 2);
    assert_eq!(g.text, "hi\nthere");
}

#[test]
fn input_channel_expands_returns() {
    let mut rec = FrameReconstructor::new(true);
    let f = rec.feed(0, &"ls\r".to_string()).unwrap();
    assert_eq!(f.text, "ls");
    assert_eq!(f.cursor, Some((0, 1)));
    let g = rec.feed(1, &"pwd".to_string()).unwrap();
    assert_eq!(g.text, "ls\npwd");
}

#[test]
fn frames_of_stream() {
    let stream = vec![(0u64, "a".to_string()), (1, "\x1b[1m".to_string()), (2, "b".to_string())];
    let fs = frames(&stream, false);
    assert_eq!(fs.len(), 2);
    assert_eq!(fs[0].text, "a");
    assert_eq!(fs[1].index, 1);
    assert_eq!(fs[1].text, "ab");
    assert_eq!(fs[1].time, 2);
}

#[test]
fn white_space_rule() {
    for c in ['\t', '\n', '\r', ' ', '\u{85}', '\u{a0}', '\u{2000}', '\u{200a}', '\u{3000}'] {
        assert!(is_white_space(c));
        assert!(c.is_whitespace());
    }
    for c in ['a', '\u{200b}', '\u{8}', '-'] {
        assert!(!is_white_space(c));
    }
}

#[test]
fn frame_times_follow_events() {
    let stream = vec![(5u64, "a".to_string()), (6, "\x1b[0m".to_string()), (9, "b".to_string()), (12, "\r\nc".to_string())];
    let times: Vec<u64> = frames(&stream, false).iter().map(|f| f.time).collect();
    assert_eq!(times, vec![5, 9, 12]);
}

#[test]
fn input_channel_return_starts_new_line() {
    let fs = frames(&vec![(0u64, "ab\rcd".to_string())], true);
    assert_eq!(fs.len(), 1);
    assert_eq!(fs[0].text, "ab\ncd");
}

#[test]
fn output_channel_return_overwrites() {
    let fs = frames(&vec![(0u64, "ab\rcd".to_string())], false);
    assert_eq!(fs.len(), 1);
    assert_eq!(fs[0].text, "cd");
}

#[test]
fn cursor_move_alone_takes_frame() {
    let fs = frames(&vec![(0u64, "hi".to_string()), (1, "\x1b[D".to_string())], false);
    assert_eq!(fs.len(), 2);
    assert_eq!(fs[0].text, fs[1].text);
    assert_eq!(fs[0].cursor, Some((2, 0)));
    assert_eq!(fs[1].cursor, Some((1, 0)));
    assert_eq!(fs[1].time, 1);
}

#[test]
fn colour_only_event_takes_no_frame() {
    let fs = frames(&vec![(0u64, "hi".to_string()), (1, "\x1b[31m".to_string())], false);
    assert_eq!(fs.len(), 1);
    assert_eq!(fs[0].time, 0);
}

#[test]
fn hello_is_one_frame() {
    let fs = frames(&vec![(0u64, "hello".to_string())], false);
    assert_eq!(fs.len(), 1);
    assert_eq!(fs[0].index, 0);
    assert_eq!(fs[0].text, "hello");
}
