use asciinema_grep::coalesce::Span;
use asciinema_grep::present::{display_match, highlight_matches, highlight_matchlines, use_color, ColorMode, DisplayOptions};
use asciinema_grep::source::{absolute_time, is_stdin_marker, is_zstd_name, stdin_listed_at_most_once};

fn span(text: &str, ranges: Vec<(usize, usize)>) -> Span {
    Span { start_frame: 3, end_frame: 4, start_time: 0, end_time: 0, text: text.to_string(), ranges }
}

fn s(v: Vec<u8>) -> String {
    String::from_utf8(v).unwrap()
}

#[test]
fn full_frame_highlight() {
    let sp = span("hello", vec![(1, 4)]);
    assert_eq!(s(highlight_matches(&sp, true)), "h\x1b[31mell\x1b[0mo");
    assert_eq!(s(highlight_matches(&sp, false)), "hello");
}

#[test]
fn full_frame_match_at_end_gets_reset() {
    let sp = span("abc", vec![(1, 3)]);
    assert_eq!(s(highlight_matches(&sp, true)), "a\x1b[31mbc\x1b[0m");
    let hello = span("hello", vec![(2, 5)]);
    assert_eq!(s(highlight_matches(&hello, true)), "he\x1b[31mllo\x1b[0m");
}

#[test]
fn full_frame_one_reset_per_range() {
    let sp = span("abab", vec![(0, 2), (2, 4)]);
    assert_eq!(s(highlight_matches(&sp, true)), "\x1b[31mab\x1b[0m\x1b[31mab\x1b[0m");
}

#[test]
fn matching_lines_only() {
    let sp = span("abc\ndef\nghi", vec![(5, 7)]);
    assert_eq!(s(highlight_matchlines(&sp, true, false)), "d\x1b[31mef\x1b[0m\n");
    assert_eq!(s(highlight_matchlines(&sp, false, true)), "   2: def\n");
}

#[test]
fn matching_lines_two_lines_two_matches() {
    let sp = span("xa a\nb\nax", vec![(1, 2), (3, 4), (7, 8)]);
    assert_eq!(s(highlight_matchlines(&sp, false, true)), "   1: xa a\n   3: ax\n");
    assert_eq!(
        s(highlight_matchlines(&sp, true, false)),
        "x\x1b[31ma\x1b[0m \x1b[31ma\x1b[0m\n\x1b[31ma\x1b[0mx\n"
    );
}

#[test]
fn range_across_lines_shows_both_lines() {
    let sp = span("ab\ncd", vec![(1, 4)]);
    assert_eq!(s(highlight_matchlines(&sp, false, false)), "ab\ncd\n");
    assert_eq!(s(highlight_matchlines(&sp, true, false)), "a\x1b[31mb\x1b[0m\n\x1b[31mc\x1b[0md\n");
    assert_eq!(s(highlight_matchlines(&sp, false, true)), "   1: ab\n   2: cd\n");
}

#[test]
fn untouched_middle_line_is_left_out() {
    let sp = span("ab\nxx\ncd", vec![(0, 1), (7, 8)]);
    assert_eq!(s(highlight_matchlines(&sp, false, true)), "   1: ab\n   3: cd\n");
}

#[test]
fn empty_match_shows_no_line() {
    let sp = span("ab", vec![(0, 0)]);
    assert_eq!(s(highlight_matchlines(&sp, false, false)), "");
    let edge = span("ab\ncd", vec![(3, 3)]);
    assert_eq!(s(highlight_matchlines(&edge, true, false)), "");
}

#[test]
fn list_only_names_file_for_any_span() {
    let odd = Span { start_frame: 9, end_frame: usize::MAX, start_time: 0, end_time: 0, text: String::new(), ranges: vec![] };
    let opts = DisplayOptions { list_only: true, show_full_frame: true, show_line_numbers: true, color: true };
    let out = display_match(&"a.cast".to_string(), &"p".to_string(), &odd, &"x".to_string(), &"y".to_string(), &opts);
    assert_eq!(s(out), "a.cast\n");
}

#[test]
fn wide_line_numbers() {
    let mut text = String::new();
    for _ in 0..12344 {
        text.push('\n');
    }
    text.push('z');
    let n = text.len();
    let sp = span(&text, vec![(n - 1, n)]);
    assert_eq!(s(highlight_matchlines(&sp, false, true)), "12345: z\n");
}

#[test]
fn heading_and_body() {
    let sp = span("abc\nxyz", vec![(5, 6)]);
    let opts = DisplayOptions { list_only: false, show_full_frame: false, show_line_numbers: false, color: false };
    let out = display_match(&"f.cast".to_string(), &"y".to_string(), &sp, &"T1".to_string(), &"T2".to_string(), &opts);
    assert_eq!(s(out), "f.cast: Match found for y in frames [3,4] (2 frames): T1 .. T2\nxyz\n");
    let one = Span { start_frame: 4, ..span("y", vec![(0, 1)]) };
    let full = DisplayOptions { show_full_frame: true, color: true, ..opts };
    let out = display_match(&"f".to_string(), &"y".to_string(), &one, &"a".to_string(), &"b".to_string(), &full);
    assert_eq!(s(out), "f: Match found for y in frames [4,4] (1 frame): a .. b\n\x1b[31my\x1b[0m");
}

#[test]
fn color_policy() {
    assert!(use_color(ColorMode::Auto, true));
    assert!(!use_color(ColorMode::Auto, false));
    assert!(use_color(ColorMode::Always, false));
    assert!(!use_color(ColorMode::Never, true));
}

#[test]
fn stdin_marker_rules() {
    assert!(is_stdin_marker(&"-".to_string()));
    assert!(!is_stdin_marker(&"--".to_string()));
    let ok = vec!["a".to_string(), "-".to_string()];
    assert!(stdin_listed_at_most_once(&ok));
    let bad = vec!["-".to_string(), "b".to_string(), "-".to_string()];
    assert!(!stdin_listed_at_most_once(&bad));
}

#[test]
fn zstd_suffix() {
    assert!(is_zstd_name(&"x.cast.zst".to_string()));
    assert!(is_zstd_name(&".zst".to_string()));
    assert!(!is_zstd_name(&"x.zs".to_string()));
    assert!(!is_zstd_name(&"x.cast".to_string()));
}

#[test]
fn absolute_times() {
    assert_eq!(absolute_time(100, 2_500_000_000), Some((102, 500_000_000)));
    assert_eq!(absolute_time(0, 0), Some((0, 0)));
    assert_eq!(absolute_time(u64::MAX, 0), None);
    assert_eq!(absolute_time(i64::MAX as u64, 1_000_000_000), None);
    assert_eq!(absolute_time(i64::MAX as u64, 999_999_999), Some((i64::MAX, 999_999_999)));
}
