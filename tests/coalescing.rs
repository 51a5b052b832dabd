use asciinema_grep::coalesce::{match_limit, Coalescer, Span};
use asciinema_grep::frame::FrameReconstructor;
use asciinema_grep::present::{display_match, DisplayOptions};

fn ranges_of(text: &str, pat: &str) -> Vec<(usize, usize)> {
    text.match_indices(pat).map(|(i, m)| (i, i + m.len())).collect()
}

fn push_all(c: &mut Coalescer, frame: usize, time: u64, text: &str, pat: &str) -> Vec<Span> {
    let owned = text.to_string();
    let mut out = Vec::new();
    for (from, to) in ranges_of(text, pat) {
        if let Some(s) = c.push(frame, time, &owned, from, to) {
            out.push(s);
        }
    }
    out
}

#[test]
fn scenario_single_output_event() {
    let mut rec = FrameReconstructor::new(false);
    let frame = rec.feed(0, &"hello".to_string()).expect("a frame");
    assert_eq!(frame.index, 0);
    assert_eq!(frame.text, "hello");
    let mut c = Coalescer::new(usize::MAX);
    assert!(push_all(&mut c, frame.index, frame.time, &frame.text, "ell").is_empty());
    let span = c.finish().expect("one span");
    assert_eq!(span.start_frame, 0);
    assert_eq!(span.end_frame, 0);
    assert_eq!(span.ranges, vec![(1, 4)]);
}

#[test]
fn scenario_consecutive_frames_merge() {
    let mut c = Coalescer::new(usize::MAX);
    assert!(push_all(&mut c, 0, 10, "foo", "foo").is_empty());
    assert!(push_all(&mut c, 1, 20, "a foo", "foo").is_empty());
    let span = c.finish().expect("one span");
    assert_eq!(span.start_frame, 0);
    assert_eq!(span.end_frame, 1);
    assert_eq!(span.start_time, 10);
    assert_eq!(span.end_time, 20);
    assert_eq!(span.text, "a foo");
    assert_eq!(span.ranges, vec![(2, 5)]);
}

#[test]
fn scenario_gap_gives_two_spans() {
    let mut c = Coalescer::new(usize::MAX);
    assert!(push_all(&mut c, 0, 0, "foo", "foo").is_empty());
    // frame 1 holds no match
    let flushed = push_all(&mut c, 2, 5, "xx bar", "bar");
    assert_eq!(flushed.len(), 1);
    assert_eq!(flushed[0].start_frame, 0);
    assert_eq!(flushed[0].end_frame, 0);
    assert_eq!(flushed[0].text, "foo");
    let last = c.finish().expect("second span");
    assert_eq!(last.start_frame, 2);
    assert_eq!(last.end_frame, 2);
    assert_eq!(last.ranges, vec![(3, 6)]);
}

#[test]
fn scenario_two_matches_in_one_frame() {
    let mut c = Coalescer::new(usize::MAX);
    assert!(push_all(&mut c, 0, 0, "ab ab", "ab").is_empty());
    let span = c.finish().expect("one span");
    assert_eq!(span.ranges, vec![(0, 2), (3, 5)]);
    assert_eq!(span.start_frame, span.end_frame);
}

#[test]
fn scenario_list_only_names_file_once() {
    let limit = match_limit(true, None);
    assert_eq!(limit, 1);
    let mut c = Coalescer::new(limit);
    let opts = DisplayOptions { list_only: true, show_full_frame: false, show_line_numbers: false, color: false };
    let mut out: Vec<u8> = Vec::new();
    let file = "rec.cast".to_string();
    let pat = "x".to_string();
    let stamp = String::new();
    for (frame, text) in [(0usize, "x x"), (1, "x"), (5, "x")] {
        if c.stopped {
            break;
        }
        for s in push_all(&mut c, frame, 0, text, "x") {
            out.extend(display_match(&file, &pat, &s, &stamp, &stamp, &opts));
        }
    }
    assert!(c.stopped);
    assert_eq!(c.count, 1);
    if let Some(s) = c.finish() {
        assert_eq!(s.end_frame, 0);
        assert_eq!(s.ranges, vec![(0, 1)]);
        out.extend(display_match(&file, &pat, &s, &stamp, &stamp, &opts));
    }
    assert_eq!(String::from_utf8(out).unwrap(), "rec.cast\n");
}

#[test]
fn extension_replaces_ranges_and_text() {
    let mut c = Coalescer::new(usize::MAX);
    push_all(&mut c, 3, 0, "foo foo", "foo");
    push_all(&mut c, 4, 1, "  foo", "foo");
    let span = c.finish().unwrap();
    assert_eq!(span.start_frame, 3);
    assert_eq!(span.end_frame, 4);
    assert_eq!(span.text, "  foo");
    assert_eq!(span.ranges, vec![(2, 5)]);
}

#[test]
fn spans_come_in_frame_order() {
    let mut c = Coalescer::new(usize::MAX);
    let mut spans = Vec::new();
    for (frame, text) in [(0usize, "aa"), (1, "aa"), (4, "a"), (7, "a"), (8, "a")] {
        spans.extend(push_all(&mut c, frame, frame as u64, text, "a"));
    }
    spans.extend(c.finish());
    let bounds: Vec<(usize, usize)> = spans.iter().map(|s| (s.start_frame, s.end_frame)).collect();
    assert_eq!(bounds, vec![(0, 1), (4, 4), (7, 8)]);
    for s in &spans {
        assert!(s.start_frame <= s.end_frame);
        for w in s.ranges.windows(2) {
            assert!(w[0].1 <= w[1].0);
        }
        for r in &s.ranges {
            assert!(r.0 <= r.1 && r.1 <= s.text.len());
        }
    }
}

#[test]
fn replay_gives_same_spans() {
    let run = || {
        let mut c = Coalescer::new(usize::MAX);
        let mut spans = Vec::new();
        for (frame, text) in [(0usize, "ab"), (1, "b"), (3, "abab")] {
            spans.extend(push_all(&mut c, frame, 7, text, "b"));
        }
        spans.extend(c.finish());
        spans.into_iter().map(|s| (s.start_frame, s.end_frame, s.text, s.ranges)).collect::<Vec<_>>()
    };
    let first = run();
    assert_eq!(first, run());
    assert_eq!(first.len(), 2);
}

#[test]
fn limit_zero_takes_nothing() {
    let mut c = Coalescer::new(0);
    assert!(c.stopped);
    assert!(push_all(&mut c, 0, 0, "a", "a").is_empty());
    assert_eq!(c.count, 0);
    assert!(c.finish().is_none());
}

#[test]
fn limit_counts_matches() {
    let mut c = Coalescer::new(3);
    push_all(&mut c, 0, 0, "aaaa", "a");
    assert!(c.stopped);
    assert_eq!(c.count, 3);
    let s = c.finish().unwrap();
    assert_eq!(s.ranges, vec![(0, 1), (1, 2), (2, 3)]);
}

#[test]
fn match_limit_choices() {
    assert_eq!(match_limit(false, None), usize::MAX);
    assert_eq!(match_limit(false, Some(5)), 5);
    assert_eq!(match_limit(true, Some(5)), 1);
}

#[test]
fn frame_count_of_span() {
    let s = Span::opened(2, 0, &"x".to_string(), 0, 1);
    assert_eq!(s.frame_count(), 1);
    let t = Span { end_frame: 6, ..s };
    assert_eq!(t.frame_count(), 5);
}

#[test]
fn accepts_only_matches_in_order() {
    let mut c = Coalescer::new(usize::MAX);
    let t = "ab ab".to_string();
    assert!(c.accepts(0, 0, &t, 0, 2));
    assert!(!c.accepts(0, 0, &t, 4, 6));
    assert!(!c.accepts(0, 0, &t, 3, 2));
    c.push(0, 0, &t, 0, 2);
    assert!(c.accepts(0, 0, &t, 3, 5));
    assert!(!c.accepts(0, 0, &t, 0, 2));
    assert!(!c.accepts(0, 1, &t, 3, 5));
    assert!(!c.accepts(0, 0, &"xx ab".to_string(), 3, 5));
    assert!(c.accepts(1, 9, &"q".to_string(), 0, 1));
}
