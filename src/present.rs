//! Rendering a span for the console: the whole frame, or only the lines
//! that hold a match, with the matches coloured on request.
use vstd::prelude::*;
use vstd::utf8::encode_utf8;
use crate::coalesce::{Range, Span, SpanView, span_wf};

verus! {

/// The escape sequence that starts a highlighted match.
pub open spec fn red() -> Seq<u8> {
    seq![0x1bu8, 0x5bu8, 0x33u8, 0x31u8, 0x6du8]
}

/// The escape sequence that ends a highlighted match.
pub open spec fn reset() -> Seq<u8> {
    seq![0x1bu8, 0x5bu8, 0x30u8, 0x6du8]
}

/// `s` when colouring is on, else nothing.
pub open spec fn if_color(color: bool, s: Seq<u8>) -> Seq<u8> {
    if color { s } else { Seq::empty() }
}

fn push_red(out: &mut Vec<u8>)
    ensures
        final(out)@ == old(out)@ + red(),
{
    out.push(0x1b);
    out.push(0x5b);
    out.push(0x33);
    out.push(0x31);
    out.push(0x6d);
    assert(final(out)@ =~= old(out)@ + red());
}

fn push_reset(out: &mut Vec<u8>)
    ensures
        final(out)@ == old(out)@ + reset(),
{
    out.push(0x1b);
    out.push(0x5b);
    out.push(0x30);
    out.push(0x6d);
    assert(final(out)@ =~= old(out)@ + reset());
}

/// Appends `bytes[from..to]`.
fn push_slice(out: &mut Vec<u8>, bytes: &[u8], from: usize, to: usize)
    requires
        from <= to <= bytes@.len(),
    ensures
        final(out)@ == old(out)@ + bytes@.subrange(from as int, to as int),
{
    let mut i: usize = from;
    while i < to
        invariant
            from <= i <= to,
            to <= bytes@.len(),
            out@ == old(out)@ + bytes@.subrange(from as int, i as int),
        decreases to - i,
    {
        out.push(bytes[i]);
        i = i + 1;
        assert(out@ =~= old(out)@ + bytes@.subrange(from as int, i as int));
    }
}

/// Appends the UTF-8 bytes of `s`.
fn push_str(out: &mut Vec<u8>, s: &str)
    ensures
        final(out)@ == old(out)@ + encode_utf8(s@),
{
    let b = s.as_bytes();
    push_slice(out, b, 0, b.len());
    assert(b@.subrange(0, b@.len() as int) =~= b@);
}

/// How colouring is chosen.
pub enum ColorMode {
    /// Colour only when standard output is a terminal.
    Auto,
    Always,
    Never,
}

/// Whether to colour the output.
pub fn use_color(mode: ColorMode, stdout_is_terminal: bool) -> (r: bool)
    ensures
        r == match mode {
            ColorMode::Auto => stdout_is_terminal,
            ColorMode::Always => true,
            ColorMode::Never => false,
        },
{
    match mode {
        ColorMode::Auto => stdout_is_terminal,
        ColorMode::Always => true,
        ColorMode::Never => false,
    }
}

/// The markers written before byte `i`: for each range in order, a start
/// marker where it starts and an end marker where it ends.
pub open spec fn marks_at(i: int, rs: Seq<Range>, color: bool) -> Seq<u8>
    decreases rs.len(),
{
    if rs.len() == 0 {
        Seq::empty()
    } else {
        let r = rs.last();
        marks_at(i, rs.drop_last(), color)
            + if_color(color && i == r.0, red())
            + if_color(color && i == r.1, reset())
    }
}

/// The text `text` with the markers of `marks_at` before each byte.
pub open spec fn marked_bytes(text: Seq<u8>, rs: Seq<Range>, color: bool) -> Seq<u8>
    decreases text.len(),
{
    if text.len() == 0 {
        Seq::empty()
    } else {
        marked_bytes(text.drop_last(), rs, color) + marks_at(text.len() - 1, rs, color) + seq![text.last()]
    }
}

/// The whole text highlighted: the markers of `marks_at` before each byte,
/// and those at the end of the text after its last byte, so that every
/// range gets its start marker at its start and its end marker at its end.
pub open spec fn full_frame(text: Seq<u8>, rs: Seq<Range>, color: bool) -> Seq<u8> {
    marked_bytes(text, rs, color) + marks_at(text.len() as int, rs, color)
}

/// Appends the markers that stand at byte position `i`.
fn push_marks(out: &mut Vec<u8>, i: usize, ranges: &Vec<Range>, color: bool)
    ensures
        final(out)@ == old(out)@ + marks_at(i as int, ranges@, color),
{
    let ghost before = out@;
    let mut j: usize = 0;
    while j < ranges.len()
        invariant
            j <= ranges@.len(),
            out@ == before + marks_at(i as int, ranges@.take(j as int), color),
        decreases ranges@.len() - j,
    {
        let (from, to) = ranges[j];
        let ghost mid = out@;
        if color && i == from {
            push_red(out);
        }
        let ghost mid2 = out@;
        if color && i == to {
            push_reset(out);
        }
        proof {
            let t = ranges@.take(j + 1);
            assert(t.drop_last() =~= ranges@.take(j as int));
            assert(t.last() == ranges@[j as int]);
            assert(mid2 == mid + if_color(color && i == from, red()));
            assert(out@ == mid2 + if_color(color && i == to, reset()));
            assert(out@ =~= before + marks_at(i as int, t, color));
        }
        j = j + 1;
    }
    assert(ranges@.take(ranges@.len() as int) =~= ranges@);
}

/// The span's whole text with its matches highlighted, as `full_frame`
/// states it over the text's UTF-8 bytes.
pub fn highlight_matches(span: &Span, color: bool) -> (r: Vec<u8>)
    ensures
        r@ == full_frame(encode_utf8(span.text@), span.ranges@, color),
{
    let bytes = span.text.as_str().as_bytes();
    let ghost text = encode_utf8(span.text@);
    let mut out: Vec<u8> = Vec::new();
    let mut i: usize = 0;
    while i < bytes.len()
        invariant
            bytes@ == text,
            i <= text.len(),
            out@ == marked_bytes(text.take(i as int), span.ranges@, color),
        decreases text.len() - i,
    {
        push_marks(&mut out, i, &span.ranges, color);
        out.push(bytes[i]);
        proof {
            let t = text.take(i + 1);
            assert(t.drop_last() =~= text.take(i as int));
            assert(t.last() == text[i as int]);
            assert(out@ =~= marked_bytes(t, span.ranges@, color));
        }
        i = i + 1;
    }
    assert(text.take(text.len() as int) =~= text);
    push_marks(&mut out, bytes.len(), &span.ranges, color);
    out
}

/// The decimal digits of `n`.
pub open spec fn decimal(n: nat) -> Seq<u8>
    decreases n,
{
    if n < 10 {
        seq![(0x30 + n) as u8]
    } else {
        decimal(n / 10).push((0x30 + n % 10) as u8)
    }
}

/// Spaces, `n` of them.
pub open spec fn spaces(n: int) -> Seq<u8> {
    Seq::new(if n > 0 { n as nat } else { 0 }, |i: int| 0x20u8)
}

/// A line number right-aligned in four columns, then a colon and a space.
pub open spec fn line_label(n: nat) -> Seq<u8> {
    spaces(4 - decimal(n).len()) + decimal(n) + seq![0x3au8, 0x20u8]
}

fn push_decimal(out: &mut Vec<u8>, n: usize)
    ensures
        final(out)@ == old(out)@ + decimal(n as nat),
    decreases n,
{
    if n >= 10 {
        push_decimal(out, n / 10);
    }
    out.push((0x30 + n % 10) as u8);
    assert(final(out)@ =~= old(out)@ + decimal(n as nat));
}

fn push_line_label(out: &mut Vec<u8>, n: usize)
    ensures
        final(out)@ == old(out)@ + line_label(n as nat),
{
    let mut digits: Vec<u8> = Vec::new();
    push_decimal(&mut digits, n);
    assert(digits@ =~= decimal(n as nat));
    let mut pad: usize = digits.len();
    let ghost start = out@;
    while pad < 4
        invariant
            digits@ == decimal(n as nat),
            digits@.len() <= pad <= 4 || (pad == digits@.len() && pad > 4),
            out@ == start + spaces(pad - digits@.len()),
        decreases 4 - pad,
    {
        out.push(0x20);
        pad = pad + 1;
        assert(out@ =~= start + spaces(pad - digits@.len()));
    }
    assert(out@ =~= start + spaces(4 - decimal(n as nat).len()));
    let ghost mid = out@;
    push_slice(out, digits.as_slice(), 0, digits.len());
    assert(digits@.subrange(0, digits@.len() as int) =~= digits@);
    out.push(0x3a);
    out.push(0x20);
    assert(out@ =~= start + line_label(n as nat));
}

/// Where the line that starts at `pos` ends: the next newline, or the end
/// of the text.
pub open spec fn line_end(text: Seq<u8>, pos: int) -> int
    decreases text.len() - pos,
{
    if pos >= text.len() {
        text.len() as int
    } else if text[pos] == 0x0a {
        pos
    } else {
        line_end(text, pos + 1)
    }
}

/// Whether a range touches the line `text[pos..end]`: it shares a byte
/// with it.
pub open spec fn intersects(r: Range, pos: int, end: int) -> bool {
    r.0 < end && r.1 > pos
}

/// The larger of two positions.
pub open spec fn max_pos(a: int, b: int) -> int {
    if a >= b { a } else { b }
}

/// The smaller of two positions.
pub open spec fn min_pos(a: int, b: int) -> int {
    if a <= b { a } else { b }
}

/// The highlighted part of the line `text[pos..end]` before its tail, where
/// its tail begins, and whether any range touches the line: each range that
/// touches it, clipped to the line, adds the text since the last such range,
/// then its part of the line between markers.
pub open spec fn line_marked(text: Seq<u8>, pos: int, end: int, rs: Seq<Range>, color: bool) -> (Seq<u8>, int, bool)
    decreases rs.len(),
{
    if rs.len() == 0 {
        (Seq::empty(), pos, false)
    } else {
        let (body, at, hit) = line_marked(text, pos, end, rs.drop_last(), color);
        let r = rs.last();
        if intersects(r, pos, end) {
            let a = max_pos(r.0 as int, pos);
            let b = min_pos(r.1 as int, end);
            (body + text.subrange(at, a) + if_color(color, red()) + text.subrange(a, b)
                + if_color(color, reset()), b, true)
        } else {
            (body, at, hit)
        }
    }
}

/// What the line `text[pos..end]`, numbered `number`, shows: nothing when no
/// range touches it, else its number when numbers are shown, the whole line
/// with the parts of the ranges in it highlighted, and a newline.
pub open spec fn line_out(text: Seq<u8>, pos: int, end: int, rs: Seq<Range>, color: bool, number: nat, numbers: bool) -> Seq<u8> {
    let (body, at, hit) = line_marked(text, pos, end, rs, color);
    if !hit {
        Seq::empty()
    } else {
        (if numbers { line_label(number) } else { Seq::empty() }) + body + text.subrange(at, end) + seq![0x0au8]
    }
}

/// What the lines from byte `pos` on show, the first of them numbered
/// `number`.
pub open spec fn lines_from(text: Seq<u8>, pos: int, number: nat, rs: Seq<Range>, color: bool, numbers: bool) -> Seq<u8>
    decreases text.len() - pos,
{
    if pos < 0 || pos >= text.len() {
        Seq::empty()
    } else {
        let end = line_end(text, pos);
        if end < pos {
            Seq::empty()
        } else if end + 1 >= text.len() {
            line_out(text, pos, end, rs, color, number, numbers)
        } else {
            line_out(text, pos, end, rs, color, number, numbers)
                + lines_from(text, end + 1, number + 1, rs, color, numbers)
        }
    }
}

proof fn lemma_line_end(text: Seq<u8>, pos: int)
    requires
        0 <= pos <= text.len(),
    ensures
        pos <= line_end(text, pos) <= text.len(),
        line_end(text, pos) < text.len() ==> text[line_end(text, pos)] == 0x0a,
        forall|k: int| pos <= k < line_end(text, pos) ==> text[k] != 0x0a,
    decreases text.len() - pos,
{
    if pos < text.len() && text[pos] != 0x0a {
        lemma_line_end(text, pos + 1);
    }
}

fn find_line_end(bytes: &[u8], pos: usize) -> (r: usize)
    requires
        pos <= bytes@.len(),
    ensures
        r == line_end(bytes@, pos as int),
{
    let mut k: usize = pos;
    while k < bytes.len() && bytes[k] != 0x0a
        invariant
            pos <= k <= bytes@.len(),
            line_end(bytes@, pos as int) == line_end(bytes@, k as int),
        decreases bytes@.len() - k,
    {
        k = k + 1;
    }
    k
}

/// Appends what the line `bytes[pos..end]` shows, as `line_out` states it.
fn push_line(out: &mut Vec<u8>, bytes: &[u8], pos: usize, end: usize, ranges: &Vec<Range>, color: bool, number: usize, numbers: bool)
    requires
        pos <= end <= bytes@.len(),
        forall|i: int| 0 <= i < ranges@.len() ==> (#[trigger] ranges@[i]).0 <= ranges@[i].1,
        forall|i: int, j: int| 0 <= i < j < ranges@.len() ==> #[trigger] ranges@[i].1 <= #[trigger] ranges@[j].0,
    ensures
        final(out)@ == old(out)@ + line_out(bytes@, pos as int, end as int, ranges@, color, number as nat, numbers),
{
    let mut body: Vec<u8> = Vec::new();
    let mut at: usize = pos;
    let mut hit = false;
    let mut j: usize = 0;
    while j < ranges.len()
        invariant
            pos <= at <= end,
            end <= bytes@.len(),
            j <= ranges@.len(),
            forall|i: int| 0 <= i < ranges@.len() ==> (#[trigger] ranges@[i]).0 <= ranges@[i].1,
            forall|i: int, k: int| 0 <= i < k < ranges@.len() ==> #[trigger] ranges@[i].1 <= #[trigger] ranges@[k].0,
            forall|k: int| j <= k < ranges@.len() ==> at <= (#[trigger] ranges@[k]).0 || at == pos,
            (body@, at as int, hit) == line_marked(bytes@, pos as int, end as int, ranges@.take(j as int), color),
        decreases ranges@.len() - j,
    {
        let (from, to) = ranges[j];
        let ghost old_body = body@;
        let ghost old_at = at;
        if from < end && to > pos {
            let a = if from >= pos { from } else { pos };
            let b = if to <= end { to } else { end };
            push_slice(&mut body, bytes, at, a);
            if color {
                push_red(&mut body);
            }
            push_slice(&mut body, bytes, a, b);
            if color {
                push_reset(&mut body);
            }
            at = b;
            hit = true;
            proof {
                assert forall|k: int| j + 1 <= k < ranges@.len() implies at <= (#[trigger] ranges@[k]).0 || at == pos by {
                    assert(ranges@[j as int].1 <= ranges@[k].0);
                }
                assert(body@ =~= old_body + bytes@.subrange(old_at as int, a as int) + if_color(color, red())
                    + bytes@.subrange(a as int, b as int) + if_color(color, reset()));
            }
        }
        proof {
            let t = ranges@.take(j + 1);
            assert(t.drop_last() =~= ranges@.take(j as int));
            assert(t.last() == ranges@[j as int]);
        }
        j = j + 1;
    }
    assert(ranges@.take(ranges@.len() as int) =~= ranges@);
    if hit {
        let ghost start = out@;
        if numbers {
            push_line_label(out, number);
        }
        push_slice(out, body.as_slice(), 0, body.len());
        assert(body@.subrange(0, body@.len() as int) =~= body@);
        push_slice(out, bytes, at, end);
        out.push(0x0a);
        assert(out@ =~= start + (if numbers { line_label(number as nat) } else { Seq::empty() }) + body@
            + bytes@.subrange(at as int, end as int) + seq![0x0au8]);
    }
}

/// The lines of the span's text that a match touches, each with the parts
/// of the matches in it highlighted and, on request, its number from one;
/// lines are split on newlines, and a newline at the very end starts no line.
pub fn highlight_matchlines(span: &Span, color: bool, numbers: bool) -> (r: Vec<u8>)
    requires
        span_wf(span@),
    ensures
        r@ == lines_from(encode_utf8(span.text@), 0, 1, span.ranges@, color, numbers),
{
    let bytes = span.text.as_str().as_bytes();
    let ghost text = encode_utf8(span.text@);
    let mut out: Vec<u8> = Vec::new();
    let mut pos: usize = 0;
    let mut number: usize = 1;
    while pos < bytes.len()
        invariant
            bytes@ == text,
            pos <= text.len(),
            1 <= number <= pos + 1,
            span_wf(span@),
            pos == text.len() ==> out@ == lines_from(text, 0, 1, span.ranges@, color, numbers),
            out@ + lines_from(text, pos as int, number as nat, span.ranges@, color, numbers)
                == lines_from(text, 0, 1, span.ranges@, color, numbers),
        decreases text.len() - pos,
    {
        let end = find_line_end(bytes, pos);
        proof {
            lemma_line_end(text, pos as int);
            assert forall|i: int| 0 <= i < span.ranges@.len() implies (#[trigger] span.ranges@[i]).0 <= span.ranges@[i].1 by {
                assert(crate::coalesce::range_in(span.ranges@[i], span.text@));
            }
        }
        let ghost before = out@;
        push_line(&mut out, bytes, pos, end, &span.ranges, color, number, numbers);
        proof {
            let lo = line_out(text, pos as int, end as int, span.ranges@, color, number as nat, numbers);
            if end + 1 < text.len() {
                let rest = lines_from(text, end + 1, (number + 1) as nat, span.ranges@, color, numbers);
                assert(lines_from(text, pos as int, number as nat, span.ranges@, color, numbers) == lo + rest);
                assert(before + (lo + rest) =~= (before + lo) + rest);
            } else {
                assert(lines_from(text, pos as int, number as nat, span.ranges@, color, numbers) == lo);
                assert(before + lo + Seq::<u8>::empty() =~= before + lo);
            }
        }
        if end < bytes.len() - 1 {
            pos = end + 1;
            number = number + 1;
        } else {
            pos = bytes.len();
            proof {
                assert(lines_from(text, pos as int, number as nat, span.ranges@, color, numbers) =~= Seq::<u8>::empty());
            }
        }
    }
    proof {
        if text.len() == 0 {
            assert(out@ + Seq::<u8>::empty() =~= out@);
        }
    }
    out
}

/// How a span is shown.
pub struct DisplayOptions {
    /// Name the file only.
    pub list_only: bool,
    /// Show the whole frame rather than the matching lines.
    pub show_full_frame: bool,
    /// Number the matching lines.
    pub show_line_numbers: bool,
    /// Colour the matches.
    pub color: bool,
}

/// The heading of a reported span: the file, the pattern, the frames and
/// their count, and the times at which the span starts and ends.
pub open spec fn heading(file: Seq<char>, pattern: Seq<char>, s: SpanView, start: Seq<char>, end: Seq<char>) -> Seq<u8> {
    let n = s.end_frame - s.start_frame + 1;
    encode_utf8(file) + encode_utf8(": Match found for "@) + encode_utf8(pattern) + encode_utf8(" in frames ["@)
        + decimal(s.start_frame as nat) + encode_utf8(","@) + decimal(s.end_frame as nat) + encode_utf8("] ("@)
        + decimal(n as nat) + encode_utf8(" frame"@) + (if n == 1 { Seq::empty() } else { encode_utf8("s"@) })
        + encode_utf8("): "@) + encode_utf8(start) + encode_utf8(" .. "@) + encode_utf8(end) + seq![0x0au8]
}

/// What is shown for a span: in list-only mode the file name and a newline;
/// else the heading, then the whole highlighted frame or its matching lines.
pub open spec fn shown(file: Seq<char>, pattern: Seq<char>, s: SpanView, start: Seq<char>, end: Seq<char>, opts: DisplayOptions) -> Seq<u8> {
    if opts.list_only {
        encode_utf8(file) + seq![0x0au8]
    } else {
        heading(file, pattern, s, start, end) + if opts.show_full_frame {
            full_frame(encode_utf8(s.text), s.ranges, opts.color)
        } else {
            lines_from(encode_utf8(s.text), 0, 1, s.ranges, opts.color, opts.show_line_numbers)
        }
    }
}

/// The output for one reported span in file `file`, searched for `pattern`;
/// `start_stamp` and `end_stamp` are the span's rendered start and end times.
pub fn display_match(file: &String, pattern: &String, span: &Span, start_stamp: &String, end_stamp: &String, opts: &DisplayOptions) -> (r: Vec<u8>)
    requires
        !opts.list_only ==> span_wf(span@) && span.end_frame < usize::MAX,
    ensures
        r@ == shown(file@, pattern@, span@, start_stamp@, end_stamp@, *opts),
{
    let mut out: Vec<u8> = Vec::new();
    if opts.list_only {
        push_str(&mut out, file.as_str());
        out.push(0x0a);
        assert(out@ =~= encode_utf8(file@) + seq![0x0au8]);
        return out;
    }
    let n = span.frame_count();
    push_str(&mut out, file.as_str());
    push_str(&mut out, ": Match found for ");
    push_str(&mut out, pattern.as_str());
    push_str(&mut out, " in frames [");
    push_decimal(&mut out, span.start_frame);
    push_str(&mut out, ",");
    push_decimal(&mut out, span.end_frame);
    push_str(&mut out, "] (");
    push_decimal(&mut out, n);
    push_str(&mut out, " frame");
    let ghost mid = out@;
    if n != 1 {
        push_str(&mut out, "s");
    }
    assert(out@ == mid + (if n == 1 { Seq::empty() } else { encode_utf8("s"@) }));
    push_str(&mut out, "): ");
    push_str(&mut out, start_stamp.as_str());
    push_str(&mut out, " .. ");
    push_str(&mut out, end_stamp.as_str());
    out.push(0x0a);
    assert(out@ =~= heading(file@, pattern@, span@, start_stamp@, end_stamp@));
    let body = if opts.show_full_frame {
        highlight_matches(span, opts.color)
    } else {
        highlight_matchlines(span, opts.color, opts.show_line_numbers)
    };
    let ghost head = out@;
    let mut i: usize = 0;
    while i < body.len()
        invariant
            i <= body@.len(),
            out@ == head + body@.take(i as int),
        decreases body@.len() - i,
    {
        out.push(body[i]);
        i = i + 1;
        assert(out@ =~= head + body@.take(i as int));
    }
    assert(body@.take(body@.len() as int) =~= body@);
    out
}

} // verus!
