//! Turning the emulated screen into frames: when a frame is taken, and how
//! the visible rows are flattened into text.
use vstd::prelude::*;

verus! {

/// The code points with the Unicode `White_Space` property.
pub open spec fn white_space(c: char) -> bool {
    let v = c as u32;
    ||| (0x09 <= v && v <= 0x0d)
    ||| v == 0x20
    ||| v == 0x85
    ||| v == 0xa0
    ||| v == 0x1680
    ||| (0x2000 <= v && v <= 0x200a)
    ||| v == 0x2028
    ||| v == 0x2029
    ||| v == 0x202f
    ||| v == 0x205f
    ||| v == 0x3000
}

/// Whether `c` is a white-space character, as `white_space` states.
pub fn is_white_space(c: char) -> (r: bool)
    ensures
        r == white_space(c),
{
    let v = c as u32;
    (0x09 <= v && v <= 0x0d) || v == 0x20 || v == 0x85 || v == 0xa0 || v == 0x1680
        || (0x2000 <= v && v <= 0x200a) || v == 0x2028 || v == 0x2029 || v == 0x202f
        || v == 0x205f || v == 0x3000
}

/// Relies on collecting `char`s into a `String`: the string holds them in order.
#[verifier::external_body]
pub(crate) fn string_from_chars(v: &Vec<char>) -> (r: String)
    ensures
        r@ == v@,
{
    v.iter().collect()
}

/// The characters of the string in order.
pub(crate) fn chars_of(s: &String) -> (r: Vec<char>)
    ensures
        r@ == s@,
{
    let mut out: Vec<char> = Vec::new();
    let st = s.as_str();
    proof {
        vstd::string::axiom_spec_iter(st);
    }
    for c in it: st.chars()
        invariant
            out@ == it.seq().take(it.index()),
            it.seq() == st@,
    {
        out.push(c);
        assert(out@ =~= it.seq().take(it.index() + 1));
    }
    assert(out@ =~= st@);
    out
}

/// A row without its trailing white space.
pub open spec fn trim_end(row: Seq<char>) -> Seq<char>
    decreases row.len(),
{
    if row.len() > 0 && white_space(row.last()) {
        trim_end(row.drop_last())
    } else {
        row
    }
}

/// The text of a screen: each row right-trimmed, the rows that trim to
/// nothing left out, and the others joined by single newlines.
pub open spec fn flatten(rows: Seq<Seq<char>>) -> Seq<char>
    decreases rows.len(),
{
    if rows.len() == 0 {
        Seq::empty()
    } else {
        let before = flatten(rows.drop_last());
        let row = trim_end(rows.last());
        if row.len() == 0 {
            before
        } else if before.len() == 0 {
            row
        } else {
            before + seq!['\n'] + row
        }
    }
}

/// The rows of a screen as sequences of characters.
pub open spec fn rows_view(rows: Seq<Vec<char>>) -> Seq<Seq<char>> {
    rows.map_values(|r: Vec<char>| r@)
}

/// Lines joined by single newlines.
pub open spec fn join_lines(ls: Seq<Seq<char>>) -> Seq<char>
    decreases ls.len(),
{
    if ls.len() == 0 {
        Seq::empty()
    } else if ls.len() == 1 {
        ls[0]
    } else {
        join_lines(ls.drop_last()) + seq!['\n'] + ls.last()
    }
}

/// Each row without its trailing white space.
pub open spec fn trimmed_rows(rows: Seq<Seq<char>>) -> Seq<Seq<char>> {
    rows.map_values(|r: Seq<char>| trim_end(r))
}

/// The rows that are not empty.
pub open spec fn nonempty_rows(rows: Seq<Seq<char>>) -> Seq<Seq<char>> {
    rows.filter(|r: Seq<char>| r.len() > 0)
}

proof fn lemma_nonempty_rows(rows: Seq<Seq<char>>)
    ensures
        forall|i: int| 0 <= i < nonempty_rows(rows).len() ==> (#[trigger] nonempty_rows(rows)[i]).len() > 0,
        nonempty_rows(rows) == (if rows.len() == 0 { rows } else if rows.last().len() > 0 {
            nonempty_rows(rows.drop_last()).push(rows.last())
        } else {
            nonempty_rows(rows.drop_last())
        }),
    decreases rows.len(),
{
    reveal(Seq::filter);
    if rows.len() > 0 {
        lemma_nonempty_rows(rows.drop_last());
        let k = nonempty_rows(rows.drop_last());
        if rows.last().len() > 0 {
            assert forall|i: int| 0 <= i < k.push(rows.last()).len() implies (#[trigger] k.push(rows.last())[i]).len() > 0 by {
                if i < k.len() {
                    assert(k.push(rows.last())[i] == k[i]);
                }
            }
        }
    }
}

proof fn lemma_join_nonempty(ls: Seq<Seq<char>>)
    requires
        forall|i: int| 0 <= i < ls.len() ==> (#[trigger] ls[i]).len() > 0,
    ensures
        join_lines(ls).len() == 0 <==> ls.len() == 0,
{
    if ls.len() > 1 {
        assert(ls.last().len() > 0);
    } else if ls.len() == 1 {
        assert(ls[0].len() > 0);
    }
}

/// The flattening rule, stated as a pipeline: trim each row, keep the rows
/// that are not empty, and join them with single newlines.
pub proof fn lemma_flatten_is_trim_filter_join(rows: Seq<Seq<char>>)
    ensures
        flatten(rows) == join_lines(nonempty_rows(trimmed_rows(rows))),
    decreases rows.len(),
{
    if rows.len() > 0 {
        let prefix = rows.drop_last();
        lemma_flatten_is_trim_filter_join(prefix);
        let m = trimmed_rows(rows);
        assert(m.drop_last() =~= trimmed_rows(prefix));
        assert(m.last() == trim_end(rows.last()));
        lemma_nonempty_rows(m);
        lemma_nonempty_rows(m.drop_last());
        let k = nonempty_rows(m.drop_last());
        lemma_join_nonempty(k);
        if m.last().len() > 0 {
            let k2 = k.push(m.last());
            assert(k2.drop_last() =~= k);
        }
    }
}

/// Two screens with the same rows give the same text.
pub proof fn lemma_flatten_same_rows(a: Seq<Seq<char>>, b: Seq<Seq<char>>)
    requires
        a == b,
    ensures
        flatten(a) == flatten(b),
{
}

proof fn lemma_trim_prefix(row: Seq<char>, k: int)
    requires
        0 <= k <= row.len(),
        forall|j: int| k <= j < row.len() ==> white_space(#[trigger] row[j]),
    ensures
        trim_end(row) == trim_end(row.subrange(0, k)),
    decreases row.len() - k,
{
    if k < row.len() {
        assert(row.drop_last() =~= row.subrange(0, row.len() - 1));
        lemma_trim_prefix(row.drop_last(), k);
        assert(row.drop_last().subrange(0, k) =~= row.subrange(0, k));
    } else {
        assert(row.subrange(0, k) =~= row);
    }
}

/// The length of a row without its trailing white space.
pub fn trimmed_len(row: &Vec<char>) -> (k: usize)
    ensures
        k <= row@.len(),
        row@.subrange(0, k as int) == trim_end(row@),
{
    let mut k: usize = row.len();
    while k > 0 && is_white_space(row[k - 1])
        invariant
            k <= row@.len(),
            forall|j: int| k <= j < row@.len() ==> white_space(#[trigger] row@[j]),
        decreases k,
    {
        k = k - 1;
    }
    proof {
        lemma_trim_prefix(row@, k as int);
        let p = row@.subrange(0, k as int);
        if k > 0 {
            assert(p.last() == row@[k - 1]);
        }
    }
    k
}

/// The text of a screen given by its rows, as `flatten` states it.
pub fn flatten_rows(rows: &Vec<Vec<char>>) -> (r: Vec<char>)
    ensures
        r@ == flatten(rows_view(rows@)),
{
    let mut out: Vec<char> = Vec::new();
    let mut i: usize = 0;
    while i < rows.len()
        invariant
            i <= rows@.len(),
            out@ == flatten(rows_view(rows@).take(i as int)),
        decreases rows@.len() - i,
    {
        let row = &rows[i];
        let k = trimmed_len(row);
        let ghost before = out@;
        if k > 0 {
            if out.len() > 0 {
                out.push('\n');
            }
            let mut j: usize = 0;
            let ghost start = out@;
            while j < k
                invariant
                    j <= k,
                    k <= row@.len(),
                    out@ == start + row@.subrange(0, j as int),
                decreases k - j,
            {
                out.push(row[j]);
                j = j + 1;
                assert(out@ =~= start + row@.subrange(0, j as int));
            }
        }
        proof {
            let t = rows_view(rows@).take(i + 1);
            assert(t.drop_last() =~= rows_view(rows@).take(i as int));
            assert(t.last() == rows@[i as int]@);
            if k > 0 && before.len() > 0 {
                assert(out@ =~= before + seq!['\n'] + trim_end(rows@[i as int]@));
            } else {
                assert(out@ =~= before + trim_end(rows@[i as int]@));
            }
        }
        i = i + 1;
    }
    assert(rows_view(rows@).take(rows@.len() as int) =~= rows_view(rows@));
    out
}

/// A recorded keystroke payload with each carriage return followed by a line
/// feed, as a terminal's local echo would have shown it.
pub open spec fn expand_returns(s: Seq<char>) -> Seq<char>
    decreases s.len(),
{
    if s.len() == 0 {
        Seq::empty()
    } else {
        let rest = expand_returns(s.drop_last());
        if s.last() == '\r' {
            rest + seq!['\r', '\n']
        } else {
            rest.push(s.last())
        }
    }
}

/// Rewrites each carriage return of `data` as carriage return and line feed.
pub fn expand_carriage_returns(data: &String) -> (r: String)
    ensures
        r@ == expand_returns(data@),
{
    let cs = chars_of(data);
    let mut out: Vec<char> = Vec::new();
    let mut i: usize = 0;
    while i < cs.len()
        invariant
            i <= cs@.len(),
            cs@ == data@,
            out@ == expand_returns(cs@.take(i as int)),
        decreases cs@.len() - i,
    {
        let c = cs[i];
        let ghost before = out@;
        out.push(c);
        if c == '\r' {
            out.push('\n');
        }
        proof {
            let t = cs@.take(i + 1);
            assert(t.drop_last() =~= cs@.take(i as int));
            assert(t.last() == c);
            if c == '\r' {
                assert(out@ =~= before + seq!['\r', '\n']);
            }
        }
        i = i + 1;
    }
    assert(cs@.take(cs@.len() as int) =~= cs@);
    string_from_chars(&out)
}

/// Whether the screen has changed enough to take a new frame: some row
/// changed, or the cursor moved (or appeared or disappeared).
pub fn should_emit(changed_rows: usize, prev_cursor: Option<(usize, usize)>, cursor: Option<(usize, usize)>) -> (r: bool)
    ensures
        r == (changed_rows > 0 || cursor != prev_cursor),
{
    if changed_rows > 0 {
        return true;
    }
    match (prev_cursor, cursor) {
        (None, None) => false,
        (Some(p), Some(c)) => !(p.0 == c.0 && p.1 == c.1),
        _ => true,
    }
}

#[verifier::external_type_specification]
#[verifier::external_body]
pub struct ExVt(avt::Vt);

/// The characters of the cells of each visible row of a `cols` by `rows`
/// emulated terminal, fresh, after it was fed the texts of `fed` in order.
pub uninterp spec fn rows_after(cols: usize, rows: usize, fed: Seq<Seq<char>>) -> Seq<Seq<char>>;

/// The cursor's column and row, while it is visible, of a `cols` by `rows`
/// emulated terminal, fresh, after it was fed the texts of `fed` in order.
pub uninterp spec fn cursor_after(cols: usize, rows: usize, fed: Seq<Seq<char>>) -> Option<(usize, usize)>;

/// Whether a `cols` by `rows` emulated terminal, fresh, fed the texts of
/// `fed` in order, reported changed rows when it was fed the last of them.
pub uninterp spec fn rows_changed_by_last(cols: usize, rows: usize, fed: Seq<Seq<char>>) -> bool;

/// An emulated terminal, with its size and the texts it has been fed.
pub struct Screen {
    vt: avt::Vt,
    cols: usize,
    rows: usize,
    fed: Ghost<Seq<Seq<char>>>,
}

impl Screen {
    /// The texts the terminal has been fed, in order.
    pub closed spec fn fed(&self) -> Seq<Seq<char>> {
        self.fed@
    }

    /// The terminal's width in columns.
    pub closed spec fn cols(&self) -> usize {
        self.cols
    }

    /// The terminal's height in rows.
    pub closed spec fn rows(&self) -> usize {
        self.rows
    }
}

/// Relies on `avt::Vt::new`: a fresh emulated terminal of `cols` columns and
/// `rows` rows; avt takes one from the row count, so both must be positive.
#[verifier::external_body]
fn screen_new(cols: usize, rows: usize) -> (r: Screen)
    requires
        cols > 0,
        rows > 0,
    ensures
        r.cols() == cols,
        r.rows() == rows,
        r.fed() == Seq::<Seq<char>>::empty(),
{
    Screen { vt: avt::Vt::new(cols, rows), cols, rows, fed: Ghost(Seq::empty()) }
}

/// Relies on `avt::Vt::feed_str`: feeds the text to the emulator and returns
/// how many rows it reports as changed by it.
#[verifier::external_body]
fn screen_feed(sc: &mut Screen, s: &String) -> (r: usize)
    ensures
        final(sc).cols() == old(sc).cols(),
        final(sc).rows() == old(sc).rows(),
        final(sc).fed() == old(sc).fed().push(s@),
        (r > 0) == rows_changed_by_last(old(sc).cols(), old(sc).rows(), old(sc).fed().push(s@)),
{
    sc.vt.feed_str(s.as_str()).lines.len()
}

/// Relies on `avt::Vt::cursor`, converted by avt's own `From`: the cursor's
/// column and row while it is visible.
#[verifier::external_body]
fn screen_cursor(sc: &Screen) -> (r: Option<(usize, usize)>)
    ensures
        r == cursor_after(sc.cols(), sc.rows(), sc.fed()),
{
    sc.vt.cursor().into()
}

/// Relies on `avt::Vt::view`: the characters of the cells of each visible row.
#[verifier::external_body]
fn screen_rows(sc: &Screen) -> (r: Vec<Vec<char>>)
    ensures
        rows_view(r@) == rows_after(sc.cols(), sc.rows(), sc.fed()),
{
    sc.vt.view().map(|line| line.cells().iter().map(|cell| cell.char()).collect()).collect()
}

/// Columns of the emulated screen: wider than any real terminal.
pub const SCREEN_COLS: usize = 1000;

/// Rows of the emulated screen.
pub const SCREEN_ROWS: usize = 100;

/// A snapshot of the visible screen.
pub struct Frame {
    /// The frame's number, counted from zero.
    pub index: usize,
    /// When the event that produced the frame was recorded.
    pub time: u64,
    /// The flattened screen text.
    pub text: String,
    /// The cursor's column and row, while it is visible.
    pub cursor: Option<(usize, usize)>,
}

/// What the emulator is fed for an event's payload: keystrokes with their
/// carriage returns expanded, output as it is.
pub open spec fn fed_text(data: Seq<char>, input_channel: bool) -> Seq<char> {
    if input_channel { expand_returns(data) } else { data }
}

/// Whether the event that brought the screen fed `fed` takes a frame, the
/// cursor having stood at `prev_cursor` before: a row changed, or the cursor
/// moved.
pub open spec fn takes_frame(fed: Seq<Seq<char>>, prev_cursor: Option<(usize, usize)>) -> bool {
    rows_changed_by_last(SCREEN_COLS, SCREEN_ROWS, fed)
        || cursor_after(SCREEN_COLS, SCREEN_ROWS, fed) != prev_cursor
}

/// The text of the screen after it was fed `fed`.
pub open spec fn screen_text(fed: Seq<Seq<char>>) -> Seq<char> {
    flatten(rows_after(SCREEN_COLS, SCREEN_ROWS, fed))
}

/// Feeds events to an emulated terminal and takes a frame each time the
/// visible screen changes.
pub struct FrameReconstructor {
    /// The emulated terminal.
    pub screen: Screen,
    /// The cursor as of the last event.
    pub prev_cursor: Option<(usize, usize)>,
    /// Whether the events are recorded keystrokes rather than output.
    pub input_channel: bool,
    /// How many frames have been taken.
    pub emitted: usize,
}

impl FrameReconstructor {
    /// The reconstructor's invariant: the screen has the fixed size.
    pub open spec fn wf(&self) -> bool {
        &&& self.screen.cols() == SCREEN_COLS
        &&& self.screen.rows() == SCREEN_ROWS
    }

    /// A blank screen; `input_channel` selects recorded keystrokes.
    pub fn new(input_channel: bool) -> (r: FrameReconstructor)
        ensures
            r.wf(),
            r.screen.fed() == Seq::<Seq<char>>::empty(),
            r.prev_cursor is None,
            r.input_channel == input_channel,
            r.emitted == 0,
    {
        FrameReconstructor { screen: screen_new(SCREEN_COLS, SCREEN_ROWS), prev_cursor: None, input_channel, emitted: 0 }
    }

    /// Feeds one event's payload, recorded at `time`. Keystroke payloads have
    /// their carriage returns expanded first. A frame comes back exactly when
    /// the emulator reports a changed row or the cursor moved; it is numbered
    /// by the frames before it, its text is the flattened screen, and its
    /// cursor the screen's cursor.
    pub fn feed(&mut self, time: u64, data: &String) -> (r: Option<Frame>)
        requires
            old(self).wf(),
            old(self).emitted < usize::MAX,
        ensures
            final(self).wf(),
            final(self).input_channel == old(self).input_channel,
            final(self).screen.fed() == old(self).screen.fed().push(fed_text(data@, old(self).input_channel)),
            final(self).prev_cursor == cursor_after(SCREEN_COLS, SCREEN_ROWS, final(self).screen.fed()),
            (r is Some) == takes_frame(final(self).screen.fed(), old(self).prev_cursor),
            r is None ==> final(self).emitted == old(self).emitted,
            r is Some ==> {
                let f = r->Some_0;
                &&& f.index == old(self).emitted
                &&& f.time == time
                &&& f.text@ == screen_text(final(self).screen.fed())
                &&& f.cursor == cursor_after(SCREEN_COLS, SCREEN_ROWS, final(self).screen.fed())
                &&& final(self).emitted == old(self).emitted + 1
            },
    {
        let changed = if self.input_channel {
            let expanded = expand_carriage_returns(data);
            screen_feed(&mut self.screen, &expanded)
        } else {
            screen_feed(&mut self.screen, data)
        };
        let cursor = screen_cursor(&self.screen);
        let emit = should_emit(changed, self.prev_cursor, cursor);
        self.prev_cursor = cursor;
        if emit {
            let rows = screen_rows(&self.screen);
            let chars = flatten_rows(&rows);
            let text = string_from_chars(&chars);
            let index = self.emitted;
            self.emitted = self.emitted + 1;
            Some(Frame { index, time, text, cursor })
        } else {
            None
        }
    }
}

/// What the emulator has been fed after the first `k` events of a stream.
pub open spec fn fed_prefix(stream: Seq<(u64, String)>, k: int, input_channel: bool) -> Seq<Seq<char>> {
    stream.take(k).map_values(|e: (u64, String)| fed_text(e.1@, input_channel))
}

/// The cursor before event `k` of a stream: none before the first event.
pub open spec fn cursor_before(stream: Seq<(u64, String)>, k: int, input_channel: bool) -> Option<(usize, usize)> {
    if k == 0 {
        None
    } else {
        cursor_after(SCREEN_COLS, SCREEN_ROWS, fed_prefix(stream, k, input_channel))
    }
}

/// The frames of the first `n` events of a stream, as time, text and cursor:
/// one for each event that takes a frame, in order.
pub open spec fn frames_of(stream: Seq<(u64, String)>, n: int, input_channel: bool) -> Seq<(u64, Seq<char>, Option<(usize, usize)>)>
    decreases n,
{
    if n <= 0 {
        Seq::empty()
    } else {
        let before = frames_of(stream, n - 1, input_channel);
        let fed = fed_prefix(stream, n, input_channel);
        if takes_frame(fed, cursor_before(stream, n - 1, input_channel)) {
            before.push((stream[n - 1].0, screen_text(fed), cursor_after(SCREEN_COLS, SCREEN_ROWS, fed)))
        } else {
            before
        }
    }
}

/// The frames of a whole stream of `(time, payload)` events, in order, as
/// `frames_of` states them, numbered from zero.
pub fn frames(stream: &Vec<(u64, String)>, is_stdin: bool) -> (r: Vec<Frame>)
    ensures
        r@.len() == frames_of(stream@, stream@.len() as int, is_stdin).len(),
        forall|i: int| 0 <= i < r@.len() ==> {
            let f = #[trigger] r@[i];
            &&& f.index == i
            &&& (f.time, f.text@, f.cursor) == frames_of(stream@, stream@.len() as int, is_stdin)[i]
        },
{
    let mut rec = FrameReconstructor::new(is_stdin);
    let mut out: Vec<Frame> = Vec::new();
    let mut i: usize = 0;
    assert(fed_prefix(stream@, 0, is_stdin) =~= Seq::<Seq<char>>::empty());
    while i < stream.len()
        invariant
            i <= stream@.len(),
            rec.wf(),
            rec.input_channel == is_stdin,
            rec.screen.fed() == fed_prefix(stream@, i as int, is_stdin),
            rec.prev_cursor == cursor_before(stream@, i as int, is_stdin),
            rec.emitted == out@.len(),
            out@.len() <= i,
            out@.len() == frames_of(stream@, i as int, is_stdin).len(),
            forall|j: int| 0 <= j < out@.len() ==> {
                let f = #[trigger] out@[j];
                &&& f.index == j
                &&& (f.time, f.text@, f.cursor) == frames_of(stream@, i as int, is_stdin)[j]
            },
        decreases stream@.len() - i,
    {
        let (time, data) = &stream[i];
        let ghost before = out@;
        let ghost prev = frames_of(stream@, i as int, is_stdin);
        proof {
            let e = stream@[i as int];
            assert(fed_prefix(stream@, i + 1, is_stdin) =~= fed_prefix(stream@, i as int, is_stdin).push(fed_text(e.1@, is_stdin)));
        }
        match rec.feed(*time, data) {
            Some(f) => {
                out.push(f);
                proof {
                    let now = frames_of(stream@, i + 1, is_stdin);
                    assert forall|j: int| 0 <= j < out@.len() implies {
                        let f = #[trigger] out@[j];
                        &&& f.index == j
                        &&& (f.time, f.text@, f.cursor) == now[j]
                    } by {
                        if j < before.len() {
                            assert(out@[j] == before[j]);
                            assert(now[j] == prev[j]);
                        }
                    }
                }
            },
            None => {
                proof {
                    let now = frames_of(stream@, i + 1, is_stdin);
                    assert(now == prev);
                }
            },
        }
        i = i + 1;
    }
    out
}

} // verus!
