//! Merging per-frame match occurrences into spans of consecutive matching frames.
use vstd::prelude::*;
use vstd::utf8::encode_utf8;

verus! {

/// A byte range `(from, to)` inside a frame's text.
pub type Range = (usize, usize);

/// One match occurrence as the coalescer sees it.
pub struct Hit {
    pub frame: usize,
    pub time: u64,
    pub text: Seq<char>,
    pub range: Range,
}

/// The mathematical value of a span.
pub struct SpanView {
    pub start_frame: usize,
    pub end_frame: usize,
    pub start_time: u64,
    pub end_time: u64,
    pub text: Seq<char>,
    pub ranges: Seq<Range>,
}

/// One reported occurrence: the pattern was visible on the frames
/// `start_frame..=end_frame`. `text` is the text of `end_frame`, and `ranges`
/// are the byte ranges of the matches in it.
pub struct Span {
    pub start_frame: usize,
    pub end_frame: usize,
    pub start_time: u64,
    pub end_time: u64,
    pub text: String,
    pub ranges: Vec<Range>,
}

impl View for Span {
    type V = SpanView;

    open spec fn view(&self) -> SpanView {
        SpanView {
            start_frame: self.start_frame,
            end_frame: self.end_frame,
            start_time: self.start_time,
            end_time: self.end_time,
            text: self.text@,
            ranges: self.ranges@,
        }
    }
}

/// The span that a hit opens when no span is open, or after a gap.
pub open spec fn open_span(h: Hit) -> SpanView {
    SpanView {
        start_frame: h.frame,
        end_frame: h.frame,
        start_time: h.time,
        end_time: h.time,
        text: h.text,
        ranges: seq![h.range],
    }
}

/// One transition: the open span after the hit, and the span flushed by it.
pub open spec fn step_spec(open: Option<SpanView>, h: Hit) -> (Option<SpanView>, Option<SpanView>) {
    match open {
        None => (Some(open_span(h)), None),
        Some(s) => {
            if h.frame == s.end_frame + 1 {
                (Some(SpanView { end_frame: h.frame, end_time: h.time, text: h.text, ranges: seq![h.range], ..s }), None)
            } else if h.frame == s.end_frame {
                (Some(SpanView { ranges: s.ranges.push(h.range), ..s }), None)
            } else {
                (Some(open_span(h)), Some(s))
            }
        },
    }
}

/// The open span and the spans flushed so far after a sequence of hits.
pub open spec fn run(hits: Seq<Hit>) -> (Option<SpanView>, Seq<SpanView>)
    decreases hits.len(),
{
    if hits.len() == 0 {
        (None, Seq::empty())
    } else {
        let (open, flushed) = run(hits.drop_last());
        let (next, out) = step_spec(open, hits.last());
        (next, match out {
            Some(s) => flushed.push(s),
            None => flushed,
        })
    }
}

/// Every span reported for a whole stream of hits, in order: those flushed on
/// the way and the one still open at the end.
pub open spec fn spans_of(hits: Seq<Hit>) -> Seq<SpanView> {
    let (open, flushed) = run(hits);
    match open {
        Some(s) => flushed.push(s),
        None => flushed,
    }
}

/// The number of bytes in the UTF-8 form of a text.
pub open spec fn byte_len(text: Seq<char>) -> int {
    encode_utf8(text).len() as int
}

/// A range is well formed in a text: it does not run backwards and ends
/// inside the text's bytes.
pub open spec fn range_in(r: Range, text: Seq<char>) -> bool {
    r.0 <= r.1 && r.1 <= byte_len(text)
}

/// Ranges are strictly ascending and do not overlap.
pub open spec fn ranges_ordered(rs: Seq<Range>) -> bool {
    forall|i: int, j: int| #![trigger rs[i], rs[j]] 0 <= i < j < rs.len() ==> rs[i].0 < rs[j].0 && rs[i].1 <= rs[j].0
}

/// A span as the coalescer hands it on: its frames in order, and its ranges
/// ascending, disjoint and inside its text.
pub open spec fn span_wf(s: SpanView) -> bool {
    &&& s.start_frame <= s.end_frame
    &&& s.ranges.len() > 0
    &&& forall|i: int| 0 <= i < s.ranges.len() ==> range_in(#[trigger] s.ranges[i], s.text)
    &&& ranges_ordered(s.ranges)
}

/// Two successive hits as the matcher produces them: a later frame, or the
/// same frame, with its time and text, and a range that starts later and
/// does not overlap the one before.
pub open spec fn hits_follow(a: Hit, b: Hit) -> bool {
    ||| a.frame < b.frame
    ||| (a.frame == b.frame && a.time == b.time && a.text == b.text && a.range.0 < b.range.0
        && a.range.1 <= b.range.0)
}

/// A stream of hits as the matcher produces it: frames ascending, and within
/// one frame, strictly ascending disjoint ranges inside the frame's text.
pub open spec fn hits_wf(hits: Seq<Hit>) -> bool {
    &&& forall|i: int| 0 <= i < hits.len() ==> range_in(#[trigger] hits[i].range, hits[i].text)
    &&& forall|i: int| 0 < i < hits.len() ==> hits_follow(hits[i - 1], #[trigger] hits[i])
}

/// The hits' times never decrease.
pub open spec fn hits_times_sorted(hits: Seq<Hit>) -> bool {
    forall|i: int| 0 < i < hits.len() ==> hits[i - 1].time <= #[trigger] hits[i].time
}

/// A span's start time is no later than its end time.
pub open spec fn span_times_ordered(s: SpanView) -> bool {
    s.start_time <= s.end_time
}

/// The view of an optional span.
pub open spec fn opt_view(o: Option<Span>) -> Option<SpanView> {
    match o {
        Some(s) => Some(s@),
        None => None,
    }
}

/// The hit that a call of `Coalescer::push` stands for.
pub open spec fn hit_of(frame: usize, time: u64, text: Seq<char>, from: usize, to: usize) -> Hit {
    Hit { frame, time, text, range: (from, to) }
}

/// What holds after any well-formed stream of hits: the open span ends on the
/// last hit's frame with its text and range, every span is well formed, and
/// the spans come in frame order without sharing a frame.
pub open spec fn run_inv(hits: Seq<Hit>) -> bool {
    let (open, flushed) = run(hits);
    &&& (open is Some <==> hits.len() > 0)
    &&& open is Some ==> {
        let s = open->Some_0;
        &&& span_wf(s)
        &&& s.end_frame == hits.last().frame
        &&& s.text == hits.last().text
        &&& s.ranges.last() == hits.last().range
        &&& s.end_time == hits.last().time
        &&& flushed.len() > 0 ==> flushed.last().end_frame + 1 < s.start_frame
        &&& hits_times_sorted(hits) ==> span_times_ordered(s)
    }
    &&& forall|i: int| 0 <= i < flushed.len() ==> span_wf(#[trigger] flushed[i])
    &&& hits_times_sorted(hits) ==> forall|i: int| 0 <= i < flushed.len() ==> span_times_ordered(#[trigger] flushed[i])
    &&& forall|i: int, j: int|
        0 <= i < j < flushed.len() ==> #[trigger] flushed[i].end_frame + 1 < #[trigger] flushed[j].start_frame
}

proof fn lemma_run_inv(hits: Seq<Hit>)
    requires
        hits_wf(hits),
    ensures
        run_inv(hits),
    decreases hits.len(),
{
    if hits.len() > 0 {
        let prefix = hits.drop_last();
        assert(hits_times_sorted(hits) ==> hits_times_sorted(prefix)) by {
            if hits_times_sorted(hits) {
                assert forall|i: int| 0 < i < prefix.len() implies prefix[i - 1].time <= #[trigger] prefix[i].time by {
                    assert(prefix[i] == hits[i]);
                    assert(prefix[i - 1] == hits[i - 1]);
                }
            }
        }
        assert(hits_wf(prefix)) by {
            assert forall|i: int| 0 < i < prefix.len() implies hits_follow(prefix[i - 1], #[trigger] prefix[i]) by {
                assert(prefix[i] == hits[i]);
                assert(prefix[i - 1] == hits[i - 1]);
            }
            assert forall|i: int| 0 <= i < prefix.len() implies range_in(#[trigger] prefix[i].range, prefix[i].text) by {
                assert(prefix[i] == hits[i]);
            }
        }
        lemma_run_inv(prefix);
        let (open, flushed) = run(prefix);
        let h = hits.last();
        assert(range_in(hits[hits.len() - 1].range, hits[hits.len() - 1].text));
        if open is Some {
            let s = open->Some_0;
            let n = hits.len() as int;
            assert(prefix.last() == hits[n - 2]);
            assert(hits[n - 1] == h);
            assert(hits_follow(hits[n - 2], hits[n - 1]));
            if hits_times_sorted(hits) {
                assert(hits[n - 2].time <= hits[n - 1].time);
            }
            if h.frame == s.end_frame + 1 {
            } else if h.frame == s.end_frame {
                let rs = s.ranges.push(h.range);
                assert forall|i: int, j: int| #![trigger rs[i], rs[j]] 0 <= i < j < rs.len() implies rs[i].0 < rs[j].0 && rs[i].1 <= rs[j].0 by {
                    if j == rs.len() - 1 {
                        assert(rs[i] == s.ranges[i]);
                        assert(range_in(s.ranges[i], s.text));
                        if i < s.ranges.len() - 1 {
                            assert(s.ranges[i].1 <= s.ranges[s.ranges.len() - 1].0);
                            assert(range_in(s.ranges[s.ranges.len() - 1], s.text));
                        }
                    } else {
                        assert(rs[i] == s.ranges[i]);
                        assert(rs[j] == s.ranges[j]);
                    }
                }
                assert forall|i: int| 0 <= i < rs.len() implies range_in(#[trigger] rs[i], s.text) by {
                    if i < s.ranges.len() {
                        assert(rs[i] == s.ranges[i]);
                    }
                }
            } else {
                let f2 = flushed.push(s);
                assert forall|i: int| 0 <= i < f2.len() implies span_wf(#[trigger] f2[i]) by {
                    if i < flushed.len() {
                        assert(f2[i] == flushed[i]);
                    }
                }
                assert forall|i: int, j: int|
                    0 <= i < j < f2.len() implies #[trigger] f2[i].end_frame + 1 < #[trigger] f2[j].start_frame by {
                    if j < flushed.len() {
                        assert(f2[i] == flushed[i]);
                        assert(f2[j] == flushed[j]);
                    } else {
                        assert(f2[i] == flushed[i]);
                        if i < flushed.len() - 1 {
                            assert(flushed[i].end_frame + 1 < flushed[flushed.len() - 1].start_frame);
                            assert(span_wf(flushed[flushed.len() - 1]));
                        }
                    }
                }
                if hits_times_sorted(hits) {
                    assert forall|i: int| 0 <= i < f2.len() implies span_times_ordered(#[trigger] f2[i]) by {
                        if i < flushed.len() {
                            assert(f2[i] == flushed[i]);
                        }
                    }
                }
            }
        }
    }
}

/// Every span reported for a well-formed stream of hits has
/// `start_frame <= end_frame` and at least one range, and its ranges are
/// strictly ascending, do not overlap, and lie within the bytes of its text.
pub proof fn lemma_spans_well_formed(hits: Seq<Hit>)
    requires
        hits_wf(hits),
    ensures
        forall|i: int| 0 <= i < spans_of(hits).len() ==> span_wf(#[trigger] spans_of(hits)[i]),
{
    lemma_run_inv(hits);
    let (open, flushed) = run(hits);
    if open is Some {
        let all = flushed.push(open->Some_0);
        assert forall|i: int| 0 <= i < all.len() implies span_wf(#[trigger] all[i]) by {
            if i < flushed.len() {
                assert(all[i] == flushed[i]);
            }
        }
    }
}

/// The spans of a well-formed stream of hits come in frame order: at least
/// one frame lies between one span's end and the next one's start, so their
/// start frames strictly increase.
pub proof fn lemma_spans_in_frame_order(hits: Seq<Hit>)
    requires
        hits_wf(hits),
    ensures
        forall|i: int, j: int| 0 <= i < j < spans_of(hits).len() ==>
            #[trigger] spans_of(hits)[i].end_frame + 1 < #[trigger] spans_of(hits)[j].start_frame,
        forall|i: int, j: int| 0 <= i < j < spans_of(hits).len() ==>
            #[trigger] spans_of(hits)[i].start_frame < #[trigger] spans_of(hits)[j].start_frame,
{
    lemma_run_inv(hits);
    let (open, flushed) = run(hits);
    let all = spans_of(hits);
    assert forall|i: int, j: int| 0 <= i < j < all.len() implies #[trigger] all[i].end_frame + 1 < #[trigger] all[j].start_frame by {
        if j < flushed.len() {
            assert(all[i] == flushed[i]);
            assert(all[j] == flushed[j]);
        } else {
            assert(all[i] == flushed[i]);
            if i < flushed.len() - 1 {
                assert(flushed[i].end_frame + 1 < flushed[flushed.len() - 1].start_frame);
                assert(span_wf(flushed[flushed.len() - 1]));
            }
        }
    }
    assert forall|i: int, j: int| 0 <= i < j < all.len() implies #[trigger] all[i].start_frame < #[trigger] all[j].start_frame by {
        assert(all[i].end_frame + 1 < all[j].start_frame);
        lemma_spans_well_formed(hits);
        assert(span_wf(all[i]));
    }
}

/// When the hits' times never decrease, every span starts no later than it
/// ends in time as well as in frames.
pub proof fn lemma_span_times_ordered(hits: Seq<Hit>)
    requires
        hits_wf(hits),
        hits_times_sorted(hits),
    ensures
        forall|i: int| 0 <= i < spans_of(hits).len() ==> span_times_ordered(#[trigger] spans_of(hits)[i]),
{
    lemma_run_inv(hits);
    let (open, flushed) = run(hits);
    let all = spans_of(hits);
    assert forall|i: int| 0 <= i < all.len() implies span_times_ordered(#[trigger] all[i]) by {
        if i < flushed.len() {
            assert(all[i] == flushed[i]);
        }
    }
}

/// Two coalescers that have taken the same hits hold the same open span and
/// have handed out the same spans in the same order, whatever else differs.
pub proof fn lemma_coalescers_agree(a: Coalescer, b: Coalescer)
    requires
        a.wf(),
        b.wf(),
        a.hits@ == b.hits@,
    ensures
        opt_view(a.open) == opt_view(b.open),
        a.flushed@ == b.flushed@,
{
}

/// Every span that a coalescer has handed out or holds open is well formed,
/// and they come in frame order with at least one frame between them: the
/// coalescer only takes hits as the matcher delivers them.
pub proof fn lemma_coalescer_spans(c: Coalescer)
    requires
        c.wf(),
    ensures
        forall|i: int| 0 <= i < spans_of(c.hits@).len() ==> span_wf(#[trigger] spans_of(c.hits@)[i]),
        forall|i: int, j: int| 0 <= i < j < spans_of(c.hits@).len() ==>
            #[trigger] spans_of(c.hits@)[i].end_frame + 1 < #[trigger] spans_of(c.hits@)[j].start_frame,
{
    lemma_spans_well_formed(c.hits@);
    lemma_spans_in_frame_order(c.hits@);
}

/// Replaying the same stream of hits gives the same spans in the same order.
pub proof fn lemma_replay_deterministic(a: Seq<Hit>, b: Seq<Hit>)
    requires
        a == b,
    ensures
        spans_of(a) == spans_of(b),
        run(a) == run(b),
{
}

/// The coalescing state machine, with the match ceiling: at most `limit`
/// matches are taken, and scanning stops once that many have been taken.
pub struct Coalescer {
    /// The span still open, if any.
    pub open: Option<Span>,
    /// How many matches have been taken.
    pub count: usize,
    /// The most matches to take.
    pub limit: usize,
    /// Set once no more matches are to be taken.
    pub stopped: bool,
    /// The matches taken so far.
    pub hits: Ghost<Seq<Hit>>,
    /// The spans handed out so far.
    pub flushed: Ghost<Seq<SpanView>>,
}

/// The last hit that an open span has taken: its end frame, end time and
/// text, and its last range.
pub open spec fn last_hit(s: SpanView) -> Hit {
    Hit { frame: s.end_frame, time: s.end_time, text: s.text, range: s.ranges.last() }
}

/// Whether a hit may come next, as the matcher delivers hits: its range
/// lies in its text, and it follows the last hit of the open span, if any.
pub open spec fn may_take(open: Option<SpanView>, h: Hit) -> bool {
    &&& range_in(h.range, h.text)
    &&& match open {
        Some(s) => hits_follow(last_hit(s), h),
        None => true,
    }
}

impl Coalescer {
    /// The coalescer's invariant: it stops exactly when the ceiling is
    /// reached, and the hits it took came as the matcher delivers them.
    pub open spec fn wf(&self) -> bool {
        &&& hits_wf(self.hits@)
        &&& self.count <= self.limit
        &&& self.stopped == (self.count == self.limit)
        &&& self.count == self.hits@.len()
        &&& (opt_view(self.open), self.flushed@) == run(self.hits@)
    }

    /// A coalescer with no open span that takes at most `limit` matches.
    pub fn new(limit: usize) -> (r: Coalescer)
        ensures
            r.wf(),
            r.open is None,
            r.count == 0,
            r.limit == limit,
            r.stopped == (limit == 0),
            r.hits@ == Seq::<Hit>::empty(),
    {
        Coalescer { open: None, count: 0, limit, stopped: limit == 0, hits: Ghost(Seq::empty()), flushed: Ghost(Seq::empty()) }
    }

    /// Takes one match at bytes `from..to` of the text of frame `frame`, shown
    /// at `time`. Unless stopped, the span state moves by `step_spec`, the
    /// span that the match closes is returned, and the count goes up by one.
    /// A stopped coalescer ignores the match.
    pub fn push(&mut self, frame: usize, time: u64, text: &String, from: usize, to: usize) -> (r: Option<Span>)
        requires
            old(self).wf(),
            !old(self).stopped ==> may_take(opt_view(old(self).open), hit_of(frame, time, text@, from, to)),
        ensures
            final(self).wf(),
            final(self).limit == old(self).limit,
            old(self).stopped ==> *final(self) == *old(self) && r is None,
            !old(self).stopped ==> {
                &&& final(self).count == old(self).count + 1
                &&& final(self).hits@ == old(self).hits@.push(hit_of(frame, time, text@, from, to))
                &&& (opt_view(final(self).open), opt_view(r))
                    == step_spec(opt_view(old(self).open), hit_of(frame, time, text@, from, to))
                &&& r is Some ==> span_wf(r->Some_0@)
                &&& r is Some ==> r->Some_0.end_frame + 1 < final(self).open->Some_0.start_frame
            },
    {
        if self.stopped {
            return None;
        }
        let ghost h = hit_of(frame, time, text@, from, to);
        let ghost all = self.hits@.push(h);
        proof {
            assert(all.drop_last() =~= self.hits@);
            lemma_run_inv(self.hits@);
            if self.hits@.len() > 0 {
                assert(last_hit(opt_view(self.open)->Some_0) == self.hits@.last());
            }
            assert forall|i: int| 0 < i < all.len() implies hits_follow(all[i - 1], #[trigger] all[i]) by {
                if i < all.len() - 1 {
                    assert(all[i] == self.hits@[i]);
                    assert(all[i - 1] == self.hits@[i - 1]);
                } else {
                    assert(all[i - 1] == self.hits@.last());
                }
            }
            assert forall|i: int| 0 <= i < all.len() implies range_in(#[trigger] all[i].range, all[i].text) by {
                if i < all.len() - 1 {
                    assert(all[i] == self.hits@[i]);
                }
            }
            assert(hits_wf(all));
        }
        self.count = self.count + 1;
        self.stopped = self.count == self.limit;
        let taken = self.open.take();
        assert(opt_view(taken) == opt_view(old(self).open));
        match taken {
            None => {
                self.open = Some(Span::opened(frame, time, text, from, to));
                proof {
                    self.hits = Ghost(all);
                }
                None
            },
            Some(mut s) => {
                if s.end_frame < usize::MAX && frame == s.end_frame + 1 {
                    s.end_frame = frame;
                    s.end_time = time;
                    s.text = text.clone();
                    s.ranges = vec![(from, to)];
                    assert(s.ranges@ =~= seq![(from, to)]);
                    self.open = Some(s);
                    proof {
                        self.hits = Ghost(all);
                    }
                    None
                } else if frame == s.end_frame {
                    s.ranges.push((from, to));
                    self.open = Some(s);
                    proof {
                        self.hits = Ghost(all);
                    }
                    None
                } else {
                    self.open = Some(Span::opened(frame, time, text, from, to));
                    proof {
                        self.hits = Ghost(all);
                        self.flushed = Ghost(self.flushed@.push(s@));
                        lemma_run_inv(all);
                        let f = self.flushed@;
                        assert(f[f.len() - 1] == s@);
                    }
                    Some(s)
                }
            },
        }
    }

    /// Whether `push` may take this match: its range lies in the text's
    /// bytes, and it follows the open span's last match, on a later frame or
    /// later on the same frame, with the same time and text.
    pub fn accepts(&self, frame: usize, time: u64, text: &String, from: usize, to: usize) -> (r: bool)
        requires
            self.wf(),
        ensures
            r == may_take(opt_view(self.open), hit_of(frame, time, text@, from, to)),
    {
        let n = text.as_str().as_bytes().len();
        if !(from <= to && to <= n) {
            return false;
        }
        proof {
            lemma_run_inv(self.hits@);
        }
        match &self.open {
            None => true,
            Some(s) => {
                let last = s.ranges[s.ranges.len() - 1];
                frame > s.end_frame || (frame == s.end_frame && time == s.end_time && *text == s.text
                    && last.0 < from && last.1 <= from)
            },
        }
    }

    /// Ends the stream: the span still open, if any, is returned.
    pub fn finish(self) -> (r: Option<Span>)
        requires
            self.wf(),
        ensures
            opt_view(r) == opt_view(self.open),
            self.flushed@ + (match opt_view(r) {
                Some(s) => seq![s],
                None => Seq::empty(),
            }) == spans_of(self.hits@),
            r is Some ==> span_wf(r->Some_0@),
            r is Some && self.flushed@.len() > 0 ==> self.flushed@.last().end_frame + 1 < r->Some_0.start_frame,
    {
        proof {
            lemma_run_inv(self.hits@);
            match opt_view(self.open) {
                Some(s) => assert(self.flushed@.push(s) =~= self.flushed@ + seq![s]),
                None => assert(self.flushed@ + Seq::<SpanView>::empty() =~= self.flushed@),
            }
        }
        self.open
    }
}

impl Span {
    /// The span that a single match opens.
    pub fn opened(frame: usize, time: u64, text: &String, from: usize, to: usize) -> (r: Span)
        ensures
            r@ == open_span(hit_of(frame, time, text@, from, to)),
    {
        let r = Span {
            start_frame: frame,
            end_frame: frame,
            start_time: time,
            end_time: time,
            text: text.clone(),
            ranges: vec![(from, to)],
        };
        assert(r.ranges@ =~= seq![(from, to)]);
        r
    }

    /// How many frames the span covers.
    pub fn frame_count(&self) -> (r: usize)
        requires
            self.start_frame <= self.end_frame,
            self.end_frame < usize::MAX,
        ensures
            r == self.end_frame - self.start_frame + 1,
    {
        self.end_frame - self.start_frame + 1
    }
}

/// The match ceiling for a run: one in list-only mode, where a file is named
/// at its first match, else the given maximum, and no ceiling without one.
pub fn match_limit(list_only: bool, max_matches: Option<usize>) -> (r: usize)
    ensures
        list_only ==> r == 1,
        !list_only ==> r == match max_matches {
            Some(m) => m,
            None => usize::MAX,
        },
{
    if list_only {
        1
    } else {
        match max_matches {
            Some(m) => m,
            None => usize::MAX,
        }
    }
}

} // verus!
