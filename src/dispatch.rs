use vstd::prelude::*;
use vstd::utf8::{valid_utf8, decode_utf8};
use vstd::slice::slice_subrange;
use crate::builder::ProcessBuilder;
use crate::outcome::{ErrorKind, ExitStatus, Output, ProcessError, StreamingError, failed_to_parse, not_successful};
use crate::render::ShellStyle;

verus! {

/// The line terminator.
pub const NL: u8 = 10;

/// The carriage return that may stand before a line terminator.
pub const CR: u8 = 13;

/// The terminated lines of `b` (without their terminators) and the
/// unterminated bytes after the last terminator.
pub open spec fn split_terminated(b: Seq<u8>) -> (Seq<Seq<u8>>, Seq<u8>)
    decreases b.len(),
{
    if b.len() == 0 {
        (Seq::empty(), Seq::empty())
    } else {
        let (ls, cur) = split_terminated(b.drop_last());
        if b.last() == NL {
            (ls.push(cur), Seq::empty())
        } else {
            (ls, cur.push(b.last()))
        }
    }
}

/// The lines of `b`: each terminated line, then the unterminated rest where
/// it is not empty.
pub open spec fn lines_of(b: Seq<u8>) -> Seq<Seq<u8>> {
    let (ls, cur) = split_terminated(b);
    if cur.len() == 0 {
        ls
    } else {
        ls.push(cur)
    }
}

/// Lines written back, each followed by the terminator.
pub open spec fn join_terminated(ls: Seq<Seq<u8>>) -> Seq<u8>
    decreases ls.len(),
{
    if ls.len() == 0 {
        Seq::empty()
    } else {
        join_terminated(ls.drop_last()) + ls.last().push(NL)
    }
}

/// The length of `b` up to and including its last terminator (0 where it
/// has none).
pub open spec fn last_newline_end(b: Seq<u8>) -> int
    decreases b.len(),
{
    if b.len() == 0 {
        0
    } else if b.last() == NL {
        b.len() as int
    } else {
        last_newline_end(b.drop_last())
    }
}

/// How much of a stream's pending bytes is ready to be split into lines:
/// everything at end of stream, else up to the last terminator.
pub open spec fn ready_len(b: Seq<u8>, eof: bool) -> int {
    if eof {
        b.len() as int
    } else {
        last_newline_end(b)
    }
}

/// A terminated line without a carriage return that ends it.
pub open spec fn strip_cr(l: Seq<u8>) -> Seq<u8> {
    if l.len() > 0 && l.last() == CR {
        l.drop_last()
    } else {
        l
    }
}

/// What `String::from_utf8_lossy` makes of `b`.
pub uninterp spec fn lossy_text(b: Seq<u8>) -> Seq<char>;

/// Relies on `String::from_utf8_lossy`: the text depends on the bytes alone,
/// and valid UTF-8 is decoded as it is.
#[verifier::external_body]
fn decode_lossy(b: &[u8]) -> (r: String)
    ensures
        r@ == lossy_text(b@),
        valid_utf8(b@) ==> r@ == decode_utf8(b@),
{
    String::from_utf8_lossy(b).into_owned()
}

/// The texts of terminated lines as handed to a callback.
pub open spec fn complete_texts(ls: Seq<Seq<u8>>) -> Seq<Seq<char>> {
    ls.map_values(|l: Seq<u8>| lossy_text(strip_cr(l)))
}

/// The texts handed to a callback for a ready region, in order: each
/// terminated line without its terminator (and a carriage return before it),
/// then the unterminated rest where it is not empty.
pub open spec fn line_texts(region: Seq<u8>) -> Seq<Seq<char>> {
    let (ls, cur) = split_terminated(region);
    if cur.len() == 0 {
        complete_texts(ls)
    } else {
        complete_texts(ls).push(lossy_text(cur))
    }
}

/// Texts tagged with the stream they came from (`true` for stdout).
pub open spec fn tagged(is_out: bool, ts: Seq<Seq<char>>) -> Seq<(bool, Seq<char>)> {
    ts.map_values(|t: Seq<char>| (is_out, t))
}

/// A handler for the lines of one output stream. An `Err` stops the
/// delivery of lines for the rest of the run, on both streams.
pub trait LineCallback<E> {
    fn call(&mut self, line: &str) -> Result<(), E>;
}

/// The state of one streaming run: the captured bytes of both streams (when
/// capturing), the first callback error, and every callback invocation made.
pub struct LineDispatcher<E> {
    capture: bool,
    stdout: Vec<u8>,
    stderr: Vec<u8>,
    error: Option<E>,
    calls: Ghost<Seq<(bool, Seq<char>)>>,
    results: Ghost<Seq<Result<(), E>>>,
    out_seen: Ghost<Seq<u8>>,
    err_seen: Ghost<Seq<u8>>,
    out_ended: Ghost<bool>,
    err_ended: Ghost<bool>,
    out_overrun: Ghost<bool>,
    err_overrun: Ghost<bool>,
}

/// The mathematical form of a [`LineDispatcher`].
pub struct DispatchView<E> {
    pub capture: bool,
    pub stdout: Seq<u8>,
    pub stderr: Seq<u8>,
    pub failed: bool,
    /// The error of the first callback that failed.
    pub error: Option<E>,
    /// Each callback invocation so far: the stream (`true` for stdout) and
    /// the line handed over.
    pub calls: Seq<(bool, Seq<char>)>,
    /// What each of those invocations returned.
    pub results: Seq<Result<(), E>>,
    /// All bytes taken so far from stdout and from stderr as ready regions,
    /// captured or not.
    pub out_seen: Seq<u8>,
    pub err_seen: Seq<u8>,
    /// Whether the end of stdout, of stderr, has been handled.
    pub out_ended: bool,
    pub err_ended: bool,
    /// Whether bytes of stdout, of stderr, came after its end.
    pub out_overrun: bool,
    pub err_overrun: bool,
}

impl<E> View for LineDispatcher<E> {
    type V = DispatchView<E>;

    closed spec fn view(&self) -> DispatchView<E> {
        DispatchView {
            capture: self.capture,
            stdout: self.stdout@,
            stderr: self.stderr@,
            failed: self.error is Some,
            error: self.error,
            calls: self.calls@,
            results: self.results@,
            out_seen: self.out_seen@,
            err_seen: self.err_seen@,
            out_ended: self.out_ended@,
            err_ended: self.err_ended@,
            out_overrun: self.out_overrun@,
            err_overrun: self.err_overrun@,
        }
    }
}

/// The error of a callback result, if it is one.
pub open spec fn err_of<E>(r: Result<(), E>) -> Option<E> {
    match r {
        Ok(_) => None,
        Err(e) => Some(e),
    }
}

/// The texts handed to the callback of one stream, in order.
pub open spec fn stream_texts(calls: Seq<(bool, Seq<char>)>, is_out: bool) -> Seq<Seq<char>>
    decreases calls.len(),
{
    if calls.len() == 0 {
        Seq::empty()
    } else if calls.last().0 == is_out {
        stream_texts(calls.drop_last(), is_out).push(calls.last().1)
    } else {
        stream_texts(calls.drop_last(), is_out)
    }
}

impl<E> DispatchView<E> {
    pub open spec fn seen(self, is_out: bool) -> Seq<u8> {
        if is_out { self.out_seen } else { self.err_seen }
    }

    pub open spec fn ended(self, is_out: bool) -> bool {
        if is_out { self.out_ended } else { self.err_ended }
    }

    pub open spec fn overrun(self, is_out: bool) -> bool {
        if is_out { self.out_overrun } else { self.err_overrun }
    }

    /// The callback log: one result per invocation; every invocation but
    /// the last succeeded; the recorded error is the last one's, if it failed.
    pub open spec fn log_wf(self) -> bool {
        &&& self.results.len() == self.calls.len()
        &&& forall|i: int| 0 <= i < self.results.len() - 1 ==> #[trigger] self.results[i] is Ok
        &&& self.error == (if self.results.len() > 0 { err_of(self.results.last()) } else { None })
        &&& self.failed == self.error is Some
    }

    /// What holds of one stream over a run: before its end, what was taken
    /// from it ends with a terminator (or is empty); unless bytes came after
    /// its end, its callback got a prefix of the lines of what was taken,
    /// and all of them where no callback failed.
    pub open spec fn stream_wf(self, is_out: bool) -> bool {
        let seen = self.seen(is_out);
        let got = stream_texts(self.calls, is_out);
        let all = line_texts(seen);
        &&& !self.ended(is_out) ==> (seen.len() == 0 || seen.last() == NL)
        &&& !self.overrun(is_out) ==> got.len() <= all.len() && got == all.subrange(0, got.len() as int)
        &&& !self.overrun(is_out) && !self.failed ==> got == all
    }

    /// The invariant of a run.
    pub open spec fn wf(self) -> bool {
        &&& self.log_wf()
        &&& self.capture ==> self.stdout == self.out_seen && self.stderr == self.err_seen
        &&& !self.capture ==> self.stdout.len() == 0 && self.stderr.len() == 0
        &&& self.stream_wf(true)
        &&& self.stream_wf(false)
    }
}

/// Splitting loses nothing: the terminated lines, written back with their
/// terminators, followed by the unterminated rest, give back the bytes.
pub proof fn lemma_split_rejoin(b: Seq<u8>)
    ensures
        join_terminated(split_terminated(b).0) + split_terminated(b).1 == b,
        split_terminated(b).1 == b.subrange(last_newline_end(b), b.len() as int),
        0 <= last_newline_end(b) <= b.len(),
    decreases b.len(),
{
    if b.len() > 0 {
        let p = b.drop_last();
        lemma_split_rejoin(p);
        let (ls, cur) = split_terminated(p);
        if b.last() == NL {
            assert(join_terminated(ls.push(cur)) == join_terminated(ls) + cur.push(NL)) by {
                assert(ls.push(cur).drop_last() =~= ls);
            }
            assert(join_terminated(ls) + cur.push(NL) =~= p.push(NL));
            assert(b.subrange(b.len() as int, b.len() as int) =~= Seq::<u8>::empty());
        } else {
            assert(join_terminated(ls) + cur.push(b.last()) =~= p.push(b.last()));
            assert(b.subrange(last_newline_end(b), b.len() as int) =~= p.subrange(
                last_newline_end(p),
                p.len() as int,
            ).push(b.last()));
        }
        assert(p.push(b.last()) =~= b);
    }
}

/// The lines of a stream, rejoined with the terminator, are its bytes up to
/// the last terminator.
pub proof fn lemma_lines_rejoin(b: Seq<u8>)
    ensures
        join_terminated(split_terminated(b).0) == b.subrange(0, last_newline_end(b)),
        (b.len() == 0 || b.last() == NL) ==> join_terminated(lines_of(b)) == b,
{
    lemma_split_rejoin(b);
    let (ls, cur) = split_terminated(b);
    assert(b =~= b.subrange(0, last_newline_end(b)) + cur);
    assert(join_terminated(ls) =~= b.subrange(0, last_newline_end(b)));
    if b.len() == 0 || b.last() == NL {
        assert(b.subrange(0, last_newline_end(b)) =~= b);
    }
}

/// Splitting a stream chunk by chunk, each chunk but the last ending with a
/// terminator, yields the lines of the whole stream.
pub proof fn lemma_lines_of_concat(a: Seq<u8>, c: Seq<u8>)
    requires
        a.len() == 0 || a.last() == NL,
    ensures
        split_terminated(a + c) == (split_terminated(a).0 + split_terminated(c).0, split_terminated(c).1),
        lines_of(a + c) == lines_of(a) + lines_of(c),
    decreases c.len(),
{
    if c.len() == 0 {
        assert(a + c =~= a);
        assert(split_terminated(a).0 + split_terminated(c).0 =~= split_terminated(a).0);
    } else {
        lemma_lines_of_concat(a, c.drop_last());
        assert((a + c).drop_last() =~= a + c.drop_last());
        let (la, _) = split_terminated(a);
        let (lc, _) = split_terminated(c.drop_last());
        assert((la + lc).push(split_terminated(c.drop_last()).1) =~= la + lc.push(split_terminated(c.drop_last()).1));
    }
    let (la, cura) = split_terminated(a);
    let (lc, curc) = split_terminated(c);
    assert(cura.len() == 0);
    assert((la + lc).push(curc) =~= la + lc.push(curc));
}

proof fn lemma_last_newline_end_is_nl(b: Seq<u8>)
    ensures
        last_newline_end(b) == 0 || b[last_newline_end(b) - 1] == NL,
    decreases b.len(),
{
    if b.len() > 0 && b.last() != NL {
        lemma_last_newline_end_is_nl(b.drop_last());
        lemma_split_rejoin(b.drop_last());
    }
}

proof fn lemma_line_texts_concat(a: Seq<u8>, c: Seq<u8>)
    requires
        a.len() == 0 || a.last() == NL,
    ensures
        line_texts(a + c) == line_texts(a) + line_texts(c),
{
    lemma_lines_of_concat(a, c);
    let (la, cura) = split_terminated(a);
    let (lc, curc) = split_terminated(c);
    assert(cura.len() == 0);
    assert(complete_texts(la + lc) =~= complete_texts(la) + complete_texts(lc));
    if curc.len() > 0 {
        assert((complete_texts(la) + complete_texts(lc)).push(lossy_text(curc)) =~= complete_texts(la) + complete_texts(
            lc,
        ).push(lossy_text(curc)));
    }
}

proof fn lemma_stream_texts_append(c: Seq<(bool, Seq<char>)>, is_out: bool, x: Seq<Seq<char>>, tag: bool)
    ensures
        stream_texts(c + tagged(is_out, x), tag) == stream_texts(c, tag) + (if tag == is_out {
            x
        } else {
            Seq::empty()
        }),
    decreases x.len(),
{
    if x.len() == 0 {
        assert(c + tagged(is_out, x) =~= c);
        assert(stream_texts(c, tag) + Seq::<Seq<char>>::empty() =~= stream_texts(c, tag));
    } else {
        lemma_stream_texts_append(c, is_out, x.drop_last(), tag);
        assert((c + tagged(is_out, x)).drop_last() =~= c + tagged(is_out, x.drop_last()));
        if tag == is_out {
            assert((stream_texts(c, tag) + x.drop_last()).push(x.last()) =~= stream_texts(c, tag) + x);
        }
    }
}

/// One chunk keeps what holds of each stream over the run.
proof fn lemma_stream_step<E>(
    v0: DispatchView<E>,
    v1: DispatchView<E>,
    is_out: bool,
    tag: bool,
    r: Seq<u8>,
    eof: bool,
    m: int,
)
    requires
        v0.stream_wf(tag),
        !eof ==> (r.len() == 0 || r.last() == NL),
        0 <= m <= line_texts(r).len(),
        v1.calls == v0.calls + tagged(is_out, line_texts(r)).subrange(0, m),
        v0.failed ==> v1.failed && m == 0,
        !v0.failed && !v1.failed ==> m == line_texts(r).len(),
        v1.seen(tag) == if tag == is_out {
            v0.seen(tag) + r
        } else {
            v0.seen(tag)
        },
        v1.ended(tag) == if tag == is_out {
            v0.ended(tag) || eof
        } else {
            v0.ended(tag)
        },
        v1.overrun(tag) == if tag == is_out {
            v0.overrun(tag) || (v0.ended(tag) && r.len() > 0)
        } else {
            v0.overrun(tag)
        },
    ensures
        v1.stream_wf(tag),
{
    let t = line_texts(r);
    let got = stream_texts(v0.calls, tag);
    let all = line_texts(v0.seen(tag));
    assert(tagged(is_out, t).subrange(0, m) =~= tagged(is_out, t.subrange(0, m)));
    lemma_stream_texts_append(v0.calls, is_out, t.subrange(0, m), tag);
    if tag == is_out {
        let s = v0.seen(tag);
        if r.len() == 0 {
            assert(s + r =~= s);
            assert(line_texts(r) =~= Seq::<Seq<char>>::empty());
            assert(got + t.subrange(0, m) =~= got);
        } else if !v0.ended(tag) {
            lemma_line_texts_concat(s, r);
            if !v0.overrun(tag) {
                let got1 = got + t.subrange(0, m);
                if !v0.failed {
                    assert(got1 =~= (all + t).subrange(0, got1.len() as int));
                    if !v1.failed {
                        assert(t.subrange(0, m) =~= t);
                    }
                } else {
                    assert(got1 =~= got);
                    assert(got1 =~= (all + t).subrange(0, got1.len() as int));
                }
            }
            if !eof {
                assert((s + r).last() == NL);
            }
        }
    } else {
        assert(got + Seq::<Seq<char>>::empty() =~= got);
    }
}

/// With capture on, over a whole run in which no callback failed and no
/// bytes came after a stream's end: the lines handed to a stream's callback
/// are the lines of its captured bytes, and those lines, rejoined with the
/// terminator, are the captured bytes up to the last terminator.
pub proof fn lemma_run_captured_lines<E>(v: DispatchView<E>, is_out: bool)
    requires
        v.wf(),
        v.capture,
        !v.failed,
        !v.overrun(is_out),
    ensures
        ({
            let cap = if is_out { v.stdout } else { v.stderr };
            &&& stream_texts(v.calls, is_out) == line_texts(cap)
            &&& join_terminated(split_terminated(cap).0) == cap.subrange(0, last_newline_end(cap))
        }),
{
    let cap = if is_out { v.stdout } else { v.stderr };
    lemma_lines_rejoin(cap);
}

/// With capture off, the capture buffers stay empty over a whole run, and
/// where no callback failed and no bytes came after a stream's end, every
/// line taken from that stream went to its callback, in order.
pub proof fn lemma_run_uncaptured<E>(v: DispatchView<E>, is_out: bool)
    requires
        v.wf(),
        !v.capture,
    ensures
        v.stdout.len() == 0,
        v.stderr.len() == 0,
        !v.failed && !v.overrun(is_out) ==> stream_texts(v.calls, is_out) == line_texts(v.seen(is_out)),
{
}

/// Over a whole run, once a callback has failed no callback is invoked
/// again: the failing invocation is the last one, every earlier one
/// succeeded, and the recorded error is the one it returned.
pub proof fn lemma_run_stops_at_failure<E>(v: DispatchView<E>)
    requires
        v.wf(),
        v.failed,
    ensures
        v.calls.len() >= 1,
        v.results.len() == v.calls.len(),
        v.results.last() is Err,
        v.error == err_of(v.results.last()),
        forall|i: int| 0 <= i < v.results.len() - 1 ==> #[trigger] v.results[i] is Ok,
{
}

/// `o` holds what the run captured and the exit status.
pub open spec fn run_output<E>(o: Output, v: DispatchView<E>, status: ExitStatus) -> bool {
    o.stdout@ == v.stdout && o.stderr@ == v.stderr && o.status == status
}

/// A failure of the run carries the exit status, and the output exactly
/// where the run captured it.
pub open spec fn attached<E>(e: ProcessError, v: DispatchView<E>, status: ExitStatus) -> bool {
    &&& e.status == Some(status)
    &&& v.capture ==> (e.output matches Some(o) && run_output(o, v, status))
    &&& !v.capture ==> e.output is None
}

proof fn lemma_last_newline_end(b: Seq<u8>, k: int)
    requires
        0 <= k <= b.len(),
        k == 0 || b[k - 1] == NL,
        forall|i: int| k <= i < b.len() ==> b[i] != NL,
    ensures
        last_newline_end(b) == k,
    decreases b.len(),
{
    if b.len() > k {
        lemma_last_newline_end(b.drop_last(), k);
    }
}

/// Where the last line of `b` ends (0 when `b` holds no terminator).
fn find_ready_len(b: &Vec<u8>, eof: bool) -> (r: usize)
    ensures
        r == ready_len(b@, eof),
        r <= b@.len(),
{
    if eof {
        return b.len();
    }
    let mut k: usize = b.len();
    while k > 0 && b[k - 1] != NL
        invariant
            0 <= k <= b@.len(),
            forall|i: int| k <= i < b@.len() ==> b@[i] != NL,
        decreases k,
    {
        k = k - 1;
    }
    proof {
        lemma_last_newline_end(b@, k as int);
    }
    k
}

impl<E> LineDispatcher<E> {
    /// A run that has captured nothing and called nothing yet.
    pub fn new(capture: bool) -> (r: Self)
        ensures
            r@ == (DispatchView::<E> {
                capture,
                stdout: Seq::empty(),
                stderr: Seq::empty(),
                failed: false,
                error: None,
                calls: Seq::empty(),
                results: Seq::empty(),
                out_seen: Seq::empty(),
                err_seen: Seq::empty(),
                out_ended: false,
                err_ended: false,
                out_overrun: false,
                err_overrun: false,
            }),
            r@.wf(),
    {
        let r = LineDispatcher {
            capture,
            stdout: Vec::new(),
            stderr: Vec::new(),
            error: None,
            calls: Ghost(Seq::empty()),
            results: Ghost(Seq::empty()),
            out_seen: Ghost(Seq::empty()),
            err_seen: Ghost(Seq::empty()),
            out_ended: Ghost(false),
            err_ended: Ghost(false),
            out_overrun: Ghost(false),
            err_overrun: Ghost(false),
        };
        proof {
            assert(line_texts(Seq::<u8>::empty()) =~= Seq::<Seq<char>>::empty());
            assert(stream_texts(Seq::<(bool, Seq<char>)>::empty(), true) =~= Seq::<Seq<char>>::empty());
            assert(stream_texts(Seq::<(bool, Seq<char>)>::empty(), false) =~= Seq::<Seq<char>>::empty());
            assert(Seq::<Seq<char>>::empty().subrange(0, 0) =~= Seq::<Seq<char>>::empty());
        }
        r
    }

    /// Hands one line to the matching callback, unless a callback has
    /// already failed in this run.
    fn deliver<A: LineCallback<E>, B: LineCallback<E>>(
        &mut self,
        is_out: bool,
        line: &[u8],
        on_out: &mut A,
        on_err: &mut B,
    )
        requires
            old(self)@.log_wf(),
        ensures
            final(self)@.log_wf(),
            old(self)@.failed ==> final(self)@ == old(self)@,
            !old(self)@.failed ==> final(self)@ == (DispatchView {
                calls: old(self)@.calls.push((is_out, lossy_text(line@))),
                results: old(self)@.results.push(final(self)@.results.last()),
                error: err_of(final(self)@.results.last()),
                failed: final(self)@.results.last() is Err,
                ..old(self)@
            }),
    {
        if self.error.is_some() {
            return;
        }
        let text = decode_lossy(line);
        let res = if is_out {
            on_out.call(text.as_str())
        } else {
            on_err.call(text.as_str())
        };
        proof {
            self.calls@ = self.calls@.push((is_out, text@));
            self.results@ = self.results@.push(res);
        }
        match res {
            Ok(()) => {},
            Err(e) => {
                self.error = Some(e);
            },
        }
    }

    /// Splits `region` into lines and hands them, in order, to the callback
    /// of its stream, as long as no callback has failed. Returns how many
    /// were handed over.
    fn dispatch_lines<A: LineCallback<E>, B: LineCallback<E>>(
        &mut self,
        is_out: bool,
        region: &Vec<u8>,
        on_out: &mut A,
        on_err: &mut B,
    ) -> (m: Ghost<int>)
        requires
            old(self)@.log_wf(),
        ensures
            final(self)@ == (DispatchView {
                calls: final(self)@.calls,
                results: final(self)@.results,
                error: final(self)@.error,
                failed: final(self)@.failed,
                ..old(self)@
            }),
            final(self)@.log_wf(),
            0 <= m@ <= line_texts(region@).len(),
            final(self)@.calls == old(self)@.calls + tagged(is_out, line_texts(region@)).subrange(0, m@),
            old(self)@.failed ==> final(self)@ == old(self)@ && m@ == 0,
            !old(self)@.failed && !final(self)@.failed ==> m@ == line_texts(region@).len(),
            !old(self)@.failed && final(self)@.failed ==> m@ >= 1,
    {
        let ghost v0 = self@;
        let ghost r = region@;
        let mut start: usize = 0;
        let mut j: usize = 0;
        let ghost mut m: int = 0;
        while j < region.len()
            invariant
                region@ == r,
                0 <= start <= j <= r.len(),
                split_terminated(r.subrange(0, j as int)).1 == r.subrange(start as int, j as int),
                0 <= m <= split_terminated(r.subrange(0, j as int)).0.len(),
                self@ == (DispatchView {
                    calls: self@.calls,
                    results: self@.results,
                    error: self@.error,
                    failed: self@.failed,
                    ..v0
                }),
                self@.log_wf(),
                v0.failed ==> self@ == v0 && m == 0,
                self@.calls == v0.calls + tagged(
                    is_out,
                    complete_texts(split_terminated(r.subrange(0, j as int)).0),
                ).subrange(0, m),
                !v0.failed && !self@.failed ==> m == split_terminated(r.subrange(0, j as int)).0.len(),
                !v0.failed && self@.failed ==> m >= 1,
            decreases r.len() - j,
        {
            let ghost pre = split_terminated(r.subrange(0, j as int));
            proof {
                assert(r.subrange(0, j + 1).drop_last() =~= r.subrange(0, j as int));
            }
            if region[j] == NL {
                let end: usize = if j > start && region[j - 1] == CR {
                    j - 1
                } else {
                    j
                };
                let line = slice_subrange(region.as_slice(), start, end);
                let ghost was_failed = self@.failed;
                proof {
                    assert(line@ =~= strip_cr(r.subrange(start as int, j as int)));
                }
                self.deliver(is_out, line, on_out, on_err);
                proof {
                    let post = split_terminated(r.subrange(0, j + 1));
                    assert(post.0 == pre.0.push(r.subrange(start as int, j as int)));
                    let t_pre = tagged(is_out, complete_texts(pre.0));
                    let t_post = tagged(is_out, complete_texts(post.0));
                    assert(t_post =~= t_pre.push((is_out, lossy_text(line@))));
                    if !was_failed {
                        assert(t_post.subrange(0, m + 1) =~= t_pre.subrange(0, m).push(
                            (is_out, lossy_text(line@)),
                        ));
                        m = m + 1;
                    } else {
                        assert(t_post.subrange(0, m) =~= t_pre.subrange(0, m));
                    }
                    assert(r.subrange(j + 1, j + 1) =~= Seq::<u8>::empty());
                }
                start = j + 1;
            } else {
                proof {
                    let post = split_terminated(r.subrange(0, j + 1));
                    assert(post.0 == pre.0);
                    assert(r.subrange(start as int, j + 1) =~= r.subrange(start as int, j as int).push(r[j as int]));
                }
            }
            j = j + 1;
        }
        proof {
            assert(r.subrange(0, j as int) =~= r);
        }
        let ghost pre = split_terminated(r);
        if start < region.len() {
            let ghost was_failed = self@.failed;
            let line = slice_subrange(region.as_slice(), start, region.len());
            self.deliver(is_out, line, on_out, on_err);
            proof {
                let t_pre = tagged(is_out, complete_texts(pre.0));
                let t_post = tagged(is_out, line_texts(r));
                assert(line@ =~= pre.1);
                assert(t_post =~= t_pre.push((is_out, lossy_text(line@))));
                if !was_failed {
                    assert(t_post.subrange(0, m + 1) =~= t_pre.subrange(0, m).push(
                        (is_out, lossy_text(line@)),
                    ));
                    m = m + 1;
                } else {
                    assert(t_post.subrange(0, m) =~= t_pre.subrange(0, m));
                }
            }
        } else {
            proof {
                assert(pre.1.len() == 0);
                assert(tagged(is_out, line_texts(r)) == tagged(is_out, complete_texts(pre.0)));
            }
        }
        Ghost(m)
    }

    /// Handles a chunk of one stream: `data` holds the stream's pending
    /// bytes and `eof` says whether more can come. The ready part (all of it
    /// at end of stream, else up to the last terminator) is taken out of
    /// `data`, appended to the stream's capture when capturing, and split
    /// into lines that go, in order, to `on_out` (stdout) or `on_err`
    /// (stderr); once a callback has failed, none is called again.
    #[verifier::rlimit(100)]
    #[verifier::spinoff_prover]
    pub fn on_chunk<A: LineCallback<E>, B: LineCallback<E>>(
        &mut self,
        is_out: bool,
        data: &mut Vec<u8>,
        eof: bool,
        on_out: &mut A,
        on_err: &mut B,
    )
        requires
            old(self)@.wf(),
        ensures
            final(self)@.wf(),
            ({
                let k = ready_len(old(data)@, eof);
                let region = old(data)@.subrange(0, k);
                let texts = tagged(is_out, line_texts(region));
                &&& final(data)@ == old(data)@.subrange(k, old(data)@.len() as int)
                &&& final(self)@.capture == old(self)@.capture
                &&& final(self)@.stdout == if old(self)@.capture && is_out {
                    old(self)@.stdout + region
                } else {
                    old(self)@.stdout
                }
                &&& final(self)@.stderr == if old(self)@.capture && !is_out {
                    old(self)@.stderr + region
                } else {
                    old(self)@.stderr
                }
                &&& final(self)@.out_seen == if is_out {
                    old(self)@.out_seen + region
                } else {
                    old(self)@.out_seen
                }
                &&& final(self)@.err_seen == if !is_out {
                    old(self)@.err_seen + region
                } else {
                    old(self)@.err_seen
                }
                &&& final(self)@.out_ended == (old(self)@.out_ended || (is_out && eof))
                &&& final(self)@.err_ended == (old(self)@.err_ended || (!is_out && eof))
                &&& final(self)@.out_overrun == (old(self)@.out_overrun || (is_out && old(self)@.out_ended
                    && region.len() > 0))
                &&& final(self)@.err_overrun == (old(self)@.err_overrun || (!is_out && old(self)@.err_ended
                    && region.len() > 0))
                &&& old(self)@.failed ==> final(self)@.failed && final(self)@.error == old(self)@.error
                    && final(self)@.calls == old(self)@.calls
                &&& !old(self)@.failed ==> exists|m: int|
                    0 <= m <= texts.len() && final(self)@.calls == old(self)@.calls + texts.subrange(0, m)
                        && (!final(self)@.failed ==> m == texts.len())
                        && (final(self)@.failed ==> m >= 1)
            }),
    {
        let ghost v0 = self@;
        let ghost d0 = data@;
        let k = find_ready_len(data, eof);
        let mut region = data.split_off(0);
        let rest = region.split_off(k);
        let mut rest = rest;
        data.append(&mut rest);
        proof {
            assert(data@ =~= d0.subrange(k as int, d0.len() as int));
            assert(region@ =~= d0.subrange(0, k as int));
        }
        let ghost r = region@;
        let m = self.dispatch_lines(is_out, &region, on_out, on_err);
        let ghost m = m@;
        if self.capture {
            if is_out {
                self.stdout.append(&mut region);
            } else {
                self.stderr.append(&mut region);
            }
        }
        proof {
            let texts = tagged(is_out, line_texts(r));
            assert(self@.calls == v0.calls + texts.subrange(0, m));
            if is_out {
                self.out_overrun@ = self.out_overrun@ || (self.out_ended@ && r.len() > 0);
                self.out_seen@ = self.out_seen@ + r;
                self.out_ended@ = self.out_ended@ || eof;
            } else {
                self.err_overrun@ = self.err_overrun@ || (self.err_ended@ && r.len() > 0);
                self.err_seen@ = self.err_seen@ + r;
                self.err_ended@ = self.err_ended@ || eof;
            }
            lemma_last_newline_end_is_nl(d0);
            lemma_split_rejoin(d0);
            if !eof && r.len() > 0 {
                assert(r.last() == d0[k - 1]);
            }
            lemma_stream_step(v0, self@, is_out, true, r, eof, m);
            lemma_stream_step(v0, self@, is_out, false, r, eof, m);
        }
    }

    /// Composes the outcome of the run once the process has exited with
    /// `status`. A callback failure outranks a non-zero exit; every failure
    /// carries the status, and the output where it was captured.
    pub fn finish(self, b: &ProcessBuilder, status: ExitStatus, style: ShellStyle) -> (r: Result<
        Output,
        StreamingError<E>,
    >)
        requires
            self@.wf(),
        ensures
            r matches Err(StreamingError::Callback(c, _)) ==> self@.error == Some(c),
            r matches Ok(o) ==> !self@.failed && status.success && run_output(o, self@, status),
            r matches Err(StreamingError::Callback(_, e)) ==> self@.failed && e.kind == ErrorKind::Callback
                && e.desc@ == failed_to_parse(b@, style) && attached(e, self@, status),
            r matches Err(StreamingError::Process(e)) ==> !self@.failed && !status.success && e.kind
                == ErrorKind::NonZeroExit && e.desc@ == not_successful(b@, style) && attached(e, self@, status),
            r is Ok <==> !self@.failed && status.success,
            r matches Err(StreamingError::Callback(_, _)) <==> self@.failed,
    {
        let ghost v = self@;
        let LineDispatcher { capture, stdout, stderr, error, .. } = self;
        let output = Output { stdout, stderr, status };
        match error {
            Some(cause) => {
                let shown = if capture { Some(output) } else { None };
                let mut desc = "failed to parse process output: ".to_owned();
                let r = b.render(style);
                desc.append(r.as_str());
                Err(StreamingError::Callback(cause, ProcessError {
                    kind: ErrorKind::Callback,
                    desc,
                    status: Some(status),
                    output: shown,
                }))
            },
            None => {
                if status.success {
                    Ok(output)
                } else {
                    let shown = if capture { Some(output) } else { None };
                    let mut desc = "process didn't exit successfully: ".to_owned();
                    let r = b.render(style);
                    desc.append(r.as_str());
                    Err(StreamingError::Process(ProcessError {
                        kind: ErrorKind::NonZeroExit,
                        desc,
                        status: Some(status),
                        output: shown,
                    }))
                }
            },
        }
    }
}

} // verus!
