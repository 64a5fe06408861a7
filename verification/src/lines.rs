//! The line reader: from a byte stream, whatever its line endings, to lines.
//!
//! A line ends with `\n`, with `\r`, or with `\r\n`, and the stream may end
//! in a last line that has no ending. The reader is handed the bytes that a
//! source has available, piece by piece, and says how many of them it used;
//! the lines that come out do not depend on where the pieces were cut.

use vstd::prelude::*;
use vstd::utf8::*;

use crate::error::Error;

verus! {

/// Carriage return.
pub const CR: u8 = 0x0D;

/// Line feed.
pub const LF: u8 = 0x0A;

/// Is `b` one of the two bytes that end a line?
pub open spec fn is_break(b: u8) -> bool {
    b == CR || b == LF
}

/// How many bytes stand in front of the first line break of `s`: all of
/// them where `s` holds none.
pub open spec fn run_length(s: Seq<u8>) -> nat
    decreases s.len(),
{
    if s.len() == 0 || is_break(s[0]) {
        0
    } else {
        1 + run_length(s.drop_first())
    }
}

/// The width of the line ending that starts at `at`: 2 for a `\r` with a
/// `\n` right behind it, else 1.
pub open spec fn break_width(s: Seq<u8>, at: int) -> int {
    if s[at] == CR && at + 1 < s.len() && s[at + 1] == LF {
        2
    } else {
        1
    }
}

/// The lines of a whole stream. A last line without an ending counts when
/// it holds something.
pub open spec fn split_lines(s: Seq<u8>) -> Seq<Seq<u8>>
    decreases s.len(),
{
    let e = run_length(s) as int;
    if e >= s.len() {
        if s.len() == 0 {
            Seq::empty()
        } else {
            seq![s]
        }
    } else {
        seq![s.take(e)] + split_lines(s.skip(e + break_width(s, e)))
    }
}

/// What a line reader remembers between two pieces of its input.
pub struct LinesView {
    /// The bytes of the line that is not complete yet.
    pub pending: Seq<u8>,
    /// The last line ended with a `\r` that was the last byte seen: a `\n`
    /// that comes next belongs to that ending.
    pub after_cr: bool,
}

impl LinesView {
    /// The reader at the start of a stream.
    pub open spec fn start() -> LinesView {
        LinesView { pending: Seq::empty(), after_cr: false }
    }
}

/// `rest` without the `\n` that completes an ending begun by a `\r`.
pub open spec fn skip_pending_lf(after_cr: bool, rest: Seq<u8>) -> Seq<u8> {
    if after_cr && rest.len() > 0 && rest[0] == LF {
        rest.skip(1)
    } else {
        rest
    }
}

/// The lines of `pending` followed by `r`, where `pending` holds the start
/// of the first of them.
pub open spec fn lines_after(pending: Seq<u8>, r: Seq<u8>) -> Seq<Seq<u8>> {
    let e = run_length(r) as int;
    if e >= r.len() {
        if pending.len() + r.len() == 0 {
            Seq::empty()
        } else {
            seq![pending + r]
        }
    } else {
        seq![pending + r.take(e)] + split_lines(r.skip(e + break_width(r, e)))
    }
}

/// The lines that a reader in state `st` gives when `rest` is all that is
/// left of its stream.
pub open spec fn lines_from(st: LinesView, rest: Seq<u8>) -> Seq<Seq<u8>> {
    lines_after(st.pending, skip_pending_lf(st.after_cr, rest))
}

/// One look at the bytes that are available: the state after it, whether a
/// line is complete, and how many of the bytes were used.
pub open spec fn scan(st: LinesView, available: Seq<u8>) -> (LinesView, bool, int) {
    let r = skip_pending_lf(st.after_cr, available);
    let e = run_length(r) as int;
    if e >= r.len() {
        (
            LinesView {
                pending: st.pending + r,
                after_cr: st.after_cr && available.len() == 0,
            },
            false,
            available.len() as int,
        )
    } else {
        (
            LinesView {
                pending: st.pending + r.take(e),
                after_cr: r[e] == CR && e + 1 == r.len(),
            },
            true,
            available.len() - r.len() + e + break_width(r, e),
        )
    }
}

/// One step of the reader on the bytes that are available: the state after
/// it, how many bytes were used, and the line that became complete, if one
/// did.
pub open spec fn advance_lines(st: LinesView, available: Seq<u8>) -> (
    LinesView,
    int,
    Option<Seq<u8>>,
) {
    let (mid, done, used) = scan(st, available);
    if done {
        (LinesView { pending: Seq::empty(), after_cr: mid.after_cr }, used, Some(mid.pending))
    } else {
        (mid, used, None)
    }
}

/// The line that the end of the stream completes: what is pending, if
/// anything is.
pub open spec fn finish_lines(st: LinesView) -> Option<Seq<u8>> {
    if st.pending.len() == 0 {
        None
    } else {
        Some(st.pending)
    }
}

/// No line or one line, as a sequence.
pub open spec fn optional_line(line: Option<Seq<u8>>) -> Seq<Seq<u8>> {
    match line {
        Some(l) => seq![l],
        None => Seq::empty(),
    }
}

/// The text of a line, or the failure to read it as text.
pub open spec fn line_text(bytes: Seq<u8>) -> Result<Seq<char>, Error> {
    if valid_utf8(bytes) {
        Ok(decode_utf8(bytes))
    } else {
        Err(Error::InvalidEncoding)
    }
}

/// What an executable line holds.
pub open spec fn text_of(line: Result<String, Error>) -> Result<Seq<char>, Error> {
    match line {
        Ok(s) => Ok(s@),
        Err(e) => Err(e),
    }
}

/// `memchr::memchr2`: the place of the first byte of `haystack` that equals
/// one of the two needles, or `None` where no byte does.
#[verifier::external_body]
fn memchr2(needle1: u8, needle2: u8, haystack: &[u8]) -> (found: Option<usize>)
    ensures
        match found {
            Some(i) => {
                &&& i < haystack@.len()
                &&& haystack@[i as int] == needle1 || haystack@[i as int] == needle2
                &&& forall|j: int|
                    0 <= j < i ==> #[trigger] haystack@[j] != needle1 && haystack@[j] != needle2
            },
            None => forall|j: int|
                0 <= j < haystack@.len() ==> #[trigger] haystack@[j] != needle1 && haystack@[j]
                    != needle2,
        },
{
    memchr::memchr2(needle1, needle2, haystack)
}

/// `String::from_utf8`: the text that `bytes` encode, or `None` where they
/// are not valid UTF-8.
#[verifier::external_body]
fn string_from_utf8(bytes: Vec<u8>) -> (text: Option<String>)
    ensures
        text is Some <==> valid_utf8(bytes@),
        text is Some ==> text.unwrap()@ == decode_utf8(bytes@),
{
    match String::from_utf8(bytes) {
        Ok(s) => Some(s),
        Err(_) => None,
    }
}

/// A reader of lines. It holds the bytes of the line that is not complete
/// yet; the source of the bytes stays with the caller.
#[derive(Debug)]
pub struct Lines {
    bytes: Vec<u8>,
    after_cr: bool,
}

impl View for Lines {
    type V = LinesView;

    closed spec fn view(&self) -> LinesView {
        LinesView { pending: self.bytes@, after_cr: self.after_cr }
    }
}

/// What one step of the reader did.
#[derive(Debug)]
pub struct LineStep {
    /// How many of the available bytes the step used. The caller takes them
    /// off its source.
    pub used: usize,
    /// The line that the step completed, if it completed one.
    pub line: Option<Result<String, Error>>,
}

/// What an executable step found, in the terms of `advance_lines`.
pub open spec fn found_line(line: Option<Result<String, Error>>) -> Option<
    Result<Seq<char>, Error>,
> {
    match line {
        Some(l) => Some(text_of(l)),
        None => None,
    }
}

/// The text of the line that a step of the model found.
pub open spec fn found_text(line: Option<Seq<u8>>) -> Option<Result<Seq<char>, Error>> {
    match line {
        Some(l) => Some(line_text(l)),
        None => None,
    }
}

impl Lines {
    /// A reader at the start of a stream.
    pub fn new() -> (lines: Lines)
        ensures
            lines@ == LinesView::start(),
    {
        Lines { bytes: Vec::new(), after_cr: false }
    }

    /// Looks for the end of the current line in `available` and keeps what
    /// belongs to the line. Says whether the line is complete and how many
    /// bytes were used.
    fn read_until(&mut self, available: &[u8]) -> (found: (bool, usize))
        ensures
            (final(self)@, found.0, found.1 as int) == scan(old(self)@, available@),
    {
        let n = available.len();
        let mut start: usize = 0;
        if self.after_cr && n > 0 {
            self.after_cr = false;
            if available[0] == LF {
                start = 1;
            }
        }
        let rest = &available[start..n];
        proof {
            assert(rest@ =~= skip_pending_lf(old(self)@.after_cr, available@));
            lemma_run_length(rest@);
        }
        match memchr2(CR, LF, rest) {
            Some(i) => {
                proof {
                    lemma_run_length_is(rest@, i as int);
                }
                let head = &rest[0..i];
                self.bytes.extend_from_slice(head);
                assert(self.bytes@ =~= old(self)@.pending + rest@.take(i as int));
                let mut used = start + i + 1;
                if rest[i] == CR {
                    if i + 1 < rest.len() {
                        if rest[i + 1] == LF {
                            used = used + 1;
                        }
                    } else {
                        self.after_cr = true;
                    }
                }
                (true, used)
            },
            None => {
                proof {
                    lemma_run_length_is(rest@, rest@.len() as int);
                }
                self.bytes.extend_from_slice(rest);
                assert(self.bytes@ =~= old(self)@.pending + rest@);
                (false, n)
            },
        }
    }

    /// Hands out the pending bytes as a line of text and starts the next
    /// line. Bytes that are not valid UTF-8 are an error, and are dropped.
    fn take_line(&mut self) -> (line: Result<String, Error>)
        ensures
            text_of(line) == line_text(old(self)@.pending),
            final(self)@ == (LinesView {
                pending: Seq::empty(),
                after_cr: old(self)@.after_cr,
            }),
    {
        let mut bytes: Vec<u8> = Vec::new();
        core::mem::swap(&mut self.bytes, &mut bytes);
        match string_from_utf8(bytes) {
            Some(s) => Ok(s),
            None => Err(Error::InvalidEncoding),
        }
    }

    /// One step on the bytes that the source has available. The step ends
    /// with the first line that becomes complete, or else when all the
    /// bytes are used.
    ///
    /// No bytes are no step: at the end of the stream, call `finish`.
    pub fn advance(&mut self, available: &[u8]) -> (step: LineStep)
        ensures
            ({
                let (next, used, line) = advance_lines(old(self)@, available@);
                &&& final(self)@ == next
                &&& step.used == used
                &&& found_line(step.line) == found_text(line)
            }),
    {
        let (done, used) = self.read_until(available);
        if done {
            let line = self.take_line();
            LineStep { used, line: Some(line) }
        } else {
            LineStep { used, line: None }
        }
    }

    /// The end of the stream: hands out the last line, where the stream
    /// ended in a line without an ending. After it nothing is pending.
    pub fn finish(&mut self) -> (line: Option<Result<String, Error>>)
        ensures
            found_line(line) == found_text(finish_lines(old(self)@)),
            final(self)@ == (LinesView {
                pending: Seq::empty(),
                after_cr: old(self)@.after_cr,
            }),
    {
        if self.bytes.len() == 0 {
            assert(self.bytes@ =~= Seq::empty());
            None
        } else {
            Some(self.take_line())
        }
    }
}

/// `run_length` is the place of the first line break.
pub proof fn lemma_run_length(s: Seq<u8>)
    ensures
        run_length(s) <= s.len(),
        forall|j: int| 0 <= j < run_length(s) ==> !is_break(#[trigger] s[j]),
        run_length(s) < s.len() ==> is_break(s[run_length(s) as int]),
    decreases s.len(),
{
    if s.len() == 0 || is_break(s[0]) {
    } else {
        let t = s.drop_first();
        lemma_run_length(t);
        assert forall|j: int| 0 <= j < run_length(s) implies !is_break(#[trigger] s[j]) by {
            if j > 0 {
                assert(s[j] == t[j - 1]);
            }
        }
        assert(run_length(s) < s.len() ==> s[run_length(s) as int] == t[run_length(t) as int]);
    }
}

/// A place in front of which no line break stands, and which holds one or
/// is the end, is `run_length`.
pub proof fn lemma_run_length_is(s: Seq<u8>, k: int)
    requires
        0 <= k <= s.len(),
        forall|j: int| 0 <= j < k ==> !is_break(#[trigger] s[j]),
        k < s.len() ==> is_break(s[k]),
    ensures
        run_length(s) == k,
{
    lemma_run_length(s);
    let e = run_length(s) as int;
    if e < k {
        assert(!is_break(s[e]));
    } else if k < e {
        assert(!is_break(s[k]));
    }
}

/// The first line break of two pieces put together: that of the first
/// piece, or else that of the second.
pub proof fn lemma_run_length_concat(a: Seq<u8>, b: Seq<u8>)
    ensures
        run_length(a + b) == if run_length(a) < a.len() {
            run_length(a)
        } else {
            a.len() + run_length(b)
        },
{
    lemma_run_length(a);
    lemma_run_length(b);
    let s = a + b;
    let k: int = if run_length(a) < a.len() {
        run_length(a) as int
    } else {
        (a.len() + run_length(b)) as int
    };
    assert forall|j: int| 0 <= j < k implies !is_break(#[trigger] s[j]) by {
        if j < a.len() {
            assert(s[j] == a[j]);
        } else {
            assert(s[j] == b[j - a.len()]);
        }
    }
    if k < s.len() {
        if run_length(a) < a.len() {
            assert(s[k] == a[k]);
        } else {
            assert(s[k] == b[k - a.len()]);
        }
    }
    lemma_run_length_is(s, k);
}

/// With nothing pending, the lines are those of the stream.
pub proof fn lemma_lines_after_nothing(s: Seq<u8>)
    ensures
        lines_after(Seq::empty(), s) == split_lines(s),
{
    lemma_run_length(s);
    let e = run_length(s) as int;
    let nothing = Seq::<u8>::empty();
    if e >= s.len() {
        assert(nothing + s =~= s);
    } else {
        assert(nothing + s.take(e) =~= s.take(e));
    }
}

/// Does `ending` end a line in front of `rest`? The three endings are
/// `\n`, `\r\n`, and `\r` where no `\n` follows it.
pub open spec fn ends_line(ending: Seq<u8>, rest: Seq<u8>) -> bool {
    ||| ending == seq![LF]
    ||| ending == seq![CR, LF]
    ||| ending == seq![CR] && (rest.len() > 0 ==> rest[0] != LF)
}

/// The three line endings are alike: bytes without a line break, followed
/// by any of the endings, are the first line of the stream; the other
/// lines are those of what stands behind the ending.
pub proof fn lemma_split_first_line(line: Seq<u8>, ending: Seq<u8>, rest: Seq<u8>)
    requires
        run_length(line) == line.len(),
        ends_line(ending, rest),
    ensures
        split_lines(line + ending + rest) == seq![line] + split_lines(rest),
{
    let s = line + ending + rest;
    let n = line.len() as int;
    lemma_run_length(line);
    assert forall|j: int| 0 <= j < n implies !is_break(#[trigger] s[j]) by {
        assert(s[j] == line[j]);
    }
    assert(s[n] == ending[0]);
    lemma_run_length_is(s, n);
    if ending.len() == 2 {
        assert(s[n + 1] == ending[1]);
    } else if rest.len() > 0 {
        assert(s[n + 1] == rest[0]);
    }
    assert(break_width(s, n) == ending.len());
    assert(s.take(n) =~= line);
    assert(s.skip(n + ending.len()) =~= rest);
}

/// A reader at the start of a stream gives the lines of the stream.
pub proof fn lemma_lines_from_start(s: Seq<u8>)
    ensures
        lines_from(LinesView::start(), s) == split_lines(s),
{
    lemma_lines_after_nothing(s);
}

/// Bytes without a line break may as well be pending already.
pub proof fn lemma_lines_after_run(pending: Seq<u8>, r: Seq<u8>, x: Seq<u8>)
    requires
        run_length(r) == r.len(),
    ensures
        lines_after(pending, r + x) == lines_after(pending + r, x),
{
    lemma_run_length_concat(r, x);
    lemma_run_length(x);
    let s = r + x;
    let ex = run_length(x) as int;
    let e = r.len() + ex;
    if ex >= x.len() {
        assert(pending + s =~= (pending + r) + x);
    } else {
        assert(s[e] == x[ex]);
        if ex + 1 < x.len() {
            assert(s[e + 1] == x[ex + 1]);
        }
        assert(break_width(s, e) == break_width(x, ex));
        assert(pending + s.take(e) =~= (pending + r) + x.take(ex));
        assert(s.skip(e + break_width(s, e)) =~= x.skip(ex + break_width(x, ex)));
    }
}

/// Where the input is cut changes nothing: a reader that is handed
/// `available` now and `rest` later gives the lines that it would give on
/// the two together.
pub proof fn lemma_advance_lines(st: LinesView, available: Seq<u8>, rest: Seq<u8>)
    ensures
        ({
            let (next, used, line) = advance_lines(st, available);
            &&& 0 <= used <= available.len()
            &&& available.len() > 0 ==> used > 0
            &&& lines_from(st, available + rest) == optional_line(line) + lines_from(
                next,
                available.skip(used) + rest,
            )
        }),
{
    let (next, used, line) = advance_lines(st, available);
    let r = skip_pending_lf(st.after_cr, available);
    let e = run_length(r) as int;
    lemma_run_length(r);
    if available.len() == 0 {
        assert(available + rest =~= rest);
        assert(available.skip(0) + rest =~= rest);
        assert(st.pending + r =~= st.pending);
    } else {
        let whole = skip_pending_lf(st.after_cr, available + rest);
        assert((available + rest)[0] == available[0]);
        assert(whole =~= r + rest);
        if e >= r.len() {
            assert(available.skip(used) + rest =~= rest);
            lemma_lines_after_run(st.pending, r, rest);
        } else {
            lemma_run_length_concat(r, rest);
            let w = break_width(r, e);
            assert(whole[e] == r[e]);
            assert(whole.take(e) =~= r.take(e));
            if r[e] == CR && e + 1 == r.len() {
                assert(available.skip(used) + rest =~= rest);
                if rest.len() > 0 && rest[0] == LF {
                    assert(whole[e + 1] == rest[0]);
                    assert(whole.skip(e + 2) =~= rest.skip(1));
                    lemma_lines_after_nothing(rest.skip(1));
                } else {
                    if rest.len() > 0 {
                        assert(whole[e + 1] == rest[0]);
                    }
                    assert(whole.skip(e + 1) =~= rest);
                    lemma_lines_after_nothing(rest);
                }
            } else {
                if e + 1 < r.len() {
                    assert(whole[e + 1] == r[e + 1]);
                }
                assert(break_width(whole, e) == w);
                assert(available.skip(used) =~= r.skip(e + w));
                assert(whole.skip(e + w) =~= r.skip(e + w) + rest);
                lemma_lines_after_nothing(r.skip(e + w) + rest);
            }
        }
    }
}

/// At the end of the stream the reader gives what is pending, and nothing
/// after it.
pub proof fn lemma_finish_lines(st: LinesView)
    ensures
        lines_from(st, Seq::empty()) == optional_line(finish_lines(st)),
{
    let nothing = Seq::<u8>::empty();
    assert(skip_pending_lf(st.after_cr, nothing) == nothing);
    assert(st.pending + nothing =~= st.pending);
}

} // verus!
