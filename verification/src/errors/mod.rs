//! Diagnostics: collecting errors, ordering them, and locating them in the source.
use crate::lexer::Span;
use crate::text::{byte_len, byte_offset, chars_of, lemma_offset_end, lemma_offset_mono,
    lemma_offset_step, lemma_offset_zero, str_slice, utf8_width};
use vstd::prelude::*;
use vstd::multiset::Multiset;
use vstd::string::StringSliceAdditionalSpecFns;

verus! {

/// A message about a span of the source.
#[derive(Debug)]
pub struct Error {
    pub message: String,
    pub span: Span,
}

/// Span `a` comes no later than span `b`: by start, then by end.
pub open spec fn span_le(a: Span, b: Span) -> bool {
    a.start < b.start || (a.start == b.start && a.end <= b.end)
}

fn span_le_exec(a: Span, b: Span) -> (r: bool)
    ensures
        r == span_le(a, b),
{
    a.start < b.start || (a.start == b.start && a.end <= b.end)
}

/// The errors of `s` whose span is `sp`, in order.
pub open spec fn with_span(s: Seq<Error>, sp: Span) -> Seq<Error>
    decreases s.len(),
{
    if s.len() == 0 {
        Seq::empty()
    } else if s.last().span == sp {
        with_span(s.drop_last(), sp).push(s.last())
    } else {
        with_span(s.drop_last(), sp)
    }
}

/// The errors are ordered by span.
pub open spec fn sorted_by_span(s: Seq<Error>) -> bool {
    forall|i: int, j: int| 0 <= i < j < s.len() ==> span_le(#[trigger] s[i].span, #[trigger] s[j].span)
}

/// `t` holds the errors of `s` ordered by span, errors with equal spans in their order in `s`.
pub open spec fn stable_sorted(s: Seq<Error>, t: Seq<Error>) -> bool {
    &&& sorted_by_span(t)
    &&& forall|sp: Span| #[trigger] with_span(t, sp) == with_span(s, sp)
}

proof fn lemma_with_span_concat(a: Seq<Error>, b: Seq<Error>, sp: Span)
    ensures
        with_span(a + b, sp) == with_span(a, sp) + with_span(b, sp),
    decreases b.len(),
{
    if b.len() == 0 {
        assert(a + b =~= a);
        assert(with_span(a, sp) + with_span(b, sp) =~= with_span(a, sp));
    } else {
        assert((a + b).drop_last() =~= a + b.drop_last());
        assert((a + b).last() == b.last());
        lemma_with_span_concat(a, b.drop_last(), sp);
        if b.last().span == sp {
            assert(with_span(a, sp) + with_span(b, sp) =~= (with_span(a, sp) + with_span(
                b.drop_last(),
                sp,
            )).push(b.last()));
        }
    }
}

proof fn lemma_with_span_none(s: Seq<Error>, sp: Span)
    requires
        forall|i: int| 0 <= i < s.len() ==> (#[trigger] s[i]).span != sp,
    ensures
        with_span(s, sp) == Seq::<Error>::empty(),
    decreases s.len(),
{
    if s.len() > 0 {
        lemma_with_span_none(s.drop_last(), sp);
    }
}

proof fn lemma_with_span_single(x: Error, sp: Span)
    ensures
        with_span(seq![x], sp) == (if x.span == sp { seq![x] } else { Seq::<Error>::empty() }),
{
    reveal_with_fuel(with_span, 2);
    assert(seq![x].drop_last() =~= Seq::<Error>::empty());
    assert(seq![x].last() == x);
    assert(Seq::<Error>::empty().push(x) =~= seq![x]);
}

/// A message and the span it is about, as plain values.
pub open spec fn error_view(e: Error) -> (Seq<char>, Span) {
    (e.message@, e.span)
}

/// Adding the report `m` to `ms`: kept unless the last report has the same span.
pub open spec fn add_report(ms: Seq<(Seq<char>, Span)>, m: (Seq<char>, Span)) -> Seq<(Seq<char>, Span)> {
    if ms.len() > 0 && ms.last().1 == m.1 {
        ms
    } else {
        ms.push(m)
    }
}

/// Adding the reports `new`, in order, to `ms`.
pub open spec fn add_reports(ms: Seq<(Seq<char>, Span)>, new: Seq<(Seq<char>, Span)>) -> Seq<(Seq<char>, Span)>
    decreases new.len(),
{
    if new.len() == 0 {
        ms
    } else {
        add_report(add_reports(ms, new.drop_last()), new.last())
    }
}

/// Adding two runs of reports adds their concatenation.
pub proof fn lemma_add_reports_concat(
    ms: Seq<(Seq<char>, Span)>,
    a: Seq<(Seq<char>, Span)>,
    b: Seq<(Seq<char>, Span)>,
)
    ensures
        add_reports(add_reports(ms, a), b) == add_reports(ms, a + b),
    decreases b.len(),
{
    if b.len() == 0 {
        assert(a + b =~= a);
    } else {
        lemma_add_reports_concat(ms, a, b.drop_last());
        assert((a + b).drop_last() =~= a + b.drop_last());
        assert((a + b).last() == b.last());
    }
}

/// Adding one report is adding a run of one.
pub proof fn lemma_add_reports_single(ms: Seq<(Seq<char>, Span)>, m: (Seq<char>, Span))
    ensures
        add_reports(ms, seq![m]) == add_report(ms, m),
{
    reveal_with_fuel(add_reports, 2);
    assert(seq![m].drop_last() =~= Seq::<(Seq<char>, Span)>::empty());
    assert(seq![m].last() == m);
}

/// Adding no report changes nothing.
pub proof fn lemma_add_reports_empty(ms: Seq<(Seq<char>, Span)>)
    ensures
        add_reports(ms, Seq::empty()) == ms,
{
}

/// The errors collected so far, in the order they were added.
pub struct Errors {
    errors: Vec<Error>,
}

impl View for Errors {
    type V = Seq<Error>;

    closed spec fn view(&self) -> Seq<Error> {
        self.errors@
    }
}

impl Errors {
    /// The messages and spans of the errors, in order.
    pub open spec fn reports(&self) -> Seq<(Seq<char>, Span)> {
        self@.map_values(|e: Error| error_view(e))
    }

    /// No errors.
    pub fn new() -> (r: Self)
        ensures
            r@ == Seq::<Error>::empty(),
    {
        Errors { errors: Vec::new() }
    }

    /// Adds an error, unless the last error has the same span (one error per place).
    pub fn add(&mut self, message: String, span: Span)
        ensures
            final(self).reports() == add_report(old(self).reports(), (message@, span)),
            old(self)@.len() > 0 && old(self)@.last().span == span ==> final(self)@ == old(self)@,
            !(old(self)@.len() > 0 && old(self)@.last().span == span) ==> final(self)@ == old(
                self,
            )@.push(Error { message, span }),
    {
        let n = self.errors.len();
        if n > 0 && self.errors[n - 1].span == span {
            return ;
        }
        let ghost m = message@;
        self.errors.push(Error { message, span });
        proof {
            assert(self@.map_values(|e: Error| error_view(e)) =~= old(self)@.map_values(
                |e: Error| error_view(e),
            ).push((m, span)));
        }
    }

    /// Orders the errors by span (start, then end); errors with equal spans keep
    /// their order.
    pub fn sort(&mut self)
        ensures
            stable_sorted(old(self)@, final(self)@),
            final(self)@.to_multiset() == old(self)@.to_multiset(),
    {
        let ghost orig = self.errors@;
        let mut rest: Vec<Error> = Vec::new();
        std::mem::swap(&mut rest, &mut self.errors);
        let mut sorted: Vec<Error> = Vec::new();
        let n = rest.len();
        let mut i: usize = 0;
        proof {
            assert(orig.take(0) =~= Seq::<Error>::empty());
            assert(rest@.subrange(0, 0) =~= Seq::<Error>::empty());
        }
        // Take the errors from the back of `rest`, so build the reverse first.
        let mut rev: Vec<Error> = Vec::new();
        while rest.len() > 0
            invariant
                rest@ + rev@.reverse() == orig,
            decreases rest.len(),
        {
            let ghost r0 = rest@;
            let ghost v0 = rev@;
            let e = rest.pop().unwrap();
            rev.push(e);
            proof {
                assert(rev@.reverse() =~= seq![e] + v0.reverse());
                assert(r0 =~= rest@.push(e));
                assert(rest@ + rev@.reverse() =~= r0 + v0.reverse());
            }
        }
        proof {
            assert(rest@ =~= Seq::<Error>::empty());
            assert(rev@.reverse() =~= orig);
        }
        let ghost total = rev@.len();
        while rev.len() > 0
            invariant
                total == orig.len(),
                rev@.len() <= total,
                rev@.reverse() == orig.subrange(total - rev@.len(), total as int),
                sorted_by_span(sorted@),
                forall|sp: Span|
                    #[trigger] with_span(sorted@, sp) == with_span(
                        orig.take(total - rev@.len()),
                        sp,
                    ),
                sorted@.to_multiset() == orig.take(total - rev@.len()).to_multiset(),
            decreases rev.len(),
        {
            let ghost v0 = rev@;
            let ghost done = total - v0.len();
            let x = rev.pop().unwrap();
            proof {
                assert(v0 =~= rev@.push(x));
                assert(v0.reverse() =~= seq![x] + rev@.reverse());
                assert(orig[done] == x) by {
                    assert(v0.reverse()[0] == orig.subrange(done, total as int)[0]);
                }
                assert(rev@.reverse() =~= orig.subrange(done + 1, total as int)) by {
                    assert(rev@.reverse() =~= v0.reverse().subrange(1, v0.len() as int));
                    assert(orig.subrange(done + 1, total as int) =~= orig.subrange(
                        done,
                        total as int,
                    ).subrange(1, v0.len() as int));
                }
            }
            // The position after every error whose span is not later than that of `x`.
            let mut p: usize = 0;
            while p < sorted.len() && span_le_exec(sorted[p].span, x.span)
                invariant
                    sorted_by_span(sorted@),
                    p <= sorted@.len(),
                    forall|k: int| 0 <= k < p ==> span_le(#[trigger] sorted@[k].span, x.span),
                decreases sorted.len() - p,
            {
                p = p + 1;
            }
            let ghost s0 = sorted@;
            proof {
                assert forall|k: int| p <= k < s0.len() implies !span_le(
                    #[trigger] s0[k].span,
                    x.span,
                ) by {
                    assert(!span_le(s0[p as int].span, x.span));
                    if k > p {
                        assert(span_le(s0[p as int].span, s0[k].span));
                    }
                }
            }
            sorted.insert(p, x);
            proof {
                let a = s0.subrange(0, p as int);
                let b = s0.subrange(p as int, s0.len() as int);
                assert(sorted@ =~= a + seq![x] + b);
                assert(s0 =~= a + b);
                assert(orig.take(done + 1) =~= orig.take(done) + seq![x]);
                assert forall|sp: Span| #[trigger]
                    with_span(sorted@, sp) == with_span(orig.take(done + 1), sp) by {
                    lemma_with_span_concat(a + seq![x], b, sp);
                    lemma_with_span_concat(a, seq![x], sp);
                    lemma_with_span_concat(a, b, sp);
                    lemma_with_span_concat(orig.take(done), seq![x], sp);
                    lemma_with_span_single(x, sp);
                    if x.span == sp {
                        assert forall|k: int| 0 <= k < b.len() implies (#[trigger] b[k]).span
                            != sp by {
                            assert(b[k] == s0[p + k]);
                        }
                        lemma_with_span_none(b, sp);
                        assert(with_span(b, sp) =~= Seq::<Error>::empty());
                        assert(with_span(a, sp) + with_span(seq![x], sp) + with_span(b, sp)
                            =~= with_span(a, sp) + with_span(b, sp) + with_span(seq![x], sp));
                    } else {
                        assert(with_span(a, sp) + with_span(seq![x], sp) =~= with_span(a, sp));
                        assert(with_span(orig.take(done), sp) + with_span(seq![x], sp) =~= with_span(
                            orig.take(done),
                            sp,
                        ));
                    }
                }
                assert forall|i: int, j: int| 0 <= i < j < sorted@.len() implies span_le(
                    #[trigger] sorted@[i].span,
                    #[trigger] sorted@[j].span,
                ) by {
                    if j < p {
                    } else if j == p {
                        assert(sorted@[j] == x);
                        assert(sorted@[i] == s0[i]);
                    } else if i < p {
                        assert(sorted@[j] == s0[j - 1]);
                        assert(sorted@[i] == s0[i]);
                    } else if i == p {
                        assert(sorted@[j] == s0[j - 1]);
                        assert(!span_le(s0[j - 1].span, x.span));
                    } else {
                        assert(sorted@[j] == s0[j - 1]);
                        assert(sorted@[i] == s0[i - 1]);
                    }
                }
                assert(sorted@.to_multiset() == orig.take(done + 1).to_multiset()) by {
                    broadcast use vstd::seq_lib::group_to_multiset_ensures;

                    vstd::seq_lib::lemma_multiset_commutative(a + seq![x], b);
                    vstd::seq_lib::lemma_multiset_commutative(a, seq![x]);
                    vstd::seq_lib::lemma_multiset_commutative(a, b);
                    vstd::seq_lib::lemma_multiset_commutative(orig.take(done), seq![x]);
                    assert(seq![x].to_multiset() =~= Multiset::singleton(x)) by {
                        assert(seq![x] =~= Seq::<Error>::empty().push(x));
                    }
                }
            }
        }
        proof {
            assert(orig.take(total as int) =~= orig);
        }
        self.errors = sorted;
    }

    /// The errors, in their present order.
    pub fn as_slice(&self) -> (r: &[Error])
        ensures
            r@ == self@,
    {
        self.errors.as_slice()
    }

    /// The number of errors.
    pub fn len(&self) -> (r: usize)
        ensures
            r == self@.len(),
    {
        self.errors.len()
    }
}

impl Default for Errors {
    fn default() -> (r: Self)
        ensures
            r@ == Seq::<Error>::empty(),
    {
        Errors::new()
    }
}

/// Character position `k` of `s` begins a line: it is the first character, or
/// the one after a newline.
pub open spec fn begins_line(s: Seq<char>, k: int) -> bool {
    0 <= k < s.len() && (k == 0 || s[k - 1] == '\n')
}

/// The character positions among the first `n` of `s` that begin a line, in order.
pub open spec fn line_starts_upto(s: Seq<char>, n: int) -> Seq<int>
    decreases n,
{
    if n <= 0 {
        Seq::empty()
    } else if begins_line(s, n - 1) {
        line_starts_upto(s, n - 1).push(n - 1)
    } else {
        line_starts_upto(s, n - 1)
    }
}

/// The character positions of `s` that begin a line.
pub open spec fn line_starts(s: Seq<char>) -> Seq<int> {
    line_starts_upto(s, s.len() as int)
}

/// The byte offsets at which the lines of `s` begin.
pub open spec fn line_offsets(s: Seq<char>) -> Seq<u32> {
    Seq::new(line_starts(s).len(), |k: int| byte_offset(s, line_starts(s)[k]) as u32)
}

/// How many of the offsets in `st` are at most `pos`.
pub open spec fn count_le(st: Seq<u32>, pos: u32) -> nat
    decreases st.len(),
{
    if st.len() == 0 {
        0
    } else {
        count_le(st.drop_last(), pos) + (if st.last() <= pos {
            1nat
        } else {
            0nat
        })
    }
}

/// The offset at which the line holding `pos` begins (0 when no offset is at most `pos`).
pub open spec fn start_of_line_at(st: Seq<u32>, pos: u32) -> u32 {
    let c = count_le(st, pos);
    if c == 0 {
        0
    } else {
        st[c - 1]
    }
}

/// ASCII whitespace: space, tab, line feed, form feed, carriage return.
pub open spec fn is_ascii_ws(c: char) -> bool {
    c == ' ' || c == '\t' || c == '\n' || c == '\x0C' || c == '\r'
}

/// `s` without its trailing ASCII whitespace.
pub open spec fn trim_ascii_end(s: Seq<char>) -> Seq<char>
    decreases s.len(),
{
    if s.len() > 0 && is_ascii_ws(s.last()) {
        trim_ascii_end(s.drop_last())
    } else {
        s
    }
}

proof fn lemma_line_starts_bounded(s: Seq<char>, n: int)
    requires
        0 <= n <= s.len(),
    ensures
        line_starts_upto(s, n).len() <= n,
        forall|k: int|
            0 <= k < line_starts_upto(s, n).len() ==> 0 <= #[trigger] line_starts_upto(s, n)[k]
                < n,
        forall|a: int, b: int|
            0 <= a < b < line_starts_upto(s, n).len() ==> #[trigger] line_starts_upto(s, n)[a]
                < #[trigger] line_starts_upto(s, n)[b],
        n > 0 ==> line_starts_upto(s, n).len() > 0 && line_starts_upto(s, n)[0] == 0,
    decreases n,
{
    if n > 0 {
        lemma_line_starts_bounded(s, n - 1);
        if n == 1 {
            reveal_with_fuel(line_starts_upto, 2);
        }
    }
}

proof fn lemma_count_le_prefix(st: Seq<u32>, pos: u32, i: int)
    requires
        0 <= i < st.len(),
        forall|a: int, b: int| 0 <= a < b < st.len() ==> #[trigger] st[a] < #[trigger] st[b],
        st[i] > pos,
    ensures
        count_le(st, pos) == count_le(st.take(i), pos),
    decreases st.len(),
{
    if st.len() == i + 1 {
        assert(st.drop_last() =~= st.take(i));
    } else {
        assert(st.last() > pos) by {
            assert(st[i] < st[st.len() - 1]);
        }
        let d = st.drop_last();
        assert(d.take(i) =~= st.take(i));
        lemma_count_le_prefix(d, pos, i);
    }
}

proof fn lemma_count_le_all(st: Seq<u32>, pos: u32, i: int)
    requires
        0 <= i < st.len(),
        count_le(st.take(i), pos) == i,
        st[i] <= pos,
    ensures
        count_le(st.take(i + 1), pos) == i + 1,
{
    assert(st.take(i + 1).drop_last() =~= st.take(i));
}

proof fn lemma_trim_prefix(s: Seq<char>, k: int)
    requires
        0 < k <= s.len(),
        is_ascii_ws(s[k - 1]),
    ensures
        trim_ascii_end(s.take(k)) == trim_ascii_end(s.take(k - 1)),
{
    assert(s.take(k).drop_last() =~= s.take(k - 1));
}

/// The number of newline characters in `t`.
pub open spec fn newlines(t: Seq<char>) -> nat
    decreases t.len(),
{
    if t.len() == 0 {
        0
    } else {
        newlines(t.drop_last()) + (if t.last() == '\n' {
            1nat
        } else {
            0nat
        })
    }
}

proof fn lemma_line_starts_prefix(s: Seq<char>, n: int, m: int)
    requires
        0 <= n <= m <= s.len(),
    ensures
        line_starts_upto(s, n).len() <= line_starts_upto(s, m).len(),
        forall|a: int|
            0 <= a < line_starts_upto(s, n).len() ==> #[trigger] line_starts_upto(s, m)[a]
                == line_starts_upto(s, n)[a],
        forall|a: int|
            line_starts_upto(s, n).len() <= a < line_starts_upto(s, m).len() ==> n
                <= #[trigger] line_starts_upto(s, m)[a],
    decreases m,
{
    if m > n {
        lemma_line_starts_prefix(s, n, m - 1);
    }
}

proof fn lemma_line_starts_count(s: Seq<char>, n: int)
    requires
        1 <= n <= s.len(),
    ensures
        line_starts_upto(s, n).len() == 1 + newlines(s.take(n - 1)),
    decreases n,
{
    if n == 1 {
        reveal_with_fuel(line_starts_upto, 2);
        assert(s.take(0) =~= Seq::<char>::empty());
    } else {
        lemma_line_starts_count(s, n - 1);
        assert(s.take(n - 1).drop_last() =~= s.take(n - 2));
    }
}

proof fn lemma_count_le_exact(st: Seq<u32>, pos: u32, c: int)
    requires
        0 <= c <= st.len(),
        forall|a: int| 0 <= a < c ==> #[trigger] st[a] <= pos,
        forall|a: int| c <= a < st.len() ==> #[trigger] st[a] > pos,
    ensures
        count_le(st, pos) == c,
    decreases st.len(),
{
    if st.len() > 0 {
        let d = st.drop_last();
        if c == st.len() {
            assert(st.last() <= pos);
            lemma_count_le_exact(d, pos, c - 1);
        } else {
            assert(st.last() > pos);
            lemma_count_le_exact(d, pos, c);
        }
    }
}

/// The position where the line that holds position `k` of `s` begins: just after
/// the last newline before `k`, or the start of the text.
pub open spec fn line_start_before(s: Seq<char>, k: int) -> int
    decreases k,
{
    if k <= 0 {
        0
    } else if s[k - 1] == '\n' {
        k
    } else {
        line_start_before(s, k - 1)
    }
}

proof fn lemma_last_line_start(s: Seq<char>, k: int)
    requires
        0 <= k < s.len(),
    ensures
        line_starts_upto(s, k + 1).len() > 0,
        line_starts_upto(s, k + 1).last() == line_start_before(s, k),
    decreases k,
{
    if k == 0 {
        reveal_with_fuel(line_starts_upto, 2);
    } else if s[k - 1] != '\n' {
        lemma_last_line_start(s, k - 1);
    }
}

/// Only `\n` ends a line: the line that holds the character at position `k` of `s`
/// is one plus the number of newlines before it, and it begins just after the last
/// of them. These are the line number that [`ErrorPrinter::get_line_col`] gives for
/// the byte offset of that character, and the offset from which it counts columns.
pub proof fn law_line_is_one_plus_newlines_before(s: Seq<char>, k: int)
    requires
        0 <= k < s.len(),
        byte_len(s) < u32::MAX,
    ensures
        count_le(line_offsets(s), byte_offset(s, k) as u32) == 1 + newlines(s.take(k)),
        start_of_line_at(line_offsets(s), byte_offset(s, k) as u32) == byte_offset(
            s,
            line_start_before(s, k),
        ),
{
    let n = s.len() as int;
    let ls = line_starts(s);
    let st = line_offsets(s);
    let c = line_starts_upto(s, k + 1).len() as int;
    lemma_line_starts_prefix(s, k + 1, n);
    lemma_line_starts_bounded(s, k + 1);
    lemma_line_starts_bounded(s, n);
    lemma_offset_mono(s, k, n);
    lemma_offset_end(s);
    let pos = byte_offset(s, k) as u32;
    assert forall|a: int| 0 <= a < c implies #[trigger] st[a] <= pos by {
        assert(line_starts_upto(s, k + 1)[a] < k + 1);
        lemma_offset_mono(s, ls[a], k);
        lemma_offset_mono(s, ls[a], n);
    }
    assert forall|a: int| c <= a < st.len() implies #[trigger] st[a] > pos by {
        lemma_offset_mono(s, k, ls[a]);
        lemma_offset_mono(s, ls[a], n);
    }
    lemma_count_le_exact(st, pos, c);
    lemma_line_starts_count(s, k + 1);
    lemma_last_line_start(s, k);
    assert(ls[c - 1] == line_starts_upto(s, k + 1)[c - 1]);
    lemma_offset_mono(s, ls[c - 1], n);
}

/// Finds the line and column of byte offsets in a source text, for reports.
pub struct ErrorPrinter<'input> {
    file: &'input str,
    input: &'input str,
    lines: Vec<u32>,
}

impl<'input> ErrorPrinter<'input> {
    /// The source text.
    pub closed spec fn source(&self) -> Seq<char> {
        self.input@
    }

    /// The name of the file.
    pub closed spec fn file_name(&self) -> Seq<char> {
        self.file@
    }

    /// The byte offsets at which lines begin.
    pub closed spec fn starts(&self) -> Seq<u32> {
        self.lines@
    }

    /// The offsets are those of the line beginnings of the source, which fits the
    /// range of `u32`.
    pub closed spec fn wf(&self) -> bool {
        &&& byte_len(self.input@) < u32::MAX
        &&& self.lines@ == line_offsets(self.input@)
        &&& self.lines@.len() < u32::MAX
        &&& forall|a: int, b: int|
            0 <= a < b < self.lines@.len() ==> #[trigger] self.lines@[a] < #[trigger] self.lines@[b]
        &&& forall|k: int|
            0 <= k < self.lines@.len() ==> #[trigger] self.lines@[k] as int == byte_offset(
                self.input@,
                line_starts(self.input@)[k],
            )
        &&& forall|k: int|
            0 <= k < line_starts(self.input@).len() ==> 0 <= #[trigger] line_starts(
                self.input@,
            )[k] < self.input@.len()
        &&& forall|a: int, b: int|
            0 <= a < b < line_starts(self.input@).len() ==> #[trigger] line_starts(self.input@)[a]
                < #[trigger] line_starts(self.input@)[b]
    }

    /// Indexes the lines of `input`, whose byte length must be below `u32::MAX`.
    pub fn new(file: &'input str, input: &'input str) -> (r: Self)
        requires
            input.spec_bytes().len() < u32::MAX,
        ensures
            r.wf(),
            r.source() == input@,
            r.file_name() == file@,
            r.starts() == line_offsets(input@),
    {
        let chars = chars_of(input);
        let ghost s = input@;
        let n = chars.len();
        let mut lines: Vec<u32> = Vec::new();
        let mut acc: u32 = 0;
        let mut i: usize = 0;
        proof {
            lemma_offset_zero(s);
            lemma_offset_end(s);
        }
        while i < n
            invariant
                chars@ == s,
                n == s.len(),
                s == input@,
                byte_len(s) < u32::MAX,
                0 <= i <= n,
                acc == byte_offset(s, i as int),
                i <= acc,
                lines@.len() <= i,
                lines@.len() == line_starts_upto(s, i as int).len(),
                forall|k: int|
                    0 <= k < lines@.len() ==> #[trigger] lines@[k] as int == byte_offset(
                        s,
                        line_starts_upto(s, i as int)[k],
                    ),
            decreases n - i,
        {
            proof {
                lemma_offset_step(s, i as int);
                lemma_offset_mono(s, i as int + 1, n as int);
                lemma_offset_end(s);
            }
            if i == 0 || chars[i - 1] == '\n' {
                lines.push(acc);
            }
            acc = acc + utf8_width(chars[i]);
            i = i + 1;
        }
        proof {
            lemma_line_starts_bounded(s, n as int);
            let ls = line_starts(s);
            assert forall|a: int, b: int|
                0 <= a < b < lines@.len() implies #[trigger] lines@[a] < #[trigger] lines@[b] by {
                lemma_offset_mono(s, ls[a], ls[b]);
            }
            assert(lines@ =~= line_offsets(s));
        }
        ErrorPrinter { file, input, lines }
    }

    /// The line (from 1) and the column in bytes (from 1) of byte offset `pos`.
    pub fn get_line_col(&self, pos: u32) -> (r: (u32, u32))
        requires
            self.wf(),
            pos - start_of_line_at(self.starts(), pos) < u32::MAX,
        ensures
            r.0 == (if count_le(self.starts(), pos) == 0 {
                1
            } else {
                count_le(self.starts(), pos)
            }),
            r.1 == pos - start_of_line_at(self.starts(), pos) + 1,
    {
        let ghost st = self.lines@;
        let mut line_num: u32 = 0;
        let mut line_start: u32 = 0;
        let mut i: usize = 0;
        proof {
            assert(st.take(0) =~= Seq::<u32>::empty());
            assert(st.take(st.len() as int) =~= st);
        }
        while i < self.lines.len()
            invariant
                st == self.lines@,
                self.wf(),
                0 <= i <= st.len(),
                st.take(st.len() as int) == st,
                count_le(st.take(i as int), pos) == i,
                i == 0 ==> line_num == 0 && line_start == 0,
                i > 0 ==> line_num == i - 1 && line_start == st[i - 1] && st[i - 1] <= pos,
            ensures
                count_le(st, pos) == i,
                i == 0 ==> line_num == 0 && line_start == 0,
                i > 0 ==> line_num == i - 1 && line_start == st[i - 1] && st[i - 1] <= pos,
            decreases st.len() - i,
        {
            let start = self.lines[i];
            if start > pos {
                proof {
                    lemma_count_le_prefix(st, pos, i as int);
                }
                break;
            }
            proof {
                lemma_count_le_all(st, pos, i as int);
            }
            line_num = i as u32;
            line_start = start;
            i = i + 1;
        }
        let col_num = pos - line_start + 1;
        (line_num + 1, col_num)
    }

    /// The text of line `line` (from 1), without its trailing ASCII whitespace.
    pub fn get_line_str(&self, line: u32) -> (r: &'input str)
        requires
            self.wf(),
            1 <= line <= self.starts().len(),
        ensures
            r@ == trim_ascii_end(
                self.source().subrange(
                    line_starts(self.source())[line - 1],
                    if line < self.starts().len() {
                        line_starts(self.source())[line as int]
                    } else {
                        self.source().len() as int
                    },
                ),
            ),
    {
        let ghost s = self.input@;
        let ghost ls = line_starts(s);
        let ghost a = ls[line - 1];
        let ghost b = if line < self.lines@.len() {
            ls[line as int]
        } else {
            s.len() as int
        };
        let start = self.lines[(line - 1) as usize] as usize;
        let end = if (line as usize) < self.lines.len() {
            self.lines[line as usize] as usize
        } else {
            self.input.len()
        };
        proof {
            lemma_offset_end(s);
            assert(0 <= a < b <= s.len());
            lemma_offset_mono(s, a, b);
            assert(end as int == byte_offset(s, b));
        }
        let whole = str_slice(self.input, start, end);
        let ghost w = s.subrange(a, b);
        assert(whole@ == w);
        // Drop the trailing ASCII whitespace.
        let chars = chars_of(whole);
        let mut k: usize = chars.len();
        let mut cut: usize = end - start;
        proof {
            assert(w.take(w.len() as int) =~= w);
            lemma_offset_end(w);
            lemma_offset_mono(w, 0, w.len() as int);
            lemma_offset_zero(w);
            assert(whole.spec_bytes().len() == end - start);
        }
        while k > 0 && (chars[k - 1] == ' ' || chars[k - 1] == '\t' || chars[k - 1] == '\n'
            || chars[k - 1] == '\x0C' || chars[k - 1] == '\r')
            invariant
                chars@ == w,
                0 <= k <= w.len(),
                cut as int == byte_offset(w, k as int),
                trim_ascii_end(w.take(k as int)) == trim_ascii_end(w),
            decreases k,
        {
            proof {
                lemma_trim_prefix(w, k as int);
                lemma_offset_step(w, k - 1);
                crate::text::lemma_char_width(w[k - 1]);
            }
            k = k - 1;
            cut = cut - 1;
        }
        proof {
            lemma_offset_zero(w);
            lemma_offset_mono(w, 0, k as int);
            assert(w.take(k as int) =~= w.subrange(0, k as int));
        }
        str_slice(whole, 0, cut)
    }

    /// The number of lines of the source.
    pub fn line_count(&self) -> (r: usize)
        ensures
            r == self.starts().len(),
    {
        self.lines.len()
    }

    /// The name of the file.
    pub fn file(&self) -> (r: &'input str)
        ensures
            r@ == self.file_name(),
    {
        self.file
    }
}

} // verus!
