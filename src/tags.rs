use vstd::prelude::*;
use vstd::slice::slice_subrange;
use crate::error::{typed, Error, ErrorType, Result};

verus! {

pub const FDT_BEGIN_NODE: u32 = 0x1;
pub const FDT_END_NODE: u32 = 0x2;
pub const FDT_PROP: u32 = 0x3;
pub const FDT_NOP: u32 = 0x4;
pub const FDT_END: u32 = 0x9;

/// The big-endian 32-bit word stored at `s[i..i + 4]`.
pub open spec fn be_u32(s: Seq<u8>, i: int) -> u32 {
    (s[i] as int * 0x1000000 + s[i + 1] as int * 0x10000 + s[i + 2] as int * 0x100
        + s[i + 3] as int) as u32
}

/// `x` rounded up to the next multiple of four.
pub open spec fn align4(x: int) -> int {
    x + (4 - x % 4) % 4
}

/// The index of the first NUL byte of `s` at or after `i`, or `s.len()` if there is none.
pub open spec fn first_nul(s: Seq<u8>, i: int) -> int
    decreases s.len() - i,
{
    if i < 0 || i >= s.len() {
        s.len() as int
    } else if s[i] == 0 {
        i
    } else {
        first_nul(s, i + 1)
    }
}

/// What a token holds, as byte sequences.
pub enum Token {
    Begin(Seq<u8>),
    Prop(Seq<u8>, Seq<u8>),
    End,
}

/// The outcome of reading one record of the structure block at a cursor.
pub enum Step {
    /// A token and the cursor after it.
    Yield(Token, int),
    /// A `NOP` record; the cursor after it.
    Skip(int),
    /// The `END` record.
    Finish,
    Fail(Error),
}

/// Reads the record at `cur` of the structure block `st`, resolving property names in the
/// string table `tab`; `off` is the absolute offset of `st` in the blob.
pub open spec fn step(st: Seq<u8>, tab: Seq<u8>, cur: int, off: int) -> Step {
    let len = st.len() as int;
    if cur + 4 > len {
        Step::Fail(
            typed(
                ErrorType::TagEofUnexpected { current_index: cur as u32, bound_index: len as u32 },
                (off + cur) as usize,
            ),
        )
    } else {
        let id = be_u32(st, cur);
        let c = cur + 4;
        if id == FDT_BEGIN_NODE {
            let e = first_nul(st, c);
            if e >= len {
                Step::Fail(typed(ErrorType::StringEofUnexpected, (off + len) as usize))
            } else {
                Step::Yield(Token::Begin(st.subrange(c, e)), align4(e + 1))
            }
        } else if id == FDT_PROP {
            if c + 8 > len {
                Step::Fail(
                    typed(
                        ErrorType::TagEofUnexpected {
                            current_index: c as u32,
                            bound_index: len as u32,
                        },
                        (off + c) as usize,
                    ),
                )
            } else {
                let vlen = be_u32(st, c);
                let noff = be_u32(st, c + 4);
                let b = c + 8;
                if b + vlen > len {
                    Step::Fail(
                        typed(
                            ErrorType::SliceEofUnexpected {
                                expected_length: vlen,
                                remaining_length: (len - b) as u32,
                            },
                            (off + b) as usize,
                        ),
                    )
                } else {
                    let n = align4(b + vlen);
                    let z = first_nul(tab, noff as int);
                    if noff >= tab.len() || z >= tab.len() {
                        Step::Fail(
                            typed(
                                ErrorType::TableStringOffset {
                                    given_offset: noff,
                                    bound_offset: tab.len() as u32,
                                },
                                (off + n) as usize,
                            ),
                        )
                    } else {
                        Step::Yield(Token::Prop(st.subrange(b, b + vlen), tab.subrange(noff as int, z)), n)
                    }
                }
            }
        } else if id == FDT_END_NODE {
            Step::Yield(Token::End, c)
        } else if id == FDT_NOP {
            Step::Skip(c)
        } else if id == FDT_END {
            Step::Finish
        } else {
            Step::Fail(typed(ErrorType::InvalidTagId { wrong_id: id }, (off + c) as usize))
        }
    }
}

/// The first cursor at or after `cur` that does not hold a `NOP` record.
pub open spec fn skip_nops(st: Seq<u8>, cur: int) -> int
    decreases st.len() - cur,
{
    if 0 <= cur && cur + 4 <= st.len() && be_u32(st, cur) == FDT_NOP {
        skip_nops(st, cur + 4)
    } else {
        cur
    }
}

/// The tokens that remain, each with the absolute offset of its record, and the error
/// that ends them, if any.
pub struct Stream {
    pub tokens: Seq<(Token, int)>,
    pub tail: Option<Error>,
}

pub open spec fn empty_stream() -> Stream {
    Stream { tokens: Seq::empty(), tail: None }
}

/// The whole token stream read from cursor `cur` onwards.
pub open spec fn stream(st: Seq<u8>, tab: Seq<u8>, cur: int, off: int) -> Stream
    decreases st.len() + 4 - cur,
{
    let s = skip_nops(st, cur);
    match step(st, tab, s, off) {
        Step::Yield(t, n) => {
            if cur < n <= st.len() + 4 {
                let rest = stream(st, tab, n, off);
                Stream { tokens: seq![(t, off + s)] + rest.tokens, tail: rest.tail }
            } else {
                empty_stream()
            }
        },
        Step::Fail(e) => Stream { tokens: Seq::empty(), tail: Some(e) },
        _ => empty_stream(),
    }
}

proof fn lemma_first_nul_bounds(s: Seq<u8>, i: int)
    requires
        0 <= i <= s.len(),
    ensures
        i <= first_nul(s, i) <= s.len(),
        first_nul(s, i) < s.len() ==> s[first_nul(s, i)] == 0,
    decreases s.len() - i,
{
    if i < s.len() && s[i] != 0 {
        lemma_first_nul_bounds(s, i + 1);
    }
}

proof fn lemma_stream_yield(st: Seq<u8>, tab: Seq<u8>, cur: int, off: int, t: Token, n: int)
    requires
        step(st, tab, skip_nops(st, cur), off) == Step::Yield(t, n),
        cur < n <= st.len() + 4,
    ensures
        stream(st, tab, cur, off).tokens.len() > 0,
        stream(st, tab, cur, off).tokens[0] == (t, off + skip_nops(st, cur)),
        advance(stream(st, tab, cur, off)) == stream(st, tab, n, off),
{
    let rest = stream(st, tab, n, off);
    assert((seq![(t, off + skip_nops(st, cur))] + rest.tokens).drop_first() =~= rest.tokens);
}

proof fn lemma_skip_nops_bounds(st: Seq<u8>, cur: int)
    ensures
        cur <= skip_nops(st, cur),
        cur + 4 <= st.len() ==> skip_nops(st, cur) <= st.len(),
        skip_nops(st, cur) == cur || skip_nops(st, cur) <= st.len(),
    decreases st.len() - cur,
{
    if 0 <= cur && cur + 4 <= st.len() && be_u32(st, cur) == FDT_NOP {
        lemma_skip_nops_bounds(st, cur + 4);
    }
}

proof fn lemma_step_advances(st: Seq<u8>, tab: Seq<u8>, s: int, off: int)
    requires
        0 <= s,
        step(st, tab, s, off) is Yield,
    ensures
        step(st, tab, s, off)->Yield_1 >= s + 4,
{
    if be_u32(st, s) == FDT_BEGIN_NODE {
        lemma_first_nul_bounds(st, s + 4);
    }
}

/// A `NOP` record is skipped without a trace: the stream read from it is the stream read
/// from the record after it, token for token, offsets and final error included.
pub proof fn lemma_nop_transparent(st: Seq<u8>, tab: Seq<u8>, cur: int, off: int)
    requires
        0 <= cur,
        cur + 4 <= st.len(),
        be_u32(st, cur) == FDT_NOP,
    ensures
        stream(st, tab, cur, off) == stream(st, tab, cur + 4, off),
{
    let s = skip_nops(st, cur);
    assert(s == skip_nops(st, cur + 4));
    lemma_skip_nops_bounds(st, cur + 4);
    if step(st, tab, s, off) is Yield {
        lemma_step_advances(st, tab, s, off);
    }
}

/// Every token takes at least four bytes of the structure block.
pub proof fn lemma_stream_len(st: Seq<u8>, tab: Seq<u8>, cur: int, off: int)
    requires
        0 <= cur,
    ensures
        4 * stream(st, tab, cur, off).tokens.len() <= if cur <= st.len() + 4 {
            st.len() + 4 - cur
        } else {
            0
        },
    decreases st.len() + 4 - cur,
{
    let s = skip_nops(st, cur);
    lemma_skip_nops_bounds(st, cur);
    match step(st, tab, s, off) {
        Step::Yield(t, n) => {
            if cur < n <= st.len() + 4 {
                lemma_step_advances(st, tab, s, off);
                lemma_stream_len(st, tab, n, off);
            }
        },
        _ => {},
    }
}

/// Whether two errors of the token reader are of the same kind, whatever offsets they carry.
pub open spec fn same_kind(x: Error, y: Error) -> bool {
    match (x, y) {
        (Error::Typed { error_type: t, .. }, Error::Typed { error_type: u, .. }) => match t {
            ErrorType::TagEofUnexpected { .. } => u is TagEofUnexpected,
            ErrorType::StringEofUnexpected => u is StringEofUnexpected,
            ErrorType::SliceEofUnexpected { .. } => u is SliceEofUnexpected,
            ErrorType::TableStringOffset { .. } => u is TableStringOffset,
            ErrorType::InvalidTagId { .. } => u is InvalidTagId,
            _ => t == u,
        },
        _ => x == y,
    }
}

/// Whether two streams end alike: both cleanly, or both with errors of the same kind.
pub open spec fn same_ending(x: Stream, y: Stream) -> bool {
    match (x.tail, y.tail) {
        (Some(e), Some(f)) => same_kind(e, f),
        (None, None) => true,
        _ => false,
    }
}

/// The tokens of `s` without their offsets.
pub open spec fn tokens_of(s: Stream) -> Seq<Token> {
    s.tokens.map_values(|p: (Token, int)| p.0)
}

/// `b` holds the bytes of `a` from `p` on, four places later.
pub open spec fn shifted(a: Seq<u8>, b: Seq<u8>, p: int) -> bool {
    &&& b.len() == a.len() + 4
    &&& forall|i: int| p <= i < a.len() ==> b[i + 4] == #[trigger] a[i]
}

proof fn lemma_first_nul_shift(a: Seq<u8>, b: Seq<u8>, p: int, i: int)
    requires
        shifted(a, b, p),
        0 <= p <= i,
    ensures
        first_nul(b, i + 4) == first_nul(a, i) + 4,
    decreases a.len() - i,
{
    if i < a.len() {
        assert(b[i + 4] == a[i]);
        if a[i] != 0 {
            lemma_first_nul_shift(a, b, p, i + 1);
        }
    }
}

proof fn lemma_be_u32_shift(a: Seq<u8>, b: Seq<u8>, p: int, i: int)
    requires
        shifted(a, b, p),
        0 <= p <= i,
        i + 4 <= a.len(),
    ensures
        be_u32(b, i + 4) == be_u32(a, i),
{
    assert(b[i + 4] == a[i]);
    assert(b[i + 5] == a[i + 1]);
    assert(b[i + 6] == a[i + 2]);
    assert(b[i + 7] == a[i + 3]);
}

proof fn lemma_skip_nops_shift(a: Seq<u8>, b: Seq<u8>, p: int, cur: int)
    requires
        shifted(a, b, p),
        0 <= p <= cur,
    ensures
        skip_nops(b, cur + 4) == skip_nops(a, cur) + 4,
    decreases a.len() - cur,
{
    if cur + 4 <= a.len() {
        lemma_be_u32_shift(a, b, p, cur);
        if be_u32(a, cur) == FDT_NOP {
            lemma_skip_nops_shift(a, b, p, cur + 4);
        }
    }
}

/// `y` is the outcome `x` moved four bytes on.
pub open spec fn step_shifted(x: Step, y: Step) -> bool {
    match x {
        Step::Yield(t, n) => y == Step::Yield(t, n + 4),
        Step::Skip(n) => y == Step::Skip(n + 4),
        Step::Finish => y is Finish,
        Step::Fail(e) => y is Fail && same_kind(e, y->Fail_0),
    }
}

proof fn lemma_step_shift_begin(a: Seq<u8>, b: Seq<u8>, tab: Seq<u8>, p: int, s: int, off: int)
    requires
        shifted(a, b, p),
        0 <= p <= s,
        s + 4 <= a.len(),
        be_u32(a, s) == FDT_BEGIN_NODE,
        be_u32(b, s + 4) == FDT_BEGIN_NODE,
    ensures
        step_shifted(step(a, tab, s, off), step(b, tab, s + 4, off)),
{
    let c = s + 4;
    lemma_first_nul_shift(a, b, p, c);
    lemma_first_nul_bounds(a, c);
    let e = first_nul(a, c);
    if e < a.len() {
        assert(b.subrange(c + 4, e + 4) =~= a.subrange(c, e));
        assert(align4(e + 5) == align4(e + 1) + 4);
    }
}

proof fn lemma_step_shift_prop(a: Seq<u8>, b: Seq<u8>, tab: Seq<u8>, p: int, s: int, off: int)
    requires
        shifted(a, b, p),
        0 <= p <= s,
        s + 4 <= a.len(),
        be_u32(a, s) == FDT_PROP,
        be_u32(b, s + 4) == FDT_PROP,
    ensures
        step_shifted(step(a, tab, s, off), step(b, tab, s + 4, off)),
{
    let c = s + 4;
    if c + 8 <= a.len() {
        lemma_be_u32_shift(a, b, p, c);
        lemma_be_u32_shift(a, b, p, c + 4);
        let vlen = be_u32(a, c);
        let bb = c + 8;
        if bb + vlen <= a.len() {
            assert(b.subrange(bb + 4, bb + 4 + vlen) =~= a.subrange(bb, bb + vlen));
            assert(align4(bb + vlen + 4) == align4(bb + vlen) + 4);
        }
    }
}

proof fn lemma_step_shift(a: Seq<u8>, b: Seq<u8>, tab: Seq<u8>, p: int, s: int, off: int)
    requires
        shifted(a, b, p),
        0 <= p <= s,
    ensures
        step_shifted(step(a, tab, s, off), step(b, tab, s + 4, off)),
{
    if s + 4 <= a.len() {
        lemma_be_u32_shift(a, b, p, s);
        if be_u32(a, s) == FDT_BEGIN_NODE {
            lemma_step_shift_begin(a, b, tab, p, s, off);
        } else if be_u32(a, s) == FDT_PROP {
            lemma_step_shift_prop(a, b, tab, p, s, off);
        }
    }
}

proof fn lemma_stream_shift(a: Seq<u8>, b: Seq<u8>, tab: Seq<u8>, p: int, cur: int, off: int)
    requires
        shifted(a, b, p),
        0 <= p <= cur,
    ensures
        tokens_of(stream(b, tab, cur + 4, off)) == tokens_of(stream(a, tab, cur, off)),
        same_ending(stream(a, tab, cur, off), stream(b, tab, cur + 4, off)),
    decreases a.len() + 4 - cur,
{
    let s = skip_nops(a, cur);
    lemma_skip_nops_shift(a, b, p, cur);
    lemma_skip_nops_bounds(a, cur);
    lemma_step_shift(a, b, tab, p, s, off);
    let sa = stream(a, tab, cur, off);
    let sb = stream(b, tab, cur + 4, off);
    match step(a, tab, s, off) {
        Step::Yield(t, n) => {
            if cur < n <= a.len() + 4 {
                lemma_stream_shift(a, b, tab, p, n, off);
                let ra = stream(a, tab, n, off);
                let rb = stream(b, tab, n + 4, off);
                assert(tokens_of(sa) =~= seq![t] + tokens_of(ra));
                assert(tokens_of(sb) =~= seq![t] + tokens_of(rb));
            } else {
                lemma_step_advances(a, tab, s, off);
            }
        },
        _ => {
            assert(tokens_of(sa) =~= Seq::<Token>::empty());
            assert(tokens_of(sb) =~= Seq::<Token>::empty());
        },
    }
}

/// The block `st` with a `NOP` record put in at `p`.
pub open spec fn with_nop(st: Seq<u8>, p: int) -> Seq<u8> {
    st.subrange(0, p) + seq![0u8, 0u8, 0u8, 4u8] + st.subrange(p, st.len() as int)
}

/// A `NOP` record put in where the reader stands changes neither the tokens read from
/// there on nor whether the stream ends in an error; only offsets move.
pub proof fn lemma_nop_insertion(st: Seq<u8>, tab: Seq<u8>, cur: int, off: int)
    requires
        0 <= cur <= st.len(),
    ensures
        tokens_of(stream(with_nop(st, cur), tab, cur, off)) == tokens_of(stream(st, tab, cur, off)),
        same_ending(stream(st, tab, cur, off), stream(with_nop(st, cur), tab, cur, off)),
{
    let b = with_nop(st, cur);
    assert(be_u32(b, cur) == FDT_NOP);
    lemma_nop_transparent(b, tab, cur, off);
    assert(shifted(st, b, cur));
    lemma_stream_shift(st, b, tab, cur, cur, off);
}

/// `b` holds the bytes of `a` before `p`, and is no shorter.
pub open spec fn agrees_before(a: Seq<u8>, b: Seq<u8>, p: int) -> bool {
    &&& p <= a.len() <= b.len()
    &&& forall|i: int| 0 <= i < p ==> b[i] == #[trigger] a[i]
}

proof fn lemma_first_nul_prefix(a: Seq<u8>, b: Seq<u8>, p: int, i: int)
    requires
        agrees_before(a, b, p),
        0 <= i,
        first_nul(a, i) < p,
    ensures
        first_nul(b, i) == first_nul(a, i),
    decreases a.len() - i,
{
    if i < a.len() {
        lemma_first_nul_bounds(a, i);
        assert(b[i] == a[i]);
        if a[i] != 0 {
            lemma_first_nul_prefix(a, b, p, i + 1);
        }
    }
}

proof fn lemma_be_u32_prefix(a: Seq<u8>, b: Seq<u8>, p: int, i: int)
    requires
        agrees_before(a, b, p),
        0 <= i,
        i + 4 <= p,
    ensures
        be_u32(b, i) == be_u32(a, i),
{
    assert(b[i] == a[i]);
    assert(b[i + 1] == a[i + 1]);
    assert(b[i + 2] == a[i + 2]);
    assert(b[i + 3] == a[i + 3]);
}

proof fn lemma_skip_nops_prefix(a: Seq<u8>, b: Seq<u8>, p: int, cur: int)
    requires
        agrees_before(a, b, p),
        0 <= cur,
        skip_nops(a, cur) + 4 <= p,
    ensures
        skip_nops(b, cur) == skip_nops(a, cur),
    decreases a.len() - cur,
{
    lemma_skip_nops_bounds(a, cur);
    lemma_be_u32_prefix(a, b, p, cur);
    if cur + 4 <= a.len() && be_u32(a, cur) == FDT_NOP {
        lemma_skip_nops_prefix(a, b, p, cur + 4);
    }
}

proof fn lemma_step_prefix(a: Seq<u8>, b: Seq<u8>, tab: Seq<u8>, p: int, s: int, off: int)
    requires
        agrees_before(a, b, p),
        0 <= s,
        step(a, tab, s, off) is Yield,
        step(a, tab, s, off)->Yield_1 <= p,
    ensures
        step(b, tab, s, off) == step(a, tab, s, off),
{
    lemma_step_advances(a, tab, s, off);
    lemma_be_u32_prefix(a, b, p, s);
    let c = s + 4;
    if be_u32(a, s) == FDT_BEGIN_NODE {
        lemma_first_nul_bounds(a, c);
        let e = first_nul(a, c);
        assert(align4(e + 1) >= e + 1);
        lemma_first_nul_prefix(a, b, p, c);
        assert(b.subrange(c, e) =~= a.subrange(c, e));
    } else if be_u32(a, s) == FDT_PROP {
        lemma_be_u32_prefix(a, b, p, c);
        lemma_be_u32_prefix(a, b, p, c + 4);
        let vlen = be_u32(a, c);
        let bb = c + 8;
        assert(align4(bb + vlen) >= bb + vlen);
        assert(b.subrange(bb, bb + vlen) =~= a.subrange(bb, bb + vlen));
    }
}

/// Whether the reader, started at `cur`, stands at `p` at some point: at the start, or
/// right after one of the tokens it reads.
pub open spec fn visits(st: Seq<u8>, tab: Seq<u8>, cur: int, off: int, p: int) -> bool
    decreases st.len() + 4 - cur,
{
    if p == cur {
        true
    } else {
        match step(st, tab, skip_nops(st, cur), off) {
            Step::Yield(_, n) => if cur < n <= st.len() + 4 {
                visits(st, tab, n, off, p)
            } else {
                false
            },
            _ => false,
        }
    }
}

proof fn lemma_visits_after(st: Seq<u8>, tab: Seq<u8>, cur: int, off: int, p: int)
    requires
        visits(st, tab, cur, off, p),
    ensures
        cur <= p,
    decreases st.len() + 4 - cur,
{
    if p != cur {
        let n = step(st, tab, skip_nops(st, cur), off)->Yield_1;
        lemma_visits_after(st, tab, n, off, p);
    }
}

/// A `NOP` record put in at any record boundary that the reader reaches changes neither the
/// tokens it reads nor how the stream ends, up to the offsets that errors carry.
pub proof fn lemma_nop_insertion_anywhere(st: Seq<u8>, tab: Seq<u8>, cur: int, off: int, p: int)
    requires
        0 <= cur,
        p <= st.len(),
        visits(st, tab, cur, off, p),
    ensures
        tokens_of(stream(with_nop(st, p), tab, cur, off)) == tokens_of(stream(st, tab, cur, off)),
        same_ending(stream(st, tab, cur, off), stream(with_nop(st, p), tab, cur, off)),
    decreases st.len() + 4 - cur,
{
    let b = with_nop(st, p);
    if p == cur {
        lemma_nop_insertion(st, tab, cur, off);
    } else {
        let s = skip_nops(st, cur);
        lemma_skip_nops_bounds(st, cur);
        let n = step(st, tab, s, off)->Yield_1;
        let t = step(st, tab, s, off)->Yield_0;
        lemma_visits_after(st, tab, n, off, p);
        lemma_step_advances(st, tab, s, off);
        assert(agrees_before(st, b, p));
        lemma_skip_nops_prefix(st, b, p, cur);
        lemma_step_prefix(st, b, tab, p, s, off);
        lemma_nop_insertion_anywhere(st, tab, n, off, p);
        let ra = stream(st, tab, n, off);
        let rb = stream(b, tab, n, off);
        assert(tokens_of(stream(st, tab, cur, off)) =~= seq![t] + tokens_of(ra));
        assert(tokens_of(stream(b, tab, cur, off)) =~= seq![t] + tokens_of(rb));
    }
}

proof fn lemma_visits_before(st: Seq<u8>, tab: Seq<u8>, cur: int, off: int, p: int, q: int)
    requires
        0 <= cur,
        q <= p <= st.len(),
        visits(st, tab, cur, off, q),
    ensures
        visits(with_nop(st, p), tab, cur, off, q),
    decreases st.len() + 4 - cur,
{
    if q != cur {
        let b = with_nop(st, p);
        let s = skip_nops(st, cur);
        lemma_skip_nops_bounds(st, cur);
        let n = step(st, tab, s, off)->Yield_1;
        lemma_visits_after(st, tab, n, off, q);
        lemma_step_advances(st, tab, s, off);
        assert(agrees_before(st, b, p));
        lemma_skip_nops_prefix(st, b, p, cur);
        lemma_step_prefix(st, b, tab, p, s, off);
        lemma_visits_before(st, tab, n, off, p, q);
    }
}

/// The block `st` with a `NOP` record put in at each position of `ps`, in turn.
pub open spec fn with_nops(st: Seq<u8>, ps: Seq<int>) -> Seq<u8>
    decreases ps.len(),
{
    if ps.len() == 0 {
        st
    } else {
        with_nops(with_nop(st, ps[0]), ps.drop_first())
    }
}

/// Any number of `NOP` records, put in at record boundaries that the reader reaches (taken
/// from the last boundary back to the first, so that each position still refers to the
/// block as it was read), change neither the tokens read nor how the stream ends, up to
/// the offsets that errors carry.
pub proof fn lemma_nops_insertion(st: Seq<u8>, tab: Seq<u8>, cur: int, off: int, ps: Seq<int>)
    requires
        0 <= cur,
        forall|i: int| 0 <= i < ps.len() ==> #[trigger] ps[i] <= st.len() && visits(st, tab, cur, off, ps[i]),
        forall|i: int, j: int| 0 <= i < j < ps.len() ==> ps[j] <= ps[i],
    ensures
        tokens_of(stream(with_nops(st, ps), tab, cur, off)) == tokens_of(stream(st, tab, cur, off)),
        same_ending(stream(st, tab, cur, off), stream(with_nops(st, ps), tab, cur, off)),
    decreases ps.len(),
{
    if ps.len() > 0 {
        let p = ps[0];
        let b = with_nop(st, p);
        let rest = ps.drop_first();
        lemma_nop_insertion_anywhere(st, tab, cur, off, p);
        assert forall|i: int| 0 <= i < rest.len() implies #[trigger] rest[i] <= b.len() && visits(
            b,
            tab,
            cur,
            off,
            rest[i],
        ) by {
            assert(ps[i + 1] <= ps[0]);
            lemma_visits_before(st, tab, cur, off, p, rest[i]);
        }
        assert forall|i: int, j: int| 0 <= i < j < rest.len() implies rest[j] <= rest[i] by {
            assert(ps[j + 1] <= ps[i + 1]);
        }
        lemma_nops_insertion(b, tab, cur, off, rest);
    }
}

/// A structural token; every slice borrows from the blob.
#[derive(Clone, Copy, Debug, PartialEq, Eq)]
pub enum Tag<'a> {
    Begin(&'a [u8]),
    Prop(&'a [u8], &'a [u8]),
    End,
}

impl<'a> View for Tag<'a> {
    type V = Token;

    open spec fn view(&self) -> Token {
        match *self {
            Tag::Begin(n) => Token::Begin(n@),
            Tag::Prop(v, n) => Token::Prop(v@, n@),
            Tag::End => Token::End,
        }
    }
}

/// `val` rounded up to the next multiple of four.
pub fn align_up_u32(val: usize) -> (r: usize)
    requires
        val + 3 <= usize::MAX,
    ensures
        r == align4(val as int),
        r % 4 == 0,
        val % 4 == 0 ==> r == val,
        val % 4 == 1 ==> r == val + 3,
        val % 4 == 2 ==> r == val + 2,
        val % 4 == 3 ==> r == val + 1,
{
    val + (4 - (val % 4)) % 4
}

/// How `next` may answer for the remaining stream `s`.
pub open spec fn yields<'a>(r: Option<Result<(Tag<'a>, usize)>>, s: Stream) -> bool {
    if s.tokens.len() > 0 {
        match r {
            Some(Ok((t, i))) => t@ == s.tokens[0].0 && i == s.tokens[0].1,
            _ => false,
        }
    } else {
        match s.tail {
            Some(e) => r == Some(Err::<(Tag<'a>, usize), Error>(e)),
            None => r is None,
        }
    }
}

/// What remains of `s` once its first token, or its end, has been read.
pub open spec fn advance(s: Stream) -> Stream {
    if s.tokens.len() > 0 {
        Stream { tokens: s.tokens.drop_first(), tail: s.tail }
    } else {
        empty_stream()
    }
}

/// A forward-only reader of the structure block.
///
/// It stops for good after the `END` record or the first error.
#[derive(Debug, Clone)]
pub struct Tags<'a> {
    structure: &'a [u8],
    string_table: &'a [u8],
    cur: usize,
    offset_from_file_begin: usize,
    finished: bool,
}

impl<'a> Tags<'a> {
    pub closed spec fn structure_view(&self) -> Seq<u8> {
        self.structure@
    }

    pub closed spec fn table_view(&self) -> Seq<u8> {
        self.string_table@
    }

    pub closed spec fn cursor(&self) -> int {
        self.cur as int
    }

    pub closed spec fn offset(&self) -> int {
        self.offset_from_file_begin as int
    }

    pub closed spec fn is_finished(&self) -> bool {
        self.finished
    }

    pub open spec fn wf(&self) -> bool {
        &&& self.structure_view().len() + 3 <= u32::MAX
        &&& self.table_view().len() <= u32::MAX
        &&& 0 <= self.offset()
        &&& self.offset() + self.structure_view().len() + 3 <= usize::MAX
        &&& 0 <= self.cursor() <= self.structure_view().len() + 3
    }

    /// The tokens that this reader has still to produce.
    pub open spec fn rest(&self) -> Stream {
        if self.is_finished() {
            empty_stream()
        } else {
            stream(self.structure_view(), self.table_view(), self.cursor(), self.offset())
        }
    }

    pub open spec fn same_source(&self, other: &Tags<'a>) -> bool {
        &&& self.structure_view() == other.structure_view()
        &&& self.table_view() == other.table_view()
        &&& self.offset() == other.offset()
    }

    /// A reader at the start of `structure`, which lies at `offset` in the blob.
    pub fn new(structure: &'a [u8], string_table: &'a [u8], offset: usize) -> (r: Tags<'a>)
        requires
            structure@.len() + 3 <= u32::MAX,
            string_table@.len() <= u32::MAX,
            offset + structure@.len() + 3 <= usize::MAX,
        ensures
            r.wf(),
            r.structure_view() == structure@,
            r.table_view() == string_table@,
            r.offset() == offset,
            r.cursor() == 0,
            !r.is_finished(),
            r.rest() == stream(structure@, string_table@, 0, offset as int),
    {
        Tags {
            structure,
            string_table,
            cur: 0,
            offset_from_file_begin: offset,
            finished: false,
        }
    }

    /// The absolute offset of the cursor.
    pub fn file_index(&self) -> (r: usize)
        requires
            self.wf(),
        ensures
            r == self.offset() + self.cursor(),
    {
        self.cur + self.offset_from_file_begin
    }

    /// Reads the big-endian word at the cursor and moves past it.
    pub fn read_cur_u32(&mut self) -> (r: u32)
        requires
            old(self).wf(),
            old(self).cursor() + 4 <= old(self).structure_view().len(),
        ensures
            final(self).wf(),
            final(self).same_source(old(self)),
            final(self).is_finished() == old(self).is_finished(),
            final(self).cursor() == old(self).cursor() + 4,
            r == be_u32(old(self).structure_view(), old(self).cursor()),
    {
        let a = self.structure[self.cur] as u32;
        let b = self.structure[self.cur + 1] as u32;
        let c = self.structure[self.cur + 2] as u32;
        let d = self.structure[self.cur + 3] as u32;
        self.cur = self.cur + 4;
        a * 0x1000000 + b * 0x10000 + c * 0x100 + d
    }

    /// Reads a NUL-terminated name at the cursor, then moves past the NUL and aligns.
    pub fn read_string0_align(&mut self) -> (r: Result<&'a [u8]>)
        requires
            old(self).wf(),
            old(self).cursor() <= old(self).structure_view().len(),
        ensures
            final(self).wf(),
            final(self).same_source(old(self)),
            final(self).is_finished() == old(self).is_finished(),
            ({
                let st = old(self).structure_view();
                let e = first_nul(st, old(self).cursor());
                if e < st.len() {
                    &&& r is Ok
                    &&& r->Ok_0@ == st.subrange(old(self).cursor(), e)
                    &&& final(self).cursor() == align4(e + 1)
                } else {
                    &&& r == Err::<&'a [u8], Error>(
                        typed(ErrorType::StringEofUnexpected, (old(self).offset() + st.len()) as usize),
                    )
                    &&& final(self).cursor() == st.len()
                }
            }),
    {
        let begin = self.cur;
        while self.cur < self.structure.len()
            invariant
                self.wf(),
                self.same_source(old(self)),
                self.is_finished() == old(self).is_finished(),
                begin == old(self).cursor(),
                begin <= self.cur <= self.structure@.len(),
                first_nul(self.structure@, begin as int) == first_nul(self.structure@, self.cur as int),
            decreases self.structure@.len() - self.cur,
        {
            if self.structure[self.cur] == 0u8 {
                let end = self.cur;
                self.cur = align_up_u32(end + 1);
                return Ok(slice_subrange(self.structure, begin, end));
            }
            self.cur = self.cur + 1;
        }
        Err(Error::string_eof_unpexpected(self.file_index()))
    }

    /// Reads `len` bytes at the cursor, then moves past them and aligns.
    pub fn read_slice_align(&mut self, len: u32) -> (r: Result<&'a [u8]>)
        requires
            old(self).wf(),
            old(self).cursor() <= old(self).structure_view().len(),
        ensures
            final(self).wf(),
            final(self).same_source(old(self)),
            final(self).is_finished() == old(self).is_finished(),
            ({
                let st = old(self).structure_view();
                let b = old(self).cursor();
                if b + len > st.len() {
                    &&& r == Err::<&'a [u8], Error>(
                        typed(
                            ErrorType::SliceEofUnexpected {
                                expected_length: len,
                                remaining_length: (st.len() - b) as u32,
                            },
                            (old(self).offset() + b) as usize,
                        ),
                    )
                    &&& final(self).cursor() == b
                } else {
                    &&& r is Ok
                    &&& r->Ok_0@ == st.subrange(b, b + len)
                    &&& final(self).cursor() == align4(b + len)
                }
            }),
    {
        let begin = self.cur;
        let available = self.structure.len() - begin;
        if len as usize > available {
            return Err(Error::slice_eof_unpexpected(len, available as u32, self.file_index()));
        }
        let end = begin + len as usize;
        self.cur = align_up_u32(end);
        Ok(slice_subrange(self.structure, begin, end))
    }

    /// Looks up the NUL-terminated name at `pos` in the string table.
    pub fn read_table_string(&self, pos: u32) -> (r: Result<&'a [u8]>)
        requires
            self.wf(),
        ensures
            ({
                let tab = self.table_view();
                let z = first_nul(tab, pos as int);
                if pos >= tab.len() || z >= tab.len() {
                    r == Err::<&'a [u8], Error>(
                        typed(
                            ErrorType::TableStringOffset {
                                given_offset: pos,
                                bound_offset: tab.len() as u32,
                            },
                            (self.offset() + self.cursor()) as usize,
                        ),
                    )
                } else {
                    &&& r is Ok
                    &&& r->Ok_0@ == tab.subrange(pos as int, z)
                }
            }),
    {
        let begin = pos as usize;
        if begin >= self.string_table.len() {
            let bound_offset = self.string_table.len() as u32;
            return Err(Error::table_string_offset(pos, bound_offset, self.file_index()));
        }
        let mut cur: usize = begin;
        while cur < self.string_table.len()
            invariant
                self.wf(),
                begin == pos,
                begin <= cur <= self.string_table@.len(),
                first_nul(self.string_table@, begin as int) == first_nul(self.string_table@, cur as int),
            decreases self.string_table@.len() - cur,
        {
            if self.string_table[cur] == 0u8 {
                return Ok(slice_subrange(self.string_table, begin, cur));
            }
            cur = cur + 1;
        }
        Err(Error::table_string_offset(pos, cur as u32, self.file_index()))
    }

    /// Produces the next token with the absolute offset of its record, an error, or `None`
    /// once the `END` record has been read. `NOP` records are skipped.
    pub fn next(&mut self) -> (r: Option<Result<(Tag<'a>, usize)>>)
        requires
            old(self).wf(),
        ensures
            final(self).wf(),
            final(self).same_source(old(self)),
            yields(r, old(self).rest()),
            final(self).rest() == advance(old(self).rest()),
            !old(self).is_finished() ==> match step(
                old(self).structure_view(),
                old(self).table_view(),
                skip_nops(old(self).structure_view(), old(self).cursor()),
                old(self).offset(),
            ) {
                Step::Yield(_, n) => final(self).cursor() == n && !final(self).is_finished(),
                _ => final(self).is_finished(),
            },
    {
        if self.finished {
            return None;
        }
        let ghost first = self.cur as int;
        let ghost st = self.structure@;
        let ghost tab = self.string_table@;
        let ghost off = self.offset_from_file_begin as int;
        loop
            invariant
                self.wf(),
                self.same_source(old(self)),
                !self.finished,
                st == self.structure@,
                tab == self.string_table@,
                off == self.offset_from_file_begin,
                first == old(self).cursor(),
                first <= self.cur,
                old(self).rest() == stream(st, tab, first, off),
                skip_nops(st, first) == skip_nops(st, self.cur as int),
            decreases self.structure@.len() + 4 - self.cur,
        {
            let start = self.cur;
            if self.cur > self.structure.len() || self.structure.len() - self.cur < 4 {
                let e = Error::tag_eof_unexpected(
                    self.cur as u32,
                    self.structure.len() as u32,
                    self.file_index(),
                );
                self.finished = true;
                return Some(Err(e));
            }
            let id = self.read_cur_u32();
            if id == FDT_NOP {
                continue;
            }
            assert(skip_nops(st, first) == start);
            if id == FDT_BEGIN_NODE {
                match self.read_string0_align() {
                    Ok(name) => {
                        proof {
                            lemma_first_nul_bounds(st, start + 4);
                            lemma_stream_yield(st, tab, first, off, Token::Begin(name@), self.cur as int);
                        }
                        return Some(Ok((Tag::Begin(name), start + self.offset_from_file_begin)));
                    },
                    Err(e) => {
                        self.finished = true;
                        return Some(Err(e));
                    },
                }
            } else if id == FDT_PROP {
                if self.structure.len() - self.cur < 8 {
                    let e = Error::tag_eof_unexpected(
                        self.cur as u32,
                        self.structure.len() as u32,
                        self.file_index(),
                    );
                    self.finished = true;
                    return Some(Err(e));
                }
                let val_size = self.read_cur_u32();
                let name_offset = self.read_cur_u32();
                let val = match self.read_slice_align(val_size) {
                    Ok(v) => v,
                    Err(e) => {
                        self.finished = true;
                        return Some(Err(e));
                    },
                };
                let prop_name = match self.read_table_string(name_offset) {
                    Ok(n) => n,
                    Err(e) => {
                        self.finished = true;
                        return Some(Err(e));
                    },
                };
                proof {
                    lemma_first_nul_bounds(tab, name_offset as int);
                    lemma_stream_yield(st, tab, first, off, Tag::Prop(val, prop_name)@, self.cur as int);
                }
                return Some(Ok((Tag::Prop(val, prop_name), start + self.offset_from_file_begin)));
            } else if id == FDT_END_NODE {
                proof {
                    lemma_stream_yield(st, tab, first, off, Token::End, self.cur as int);
                }
                return Some(Ok((Tag::End, start + self.offset_from_file_begin)));
            } else if id == FDT_END {
                self.finished = true;
                return None;
            } else {
                let e = Error::invalid_tag_id(id, self.file_index());
                self.finished = true;
                return Some(Err(e));
            }
        }
    }
}

} // verus!
