use vstd::prelude::*;
use vstd::utf8::{decode_utf8, valid_utf8};
use crate::error::{typed, Error, ErrorType, Result};
use crate::header::{header_fault, header_of, DeviceTree, Header, HEADER_LEN};
use crate::tags::{advance, empty_stream, lemma_stream_len, stream, Stream, Tag, Tags, Token};

verus! {

/// Relies on `core::str::from_utf8`: it accepts exactly the valid UTF-8 byte strings and
/// borrows them as `str`, holding the characters they encode, without copying.
#[verifier::external_body]
fn str_from_utf8<'a>(b: &'a [u8]) -> (r: core::result::Result<&'a str, core::str::Utf8Error>)
    ensures
        match r {
            Ok(s) => valid_utf8(b@) && s@ == decode_utf8(b@),
            Err(_) => !valid_utf8(b@),
        },
{
    core::str::from_utf8(b)
}

/// Whether `r` is the UTF-8 reading of `v`, or the `Utf8` error at `i` where `v` is not
/// valid UTF-8.
pub open spec fn utf8_result<'a>(r: Result<&'a str>, v: Seq<u8>, i: int) -> bool {
    if valid_utf8(v) {
        r is Ok && r->Ok_0@ == decode_utf8(v)
    } else {
        match r {
            Err(Error::Typed { error_type: ErrorType::Utf8(_), file_index }) => file_index == i,
            _ => false,
        }
    }
}

/// The index just after the `End` that closes the node open at index `i` of `toks`, with
/// `depth` nodes opened inside it since; `-1` where the tokens run out first.
pub open spec fn subtree_end(toks: Seq<(Token, int)>, i: int, depth: nat) -> int
    decreases toks.len() - i,
{
    if i < 0 || i >= toks.len() {
        -1
    } else {
        match toks[i].0 {
            Token::Begin(_) => subtree_end(toks, i + 1, depth + 1),
            Token::End => if depth == 0 {
                i + 1
            } else {
                subtree_end(toks, i + 1, (depth - 1) as nat)
            },
            Token::Prop(_, _) => subtree_end(toks, i + 1, depth),
        }
    }
}

/// How a token changes the nesting depth.
pub open spec fn depth_delta(t: Token) -> int {
    match t {
        Token::Begin(_) => 1,
        Token::End => -1,
        Token::Prop(_, _) => 0,
    }
}

/// The change of nesting depth over `toks[k..m]`.
pub open spec fn depth_change(toks: Seq<(Token, int)>, k: int, m: int) -> int
    decreases m - k,
{
    if k >= m {
        0
    } else {
        depth_delta(toks[k].0) + depth_change(toks, k + 1, m)
    }
}

proof fn lemma_subtree_end_span(toks: Seq<(Token, int)>, k: int, m: int, d: nat)
    requires
        0 <= k <= m <= toks.len(),
        forall|j: int| k <= j <= m ==> d + #[trigger] depth_change(toks, k, j) >= 0,
    ensures
        d + depth_change(toks, k, m) >= 0,
        subtree_end(toks, k, d) == subtree_end(toks, m, (d + depth_change(toks, k, m)) as nat),
    decreases m - k,
{
    assert(d + depth_change(toks, k, m) >= 0);
    if k < m {
        let d2 = d + depth_delta(toks[k].0);
        assert(d + depth_change(toks, k, k + 1) >= 0);
        assert(depth_change(toks, k + 1, k + 1) == 0);
        assert forall|j: int| k + 1 <= j <= m implies d2 + #[trigger] depth_change(toks, k + 1, j)
            >= 0 by {
            assert(d + depth_change(toks, k, j) >= 0);
        }
        lemma_subtree_end_span(toks, k + 1, m, d2 as nat);
    }
}

/// Skipping a node stops right after its matching `End`, however deeply nodes nest inside
/// it: where the tokens between its `Begin` and an `End` at index `m` open and close as many
/// nodes as they close, never closing more than they have opened, the skip ends at `m + 1`.
pub proof fn lemma_skip_balanced(toks: Seq<(Token, int)>, m: int)
    requires
        1 <= m < toks.len(),
        toks[0].0 is Begin,
        toks[m].0 is End,
        depth_change(toks, 1, m) == 0,
        forall|j: int| 1 <= j <= m ==> #[trigger] depth_change(toks, 1, j) >= 0,
    ensures
        subtree_end(toks, 1, 0) == m + 1,
{
    lemma_subtree_end_span(toks, 1, m, 0);
}

/// A node cut short before its matching `End` never ends cleanly: wherever the entries read
/// so far are whole values (as many nodes closed as opened since its `Begin`), the next
/// token is no `End`. So `next_key` there yields a key, or, once the tokens run out, the
/// error that ended the stream, and `end_map` cannot succeed.
pub proof fn lemma_unclosed_node(toks: Seq<(Token, int)>, k: int)
    requires
        toks.len() > 0,
        toks[0].0 is Begin,
        subtree_end(toks, 1, 0) == -1,
        1 <= k <= toks.len(),
        depth_change(toks, 1, k) == 0,
        forall|j: int| 1 <= j <= k ==> #[trigger] depth_change(toks, 1, j) >= 0,
    ensures
        k < toks.len() ==> !(toks[k].0 is End),
{
    lemma_subtree_end_span(toks, 1, k, 0);
}

/// `s` without its first `k` tokens.
pub open spec fn skip(s: Stream, k: int) -> Stream {
    Stream { tokens: s.tokens.subrange(k, s.tokens.len() as int), tail: s.tail }
}

/// The structure block that header `h` locates in blob `b`.
pub open spec fn structure_of(b: Seq<u8>, h: Header) -> Seq<u8> {
    b.subrange(h.off_dt_struct as int, h.off_dt_struct + h.size_dt_struct)
}

/// The string table that header `h` locates in blob `b`.
pub open spec fn strings_of(b: Seq<u8>, h: Header) -> Seq<u8> {
    b.subrange(h.off_dt_strings as int, h.off_dt_strings + h.size_dt_strings)
}

/// The token stream of blob `b`, whose header is valid.
pub open spec fn blob_stream(b: Seq<u8>) -> Stream {
    let h = header_of(b);
    stream(structure_of(b, h), strings_of(b, h), 0, h.off_dt_struct as int)
}

/// A range of a range of `b` is a range of `b`.
proof fn lemma_subrange_of_subrange(b: Seq<u8>, lo: int, hi: int, s: int, n: int)
    requires
        0 <= lo <= hi <= b.len(),
        0 <= s,
        0 <= n,
        lo + s + n <= hi,
    ensures
        b.subrange(lo, hi).subrange(s, s + n) == b.subrange(lo + s, lo + s + n),
{
    assert(b.subrange(lo, hi).subrange(s, s + n) =~= b.subrange(lo + s, lo + s + n));
}

/// How the untyped hook reads the next value.
#[derive(Debug, Clone, Copy, PartialEq, Eq)]
pub enum Kind {
    /// A property with no value: `true`.
    Bool,
    /// A property of four bytes: a big-endian `u32`.
    U32,
    /// Any other property: its raw bytes.
    Bytes,
    /// A node: a map from names to values.
    Node,
}

/// The first token of `s`, with its offset, if there is one.
pub open spec fn front(s: Stream) -> Option<(Token, int)> {
    if s.tokens.len() > 0 {
        Some(s.tokens[0])
    } else {
        None
    }
}

/// The error met when `s` holds no token: the error that ended the stream, or
/// `NoRemainingTags` where the `END` record was reached.
pub open spec fn exhausted(s: Stream) -> Error {
    match s.tail {
        Some(e) => e,
        None => typed(ErrorType::NoRemainingTags, 0),
    }
}

/// How a token pulled from `s` (`Ok(None)` at the `END` record) relates to `s`.
pub open spec fn pulled<'a>(r: Result<Option<(Tag<'a>, usize)>>, s: Stream) -> bool {
    match front(s) {
        Some((t, i)) => match r {
            Ok(Some((x, j))) => x@ == t && j == i,
            _ => false,
        },
        None => match s.tail {
            Some(e) => r == Err::<Option<(Tag<'a>, usize)>, Error>(e),
            None => r == Ok::<Option<(Tag<'a>, usize)>, Error>(None),
        },
    }
}

/// Decodes the token stream of a blob on demand, one token of lookahead at a time.
#[derive(Debug, Clone)]
pub struct Deserializer<'a> {
    tags: Tags<'a>,
    peeked: Option<Option<Result<(Tag<'a>, usize)>>>,
}

impl<'a> Deserializer<'a> {
    /// The tokens not yet consumed, and how the stream ends.
    pub closed spec fn rest(&self) -> Stream {
        match self.peeked {
            None => self.tags.rest(),
            Some(Some(Ok((t, i)))) => Stream {
                tokens: seq![(t@, i as int)] + self.tags.rest().tokens,
                tail: self.tags.rest().tail,
            },
            Some(Some(Err(e))) => Stream { tokens: Seq::empty(), tail: Some(e) },
            Some(None) => empty_stream(),
        }
    }

    pub closed spec fn wf(&self) -> bool {
        &&& self.tags.wf()
        &&& match self.peeked {
            Some(Some(Ok(_))) => true,
            Some(_) => self.tags.rest() == empty_stream(),
            None => true,
        }
        &&& self.rest().tokens.len() <= u32::MAX
    }

    /// A decoder over the tokens that `tags` has still to produce.
    pub fn new(tags: Tags<'a>) -> (r: Deserializer<'a>)
        requires
            tags.wf(),
        ensures
            r.wf(),
            r.rest() == tags.rest(),
    {
        proof {
            if !tags.is_finished() {
                lemma_stream_len(
                    tags.structure_view(),
                    tags.table_view(),
                    tags.cursor(),
                    tags.offset(),
                );
            }
        }
        Deserializer { tags, peeked: None }
    }

    /// Validates the blob at the start of `buf` and prepares to decode its structure block.
    pub fn from_bytes(buf: &'a [u8]) -> (r: Result<Deserializer<'a>>)
        requires
            buf@.len() >= HEADER_LEN,
            buf@.len() + 3 <= usize::MAX,
        ensures
            ({
                let h = header_of(buf@);
                match header_fault(h) {
                    Some(e) => r == Err::<Deserializer<'a>, Error>(e),
                    None => if h.total_size > buf@.len() {
                        r == Err::<Deserializer<'a>, Error>(
                            typed(
                                ErrorType::SliceEofUnexpected {
                                    expected_length: h.total_size,
                                    remaining_length: buf@.len() as u32,
                                },
                                4,
                            ),
                        )
                    } else {
                        &&& r is Ok
                        &&& r->Ok_0.wf()
                        &&& r->Ok_0.rest() == blob_stream(buf@)
                    },
                }
            }),
    {
        let tree = match DeviceTree::from_bytes(buf) {
            Ok(t) => t,
            Err(e) => return Err(e),
        };
        let tags = tree.tags();
        proof {
            let h = header_of(buf@);
            let lo = HEADER_LEN as int;
            let hi = h.total_size as int;
            lemma_subrange_of_subrange(buf@, lo, hi, h.off_dt_struct - lo, h.size_dt_struct as int);
            lemma_subrange_of_subrange(buf@, lo, hi, h.off_dt_strings - lo, h.size_dt_strings as int);
        }
        Ok(Deserializer::new(tags))
    }

    /// Fills the lookahead slot.
    fn fill(&mut self)
        requires
            old(self).wf(),
        ensures
            final(self).wf(),
            final(self).rest() == old(self).rest(),
            final(self).peeked is Some,
    {
        if self.peeked.is_none() {
            let ghost s = self.tags.rest();
            let p = self.tags.next();
            self.peeked = Some(p);
            proof {
                if s.tokens.len() > 0 {
                    assert(self.rest().tokens =~= s.tokens);
                } else {
                    assert(s.tokens =~= Seq::empty());
                }
            }
        }
    }

    /// Consumes and returns the next token with its offset; `Ok(None)` at the end.
    pub fn next_tag(&mut self) -> (r: Result<Option<(Tag<'a>, usize)>>)
        requires
            old(self).wf(),
        ensures
            final(self).wf(),
            pulled(r, old(self).rest()),
            final(self).rest() == advance(old(self).rest()),
    {
        self.fill();
        let p = self.peeked.take();
        let ghost s = old(self).rest();
        match p {
            Some(Some(Ok(t))) => {
                proof {
                    assert(self.rest().tokens =~= s.tokens.drop_first());
                }
                Ok(Some(t))
            },
            Some(Some(Err(e))) => {
                self.peeked = Some(None);
                Err(e)
            },
            _ => {
                self.peeked = Some(None);
                Ok(None)
            },
        }
    }

    /// The next token and its offset, left in place.
    pub fn peek_tag_index(&mut self) -> (r: Result<Option<(Tag<'a>, usize)>>)
        requires
            old(self).wf(),
        ensures
            final(self).wf(),
            pulled(r, old(self).rest()),
            final(self).rest() == old(self).rest(),
    {
        self.fill();
        match &self.peeked {
            Some(Some(Ok(t))) => Ok(Some(*t)),
            Some(Some(Err(e))) => Err(e.duplicate()),
            _ => Ok(None),
        }
    }

    /// The next token, left in place.
    pub fn peek_tag(&mut self) -> (r: Result<Option<Tag<'a>>>)
        requires
            old(self).wf(),
        ensures
            final(self).wf(),
            final(self).rest() == old(self).rest(),
            match front(old(self).rest()) {
                Some((t, _)) => r is Ok && r->Ok_0 is Some && r->Ok_0->Some_0@ == t,
                None => match old(self).rest().tail {
                    Some(e) => r == Err::<Option<Tag<'a>>, Error>(e),
                    None => r == Ok::<Option<Tag<'a>>, Error>(None),
                },
            },
    {
        match self.peek_tag_index() {
            Ok(Some((t, _))) => Ok(Some(t)),
            Ok(None) => Ok(None),
            Err(e) => Err(e),
        }
    }

    /// Consumes the next token; fails only with the error that ends the stream.
    pub fn eat_tag(&mut self) -> (r: Result<()>)
        requires
            old(self).wf(),
        ensures
            final(self).wf(),
            final(self).rest() == advance(old(self).rest()),
            match old(self).rest().tail {
                Some(e) if old(self).rest().tokens.len() == 0 => r == Err::<(), Error>(e),
                _ => r is Ok,
            },
    {
        match self.next_tag() {
            Ok(_) => Ok(()),
            Err(e) => Err(e),
        }
    }
}


impl<'a> Deserializer<'a> {
    /// How the next value would be decoded by a consumer that does not name a type.
    pub fn peek_kind(&mut self) -> (r: Result<Kind>)
        requires
            old(self).wf(),
        ensures
            final(self).wf(),
            final(self).rest() == old(self).rest(),
            match front(old(self).rest()) {
                Some((Token::Prop(v, _), _)) => r == Ok::<Kind, Error>(
                    if v.len() == 0 {
                        Kind::Bool
                    } else if v.len() == 4 {
                        Kind::U32
                    } else {
                        Kind::Bytes
                    },
                ),
                Some((Token::Begin(_), _)) => r == Ok::<Kind, Error>(Kind::Node),
                Some((Token::End, i)) => r == Err::<Kind, Error>(typed(ErrorType::UnexpectedTag, i as usize)),
                None => r == Err::<Kind, Error>(exhausted(old(self).rest())),
            },
    {
        match self.peek_tag_index() {
            Ok(Some((Tag::Prop(value, _), _))) => {
                if value.len() == 0 {
                    Ok(Kind::Bool)
                } else if value.len() == 4 {
                    Ok(Kind::U32)
                } else {
                    Ok(Kind::Bytes)
                }
            },
            Ok(Some((Tag::Begin(_), _))) => Ok(Kind::Node),
            Ok(Some((Tag::End, index))) => Err(Error::unexpected_tag(index)),
            Ok(None) => Err(Error::no_remaining_tags()),
            Err(e) => Err(e),
        }
    }

    /// Decodes a property with no value as `true`, and consumes it.
    pub fn deserialize_bool(&mut self) -> (r: Result<bool>)
        requires
            old(self).wf(),
        ensures
            final(self).wf(),
            match front(old(self).rest()) {
                Some((Token::Prop(v, _), i)) => if v.len() == 0 {
                    &&& r == Ok::<bool, Error>(true)
                    &&& final(self).rest() == advance(old(self).rest())
                } else {
                    r == Err::<bool, Error>(
                        typed(ErrorType::InvalidSerdeTypeLength { expected_length: 0 }, i as usize),
                    )
                },
                Some((_, i)) => r == Err::<bool, Error>(typed(ErrorType::UnexpectedTag, i as usize)),
                None => r == Err::<bool, Error>(exhausted(old(self).rest())),
            },
    {
        match self.peek_tag_index() {
            Ok(Some((Tag::Prop(value, _), index))) => {
                if value.len() == 0 {
                    match self.eat_tag() {
                        Ok(()) => Ok(true),
                        Err(e) => Err(e),
                    }
                } else {
                    Err(Error::invalid_serde_type_length(0, index))
                }
            },
            Ok(Some((_, index))) => Err(Error::unexpected_tag(index)),
            Ok(None) => Err(Error::no_remaining_tags()),
            Err(e) => Err(e),
        }
    }

    /// Decodes a property of exactly four bytes as a big-endian `u32`, and consumes it.
    pub fn deserialize_u32(&mut self) -> (r: Result<u32>)
        requires
            old(self).wf(),
        ensures
            final(self).wf(),
            match front(old(self).rest()) {
                Some((Token::Prop(v, _), i)) => if v.len() == 4 {
                    &&& r == Ok::<u32, Error>(crate::tags::be_u32(v, 0))
                    &&& final(self).rest() == advance(old(self).rest())
                } else {
                    r == Err::<u32, Error>(
                        typed(ErrorType::InvalidSerdeTypeLength { expected_length: 4 }, i as usize),
                    )
                },
                Some((_, i)) => r == Err::<u32, Error>(typed(ErrorType::UnexpectedTag, i as usize)),
                None => r == Err::<u32, Error>(exhausted(old(self).rest())),
            },
    {
        match self.peek_tag_index() {
            Ok(Some((Tag::Prop(value, _), index))) => {
                if value.len() != 4 {
                    return Err(Error::invalid_serde_type_length(4, index));
                }
                let n = (value[0] as u32) * 0x1000000 + (value[1] as u32) * 0x10000
                    + (value[2] as u32) * 0x100 + (value[3] as u32);
                match self.eat_tag() {
                    Ok(()) => Ok(n),
                    Err(e) => Err(e),
                }
            },
            Ok(Some((_, index))) => Err(Error::unexpected_tag(index)),
            Ok(None) => Err(Error::no_remaining_tags()),
            Err(e) => Err(e),
        }
    }

    /// Borrows a property's value verbatim, and consumes it.
    pub fn deserialize_bytes(&mut self) -> (r: Result<&'a [u8]>)
        requires
            old(self).wf(),
        ensures
            final(self).wf(),
            match front(old(self).rest()) {
                Some((Token::Prop(v, _), _)) => {
                    &&& r is Ok
                    &&& r->Ok_0@ == v
                    &&& final(self).rest() == advance(old(self).rest())
                },
                Some((_, i)) => r == Err::<&'a [u8], Error>(typed(ErrorType::UnexpectedTag, i as usize)),
                None => r == Err::<&'a [u8], Error>(exhausted(old(self).rest())),
            },
    {
        match self.peek_tag_index() {
            Ok(Some((Tag::Prop(value, _), _))) => match self.eat_tag() {
                Ok(()) => Ok(value),
                Err(e) => Err(e),
            },
            Ok(Some((_, index))) => Err(Error::unexpected_tag(index)),
            Ok(None) => Err(Error::no_remaining_tags()),
            Err(e) => Err(e),
        }
    }

    /// Borrows a property's value as UTF-8 text, and consumes it.
    pub fn deserialize_str(&mut self) -> (r: Result<&'a str>)
        requires
            old(self).wf(),
        ensures
            final(self).wf(),
            match front(old(self).rest()) {
                Some((Token::Prop(v, _), i)) => {
                    &&& utf8_result(r, v, i)
                    &&& r is Ok ==> final(self).rest() == advance(old(self).rest())
                },
                Some((_, i)) => r == Err::<&'a str, Error>(typed(ErrorType::UnexpectedTag, i as usize)),
                None => r == Err::<&'a str, Error>(exhausted(old(self).rest())),
            },
    {
        match self.peek_tag_index() {
            Ok(Some((Tag::Prop(value, _), index))) => {
                let s = match str_from_utf8(value) {
                    Ok(s) => s,
                    Err(e) => return Err(Error::utf8(e, index)),
                };
                match self.eat_tag() {
                    Ok(()) => Ok(s),
                    Err(e) => Err(e),
                }
            },
            Ok(Some((_, index))) => Err(Error::unexpected_tag(index)),
            Ok(None) => Err(Error::no_remaining_tags()),
            Err(e) => Err(e),
        }
    }

    /// The name of the node that comes next, as UTF-8 text; the node stays in place.
    pub fn deserialize_identifier(&mut self) -> (r: Result<&'a str>)
        requires
            old(self).wf(),
        ensures
            final(self).wf(),
            final(self).rest() == old(self).rest(),
            match front(old(self).rest()) {
                Some((Token::Begin(n), i)) => utf8_result(r, n, i),
                Some((_, i)) => r == Err::<&'a str, Error>(typed(ErrorType::UnexpectedTag, i as usize)),
                None => r == Err::<&'a str, Error>(exhausted(old(self).rest())),
            },
    {
        match self.peek_tag_index() {
            Ok(Some((Tag::Begin(name), index))) => match str_from_utf8(name) {
                Ok(s) => Ok(s),
                Err(e) => Err(Error::utf8(e, index)),
            },
            Ok(Some((_, index))) => Err(Error::unexpected_tag(index)),
            Ok(None) => Err(Error::no_remaining_tags()),
            Err(e) => Err(e),
        }
    }

    /// Consumes the `Begin` that opens a node's map of properties and children.
    pub fn begin_map(&mut self) -> (r: Result<()>)
        requires
            old(self).wf(),
        ensures
            final(self).wf(),
            final(self).rest() == advance(old(self).rest()),
            match front(old(self).rest()) {
                Some((Token::Begin(_), _)) => r is Ok,
                Some(_) => r == Err::<(), Error>(typed(ErrorType::ExpectStructBegin, 0)),
                None => match old(self).rest().tail {
                    Some(e) => r == Err::<(), Error>(e),
                    None => r == Err::<(), Error>(typed(ErrorType::ExpectStructBegin, 0)),
                },
            },
    {
        match self.next_tag() {
            Ok(Some((Tag::Begin(_), _))) => Ok(()),
            Ok(_) => Err(Error::expected_struct_begin()),
            Err(e) => Err(e),
        }
    }

    /// Consumes the `End` that closes a node once its map has been read.
    pub fn end_map(&mut self) -> (r: Result<()>)
        requires
            old(self).wf(),
        ensures
            final(self).wf(),
            final(self).rest() == advance(old(self).rest()),
            match front(old(self).rest()) {
                Some((Token::End, _)) => r is Ok,
                Some(_) => r == Err::<(), Error>(typed(ErrorType::ExpectStructEnd, 0)),
                None => match old(self).rest().tail {
                    Some(e) => r == Err::<(), Error>(e),
                    None => r == Err::<(), Error>(typed(ErrorType::ExpectStructEnd, 0)),
                },
            },
    {
        match self.next_tag() {
            Ok(Some((Tag::End, _))) => Ok(()),
            Ok(_) => Err(Error::expected_struct_end()),
            Err(e) => Err(e),
        }
    }

    /// The key of the next entry of the open node: the name of the property or child that
    /// comes next, left in place; `None` at the node's `End`.
    pub fn next_key(&mut self) -> (r: Result<Option<&'a [u8]>>)
        requires
            old(self).wf(),
        ensures
            final(self).wf(),
            final(self).rest() == old(self).rest(),
            match front(old(self).rest()) {
                Some((Token::Prop(_, n), _)) => r is Ok && r->Ok_0 is Some && r->Ok_0->Some_0@ == n,
                Some((Token::Begin(n), _)) => r is Ok && r->Ok_0 is Some && r->Ok_0->Some_0@ == n,
                Some((Token::End, _)) => r == Ok::<Option<&'a [u8]>, Error>(None),
                None => r == Err::<Option<&'a [u8]>, Error>(exhausted(old(self).rest())),
            },
    {
        match self.peek_tag() {
            Ok(Some(Tag::Prop(_, name))) => Ok(Some(name)),
            Ok(Some(Tag::Begin(name))) => Ok(Some(name)),
            Ok(Some(Tag::End)) => Ok(None),
            Ok(None) => Err(Error::no_remaining_tags()),
            Err(e) => Err(e),
        }
    }

    /// Checks that a value follows the key just read: a property or a child node, left in
    /// place for the hook that decodes it.
    pub fn next_value(&mut self) -> (r: Result<()>)
        requires
            old(self).wf(),
        ensures
            final(self).wf(),
            final(self).rest() == old(self).rest(),
            match front(old(self).rest()) {
                Some((Token::End, i)) => r == Err::<(), Error>(typed(ErrorType::UnexpectedTag, i as usize)),
                Some(_) => r is Ok,
                None => r == Err::<(), Error>(exhausted(old(self).rest())),
            },
    {
        match self.peek_tag_index() {
            Ok(Some((Tag::End, index))) => Err(Error::unexpected_tag(index)),
            Ok(Some(_)) => Ok(()),
            Ok(None) => Err(Error::no_remaining_tags()),
            Err(e) => Err(e),
        }
    }

    /// Skips one value without decoding it: a property, or a whole node up to and including
    /// its matching `End`. At the end of the stream there is nothing to skip.
    pub fn deserialize_ignored_any(&mut self) -> (r: Result<()>)
        requires
            old(self).wf(),
        ensures
            final(self).wf(),
            ({
                let s = old(self).rest();
                match front(s) {
                    Some((Token::Prop(_, _), _)) => r is Ok && final(self).rest() == advance(s),
                    Some((Token::Begin(_), _)) => {
                        let j = subtree_end(s.tokens, 1, 0);
                        if j > 0 {
                            r is Ok && final(self).rest() == skip(s, j)
                        } else {
                            r == Err::<(), Error>(exhausted(s))
                        }
                    },
                    Some((Token::End, i)) => r == Err::<(), Error>(typed(ErrorType::UnexpectedTag, i as usize)),
                    None => match s.tail {
                        Some(e) => r == Err::<(), Error>(e),
                        None => r is Ok,
                    },
                }
            }),
    {
        let ghost s = self.rest();
        match self.peek_tag_index() {
            Ok(Some((Tag::Prop(_, _), _))) => self.eat_tag(),
            Ok(Some((Tag::Begin(_), _))) => {
                let _ = self.eat_tag();
                let mut depth: usize = 0;
                let ghost mut k: int = 1;
                proof {
                    assert(skip(s, 1).tokens =~= s.tokens.drop_first());
                }
                loop
                    invariant
                        self.wf(),
                        s == old(self).rest(),
                        s.tokens[0].0 is Begin,
                        1 <= k <= s.tokens.len(),
                        depth < k,
                        s.tokens.len() <= u32::MAX,
                        self.rest() == skip(s, k),
                        subtree_end(s.tokens, 1, 0) == subtree_end(s.tokens, k, depth as nat),
                    decreases s.tokens.len() - k,
                {
                    match self.next_tag() {
                        Ok(Some((Tag::Begin(_), _))) => {
                            depth = depth + 1;
                        },
                        Ok(Some((Tag::End, _))) => {
                            if depth == 0 {
                                proof {
                                    assert(skip(s, k).tokens.drop_first() =~= skip(s, k + 1).tokens);
                                    assert(s.tokens[k].0 == Token::End);
                                    assert(subtree_end(s.tokens, k, 0) == k + 1);
                                }
                                return Ok(());
                            }
                            depth = depth - 1;
                        },
                        Ok(Some((Tag::Prop(_, _), _))) => {},
                        Ok(None) => {
                            proof {
                                assert(k == s.tokens.len());
                                assert(subtree_end(s.tokens, k, depth as nat) == -1);
                            }
                            return Err(Error::no_remaining_tags());
                        },
                        Err(e) => {
                            proof {
                                assert(k == s.tokens.len());
                                assert(subtree_end(s.tokens, k, depth as nat) == -1);
                            }
                            return Err(e);
                        },
                    }
                    proof {
                        assert(skip(s, k).tokens.drop_first() =~= skip(s, k + 1).tokens);
                        k = k + 1;
                    }
                }
            },
            Ok(Some((Tag::End, index))) => Err(Error::unexpected_tag(index)),
            Ok(None) => Ok(()),
            Err(e) => Err(e),
        }
    }
}

} // verus!
