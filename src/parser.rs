use vstd::prelude::*;
use bytes::BytesMut;
use crate::number::{i64_value, parse_i64};
use crate::resp::{crlf_at, values_of, RedisValueRef, Resp};

verus! {

/// The growable byte buffer of the `bytes` crate, opaque here; what it holds is
/// named by `buffer_contents`.
#[verifier::external_type_specification]
#[verifier::external_body]
pub struct ExBytesMut(BytesMut);

/// The bytes that a `BytesMut` holds, in order.
pub uninterp spec fn buffer_contents(b: BytesMut) -> Seq<u8>;

/// Relies on `BytesMut`'s `AsRef<[u8]>`: a slice over the bytes that it holds.
#[verifier::external_body]
fn held_bytes(b: &BytesMut) -> (r: &[u8])
    ensures
        r@ == buffer_contents(*b),
{
    b.as_ref()
}

/// Relies on `BytesMut::split_to`: the first `at` bytes move to the result and the
/// rest stay; it panics only when `at` exceeds the length.
#[verifier::external_body]
fn take_front(b: &mut BytesMut, at: usize) -> (r: BytesMut)
    requires
        at <= buffer_contents(*old(b)).len(),
    ensures
        buffer_contents(r) == buffer_contents(*old(b)).subrange(0, at as int),
        buffer_contents(*final(b)) == buffer_contents(*old(b)).subrange(
            at as int,
            buffer_contents(*old(b)).len() as int,
        ),
{
    b.split_to(at)
}

/// Relies on `memchr::memchr`: the index of the first occurrence of `needle`, if any.
#[verifier::external_body]
fn find_byte(needle: u8, haystack: &[u8]) -> (r: Option<usize>)
    ensures
        match r {
            Some(i) => i < haystack@.len() && haystack@[i as int] == needle && forall|j: int|
                0 <= j < i ==> haystack@[j] != needle,
            None => forall|j: int| 0 <= j < haystack@.len() ==> haystack@[j] != needle,
        },
{
    memchr::memchr(needle, haystack)
}

/// Why a frame cannot be decoded.
#[derive(Debug, PartialEq, Eq, Clone, Copy)]
pub enum RESPError {
    UnknownStartingByte,
    IntParseFailure,
    BadBulkStringSize(i64),
    BadArraySize(i64),
}

/// What decoding from a position comes to: a value and the position after it, a
/// need for more bytes, or an error.
pub enum Parsed {
    Done(int, Resp),
    Incomplete,
    Failed(RESPError),
}

/// The index of the first CR LF at or after `from`, if any.
pub open spec fn line_end(s: Seq<u8>, from: int) -> Option<int>
    decreases s.len() - from,
{
    if from + 1 >= s.len() {
        None
    } else if crlf_at(s, from) {
        Some(from)
    } else {
        line_end(s, from + 1)
    }
}

/// A simple string whose text starts at `from`.
pub open spec fn simple_at(s: Seq<u8>, from: int) -> Parsed {
    match line_end(s, from) {
        Some(e) => Parsed::Done(e + 2, Resp::Simple(s.subrange(from, e))),
        None => Parsed::Incomplete,
    }
}

/// An error whose text starts at `from`.
pub open spec fn error_at(s: Seq<u8>, from: int) -> Parsed {
    match line_end(s, from) {
        Some(e) => Parsed::Done(e + 2, Resp::Error(s.subrange(from, e))),
        None => Parsed::Incomplete,
    }
}

/// The integer on the line that starts at `from`.
pub open spec fn int_line(s: Seq<u8>, from: int) -> Parsed {
    match line_end(s, from) {
        Some(e) => match i64_value(s.subrange(from, e)) {
            Some(n) => Parsed::Done(e + 2, Resp::Integer(n)),
            None => Parsed::Failed(RESPError::IntParseFailure),
        },
        None => Parsed::Incomplete,
    }
}

/// A bulk string whose size line starts at `from`: the size, then that many bytes
/// and two more.
pub open spec fn bulk_at(s: Seq<u8>, from: int) -> Parsed {
    match int_line(s, from) {
        Parsed::Done(next, Resp::Integer(n)) => if n == -1 {
            Parsed::Done(next, Resp::NullBulk)
        } else if n < -1 {
            Parsed::Failed(RESPError::BadBulkStringSize(n))
        } else if s.len() < next + n + 2 {
            Parsed::Incomplete
        } else {
            Parsed::Done(next + n + 2, Resp::Bulk(s.subrange(next, next + n)))
        },
        Parsed::Failed(e) => Parsed::Failed(e),
        _ => Parsed::Incomplete,
    }
}

/// `vs` put in front of the items of an array outcome.
pub open spec fn prepend_all(vs: Seq<Resp>, rest: Parsed) -> Parsed {
    match rest {
        Parsed::Done(q, Resp::Array(ws)) => Parsed::Done(q, Resp::Array(vs + ws)),
        other => other,
    }
}

/// One value of any kind, starting with its type byte at `pos`.
pub open spec fn parse_at(s: Seq<u8>, pos: int) -> Parsed
    decreases s.len() - pos, 0int,
{
    if pos < 0 || pos >= s.len() {
        Parsed::Incomplete
    } else if s[pos] == 43 {
        simple_at(s, pos + 1)
    } else if s[pos] == 45 {
        error_at(s, pos + 1)
    } else if s[pos] == 58 {
        int_line(s, pos + 1)
    } else if s[pos] == 36 {
        bulk_at(s, pos + 1)
    } else if s[pos] == 42 {
        array_at(s, pos + 1)
    } else {
        Parsed::Failed(RESPError::UnknownStartingByte)
    }
}

/// An array whose count line starts at `from`: the count, then that many values.
pub open spec fn array_at(s: Seq<u8>, from: int) -> Parsed
    decreases s.len() - from, 0int,
{
    match int_line(s, from) {
        Parsed::Done(next, Resp::Integer(n)) => if n == -1 {
            Parsed::Done(next, Resp::NullArray)
        } else if n < -1 {
            Parsed::Failed(RESPError::BadArraySize(n))
        } else {
            proof {
                lemma_line_end(s, from);
            }
            items_at(s, next, n as nat)
        },
        Parsed::Failed(e) => Parsed::Failed(e),
        _ => Parsed::Incomplete,
    }
}

/// `n` values, one after the other from `pos`, as an array.
pub open spec fn items_at(s: Seq<u8>, pos: int, n: nat) -> Parsed
    decreases s.len() - pos, n,
{
    if n == 0 {
        Parsed::Done(pos, Resp::Array(Seq::empty()))
    } else {
        match parse_at(s, pos) {
            Parsed::Done(p, v) => if pos < p <= s.len() {
                prepend_all(seq![v], items_at(s, p, (n - 1) as nat))
            } else {
                Parsed::Incomplete
            },
            other => other,
        }
    }
}

/// Where `line_end` stops: a CR LF with none before it.
pub proof fn lemma_line_end(s: Seq<u8>, from: int)
    ensures
        line_end(s, from) matches Some(e) ==> {
            &&& from <= e
            &&& e + 2 <= s.len()
            &&& crlf_at(s, e)
            &&& forall|k: int| from <= k < e ==> !crlf_at(s, k)
        },
        line_end(s, from) is None ==> forall|k: int| from <= k ==> !crlf_at(s, k),
    decreases s.len() - from,
{
    if from + 1 < s.len() && !crlf_at(s, from) {
        lemma_line_end(s, from + 1);
    }
}

/// Positions with no CR LF do not change where the line ends.
pub proof fn lemma_line_end_skip(s: Seq<u8>, from: int, to: int)
    requires
        from <= to,
        forall|k: int| from <= k < to ==> !crlf_at(s, k),
    ensures
        line_end(s, from) == line_end(s, to),
    decreases to - from,
{
    if from < to && from + 1 < s.len() {
        lemma_line_end_skip(s, from + 1, to);
    }
}

/// A view of a span `[start, end)` of a buffer.
pub struct BufSplit(pub usize, pub usize);

/// A decoded value whose bytes are spans of the buffer it came from.
pub enum RedisBufSplit {
    SimpleString(BufSplit),
    Error(BufSplit),
    Int(i64),
    BulkString(BufSplit),
    Array(Vec<RedisBufSplit>),
    NullArray,
    NullBulkString,
}

/// The value that `v` stands for, over the buffer `s`.
pub open spec fn split_value(v: RedisBufSplit, s: Seq<u8>) -> Resp
    decreases v,
{
    match v {
        RedisBufSplit::SimpleString(b) => Resp::Simple(s.subrange(b.0 as int, b.1 as int)),
        RedisBufSplit::Error(b) => Resp::Error(s.subrange(b.0 as int, b.1 as int)),
        RedisBufSplit::Int(n) => Resp::Integer(n),
        RedisBufSplit::BulkString(b) => Resp::Bulk(s.subrange(b.0 as int, b.1 as int)),
        RedisBufSplit::Array(items) => Resp::Array(split_values(items@, s)),
        RedisBufSplit::NullArray => Resp::NullArray,
        RedisBufSplit::NullBulkString => Resp::NullBulk,
    }
}

/// The values that `items` stand for, over the buffer `s`.
pub open spec fn split_values(items: Seq<RedisBufSplit>, s: Seq<u8>) -> Seq<Resp>
    decreases items,
{
    if items.len() == 0 {
        Seq::empty()
    } else {
        split_values(items.subrange(0, items.len() - 1), s).push(
            split_value(items[items.len() - 1], s),
        )
    }
}

/// Every span of `v` lies within `[lo, hi]`.
pub open spec fn spans_within(v: RedisBufSplit, lo: int, hi: int) -> bool
    decreases v,
{
    match v {
        RedisBufSplit::SimpleString(b) => lo <= b.0 <= b.1 <= hi,
        RedisBufSplit::Error(b) => lo <= b.0 <= b.1 <= hi,
        RedisBufSplit::BulkString(b) => lo <= b.0 <= b.1 <= hi,
        RedisBufSplit::Array(items) => spans_all_within(items@, lo, hi),
        _ => true,
    }
}

/// Every span of every item lies within `[lo, hi]`.
pub open spec fn spans_all_within(items: Seq<RedisBufSplit>, lo: int, hi: int) -> bool
    decreases items,
{
    if items.len() == 0 {
        true
    } else {
        spans_all_within(items.subrange(0, items.len() - 1), lo, hi) && spans_within(
            items[items.len() - 1],
            lo,
            hi,
        )
    }
}

/// Spans within a range are within any range around it.
pub proof fn lemma_spans_widen(v: RedisBufSplit, lo: int, hi: int, lo2: int, hi2: int)
    requires
        spans_within(v, lo, hi),
        lo2 <= lo,
        hi <= hi2,
    ensures
        spans_within(v, lo2, hi2),
    decreases v,
{
    if let RedisBufSplit::Array(items) = v {
        lemma_spans_all_widen(items@, lo, hi, lo2, hi2);
    }
}

/// The run form of `lemma_spans_widen`.
pub proof fn lemma_spans_all_widen(items: Seq<RedisBufSplit>, lo: int, hi: int, lo2: int, hi2: int)
    requires
        spans_all_within(items, lo, hi),
        lo2 <= lo,
        hi <= hi2,
    ensures
        spans_all_within(items, lo2, hi2),
    decreases items,
{
    if items.len() > 0 {
        lemma_spans_all_widen(items.subrange(0, items.len() - 1), lo, hi, lo2, hi2);
        lemma_spans_widen(items[items.len() - 1], lo, hi, lo2, hi2);
    }
}

pub type RedisResult = Result<Option<(usize, RedisBufSplit)>, RESPError>;

/// The outcome that a parse result stands for, over the buffer `s`.
pub open spec fn outcome(r: RedisResult, s: Seq<u8>) -> Parsed {
    match r {
        Ok(Some((p, v))) => Parsed::Done(p as int, split_value(v, s)),
        Ok(None) => Parsed::Incomplete,
        Err(e) => Parsed::Failed(e),
    }
}

/// `r` is the outcome `expected` over `s` for a frame that starts at `pos`, and its
/// spans lie between `pos` and the end of the frame.
pub open spec fn parsed_as(r: RedisResult, s: Seq<u8>, pos: int, expected: Parsed) -> bool {
    &&& outcome(r, s) == expected
    &&& r matches Ok(Some((p, v))) ==> spans_within(v, pos, p as int)
}

/// The outcome that an integer parse result stands for.
pub open spec fn int_outcome(r: Result<Option<(usize, i64)>, RESPError>) -> Parsed {
    match r {
        Ok(Some((p, n))) => Parsed::Done(p as int, Resp::Integer(n)),
        Ok(None) => Parsed::Incomplete,
        Err(e) => Parsed::Failed(e),
    }
}

/// A decoder for the wire format.
pub struct RedisParser;

impl RedisParser {
    /// Create a new parser.
    pub fn new() -> (r: Self)
        ensures
            r == RedisParser,
    {
        RedisParser
    }

    /// The line that starts at `pos`: the position after its CR LF, and its span.
    pub fn word(&self, buffer: &[u8], pos: usize) -> (r: Option<(usize, BufSplit)>)
        ensures
            match line_end(buffer@, pos as int) {
                Some(e) => r matches Some((next, w)) && next == e + 2 && w.0 == pos && w.1 == e,
                None => r is None,
            },
    {
        let len = buffer.len();
        if len <= pos {
            return None;
        }
        let mut from: usize = pos;
        loop
            invariant
                pos <= from <= len,
                len == buffer@.len(),
                line_end(buffer@, pos as int) == line_end(buffer@, from as int),
            decreases len - from,
        {
            if from >= len {
                return None;
            }
            let rest = &buffer[from..len];
            match find_byte(13, rest) {
                None => {
                    proof {
                        assert forall|k: int| from <= k < len implies !crlf_at(buffer@, k) by {
                            assert(rest@[k - from] == buffer@[k]);
                        }
                        lemma_line_end_skip(buffer@, from as int, len as int);
                    }
                    return None;
                },
                Some(j) => {
                    let at = from + j;
                    proof {
                        assert forall|k: int| from <= k < at implies !crlf_at(buffer@, k) by {
                            assert(rest@[k - from] == buffer@[k]);
                        }
                        lemma_line_end_skip(buffer@, from as int, at as int);
                        assert(buffer@[at as int] == 13);
                    }
                    if at + 1 >= len {
                        return None;
                    }
                    if buffer[at + 1] == 10 {
                        return Some((at + 2, BufSplit(pos, at)));
                    }
                    from = at + 1;
                },
            }
        }
    }

    /// A simple string whose text starts at `pos`.
    pub fn simple_string(&self, buffer: &[u8], pos: usize) -> (r: RedisResult)
        ensures
            parsed_as(r, buffer@, pos as int, simple_at(buffer@, pos as int)),
            r matches Ok(Some((p, v))) ==> v matches RedisBufSplit::SimpleString(w) && w.0 == pos
                && w.1 + 2 == p,
    {
        proof {
            lemma_line_end(buffer@, pos as int);
        }
        match self.word(buffer, pos) {
            Some((next, w)) => Ok(Some((next, RedisBufSplit::SimpleString(w)))),
            None => Ok(None),
        }
    }

    /// An error whose text starts at `pos`.
    pub fn error(&self, buffer: &[u8], pos: usize) -> (r: RedisResult)
        ensures
            parsed_as(r, buffer@, pos as int, error_at(buffer@, pos as int)),
            r matches Ok(Some((p, v))) ==> v matches RedisBufSplit::Error(w) && w.0 == pos && w.1 + 2
                == p,
    {
        proof {
            lemma_line_end(buffer@, pos as int);
        }
        match self.word(buffer, pos) {
            Some((next, w)) => Ok(Some((next, RedisBufSplit::Error(w)))),
            None => Ok(None),
        }
    }

    /// The integer on the line that starts at `pos`, and the position after it.
    pub fn integer(&self, buffer: &[u8], pos: usize) -> (r: Result<Option<(usize, i64)>, RESPError>)
        ensures
            int_outcome(r) == int_line(buffer@, pos as int),
            r matches Ok(Some((p, _))) ==> pos < p <= buffer@.len(),
    {
        proof {
            lemma_line_end(buffer@, pos as int);
        }
        match self.word(buffer, pos) {
            Some((next, w)) => {
                match parse_i64(w.as_slice(buffer)) {
                    Some(n) => Ok(Some((next, n))),
                    None => Err(RESPError::IntParseFailure),
                }
            },
            None => Ok(None),
        }
    }

    /// An integer value whose digits start at `pos`.
    pub fn resp_int(&self, buffer: &[u8], pos: usize) -> (r: RedisResult)
        ensures
            parsed_as(r, buffer@, pos as int, int_line(buffer@, pos as int)),
    {
        match self.integer(buffer, pos) {
            Ok(Some((next, n))) => Ok(Some((next, RedisBufSplit::Int(n)))),
            Ok(None) => Ok(None),
            Err(e) => Err(e),
        }
    }

    /// A bulk string whose size line starts at `pos`.
    pub fn bulk_string(&self, buffer: &[u8], pos: usize) -> (r: RedisResult)
        ensures
            parsed_as(r, buffer@, pos as int, bulk_at(buffer@, pos as int)),
            r matches Ok(Some((p, RedisBufSplit::BulkString(w)))) ==> {
                &&& int_line(buffer@, pos as int) matches Parsed::Done(next, _)
                &&& w.0 == next
                &&& w.1 + 2 == p
            },
    {
        match self.integer(buffer, pos) {
            Ok(Some((next, size))) => {
                if size == -1 {
                    Ok(Some((next, RedisBufSplit::NullBulkString)))
                } else if size < -1 {
                    Err(RESPError::BadBulkStringSize(size))
                } else {
                    let available = (buffer.len() - next) as u128;
                    if available < size as u128 + 2 {
                        Ok(None)
                    } else {
                        let end = next + size as usize;
                        Ok(Some((end + 2, RedisBufSplit::BulkString(BufSplit(next, end)))))
                    }
                }
            },
            Ok(None) => Ok(None),
            Err(e) => Err(e),
        }
    }

    /// One value of any kind, starting with its type byte at `pos`.
    pub fn parse(&self, buffer: &[u8], pos: usize) -> (r: RedisResult)
        ensures
            parsed_as(r, buffer@, pos as int, parse_at(buffer@, pos as int)),
        decreases buffer@.len() - pos,
    {
        if pos >= buffer.len() {
            return Ok(None);
        }
        let kind = buffer[pos];
        let r = if kind == 43 {
            self.simple_string(buffer, pos + 1)
        } else if kind == 45 {
            self.error(buffer, pos + 1)
        } else if kind == 58 {
            self.resp_int(buffer, pos + 1)
        } else if kind == 36 {
            self.bulk_string(buffer, pos + 1)
        } else if kind == 42 {
            self.array(buffer, pos + 1)
        } else {
            Err(RESPError::UnknownStartingByte)
        };
        proof {
            if r is Ok && r->Ok_0 is Some {
                let (p, v) = r->Ok_0->Some_0;
                lemma_spans_widen(v, pos + 1, p as int, pos as int, p as int);
            }
        }
        r
    }

    /// An array whose count line starts at `pos`, and its values.
    pub fn array(&self, buffer: &[u8], pos: usize) -> (r: RedisResult)
        ensures
            parsed_as(r, buffer@, pos as int, array_at(buffer@, pos as int)),
        decreases buffer@.len() - pos,
    {
        match self.integer(buffer, pos) {
            Ok(None) => Ok(None),
            Err(e) => Err(e),
            Ok(Some((next, count))) => {
                if count == -1 {
                    return Ok(Some((next, RedisBufSplit::NullArray)));
                }
                if count < -1 {
                    return Err(RESPError::BadArraySize(count));
                }
                let ghost s = buffer@;
                let mut values: Vec<RedisBufSplit> = Vec::new();
                let mut curr: usize = next;
                let mut k: i64 = 0;
                assert(prepend_all(Seq::empty(), items_at(s, curr as int, count as nat)) == items_at(
                    s,
                    curr as int,
                    count as nat,
                )) by {
                    lemma_prepend_nothing(items_at(s, curr as int, count as nat));
                }
                while k < count
                    invariant
                        0 <= k <= count,
                        s == buffer@,
                        pos < next <= curr <= s.len(),
                        values@.len() == k,
                        array_at(s, pos as int) == items_at(s, next as int, count as nat),
                        items_at(s, next as int, count as nat) == prepend_all(
                            split_values(values@, s),
                            items_at(s, curr as int, (count - k) as nat),
                        ),
                        spans_all_within(values@, pos as int, curr as int),
                    decreases count - k,
                {
                    match self.parse(buffer, curr) {
                        Err(e) => {
                            return Err(e);
                        },
                        Ok(None) => {
                            return Ok(None);
                        },
                        Ok(Some((p, v))) => {
                            proof {
                                lemma_parse_bounds(s, curr as int);
                                let ghost m = (count - k) as nat;
                                lemma_prepend_one(
                                    split_values(values@, s),
                                    split_value(v, s),
                                    items_at(s, p as int, (m - 1) as nat),
                                );
                                assert(values@.push(v).subrange(0, values@.len() as int) =~= values@);
                                lemma_spans_all_widen(values@, pos as int, curr as int, pos as int, p as int);
                                lemma_spans_widen(v, curr as int, p as int, pos as int, p as int);
                            }
                            values.push(v);
                            curr = p;
                            k = k + 1;
                        },
                    }
                }
                proof {
                    lemma_prepend_nothing_after(split_values(values@, s), curr as int);
                }
                Ok(Some((curr, RedisBufSplit::Array(values))))
            },
        }
    }

    /// Decodes the first frame of `buffer`. When a whole frame is there, it is taken
    /// off the front of the buffer and its value is returned; when only part of one
    /// is there, or the frame is malformed, the buffer is left as it was.
    pub fn decode(&mut self, buffer: &mut BytesMut) -> (r: Result<Option<RedisValueRef>, RESPError>)
        ensures
            *final(self) == *old(self),
            match parse_at(buffer_contents(*old(buffer)), 0) {
                Parsed::Done(p, v) => {
                    &&& r matches Ok(Some(x)) && x@ == v
                    &&& buffer_contents(*final(buffer)) == buffer_contents(*old(buffer)).subrange(
                        p,
                        buffer_contents(*old(buffer)).len() as int,
                    )
                },
                Parsed::Incomplete => {
                    &&& r matches Ok(None)
                    &&& buffer_contents(*final(buffer)) == buffer_contents(*old(buffer))
                },
                Parsed::Failed(e) => {
                    &&& r == Err::<Option<RedisValueRef>, RESPError>(e)
                    &&& buffer_contents(*final(buffer)) == buffer_contents(*old(buffer))
                },
            },
    {
        let ghost s = buffer_contents(*buffer);
        let bytes = held_bytes(buffer);
        match self.parse(bytes, 0) {
            Ok(Some((pos, value))) => {
                proof {
                    lemma_parse_bounds(s, 0);
                    lemma_spans_widen(value, 0, pos as int, 0, s.len() as int);
                }
                let result = value.redis_value(bytes);
                let _frame = take_front(buffer, pos);
                Ok(Some(result))
            },
            Ok(None) => Ok(None),
            Err(e) => Err(e),
        }
    }
}

impl Default for RedisParser {
    fn default() -> (r: Self)
        ensures
            r == RedisParser,
    {
        Self::new()
    }
}

/// A frame that decodes ends after the position where it starts, inside the buffer.
pub proof fn lemma_parse_bounds(s: Seq<u8>, pos: int)
    ensures
        parse_at(s, pos) matches Parsed::Done(p, _) ==> pos < p <= s.len(),
    decreases s.len() - pos, 0int,
{
    if 0 <= pos < s.len() {
        lemma_line_end(s, pos + 1);
        if s[pos] == 42 {
            lemma_array_bounds(s, pos + 1);
        }
    }
}

/// An array that decodes ends after its count line, inside the buffer.
pub proof fn lemma_array_bounds(s: Seq<u8>, from: int)
    ensures
        array_at(s, from) matches Parsed::Done(p, _) ==> from < p <= s.len(),
    decreases s.len() - from, 0int,
{
    lemma_line_end(s, from);
    if let Parsed::Done(next, Resp::Integer(n)) = int_line(s, from) {
        if n >= 0 {
            lemma_items_bounds(s, next, n as nat);
        }
    }
}

/// A run of items that decodes ends at or after where it starts, inside the buffer.
pub proof fn lemma_items_bounds(s: Seq<u8>, pos: int, n: nat)
    requires
        0 <= pos <= s.len(),
    ensures
        items_at(s, pos, n) matches Parsed::Done(q, _) ==> pos <= q <= s.len(),
    decreases s.len() - pos, n,
{
    if n > 0 {
        if let Parsed::Done(p, v) = parse_at(s, pos) {
            if pos < p <= s.len() {
                lemma_items_bounds(s, p, (n - 1) as nat);
            }
        }
    }
}

/// Putting nothing in front leaves an outcome as it is.
pub proof fn lemma_prepend_nothing(rest: Parsed)
    ensures
        prepend_all(Seq::empty(), rest) == rest,
{
    if let Parsed::Done(q, Resp::Array(ws)) = rest {
        assert(Seq::<Resp>::empty() + ws =~= ws);
    }
}

/// Putting `vs` in front of the empty run gives `vs`.
pub proof fn lemma_prepend_nothing_after(vs: Seq<Resp>, q: int)
    ensures
        prepend_all(vs, Parsed::Done(q, Resp::Array(Seq::empty()))) == Parsed::Done(q, Resp::Array(vs)),
{
    assert(vs + Seq::<Resp>::empty() =~= vs);
}

/// Putting `vs` and then `v` in front is putting `vs` with `v` pushed.
pub proof fn lemma_prepend_one(vs: Seq<Resp>, v: Resp, rest: Parsed)
    ensures
        prepend_all(vs, prepend_all(seq![v], rest)) == prepend_all(vs.push(v), rest),
{
    if let Parsed::Done(q, Resp::Array(ws)) = rest {
        assert(vs + (seq![v] + ws) =~= vs.push(v) + ws);
    }
}

impl BufSplit {
    /// The bytes of the span.
    pub fn as_slice<'a>(&self, buffer: &'a [u8]) -> (r: &'a [u8])
        requires
            self.0 <= self.1 <= buffer@.len(),
        ensures
            r@ == buffer@.subrange(self.0 as int, self.1 as int),
    {
        &buffer[self.0..self.1]
    }

    /// An owned copy of the bytes of the span.
    pub fn as_bytes(&self, buffer: &[u8]) -> (r: Vec<u8>)
        requires
            self.0 <= self.1 <= buffer@.len(),
        ensures
            r@ == buffer@.subrange(self.0 as int, self.1 as int),
    {
        vstd::slice::slice_to_vec(self.as_slice(buffer))
    }
}

impl RedisBufSplit {
    /// The value with its bytes copied out of `buffer`.
    pub fn redis_value(self, buffer: &[u8]) -> (r: RedisValueRef)
        requires
            spans_within(self, 0, buffer@.len() as int),
        ensures
            r@ == split_value(self, buffer@),
    {
        materialize(&self, buffer)
    }
}

fn materialize(v: &RedisBufSplit, buffer: &[u8]) -> (r: RedisValueRef)
    requires
        spans_within(*v, 0, buffer@.len() as int),
    ensures
        r@ == split_value(*v, buffer@),
    decreases v,
{
    match v {
        RedisBufSplit::SimpleString(b) => RedisValueRef::SimpleString(b.as_bytes(buffer)),
        RedisBufSplit::Error(b) => RedisValueRef::Error(b.as_bytes(buffer)),
        RedisBufSplit::Int(n) => RedisValueRef::Int(*n),
        RedisBufSplit::BulkString(b) => RedisValueRef::BulkString(b.as_bytes(buffer)),
        RedisBufSplit::NullArray => RedisValueRef::NullArray,
        RedisBufSplit::NullBulkString => RedisValueRef::NullBulkString,
        RedisBufSplit::Array(items) => {
            let mut out: Vec<RedisValueRef> = Vec::new();
            let mut i: usize = 0;
            proof {
                lemma_spans_all_within(items@, 0, buffer@.len() as int);
            }
            while i < items.len()
                invariant
                    i <= items@.len(),
                    *v == RedisBufSplit::Array(*items),
                    out@.len() == i,
                    values_of(out@) == split_values(items@.subrange(0, i as int), buffer@),
                    forall|k: int|
                        0 <= k < items@.len() ==> spans_within(
                            #[trigger] items@[k],
                            0,
                            buffer@.len() as int,
                        ),
                decreases items.len() - i,
            {
                proof {
                    assert(decreases_to!(*v => v->Array_0));
                    assert(decreases_to!(v->Array_0 => items@));
                    assert(decreases_to!(items@ => items@[i as int]));
                }
                let item = materialize(&items[i], buffer);
                proof {
                    assert(out@.push(item).subrange(0, i as int) =~= out@);
                    assert(items@.subrange(0, i + 1).subrange(0, i as int) =~= items@.subrange(
                        0,
                        i as int,
                    ));
                }
                out.push(item);
                i = i + 1;
            }
            assert(items@.subrange(0, i as int) =~= items@);
            RedisValueRef::Array(out)
        },
    }
}

/// Every item of a run whose spans all lie within `[lo, hi]` has its spans there.
pub proof fn lemma_spans_all_within(items: Seq<RedisBufSplit>, lo: int, hi: int)
    requires
        spans_all_within(items, lo, hi),
    ensures
        forall|k: int| 0 <= k < items.len() ==> spans_within(#[trigger] items[k], lo, hi),
    decreases items.len(),
{
    if items.len() > 0 {
        let init = items.subrange(0, items.len() - 1);
        lemma_spans_all_within(init, lo, hi);
        assert forall|k: int| 0 <= k < items.len() implies spans_within(#[trigger] items[k], lo, hi) by {
            if k < items.len() - 1 {
                assert(init[k] == items[k]);
            }
        }
    }
}

} // verus!
