use vstd::prelude::*;
use crate::number::{int_text, nat_digits, push_int, push_nat};

verus! {

/// A protocol value, as a mathematical object.
pub enum Resp {
    Simple(Seq<u8>),
    Error(Seq<u8>),
    Integer(i64),
    Bulk(Seq<u8>),
    NullBulk,
    Array(Seq<Resp>),
    NullArray,
}

/// A protocol value that owns its bytes.
#[derive(PartialEq, Debug)]
pub enum RedisValueRef {
    SimpleString(Vec<u8>),
    Error(Vec<u8>),
    Int(i64),
    BulkString(Vec<u8>),
    Array(Vec<RedisValueRef>),
    NullArray,
    NullBulkString,
}

/// The mathematical value that `v` holds.
pub open spec fn value_of(v: RedisValueRef) -> Resp
    decreases v,
{
    match v {
        RedisValueRef::SimpleString(b) => Resp::Simple(b@),
        RedisValueRef::Error(b) => Resp::Error(b@),
        RedisValueRef::Int(n) => Resp::Integer(n),
        RedisValueRef::BulkString(b) => Resp::Bulk(b@),
        RedisValueRef::Array(items) => Resp::Array(values_of(items@)),
        RedisValueRef::NullArray => Resp::NullArray,
        RedisValueRef::NullBulkString => Resp::NullBulk,
    }
}

/// The mathematical values that `items` hold, in order.
pub open spec fn values_of(items: Seq<RedisValueRef>) -> Seq<Resp>
    decreases items,
{
    if items.len() == 0 {
        Seq::empty()
    } else {
        values_of(items.subrange(0, items.len() - 1)).push(value_of(items[items.len() - 1]))
    }
}

/// `values_of` maps each item to its value.
pub proof fn lemma_values_of(items: Seq<RedisValueRef>)
    ensures
        values_of(items).len() == items.len(),
        forall|i: int| 0 <= i < items.len() ==> #[trigger] values_of(items)[i] == value_of(items[i]),
    decreases items.len(),
{
    if items.len() > 0 {
        let init = items.subrange(0, items.len() - 1);
        lemma_values_of(init);
        assert forall|i: int| 0 <= i < items.len() implies #[trigger] values_of(items)[i] == value_of(
            items[i],
        ) by {
            if i < items.len() - 1 {
                assert(init[i] == items[i]);
            }
        }
    }
}

impl View for RedisValueRef {
    type V = Resp;

    open spec fn view(&self) -> Resp {
        value_of(*self)
    }
}

/// The line terminator.
pub open spec fn crlf() -> Seq<u8> {
    seq![13u8, 10u8]
}

/// A CR LF pair starts at index `i` of `s`.
pub open spec fn crlf_at(s: Seq<u8>, i: int) -> bool {
    0 <= i && i + 1 < s.len() && s[i] == 13 && s[i + 1] == 10
}

/// `t` holds no CR LF pair, so that it can stand on one line.
pub open spec fn no_crlf(t: Seq<u8>) -> bool {
    forall|i: int| !crlf_at(t, i)
}

/// The wire form of a value.
pub open spec fn encoding(v: Resp) -> Seq<u8>
    decreases v,
{
    match v {
        Resp::Simple(t) => seq![43u8] + t + crlf(),
        Resp::Error(t) => seq![45u8] + t + crlf(),
        Resp::Integer(n) => seq![58u8] + int_text(n as int) + crlf(),
        Resp::Bulk(b) => seq![36u8] + nat_digits(b.len()) + crlf() + b + crlf(),
        Resp::NullBulk => seq![36u8, 45u8, 49u8] + crlf(),
        Resp::Array(items) => seq![42u8] + nat_digits(items.len()) + crlf() + encoding_all(items),
        Resp::NullArray => seq![42u8, 45u8, 49u8] + crlf(),
    }
}

/// The wire forms of `items`, one after the other.
pub open spec fn encoding_all(items: Seq<Resp>) -> Seq<u8>
    decreases items,
{
    if items.len() == 0 {
        Seq::empty()
    } else {
        encoding_all(items.subrange(0, items.len() - 1)) + encoding(items[items.len() - 1])
    }
}

/// A value that the wire form can carry: lines hold no CR LF, and sizes fit in an `i64`.
pub open spec fn well_formed(v: Resp) -> bool
    decreases v,
{
    match v {
        Resp::Simple(t) => no_crlf(t),
        Resp::Error(t) => no_crlf(t),
        Resp::Bulk(b) => b.len() <= i64::MAX,
        Resp::Array(items) => items.len() <= i64::MAX && forall|i: int|
            0 <= i < items.len() ==> well_formed(#[trigger] items[i]),
        _ => true,
    }
}

fn push_crlf(out: &mut Vec<u8>)
    ensures
        final(out)@ == old(out)@ + crlf(),
{
    out.push(13);
    out.push(10);
    assert(final(out)@ =~= old(out)@ + crlf());
}

pub fn push_bytes(out: &mut Vec<u8>, b: &[u8])
    ensures
        final(out)@ == old(out)@ + b@,
{
    let mut i: usize = 0;
    while i < b.len()
        invariant
            i <= b@.len(),
            out@ == old(out)@ + b@.subrange(0, i as int),
        decreases b.len() - i,
    {
        out.push(b[i]);
        i = i + 1;
        assert(out@ =~= old(out)@ + b@.subrange(0, i as int));
    }
    assert(b@.subrange(0, i as int) =~= b@);
}

/// Appends the wire form of `v`.
pub fn encode_into(v: &RedisValueRef, out: &mut Vec<u8>)
    ensures
        final(out)@ == old(out)@ + encoding(v@),
    decreases v,
{
    let ghost start = out@;
    match v {
        RedisValueRef::SimpleString(t) => {
            out.push(43);
            push_bytes(out, t.as_slice());
            push_crlf(out);
        },
        RedisValueRef::Error(t) => {
            out.push(45);
            push_bytes(out, t.as_slice());
            push_crlf(out);
        },
        RedisValueRef::Int(n) => {
            out.push(58);
            push_int(out, *n);
            push_crlf(out);
        },
        RedisValueRef::BulkString(b) => {
            out.push(36);
            push_nat(out, b.len() as u64);
            push_crlf(out);
            push_bytes(out, b.as_slice());
            push_crlf(out);
        },
        RedisValueRef::NullBulkString => {
            out.push(36);
            out.push(45);
            out.push(49);
            push_crlf(out);
        },
        RedisValueRef::Array(items) => {
            out.push(42);
            push_nat(out, items.len() as u64);
            push_crlf(out);
            let ghost head = out@;
            proof {
                lemma_values_of(items@);
            }
            let mut i: usize = 0;
            while i < items.len()
                invariant
                    i <= items@.len(),
                    out@ == head + encoding_all(v@->Array_0.subrange(0, i as int)),
                    v@ == Resp::Array(v@->Array_0),
                    *v == RedisValueRef::Array(*items),
                    v@->Array_0.len() == items@.len(),
                    forall|k: int| 0 <= k < items@.len() ==> v@->Array_0[k] == (#[trigger] items@[k])@,
                decreases items.len() - i,
            {
                proof {
                    assert(decreases_to!(*v => *items));
                    assert(decreases_to!(*items => items@));
                    assert(decreases_to!(items@ => items@[i as int]));
                }
                encode_into(&items[i], out);
                i = i + 1;
                assert(v@->Array_0.subrange(0, i as int).subrange(0, i - 1) =~= v@->Array_0.subrange(
                    0,
                    i - 1,
                ));
            }
            assert(v@->Array_0.subrange(0, i as int) =~= v@->Array_0);
        },
        RedisValueRef::NullArray => {
            out.push(42);
            out.push(45);
            out.push(49);
            push_crlf(out);
        },
    }
    assert(final(out)@ =~= start + encoding(v@));
}

/// The wire form of `v`.
pub fn encode(v: &RedisValueRef) -> (r: Vec<u8>)
    ensures
        r@ == encoding(v@),
{
    let mut out: Vec<u8> = Vec::new();
    encode_into(v, &mut out);
    assert(out@ =~= encoding(v@));
    out
}

} // verus!
