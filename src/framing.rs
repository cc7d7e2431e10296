use vstd::prelude::*;
use crate::number::{int_text, lemma_int_text, nat_digits};
use crate::parser::{
    array_at, bulk_at, int_line, items_at, lemma_items_bounds, lemma_line_end, lemma_line_end_skip, lemma_parse_bounds,
    line_end, parse_at, prepend_all, Parsed,
};
use crate::resp::{crlf, crlf_at, encoding, encoding_all, no_crlf, well_formed, Resp};

verus! {

/// A piece of a buffer that holds `enc` at `pos` is the matching piece of `enc`.
proof fn lemma_piece(s: Seq<u8>, pos: int, enc: Seq<u8>, i: int, j: int)
    requires
        0 <= pos,
        pos + enc.len() <= s.len(),
        s.subrange(pos, pos + enc.len()) == enc,
        0 <= i <= j <= enc.len(),
    ensures
        s.subrange(pos + i, pos + j) == enc.subrange(i, j),
{
    assert forall|k: int| 0 <= k < j - i implies s.subrange(pos + i, pos + j)[k] == enc.subrange(
        i,
        j,
    )[k] by {
        assert(s.subrange(pos, pos + enc.len())[i + k] == s[pos + i + k]);
    }
    assert(s.subrange(pos + i, pos + j) =~= enc.subrange(i, j));
}

/// A line with no CR LF in its text ends right after the text.
proof fn lemma_line_at(s: Seq<u8>, a: int, t: Seq<u8>)
    requires
        no_crlf(t),
        0 <= a,
        a + t.len() + 2 <= s.len(),
        s.subrange(a, a + t.len() + 2) == t + crlf(),
    ensures
        line_end(s, a) == Some(a + t.len()),
{
    let line = t + crlf();
    assert forall|k: int| 0 <= k < t.len() + 2 implies s[a + k] == #[trigger] line[k] by {
        assert(s.subrange(a, a + t.len() + 2)[k] == s[a + k]);
    }
    assert forall|k: int| a <= k < a + t.len() implies !crlf_at(s, k) by {
        if k + 1 < a + t.len() {
            assert(!crlf_at(t, k - a));
            assert(line[k - a] == t[k - a] && line[k - a + 1] == t[k - a + 1]);
        } else {
            assert(line[k - a + 1] == 13);
        }
    }
    lemma_line_end_skip(s, a, a + t.len());
    assert(line[t.len() as int] == 13 && line[t.len() as int + 1] == 10);
    assert(crlf_at(s, a + t.len()));
}

/// The decimal text of `n` and a CR LF read back as `n`.
proof fn lemma_int_line_at(s: Seq<u8>, a: int, n: i64)
    requires
        0 <= a,
        a + int_text(n as int).len() + 2 <= s.len(),
        s.subrange(a, a + int_text(n as int).len() + 2) == int_text(n as int) + crlf(),
    ensures
        int_line(s, a) == Parsed::Done(a + int_text(n as int).len() + 2, Resp::Integer(n)),
{
    let t = int_text(n as int);
    lemma_int_text(n as int);
    assert(no_crlf(t)) by {
        assert forall|i: int| !crlf_at(t, i) by {
            if 0 <= i < t.len() {
                assert(t[i] != 13u8);
            }
        }
    }
    lemma_line_at(s, a, t);
    assert(s.subrange(a, a + t.len()) =~= t) by {
        assert forall|k: int| 0 <= k < t.len() implies s.subrange(a, a + t.len())[k] == t[k] by {
            assert(s.subrange(a, a + t.len() + 2)[k] == (t + crlf())[k]);
        }
    }
}

/// The wire forms of a non-empty run: the first item's, then the rest's.
proof fn lemma_encoding_all_first(items: Seq<Resp>)
    requires
        items.len() > 0,
    ensures
        encoding_all(items) == encoding(items[0]) + encoding_all(items.subrange(1, items.len() as int)),
    decreases items.len(),
{
    let n = items.len() as int;
    if n == 1 {
        assert(items.subrange(0, 0) =~= Seq::<Resp>::empty());
        assert(items.subrange(1, 1) =~= Seq::<Resp>::empty());
        assert(encoding_all(Seq::<Resp>::empty()) == Seq::<u8>::empty());
        assert(encoding_all(items) =~= encoding(items[0]) + encoding_all(items.subrange(1, n)));
    } else {
        let init = items.subrange(0, n - 1);
        lemma_encoding_all_first(init);
        assert(init.subrange(1, n - 1) =~= items.subrange(1, n).subrange(0, n - 2));
        assert(items.subrange(1, n)[n - 2] == items[n - 1]);
        assert(init[0] == items[0]);
        assert(encoding_all(items) =~= encoding(items[0]) + encoding_all(items.subrange(1, n)));
    }
}

/// Every wire form holds at least its type byte.
proof fn lemma_encoding_nonempty(v: Resp)
    ensures
        encoding(v).len() >= 1,
{
}

/// A well-formed value whose wire form stands at `pos` decodes there, ending right
/// after that form.
pub proof fn lemma_decode_at(s: Seq<u8>, pos: int, v: Resp)
    requires
        well_formed(v),
        0 <= pos,
        pos + encoding(v).len() <= s.len(),
        s.subrange(pos, pos + encoding(v).len()) == encoding(v),
    ensures
        parse_at(s, pos) == Parsed::Done(pos + encoding(v).len(), v),
    decreases v,
{
    let enc = encoding(v);
    assert(s[pos] == enc[0]) by {
        assert(s.subrange(pos, pos + enc.len())[0] == s[pos]);
    }
    match v {
        Resp::Simple(t) => {
            lemma_piece(s, pos, enc, 1, enc.len() as int);
            assert(enc.subrange(1, enc.len() as int) =~= t + crlf());
            lemma_line_at(s, pos + 1, t);
            lemma_piece(s, pos, enc, 1, 1 + t.len() as int);
            assert(enc.subrange(1, 1 + t.len() as int) =~= t);
        },
        Resp::Error(t) => {
            lemma_piece(s, pos, enc, 1, enc.len() as int);
            assert(enc.subrange(1, enc.len() as int) =~= t + crlf());
            lemma_line_at(s, pos + 1, t);
            lemma_piece(s, pos, enc, 1, 1 + t.len() as int);
            assert(enc.subrange(1, 1 + t.len() as int) =~= t);
        },
        Resp::Integer(n) => {
            lemma_piece(s, pos, enc, 1, enc.len() as int);
            assert(enc.subrange(1, enc.len() as int) =~= int_text(n as int) + crlf());
            lemma_int_line_at(s, pos + 1, n);
        },
        Resp::Bulk(b) => {
            let len = b.len() as i64;
            let d = nat_digits(b.len());
            assert(int_text(len as int) == d);
            lemma_piece(s, pos, enc, 1, 1 + d.len() as int + 2);
            assert(enc.subrange(1, 1 + d.len() as int + 2) =~= d + crlf());
            lemma_int_line_at(s, pos + 1, len);
            let next = pos + 1 + d.len() as int + 2;
            lemma_piece(s, pos, enc, 1 + d.len() as int + 2, 1 + d.len() as int + 2 + b.len() as int);
            assert(enc.subrange(1 + d.len() as int + 2, 1 + d.len() as int + 2 + b.len() as int) =~= b);
            assert(bulk_at(s, pos + 1) == Parsed::Done(next + b.len() + 2, Resp::Bulk(b)));
        },
        Resp::NullBulk => {
            assert(int_text(-1) =~= seq![45u8, 49u8]);
            lemma_piece(s, pos, enc, 1, 5);
            assert(enc.subrange(1, 5) =~= int_text(-1) + crlf());
            lemma_int_line_at(s, pos + 1, -1i64);
        },
        Resp::NullArray => {
            assert(int_text(-1) =~= seq![45u8, 49u8]);
            lemma_piece(s, pos, enc, 1, 5);
            assert(enc.subrange(1, 5) =~= int_text(-1) + crlf());
            lemma_int_line_at(s, pos + 1, -1i64);
        },
        Resp::Array(items) => {
            let count = items.len() as i64;
            let d = nat_digits(items.len());
            assert(int_text(count as int) == d);
            lemma_piece(s, pos, enc, 1, 1 + d.len() as int + 2);
            assert(enc.subrange(1, 1 + d.len() as int + 2) =~= d + crlf());
            lemma_int_line_at(s, pos + 1, count);
            let next = pos + 1 + d.len() as int + 2;
            let body = encoding_all(items);
            lemma_piece(s, pos, enc, 1 + d.len() as int + 2, enc.len() as int);
            assert(enc.subrange(1 + d.len() as int + 2, enc.len() as int) =~= body);
            lemma_decode_items_at(s, next, items);
            assert(array_at(s, pos + 1) == items_at(s, next, items.len()));
        },
    }
}

/// Well-formed values whose wire forms stand one after the other from `pos` decode
/// there as a run.
pub proof fn lemma_decode_items_at(s: Seq<u8>, pos: int, items: Seq<Resp>)
    requires
        forall|i: int| 0 <= i < items.len() ==> well_formed(#[trigger] items[i]),
        0 <= pos,
        pos + encoding_all(items).len() <= s.len(),
        s.subrange(pos, pos + encoding_all(items).len()) == encoding_all(items),
    ensures
        items_at(s, pos, items.len()) == Parsed::Done(
            pos + encoding_all(items).len(),
            Resp::Array(items),
        ),
    decreases items,
{
    if items.len() == 0 {
        assert(items =~= Seq::<Resp>::empty());
    } else {
        let first = items[0];
        let rest = items.subrange(1, items.len() as int);
        let all = encoding_all(items);
        lemma_encoding_all_first(items);
        let e1 = encoding(first).len();
        lemma_encoding_nonempty(first);
        lemma_piece(s, pos, all, 0, e1 as int);
        assert(all.subrange(0, e1 as int) =~= encoding(first));
        lemma_decode_at(s, pos, first);
        lemma_piece(s, pos, all, e1 as int, all.len() as int);
        assert(all.subrange(e1 as int, all.len() as int) =~= encoding_all(rest));
        assert forall|i: int| 0 <= i < rest.len() implies well_formed(#[trigger] rest[i]) by {
            assert(rest[i] == items[i + 1]);
        }
        lemma_decode_items_at(s, pos + e1, rest);
        assert(seq![first] + rest =~= items);
        assert(rest.len() == (items.len() - 1) as nat);
    }
}

/// Decoding the wire form of a well-formed value gives back the value, with no byte
/// left over.
pub proof fn lemma_round_trip(v: Resp)
    requires
        well_formed(v),
    ensures
        parse_at(encoding(v), 0) == Parsed::Done(encoding(v).len() as int, v),
{
    assert(encoding(v).subrange(0, encoding(v).len() as int) =~= encoding(v));
    lemma_decode_at(encoding(v), 0, v);
}

/// In a prefix of `s`, a line ends where it ends in `s` when the prefix holds its
/// CR LF, and nowhere otherwise.
proof fn lemma_line_end_prefix(s: Seq<u8>, from: int, k: int)
    requires
        0 <= from,
        0 <= k <= s.len(),
        line_end(s, from) is Some,
    ensures
        line_end(s.subrange(0, k), from) == if k >= line_end(s, from)->0 + 2 {
            line_end(s, from)
        } else {
            None
        },
{
    let t = s.subrange(0, k);
    let e = line_end(s, from)->0;
    lemma_line_end(s, from);
    assert forall|j: int| #[trigger] crlf_at(t, j) implies crlf_at(s, j) && j + 1 < k by {
        assert(t[j] == s[j] && t[j + 1] == s[j + 1]);
    }
    if k >= e + 2 {
        lemma_line_end_skip(t, from, e);
        assert(t[e] == s[e] && t[e + 1] == s[e + 1]);
        assert(crlf_at(t, e));
    } else {
        let stop = if k > from {
            k
        } else {
            from
        };
        lemma_line_end_skip(t, from, stop);
    }
}

/// In a prefix of `s`, an integer line reads as in `s` when the prefix holds the
/// whole line, and asks for more bytes otherwise.
proof fn lemma_int_line_prefix(s: Seq<u8>, from: int, k: int)
    requires
        0 <= from,
        0 <= k <= s.len(),
        int_line(s, from) is Done,
    ensures
        int_line(s.subrange(0, k), from) == if k >= int_line(s, from)->Done_0 {
            int_line(s, from)
        } else {
            Parsed::Incomplete
        },
{
    let t = s.subrange(0, k);
    lemma_line_end_prefix(s, from, k);
    lemma_line_end(s, from);
    let e = line_end(s, from)->0;
    if k >= e + 2 {
        assert(t.subrange(from, e) =~= s.subrange(from, e));
    }
}

/// Decoding reads no byte past the end of the frame that it finds: a prefix of the
/// buffer that holds the whole frame decodes the same, and a shorter one asks for
/// more bytes.
pub proof fn lemma_parse_prefix(s: Seq<u8>, pos: int, k: int)
    requires
        0 <= pos,
        0 <= k <= s.len(),
        parse_at(s, pos) is Done,
    ensures
        parse_at(s.subrange(0, k), pos) == if k >= parse_at(s, pos)->Done_0 {
            parse_at(s, pos)
        } else {
            Parsed::Incomplete
        },
    decreases s.len() - pos, 0int,
{
    let t = s.subrange(0, k);
    lemma_parse_bounds(s, pos);
    if k > pos {
        assert(t[pos] == s[pos]);
        if s[pos] == 43 || s[pos] == 45 {
            lemma_line_end_prefix(s, pos + 1, k);
            lemma_line_end(s, pos + 1);
            let e = line_end(s, pos + 1)->0;
            if k >= e + 2 {
                assert(t.subrange(pos + 1, e) =~= s.subrange(pos + 1, e));
            }
        } else if s[pos] == 58 {
            lemma_int_line_prefix(s, pos + 1, k);
        } else if s[pos] == 36 {
            lemma_int_line_prefix(s, pos + 1, k);
            lemma_line_end(s, pos + 1);
            if let Parsed::Done(next, Resp::Integer(n)) = int_line(s, pos + 1) {
                if k >= next + n + 2 && n >= 0 {
                    assert(t.subrange(next, next + n) =~= s.subrange(next, next + n));
                }
            }
        } else if s[pos] == 42 {
            lemma_int_line_prefix(s, pos + 1, k);
            lemma_line_end(s, pos + 1);
            if let Parsed::Done(next, Resp::Integer(n)) = int_line(s, pos + 1) {
                if n >= 0 {
                    lemma_items_bounds(s, next, n as nat);
                    if k >= next {
                        lemma_items_prefix(s, next, n as nat, k);
                    }
                }
            }
        }
    }
}

/// The run form of `lemma_parse_prefix`.
pub proof fn lemma_items_prefix(s: Seq<u8>, pos: int, n: nat, k: int)
    requires
        0 <= pos <= k <= s.len(),
        items_at(s, pos, n) is Done,
    ensures
        items_at(s.subrange(0, k), pos, n) == if k >= items_at(s, pos, n)->Done_0 {
            items_at(s, pos, n)
        } else {
            Parsed::Incomplete
        },
    decreases s.len() - pos, n,
{
    if n > 0 {
        lemma_parse_bounds(s, pos);
        lemma_parse_prefix(s, pos, k);
        if let Parsed::Done(p, v) = parse_at(s, pos) {
            lemma_items_bounds(s, p, (n - 1) as nat);
            if k >= p {
                lemma_items_prefix(s, p, (n - 1) as nat, k);
            }
        }
    }
}

/// Feeding a decoder the wire form of a well-formed value one byte at a time: every
/// proper prefix asks for more bytes, and the whole form decodes to the value.
pub proof fn lemma_prefixes_of_encoding(v: Resp, k: int)
    requires
        well_formed(v),
        0 <= k <= encoding(v).len(),
    ensures
        parse_at(encoding(v).subrange(0, k), 0) == if k < encoding(v).len() {
            Parsed::Incomplete
        } else {
            Parsed::Done(encoding(v).len() as int, v)
        },
{
    lemma_round_trip(v);
    lemma_parse_prefix(encoding(v), 0, k);
    if k == encoding(v).len() {
        assert(encoding(v).subrange(0, k) =~= encoding(v));
    }
}

/// A buffer `t` that starts with `s` agrees with it on every byte of `s`.
proof fn lemma_starts_with(s: Seq<u8>, t: Seq<u8>)
    requires
        s.len() <= t.len(),
        t.subrange(0, s.len() as int) == s,
    ensures
        forall|i: int| 0 <= i < s.len() ==> #[trigger] t[i] == s[i],
{
    assert forall|i: int| 0 <= i < s.len() implies #[trigger] t[i] == s[i] by {
        assert(t.subrange(0, s.len() as int)[i] == t[i]);
    }
}

/// A line that ends in `s` ends at the same place in a buffer that starts with `s`.
proof fn lemma_line_end_extend(s: Seq<u8>, t: Seq<u8>, from: int)
    requires
        0 <= from,
        s.len() <= t.len(),
        t.subrange(0, s.len() as int) == s,
        line_end(s, from) is Some,
    ensures
        line_end(t, from) == line_end(s, from),
{
    let e = line_end(s, from)->0;
    lemma_line_end(s, from);
    lemma_starts_with(s, t);
    assert forall|k: int| from <= k < e implies !crlf_at(t, k) by {
        assert(!crlf_at(s, k));
    }
    lemma_line_end_skip(t, from, e);
    assert(crlf_at(t, e));
}

/// An integer line that reads in `s` reads the same in a buffer that starts with `s`.
proof fn lemma_int_line_extend(s: Seq<u8>, t: Seq<u8>, from: int)
    requires
        0 <= from,
        s.len() <= t.len(),
        t.subrange(0, s.len() as int) == s,
        int_line(s, from) is Done,
    ensures
        int_line(t, from) == int_line(s, from),
{
    lemma_line_end_extend(s, t, from);
    lemma_line_end(s, from);
    lemma_starts_with(s, t);
    let e = line_end(s, from)->0;
    assert(t.subrange(from, e) =~= s.subrange(from, e));
}

/// Bytes after a complete frame do not change how it decodes: a buffer that starts
/// with `s` decodes at `pos` as `s` does, when `s` holds a whole frame there.
pub proof fn lemma_parse_extend(s: Seq<u8>, t: Seq<u8>, pos: int)
    requires
        0 <= pos,
        s.len() <= t.len(),
        t.subrange(0, s.len() as int) == s,
        parse_at(s, pos) is Done,
    ensures
        parse_at(t, pos) == parse_at(s, pos),
    decreases s.len() - pos, 0int,
{
    lemma_starts_with(s, t);
    lemma_line_end(s, pos + 1);
    if s[pos] == 43 || s[pos] == 45 {
        lemma_line_end_extend(s, t, pos + 1);
        let e = line_end(s, pos + 1)->0;
        assert(t.subrange(pos + 1, e) =~= s.subrange(pos + 1, e));
    } else if s[pos] == 58 {
        lemma_int_line_extend(s, t, pos + 1);
    } else if s[pos] == 36 {
        lemma_int_line_extend(s, t, pos + 1);
        if let Parsed::Done(next, Resp::Integer(n)) = int_line(s, pos + 1) {
            if n >= 0 && s.len() >= next + n + 2 {
                assert(t.subrange(next, next + n) =~= s.subrange(next, next + n));
            }
        }
    } else if s[pos] == 42 {
        lemma_int_line_extend(s, t, pos + 1);
        if let Parsed::Done(next, Resp::Integer(n)) = int_line(s, pos + 1) {
            if n >= 0 {
                lemma_items_extend(s, t, next, n as nat);
            }
        }
    }
}

/// The run form of `lemma_parse_extend`.
pub proof fn lemma_items_extend(s: Seq<u8>, t: Seq<u8>, pos: int, n: nat)
    requires
        0 <= pos,
        s.len() <= t.len(),
        t.subrange(0, s.len() as int) == s,
        items_at(s, pos, n) is Done,
    ensures
        items_at(t, pos, n) == items_at(s, pos, n),
    decreases s.len() - pos, n,
{
    if n > 0 {
        lemma_parse_extend(s, t, pos);
        if let Parsed::Done(p, v) = parse_at(s, pos) {
            if pos < p <= s.len() {
                if items_at(s, p, (n - 1) as nat) is Done {
                    lemma_items_extend(s, t, p, (n - 1) as nat);
                }
            }
        }
    }
}

} // verus!
