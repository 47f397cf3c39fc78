//! The library's laws: the canonical encoding of every well-formed frame
//! decodes back to exactly that frame, consuming exactly its wire bytes,
//! wherever it sits in a larger buffer.
use crate::wire::{
    all_digits, dec_digits, dec_value, find_crlf, is_digit, lemma_dec_digits, lemma_find_crlf,
    lemma_parse_bounds, lemma_parse_items_bounds, line_ok, parse_at, parse_items, text_of,
    valid_u64_line, wf, wire, wire_items, FrameVal, Parsed, ParsedSeq,
};
use vstd::prelude::*;
use vstd::utf8::{
    char_is_scalar, char_u32_cast, encode_scalar, encode_utf8, encode_utf8_decode_utf8,
    encode_utf8_valid_utf8, has_width_1_encoding, leading_byte_width_1,
};

verus! {

broadcast use vstd::seq::group_seq_axioms;

proof fn lemma_encode_scalar_no_cr(c: char)
    requires
        c != '\r',
    ensures
        forall|t: int|
            0 <= t < encode_scalar(c as u32).len() ==> #[trigger] encode_scalar(c as u32)[t]
                != 13u8,
{
    char_is_scalar(c);
    let u = c as u32;
    let e = encode_scalar(u);
    if has_width_1_encoding(u) {
        if u == 13u32 {
            char_u32_cast(c, u);
            assert(('\r' as u32) == 13u32);
            char_u32_cast('\r', 13u32);
        }
        assert(u <= 0x7F && u != 13 ==> ((u & 0x7F) as u8) != 13u8) by (bit_vector);
        assert(e =~= seq![leading_byte_width_1(u)]);
    } else {
        assert((0xC0u8 | (((u >> 6) & 0x1F) as u8)) != 13u8) by (bit_vector);
        assert((0xE0u8 | (((u >> 12) & 0x0F) as u8)) != 13u8) by (bit_vector);
        assert((0xF0u8 | (((u >> 18) & 0x7) as u8)) != 13u8) by (bit_vector);
        assert((0x80u8 | ((u & 0x3F) as u8)) != 13u8) by (bit_vector);
        assert((0x80u8 | (((u >> 6) & 0x3F) as u8)) != 13u8) by (bit_vector);
        assert((0x80u8 | (((u >> 12) & 0x3F) as u8)) != 13u8) by (bit_vector);
    }
}

/// Text free of CR encodes to bytes free of the CR byte, so the line
/// scan of the decoder cannot stop early inside it.
proof fn lemma_encode_utf8_no_cr(t: Seq<char>)
    requires
        line_ok(t),
    ensures
        forall|i: int|
            0 <= i < encode_utf8(t).len() ==> #[trigger] encode_utf8(t)[i] != 13u8,
    decreases t.len(),
{
    if t.len() > 0 {
        let e0 = encode_scalar(t[0] as u32);
        let rest = t.drop_first();
        lemma_encode_scalar_no_cr(t[0]);
        assert(line_ok(rest)) by {
            assert forall|i: int| 0 <= i < rest.len() implies #[trigger] rest[i] != '\r'
                && rest[i] != '\n' by {
                assert(rest[i] == t[i + 1]);
            }
        }
        lemma_encode_utf8_no_cr(rest);
        assert forall|i: int| 0 <= i < encode_utf8(t).len() implies #[trigger] encode_utf8(t)[i]
            != 13u8 by {
            if i < e0.len() {
                assert(encode_utf8(t)[i] == e0[i]);
            } else {
                assert(encode_utf8(t)[i] == encode_utf8(rest)[i - e0.len()]);
            }
        }
    }
}

/// Digit bytes are never CR.
proof fn lemma_digits_no_cr(d: Seq<u8>)
    requires
        all_digits(d),
    ensures
        forall|i: int| 0 <= i < d.len() ==> #[trigger] d[i] != 13u8,
{
    assert forall|i: int| 0 <= i < d.len() implies #[trigger] d[i] != 13u8 by {
        assert(is_digit(d[i]));
    }
}

/// The scan finds exactly the CR LF that terminates a CR-free span.
proof fn lemma_find_crlf_at(s: Seq<u8>, from: int, end: int)
    requires
        0 <= from <= end,
        end + 2 <= s.len(),
        forall|t: int| from <= t < end ==> #[trigger] s[t] != 13u8,
        s[end] == 13u8,
        s[end + 1] == 10u8,
    ensures
        find_crlf(s, from) == Some(end),
    decreases end - from,
{
    if from < end {
        lemma_find_crlf_at(s, from + 1, end);
    }
}

/// Bytes of a window of `s` known to equal `w`, read through `w`.
proof fn lemma_window(s: Seq<u8>, pos: int, w: Seq<u8>)
    requires
        0 <= pos,
        pos + w.len() <= s.len(),
        s.subrange(pos, pos + w.len()) == w,
    ensures
        forall|t: int| 0 <= t < w.len() ==> s[pos + t] == #[trigger] w[t],
{
    assert forall|t: int| 0 <= t < w.len() implies s[pos + t] == #[trigger] w[t] by {
        assert(s.subrange(pos, pos + w.len())[t] == s[pos + t]);
    }
}

/// Every frame occupies at least three bytes on the wire.
proof fn lemma_wire_len(v: FrameVal)
    ensures
        wire(v).len() >= 3,
{
    match v {
        FrameVal::Integer(n) => {
            lemma_dec_digits(n as nat);
        },
        FrameVal::Bulk(b) => {
            lemma_dec_digits(b.len());
        },
        FrameVal::Array(items) => {
            lemma_dec_digits(items.len());
        },
        _ => {},
    }
}

/// Decoding at `pos` in any buffer that carries the canonical encoding
/// of a well-formed frame there yields exactly that frame and stops
/// exactly at its last byte.
pub proof fn lemma_parse_wire(s: Seq<u8>, pos: int, v: FrameVal)
    requires
        wf(v),
        0 <= pos,
        pos + wire(v).len() <= s.len(),
        s.subrange(pos, pos + wire(v).len()) == wire(v),
    ensures
        parse_at(s, pos) == (Parsed::Done { val: v, end: pos + wire(v).len() }),
    decreases v, 1nat, 0int,
{
    let w = wire(v);
    lemma_window(s, pos, w);
    match v {
        FrameVal::Simple(t) => {
            let eu = encode_utf8(t);
            lemma_encode_utf8_no_cr(t);
            assert(w[0] == 43u8);
            assert forall|j: int| pos + 1 <= j < pos + 1 + eu.len() implies #[trigger] s[j]
                != 13u8 by {
                assert(w[j - pos] == eu[j - pos - 1]);
                assert(s[pos + (j - pos)] == w[j - pos]);
            }
            assert(w[1 + eu.len() as int] == 13u8 && w[2 + eu.len() as int] == 10u8);
            assert(s[pos + (1 + eu.len())] == 13u8 && s[pos + (2 + eu.len())] == 10u8);
            lemma_find_crlf_at(s, pos + 1, pos + 1 + eu.len());
            let i = pos + 1 + eu.len();
            assert(s.subrange(pos + 1, i) =~= eu) by {
                assert forall|t2: int| 0 <= t2 < eu.len() implies s.subrange(pos + 1, i)[t2]
                    == eu[t2] by {
                    assert(w[1 + t2] == eu[t2]);
                    assert(s[pos + (1 + t2)] == w[1 + t2]);
                }
            }
            encode_utf8_valid_utf8(t);
            encode_utf8_decode_utf8(t);
            assert(text_of(eu) == t);
        },
        FrameVal::Error(t) => {
            let eu = encode_utf8(t);
            lemma_encode_utf8_no_cr(t);
            assert(w[0] == 45u8);
            assert forall|j: int| pos + 1 <= j < pos + 1 + eu.len() implies #[trigger] s[j]
                != 13u8 by {
                assert(w[j - pos] == eu[j - pos - 1]);
                assert(s[pos + (j - pos)] == w[j - pos]);
            }
            assert(w[1 + eu.len() as int] == 13u8 && w[2 + eu.len() as int] == 10u8);
            assert(s[pos + (1 + eu.len())] == 13u8 && s[pos + (2 + eu.len())] == 10u8);
            lemma_find_crlf_at(s, pos + 1, pos + 1 + eu.len());
            let i = pos + 1 + eu.len();
            assert(s.subrange(pos + 1, i) =~= eu) by {
                assert forall|t2: int| 0 <= t2 < eu.len() implies s.subrange(pos + 1, i)[t2]
                    == eu[t2] by {
                    assert(w[1 + t2] == eu[t2]);
                    assert(s[pos + (1 + t2)] == w[1 + t2]);
                }
            }
            encode_utf8_valid_utf8(t);
            encode_utf8_decode_utf8(t);
            assert(text_of(eu) == t);
        },
        FrameVal::Integer(n) => {
            let dd = dec_digits(n as nat);
            lemma_dec_digits(n as nat);
            lemma_digits_no_cr(dd);
            assert(w[0] == 58u8);
            assert forall|j: int| pos + 1 <= j < pos + 1 + dd.len() implies #[trigger] s[j]
                != 13u8 by {
                assert(w[j - pos] == dd[j - pos - 1]);
                assert(s[pos + (j - pos)] == w[j - pos]);
            }
            assert(w[1 + dd.len() as int] == 13u8 && w[2 + dd.len() as int] == 10u8);
            assert(s[pos + (1 + dd.len())] == 13u8 && s[pos + (2 + dd.len())] == 10u8);
            lemma_find_crlf_at(s, pos + 1, pos + 1 + dd.len());
            let i = pos + 1 + dd.len();
            assert(s.subrange(pos + 1, i) =~= dd) by {
                assert forall|t2: int| 0 <= t2 < dd.len() implies s.subrange(pos + 1, i)[t2]
                    == dd[t2] by {
                    assert(w[1 + t2] == dd[t2]);
                    assert(s[pos + (1 + t2)] == w[1 + t2]);
                }
            }
            assert(valid_u64_line(dd));
        },
        FrameVal::Nil => {
            assert(w[0] == 36u8 && w[1] == 45u8 && w[2] == 49u8 && w[3] == 13u8 && w[4] == 10u8);
            assert(s[pos + 1] == 45u8 && s[pos + 2] == 49u8);
            assert(s[pos + 3] == 13u8 && s[pos + 4] == 10u8);
            lemma_find_crlf_at(s, pos + 1, pos + 3);
            assert(s.subrange(pos + 1, pos + 3) =~= seq![45u8, 49u8]);
        },
        FrameVal::Bulk(b) => {
            let dd = dec_digits(b.len());
            lemma_dec_digits(b.len());
            lemma_digits_no_cr(dd);
            assert(w[0] == 36u8);
            assert forall|j: int| pos + 1 <= j < pos + 1 + dd.len() implies #[trigger] s[j]
                != 13u8 by {
                assert(w[j - pos] == dd[j - pos - 1]);
                assert(s[pos + (j - pos)] == w[j - pos]);
            }
            assert(w[1 + dd.len() as int] == 13u8 && w[2 + dd.len() as int] == 10u8);
            assert(s[pos + (1 + dd.len())] == 13u8 && s[pos + (2 + dd.len())] == 10u8);
            lemma_find_crlf_at(s, pos + 1, pos + 1 + dd.len());
            let i = pos + 1 + dd.len();
            let line = s.subrange(pos + 1, i);
            assert(line =~= dd) by {
                assert forall|t2: int| 0 <= t2 < dd.len() implies s.subrange(pos + 1, i)[t2]
                    == dd[t2] by {
                    assert(w[1 + t2] == dd[t2]);
                    assert(s[pos + (1 + t2)] == w[1 + t2]);
                }
            }
            if line == seq![45u8, 49u8] {
                assert(is_digit(line[0]));
                assert(false);
            }
            assert(valid_u64_line(dd));
            let n = dec_value(dd);
            assert(n == b.len());
            assert(s.len() >= i + 2 + n + 2);
            assert(w[3 + dd.len() + n] == 13u8 && w[4 + dd.len() + n] == 10u8);
            assert(s[pos + (3 + dd.len() + n)] == 13u8 && s[pos + (4 + dd.len() + n)] == 10u8);
            assert(s[i + 2 + n] == 13u8 && s[i + 2 + n + 1] == 10u8);
            assert(s.subrange(i + 2, i + 2 + n) =~= b) by {
                assert forall|t2: int| 0 <= t2 < n implies s.subrange(i + 2, i + 2 + n)[t2]
                    == b[t2] by {
                    assert(w[3 + dd.len() + t2] == b[t2]);
                    assert(s[pos + (3 + dd.len() + t2)] == w[3 + dd.len() + t2]);
                }
            }
        },
        FrameVal::Array(items) => {
            let dd = dec_digits(items.len());
            lemma_dec_digits(items.len());
            lemma_digits_no_cr(dd);
            assert(w[0] == 42u8);
            assert forall|j: int| pos + 1 <= j < pos + 1 + dd.len() implies #[trigger] s[j]
                != 13u8 by {
                assert(w[j - pos] == dd[j - pos - 1]);
                assert(s[pos + (j - pos)] == w[j - pos]);
            }
            assert(w[1 + dd.len() as int] == 13u8 && w[2 + dd.len() as int] == 10u8);
            assert(s[pos + (1 + dd.len())] == 13u8 && s[pos + (2 + dd.len())] == 10u8);
            lemma_find_crlf_at(s, pos + 1, pos + 1 + dd.len());
            let i = pos + 1 + dd.len();
            assert(s.subrange(pos + 1, i) =~= dd) by {
                assert forall|t2: int| 0 <= t2 < dd.len() implies s.subrange(pos + 1, i)[t2]
                    == dd[t2] by {
                    assert(w[1 + t2] == dd[t2]);
                    assert(s[pos + (1 + t2)] == w[1 + t2]);
                }
            }
            assert(valid_u64_line(dd));
            assert(dec_value(dd) == items.len());
            let wi = wire_items(items, 0);
            assert(s.subrange(i + 2, i + 2 + wi.len()) =~= wi) by {
                assert forall|t2: int| 0 <= t2 < wi.len() implies s.subrange(
                    i + 2,
                    i + 2 + wi.len(),
                )[t2] == wi[t2] by {
                    assert(w[3 + dd.len() + t2] == wi[t2]);
                    assert(s[pos + (3 + dd.len() + t2)] == w[3 + dd.len() + t2]);
                }
            }
            lemma_parse_items_wire(s, i + 2, items, 0);
            assert(items.skip(0) =~= items);
        },
    }
}

/// Companion of `lemma_parse_wire` for the elements of an array.
pub proof fn lemma_parse_items_wire(s: Seq<u8>, pos: int, items: Seq<FrameVal>, j: int)
    requires
        0 <= pos,
        0 <= j <= items.len(),
        forall|t: int| j <= t < items.len() ==> wf(#[trigger] items[t]),
        pos + wire_items(items, j).len() <= s.len(),
        s.subrange(pos, pos + wire_items(items, j).len()) == wire_items(items, j),
    ensures
        parse_items(s, pos, (items.len() - j) as nat) == (ParsedSeq::Done {
            vals: items.skip(j),
            end: pos + wire_items(items, j).len(),
        }),
    decreases items, 0nat, items.len() - j,
{
    if j == items.len() {
        assert(items.skip(j) =~= Seq::<FrameVal>::empty());
        assert(wire_items(items, j) =~= Seq::<u8>::empty());
    } else {
        let w0 = wire(items[j]);
        let rest = wire_items(items, j + 1);
        let wj = wire_items(items, j);
        assert(wj == w0 + rest);
        lemma_wire_len(items[j]);
        lemma_window(s, pos, wj);
        assert(s.subrange(pos, pos + w0.len()) =~= w0) by {
            assert forall|t: int| 0 <= t < w0.len() implies s.subrange(pos, pos + w0.len())[t]
                == w0[t] by {
                assert(wj[t] == w0[t]);
                assert(s[pos + t] == wj[t]);
            }
        }
        lemma_parse_wire(s, pos, items[j]);
        let mid = pos + w0.len();
        assert(s.subrange(mid, mid + rest.len()) =~= rest) by {
            assert forall|t: int| 0 <= t < rest.len() implies s.subrange(mid, mid + rest.len())[t]
                == rest[t] by {
                assert(wj[w0.len() + t] == rest[t]);
                assert(s[pos + (w0.len() + t)] == wj[w0.len() + t]);
            }
        }
        lemma_parse_items_wire(s, mid, items, j + 1);
        assert(seq![items[j]] + items.skip(j + 1) =~= items.skip(j));
    }
}

proof fn lemma_find_crlf_take(s: Seq<u8>, from: int, m: int)
    requires
        0 <= from,
        0 <= m <= s.len(),
    ensures
        match find_crlf(s, from) {
            Some(i) => if i + 2 <= m {
                find_crlf(s.take(m), from) == Some(i)
            } else {
                find_crlf(s.take(m), from) is None
            },
            None => find_crlf(s.take(m), from) is None,
        },
    decreases s.len() - from,
{
    lemma_find_crlf(s, from);
    if from + 1 >= s.len() {
    } else if s[from] == 13u8 && s[from + 1] == 10u8 {
    } else {
        lemma_find_crlf_take(s, from + 1, m);
    }
}

/// Byte-at-a-time feeding: while any proper prefix of a complete frame
/// is buffered the decoder reports `Incomplete`, never a value and never
/// an error; once the frame's last byte has arrived it decodes to the
/// same value, ending at the same position, as if all bytes had arrived
/// at once.
pub proof fn lemma_incremental_feed(s: Seq<u8>, pos: int, m: int)
    requires
        0 <= pos,
        0 <= m <= s.len(),
    ensures
        parse_at(s, pos) matches Parsed::Done { val, end } ==> {
            &&& m >= end ==> parse_at(s.take(m), pos) == parse_at(s, pos)
            &&& m < end ==> parse_at(s.take(m), pos) is Incomplete
        },
    decreases s.len() - pos, 0nat,
{
    if parse_at(s, pos) matches Parsed::Done { val, end } {
        lemma_parse_bounds(s, pos);
        let p = s.take(m);
        if pos >= m {
            assert(parse_at(p, pos) is Incomplete);
        } else {
            assert(p[pos] == s[pos]);
            let m0 = s[pos];
            lemma_find_crlf_take(s, pos + 1, m);
            lemma_find_crlf(s, pos + 1);
            if m0 == 43u8 || m0 == 45u8 || m0 == 58u8 {
                let i = find_crlf(s, pos + 1)->Some_0;
                if i + 2 <= m {
                    assert(p.subrange(pos + 1, i) =~= s.subrange(pos + 1, i));
                }
            } else if m0 == 36u8 {
                let i = find_crlf(s, pos + 1)->Some_0;
                if i + 2 <= m {
                    let line = s.subrange(pos + 1, i);
                    assert(p.subrange(pos + 1, i) =~= line);
                    if line != seq![45u8, 49u8] {
                        let n = dec_value(line);
                        if m >= i + 2 + n + 2 {
                            assert(p[i + 2 + n] == s[i + 2 + n]);
                            assert(p[i + 2 + n + 1] == s[i + 2 + n + 1]);
                            assert(p.subrange(i + 2, i + 2 + n) =~= s.subrange(i + 2, i + 2 + n));
                        }
                    }
                }
            } else if m0 == 42u8 {
                let i = find_crlf(s, pos + 1)->Some_0;
                let line = s.subrange(pos + 1, i);
                if valid_u64_line(line) {
                    lemma_parse_items_bounds(s, i + 2, dec_value(line) as nat);
                }
                if i + 2 <= m {
                    assert(p.subrange(pos + 1, i) =~= line);
                    if valid_u64_line(line) {
                        lemma_items_feed(s, i + 2, dec_value(line) as nat, m);
                    }
                }
            }
        }
    }
}

/// Companion of `lemma_incremental_feed` for the elements of an array.
proof fn lemma_items_feed(s: Seq<u8>, pos: int, k: nat, m: int)
    requires
        0 <= pos <= m <= s.len(),
    ensures
        parse_items(s, pos, k) matches ParsedSeq::Done { vals, end } ==> {
            &&& m >= end ==> parse_items(s.take(m), pos, k) == parse_items(s, pos, k)
            &&& m < end ==> parse_items(s.take(m), pos, k) is Incomplete
        },
    decreases s.len() - pos, k + 1,
{
    if parse_items(s, pos, k) matches ParsedSeq::Done { vals, end } {
        lemma_parse_items_bounds(s, pos, k);
        if k > 0 {
            lemma_parse_bounds(s, pos);
            let first = parse_at(s, pos);
            if let Parsed::Done { val: v, end: e0 } = first {
                lemma_incremental_feed(s, pos, m);
                lemma_parse_items_bounds(s, e0, (k - 1) as nat);
                if m >= e0 {
                    lemma_items_feed(s, e0, (k - 1) as nat, m);
                }
            }
        }
    }
}

/// Any proper prefix of a well-formed frame's encoding is classified
/// `Incomplete`: retrying after more bytes arrive is always sound.
pub proof fn lemma_wire_prefix_incomplete(v: FrameVal, m: int)
    requires
        wf(v),
        0 <= m < wire(v).len(),
    ensures
        parse_at(wire(v).take(m), 0) is Incomplete,
{
    lemma_round_trip(v);
    lemma_incremental_feed(wire(v), 0, m);
}

/// Round trip: every well-formed frame value decodes from its own
/// canonical encoding, and the decode consumes exactly that encoding.
pub proof fn lemma_round_trip(v: FrameVal)
    requires
        wf(v),
    ensures
        parse_at(wire(v), 0) == (Parsed::Done { val: v, end: wire(v).len() as int }),
{
    assert(wire(v).subrange(0, wire(v).len() as int) =~= wire(v));
    lemma_parse_wire(wire(v), 0, v);
}

} // verus!
