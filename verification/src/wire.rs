//! Mathematical model of the wire format: the frame value model, the
//! byte-level grammar of each frame kind, and the reference parser and
//! encoder that the executable codec is verified against.
use vstd::prelude::*;
use vstd::utf8::encode_utf8;

verus! {

broadcast use vstd::seq::group_seq_axioms;

/// What an outside call to `String::from_utf8_lossy` returns for a given
/// byte sequence: the text with every invalid UTF-8 run replaced.
pub uninterp spec fn lossy_decode(bytes: Seq<u8>) -> Seq<char>;

/// The text a line's payload bytes decode to: the losslessly decoded
/// text on valid UTF-8, the replacement-substituted text otherwise.
pub open spec fn text_of(bytes: Seq<u8>) -> Seq<char> {
    if vstd::utf8::valid_utf8(bytes) {
        vstd::utf8::decode_utf8(bytes)
    } else {
        lossy_decode(bytes)
    }
}

/// Spec-level frame value: the six frame kinds with their payloads as
/// mathematical sequences.
pub enum FrameVal {
    Simple(Seq<char>),
    Error(Seq<char>),
    Integer(u64),
    Bulk(Seq<u8>),
    Nil,
    Array(Seq<FrameVal>),
}

/// Outcome of one decode attempt at a position: a complete frame ending
/// (exclusively) at `end`, not enough buffered bytes yet, or a protocol
/// violation.
pub enum Parsed {
    Done { val: FrameVal, end: int },
    Incomplete,
    Bad,
}

/// Outcome of decoding a run of consecutive frames (the elements of an
/// array).
pub enum ParsedSeq {
    Done { vals: Seq<FrameVal>, end: int },
    Incomplete,
    Bad,
}

pub open spec fn is_crlf_at(s: Seq<u8>, i: int) -> bool {
    &&& 0 <= i
    &&& i + 1 < s.len()
    &&& s[i] == 13u8
    &&& s[i + 1] == 10u8
}

/// Position of the first CR LF pair at or after `from`, if any.
pub open spec fn find_crlf(s: Seq<u8>, from: int) -> Option<int>
    decreases s.len() - from,
{
    if from < 0 {
        None
    } else if from + 1 >= s.len() {
        None
    } else if s[from] == 13u8 && s[from + 1] == 10u8 {
        Some(from)
    } else {
        find_crlf(s, from + 1)
    }
}

pub open spec fn is_digit(b: u8) -> bool {
    48 <= b && b <= 57
}

pub open spec fn all_digits(s: Seq<u8>) -> bool {
    forall|i: int| 0 <= i < s.len() ==> is_digit(#[trigger] s[i])
}

/// Value of a base-10 digit string, most significant digit first.
pub open spec fn dec_value(s: Seq<u8>) -> int
    decreases s.len(),
{
    if s.len() == 0 {
        0
    } else {
        dec_value(s.drop_last()) * 10 + (s.last() - 48)
    }
}

/// A line parses as an unsigned 64-bit length or integer field exactly
/// when it is nonempty, all digits, and its value fits.
pub open spec fn valid_u64_line(s: Seq<u8>) -> bool {
    &&& s.len() > 0
    &&& all_digits(s)
    &&& 0 <= dec_value(s) <= u64::MAX
}

/// Reference decoder: classify the bytes of `s` starting at `pos` as one
/// complete frame, an incomplete frame, or a protocol violation.
///
/// `Incomplete` always means that more bytes appended to `s` may still
/// complete the frame; `Bad` is terminal. A fully buffered line that is
/// syntactically wrong (a non-numeric integer or length field, a missing
/// CR LF after a bulk payload, an unknown marker byte) is `Bad`, never
/// `Incomplete`.
pub open spec fn parse_at(s: Seq<u8>, pos: int) -> Parsed
    decreases s.len() - pos, 0nat,
{
    if pos < 0 || pos >= s.len() {
        Parsed::Incomplete
    } else {
        let m = s[pos];
        if m == 43u8 {  // '+'
            match find_crlf(s, pos + 1) {
                None => Parsed::Incomplete,
                Some(i) => Parsed::Done {
                    val: FrameVal::Simple(text_of(s.subrange(pos + 1, i))),
                    end: i + 2,
                },
            }
        } else if m == 45u8 {  // '-'
            match find_crlf(s, pos + 1) {
                None => Parsed::Incomplete,
                Some(i) => Parsed::Done {
                    val: FrameVal::Error(text_of(s.subrange(pos + 1, i))),
                    end: i + 2,
                },
            }
        } else if m == 58u8 {  // ':'
            match find_crlf(s, pos + 1) {
                None => Parsed::Incomplete,
                Some(i) => {
                    let line = s.subrange(pos + 1, i);
                    if valid_u64_line(line) {
                        Parsed::Done { val: FrameVal::Integer(dec_value(line) as u64), end: i + 2 }
                    } else {
                        Parsed::Bad
                    }
                },
            }
        } else if m == 36u8 {  // '$'
            match find_crlf(s, pos + 1) {
                None => Parsed::Incomplete,
                Some(i) => {
                    let line = s.subrange(pos + 1, i);
                    if line == seq![45u8, 49u8] {  // the "-1" null sentinel
                        Parsed::Done { val: FrameVal::Nil, end: i + 2 }
                    } else if valid_u64_line(line) {
                        let n = dec_value(line);
                        if s.len() < i + 2 + n + 2 {
                            Parsed::Incomplete
                        } else if s[i + 2 + n] == 13u8 && s[i + 2 + n + 1] == 10u8 {
                            Parsed::Done {
                                val: FrameVal::Bulk(s.subrange(i + 2, i + 2 + n)),
                                end: i + 2 + n + 2,
                            }
                        } else {
                            Parsed::Bad
                        }
                    } else {
                        Parsed::Bad
                    }
                },
            }
        } else if m == 42u8 {  // '*'
            match find_crlf(s, pos + 1) {
                None => Parsed::Incomplete,
                Some(i) => {
                    let line = s.subrange(pos + 1, i);
                    if valid_u64_line(line) {
                        if i + 2 <= pos || i + 2 > s.len() {
                            Parsed::Bad  // cannot occur: the CR LF lies past `pos`, inside `s`
                        } else {
                            match parse_items(s, i + 2, dec_value(line) as nat) {
                                ParsedSeq::Done { vals, end } => Parsed::Done {
                                    val: FrameVal::Array(vals),
                                    end,
                                },
                                ParsedSeq::Incomplete => Parsed::Incomplete,
                                ParsedSeq::Bad => Parsed::Bad,
                            }
                        }
                    } else {
                        Parsed::Bad
                    }
                },
            }
        } else {
            Parsed::Bad
        }
    }
}

/// Reference decoder for `k` consecutive frames starting at `pos`.
pub open spec fn parse_items(s: Seq<u8>, pos: int, k: nat) -> ParsedSeq
    decreases s.len() - pos, k + 1,
{
    if k == 0 {
        ParsedSeq::Done { vals: Seq::empty(), end: pos }
    } else {
        match parse_at(s, pos) {
            Parsed::Done { val, end } => {
                if end <= pos || end > s.len() {
                    ParsedSeq::Bad  // cannot occur: a frame spans at least one byte
                } else {
                    match parse_items(s, end, (k - 1) as nat) {
                        ParsedSeq::Done { vals, end: rest_end } => ParsedSeq::Done {
                            vals: seq![val] + vals,
                            end: rest_end,
                        },
                        ParsedSeq::Incomplete => ParsedSeq::Incomplete,
                        ParsedSeq::Bad => ParsedSeq::Bad,
                    }
                }
            },
            Parsed::Incomplete => ParsedSeq::Incomplete,
            Parsed::Bad => ParsedSeq::Bad,
        }
    }
}

/// Canonical decimal digits of `n`, most significant first, no leading
/// zeros (`0` encodes as the single digit `0`).
pub open spec fn dec_digits(n: nat) -> Seq<u8>
    decreases n,
{
    if n < 10 {
        seq![(48 + n) as u8]
    } else {
        dec_digits(n / 10).push((48 + n % 10) as u8)
    }
}

/// A text line may carry any characters except the CR and LF that would
/// collide with the line terminator.
pub open spec fn line_ok(t: Seq<char>) -> bool {
    forall|i: int| 0 <= i < t.len() ==> #[trigger] t[i] != '\r' && t[i] != '\n'
}

/// Frame values that the wire format can carry exactly: text lines free
/// of CR and LF, and payload and element counts that fit the unsigned
/// 64-bit length fields.
pub open spec fn wf(v: FrameVal) -> bool
    decreases v,
{
    match v {
        FrameVal::Simple(t) => line_ok(t),
        FrameVal::Error(t) => line_ok(t),
        FrameVal::Integer(_) => true,
        FrameVal::Bulk(b) => b.len() <= u64::MAX,
        FrameVal::Nil => true,
        FrameVal::Array(items) => {
            &&& items.len() <= u64::MAX
            &&& forall|i: int| 0 <= i < items.len() ==> wf(#[trigger] items[i])
        },
    }
}

/// Canonical wire encoding of a frame value.
pub open spec fn wire(v: FrameVal) -> Seq<u8>
    decreases v, 0nat,
{
    match v {
        FrameVal::Simple(t) => seq![43u8] + encode_utf8(t) + seq![13u8, 10u8],
        FrameVal::Error(t) => seq![45u8] + encode_utf8(t) + seq![13u8, 10u8],
        FrameVal::Integer(n) => seq![58u8] + dec_digits(n as nat) + seq![13u8, 10u8],
        FrameVal::Bulk(b) => seq![36u8] + dec_digits(b.len()) + seq![13u8, 10u8] + b + seq![
            13u8,
            10u8,
        ],
        FrameVal::Nil => seq![36u8, 45u8, 49u8, 13u8, 10u8],
        FrameVal::Array(items) => seq![42u8] + dec_digits(items.len()) + seq![13u8, 10u8]
            + wire_items(items, 0),
    }
}

/// Concatenated encodings of the elements of `items` from index `i` on.
pub open spec fn wire_items(items: Seq<FrameVal>, i: int) -> Seq<u8>
    decreases items, items.len() - i,
{
    if i < 0 || i >= items.len() {
        Seq::empty()
    } else {
        wire(items[i]) + wire_items(items, i + 1)
    }
}

/// A complete frame at `pos` ends strictly after `pos` and within the
/// buffer; the CR LF scan underlying it lands where the scan says.
pub proof fn lemma_find_crlf(s: Seq<u8>, from: int)
    requires
        0 <= from,
    ensures
        match find_crlf(s, from) {
            Some(i) => {
                &&& from <= i
                &&& i + 2 <= s.len()
                &&& is_crlf_at(s, i)
                &&& forall|j: int| from <= j < i ==> !is_crlf_at(s, j)
            },
            None => forall|j: int| from <= j ==> !is_crlf_at(s, j),
        },
    decreases s.len() - from,
{
    if from + 1 >= s.len() {
    } else if s[from] == 13u8 && s[from + 1] == 10u8 {
    } else {
        lemma_find_crlf(s, from + 1);
    }
}

pub proof fn lemma_parse_bounds(s: Seq<u8>, pos: int)
    requires
        0 <= pos,
    ensures
        parse_at(s, pos) matches Parsed::Done { end, .. } ==> pos < end <= s.len(),
    decreases s.len() - pos, 0nat,
{
    if pos < s.len() {
        let m = s[pos];
        if m == 43u8 || m == 45u8 || m == 58u8 || m == 36u8 {
            lemma_find_crlf(s, pos + 1);
        } else if m == 42u8 {
            lemma_find_crlf(s, pos + 1);
            if let Some(i) = find_crlf(s, pos + 1) {
                let line = s.subrange(pos + 1, i);
                if valid_u64_line(line) && i + 2 > pos {
                    lemma_parse_items_bounds(s, i + 2, dec_value(line) as nat);
                }
            }
        }
    }
}

pub proof fn lemma_dec_value_nonneg(s: Seq<u8>)
    requires
        all_digits(s),
    ensures
        dec_value(s) >= 0,
    decreases s.len(),
{
    if s.len() > 0 {
        assert(all_digits(s.drop_last()));
        lemma_dec_value_nonneg(s.drop_last());
    }
}

/// Appending digits to a digit string never shrinks its value.
pub proof fn lemma_dec_value_prefix(s: Seq<u8>, m: int)
    requires
        all_digits(s),
        0 <= m <= s.len(),
    ensures
        dec_value(s.subrange(0, m)) <= dec_value(s),
    decreases s.len() - m,
{
    if m == s.len() {
        assert(s.subrange(0, m) =~= s);
    } else {
        let t = s.subrange(0, m + 1);
        assert(t.drop_last() =~= s.subrange(0, m));
        assert(all_digits(s.subrange(0, m)));
        lemma_dec_value_nonneg(s.subrange(0, m));
        lemma_dec_value_prefix(s, m + 1);
    }
}

/// The canonical digits of `n` form a nonempty digit string whose value
/// is `n` again.
pub proof fn lemma_dec_digits(n: nat)
    ensures
        all_digits(dec_digits(n)),
        dec_value(dec_digits(n)) == n,
        dec_digits(n).len() >= 1,
    decreases n,
{
    if n < 10 {
        let w = seq![(48 + n) as u8];
        assert(dec_digits(n) =~= w);
        assert(w.drop_last() =~= Seq::<u8>::empty());
        assert(dec_value(w) == dec_value(w.drop_last()) * 10 + (w.last() - 48));
        assert(w.last() == (48 + n) as u8);
        assert((48 + n) as u8 == 48 + n);
    } else {
        lemma_dec_digits(n / 10);
        vstd::arithmetic::div_mod::lemma_fundamental_div_mod(n as int, 10);
        let d = dec_digits(n / 10);
        let w = d.push((48 + n % 10) as u8);
        assert(w.drop_last() =~= d);
        assert(dec_value(w) == dec_value(d) * 10 + (w.last() - 48));
        assert(w.last() == (48 + n % 10) as u8);
        assert((48 + n % 10) as u8 == 48 + n % 10);
        assert forall|i: int| 0 <= i < w.len() implies is_digit(#[trigger] w[i]) by {
            if i < w.len() - 1 {
                assert(w[i] == d[i]);
            }
        }
    }
}

/// Invariant of the element loops in the executable codec: after the
/// first `j` of `k` elements have been consumed up to position `p` and
/// abstracted as `done`, the decode of the remaining elements settles
/// the decode of all `k`.
pub open spec fn items_resume(
    s: Seq<u8>,
    pos0: int,
    k: nat,
    p: int,
    j: nat,
    done: Seq<FrameVal>,
) -> bool {
    &&& j <= k
    &&& match parse_items(s, p, (k - j) as nat) {
        ParsedSeq::Done { vals, end } => parse_items(s, pos0, k) == (ParsedSeq::Done {
            vals: done + vals,
            end,
        }),
        ParsedSeq::Incomplete => parse_items(s, pos0, k) is Incomplete,
        ParsedSeq::Bad => parse_items(s, pos0, k) is Bad,
    }
}

pub proof fn lemma_items_resume_step(
    s: Seq<u8>,
    pos0: int,
    k: nat,
    p: int,
    j: nat,
    done: Seq<FrameVal>,
    v: FrameVal,
    end: int,
)
    requires
        0 <= p <= s.len(),
        j < k,
        items_resume(s, pos0, k, p, j, done),
        parse_at(s, p) == (Parsed::Done { val: v, end }),
    ensures
        items_resume(s, pos0, k, end, j + 1, done.push(v)),
{
    lemma_parse_bounds(s, p);
    let rest = parse_items(s, end, (k - j - 1) as nat);
    assert(parse_items(s, p, (k - j) as nat) == match rest {
        ParsedSeq::Done { vals, end: rest_end } => ParsedSeq::Done {
            vals: seq![v] + vals,
            end: rest_end,
        },
        ParsedSeq::Incomplete => ParsedSeq::Incomplete,
        ParsedSeq::Bad => ParsedSeq::Bad,
    });
    if let ParsedSeq::Done { vals, end: rest_end } = rest {
        assert(done + (seq![v] + vals) =~= done.push(v) + vals);
    }
}

pub proof fn lemma_parse_items_bounds(s: Seq<u8>, pos: int, k: nat)
    requires
        0 <= pos,
    ensures
        parse_items(s, pos, k) matches ParsedSeq::Done { end, vals } ==> {
            &&& vals.len() == k
            &&& pos <= end
            &&& (pos <= s.len() ==> end <= s.len())
        },
    decreases s.len() - pos, k + 1,
{
    if k == 0 {
    } else {
        lemma_parse_bounds(s, pos);
        if let Parsed::Done { val, end } = parse_at(s, pos) {
            if pos < end <= s.len() {
                lemma_parse_items_bounds(s, end, (k - 1) as nat);
            }
        }
    }
}

} // verus!
