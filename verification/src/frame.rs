//! Executable frame model and codec: the `Frame` type, the classification
//! of decode attempts, and the verified check / decode / encode operations
//! over an in-memory byte buffer.
use crate::wire::{
    all_digits, dec_digits, dec_value, find_crlf, is_digit, items_resume, lemma_dec_digits,
    lemma_dec_value_prefix, lemma_find_crlf, lemma_items_resume_step, lossy_decode, parse_at,
    parse_items, valid_u64_line, wire, wire_items, FrameVal, Parsed, ParsedSeq,
};
use vstd::prelude::*;

verus! {

broadcast use vstd::seq::group_seq_axioms, vstd::std_specs::vec::group_vec_axioms;

/// How a decode attempt failed: the buffered bytes do not yet hold a
/// whole frame (retry after more input), or they violate the protocol
/// grammar (terminal, with a descriptive reason).
#[derive(Debug)]
pub enum Error {
    StreamEndedEarly,
    Protocol(String),
}

impl Error {
    pub fn due_to_protocol<S: core::fmt::Display>(reason: S) -> (e: Error)
        ensures
            e matches Error::Protocol(s) && vstd::string::to_string_from_display_ensures(
                &reason,
                s,
            ),
    {
        Error::Protocol(reason.to_string())
    }

    /// Human-readable rendering of the error.
    pub fn message(&self) -> (out: String)
        ensures
            self is StreamEndedEarly ==> out@ == "stream ended early"@,
            self matches Error::Protocol(s) ==> out@ == "protocol error, "@ + s@,
    {
        match self {
            Error::StreamEndedEarly => "stream ended early".to_owned(),
            Error::Protocol(s) => "protocol error, ".to_owned().concat(s.as_str()),
        }
    }
}

/// One decoded protocol frame.
#[derive(Debug, PartialEq)]
pub enum Frame {
    Simple(String),
    Error(String),
    Integer(u64),
    Bulk(Vec<u8>),
    Nil,
    Array(Vec<Frame>),
}

/// Spec-level value of a frame: payloads as character and byte
/// sequences, array elements viewed recursively.
pub open spec fn frame_view(f: Frame) -> FrameVal
    decreases f, 1nat,
    via frame_view_dec
{
    match f {
        Frame::Simple(s) => FrameVal::Simple(s@),
        Frame::Error(s) => FrameVal::Error(s@),
        Frame::Integer(n) => FrameVal::Integer(n),
        Frame::Bulk(b) => FrameVal::Bulk(b@),
        Frame::Nil => FrameVal::Nil,
        Frame::Array(items) => FrameVal::Array(frames_view(items@)),
    }
}

#[via_fn]
proof fn frame_view_dec(f: Frame) {
    broadcast use vstd::std_specs::vec::group_vec_axioms;

    if let Frame::Array(items) = f {
        assert(decreases_to!(f => items));
        assert(decreases_to!(items => items@));
    }
}

/// Spec-level values of a sequence of frames, elementwise.
pub open spec fn frames_view(items: Seq<Frame>) -> Seq<FrameVal>
    decreases items, 0nat,
    via frames_view_dec
{
    Seq::new(
        items.len(),
        |i: int|
            if 0 <= i < items.len() {
                frame_view(items[i])
            } else {
                FrameVal::Nil
            },
    )
}

#[via_fn]
proof fn frames_view_dec(items: Seq<Frame>) {
    broadcast use vstd::seq::group_seq_axioms;

    assert forall|i: int| 0 <= i < items.len() implies (decreases_to!(items => items[i])) by {
    }
}

impl View for Frame {
    type V = FrameVal;

    open spec fn view(&self) -> FrameVal {
        frame_view(*self)
    }
}

impl Clone for Frame {
    #[verifier::loop_isolation(false)]
    fn clone(&self) -> (out: Self)
        ensures
            out@ == self@,
        decreases *self,
    {
        match self {
            Frame::Simple(s) => Frame::Simple(s.clone()),
            Frame::Error(s) => Frame::Error(s.clone()),
            Frame::Integer(n) => Frame::Integer(*n),
            Frame::Bulk(b) => Frame::Bulk(b.clone()),
            Frame::Nil => Frame::Nil,
            Frame::Array(items) => {
                let mut out_items: Vec<Frame> = Vec::new();
                let mut j: usize = 0;
                while j < items.len()
                    invariant
                        j <= items.len(),
                        out_items@.len() == j as int,
                        forall|i: int| 0 <= i < j ==> #[trigger] out_items@[i]@ == items@[i]@,
                    decreases items.len() - j,
                {
                    out_items.push(items[j].clone());
                    j = j + 1;
                }
                proof {
                    assert forall|i: int| 0 <= i < items@.len() implies frames_view(out_items@)[i]
                        == frames_view(items@)[i] by {
                        assert(out_items@[i]@ == items@[i]@);
                        assert(frames_view(out_items@)[i] == frame_view(out_items@[i]));
                        assert(frames_view(items@)[i] == frame_view(items@[i]));
                    }
                    assert(frames_view(out_items@) =~= frames_view(items@));
                }
                Frame::Array(out_items)
            },
        }
    }
}

/// Scan for the first CR LF pair at or after `from`.
fn find_crlf_from(src: &Vec<u8>, from: usize) -> (r: Option<usize>)
    ensures
        match r {
            Some(i) => find_crlf(src@, from as int) == Some(i as int),
            None => find_crlf(src@, from as int) is None,
        },
{
    let mut i: usize = from;
    loop
        invariant
            from <= i,
            find_crlf(src@, from as int) == find_crlf(src@, i as int),
        decreases src.len() - i,
    {
        if src.len() < 2 || i > src.len() - 2 {
            return None;
        }
        if src[i] == 13u8 && src[i + 1] == 10u8 {
            return Some(i);
        }
        i = i + 1;
    }
}

/// Parse `src[start..end]` as an unsigned base-10 integer; `None` exactly
/// when the range is empty, holds a non-digit, or overflows 64 bits.
fn parse_decimal(src: &Vec<u8>, start: usize, end: usize) -> (r: Option<u64>)
    requires
        start <= end <= src@.len(),
    ensures
        ({
            let line = src@.subrange(start as int, end as int);
            match r {
                Some(v) => valid_u64_line(line) && v == dec_value(line),
                None => !valid_u64_line(line),
            }
        }),
{
    let ghost line = src@.subrange(start as int, end as int);
    if start == end {
        return None;
    }
    let mut val: u64 = 0;
    let mut j: usize = start;
    while j < end
        invariant
            start <= j <= end <= src@.len(),
            all_digits(src@.subrange(start as int, j as int)),
            val == dec_value(src@.subrange(start as int, j as int)),
            line == src@.subrange(start as int, end as int),
        decreases end - j,
    {
        let b = src[j];
        proof {
            assert(src@.subrange(start as int, j + 1).drop_last() =~= src@.subrange(
                start as int,
                j as int,
            ));
            assert(line.subrange(0, j + 1 - start) =~= src@.subrange(start as int, j + 1));
        }
        if b < 48 || b > 57 {
            proof {
                assert(line[j - start] == b);
            }
            return None;
        }
        let d: u64 = (b - 48) as u64;
        let scaled = match val.checked_mul(10) {
            Some(x) => x,
            None => {
                proof {
                    if all_digits(line) {
                        lemma_dec_value_prefix(line, j + 1 - start);
                    }
                }
                return None;
            },
        };
        let next = match scaled.checked_add(d) {
            Some(x) => x,
            None => {
                proof {
                    if all_digits(line) {
                        lemma_dec_value_prefix(line, j + 1 - start);
                    }
                }
                return None;
            },
        };
        val = next;
        j = j + 1;
    }
    proof {
        assert(src@.subrange(start as int, end as int) =~= line);
    }
    Some(val)
}

/// Copy `src[start..end]` out into an owned buffer.
pub(crate) fn copy_range(src: &Vec<u8>, start: usize, end: usize) -> (out: Vec<u8>)
    requires
        start <= end <= src@.len(),
    ensures
        out@ == src@.subrange(start as int, end as int),
{
    let mut out: Vec<u8> = Vec::new();
    let mut j: usize = start;
    while j < end
        invariant
            start <= j <= end <= src@.len(),
            out@ =~= src@.subrange(start as int, j as int),
        decreases end - j,
    {
        out.push(src[j]);
        proof {
            assert(out@ =~= src@.subrange(start as int, j + 1));
        }
        j = j + 1;
    }
    proof {
        assert(out@ =~= src@.subrange(start as int, end as int));
    }
    out
}

/// Classification returned by the non-consuming completeness check: a
/// whole frame ends (exclusively) at the carried position, or the buffer
/// does not yet hold one, or the bytes violate the grammar.
pub enum Check {
    Complete(usize),
    Incomplete,
    Malformed,
}

pub proof fn lemma_frames_view_push(items: Seq<Frame>, f: Frame)
    ensures
        frames_view(items.push(f)) =~= frames_view(items).push(frame_view(f)),
{
}

/// Canonical decimal digits of `n`, most significant first.
fn u64_digits(n: u64) -> (out: Vec<u8>)
    ensures
        out@ == dec_digits(n as nat),
    decreases n,
{
    if n < 10 {
        let mut v: Vec<u8> = Vec::new();
        v.push((n as u8) + 48);
        proof {
            assert(v@ =~= dec_digits(n as nat));
        }
        v
    } else {
        proof {
            assert(n / 10 < n) by (nonlinear_arith)
                requires
                    n >= 10,
            ;
        }
        let mut v = u64_digits(n / 10);
        v.push((n % 10) as u8 + 48);
        proof {
            assert(v@ =~= dec_digits(n as nat));
        }
        v
    }
}

/// Append a copy of `src` to `dst`.
pub(crate) fn push_all(dst: &mut Vec<u8>, src: &Vec<u8>)
    ensures
        final(dst)@ == old(dst)@ + src@,
{
    let mut j: usize = 0;
    while j < src.len()
        invariant
            j <= src@.len(),
            dst@ =~= old(dst)@ + src@.subrange(0, j as int),
        decreases src@.len() - j,
    {
        dst.push(src[j]);
        proof {
            assert(dst@ =~= old(dst)@ + src@.subrange(0, j + 1));
        }
        j = j + 1;
    }
    proof {
        assert(src@.subrange(0, src@.len() as int) =~= src@);
    }
}

impl Frame {
    /// Serialize this frame to its canonical wire bytes, the inverse of
    /// the decoder on every well-formed frame.
    #[verifier::loop_isolation(false)]
    pub fn encode(&self) -> (out: Vec<u8>)
        ensures
            out@ == wire(self@),
        decreases *self,
    {
        let mut out: Vec<u8> = Vec::new();
        match self {
            Frame::Simple(s) => {
                out.push(43u8);
                let body = s.as_str().as_bytes_vec();
                push_all(&mut out, &body);
                out.push(13u8);
                out.push(10u8);
                proof {
                    assert(out@ =~= wire(self@));
                }
            },
            Frame::Error(s) => {
                out.push(45u8);
                let body = s.as_str().as_bytes_vec();
                push_all(&mut out, &body);
                out.push(13u8);
                out.push(10u8);
                proof {
                    assert(out@ =~= wire(self@));
                }
            },
            Frame::Integer(n) => {
                out.push(58u8);
                let digits = u64_digits(*n);
                push_all(&mut out, &digits);
                out.push(13u8);
                out.push(10u8);
                proof {
                    assert(out@ =~= wire(self@));
                }
            },
            Frame::Bulk(b) => {
                out.push(36u8);
                let digits = u64_digits(b.len() as u64);
                push_all(&mut out, &digits);
                out.push(13u8);
                out.push(10u8);
                push_all(&mut out, b);
                out.push(13u8);
                out.push(10u8);
                proof {
                    assert(out@ =~= wire(self@));
                }
            },
            Frame::Nil => {
                out.push(36u8);
                out.push(45u8);
                out.push(49u8);
                out.push(13u8);
                out.push(10u8);
                proof {
                    assert(out@ =~= wire(self@));
                }
            },
            Frame::Array(items) => {
                out.push(42u8);
                let digits = u64_digits(items.len() as u64);
                push_all(&mut out, &digits);
                out.push(13u8);
                out.push(10u8);
                proof {
                    assert(out@ + wire_items(frames_view(items@), 0) =~= wire(self@));
                }
                let mut j: usize = 0;
                while j < items.len()
                    invariant
                        j <= items@.len(),
                        out@ + wire_items(frames_view(items@), j as int) == wire(self@),
                    decreases items@.len() - j,
                {
                    let enc = items[j].encode();
                    push_all(&mut out, &enc);
                    proof {
                        assert(frames_view(items@)[j as int] == frame_view(items@[j as int]));
                        assert(out@ + wire_items(frames_view(items@), j + 1) =~= wire(self@));
                    }
                    j = j + 1;
                }
                proof {
                    assert(wire_items(frames_view(items@), items@.len() as int)
                        =~= Seq::<u8>::empty());
                    assert(out@ =~= wire(self@));
                }
            },
        }
        out
    }

    /// Text rendering of the frame kinds that have one: `Simple` and
    /// `Integer` as their bare value, `Error` behind an `error:` marker;
    /// the composite and binary kinds have none.
    pub fn to_text(&self) -> (r: Option<String>)
        ensures
            match self {
                Frame::Simple(s) => r matches Some(t) && t@ == s@,
                Frame::Error(s) => r matches Some(t) && t@ == "error: "@ + s@,
                Frame::Integer(n) => r matches Some(t) && t@ == dec_digits(*n as nat).map_values(
                    |b: u8| b as char,
                ),
                _ => r is None,
            },
    {
        match self {
            Frame::Simple(s) => Some(s.clone()),
            Frame::Error(s) => Some("error: ".to_owned().concat(s.as_str())),
            Frame::Integer(n) => {
                let digits = u64_digits(*n);
                let text = utf8_lossy(&digits);
                proof {
                    lemma_dec_digits(*n as nat);
                    let chars = digits@.map_values(|b: u8| b as char);
                    assert(vstd::utf8::is_ascii_chars(chars)) by {
                        assert forall|i: int| 0 <= i < chars.len() implies '\0' <= #[trigger] chars[i]
                            <= '\u{7f}' by {
                            assert(is_digit(digits@[i]));
                            assert(chars[i] == digits@[i] as char);
                        }
                    }
                    vstd::utf8::is_ascii_chars_encode_utf8(chars);
                    assert(vstd::utf8::encode_utf8(chars) =~= digits@) by {
                        assert forall|i: int|
                            0 <= i < chars.len() implies vstd::utf8::encode_utf8(chars)[i]
                            == digits@[i] by {
                            assert(chars[i] as u8 == vstd::utf8::encode_utf8(chars)[i]);
                            assert(chars[i] == digits@[i] as char);
                        }
                    }
                    vstd::utf8::encode_utf8_valid_utf8(chars);
                    vstd::utf8::encode_utf8_decode_utf8(chars);
                }
                Some(text)
            },
            _ => None,
        }
    }

    /// Decide, without allocating or consuming anything, whether `src`
    /// holds one complete frame starting at `pos`, and where it ends.
    pub fn check(src: &Vec<u8>, pos: usize) -> (r: Check)
        requires
            pos <= src@.len(),
        ensures
            match r {
                Check::Complete(end) => {
                    &&& parse_at(src@, pos as int) matches Parsed::Done { end: e, .. } && e
                        == end as int
                    &&& pos < end <= src@.len()
                },
                Check::Incomplete => parse_at(src@, pos as int) is Incomplete,
                Check::Malformed => parse_at(src@, pos as int) is Bad,
            },
        decreases src@.len() - pos,
    {
        if pos >= src.len() {
            return Check::Incomplete;
        }
        let m = src[pos];
        if m == 43u8 || m == 45u8 {
            match find_crlf_from(src, pos + 1) {
                None => Check::Incomplete,
                Some(i) => {
                    proof {
                        lemma_find_crlf(src@, pos + 1);
                    }
                    Check::Complete(i + 2)
                },
            }
        } else if m == 58u8 {
            match find_crlf_from(src, pos + 1) {
                None => Check::Incomplete,
                Some(i) => {
                    proof {
                        lemma_find_crlf(src@, pos + 1);
                    }
                    match parse_decimal(src, pos + 1, i) {
                        None => Check::Malformed,
                        Some(_) => Check::Complete(i + 2),
                    }
                },
            }
        } else if m == 36u8 {
            match find_crlf_from(src, pos + 1) {
                None => Check::Incomplete,
                Some(i) => {
                    proof {
                        lemma_find_crlf(src@, pos + 1);
                    }
                    if i == pos + 3 && src[pos + 1] == 45u8 && src[pos + 2] == 49u8 {
                        proof {
                            assert(src@.subrange(pos + 1 as int, i as int) =~= seq![45u8, 49u8]);
                        }
                        Check::Complete(i + 2)
                    } else {
                        proof {
                            let line = src@.subrange(pos + 1 as int, i as int);
                            if line == seq![45u8, 49u8] {
                                assert(line.len() == 2);
                                assert(line[0] == 45u8 && line[1] == 49u8);
                                assert(false);
                            }
                        }
                        match parse_decimal(src, pos + 1, i) {
                            None => Check::Malformed,
                            Some(n) => {
                                let rem = src.len() - (i + 2);
                                if (rem as u64) < n || (rem as u64) - n < 2 {
                                    Check::Incomplete
                                } else {
                                    let base = i + 2 + (n as usize);
                                    if src[base] == 13u8 && src[base + 1] == 10u8 {
                                        Check::Complete(base + 2)
                                    } else {
                                        Check::Malformed
                                    }
                                }
                            },
                        }
                    }
                },
            }
        } else if m == 42u8 {
            match find_crlf_from(src, pos + 1) {
                None => Check::Incomplete,
                Some(i) => {
                    proof {
                        lemma_find_crlf(src@, pos + 1);
                    }
                    match parse_decimal(src, pos + 1, i) {
                        None => Check::Malformed,
                        Some(k) => {
                            let ghost start: int = i + 2 as int;
                            let mut p: usize = i + 2;
                            let mut j: u64 = 0;
                            let ghost mut done: Seq<FrameVal> = Seq::empty();
                            proof {
                                if let ParsedSeq::Done { vals, end } = parse_items(
                                    src@,
                                    start,
                                    k as nat,
                                ) {
                                    assert(Seq::<FrameVal>::empty() + vals =~= vals);
                                }
                            }
                            while j < k
                                invariant
                                    pos < start <= p <= src@.len(),
                                    j <= k,
                                    items_resume(src@, start, k as nat, p as int, j as nat, done),
                                    parse_at(src@, pos as int) == (match parse_items(
                                        src@,
                                        start,
                                        k as nat,
                                    ) {
                                        ParsedSeq::Done { vals, end } => Parsed::Done {
                                            val: FrameVal::Array(vals),
                                            end,
                                        },
                                        ParsedSeq::Incomplete => Parsed::Incomplete,
                                        ParsedSeq::Bad => Parsed::Bad,
                                    }),
                                decreases k - j,
                            {
                                match Frame::check(src, p) {
                                    Check::Incomplete => {
                                        return Check::Incomplete;
                                    },
                                    Check::Malformed => {
                                        return Check::Malformed;
                                    },
                                    Check::Complete(newp) => {
                                        proof {
                                            if let Parsed::Done { val: v, end: e } = parse_at(
                                                src@,
                                                p as int,
                                            ) {
                                                lemma_items_resume_step(
                                                    src@,
                                                    start,
                                                    k as nat,
                                                    p as int,
                                                    j as nat,
                                                    done,
                                                    v,
                                                    e,
                                                );
                                                done = done.push(v);
                                            }
                                        }
                                        p = newp;
                                        j = j + 1;
                                    },
                                }
                            }
                            proof {
                                assert(parse_items(src@, p as int, 0nat) == (ParsedSeq::Done {
                                    vals: Seq::<FrameVal>::empty(),
                                    end: p as int,
                                }));
                            }
                            Check::Complete(p)
                        },
                    }
                },
            }
        } else {
            Check::Malformed
        }
    }

    /// Decode exactly one frame from `src` starting at `pos`.
    ///
    /// On success the result carries the frame and the position just past
    /// its last byte, so the caller consumed exactly `end - pos` bytes.
    /// `StreamEndedEarly` reports that the buffered bytes do not yet hold
    /// a whole frame; `Protocol` reports a grammar violation that more
    /// input cannot repair. Nothing is consumed in either failure case.
    pub fn parse(src: &Vec<u8>, pos: usize) -> (r: Result<(Frame, usize), Error>)
        requires
            pos <= src@.len(),
        ensures
            match r {
                Ok(pair) => {
                    &&& parse_at(src@, pos as int) == (Parsed::Done {
                        val: pair.0@,
                        end: pair.1 as int,
                    })
                    &&& pos < pair.1 <= src@.len()
                },
                Err(Error::StreamEndedEarly) => parse_at(src@, pos as int) is Incomplete,
                Err(Error::Protocol(_)) => parse_at(src@, pos as int) is Bad,
            },
        decreases src@.len() - pos,
    {
        if pos >= src.len() {
            return Err(Error::StreamEndedEarly);
        }
        let m = src[pos];
        if m == 43u8 || m == 45u8 {
            match find_crlf_from(src, pos + 1) {
                None => Err(Error::StreamEndedEarly),
                Some(i) => {
                    proof {
                        lemma_find_crlf(src@, pos + 1);
                    }
                    let payload = copy_range(src, pos + 1, i);
                    let text = utf8_lossy(&payload);
                    if m == 43u8 {
                        Ok((Frame::Simple(text), i + 2))
                    } else {
                        Ok((Frame::Error(text), i + 2))
                    }
                },
            }
        } else if m == 58u8 {
            match find_crlf_from(src, pos + 1) {
                None => Err(Error::StreamEndedEarly),
                Some(i) => {
                    proof {
                        lemma_find_crlf(src@, pos + 1);
                    }
                    match parse_decimal(src, pos + 1, i) {
                        None => Err(Error::due_to_protocol("invalid integer field")),
                        Some(v) => Ok((Frame::Integer(v), i + 2)),
                    }
                },
            }
        } else if m == 36u8 {
            match find_crlf_from(src, pos + 1) {
                None => Err(Error::StreamEndedEarly),
                Some(i) => {
                    proof {
                        lemma_find_crlf(src@, pos + 1);
                    }
                    if i == pos + 3 && src[pos + 1] == 45u8 && src[pos + 2] == 49u8 {
                        proof {
                            assert(src@.subrange(pos + 1 as int, i as int) =~= seq![45u8, 49u8]);
                        }
                        Ok((Frame::Nil, i + 2))
                    } else {
                        proof {
                            let line = src@.subrange(pos + 1 as int, i as int);
                            if line == seq![45u8, 49u8] {
                                assert(line.len() == 2);
                                assert(line[0] == 45u8 && line[1] == 49u8);
                                assert(false);
                            }
                        }
                        match parse_decimal(src, pos + 1, i) {
                            None => Err(Error::due_to_protocol("invalid bulk length")),
                            Some(n) => {
                                let rem = src.len() - (i + 2);
                                if (rem as u64) < n || (rem as u64) - n < 2 {
                                    Err(Error::StreamEndedEarly)
                                } else {
                                    let base = i + 2 + (n as usize);
                                    if src[base] == 13u8 && src[base + 1] == 10u8 {
                                        let data = copy_range(src, i + 2, base);
                                        Ok((Frame::Bulk(data), base + 2))
                                    } else {
                                        Err(Error::due_to_protocol("bulk payload not terminated"))
                                    }
                                }
                            },
                        }
                    }
                },
            }
        } else if m == 42u8 {
            match find_crlf_from(src, pos + 1) {
                None => Err(Error::StreamEndedEarly),
                Some(i) => {
                    proof {
                        lemma_find_crlf(src@, pos + 1);
                    }
                    match parse_decimal(src, pos + 1, i) {
                        None => Err(Error::due_to_protocol("invalid array length")),
                        Some(k) => {
                            let ghost start: int = i + 2 as int;
                            let mut items: Vec<Frame> = Vec::new();
                            let mut p: usize = i + 2;
                            let mut j: u64 = 0;
                            proof {
                                if let ParsedSeq::Done { vals, end } = parse_items(
                                    src@,
                                    start,
                                    k as nat,
                                ) {
                                    assert(Seq::<FrameVal>::empty() + vals =~= vals);
                                }
                                assert(frames_view(items@) =~= Seq::<FrameVal>::empty());
                            }
                            while j < k
                                invariant
                                    pos < start <= p <= src@.len(),
                                    p == p as int,
                                    j <= k,
                                    items@.len() == j as int,
                                    items_resume(
                                        src@,
                                        start,
                                        k as nat,
                                        p as int,
                                        j as nat,
                                        frames_view(items@),
                                    ),
                                    parse_at(src@, pos as int) == (match parse_items(
                                        src@,
                                        start,
                                        k as nat,
                                    ) {
                                        ParsedSeq::Done { vals, end } => Parsed::Done {
                                            val: FrameVal::Array(vals),
                                            end,
                                        },
                                        ParsedSeq::Incomplete => Parsed::Incomplete,
                                        ParsedSeq::Bad => Parsed::Bad,
                                    }),
                                decreases k - j,
                            {
                                match Frame::parse(src, p) {
                                    Err(e) => {
                                        return Err(e);
                                    },
                                    Ok(pair) => {
                                        let (f, newp) = pair;
                                        proof {
                                            lemma_items_resume_step(
                                                src@,
                                                start,
                                                k as nat,
                                                p as int,
                                                j as nat,
                                                frames_view(items@),
                                                f@,
                                                newp as int,
                                            );
                                            lemma_frames_view_push(items@, f);
                                        }
                                        items.push(f);
                                        p = newp;
                                        j = j + 1;
                                    },
                                }
                            }
                            proof {
                                assert(parse_items(src@, p as int, 0nat) == (ParsedSeq::Done {
                                    vals: Seq::<FrameVal>::empty(),
                                    end: p as int,
                                }));
                                assert(frames_view(items@) + Seq::<FrameVal>::empty()
                                    =~= frames_view(items@));
                            }
                            Ok((Frame::Array(items), p))
                        },
                    }
                },
            }
        } else {
            Err(Error::due_to_protocol("invalid frame type byte"))
        }
    }
}

/// Relies on `String::from_utf8_lossy`: the result is a function of the
/// bytes alone, and on valid UTF-8 input it is the losslessly decoded
/// text (vstd's `decode_utf8`).
#[verifier::external_body]
fn utf8_lossy(bytes: &Vec<u8>) -> (out: String)
    ensures
        out@ == lossy_decode(bytes@),
        vstd::utf8::valid_utf8(bytes@) ==> out@ == vstd::utf8::decode_utf8(bytes@),
{
    String::from_utf8_lossy(bytes).into_owned()
}

} // verus!
