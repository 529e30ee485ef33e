//! The mathematical model of frames and of their wire form.
use vstd::prelude::*;

verus! {

/// Carriage return, the first byte of the terminator.
pub const CR: u8 = 13;

/// Line feed, the second byte of the terminator.
pub const LF: u8 = 10;

/// The decoded value of a frame, as a mathematical tree.
pub enum SpecFrame {
    Simple(Seq<u8>),
    Error(Seq<u8>),
    Integer(int),
    Bulk(Seq<u8>),
    Null,
    Array(Seq<SpecFrame>),
}

/// Why a buffer does not start with a whole frame.
#[derive(Debug, Clone, Copy, PartialEq, Eq, Structural)]
pub enum FrameError {
    /// The buffer holds a prefix of a frame: more bytes may complete it.
    Incomplete,
    /// A header or an integer frame does not hold a signed 64-bit decimal.
    InvalidInteger,
    /// The bytes cannot start a frame, whatever follows.
    BadFormat,
}

/// The text that describes each error.
pub open spec fn error_message(e: FrameError) -> Seq<char> {
    match e {
        FrameError::Incomplete => "frame requires more bytes"@,
        FrameError::InvalidInteger => "frame contains invalid integer"@,
        FrameError::BadFormat => "frame contains bad format"@,
    }
}

impl FrameError {
    /// A description of the error.
    pub fn message(&self) -> (r: &'static str)
        ensures
            r@ == error_message(*self),
    {
        match self {
            FrameError::Incomplete => "frame requires more bytes",
            FrameError::InvalidInteger => "frame contains invalid integer",
            FrameError::BadFormat => "frame contains bad format",
        }
    }
}

pub open spec fn is_digit(b: u8) -> bool {
    48 <= b && b <= 57
}

pub open spec fn all_digits(s: Seq<u8>) -> bool {
    forall|i: int| 0 <= i < s.len() ==> is_digit(#[trigger] s[i])
}

/// The value of a sequence of decimal digits, most significant first.
pub open spec fn digits_value(s: Seq<u8>) -> nat
    decreases s.len(),
{
    if s.len() == 0 {
        0
    } else {
        digits_value(s.drop_last()) * 10 + (s.last() - 48) as nat
    }
}

pub open spec fn sign_len(s: Seq<u8>) -> nat {
    if s.len() > 0 && (s[0] == 43 || s[0] == 45) {
        1
    } else {
        0
    }
}

/// The value of a signed decimal: an optional `+` or `-`, then one or more digits.
pub open spec fn decimal_value(s: Seq<u8>) -> Option<int> {
    let k = sign_len(s);
    let d = s.skip(k as int);
    if d.len() > 0 && all_digits(d) {
        if k == 1 && s[0] == 45 {
            Some(-(digits_value(d) as int))
        } else {
            Some(digits_value(d) as int)
        }
    } else {
        None
    }
}

pub open spec fn in_i64(v: int) -> bool {
    i64::MIN <= v && v <= i64::MAX
}

/// The value of a header or integer line: a signed decimal that fits in 64 bits.
pub open spec fn line_value(s: Seq<u8>) -> Option<int> {
    match decimal_value(s) {
        Some(v) => if in_i64(v) {
            Some(v)
        } else {
            None
        },
        None => None,
    }
}

/// The value of an index argument: digits alone, without a sign, whose
/// value fits in 64 bits unsigned.
pub open spec fn index_value(s: Seq<u8>) -> Option<int> {
    if s.len() > 0 && all_digits(s) && digits_value(s) <= u64::MAX {
        Some(digits_value(s) as int)
    } else {
        None
    }
}

/// The digits of a natural number, without leading zeros.
pub open spec fn nat_digits(n: nat) -> Seq<u8>
    decreases n,
{
    if n < 10 {
        seq![(48 + n) as u8]
    } else {
        nat_digits(n / 10).push((48 + n % 10) as u8)
    }
}

/// The shortest decimal text of an integer.
pub open spec fn decimal_text(v: int) -> Seq<u8> {
    if v < 0 {
        seq![45u8] + nat_digits((-v) as nat)
    } else {
        nat_digits(v as nat)
    }
}

pub open spec fn crlf() -> Seq<u8> {
    seq![CR, LF]
}

pub open spec fn crlf_at(s: Seq<u8>, j: int) -> bool {
    0 <= j && j + 1 < s.len() && s[j] == CR && s[j + 1] == LF
}

/// How far the first terminator at or after `i` lies from `i`.
pub open spec fn line_len(s: Seq<u8>, i: int) -> Option<nat>
    decreases s.len() - i,
{
    if i < 0 || i + 1 >= s.len() {
        None
    } else if crlf_at(s, i) {
        Some(0)
    } else {
        match line_len(s, i + 1) {
            Some(d) => Some(d + 1),
            None => None,
        }
    }
}

/// The wire form of a frame.
pub open spec fn encode(f: SpecFrame) -> Seq<u8>
    decreases f,
{
    match f {
        SpecFrame::Simple(b) => seq![43u8] + b + crlf(),
        SpecFrame::Error(b) => seq![45u8] + b + crlf(),
        SpecFrame::Integer(v) => seq![58u8] + decimal_text(v) + crlf(),
        SpecFrame::Bulk(b) => seq![36u8] + decimal_text(b.len() as int) + crlf() + b + crlf(),
        SpecFrame::Null => seq![36u8, 45u8, 49u8] + crlf(),
        SpecFrame::Array(a) => seq![42u8] + decimal_text(a.len() as int) + crlf() + encode_all(a),
    }
}

/// The wire forms of a sequence of frames, one after another.
pub open spec fn encode_all(a: Seq<SpecFrame>) -> Seq<u8>
    decreases a,
{
    if a.len() == 0 {
        Seq::empty()
    } else {
        encode(a[0]) + encode_all(a.skip(1))
    }
}

/// Appending a frame appends its wire form.
pub proof fn lemma_encode_all_push(a: Seq<SpecFrame>, f: SpecFrame)
    ensures
        encode_all(a.push(f)) == encode_all(a) + encode(f),
    decreases a.len(),
{
    if a.len() == 0 {
        assert(a.push(f).skip(1) =~= Seq::<SpecFrame>::empty());
        assert(encode_all(a.push(f).skip(1)) == Seq::<u8>::empty());
        assert(a.push(f)[0] == f);
        assert(encode_all(a.push(f)) =~= encode_all(a) + encode(f));
    } else {
        lemma_encode_all_push(a.skip(1), f);
        assert(a.push(f).skip(1) =~= a.skip(1).push(f));
        assert(a.push(f)[0] == a[0]);
        assert(encode_all(a.push(f)) == encode(a[0]) + (encode_all(a.skip(1)) + encode(f)));
        assert(encode_all(a.push(f)) =~= encode_all(a) + encode(f));
    }
}

pub open spec fn no_crlf(b: Seq<u8>) -> bool {
    forall|j: int| !#[trigger] crlf_at(b, j)
}

/// A frame that has a wire form: simple and error text holds no terminator,
/// integers and lengths fit in 64 bits.
pub open spec fn well_formed(f: SpecFrame) -> bool
    decreases f,
{
    match f {
        SpecFrame::Simple(b) => no_crlf(b),
        SpecFrame::Error(b) => no_crlf(b),
        SpecFrame::Integer(v) => in_i64(v),
        SpecFrame::Bulk(b) => b.len() <= i64::MAX,
        SpecFrame::Null => true,
        SpecFrame::Array(a) => a.len() <= i64::MAX && forall|i: int|
            0 <= i < a.len() ==> well_formed(#[trigger] a[i]),
    }
}

/// The number of bytes of `s` from position `i` on.
pub open spec fn remaining(s: Seq<u8>, i: int) -> nat {
    if i < s.len() {
        (s.len() - i) as nat
    } else {
        0
    }
}

/// Decoding of the frame that starts at position `i` of `s`: the frame and
/// the number of bytes it takes, or why there is none.
pub open spec fn parse_at(s: Seq<u8>, i: int) -> Result<(SpecFrame, nat), FrameError>
    decreases remaining(s, i), 0nat,
{
    if i < 0 || i >= s.len() {
        Err(FrameError::Incomplete)
    } else {
        let tag = s[i];
        if !(tag == 43 || tag == 45 || tag == 58 || tag == 36 || tag == 42) {
            Err(FrameError::BadFormat)
        } else {
            match line_len(s, i + 1) {
                None => Err(FrameError::Incomplete),
                Some(d) => {
                    let j = i + 1 + d;
                    let line = s.subrange(i + 1, j);
                    let head = (j + 2 - i) as nat;
                    if tag == 43 {
                        Ok((SpecFrame::Simple(line), head))
                    } else if tag == 45 {
                        Ok((SpecFrame::Error(line), head))
                    } else {
                        match line_value(line) {
                            None => Err(FrameError::InvalidInteger),
                            Some(v) => if tag == 58 {
                                Ok((SpecFrame::Integer(v), head))
                            } else if tag == 36 {
                                parse_bulk(s, j + 2, v, head)
                            } else if v < 0 {
                                Err(FrameError::BadFormat)
                            } else {
                                match parse_elems(s, j + 2, v as nat) {
                                    Ok((a, k)) => Ok((SpecFrame::Array(a), head + k)),
                                    Err(e) => Err(e),
                                }
                            },
                        }
                    }
                },
            }
        }
    }
}

/// The payload of a bulk frame whose header of `head` bytes declared length `v`
/// and ends at `p`.
pub open spec fn parse_bulk(s: Seq<u8>, p: int, v: int, head: nat) -> Result<(SpecFrame, nat), FrameError> {
    if v < 0 {
        Ok((SpecFrame::Null, head))
    } else if p + v >= s.len() {
        Err(FrameError::Incomplete)
    } else if s[p + v] != CR {
        Err(FrameError::BadFormat)
    } else if p + v + 1 >= s.len() {
        Err(FrameError::Incomplete)
    } else if s[p + v + 1] != LF {
        Err(FrameError::BadFormat)
    } else {
        Ok((SpecFrame::Bulk(s.subrange(p, p + v)), (head + v + 2) as nat))
    }
}

/// Decoding of `n` frames in a row from position `i`: the frames and the
/// number of bytes they take together.
pub open spec fn parse_elems(s: Seq<u8>, i: int, n: nat) -> Result<(Seq<SpecFrame>, nat), FrameError>
    decreases remaining(s, i), n,
{
    if n == 0 {
        Ok((Seq::empty(), 0))
    } else if i > s.len() {
        Err(FrameError::Incomplete)
    } else {
        match parse_at(s, i) {
            Err(e) => Err(e),
            Ok((f, k)) => match parse_elems(s, i + k, (n - 1) as nat) {
                Err(e) => Err(e),
                Ok((rest, k2)) => Ok((seq![f] + rest, k + k2)),
            },
        }
    }
}

/// Decoding of the frame at the start of `s`.
pub open spec fn decode(s: Seq<u8>) -> Result<(SpecFrame, nat), FrameError> {
    parse_at(s, 0)
}

} // verus!
