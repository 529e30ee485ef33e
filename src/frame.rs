//! Frames: the values that travel over the wire, their decoding from a
//! buffer of bytes and their encoding back to bytes.
use crate::decimal::{parse_i64, push_decimal, push_digits};
use crate::model::{crlf_at, decode, encode, encode_all, lemma_encode_all_push, line_len, parse_at, parse_elems, SpecFrame, CR, LF};
use vstd::slice::{slice_subrange, slice_to_vec};
use vstd::string::{StringExecFns, StringSliceAdditionalSpecFns};
use vstd::prelude::*;

verus! {

/// One decoded unit of the protocol.
#[derive(Debug)]
pub enum Frame {
    Simple(Vec<u8>),
    Error(Vec<u8>),
    Integer(i64),
    Bulk(Vec<u8>),
    Null,
    Array(FrameArray),
}

/// The elements of an array frame, in order.
#[derive(Debug)]
pub struct FrameArray {
    inner: Vec<Frame>,
}

/// The models of a sequence of frames.
pub closed spec fn view_all(s: Seq<Frame>) -> Seq<SpecFrame>
    decreases s,
{
    if s.len() == 0 {
        Seq::empty()
    } else {
        view_all(s.drop_last()).push(s.last().model())
    }
}

impl Frame {
    /// The mathematical value of the frame.
    pub closed spec fn model(self) -> SpecFrame
        decreases self,
    {
        match self {
            Frame::Simple(b) => SpecFrame::Simple(b@),
            Frame::Error(b) => SpecFrame::Error(b@),
            Frame::Integer(v) => SpecFrame::Integer(v as int),
            Frame::Bulk(b) => SpecFrame::Bulk(b@),
            Frame::Null => SpecFrame::Null,
            Frame::Array(a) => SpecFrame::Array(view_all(a.inner@)),
        }
    }
}

impl View for Frame {
    type V = SpecFrame;

    open spec fn view(&self) -> SpecFrame {
        self.model()
    }
}

impl View for FrameArray {
    type V = Seq<SpecFrame>;

    closed spec fn view(&self) -> Seq<SpecFrame> {
        view_all(self.inner@)
    }
}

pub use crate::model::FrameError;

/// The models of `s.push(f)` are those of `s` followed by that of `f`.
pub proof fn lemma_view_all_push(s: Seq<Frame>, f: Frame)
    ensures
        view_all(s.push(f)) == view_all(s).push(f@),
{
    assert(s.push(f).drop_last() =~= s);
}

pub proof fn lemma_view_all(s: Seq<Frame>)
    ensures
        view_all(s).len() == s.len(),
        forall|i: int| 0 <= i < s.len() ==> #[trigger] view_all(s)[i] == s[i]@,
    decreases s.len(),
{
    if s.len() > 0 {
        lemma_view_all(s.drop_last());
    }
}

/// The model of a decoding result: the frame's value and the bytes it takes.
pub open spec fn outcome(r: Result<(Frame, usize), FrameError>) -> Result<(SpecFrame, nat), FrameError> {
    match r {
        Ok((f, k)) => Ok((f@, k as nat)),
        Err(e) => Err(e),
    }
}

/// The model of each kind of frame.
pub proof fn lemma_model(f: Frame)
    ensures
        match f {
            Frame::Simple(b) => f@ == SpecFrame::Simple(b@),
            Frame::Error(b) => f@ == SpecFrame::Error(b@),
            Frame::Integer(v) => f@ == SpecFrame::Integer(v as int),
            Frame::Bulk(b) => f@ == SpecFrame::Bulk(b@),
            Frame::Null => f@ == SpecFrame::Null,
            Frame::Array(a) => f@ == SpecFrame::Array(a@),
        },
{
}

/// The byte at position `at`, or a request for more bytes where `src`
/// ends before it.
pub fn peek_u8_at(src: &[u8], at: usize) -> (r: Result<u8, FrameError>)
    ensures
        at < src.len() ==> r == Ok::<u8, FrameError>(src@[at as int]),
        at >= src.len() ==> r == Err::<u8, FrameError>(FrameError::Incomplete),
{
    if at < src.len() {
        Ok(src[at])
    } else {
        Err(FrameError::Incomplete)
    }
}

/// The bytes from position `at` on, or a request for more bytes where
/// `src` ends before that position.
pub fn get_bytes_from<'a>(src: &'a [u8], at: usize) -> (r: Result<&'a [u8], FrameError>)
    ensures
        at < src.len() ==> (r matches Ok(rest) && rest@ == src@.skip(at as int)),
        at >= src.len() ==> r == Err::<&'a [u8], FrameError>(FrameError::Incomplete),
{
    if at < src.len() {
        Ok(slice_subrange(src, at, src.len()))
    } else {
        Err(FrameError::Incomplete)
    }
}

/// The bytes before the first terminator, and those after it; or a
/// request for more bytes where `src` holds no terminator.
pub fn get_bytes_until_crlf<'a>(src: &'a [u8]) -> (r: Result<(&'a [u8], &'a [u8]), FrameError>)
    ensures
        match line_len(src@, 0) {
            Some(d) => (r matches Ok((line, rest)) && line@ == src@.take(d as int) && rest@
                == src@.skip(d + 2int)),
            None => r == Err::<(&'a [u8], &'a [u8]), FrameError>(FrameError::Incomplete),
        },
{
    match find_crlf(src, 0) {
        Some(j) => {
            proof {
                lemma_line_len_crlf(src@, 0);
                assert(line_len(src@, 0)->0 == j);
            }
            let n = src.len();
            Ok((slice_subrange(src, 0, j), slice_subrange(src, j + 2, n)))
        },
        None => Err(FrameError::Incomplete),
    }
}

/// The first terminator at or after `i`.
fn find_crlf(s: &[u8], i: usize) -> (r: Option<usize>)
    ensures
        match r {
            Some(j) => i <= j && line_len(s@, i as int) == Some((j - i) as nat),
            None => line_len(s@, i as int) is None,
        },
{
    let mut k: usize = i;
    while k < s.len() && s.len() - k >= 2
        invariant
            i <= k,
            line_len(s@, i as int) == match line_len(s@, k as int) {
                Some(d) => Some((d + k - i) as nat),
                None => None,
            },
        decreases s.len() - k,
    {
        if s[k] == CR && s[k + 1] == LF {
            return Some(k);
        }
        k = k + 1;
    }
    None
}

impl Frame {
    /// Decodes the frame that starts at position `i` of `s`, and says how
    /// many bytes it takes.
    fn parse_from(s: &[u8], i: usize) -> (r: Result<(Frame, usize), FrameError>)
        requires
            i <= s.len(),
        ensures
            parse_at(s@, i as int) == outcome(r),
            r matches Ok((f, k)) ==> i + k <= s.len(),
        decreases s.len() - i,
    {
        let tag = match peek_u8_at(s, i) {
            Ok(t) => t,
            Err(e) => return Err(e),
        };
        if !(tag == 43 || tag == 45 || tag == 58 || tag == 36 || tag == 42) {
            return Err(FrameError::BadFormat);
        }
        let j = match find_crlf(s, i + 1) {
            None => return Err(FrameError::Incomplete),
            Some(j) => j,
        };
        proof {
            lemma_line_len_crlf(s@, i + 1);
        }
        let line = slice_subrange(s, i + 1, j);
        let head = j + 2 - i;
        if tag == 43 {
            return Ok((Frame::Simple(slice_to_vec(line)), head));
        }
        if tag == 45 {
            return Ok((Frame::Error(slice_to_vec(line)), head));
        }
        let v = match parse_i64(line) {
            None => return Err(FrameError::InvalidInteger),
            Some(v) => v,
        };
        if tag == 58 {
            return Ok((Frame::Integer(v), head));
        }
        let p = j + 2;
        if tag == 36 {
            if v < 0 {
                return Ok((Frame::Null, head));
            }
            if v as u64 >= (s.len() - p) as u64 {
                return Err(FrameError::Incomplete);
            }
            let n = v as usize;
            if s[p + n] != CR {
                return Err(FrameError::BadFormat);
            }
            if p + n + 1 >= s.len() {
                return Err(FrameError::Incomplete);
            }
            if s[p + n + 1] != LF {
                return Err(FrameError::BadFormat);
            }
            let payload = slice_to_vec(slice_subrange(s, p, p + n));
            return Ok((Frame::Bulk(payload), head + n + 2));
        }
        if v < 0 {
            return Err(FrameError::BadFormat);
        }
        let count = v as u64;
        let mut items: Vec<Frame> = Vec::new();
        let mut pos: usize = p;
        let mut k: u64 = 0;
        while k < count
            invariant
                i < p <= pos <= s.len(),
                k <= count,
                p == i + head,
                parse_at(s@, i as int) == match parse_elems(s@, p as int, count as nat) {
                    Ok((a, n)) => Ok((SpecFrame::Array(a), (head + n) as nat)),
                    Err(e) => Err(e),
                },
                parse_elems(s@, p as int, count as nat) == match parse_elems(s@, pos as int, (count - k) as nat) {
                    Ok((rest, n)) => Ok((view_all(items@) + rest, (pos - p + n) as nat)),
                    Err(e) => Err(e),
                },
            decreases count - k,
        {
            match Frame::parse_from(s, pos) {
                Err(e) => {
                    assert(parse_elems(s@, pos as int, (count - k) as nat) == Err::<(Seq<SpecFrame>, nat), FrameError>(e));
                    assert(parse_elems(s@, p as int, count as nat) == Err::<(Seq<SpecFrame>, nat), FrameError>(e));
                    return Err(e);
                },
                Ok((f, n)) => {
                    proof {
                        lemma_view_all_push(items@, f);
                        let m = (count - k) as nat;
                        match parse_elems(s@, pos + n, (m - 1) as nat) {
                            Ok((rest, n2)) => {
                                assert(view_all(items@) + (seq![f@] + rest) =~= view_all(items@).push(f@) + rest);
                            },
                            Err(e) => {},
                        }
                    }
                    items.push(f);
                    pos = pos + n;
                    k = k + 1;
                },
            }
        }
        proof {
            assert(view_all(items@) + Seq::empty() =~= view_all(items@));
        }
        Ok((Frame::Array(FrameArray { inner: items }), pos - i))
    }
}

impl Frame {
    /// Decodes the frame at the start of `src`: the frame and the number of
    /// bytes it takes, or why `src` does not start with a whole frame.
    pub fn decode(src: &[u8]) -> (r: Result<(Frame, usize), FrameError>)
        ensures
            decode(src@) == outcome(r),
            r matches Ok((f, k)) ==> k <= src.len(),
    {
        Frame::parse_from(src, 0)
    }

    /// Decodes the frame at the start of `src`, and hands back the bytes
    /// that follow it.
    pub fn parse<'a>(src: &'a [u8]) -> (r: Result<(Frame, &'a [u8]), FrameError>)
        ensures
            match r {
                Ok((f, rest)) => rest@.len() <= src@.len() && decode(src@) == Ok::<
                    (SpecFrame, nat),
                    FrameError,
                >((f@, (src@.len() - rest@.len()) as nat)) && rest@ == src@.skip(
                    src@.len() - rest@.len(),
                ),
                Err(e) => decode(src@) == Err::<(SpecFrame, nat), FrameError>(e),
            },
    {
        match Frame::decode(src) {
            Ok((f, k)) => Ok((f, slice_subrange(src, k, src.len()))),
            Err(e) => Err(e),
        }
    }

    /// Appends the wire form of the frame.
    pub fn encode_into(&self, out: &mut Vec<u8>)
        ensures
            final(out)@ == old(out)@ + encode(self@),
        decreases self,
    {
        match self {
            Frame::Simple(b) => {
                out.push(43);
                push_all(out, b.as_slice());
                out.push(CR);
                out.push(LF);
            },
            Frame::Error(b) => {
                out.push(45);
                push_all(out, b.as_slice());
                out.push(CR);
                out.push(LF);
            },
            Frame::Integer(v) => {
                out.push(58);
                push_decimal(out, *v);
                out.push(CR);
                out.push(LF);
            },
            Frame::Bulk(b) => {
                out.push(36);
                push_digits(out, b.len() as u64);
                out.push(CR);
                out.push(LF);
                push_all(out, b.as_slice());
                out.push(CR);
                out.push(LF);
            },
            Frame::Null => {
                out.push(36);
                out.push(45);
                out.push(49);
                out.push(CR);
                out.push(LF);
            },
            Frame::Array(a) => {
                out.push(42);
                push_digits(out, a.inner.len() as u64);
                out.push(CR);
                out.push(LF);
                let ghost start = out@;
                proof {
                    lemma_view_all(a.inner@);
                    assert(decreases_to!(a.inner => a.inner@));
                    assert(decreases_to!(*a => a.inner));
                    assert(decreases_to!(*self => *a));
                }
                let mut k: usize = 0;
                while k < a.inner.len()
                    invariant
                        k <= a.inner.len(),
                        decreases_to!(*self => a.inner@),
                        view_all(a.inner@).len() == a.inner.len(),
                        forall|i: int| 0 <= i < a.inner.len() ==> #[trigger] view_all(a.inner@)[i] == a.inner@[i]@,
                        out@ == start + encode_all(view_all(a.inner@).take(k as int)),
                    decreases a.inner.len() - k,
                {
                    proof {
                        let va = view_all(a.inner@);
                        assert(va.take(k + 1) =~= va.take(k as int).push(va[k as int]));
                        lemma_encode_all_push(va.take(k as int), va[k as int]);
                        assert(decreases_to!(a.inner@ => a.inner@[k as int]));
                    }
                    a.inner[k].encode_into(out);
                    k = k + 1;
                }
                proof {
                    assert(view_all(a.inner@).take(k as int) =~= view_all(a.inner@));
                }
            },
        }
        proof {
            assert(final(out)@ =~= old(out)@ + encode(self@));
        }
    }

    /// The wire form of the frame.
    pub fn as_bytes(&self) -> (r: Vec<u8>)
        ensures
            r@ == encode(self@),
    {
        let mut out: Vec<u8> = Vec::new();
        self.encode_into(&mut out);
        assert(out@ =~= encode(self@));
        out
    }

    /// The number of bytes of the frame's wire form.
    pub fn len(&self) -> (r: usize)
        ensures
            r == encode(self@).len(),
    {
        self.as_bytes().len()
    }
}

/// The name of a frame's variant.
pub open spec fn variant_name(f: SpecFrame) -> Seq<char> {
    match f {
        SpecFrame::Simple(_) => "simple"@,
        SpecFrame::Error(_) => "error"@,
        SpecFrame::Integer(_) => "integer"@,
        SpecFrame::Bulk(_) => "bulk"@,
        SpecFrame::Null => "null"@,
        SpecFrame::Array(_) => "array"@,
    }
}

impl Frame {
    /// An array frame with no elements yet.
    pub fn array() -> (r: Frame)
        ensures
            r@ == SpecFrame::Array(Seq::empty()),
    {
        Frame::Array(FrameArray::default())
    }

    /// The name of the frame's variant.
    pub fn as_name(&self) -> (r: &'static str)
        ensures
            r@ == variant_name(self@),
    {
        match self {
            Frame::Simple(_) => "simple",
            Frame::Error(_) => "error",
            Frame::Integer(_) => "integer",
            Frame::Bulk(_) => "bulk",
            Frame::Null => "null",
            Frame::Array(_) => "array",
        }
    }

    /// The message for a frame of a variant that was not expected.
    pub fn to_error(&self) -> (r: String)
        ensures
            r@ == "did not expect to get "@ + variant_name(self@),
    {
        <String as StringExecFns>::from_str("did not expect to get ").concat(self.as_name())
    }

    /// Appends a bulk frame to an array frame; other frames stay as they are.
    pub fn push_bulk(&mut self, bytes: Vec<u8>)
        ensures
            match old(self)@ {
                SpecFrame::Array(a) => final(self)@ == SpecFrame::Array(a.push(SpecFrame::Bulk(bytes@))),
                _ => final(self)@ == old(self)@,
            },
    {
        if let Frame::Array(a) = self {
            a.push_bulk(bytes);
        }
    }

    /// Appends an integer frame to an array frame; other frames stay as they are.
    pub fn push_int(&mut self, value: i64)
        ensures
            match old(self)@ {
                SpecFrame::Array(a) => final(self)@ == SpecFrame::Array(a.push(SpecFrame::Integer(value as int))),
                _ => final(self)@ == old(self)@,
            },
    {
        if let Frame::Array(a) = self {
            a.push_int(value);
        }
    }
}

impl FrameArray {
    /// An empty array with room for `n` elements.
    pub fn with_capacity(n: usize) -> (r: FrameArray)
        ensures
            r@ == Seq::<SpecFrame>::empty(),
    {
        FrameArray { inner: Vec::with_capacity(n) }
    }

    /// The array of the given elements, in order.
    pub fn from_vec(inner: Vec<Frame>) -> (r: FrameArray)
        ensures
            r@ == view_all(inner@),
    {
        FrameArray { inner }
    }

    /// The elements, in order.
    pub fn as_slice(&self) -> (r: &[Frame])
        ensures
            view_all(r@) == self@,
    {
        self.inner.as_slice()
    }

    /// The elements, in order, handed over.
    pub fn into_vec(self) -> (r: Vec<Frame>)
        ensures
            view_all(r@) == self@,
    {
        self.inner
    }

    /// The number of elements.
    pub fn len(&self) -> (r: usize)
        ensures
            r == self@.len(),
    {
        proof {
            lemma_view_all(self.inner@);
        }
        self.inner.len()
    }

    /// Appends a bulk frame.
    pub fn push_bulk(&mut self, bytes: Vec<u8>)
        ensures
            final(self)@ == old(self)@.push(SpecFrame::Bulk(bytes@)),
    {
        let f = Frame::Bulk(bytes);
        proof {
            lemma_view_all_push(self.inner@, f);
        }
        self.inner.push(f);
    }

    /// Appends an integer frame.
    pub fn push_int(&mut self, value: i64)
        ensures
            final(self)@ == old(self)@.push(SpecFrame::Integer(value as int)),
    {
        let f = Frame::Integer(value);
        proof {
            lemma_view_all_push(self.inner@, f);
        }
        self.inner.push(f);
    }
}

impl Default for FrameArray {
    fn default() -> (r: FrameArray)
        ensures
            r@ == Seq::<SpecFrame>::empty(),
    {
        FrameArray { inner: Vec::new() }
    }
}

/// A copy of a frame, with every element of every array copied.
fn copy_frame(f: &Frame) -> (r: Frame)
    ensures
        r@ == f@,
    decreases f,
{
    match f {
        Frame::Simple(b) => Frame::Simple(slice_to_vec(b.as_slice())),
        Frame::Error(b) => Frame::Error(slice_to_vec(b.as_slice())),
        Frame::Integer(v) => Frame::Integer(*v),
        Frame::Bulk(b) => Frame::Bulk(slice_to_vec(b.as_slice())),
        Frame::Null => Frame::Null,
        Frame::Array(a) => {
            proof {
                assert(decreases_to!(*f => *a));
            }
            Frame::Array(copy_array(a))
        },
    }
}

/// A copy of the elements of an array, each copied in turn.
fn copy_array(a: &FrameArray) -> (r: FrameArray)
    ensures
        r@ == a@,
    decreases a,
{
    let mut inner: Vec<Frame> = Vec::new();
    let mut k: usize = 0;
    proof {
        lemma_view_all(a.inner@);
        assert(decreases_to!(a.inner => a.inner@));
        assert(decreases_to!(*a => a.inner));
    }
    while k < a.inner.len()
        invariant
            k <= a.inner.len(),
            decreases_to!(*a => a.inner@),
            view_all(a.inner@).len() == a.inner.len(),
            forall|i: int| 0 <= i < a.inner.len() ==> #[trigger] view_all(a.inner@)[i] == a.inner@[i]@,
            view_all(inner@) == view_all(a.inner@).take(k as int),
        decreases a.inner.len() - k,
    {
        proof {
            assert(decreases_to!(a.inner@ => a.inner@[k as int]));
        }
        let g = copy_frame(&a.inner[k]);
        proof {
            lemma_view_all_push(inner@, g);
            assert(view_all(a.inner@).take(k + 1) =~= view_all(a.inner@).take(k as int).push(g@));
        }
        inner.push(g);
        k = k + 1;
    }
    proof {
        assert(view_all(a.inner@).take(k as int) =~= view_all(a.inner@));
    }
    FrameArray { inner }
}

impl Clone for Frame {
    fn clone(&self) -> (r: Frame)
        ensures
            r@ == self@,
    {
        copy_frame(self)
    }
}

impl Clone for FrameArray {
    fn clone(&self) -> (r: FrameArray)
        ensures
            r@ == self@,
    {
        copy_array(self)
    }
}

impl Frame {
    /// Whether the frame's wire form is exactly the bytes of `other`.
    pub fn eq_bytes(&self, other: &[u8]) -> (r: bool)
        ensures
            r == (encode(self@) == other@),
    {
        let mine = self.as_bytes();
        if mine.len() != other.len() {
            return false;
        }
        let mut k: usize = 0;
        while k < mine.len()
            invariant
                k <= mine.len(),
                mine.len() == other.len(),
                mine@ == encode(self@),
                forall|i: int| 0 <= i < k ==> mine@[i] == other@[i],
            decreases mine.len() - k,
        {
            if mine[k] != other[k] {
                return false;
            }
            k = k + 1;
        }
        assert(mine@ =~= other@);
        true
    }

    /// Whether the frame's wire form is exactly the bytes of `other`.
    pub fn eq_str(&self, other: &str) -> (r: bool)
        ensures
            r == (encode(self@) == other.spec_bytes()),
    {
        self.eq_bytes(other.as_bytes())
    }
}

/// Appends the bytes of `b`.
fn push_all(out: &mut Vec<u8>, b: &[u8])
    ensures
        final(out)@ == old(out)@ + b@,
{
    let mut k: usize = 0;
    while k < b.len()
        invariant
            k <= b.len(),
            out@ == old(out)@ + b@.take(k as int),
        decreases b.len() - k,
    {
        proof {
            assert(b@.take(k + 1) =~= b@.take(k as int).push(b@[k as int]));
        }
        out.push(b[k]);
        k = k + 1;
    }
    assert(b@.take(k as int) =~= b@);
}

/// Where the first terminator lies and that none comes before it.
proof fn lemma_line_len_crlf(s: Seq<u8>, i: int)
    requires
        line_len(s, i) is Some,
    ensures
        crlf_at(s, i + line_len(s, i)->0),
        i + line_len(s, i)->0 + 1 < s.len(),
        0 <= i,
    decreases s.len() - i,
{
    if !crlf_at(s, i) {
        lemma_line_len_crlf(s, i + 1);
    }
}

} // verus!
