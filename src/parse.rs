//! A cursor over the elements of an array frame, from which commands read
//! their arguments one at a time.
use crate::frame::{lemma_model, lemma_view_all, view_all, Frame};
use crate::model::{index_value, line_value, SpecFrame};
use crate::decimal::{parse_i64, parse_u64};
use vstd::prelude::*;

verus! {

/// Why an argument could not be read.
#[derive(Debug, Clone, Copy, PartialEq, Eq, Structural)]
pub enum ParseError {
    /// Every element has been read.
    EndOfStream,
    /// The next element is not of a kind that the read accepts.
    Mismatch,
}

/// The text that a sequence of bytes stands for in UTF-8, where it is valid.
pub uninterp spec fn utf8_text(b: Seq<u8>) -> Option<Seq<char>>;

/// Relies on `String::from_utf8`: the text where the bytes are valid UTF-8,
/// and an error where they are not.
#[verifier::external_body]
fn text_of(b: Vec<u8>) -> (r: Option<String>)
    ensures
        match r {
            Some(t) => utf8_text(b@) == Some(t@),
            None => utf8_text(b@) is None,
        },
{
    String::from_utf8(b).ok()
}

/// The elements of an array frame that are still to be read.
pub struct Parse {
    parts: Vec<Frame>,
}

impl View for Parse {
    type V = Seq<SpecFrame>;

    closed spec fn view(&self) -> Seq<SpecFrame> {
        view_all(self.parts@)
    }
}

/// The bytes that a simple or bulk frame carries.
pub open spec fn text_bytes(f: SpecFrame) -> Option<Seq<u8>> {
    match f {
        SpecFrame::Simple(b) => Some(b),
        SpecFrame::Bulk(b) => Some(b),
        _ => None,
    }
}

/// The integer that an argument stands for: an integer frame, or a simple
/// or bulk frame that holds a signed 64-bit decimal.
pub open spec fn int_arg(f: SpecFrame) -> Option<int> {
    match f {
        SpecFrame::Integer(v) => Some(v),
        SpecFrame::Simple(b) => line_value(b),
        SpecFrame::Bulk(b) => line_value(b),
        _ => None,
    }
}

/// The index that an argument stands for: an integer frame that is not
/// negative, or a simple or bulk frame of digits whose value fits in 64
/// bits unsigned.
pub open spec fn index_arg(f: SpecFrame) -> Option<int> {
    match f {
        SpecFrame::Integer(v) => if v >= 0 {
            Some(v)
        } else {
            None
        },
        SpecFrame::Simple(b) => index_value(b),
        SpecFrame::Bulk(b) => index_value(b),
        _ => None,
    }
}

impl Parse {
    /// A cursor over the elements of `frame`, which must be an array.
    pub fn new(frame: Frame) -> (r: Result<Parse, ParseError>)
        ensures
            match frame@ {
                SpecFrame::Array(a) => (r matches Ok(p) && p@ == a),
                _ => r == Err::<Parse, ParseError>(ParseError::Mismatch),
            },
    {
        proof {
            lemma_model(frame);
        }
        match frame {
            Frame::Array(a) => Ok(Parse { parts: a.into_vec() }),
            _ => Err(ParseError::Mismatch),
        }
    }

    /// Takes the next element.
    fn next(&mut self) -> (r: Result<Frame, ParseError>)
        ensures
            old(self)@.len() == 0 ==> r == Err::<Frame, ParseError>(ParseError::EndOfStream)
                && final(self)@ == old(self)@,
            old(self)@.len() > 0 ==> (r matches Ok(f) && f@ == old(self)@[0]) && final(self)@
                == old(self)@.skip(1),
    {
        proof {
            lemma_view_all(self.parts@);
        }
        if self.parts.len() == 0 {
            return Err(ParseError::EndOfStream);
        }
        let f = self.parts.remove(0);
        proof {
            lemma_view_all(self.parts@);
            assert(view_all(self.parts@) =~= view_all(old(self).parts@).skip(1));
        }
        Ok(f)
    }

    /// The next element as text: a simple or bulk frame whose bytes are
    /// valid UTF-8.
    pub fn next_string(&mut self) -> (r: Result<String, ParseError>)
        ensures
            old(self)@.len() == 0 ==> r == Err::<String, ParseError>(ParseError::EndOfStream)
                && final(self)@ == old(self)@,
            old(self)@.len() > 0 ==> final(self)@ == old(self)@.skip(1) && match text_bytes(
                old(self)@[0],
            ) {
                Some(b) => match utf8_text(b) {
                    Some(t) => (r matches Ok(s) && s@ == t),
                    None => r == Err::<String, ParseError>(ParseError::Mismatch),
                },
                None => r == Err::<String, ParseError>(ParseError::Mismatch),
            },
    {
        let f = self.next()?;
        proof {
            lemma_model(f);
        }
        match f {
            Frame::Simple(b) | Frame::Bulk(b) => match text_of(b) {
                Some(t) => Ok(t),
                None => Err(ParseError::Mismatch),
            },
            _ => Err(ParseError::Mismatch),
        }
    }

    /// The next element as raw bytes: those of a simple or bulk frame.
    pub fn next_bytes(&mut self) -> (r: Result<Vec<u8>, ParseError>)
        ensures
            old(self)@.len() == 0 ==> r == Err::<Vec<u8>, ParseError>(ParseError::EndOfStream)
                && final(self)@ == old(self)@,
            old(self)@.len() > 0 ==> final(self)@ == old(self)@.skip(1) && match text_bytes(
                old(self)@[0],
            ) {
                Some(b) => (r matches Ok(v) && v@ == b),
                None => r == Err::<Vec<u8>, ParseError>(ParseError::Mismatch),
            },
    {
        let f = self.next()?;
        proof {
            lemma_model(f);
        }
        match f {
            Frame::Simple(b) | Frame::Bulk(b) => Ok(b),
            _ => Err(ParseError::Mismatch),
        }
    }

    /// The next element as an integer: an integer frame, or a simple or bulk
    /// frame that holds a signed 64-bit decimal.
    pub fn next_int(&mut self) -> (r: Result<i64, ParseError>)
        ensures
            old(self)@.len() == 0 ==> r == Err::<i64, ParseError>(ParseError::EndOfStream)
                && final(self)@ == old(self)@,
            old(self)@.len() > 0 ==> final(self)@ == old(self)@.skip(1) && match int_arg(
                old(self)@[0],
            ) {
                Some(v) => (r matches Ok(x) && x as int == v),
                None => r == Err::<i64, ParseError>(ParseError::Mismatch),
            },
    {
        let f = self.next()?;
        proof {
            lemma_model(f);
        }
        match f {
            Frame::Integer(v) => Ok(v),
            Frame::Simple(b) | Frame::Bulk(b) => match parse_i64(b.as_slice()) {
                Some(v) => Ok(v),
                None => Err(ParseError::Mismatch),
            },
            _ => Err(ParseError::Mismatch),
        }
    }

    /// The next element as an unsigned index.
    pub fn next_u64(&mut self) -> (r: Result<u64, ParseError>)
        ensures
            old(self)@.len() == 0 ==> r == Err::<u64, ParseError>(ParseError::EndOfStream)
                && final(self)@ == old(self)@,
            old(self)@.len() > 0 ==> final(self)@ == old(self)@.skip(1) && match index_arg(
                old(self)@[0],
            ) {
                Some(v) => (r matches Ok(x) && x as int == v),
                None => r == Err::<u64, ParseError>(ParseError::Mismatch),
            },
    {
        let f = self.next()?;
        proof {
            lemma_model(f);
        }
        match f {
            Frame::Integer(v) => if v >= 0 {
                Ok(v as u64)
            } else {
                Err(ParseError::Mismatch)
            },
            Frame::Simple(b) | Frame::Bulk(b) => match parse_u64(b.as_slice()) {
                Some(v) => Ok(v),
                None => Err(ParseError::Mismatch),
            },
            _ => Err(ParseError::Mismatch),
        }
    }

    /// Whether every element has been read.
    pub fn is_done(&self) -> (r: bool)
        ensures
            r == (self@.len() == 0),
    {
        proof {
            lemma_view_all(self.parts@);
        }
        self.parts.len() == 0
    }
}

} // verus!
