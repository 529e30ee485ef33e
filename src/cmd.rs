//! Two commands that read their arguments from a [`Parse`] cursor and answer
//! with a frame.
use crate::decimal::{lemma_index_text, push_digits};
use crate::frame::{lemma_model, Frame};
use crate::model::{nat_digits, SpecFrame};
use crate::parse::{index_arg, text_bytes, utf8_text, Parse, ParseError};
use vstd::prelude::*;

verus! {

/// Whether a frame reads as text: a simple or bulk frame of valid UTF-8.
pub open spec fn is_text(f: SpecFrame) -> bool {
    match text_bytes(f) {
        Some(b) => utf8_text(b) is Some,
        None => false,
    }
}

/// How many elements reading text until it fails takes: the leading text
/// elements, and the first one that is not text, if any.
pub open spec fn text_run(a: Seq<SpecFrame>) -> nat
    decreases a.len(),
{
    if a.len() == 0 {
        0
    } else if is_text(a[0]) {
        1 + text_run(a.skip(1))
    } else {
        1
    }
}

proof fn lemma_text_run(a: Seq<SpecFrame>)
    ensures
        text_run(a) <= a.len(),
    decreases a.len(),
{
    if a.len() > 0 {
        lemma_text_run(a.skip(1));
    }
}

/// The frame that acknowledges a command.
fn ok_frame() -> (r: Frame)
    ensures
        r@ == SpecFrame::Simple(seq![79u8, 75u8]),
{
    let mut b: Vec<u8> = Vec::new();
    b.push(79);
    b.push(75);
    let r = Frame::Simple(b);
    proof {
        lemma_model(r);
        assert(b@ =~= seq![79u8, 75u8]);
    }
    r
}

/// `CONFIG GET parameter [parameter ...]`: the parameters are read and
/// ignored.
#[derive(Debug, Default)]
pub struct Config {}

impl Config {
    pub fn new() -> (r: Config) {
        Config {}
    }

    /// Reads the parameters: text elements until one is not text or none
    /// are left. Never fails.
    pub fn parse_frames(parse: &mut Parse) -> (r: Result<Config, ParseError>)
        ensures
            r is Ok,
            text_run(old(parse)@) <= old(parse)@.len(),
            final(parse)@ == old(parse)@.skip(text_run(old(parse)@) as int),
    {
        let ghost start = parse@;
        proof {
            lemma_text_run(start);
            assert(start.skip(0) =~= start);
        }
        loop
            invariant_except_break
                parse@.len() <= start.len(),
                parse@ == start.skip(start.len() - parse@.len()),
                start.len() - parse@.len() + text_run(parse@) == text_run(start),
                text_run(parse@) <= parse@.len(),
            ensures
                parse@ == start.skip(text_run(start) as int),
            decreases parse@.len(),
        {
            let ghost before = parse@;
            proof {
                if before.len() > 0 {
                    lemma_text_run(before.skip(1));
                }
            }
            match parse.next_string() {
                Ok(_) => {
                    proof {
                        assert(start.skip(start.len() - before.len()).skip(1) =~= start.skip(
                            start.len() - before.len() + 1,
                        ));
                    }
                },
                Err(_) => {
                    proof {
                        if before.len() > 0 {
                            assert(start.skip(start.len() - before.len()).skip(1) =~= start.skip(
                                start.len() - before.len() + 1,
                            ));
                        }
                    }
                    break;
                },
            }
        }
        Ok(Config {})
    }

    /// The answer to the command.
    pub fn response(&self) -> (r: Frame)
        ensures
            r@ == SpecFrame::Simple(seq![79u8, 75u8]),
    {
        ok_frame()
    }
}

/// `SELECT index`: chooses the database of the given index.
#[derive(Debug, Default)]
pub struct Select {
    id: u64,
}

impl Select {
    pub fn new(id: u64) -> (r: Select)
        ensures
            r.id() == id,
    {
        Select { id }
    }

    pub closed spec fn id(&self) -> u64 {
        self.id
    }

    /// The index of the database.
    pub fn index(&self) -> (r: u64)
        ensures
            r == self.id(),
    {
        self.id
    }

    /// Reads the index: one argument that stands for an unsigned 64-bit
    /// integer.
    pub fn parse_frames(parse: &mut Parse) -> (r: Result<Select, ParseError>)
        ensures
            old(parse)@.len() == 0 ==> r == Err::<Select, ParseError>(ParseError::EndOfStream),
            old(parse)@.len() > 0 ==> final(parse)@ == old(parse)@.skip(1),
            old(parse)@.len() > 0 ==> match index_arg(old(parse)@[0]) {
                Some(v) => (r matches Ok(s) && s.id() == v),
                None => r == Err::<Select, ParseError>(ParseError::Mismatch),
            },
    {
        match parse.next_u64() {
            Ok(v) => Ok(Select::new(v)),
            Err(e) => Err(e),
        }
    }

    /// The command as a frame: the name and the index, as bulk strings.
    pub fn into_frame(self) -> (r: Frame)
        ensures
            r@ == SpecFrame::Array(
                seq![
                    SpecFrame::Bulk(select_name()),
                    SpecFrame::Bulk(nat_digits(self.id() as nat)),
                ],
            ),
    {
        let mut frame = Frame::array();
        let name: Vec<u8> = vec![83u8, 101u8, 108u8, 101u8, 99u8, 116u8];
        let ghost name_bytes = name@;
        frame.push_bulk(name);
        let mut digits: Vec<u8> = Vec::new();
        push_digits(&mut digits, self.id);
        frame.push_bulk(digits);
        proof {
            assert(digits@ =~= nat_digits(self.id as nat));
            assert(name_bytes =~= seq![83u8, 101u8, 108u8, 101u8, 99u8, 116u8]);
            assert(Seq::<SpecFrame>::empty().push(SpecFrame::Bulk(name_bytes)).push(
                SpecFrame::Bulk(digits@),
            ) =~= seq![SpecFrame::Bulk(name_bytes), SpecFrame::Bulk(digits@)]);
        }
        frame
    }

    /// The answer to the command.
    pub fn response(&self) -> (r: Frame)
        ensures
            r@ == SpecFrame::Simple(seq![79u8, 75u8]),
    {
        ok_frame()
    }
}

/// The name of the `SELECT` command as it is written in a frame.
pub open spec fn select_name() -> Seq<u8> {
    seq![83u8, 101u8, 108u8, 101u8, 99u8, 116u8]
}

/// A `SELECT` command written as a frame reads back as the same command:
/// the index argument that `into_frame` writes for index `n` is read by
/// `parse_frames` as `n`, for every `n`.
pub proof fn lemma_select_round_trip(n: u64)
    ensures
        index_arg(SpecFrame::Bulk(nat_digits(n as nat))) == Some(n as int),
{
    lemma_index_text(n);
}

} // verus!
