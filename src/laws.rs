//! What decoding does to wire forms: it reads back every frame that has one,
//! and asks for more bytes on every proper prefix of one.
use crate::decimal::lemma_decimal_text;
use crate::model::{
    crlf, crlf_at, decimal_text, decode, encode, encode_all, line_len, line_value, no_crlf,
    parse_at, parse_elems, well_formed, FrameError, SpecFrame, CR, LF,
};
use crate::connection::next_frame_spec;
use crate::frame::Frame;
use vstd::prelude::*;

verus! {

/// `s` holds the bytes of `t` from position `i` on, as far as `s` goes.
pub open spec fn agrees(s: Seq<u8>, i: int, t: Seq<u8>) -> bool {
    forall|k: int| 0 <= k < t.len() && i + k < s.len() ==> s[i + k] == #[trigger] t[k]
}

proof fn lemma_agrees_skip(s: Seq<u8>, i: int, t: Seq<u8>, m: int)
    requires
        agrees(s, i, t),
        0 <= m <= t.len(),
    ensures
        agrees(s, i + m, t.skip(m)),
{
    assert forall|k: int| 0 <= k < t.skip(m).len() && i + m + k < s.len() implies s[i + m + k]
        == #[trigger] t.skip(m)[k] by {
        assert(t.skip(m)[k] == t[m + k]);
    }
}

proof fn lemma_agrees_take(s: Seq<u8>, i: int, t: Seq<u8>, m: int)
    requires
        agrees(s, i, t),
        0 <= m <= t.len(),
    ensures
        agrees(s, i, t.take(m)),
{
    assert forall|k: int| 0 <= k < t.take(m).len() && i + k < s.len() implies s[i + k]
        == #[trigger] t.take(m)[k] by {
        assert(t.take(m)[k] == t[k]);
    }
}

proof fn lemma_scan(s: Seq<u8>, i: int, j: int)
    requires
        0 <= i <= j,
        forall|k: int| i <= k < j ==> !#[trigger] crlf_at(s, k),
    ensures
        crlf_at(s, j) ==> line_len(s, i) == Some((j - i) as nat),
        j + 1 >= s.len() ==> line_len(s, i) is None,
    decreases j - i,
{
    if i < j {
        lemma_scan(s, i + 1, j);
    }
}

/// A line without a terminator, then a terminator: the scan stops right
/// after the line, or finds nothing where the bytes end before that.
proof fn lemma_line(s: Seq<u8>, i: int, line: Seq<u8>)
    requires
        0 <= i,
        no_crlf(line),
        agrees(s, i, line + crlf()),
    ensures
        i + line.len() + 2 <= s.len() ==> line_len(s, i) == Some(line.len()) && s.subrange(
            i,
            i + line.len(),
        ) == line,
        i + line.len() + 2 > s.len() ==> line_len(s, i) is None,
{
    let t = line + crlf();
    let j = i + line.len();
    assert forall|k: int| i <= k < j implies !#[trigger] crlf_at(s, k) by {
        if crlf_at(s, k) {
            assert(s[k] == t[k - i]);
            assert(s[k + 1] == t[k + 1 - i]);
            if k + 1 < j {
                assert(crlf_at(line, k - i));
            } else {
                assert(t[k + 1 - i] == CR);
            }
        }
    }
    if j + 2 <= s.len() {
        assert(s[j] == t[line.len() as int]);
        assert(s[j + 1] == t[line.len() + 1int]);
        assert(crlf_at(s, j));
        assert forall|k: int| 0 <= k < line.len() implies s.subrange(i, j)[k] == line[k] by {
            assert(s[i + k] == t[k]);
        }
        assert(s.subrange(i, j) =~= line);
    }
    lemma_scan(s, i, j);
}

proof fn lemma_decimal_no_crlf(v: int)
    requires
        crate::model::in_i64(v),
    ensures
        no_crlf(decimal_text(v)),
        line_value(decimal_text(v)) == Some(v),
{
    lemma_decimal_text(v);
    assert forall|j: int| !#[trigger] crlf_at(decimal_text(v), j) by {
        if 0 <= j < decimal_text(v).len() {
            assert(decimal_text(v)[j] != CR);
        }
    }
}

/// A header line `tag`, then the decimal `v`, then a terminator, at position `i`.
proof fn lemma_header(s: Seq<u8>, i: int, t: Seq<u8>, v: int)
    requires
        0 <= i < s.len(),
        crate::model::in_i64(v),
        t.len() >= decimal_text(v).len() + 3,
        agrees(s, i, t),
        t.skip(1).take((decimal_text(v).len() + 2) as int) == decimal_text(v) + crlf(),
    ensures
        i + decimal_text(v).len() + 3 <= s.len() ==> line_len(s, i + 1) == Some(
            decimal_text(v).len(),
        ) && line_value(s.subrange(i + 1, i + 1 + decimal_text(v).len())) == Some(v),
        i + decimal_text(v).len() + 3 > s.len() ==> line_len(s, i + 1) is None,
{
    let d = decimal_text(v);
    lemma_decimal_no_crlf(v);
    lemma_agrees_skip(s, i, t, 1);
    lemma_agrees_take(s, i + 1, t.skip(1), (d.len() + 2) as int);
    lemma_line(s, i + 1, d);
}

/// The frame that is written at position `i` of `s` decodes there, and takes
/// exactly its wire form.
proof fn lemma_parse_encoded(s: Seq<u8>, i: int, f: SpecFrame)
    requires
        well_formed(f),
        0 <= i,
        i + encode(f).len() <= s.len(),
        agrees(s, i, encode(f)),
    ensures
        parse_at(s, i) == Ok::<(SpecFrame, nat), FrameError>((f, encode(f).len())),
    decreases f,
{
    let t = encode(f);
    assert(s[i] == t[0]);
    match f {
        SpecFrame::Simple(b) => {
            lemma_agrees_skip(s, i, t, 1);
            assert(t.skip(1) =~= b + crlf());
            lemma_line(s, i + 1, b);
        },
        SpecFrame::Error(b) => {
            lemma_agrees_skip(s, i, t, 1);
            assert(t.skip(1) =~= b + crlf());
            lemma_line(s, i + 1, b);
        },
        SpecFrame::Integer(v) => {
            assert(t.skip(1).take((decimal_text(v).len() + 2) as int) =~= decimal_text(v) + crlf());
            lemma_header(s, i, t, v);
        },
        SpecFrame::Bulk(b) => {
            let v = b.len() as int;
            let d = decimal_text(v);
            assert(t.skip(1).take((d.len() + 2) as int) =~= d + crlf());
            lemma_header(s, i, t, v);
            let p = i + d.len() + 3;
            assert(s[p + v] == t[d.len() + 3 + v]);
            assert(s[p + v + 1] == t[d.len() + 4 + v]);
            assert forall|k: int| 0 <= k < v implies s.subrange(p, p + v)[k] == b[k] by {
                assert(s[p + k] == t[d.len() + 3 + k]);
            }
            assert(s.subrange(p, p + v) =~= b);
        },
        SpecFrame::Null => {
            assert(decimal_text(-1) =~= seq![45u8, 49u8]);
            assert(t.skip(1).take((decimal_text(-1).len() + 2) as int) =~= decimal_text(-1) + crlf());
            lemma_header(s, i, t, -1);
        },
        SpecFrame::Array(a) => {
            let v = a.len() as int;
            let d = decimal_text(v);
            assert(t.skip(1).take((d.len() + 2) as int) =~= d + crlf());
            lemma_header(s, i, t, v);
            lemma_agrees_skip(s, i, t, (d.len() + 3) as int);
            assert(t.skip((d.len() + 3) as int) =~= encode_all(a));
            lemma_parse_encoded_all(s, i + d.len() + 3, a);
        },
    }
}

/// Frames written one after another from position `i` decode there in turn.
proof fn lemma_parse_encoded_all(s: Seq<u8>, i: int, a: Seq<SpecFrame>)
    requires
        forall|k: int| 0 <= k < a.len() ==> well_formed(#[trigger] a[k]),
        0 <= i,
        i + encode_all(a).len() <= s.len(),
        agrees(s, i, encode_all(a)),
    ensures
        parse_elems(s, i, a.len()) == Ok::<(Seq<SpecFrame>, nat), FrameError>(
            (a, encode_all(a).len()),
        ),
    decreases a,
{
    if a.len() == 0 {
        assert(a =~= Seq::<SpecFrame>::empty());
    } else {
        let t = encode_all(a);
        let n = encode(a[0]).len() as int;
        lemma_agrees_take(s, i, t, n);
        assert(t.take(n) =~= encode(a[0]));
        lemma_parse_encoded(s, i, a[0]);
        lemma_agrees_skip(s, i, t, n);
        assert(t.skip(n) =~= encode_all(a.skip(1)));
        assert forall|k: int| 0 <= k < a.skip(1).len() implies well_formed(#[trigger] a.skip(1)[k]) by {
            assert(a.skip(1)[k] == a[k + 1]);
        }
        lemma_parse_encoded_all(s, i + n, a.skip(1));
        assert(seq![a[0]] + a.skip(1) =~= a);
    }
}

/// Decoding the wire form of a frame that has one gives that frame back,
/// and takes every byte of the wire form.
pub proof fn lemma_round_trip(f: SpecFrame)
    requires
        well_formed(f),
    ensures
        decode(encode(f)) == Ok::<(SpecFrame, nat), FrameError>((f, encode(f).len())),
{
    lemma_parse_encoded(encode(f), 0, f);
}

/// A proper prefix of a frame's wire form, written at position `i` where
/// the bytes of `s` end before the frame does, asks for more bytes.
proof fn lemma_parse_prefix(s: Seq<u8>, i: int, f: SpecFrame)
    requires
        well_formed(f),
        0 <= i <= s.len(),
        s.len() < i + encode(f).len(),
        agrees(s, i, encode(f)),
    ensures
        parse_at(s, i) == Err::<(SpecFrame, nat), FrameError>(FrameError::Incomplete),
    decreases f,
{
    if i < s.len() {
        let t = encode(f);
        assert(s[i] == t[0]);
        match f {
            SpecFrame::Simple(b) => {
                lemma_agrees_skip(s, i, t, 1);
                assert(t.skip(1) =~= b + crlf());
                lemma_line(s, i + 1, b);
            },
            SpecFrame::Error(b) => {
                lemma_agrees_skip(s, i, t, 1);
                assert(t.skip(1) =~= b + crlf());
                lemma_line(s, i + 1, b);
            },
            SpecFrame::Integer(v) => {
                assert(t.skip(1).take((decimal_text(v).len() + 2) as int) =~= decimal_text(v) + crlf());
                lemma_header(s, i, t, v);
            },
            SpecFrame::Bulk(b) => {
                let v = b.len() as int;
                let d = decimal_text(v);
                assert(t.skip(1).take((d.len() + 2) as int) =~= d + crlf());
                lemma_header(s, i, t, v);
                let p = i + d.len() + 3;
                if p + v < s.len() {
                    assert(s[p + v] == t[d.len() + 3 + v]);
                }
            },
            SpecFrame::Null => {
                assert(decimal_text(-1) =~= seq![45u8, 49u8]);
                assert(t.skip(1).take((decimal_text(-1).len() + 2) as int) =~= decimal_text(-1) + crlf());
                lemma_header(s, i, t, -1);
            },
            SpecFrame::Array(a) => {
                let v = a.len() as int;
                let d = decimal_text(v);
                assert(t.skip(1).take((d.len() + 2) as int) =~= d + crlf());
                lemma_header(s, i, t, v);
                if i + d.len() + 3 <= s.len() {
                    lemma_agrees_skip(s, i, t, (d.len() + 3) as int);
                    assert(t.skip((d.len() + 3) as int) =~= encode_all(a));
                    lemma_parse_prefix_all(s, i + d.len() + 3, a);
                }
            },
        }
    }
}

/// Frames written one after another from position `i`, where the bytes of
/// `s` end before the last frame does, ask for more bytes.
proof fn lemma_parse_prefix_all(s: Seq<u8>, i: int, a: Seq<SpecFrame>)
    requires
        forall|k: int| 0 <= k < a.len() ==> well_formed(#[trigger] a[k]),
        0 <= i <= s.len(),
        s.len() < i + encode_all(a).len(),
        agrees(s, i, encode_all(a)),
    ensures
        parse_elems(s, i, a.len()) == Err::<(Seq<SpecFrame>, nat), FrameError>(
            FrameError::Incomplete,
        ),
    decreases a,
{
    let t = encode_all(a);
    let n = encode(a[0]).len() as int;
    lemma_agrees_take(s, i, t, n);
    assert(t.take(n) =~= encode(a[0]));
    if s.len() < i + n {
        lemma_parse_prefix(s, i, a[0]);
    } else {
        lemma_parse_encoded(s, i, a[0]);
        lemma_agrees_skip(s, i, t, n);
        assert(t.skip(n) =~= encode_all(a.skip(1)));
        assert forall|k: int| 0 <= k < a.skip(1).len() implies well_formed(#[trigger] a.skip(1)[k]) by {
            assert(a.skip(1)[k] == a[k + 1]);
        }
        lemma_parse_prefix_all(s, i + n, a.skip(1));
    }
}

/// Bytes that follow a frame's wire form change nothing: the frame still
/// decodes, and takes exactly its wire form, leaving the rest for later.
pub proof fn lemma_decode_followed(f: SpecFrame, rest: Seq<u8>)
    requires
        well_formed(f),
    ensures
        decode(encode(f) + rest) == Ok::<(SpecFrame, nat), FrameError>((f, encode(f).len())),
{
    let s = encode(f) + rest;
    assert forall|k: int| 0 <= k < encode(f).len() && k < s.len() implies s[k] == #[trigger] encode(
        f,
    )[k] by {}
    lemma_parse_encoded(s, 0, f);
}

/// A stream that ends inside a frame: where the bytes held are a non-empty
/// proper prefix of a frame's wire form, however they arrived, decoding asks
/// for more and leaves them in place, so the end of the stream finds them
/// held and reports a reset.
pub proof fn lemma_truncated_frame_is_held(f: SpecFrame, held: Seq<u8>)
    requires
        well_formed(f),
        0 < held.len() < encode(f).len(),
        held == encode(f).take(held.len() as int),
    ensures
        forall|after: Seq<u8>, r: Result<Option<Frame>, FrameError>|
            #[trigger] next_frame_spec(held, after, r) ==> (r matches Ok(None) && after == held
                && after.len() != 0),
{
    lemma_prefix_incomplete(f, held.len() as int);
}

/// Every proper prefix of a frame's wire form, the empty one included,
/// decodes as a request for more bytes; the whole wire form decodes.
pub proof fn lemma_prefix_incomplete(f: SpecFrame, n: int)
    requires
        well_formed(f),
        0 <= n < encode(f).len(),
    ensures
        decode(encode(f).take(n)) == Err::<(SpecFrame, nat), FrameError>(FrameError::Incomplete),
        decode(encode(f)) is Ok,
{
    let t = encode(f);
    assert forall|k: int| 0 <= k < t.len() && k < t.take(n).len() implies t.take(n)[k]
        == #[trigger] t[k] by {}
    lemma_parse_prefix(t.take(n), 0, f);
    lemma_round_trip(f);
}

} // verus!
