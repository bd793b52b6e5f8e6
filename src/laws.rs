//! What the encoder and the decoder guarantee together.
use vstd::prelude::*;
use vstd::utf8::*;
use crate::decimal::{all_digits, count_value, decimal, is_digit, lemma_count_of_decimal, lemma_decimal};
use crate::parser::{
    bulk_at, count_line, crlf_after, crlf_at, line_len, parse_frame, parse_items, text_line,
    ParseError,
};
use crate::value::{
    crlf, encode_frame, encode_items, has_crlf, items_well_formed, well_formed, Frame, CR, LF,
};

verus! {

broadcast use {encode_utf8_valid_utf8, encode_utf8_decode_utf8};

/// `s` stands in `b` from position `p` on.
pub open spec fn occurs_at(b: Seq<u8>, p: int, s: Seq<u8>) -> bool {
    0 <= p && p + s.len() <= b.len() && forall|i: int| 0 <= i < s.len() ==> b[p + i] == #[trigger] s[i]
}

proof fn lemma_occurs_split(b: Seq<u8>, p: int, x: Seq<u8>, y: Seq<u8>)
    requires
        occurs_at(b, p, x + y),
    ensures
        occurs_at(b, p, x),
        occurs_at(b, p + x.len(), y),
{
    assert forall|i: int| 0 <= i < x.len() implies b[p + i] == #[trigger] x[i] by {
        assert((x + y)[i] == x[i]);
    }
    assert forall|j: int| 0 <= j < y.len() implies b[p + x.len() + j] == #[trigger] y[j] by {
        assert((x + y)[x.len() + j] == y[j]);
    }
}

proof fn lemma_occurs_subrange(b: Seq<u8>, p: int, s: Seq<u8>)
    requires
        occurs_at(b, p, s),
    ensures
        b.subrange(p, p + s.len()) == s,
{
    assert(b.subrange(p, p + s.len()) =~= s);
}

/// The line from `p` ends at the first terminator, at `e`.
proof fn lemma_line_len_at(b: Seq<u8>, p: int, e: int)
    requires
        0 <= p <= e,
        crlf_at(b, e),
        forall|j: int| p <= j < e ==> !#[trigger] crlf_at(b, j),
    ensures
        line_len(b, p) == Some((e - p) as nat),
    decreases e - p,
{
    if p < e {
        lemma_line_len_at(b, p + 1, e);
    }
}

/// No terminator from `p` on: no line.
proof fn lemma_line_len_none(b: Seq<u8>, p: int)
    requires
        0 <= p,
        forall|j: int| p <= j ==> !#[trigger] crlf_at(b, j),
    ensures
        line_len(b, p) is None,
    decreases b.len() - p,
{
    if p + 1 < b.len() {
        lemma_line_len_none(b, p + 1);
    }
}

/// A payload free of terminators, then a terminator: one line.
proof fn lemma_line_of(b: Seq<u8>, p: int, u: Seq<u8>)
    requires
        occurs_at(b, p, u + crlf()),
        !has_crlf(u),
    ensures
        line_len(b, p) == Some(u.len()),
        b.subrange(p, p + u.len()) == u,
{
    lemma_occurs_split(b, p, u, crlf());
    lemma_occurs_subrange(b, p, u);
    assert forall|j: int| p <= j < p + u.len() implies !#[trigger] crlf_at(b, j) by {
        if j + 1 < p + u.len() {
            assert(b[j] == u[j - p] && b[j + 1] == u[j - p + 1]);
        } else {
            assert(b[j + 1] == crlf()[0]);
        }
    }
    assert(b[p + u.len()] == crlf()[0] && b[p + u.len() + 1] == crlf()[1]);
    lemma_line_len_at(b, p, p + u.len());
}

proof fn lemma_digits_no_crlf(d: Seq<u8>)
    requires
        all_digits(d),
    ensures
        !has_crlf(d),
{
    assert forall|i: int| 0 <= i && i + 1 < d.len() implies !(#[trigger] d[i] == CR && d[i + 1]
        == LF) by {
        assert(is_digit(d[i]));
    }
}

/// Every frame takes at least one byte.
proof fn lemma_frame_len(f: Frame)
    ensures
        encode_frame(f).len() >= 1,
{
    match f {
        Frame::Simple(s) => {},
        Frame::Bulk(s) => {},
        Frame::Error(s) => {},
        Frame::Array(items) => {},
        Frame::Null => {},
    }
}

/// So `n` frames take at least `n` bytes.
proof fn lemma_items_len(items: Seq<Frame>)
    ensures
        encode_items(items).len() >= items.len(),
    decreases items.len(),
{
    if items.len() > 0 {
        lemma_items_len(items.drop_last());
        lemma_frame_len(items.last());
    }
}

/// The header line of a bulk string or an array: a tag, a count and a terminator.
proof fn lemma_count_header(b: Seq<u8>, p: int, tag: u8, n: nat, rest: Seq<u8>)
    requires
        n <= usize::MAX,
        occurs_at(b, p, seq![tag] + decimal(n) + crlf() + rest),
    ensures
        b[p] == tag,
        line_len(b, p + 1) == Some(decimal(n).len()),
        b.subrange(p + 1, p + 1 + decimal(n).len()) == decimal(n),
        count_line(b, p + 1) == Ok::<(nat, nat), ParseError>((n, decimal(n).len())),
        occurs_at(b, p + 1 + decimal(n).len() + 2, rest),
{
    let d = decimal(n);
    lemma_decimal(n);
    lemma_count_of_decimal(n);
    lemma_digits_no_crlf(d);
    assert(seq![tag] + d + crlf() + rest =~= seq![tag] + ((d + crlf()) + rest));
    lemma_occurs_split(b, p, seq![tag], (d + crlf()) + rest);
    assert(b[p + 0] == seq![tag][0]);
    lemma_occurs_split(b, p + 1, d + crlf(), rest);
    lemma_line_of(b, p + 1, d);
}

/// Decoding the encoding of a well-formed frame, wherever it stands in a
/// buffer, gives the frame back and ends right after it.
pub proof fn lemma_frame_round_trip(f: Frame, b: Seq<u8>, p: int)
    requires
        well_formed(f),
        occurs_at(b, p, encode_frame(f)),
    ensures
        parse_frame(b, p) == Ok::<(Frame, int), ParseError>((f, p + encode_frame(f).len())),
    decreases f,
{
    let e = encode_frame(f);
    lemma_frame_len(f);
    assert(b[p + 0] == e[0]);
    match f {
        Frame::Simple(s) => {
            let u = encode_utf8(s);
            assert(e =~= seq![43u8] + (u + crlf()));
            lemma_occurs_split(b, p, seq![43u8], u + crlf());
            lemma_line_of(b, p + 1, u);
            assert(text_line(b, p + 1) == Ok::<(Seq<char>, nat), ParseError>((s, u.len())));
        },
        Frame::Error(s) => {
            let u = encode_utf8(s);
            assert(e =~= seq![45u8] + (u + crlf()));
            lemma_occurs_split(b, p, seq![45u8], u + crlf());
            lemma_line_of(b, p + 1, u);
            assert(text_line(b, p + 1) == Ok::<(Seq<char>, nat), ParseError>((s, u.len())));
        },
        Frame::Bulk(s) => {
            let u = encode_utf8(s);
            let d = decimal(u.len());
            assert(e =~= seq![36u8] + d + crlf() + (u + crlf()));
            lemma_count_header(b, p, 36u8, u.len(), u + crlf());
            lemma_decimal(u.len());
            assert(is_digit(d[0]));
            assert(b.subrange(p + 1, p + 1 + d.len()) != seq![45u8, 49u8]);
            let q = p + 1 + d.len() + 2;
            lemma_occurs_split(b, q, u, crlf());
            lemma_occurs_subrange(b, q, u);
            assert(b[q + u.len()] == crlf()[0] && b[q + u.len() + 1] == crlf()[1]);
            assert(crlf_after(b, q + u.len()) == Ok::<int, ParseError>(q + u.len() + 2));
            assert(bulk_at(b, p + 1) == Ok::<(Frame, int), ParseError>((f, p + e.len())));
        },
        Frame::Null => {
            assert(e =~= seq![36u8] + (seq![45u8, 49u8] + crlf()));
            lemma_occurs_split(b, p, seq![36u8], seq![45u8, 49u8] + crlf());
            assert(!has_crlf(seq![45u8, 49u8]));
            lemma_line_of(b, p + 1, seq![45u8, 49u8]);
        },
        Frame::Array(items) => {
            let n = items.len();
            let d = decimal(n);
            assert(e =~= seq![42u8] + d + crlf() + encode_items(items));
            lemma_count_header(b, p, 42u8, n, encode_items(items));
            let q = p + 1 + d.len() + 2;
            lemma_items_len(items);
            assert(decreases_to!(f => f->Array_0));
            lemma_items_round_trip(items, b, q);
        },
    }
}

/// Decoding the encodings of well-formed frames, back to back, gives the frames.
pub proof fn lemma_items_round_trip(items: Seq<Frame>, b: Seq<u8>, q: int)
    requires
        items_well_formed(items),
        occurs_at(b, q, encode_items(items)),
    ensures
        parse_items(b, q, items.len()) == Ok::<(Seq<Frame>, nat), ParseError>(
            (items, encode_items(items).len()),
        ),
    decreases items,
{
    if items.len() > 0 {
        let init = items.drop_last();
        let last = items.last();
        lemma_occurs_split(b, q, encode_items(init), encode_frame(last));
        assert(decreases_to!(items => items.subrange(0, items.len() - 1)));
        lemma_items_round_trip(init, b, q);
        assert(decreases_to!(items => items[items.len() - 1]));
        lemma_frame_round_trip(last, b, q + encode_items(init).len());
        assert(init.push(last) =~= items);
    } else {
        assert(items =~= Seq::<Frame>::empty());
    }
}

/// A header line cut before its terminator is complete yields no line.
proof fn lemma_cut_header(b: Seq<u8>, p: int, tag: u8, d: Seq<u8>, rest: Seq<u8>)
    requires
        all_digits(d),
        0 <= p <= b.len(),
        b.len() - p < 1 + d.len() + 2,
        occurs_at(b, p, (seq![tag] + d + crlf() + rest).take(b.len() - p)),
    ensures
        line_len(b, p + 1) is None,
{
    let e = seq![tag] + d + crlf() + rest;
    let k = b.len() - p;
    assert forall|j: int| p + 1 <= j implies !#[trigger] crlf_at(b, j) by {
        if crlf_at(b, j) {
            let m = j - p;
            assert(b[p + m] == e.take(k)[m]);
            assert(b[p + m + 1] == e.take(k)[m + 1]);
            if m <= d.len() {
                assert(e[m] == d[m - 1]);
                assert(is_digit(d[m - 1]));
            }
        }
    }
    lemma_line_len_none(b, p + 1);
}

/// A strict prefix of the encoding of a well-formed frame, at the end of a
/// buffer, asks for more bytes.
pub proof fn lemma_frame_prefix(f: Frame, b: Seq<u8>, p: int)
    requires
        well_formed(f),
        0 <= p <= b.len(),
        b.len() - p < encode_frame(f).len(),
        occurs_at(b, p, encode_frame(f).take(b.len() - p)),
    ensures
        parse_frame(b, p) == Err::<(Frame, int), ParseError>(ParseError::UnexpectedEOF),
    decreases f,
{
    let e = encode_frame(f);
    let k = b.len() - p;
    if k == 0 {
        return;
    }
    assert(b[p + 0] == e.take(k)[0]);
    match f {
        Frame::Simple(s) => {
            let u = encode_utf8(s);
            assert forall|j: int| p + 1 <= j implies !#[trigger] crlf_at(b, j) by {
                if crlf_at(b, j) {
                    let m = j - p;
                    assert(b[p + m] == e.take(k)[m]);
                    assert(b[p + m + 1] == e.take(k)[m + 1]);
                    if m < u.len() {
                        assert(u[m - 1] == CR && u[m] == LF);
                    }
                }
            }
            lemma_line_len_none(b, p + 1);
        },
        Frame::Error(s) => {
            let u = encode_utf8(s);
            assert forall|j: int| p + 1 <= j implies !#[trigger] crlf_at(b, j) by {
                if crlf_at(b, j) {
                    let m = j - p;
                    assert(b[p + m] == e.take(k)[m]);
                    assert(b[p + m + 1] == e.take(k)[m + 1]);
                    if m < u.len() {
                        assert(u[m - 1] == CR && u[m] == LF);
                    }
                }
            }
            lemma_line_len_none(b, p + 1);
        },
        Frame::Null => {
            assert forall|j: int| p + 1 <= j implies !#[trigger] crlf_at(b, j) by {
                if crlf_at(b, j) {
                    let m = j - p;
                    assert(b[p + m + 1] == e.take(k)[m + 1]);
                }
            }
            lemma_line_len_none(b, p + 1);
        },
        Frame::Bulk(s) => {
            let u = encode_utf8(s);
            let d = decimal(u.len());
            lemma_decimal(u.len());
            assert(e =~= seq![36u8] + d + crlf() + (u + crlf()));
            if k < 1 + d.len() + 2 {
                lemma_cut_header(b, p, 36u8, d, u + crlf());
            } else {
                let h = 1 + d.len() + 2;
                assert(e.take(k) =~= seq![36u8] + d + crlf() + (u + crlf()).take(k - h));
                lemma_count_header(b, p, 36u8, u.len(), (u + crlf()).take(k - h));
                assert(is_digit(d[0]));
                assert(b.subrange(p + 1, p + 1 + d.len()) != seq![45u8, 49u8]);
                let q = p + h;
                if q + u.len() <= b.len() {
                    assert(b.subrange(q, q + u.len()) =~= u) by {
                        assert forall|i: int| 0 <= i < u.len() implies b.subrange(
                            q,
                            q + u.len(),
                        )[i] == u[i] by {
                            assert(b[q + i] == (u + crlf()).take(k - h)[i]);
                        }
                    }
                    if q + u.len() + 1 == b.len() {
                        assert(b[q + u.len()] == (u + crlf()).take(k - h)[u.len() as int]);
                    }
                }
            }
        },
        Frame::Array(items) => {
            let n = items.len();
            let d = decimal(n);
            lemma_decimal(n);
            let ei = encode_items(items);
            assert(e =~= seq![42u8] + d + crlf() + ei);
            if k < 1 + d.len() + 2 {
                lemma_cut_header(b, p, 42u8, d, ei);
            } else {
                let h = 1 + d.len() + 2;
                assert(e.take(k) =~= seq![42u8] + d + crlf() + ei.take(k - h));
                lemma_count_header(b, p, 42u8, n, ei.take(k - h));
                let q = p + h;
                if n <= b.len() - q {
                    assert(decreases_to!(f => f->Array_0));
                    lemma_items_prefix(items, b, q);
                }
            }
        },
    }
}

/// A strict prefix of back-to-back encodings of well-formed frames, at the end
/// of a buffer, asks for more bytes.
pub proof fn lemma_items_prefix(items: Seq<Frame>, b: Seq<u8>, q: int)
    requires
        items_well_formed(items),
        0 <= q <= b.len(),
        b.len() - q < encode_items(items).len(),
        occurs_at(b, q, encode_items(items).take(b.len() - q)),
    ensures
        parse_items(b, q, items.len()) == Err::<(Seq<Frame>, nat), ParseError>(
            ParseError::UnexpectedEOF,
        ),
    decreases items,
{
    let ei = encode_items(items);
    let k = b.len() - q;
    if items.len() == 0 {
        return;
    }
    let init = items.drop_last();
    let last = items.last();
    let ei0 = encode_items(init);
    assert(ei == ei0 + encode_frame(last));
    assert(decreases_to!(items => items.subrange(0, items.len() - 1)));
    assert(decreases_to!(items => items[items.len() - 1]));
    if k < ei0.len() {
        assert(ei.take(k) =~= ei0.take(k));
        lemma_items_prefix(init, b, q);
    } else {
        assert(ei.take(k) =~= ei0 + encode_frame(last).take(k - ei0.len()));
        lemma_occurs_split(b, q, ei0, encode_frame(last).take(k - ei0.len()));
        lemma_items_round_trip(init, b, q);
        lemma_frame_prefix(last, b, q + ei0.len());
    }
}

/// Decoding the encoding of a well-formed frame gives the frame back, and
/// the decoder takes every byte of the encoding.
pub proof fn round_trip(f: Frame)
    requires
        well_formed(f),
    ensures
        parse_frame(encode_frame(f), 0) == Ok::<(Frame, int), ParseError>(
            (f, encode_frame(f).len() as int),
        ),
{
    let e = encode_frame(f);
    assert(occurs_at(e, 0, e));
    lemma_frame_round_trip(f, e, 0);
}

/// Every strict prefix of the encoding of a well-formed frame asks for more
/// bytes, and once the rest arrives the decoder gives the frame.
pub proof fn incremental_delivery(f: Frame, k: int)
    requires
        well_formed(f),
        0 <= k < encode_frame(f).len(),
    ensures
        parse_frame(encode_frame(f).take(k), 0) == Err::<(Frame, int), ParseError>(
            ParseError::UnexpectedEOF,
        ),
        parse_frame(encode_frame(f).take(k) + encode_frame(f).skip(k), 0) == Ok::<
            (Frame, int),
            ParseError,
        >((f, encode_frame(f).len() as int)),
{
    let e = encode_frame(f);
    let b = e.take(k);
    assert(occurs_at(b, 0, e.take(b.len() - 0)));
    lemma_frame_prefix(f, b, 0);
    assert(e.take(k) + e.skip(k) =~= e);
    round_trip(f);
}

/// Two well-formed frames encoded back to back decode in order: the first
/// from the whole buffer, the second from what is left once the first is
/// dropped.
pub proof fn pipelining(f1: Frame, f2: Frame)
    requires
        well_formed(f1),
        well_formed(f2),
    ensures
        parse_frame(encode_frame(f1) + encode_frame(f2), 0) == Ok::<(Frame, int), ParseError>(
            (f1, encode_frame(f1).len() as int),
        ),
        parse_frame(
            (encode_frame(f1) + encode_frame(f2)).skip(encode_frame(f1).len() as int),
            0,
        ) == Ok::<(Frame, int), ParseError>((f2, encode_frame(f2).len() as int)),
{
    let e1 = encode_frame(f1);
    let e2 = encode_frame(f2);
    let b = e1 + e2;
    assert(occurs_at(b, 0, e1 + e2));
    lemma_occurs_split(b, 0, e1, e2);
    lemma_frame_round_trip(f1, b, 0);
    assert(b.skip(e1.len() as int) =~= e2);
    round_trip(f2);
}

} // verus!
