//! Protocol values and their canonical wire encoding.
use vstd::prelude::*;
use vstd::utf8::*;
use crate::decimal::{decimal, push_decimal};

verus! {

/// Carriage return.
pub const CR: u8 = 13;
/// Line feed.
pub const LF: u8 = 10;

/// A protocol value.
#[derive(Debug, PartialEq, Eq)]
pub enum Value {
    SimpleString(String),
    BulkString(String),
    SimpleError(String),
    Array(Vec<Value>),
    Null,
}

/// The mathematical model of a protocol value.
pub enum Frame {
    Simple(Seq<char>),
    Bulk(Seq<char>),
    Error(Seq<char>),
    Array(Seq<Frame>),
    Null,
}

impl View for Value {
    type V = Frame;

    open spec fn view(&self) -> Frame
        decreases self,
    {
        match self {
            Value::SimpleString(s) => Frame::Simple(s@),
            Value::BulkString(s) => Frame::Bulk(s@),
            Value::SimpleError(s) => Frame::Error(s@),
            Value::Array(items) => Frame::Array(views_of(items@, items@.len() as int)),
            Value::Null => Frame::Null,
        }
    }
}

/// The models of the first `n` values of `items`.
pub open spec fn views_of(items: Seq<Value>, n: int) -> Seq<Frame>
    decreases items, n,
{
    if n <= 0 || n > items.len() {
        Seq::empty()
    } else {
        views_of(items, n - 1).push(items[n - 1]@)
    }
}

/// `views_of` keeps the length and the order of the values it models.
pub proof fn lemma_views_of(items: Seq<Value>, n: int)
    requires
        0 <= n <= items.len(),
    ensures
        views_of(items, n).len() == n,
        forall|i: int| 0 <= i < n ==> #[trigger] views_of(items, n)[i] == items[i]@,
    decreases n,
{
    if n > 0 {
        lemma_views_of(items, n - 1);
        assert(views_of(items, n) == views_of(items, n - 1).push(items[n - 1]@));
    } else {
        assert(views_of(items, n) == Seq::<Frame>::empty());
    }
}

/// The line terminator.
pub open spec fn crlf() -> Seq<u8> {
    seq![CR, LF]
}

/// True when `s` holds a carriage return immediately followed by a line feed.
pub open spec fn has_crlf(s: Seq<u8>) -> bool {
    exists|i: int| 0 <= i && i + 1 < s.len() && #[trigger] s[i] == CR && s[i + 1] == LF
}

/// The canonical wire encoding of a frame.
pub open spec fn encode_frame(f: Frame) -> Seq<u8>
    decreases f,
{
    match f {
        Frame::Simple(s) => seq![43u8] + encode_utf8(s) + crlf(),
        Frame::Bulk(s) => seq![36u8] + decimal(encode_utf8(s).len()) + crlf() + encode_utf8(s)
            + crlf(),
        Frame::Error(s) => seq![45u8] + encode_utf8(s) + crlf(),
        Frame::Array(items) => seq![42u8] + decimal(items.len()) + crlf() + encode_items(items),
        Frame::Null => seq![36u8, 45u8, 49u8, CR, LF],
    }
}

/// The encodings of `items`, back to back.
pub open spec fn encode_items(items: Seq<Frame>) -> Seq<u8>
    decreases items,
{
    if items.len() == 0 {
        Seq::empty()
    } else {
        encode_items(items.drop_last()) + encode_frame(items.last())
    }
}

/// A frame that the decoder reads back exactly: line payloads hold no line
/// terminator, and every length fits in a `usize`.
pub open spec fn well_formed(f: Frame) -> bool
    decreases f,
{
    match f {
        Frame::Simple(s) => !has_crlf(encode_utf8(s)),
        Frame::Error(s) => !has_crlf(encode_utf8(s)),
        Frame::Bulk(s) => encode_utf8(s).len() <= usize::MAX,
        Frame::Array(items) => items.len() <= usize::MAX && items_well_formed(items),
        Frame::Null => true,
    }
}

/// Every frame of `items` is well formed.
pub open spec fn items_well_formed(items: Seq<Frame>) -> bool
    decreases items,
{
    if items.len() == 0 {
        true
    } else {
        items_well_formed(items.drop_last()) && well_formed(items.last())
    }
}

/// Appends the bytes of `s` to `out`.
fn push_text(out: &mut Vec<u8>, s: &String)
    ensures
        final(out)@ == old(out)@ + encode_utf8(s@),
{
    let bytes = s.as_str().as_bytes();
    out.extend_from_slice(bytes);
}

fn push_crlf(out: &mut Vec<u8>)
    ensures
        final(out)@ == old(out)@ + crlf(),
{
    out.push(CR);
    out.push(LF);
    assert(final(out)@ =~= old(out)@ + crlf());
}

impl Value {
    /// Appends the canonical encoding of this value to `out`.
    pub fn encode_into(&self, out: &mut Vec<u8>)
        ensures
            final(out)@ == old(out)@ + encode_frame(self@),
        decreases self,
    {
        let ghost start = out@;
        match self {
            Value::SimpleString(s) => {
                out.push(43u8);
                push_text(out, s);
                push_crlf(out);
                assert(out@ =~= start + encode_frame(self@));
            },
            Value::BulkString(s) => {
                out.push(36u8);
                let bytes = s.as_str().as_bytes();
                push_decimal(out, bytes.len());
                push_crlf(out);
                push_text(out, s);
                push_crlf(out);
                assert(out@ =~= start + encode_frame(self@));
            },
            Value::SimpleError(s) => {
                out.push(45u8);
                push_text(out, s);
                push_crlf(out);
                assert(out@ =~= start + encode_frame(self@));
            },
            Value::Array(items) => {
                out.push(42u8);
                push_decimal(out, items.len());
                push_crlf(out);
                let ghost header = out@;
                assert(header =~= start + seq![42u8] + decimal(items@.len()) + crlf());
                let mut i: usize = 0;
                while i < items.len()
                    invariant
                        i <= items@.len(),
                        *self == Value::Array(*items),
                        header == start + seq![42u8] + decimal(items@.len()) + crlf(),
                        out@ == header + encode_items(views_of(items@, i as int)),
                    decreases items@.len() - i,
                {
                    proof {
                        vstd::std_specs::vec::axiom_vec_index_decreases(*items, i as int);
                        assert(decreases_to!(*self => (*self)->Array_0));
                        assert(decreases_to!(*self => items[i as int]));
                    }
                    items[i].encode_into(out);
                    assert(views_of(items@, i + 1).drop_last() =~= views_of(items@, i as int));
                    i = i + 1;
                    assert(out@ =~= header + encode_items(views_of(items@, i as int)));
                }
                assert(self@ == Frame::Array(views_of(items@, items@.len() as int)));
                proof {
                    lemma_views_of(items@, items@.len() as int);
                }
                assert(out@ =~= start + encode_frame(self@));
            },
            Value::Null => {
                out.push(36u8);
                out.push(45u8);
                out.push(49u8);
                push_crlf(out);
                assert(out@ =~= start + encode_frame(self@));
            },
        }
    }

    /// The canonical wire encoding of this value.
    pub fn encode(&self) -> (r: Vec<u8>)
        ensures
            r@ == encode_frame(self@),
    {
        let mut out: Vec<u8> = Vec::new();
        self.encode_into(&mut out);
        assert(out@ =~= encode_frame(self@));
        out
    }
}

} // verus!
