//! The incremental decoder: it reads one frame from the front of a buffer.
use vstd::prelude::*;
use vstd::utf8::*;
use vstd::slice::slice_subrange;
use crate::decimal::{count_value, parse_count};
use crate::text::{decimal_chars, decimal_text, has_no_line_break, single_line, single_line_text, utf8_text};
use vstd::string::StringExecFns;
use crate::value::{lemma_views_of, views_of, Frame, Value, CR, LF};

verus! {

/// Why a buffer does not start with a frame.
#[derive(Debug, Clone, Copy, PartialEq, Eq, Structural)]
pub enum ParseError {
    /// The frame starts with a byte that is no type tag.
    UnexpectedByte(u8),
    /// A line terminator was due and another byte stood there.
    ExpectedByte { actual: u8, expected: u8 },
    /// The buffer ends before the frame does; more bytes may complete it.
    UnexpectedEOF,
    /// A text payload is not valid UTF-8.
    InvalidUtf8,
    /// A length or count line is not a decimal number that fits in a `usize`.
    ParseIntError,
}

impl ParseError {
    /// True when more bytes may still complete the frame.
    pub fn is_incomplete(&self) -> (r: bool)
        ensures
            r == (*self == ParseError::UnexpectedEOF),
    {
        match self {
            ParseError::UnexpectedEOF => true,
            _ => false,
        }
    }
}

/// The text that reports a decoding failure to the peer, on one line.
pub open spec fn parse_error_message(e: ParseError) -> Seq<char> {
    single_line(parse_error_text(e))
}

/// The report of a decoding failure, before line breaks in it are blanked out.
pub open spec fn parse_error_text(e: ParseError) -> Seq<char> {
    match e {
        ParseError::UnexpectedByte(b) => "Unexpected byte "@ + decimal_chars(b as nat),
        ParseError::ExpectedByte { actual, expected } => "Expected byte "@ + decimal_chars(
            expected as nat,
        ) + ", got "@ + decimal_chars(actual as nat),
        ParseError::UnexpectedEOF => "Unexpected EOF"@,
        ParseError::InvalidUtf8 => "Invalid UTF-8"@,
        ParseError::ParseIntError => "Error parsing integer"@,
    }
}

impl ParseError {
    /// The text that reports this failure to the peer.
    pub fn message(&self) -> (r: String)
        ensures
            r@ == parse_error_message(*self),
            has_no_line_break(r@),
    {
        let text = self.text();
        single_line_text(text.as_str())
    }

    fn text(&self) -> (r: String)
        ensures
            r@ == parse_error_text(*self),
    {
        match self {
            ParseError::UnexpectedByte(b) => {
                let mut m = "Unexpected byte ".to_owned();
                m.append(decimal_text(*b as usize).as_str());
                m
            },
            ParseError::ExpectedByte { actual, expected } => {
                let mut m = "Expected byte ".to_owned();
                m.append(decimal_text(*expected as usize).as_str());
                m.append(", got ");
                m.append(decimal_text(*actual as usize).as_str());
                m
            },
            ParseError::UnexpectedEOF => "Unexpected EOF".to_owned(),
            ParseError::InvalidUtf8 => "Invalid UTF-8".to_owned(),
            ParseError::ParseIntError => "Error parsing integer".to_owned(),
        }
    }
}

/// The bytes of `b` from `p` on, counted as a natural number.
pub open spec fn rest(b: Seq<u8>, p: int) -> nat {
    if p <= b.len() {
        (b.len() - p) as nat
    } else {
        0
    }
}

/// True when a line terminator starts at `i`.
pub open spec fn crlf_at(b: Seq<u8>, i: int) -> bool {
    0 <= i && i + 1 < b.len() && b[i] == CR && b[i + 1] == LF
}

/// The length of the line that starts at `p`: the distance to the first line
/// terminator at or after `p`, if the buffer holds one.
pub open spec fn line_len(b: Seq<u8>, p: int) -> Option<nat>
    decreases rest(b, p),
{
    if p < 0 || p + 1 >= b.len() {
        None
    } else if crlf_at(b, p) {
        Some(0)
    } else {
        match line_len(b, p + 1) {
            Some(k) => Some(k + 1),
            None => None,
        }
    }
}

/// The text line at `p`, and its length.
pub open spec fn text_line(b: Seq<u8>, p: int) -> Result<(Seq<char>, nat), ParseError> {
    match line_len(b, p) {
        None => Err(ParseError::UnexpectedEOF),
        Some(k) => {
            let bytes = b.subrange(p, p + k);
            if valid_utf8(bytes) {
                Ok((decode_utf8(bytes), k))
            } else {
                Err(ParseError::InvalidUtf8)
            }
        },
    }
}

/// The count on the line at `p`, and the line's length.
pub open spec fn count_line(b: Seq<u8>, p: int) -> Result<(nat, nat), ParseError> {
    match line_len(b, p) {
        None => Err(ParseError::UnexpectedEOF),
        Some(k) => match count_value(b.subrange(p, p + k)) {
            Some(n) => Ok((n, k)),
            None => Err(ParseError::ParseIntError),
        },
    }
}

/// A line terminator due at `i`: the position after it.
pub open spec fn crlf_after(b: Seq<u8>, i: int) -> Result<int, ParseError> {
    if i >= b.len() {
        Err(ParseError::UnexpectedEOF)
    } else if b[i] != CR {
        Err(ParseError::ExpectedByte { actual: b[i], expected: CR })
    } else if i + 1 >= b.len() {
        Err(ParseError::UnexpectedEOF)
    } else if b[i + 1] != LF {
        Err(ParseError::ExpectedByte { actual: b[i + 1], expected: LF })
    } else {
        Ok(i + 2)
    }
}

/// A bulk string, or the null value, whose length line starts at `p`.
pub open spec fn bulk_at(b: Seq<u8>, p: int) -> Result<(Frame, int), ParseError> {
    match line_len(b, p) {
        None => Err(ParseError::UnexpectedEOF),
        Some(k) => {
            let line = b.subrange(p, p + k);
            let q = p + k + 2;
            if line == seq![45u8, 49u8] {
                Ok((Frame::Null, q))
            } else {
                match count_value(line) {
                    None => Err(ParseError::ParseIntError),
                    Some(n) => if q + n > b.len() {
                        Err(ParseError::UnexpectedEOF)
                    } else {
                        let bytes = b.subrange(q, q + n);
                        if !valid_utf8(bytes) {
                            Err(ParseError::InvalidUtf8)
                        } else {
                            match crlf_after(b, q + n) {
                                Ok(r) => Ok((Frame::Bulk(decode_utf8(bytes)), r)),
                                Err(e) => Err(e),
                            }
                        }
                    },
                }
            }
        },
    }
}

/// The frame that starts at `p`, and the position just after it.
pub open spec fn parse_frame(b: Seq<u8>, p: int) -> Result<(Frame, int), ParseError>
    decreases rest(b, p), 0nat,
{
    if p < 0 || p >= b.len() {
        Err(ParseError::UnexpectedEOF)
    } else if b[p] == 43u8 {
        match text_line(b, p + 1) {
            Ok((s, k)) => Ok((Frame::Simple(s), p + 1 + k + 2)),
            Err(e) => Err(e),
        }
    } else if b[p] == 45u8 {
        match text_line(b, p + 1) {
            Ok((s, k)) => Ok((Frame::Error(s), p + 1 + k + 2)),
            Err(e) => Err(e),
        }
    } else if b[p] == 36u8 {
        bulk_at(b, p + 1)
    } else if b[p] == 42u8 {
        match count_line(b, p + 1) {
            Err(e) => Err(e),
            Ok((n, k)) => {
                let q = p + 1 + k + 2;
                if n > b.len() - q {
                    Err(ParseError::UnexpectedEOF)
                } else {
                    match parse_items(b, q, n) {
                        Ok((items, c)) => Ok((Frame::Array(items), q + c)),
                        Err(e) => Err(e),
                    }
                }
            },
        }
    } else {
        Err(ParseError::UnexpectedByte(b[p]))
    }
}

/// `n` frames back to back from `q`, and the number of bytes they take.
pub open spec fn parse_items(b: Seq<u8>, q: int, n: nat) -> Result<(Seq<Frame>, nat), ParseError>
    decreases rest(b, q), n,
{
    if n == 0 {
        Ok((Seq::empty(), 0))
    } else {
        match parse_items(b, q, (n - 1) as nat) {
            Err(e) => Err(e),
            Ok((items, c)) => match parse_frame(b, q + c) {
                Ok((f, r)) => Ok((items.push(f), (r - q) as nat)),
                Err(e) => Err(e),
            },
        }
    }
}

/// A frame that parses ends after its start and within the buffer; `n`
/// frames that parse are `n` frames, within the buffer.
pub proof fn lemma_parse_bounds(b: Seq<u8>, p: int)
    ensures
        parse_frame(b, p) matches Ok((f, r)) ==> p < r <= b.len(),
    decreases rest(b, p), 0nat,
{
    if 0 <= p < b.len() {
        if b[p] == 43u8 || b[p] == 45u8 || b[p] == 36u8 {
            lemma_line_len_bound(b, p + 1);
        } else if b[p] == 42u8 {
            lemma_line_len_bound(b, p + 1);
            if let Ok((n, k)) = count_line(b, p + 1) {
                let q = p + 1 + k + 2;
                if n <= b.len() - q {
                    lemma_items_bounds(b, q, n);
                }
            }
        }
    }
}

/// See `lemma_parse_bounds`.
pub proof fn lemma_items_bounds(b: Seq<u8>, q: int, n: nat)
    requires
        0 <= q <= b.len(),
    ensures
        parse_items(b, q, n) matches Ok((items, c)) ==> items.len() == n && q + c <= b.len(),
    decreases rest(b, q), n,
{
    if n > 0 {
        lemma_items_bounds(b, q, (n - 1) as nat);
        if let Ok((items, c)) = parse_items(b, q, (n - 1) as nat) {
            lemma_parse_bounds(b, q + c);
        }
    }
}

/// A line found at `p` ends with a terminator inside the buffer.
pub proof fn lemma_line_len_bound(b: Seq<u8>, p: int)
    ensures
        line_len(b, p) matches Some(k) ==> 0 <= p && p + k + 2 <= b.len() && crlf_at(b, p + k),
    decreases rest(b, p),
{
    if 0 <= p && p + 1 < b.len() && !crlf_at(b, p) {
        lemma_line_len_bound(b, p + 1);
    }
}

/// Once `i` frames fail to parse, so do any more.
proof fn lemma_items_fail(b: Seq<u8>, q: int, i: nat, n: nat)
    requires
        i <= n,
        parse_items(b, q, i) is Err,
    ensures
        parse_items(b, q, n) == parse_items(b, q, i),
    decreases n,
{
    if i < n {
        lemma_items_fail(b, q, i, (n - 1) as nat);
    }
}

/// A decoder positioned in a borrowed buffer.
pub struct Parser<'a> {
    input: &'a [u8],
    pos: usize,
}

impl<'a> Parser<'a> {
    /// The buffer being read.
    pub closed spec fn bytes(&self) -> Seq<u8> {
        self.input@
    }

    /// The position of the next byte to read.
    pub closed spec fn position(&self) -> int {
        self.pos as int
    }

    /// A parser at the start of `input`.
    pub fn new(input: &'a [u8]) -> (r: Self)
        ensures
            r.bytes() == input@,
            r.position() == 0,
    {
        Parser { input, pos: 0 }
    }

    fn consume(&mut self) -> (r: Result<u8, ParseError>)
        requires
            old(self).pos <= old(self).input@.len(),
        ensures
            final(self).input@ == old(self).input@,
            old(self).pos < old(self).input@.len() ==> r == Ok::<u8, ParseError>(
                old(self).input@[old(self).pos as int],
            ) && final(self).pos == old(self).pos + 1,
            old(self).pos >= old(self).input@.len() ==> r == Err::<u8, ParseError>(
                ParseError::UnexpectedEOF,
            ) && final(self).pos == old(self).pos,
    {
        if self.pos < self.input.len() {
            let current = self.input[self.pos];
            self.pos = self.pos + 1;
            Ok(current)
        } else {
            Err(ParseError::UnexpectedEOF)
        }
    }

    fn expect_byte(&mut self, expected: u8) -> (r: Result<(), ParseError>)
        requires
            old(self).pos <= old(self).input@.len(),
        ensures
            final(self).input@ == old(self).input@,
            final(self).pos <= final(self).input@.len(),
            old(self).pos >= old(self).input@.len() ==> r == Err::<(), ParseError>(
                ParseError::UnexpectedEOF,
            ),
            old(self).pos < old(self).input@.len() && old(self).input@[old(self).pos as int]
                != expected ==> r == Err::<(), ParseError>(
                ParseError::ExpectedByte {
                    actual: old(self).input@[old(self).pos as int],
                    expected,
                },
            ),
            old(self).pos < old(self).input@.len() && old(self).input@[old(self).pos as int]
                == expected ==> r is Ok && final(self).pos == old(self).pos + 1,
    {
        let actual = self.consume()?;
        if actual != expected {
            return Err(ParseError::ExpectedByte { actual, expected });
        }
        Ok(())
    }

    fn expect_crlf(&mut self) -> (r: Result<(), ParseError>)
        requires
            old(self).pos <= old(self).input@.len(),
        ensures
            final(self).input@ == old(self).input@,
            final(self).pos <= final(self).input@.len(),
            match crlf_after(old(self).input@, old(self).pos as int) {
                Ok(q) => r is Ok && final(self).pos == q,
                Err(e) => r == Err::<(), ParseError>(e),
            },
    {
        self.expect_byte(CR)?;
        self.expect_byte(LF)
    }

    fn read_line(&mut self) -> (r: Result<&'a [u8], ParseError>)
        requires
            old(self).pos <= old(self).input@.len(),
        ensures
            final(self).input@ == old(self).input@,
            final(self).pos <= final(self).input@.len(),
            match line_len(old(self).input@, old(self).pos as int) {
                None => r == Err::<&'a [u8], ParseError>(ParseError::UnexpectedEOF) && final(self).pos
                    == old(self).pos,
                Some(k) => r matches Ok(line) && line@ == old(self).input@.subrange(
                    old(self).pos as int,
                    old(self).pos + k,
                ) && final(self).pos == old(self).pos + k + 2,
            },
    {
        let ghost b = self.input@;
        let start = self.pos;
        let len = self.input.len();
        let mut i: usize = start;
        if len == 0 {
            return Err(ParseError::UnexpectedEOF);
        }
        while i < len - 1
            invariant
                start <= i <= len,
                len == b.len(),
                self.input@ == b,
                b == old(self).input@,
                start == old(self).pos,
                self.pos == start,
                len > 0,
                line_len(b, start as int) == match line_len(b, i as int) {
                    Some(k) => Some((k + (i - start)) as nat),
                    None => None,
                },
            decreases len - i,
        {
            if self.input[i] == CR && self.input[i + 1] == LF {
                let line = slice_subrange(self.input, start, i);
                self.pos = i + 2;
                return Ok(line);
            }
            i = i + 1;
        }
        Err(ParseError::UnexpectedEOF)
    }

    fn read_bytes(&mut self, n: usize) -> (r: Result<&'a [u8], ParseError>)
        requires
            old(self).pos <= old(self).input@.len(),
        ensures
            final(self).input@ == old(self).input@,
            final(self).pos <= final(self).input@.len(),
            old(self).pos + n > old(self).input@.len() ==> r == Err::<&'a [u8], ParseError>(
                ParseError::UnexpectedEOF,
            ) && final(self).pos == old(self).pos,
            old(self).pos + n <= old(self).input@.len() ==> (r matches Ok(bytes) && bytes@
                == old(self).input@.subrange(old(self).pos as int, old(self).pos + n)
                && final(self).pos == old(self).pos + n),
    {
        if n > self.input.len() - self.pos {
            return Err(ParseError::UnexpectedEOF);
        }
        let bytes = slice_subrange(self.input, self.pos, self.pos + n);
        self.pos = self.pos + n;
        Ok(bytes)
    }

    fn read_usize(&mut self) -> (r: Result<usize, ParseError>)
        requires
            old(self).pos <= old(self).input@.len(),
        ensures
            final(self).input@ == old(self).input@,
            final(self).pos <= final(self).input@.len(),
            match count_line(old(self).input@, old(self).pos as int) {
                Ok((n, k)) => r == Ok::<usize, ParseError>(n as usize) && final(self).pos
                    == old(self).pos + k + 2,
                Err(e) => r == Err::<usize, ParseError>(e),
            },
    {
        let line = self.read_line()?;
        match parse_count(line) {
            Some(n) => Ok(n),
            None => Err(ParseError::ParseIntError),
        }
    }

    fn parse_simple_string(&mut self) -> (r: Result<Value, ParseError>)
        requires
            old(self).pos <= old(self).input@.len(),
        ensures
            final(self).input@ == old(self).input@,
            final(self).pos <= final(self).input@.len(),
            match text_line(old(self).input@, old(self).pos as int) {
                Ok((s, k)) => r matches Ok(v) && v@ == Frame::Simple(s) && final(self).pos
                    == old(self).pos + k + 2,
                Err(e) => r == Err::<Value, ParseError>(e),
            },
    {
        let line = self.read_line()?;
        match utf8_text(line) {
            Some(s) => Ok(Value::SimpleString(s)),
            None => Err(ParseError::InvalidUtf8),
        }
    }

    fn parse_error(&mut self) -> (r: Result<Value, ParseError>)
        requires
            old(self).pos <= old(self).input@.len(),
        ensures
            final(self).input@ == old(self).input@,
            final(self).pos <= final(self).input@.len(),
            match text_line(old(self).input@, old(self).pos as int) {
                Ok((s, k)) => r matches Ok(v) && v@ == Frame::Error(s) && final(self).pos
                    == old(self).pos + k + 2,
                Err(e) => r == Err::<Value, ParseError>(e),
            },
    {
        let line = self.read_line()?;
        match utf8_text(line) {
            Some(s) => Ok(Value::SimpleError(s)),
            None => Err(ParseError::InvalidUtf8),
        }
    }

    fn parse_bulk_string(&mut self) -> (r: Result<Value, ParseError>)
        requires
            old(self).pos <= old(self).input@.len(),
        ensures
            final(self).input@ == old(self).input@,
            final(self).pos <= final(self).input@.len(),
            match bulk_at(old(self).input@, old(self).pos as int) {
                Ok((f, q)) => r matches Ok(v) && v@ == f && final(self).pos == q,
                Err(e) => r == Err::<Value, ParseError>(e),
            },
    {
        proof {
            lemma_line_len_bound(self.input@, self.pos as int);
        }
        let line = self.read_line()?;
        if line.len() == 2 && line[0] == 45u8 && line[1] == 49u8 {
            assert(line@ =~= seq![45u8, 49u8]);
            return Ok(Value::Null);
        }
        assert(line@ != seq![45u8, 49u8]);
        let n = match parse_count(line) {
            Some(n) => n,
            None => {
                return Err(ParseError::ParseIntError);
            },
        };
        let bytes = self.read_bytes(n)?;
        let s = match utf8_text(bytes) {
            Some(s) => s,
            None => {
                return Err(ParseError::InvalidUtf8);
            },
        };
        self.expect_crlf()?;
        Ok(Value::BulkString(s))
    }

    fn parse_array(&mut self) -> (r: Result<Value, ParseError>)
        requires
            old(self).pos <= old(self).input@.len(),
        ensures
            final(self).input@ == old(self).input@,
            final(self).pos <= final(self).input@.len(),
            match count_line(old(self).input@, old(self).pos as int) {
                Err(e) => r == Err::<Value, ParseError>(e),
                Ok((n, k)) => {
                    let q = old(self).pos + k + 2;
                    if n > old(self).input@.len() - q {
                        r == Err::<Value, ParseError>(ParseError::UnexpectedEOF)
                    } else {
                        match parse_items(old(self).input@, q, n) {
                            Ok((items, c)) => r matches Ok(v) && v@ == Frame::Array(items)
                                && final(self).pos == q + c,
                            Err(e) => r == Err::<Value, ParseError>(e),
                        }
                    }
                },
            },
        decreases old(self).bytes().len() - old(self).position(), 0nat,
    {
        let ghost b = self.input@;
        let ghost entry = self.pos;
        proof {
            lemma_line_len_bound(b, self.pos as int);
        }
        let n = self.read_usize()?;
        let remaining = self.input.len() - self.pos;
        if n > remaining {
            return Err(ParseError::UnexpectedEOF);
        }
        let q = self.pos;
        let mut values: Vec<Value> = Vec::with_capacity(n);
        let mut i: usize = 0;
        while i < n
            invariant
                self.input@ == b,
                entry < q <= self.pos <= b.len(),
                entry == old(self).pos,
                b == old(self).input@,
                count_line(b, entry as int) == Ok::<(nat, nat), ParseError>(
                    (n as nat, (q - entry - 2) as nat),
                ),
                q >= entry + 2,
                n <= b.len() - q,
                i <= n,
                values@.len() == i,
                parse_items(b, q as int, i as nat) == Ok::<(Seq<Frame>, nat), ParseError>(
                    (views_of(values@, i as int), (self.pos - q) as nat),
                ),
            decreases n - i,
        {
            proof {
                lemma_parse_bounds(b, self.pos as int);
            }
            let ghost before = values@;
            let value = match self.parse() {
                Ok(v) => v,
                Err(e) => {
                    proof {
                        lemma_items_fail(b, q as int, (i + 1) as nat, n as nat);
                    }
                    return Err(e);
                },
            };
            values.push(value);
            proof {
                lemma_views_of(before, i as int);
                lemma_views_of(values@, i + 1);
                assert(views_of(values@, i + 1) =~= views_of(before, i as int).push(value@));
            }
            i = i + 1;
        }
        proof {
            lemma_views_of(values@, n as int);
        }
        Ok(Value::Array(values))
    }

    /// Reads the frame at the current position and moves past it.
    pub fn parse(&mut self) -> (r: Result<Value, ParseError>)
        requires
            old(self).position() <= old(self).bytes().len(),
        ensures
            final(self).bytes() == old(self).bytes(),
            final(self).position() <= final(self).bytes().len(),
            match parse_frame(old(self).bytes(), old(self).position()) {
                Ok((f, q)) => r matches Ok(v) && v@ == f && final(self).position() == q,
                Err(e) => r == Err::<Value, ParseError>(e),
            },
        decreases old(self).bytes().len() - old(self).position(), 1nat,
    {
        proof {
            lemma_parse_bounds(self.input@, self.pos as int);
        }
        match self.consume()? {
            43u8 => self.parse_simple_string(),
            36u8 => self.parse_bulk_string(),
            42u8 => self.parse_array(),
            45u8 => self.parse_error(),
            byte => Err(ParseError::UnexpectedByte(byte)),
        }
    }

    /// How many bytes the frames read so far took.
    pub fn bytes_consumed(&self) -> (r: usize)
        ensures
            r == self.position(),
    {
        self.pos
    }
}

/// Decodes the frame at the start of `input`, with the number of bytes it took.
pub fn parse_resp(input: &[u8]) -> (r: Result<(Value, usize), ParseError>)
    ensures
        match parse_frame(input@, 0) {
            Ok((f, q)) => r matches Ok((v, n)) && v@ == f && n == q,
            Err(e) => r == Err::<(Value, usize), ParseError>(e),
        },
{
    let mut parser = Parser::new(input);
    let parsed = parser.parse()?;
    Ok((parsed, parser.bytes_consumed()))
}

} // verus!
