//! Requests: how a decoded frame becomes a command, and what a command does
//! to the keyspace.
use vstd::prelude::*;
use vstd::utf8::*;
use vstd::string::StringExecFns;
use crate::decimal::{number_value, parse_number};
use crate::store::{expiry_of, is_live, visible, Lookup, Store, Stored, Ttl};
use crate::text::{has_no_line_break, same_text, single_line, single_line_text, upper_of, uppercase, utf8_text};
use crate::value::{lemma_views_of, views_of, Frame, Value};

verus! {

broadcast use {encode_utf8_valid_utf8, encode_utf8_decode_utf8};

/// A request to the server.
#[derive(Debug, PartialEq, Eq)]
pub enum Command {
    Ping(Option<String>),
    Echo(String),
    Get(String),
    SetKey { key: String, value: String, expiry: Option<Ttl> },
}

/// The model of a command.
pub enum Request {
    Ping(Option<Seq<char>>),
    Echo(Seq<char>),
    Get(Seq<char>),
    SetKey { key: Seq<char>, value: Seq<char>, expiry: Option<Ttl> },
}

impl View for Command {
    type V = Request;

    open spec fn view(&self) -> Request {
        match self {
            Command::Ping(m) => Request::Ping(
                match m {
                    Some(s) => Some(s@),
                    None => None,
                },
            ),
            Command::Echo(s) => Request::Echo(s@),
            Command::Get(k) => Request::Get(k@),
            Command::SetKey { key, value, expiry } => Request::SetKey {
                key: key@,
                value: value@,
                expiry: *expiry,
            },
        }
    }
}

/// Why a frame holds no command word.
#[derive(Debug, PartialEq, Eq)]
pub enum RawCommandError {
    ExpectedString(Value),
    EmptyCommandArray,
    CannotCreateCommand(Value),
}

/// Why command words make no valid command.
#[derive(Debug, PartialEq, Eq)]
pub enum CommandValidationError {
    UnknownCommand(String),
    EchoRequiresMessage,
    GetRequiresKey,
    SetRequiresKeyValue,
    UnknownSetFlag(String),
    MissingFlagValue(String),
    InvalidFlagValue(String),
    UnexpectedTrailingArguments,
}

/// Why a frame is no valid command.
#[derive(Debug, PartialEq, Eq)]
pub enum InterpretError {
    RawCommandError(RawCommandError),
    CommandValidationError(CommandValidationError),
}

/// The model of a refusal.
pub enum Rejection {
    ExpectedString(Frame),
    EmptyCommandArray,
    CannotCreateCommand(Frame),
    UnknownCommand(Seq<char>),
    EchoRequiresMessage,
    GetRequiresKey,
    SetRequiresKeyValue,
    UnknownSetFlag(Seq<char>),
    MissingFlagValue(Seq<char>),
    InvalidFlagValue(Seq<char>),
    UnexpectedTrailingArguments,
}

impl View for RawCommandError {
    type V = Rejection;

    open spec fn view(&self) -> Rejection {
        match self {
            RawCommandError::ExpectedString(v) => Rejection::ExpectedString(v@),
            RawCommandError::EmptyCommandArray => Rejection::EmptyCommandArray,
            RawCommandError::CannotCreateCommand(v) => Rejection::CannotCreateCommand(v@),
        }
    }
}

impl View for CommandValidationError {
    type V = Rejection;

    open spec fn view(&self) -> Rejection {
        match self {
            CommandValidationError::UnknownCommand(s) => Rejection::UnknownCommand(s@),
            CommandValidationError::EchoRequiresMessage => Rejection::EchoRequiresMessage,
            CommandValidationError::GetRequiresKey => Rejection::GetRequiresKey,
            CommandValidationError::SetRequiresKeyValue => Rejection::SetRequiresKeyValue,
            CommandValidationError::UnknownSetFlag(s) => Rejection::UnknownSetFlag(s@),
            CommandValidationError::MissingFlagValue(s) => Rejection::MissingFlagValue(s@),
            CommandValidationError::InvalidFlagValue(s) => Rejection::InvalidFlagValue(s@),
            CommandValidationError::UnexpectedTrailingArguments => Rejection::UnexpectedTrailingArguments,
        }
    }
}

impl View for InterpretError {
    type V = Rejection;

    open spec fn view(&self) -> Rejection {
        match self {
            InterpretError::RawCommandError(e) => e@,
            InterpretError::CommandValidationError(e) => e@,
        }
    }
}

/// True when a frame carries text.
pub open spec fn is_text(f: Frame) -> bool {
    f is Simple || f is Bulk
}

/// The text of a simple or bulk string.
pub open spec fn text_of(f: Frame) -> Seq<char> {
    match f {
        Frame::Simple(s) => s,
        Frame::Bulk(s) => s,
        _ => Seq::empty(),
    }
}

/// The texts of `items`, or the first of them that is no text.
pub open spec fn texts_of(items: Seq<Frame>) -> Result<Seq<Seq<char>>, Rejection>
    decreases items.len(),
{
    if items.len() == 0 {
        Ok(Seq::empty())
    } else {
        match texts_of(items.drop_last()) {
            Err(e) => Err(e),
            Ok(ws) => if is_text(items.last()) {
                Ok(ws.push(text_of(items.last())))
            } else {
                Err(Rejection::ExpectedString(items.last()))
            },
        }
    }
}

/// True when the byte is ASCII whitespace: space, tab, line feed, form feed
/// or carriage return.
pub open spec fn is_blank(x: u8) -> bool {
    x == 32u8 || x == 9u8 || x == 10u8 || x == 12u8 || x == 13u8
}

/// The non-empty runs of non-blank bytes of `b`, scanning from `p` with the
/// current run starting at `start`.
pub open spec fn pieces_from(b: Seq<u8>, start: int, p: int) -> Seq<Seq<u8>>
    decreases b.len() - p,
{
    if p >= b.len() {
        if start < b.len() {
            seq![b.subrange(start, b.len() as int)]
        } else {
            Seq::empty()
        }
    } else if is_blank(b[p]) {
        (if start < p {
            seq![b.subrange(start, p)]
        } else {
            Seq::empty()
        }) + pieces_from(b, p + 1, p + 1)
    } else {
        pieces_from(b, start, p + 1)
    }
}

/// The whitespace-separated tokens of `b`.
pub open spec fn pieces(b: Seq<u8>) -> Seq<Seq<u8>> {
    pieces_from(b, 0, 0)
}

/// The words of an inline command: the whitespace-separated tokens of its
/// text, the first naming the command.
pub open spec fn inline_words(s: Seq<char>) -> Result<(Seq<char>, Seq<Seq<char>>), Rejection> {
    let ps = pieces(encode_utf8(s));
    if ps.len() == 0 {
        Err(Rejection::EmptyCommandArray)
    } else {
        Ok((upper_of(decode_utf8(ps[0])), ps.drop_first().map_values(|p: Seq<u8>| decode_utf8(p))))
    }
}

/// The command name, in upper case, and the arguments that a frame carries.
pub open spec fn words_of(f: Frame) -> Result<(Seq<char>, Seq<Seq<char>>), Rejection> {
    match f {
        Frame::Array(items) => if items.len() == 0 {
            Err(Rejection::EmptyCommandArray)
        } else {
            match texts_of(items) {
                Err(e) => Err(e),
                Ok(ws) => Ok((upper_of(ws[0]), ws.drop_first())),
            }
        },
        Frame::Simple(s) => inline_words(s),
        Frame::Bulk(s) => inline_words(s),
        _ => Err(Rejection::CannotCreateCommand(f)),
    }
}

/// True when `b` spells a two-letter flag whose first letter is the upper
/// case ASCII letter `c` and whose second is `X`, in either case.
pub open spec fn is_flag(b: Seq<u8>, c: u8) -> bool {
    b.len() == 2 && (b[0] == c || b[0] == c + 32) && (b[1] == 88u8 || b[1] == 120u8)
}

/// The command that SET words make.
pub open spec fn set_of(args: Seq<Seq<char>>) -> Result<Request, Rejection> {
    if args.len() < 2 {
        Err(Rejection::SetRequiresKeyValue)
    } else if args.len() == 2 {
        Ok(Request::SetKey { key: args[0], value: args[1], expiry: None })
    } else {
        let flag = args[2];
        let seconds = is_flag(encode_utf8(flag), 69u8);
        if !seconds && !is_flag(encode_utf8(flag), 80u8) {
            Err(Rejection::UnknownSetFlag(flag))
        } else if args.len() == 3 {
            Err(Rejection::MissingFlagValue(flag))
        } else {
            match number_value(encode_utf8(args[3]), u64::MAX as nat) {
                None => Err(Rejection::InvalidFlagValue(flag)),
                Some(n) => {
                    let ttl = if seconds { Ttl::Seconds(n as u64) } else { Ttl::Millis(n as u64) };
                    if args.len() > 4 {
                        Err(Rejection::UnexpectedTrailingArguments)
                    } else {
                        Ok(Request::SetKey { key: args[0], value: args[1], expiry: Some(ttl) })
                    }
                },
            }
        }
    }
}

/// The command that a name, already in upper case, and arguments make.
pub open spec fn command_of(name: Seq<char>, args: Seq<Seq<char>>) -> Result<Request, Rejection> {
    if name == "PING"@ {
        Ok(Request::Ping(if args.len() > 0 { Some(args[0]) } else { None }))
    } else if name == "ECHO"@ {
        if args.len() > 0 {
            Ok(Request::Echo(args[0]))
        } else {
            Err(Rejection::EchoRequiresMessage)
        }
    } else if name == "GET"@ {
        if args.len() > 0 {
            Ok(Request::Get(args[0]))
        } else {
            Err(Rejection::GetRequiresKey)
        }
    } else if name == "SET"@ {
        set_of(args)
    } else {
        Err(Rejection::UnknownCommand(name))
    }
}

/// The command that a frame makes.
pub open spec fn interpretation(f: Frame) -> Result<Request, Rejection> {
    match words_of(f) {
        Err(e) => Err(e),
        Ok((name, args)) => command_of(name, args),
    }
}

/// The model of an outcome.
pub open spec fn outcome_view<T: View, E: View>(r: Result<T, E>) -> Result<T::V, E::V> {
    match r {
        Ok(t) => Ok(t@),
        Err(e) => Err(e@),
    }
}

/// A command name and its arguments, as a frame carries them.
struct RawCommand {
    name: String,
    args: Vec<String>,
}

/// The texts of a sequence of strings.
pub open spec fn strings_view(v: Seq<String>) -> Seq<Seq<char>> {
    v.map_values(|s: String| s@)
}

/// In valid UTF-8 the byte after an ASCII byte starts a character.
proof fn lemma_after_ascii(b: Seq<u8>, q: int)
    requires
        valid_utf8(b),
        0 <= q,
        q + 1 < b.len(),
        b[q] <= 0x7f,
    ensures
        !is_continuation_byte(b[q + 1]),
{
    is_char_boundary_iff_not_is_continuation_byte(b, q);
    valid_utf8_split(b, q);
    let suffix = b.subrange(q, b.len() as int);
    assert(suffix[0] == b[q]);
    assert(is_char_boundary(b, q));
    assert(valid_utf8(suffix));
    assert(length_of_first_scalar(suffix) == 1);
    let rest = pop_first_scalar(suffix);
    assert(valid_utf8(rest));
    assert(rest =~= b.subrange(q + 1, b.len() as int));
    assert(rest.len() > 0);
    assert(valid_first_scalar(rest));
    assert(rest[0] == b[q + 1]);
}

/// The bytes between two spaces, or between a space and an end, of valid
/// UTF-8 are valid UTF-8.
proof fn lemma_piece_valid(b: Seq<u8>, start: int, p: int)
    requires
        valid_utf8(b),
        0 <= start <= p <= b.len(),
        p == b.len() || is_blank(b[p]),
        start == 0 || is_blank(b[start - 1]),
    ensures
        valid_utf8(b.subrange(start, p)),
{
    let c = b.subrange(0, p);
    if p < b.len() {
        is_char_boundary_iff_not_is_continuation_byte(b, p);
        valid_utf8_split(b, p);
    } else {
        assert(c =~= b);
    }
    if start == p {
        assert(b.subrange(start, p) =~= Seq::<u8>::empty());
    } else {
        if start > 0 {
            lemma_after_ascii(b, start - 1);
            assert(c[start] == b[start]);
            is_char_boundary_iff_not_is_continuation_byte(c, start);
        }
        valid_utf8_split(c, start);
        assert(c.subrange(start, c.len() as int) =~= b.subrange(start, p));
    }
}

/// Cuts `s` into its whitespace-separated tokens.
fn split_spaces(s: &str) -> (r: Vec<String>)
    ensures
        r@.len() == pieces(encode_utf8(s@)).len(),
        forall|i: int| 0 <= i < r@.len() ==> #[trigger] r@[i]@ == decode_utf8(pieces(encode_utf8(s@))[i]),
{
    let b = s.as_bytes();
    let ghost all = pieces(b@);
    let mut words: Vec<String> = Vec::new();
    let mut start: usize = 0;
    let mut p: usize = 0;
    while p < b.len()
        invariant
            b@ == encode_utf8(s@),
            valid_utf8(b@),
            all == pieces(b@),
            start <= p <= b@.len(),
            start == 0 || is_blank(b@[start - 1]),
            all == words@.map_values(|w: String| encode_utf8(w@)) + pieces_from(b@, start as int, p as int),
        decreases b@.len() - p,
    {
        let x = b[p];
        if x == 32u8 || x == 9u8 || x == 10u8 || x == 12u8 || x == 13u8 {
            assert(pieces_from(b@, start as int, p as int) == (if start < p {
                seq![b@.subrange(start as int, p as int)]
            } else {
                Seq::empty()
            }) + pieces_from(b@, p + 1, p + 1));
            if start < p {
                let piece = vstd::slice::slice_subrange(b, start, p);
                proof {
                    lemma_piece_valid(b@, start as int, p as int);
                }
                // The piece is valid UTF-8, so the text always comes back.
                if let Some(w) = utf8_text(piece) {
                    let ghost before = words@;
                    proof {
                        decode_utf8_encode_utf8(piece@);
                    }
                    words.push(w);
                    assert(words@.map_values(|w: String| encode_utf8(w@)) =~= before.map_values(|w: String| encode_utf8(w@)).push(piece@));
                    assert(before.map_values(|w: String| encode_utf8(w@)).push(piece@) + pieces_from(b@, p + 1, p + 1)
                        =~= before.map_values(|w: String| encode_utf8(w@)) + (seq![piece@] + pieces_from(b@, p + 1, p + 1)));
                }
            } else {
                assert(Seq::<Seq<u8>>::empty() + pieces_from(b@, p + 1, p + 1) =~= pieces_from(b@, p + 1, p + 1));
                assert(words@.map_values(|w: String| encode_utf8(w@)) + pieces_from(b@, p + 1, p + 1)
                    =~= words@.map_values(|w: String| encode_utf8(w@)) + (Seq::<Seq<u8>>::empty() + pieces_from(b@, p + 1, p + 1)));
            }
            start = p + 1;
        }
        p = p + 1;
    }
    if start < b.len() {
        let piece = vstd::slice::slice_subrange(b, start, b.len());
        assert(pieces_from(b@, start as int, p as int) == seq![piece@]);
        proof {
            lemma_piece_valid(b@, start as int, p as int);
        }
        // As above, the last piece is valid UTF-8 too.
        if let Some(w) = utf8_text(piece) {
            proof {
                decode_utf8_encode_utf8(piece@);
            }
            words.push(w);
        }
    } else {
        assert(pieces_from(b@, start as int, p as int) =~= Seq::<Seq<u8>>::empty());
    }
    assert(words@.map_values(|w: String| encode_utf8(w@)) =~= all);
    assert forall|i: int| 0 <= i < words@.len() implies #[trigger] words@[i]@ == decode_utf8(all[i]) by {
        assert(all[i] == encode_utf8(words@[i]@));
    }
    words
}

/// A text that fails keeps failing as more frames follow.
proof fn lemma_texts_fail(items: Seq<Frame>, j: int, m: int)
    requires
        0 <= j <= m <= items.len(),
        texts_of(items.take(j)) is Err,
    ensures
        texts_of(items.take(m)) == texts_of(items.take(j)),
    decreases m - j,
{
    if j < m {
        lemma_texts_fail(items, j, m - 1);
        assert(items.take(m).drop_last() =~= items.take(m - 1));
    }
}

impl RawCommand {
    /// The words of an inline command.
    fn from_text(s: &String) -> (r: Result<RawCommand, RawCommandError>)
        ensures
            match inline_words(s@) {
                Ok((name, args)) => r matches Ok(raw) && raw.name@ == name && strings_view(raw.args@) == args,
                Err(e) => r matches Err(x) && x@ == e,
            },
    {
        let words = split_spaces(s.as_str());
        if words.len() == 0 {
            return Err(RawCommandError::EmptyCommandArray);
        }
        let ghost ps = pieces(encode_utf8(s@));
        assert(strings_view(words@).drop_first() =~= ps.drop_first().map_values(|p: Seq<u8>| decode_utf8(p)));
        Ok(RawCommand::from_words(&words))
    }

    /// The first word, in upper case, names the command; the rest are its arguments.
    fn from_words(words: &Vec<String>) -> (r: RawCommand)
        requires
            words@.len() >= 1,
        ensures
            r.name@ == upper_of(words@[0]@),
            strings_view(r.args@) == strings_view(words@).drop_first(),
    {
        let name = uppercase(words[0].as_str());
        let mut args: Vec<String> = Vec::new();
        let mut k: usize = 1;
        while k < words.len()
            invariant
                1 <= k <= words@.len(),
                strings_view(args@) == strings_view(words@).subrange(1, k as int),
            decreases words@.len() - k,
        {
            let ghost before = args@;
            args.push(words[k].clone());
            assert(args@ == before.push(words@[k as int]));
            assert(strings_view(args@) =~= strings_view(before).push(words@[k as int]@));
            assert(strings_view(args@) =~= strings_view(words@).subrange(1, k + 1));
            k = k + 1;
        }
        assert(strings_view(words@).drop_first() =~= strings_view(words@).subrange(1, words@.len() as int));
        RawCommand { name, args }
    }

    /// The name and arguments that a frame carries.
    fn from_value(value: Value) -> (r: Result<RawCommand, RawCommandError>)
        ensures
            match words_of(value@) {
                Ok((name, args)) => r matches Ok(raw) && raw.name@ == name && strings_view(raw.args@) == args,
                Err(e) => r matches Err(x) && x@ == e,
            },
    {
        let ghost f = value@;
        match value {
            Value::Array(mut values) => {
                proof {
                    lemma_views_of(values@, values@.len() as int);
                }
                let ghost items = views_of(values@, values@.len() as int);
                if values.len() == 0 {
                    return Err(RawCommandError::EmptyCommandArray);
                }
                let mut words: Vec<String> = Vec::new();
                let mut i: usize = 0;
                assert(items.take(0) =~= Seq::<Frame>::empty());
                assert(strings_view(words@) =~= Seq::<Seq<char>>::empty());
                assert(f == Frame::Array(items));
                while i < values.len()
                    invariant
                        i <= values@.len(),
                        items == views_of(values@, values@.len() as int),
                        items.len() == values@.len(),
                        forall|j: int| 0 <= j < items.len() ==> #[trigger] items[j] == values@[j]@,
                        f == Frame::Array(items),
                        f == value@,
                        items.len() > 0,
                        texts_of(items.take(i as int)) == Ok::<Seq<Seq<char>>, Rejection>(strings_view(words@)),
                    decreases values@.len() - i,
                {
                    assert(items.take(i + 1).drop_last() =~= items.take(i as int));
                    let text: Option<String> = match &values[i] {
                        Value::SimpleString(s) => Some(s.clone()),
                        Value::BulkString(s) => Some(s.clone()),
                        _ => None,
                    };
                    assert(items.take(i + 1).last() == items[i as int]);
                    match text {
                        Some(s) => {
                            let ghost before = words@;
                            assert(is_text(items[i as int]) && text_of(items[i as int]) == s@);
                            words.push(s);
                            assert(strings_view(words@) =~= strings_view(before).push(s@));
                        },
                        None => {
                            assert(!is_text(items[i as int]));
                            let v = values.swap_remove(i);
                            assert(texts_of(items.take(i + 1)) == Err::<Seq<Seq<char>>, Rejection>(
                                Rejection::ExpectedString(items[i as int]),
                            ));
                            proof {
                                lemma_texts_fail(items, i as int + 1, items.len() as int);
                                assert(items.take(items.len() as int) =~= items);
                            }
                            assert(v@ == items[i as int]);
                            assert(texts_of(items) == Err::<Seq<Seq<char>>, Rejection>(
                                Rejection::ExpectedString(items[i as int]),
                            ));
                            return Err(RawCommandError::ExpectedString(v));
                        },
                    }
                    i = i + 1;
                }
                assert(items.take(items.len() as int) =~= items);
                Ok(RawCommand::from_words(&words))
            },
            Value::SimpleString(s) => RawCommand::from_text(&s),
            Value::BulkString(s) => RawCommand::from_text(&s),
            other => Err(RawCommandError::CannotCreateCommand(other)),
        }
    }
}

/// True when `s` spells a two-letter flag starting with the ASCII letter `c`
/// and ending in `X`, in either case.
fn flag_is(s: &String, c: u8) -> (r: bool)
    requires
        65 <= c <= 90,
    ensures
        r == is_flag(encode_utf8(s@), c),
{
    let b = s.as_str().as_bytes();
    b.len() == 2 && (b[0] == c || b[0] == c + 32) && (b[1] == 88u8 || b[1] == 120u8)
}

/// The SET command that `args` make.
fn parse_set(args: &Vec<String>) -> (r: Result<Command, CommandValidationError>)
    ensures
        outcome_view(r) == set_of(strings_view(args@)),
{
    let ghost a = strings_view(args@);
    if args.len() < 2 {
        return Err(CommandValidationError::SetRequiresKeyValue);
    }
    let key = args[0].clone();
    let value = args[1].clone();
    if args.len() == 2 {
        return Ok(Command::SetKey { key, value, expiry: None });
    }
    let flag = args[2].clone();
    let seconds = flag_is(&flag, 69u8);
    if !seconds && !flag_is(&flag, 80u8) {
        return Err(CommandValidationError::UnknownSetFlag(flag));
    }
    if args.len() == 3 {
        return Err(CommandValidationError::MissingFlagValue(flag));
    }
    let n = match parse_number(args[3].as_str().as_bytes(), u64::MAX) {
        Some(n) => n,
        None => {
            return Err(CommandValidationError::InvalidFlagValue(flag));
        },
    };
    let ttl = if seconds { Ttl::Seconds(n) } else { Ttl::Millis(n) };
    if args.len() > 4 {
        return Err(CommandValidationError::UnexpectedTrailingArguments);
    }
    Ok(Command::SetKey { key, value, expiry: Some(ttl) })
}

impl Command {
    /// The command that a name, already in upper case, and its arguments make.
    pub fn from_words(name: String, args: Vec<String>) -> (r: Result<Command, CommandValidationError>)
        ensures
            outcome_view(r) == command_of(name@, strings_view(args@)),
    {
        if same_text(name.as_str(), "PING") {
            if args.len() > 0 {
                Ok(Command::Ping(Some(args[0].clone())))
            } else {
                Ok(Command::Ping(None))
            }
        } else if same_text(name.as_str(), "ECHO") {
            if args.len() > 0 {
                Ok(Command::Echo(args[0].clone()))
            } else {
                Err(CommandValidationError::EchoRequiresMessage)
            }
        } else if same_text(name.as_str(), "GET") {
            if args.len() > 0 {
                Ok(Command::Get(args[0].clone()))
            } else {
                Err(CommandValidationError::GetRequiresKey)
            }
        } else if same_text(name.as_str(), "SET") {
            parse_set(&args)
        } else {
            Err(CommandValidationError::UnknownCommand(name))
        }
    }
}

/// The command that a decoded frame makes.
pub fn interpret_command(value: Value) -> (r: Result<Command, InterpretError>)
    ensures
        outcome_view(r) == interpretation(value@),
{
    let raw = match RawCommand::from_value(value) {
        Ok(raw) => raw,
        Err(e) => {
            return Err(InterpretError::RawCommandError(e));
        },
    };
    match Command::from_words(raw.name, raw.args) {
        Ok(c) => Ok(c),
        Err(e) => Err(InterpretError::CommandValidationError(e)),
    }
}

/// What a reply to `request` is, given the keyspace `m` at `now`.
pub open spec fn reply_of(request: Request, m: Map<Seq<char>, Stored>, now: int) -> Frame {
    match request {
        Request::Ping(None) => Frame::Simple("PONG"@),
        Request::Ping(Some(s)) => Frame::Bulk(s),
        Request::Echo(s) => Frame::Bulk(s),
        Request::Get(k) => match visible(m, k, now) {
            Some(v) => Frame::Bulk(v),
            None => Frame::Null,
        },
        Request::SetKey { .. } => Frame::Simple("OK"@),
    }
}

/// What `request` leaves of the keyspace `m` at `now`, expired entries that
/// it comes across dropped.
pub open spec fn after(request: Request, m: Map<Seq<char>, Stored>, now: u64) -> Map<Seq<char>, Stored> {
    match request {
        Request::Get(k) => if m.contains_key(k) && !is_live(m[k].expires_at, now as int) {
            m.remove(k)
        } else {
            m
        },
        Request::SetKey { key, value, expiry } => m.insert(
            key,
            Stored { value, expires_at: expiry_of(expiry, now) },
        ),
        _ => m,
    }
}

/// Runs `command` against the keyspace at `now`, and gives the reply.
pub fn execute(command: Command, store: &mut Store, now: u64) -> (r: Value)
    requires
        old(store).wf(),
    ensures
        final(store).wf(),
        r@ == reply_of(command@, old(store)@, now as int),
        final(store)@ == after(command@, old(store)@, now),
{
    match command {
        Command::Ping(message) => execute_ping(message),
        Command::Echo(message) => Value::BulkString(message),
        Command::Get(key) => execute_get(&key, store, now),
        Command::SetKey { key, value, expiry } => {
            store.set(key, value, expiry, now);
            Value::SimpleString("OK".to_owned())
        },
    }
}

/// True when `request` leaves the keyspace `m` as it is at `now`: it writes
/// nothing, and a read finds no expired entry to drop.
pub open spec fn reads_only(request: Request, m: Map<Seq<char>, Stored>, now: int) -> bool {
    match request {
        Request::SetKey { .. } => false,
        Request::Get(k) => !(m.contains_key(k) && !is_live(m[k].expires_at, now)),
        _ => true,
    }
}

/// Runs `command` if it only reads the keyspace at `now`, and gives the
/// reply; gives nothing when the command would change the keyspace, which
/// `execute` then does.
pub fn execute_read(command: &Command, store: &Store, now: u64) -> (r: Option<Value>)
    requires
        store.wf(),
    ensures
        r is Some <==> reads_only(command@, store@, now as int),
        r matches Some(v) ==> v@ == reply_of(command@, store@, now as int),
        reads_only(command@, store@, now as int) ==> after(command@, store@, now) == store@,
{
    match command {
        Command::Ping(message) => match message {
            Some(content) => Some(Value::BulkString(content.clone())),
            None => Some(Value::SimpleString("PONG".to_owned())),
        },
        Command::Echo(message) => Some(Value::BulkString(message.clone())),
        Command::Get(key) => match store.lookup(key.as_str(), now) {
            Lookup::Live(value) => Some(Value::BulkString(value)),
            Lookup::Missing => Some(Value::Null),
            Lookup::Expired => None,
        },
        Command::SetKey { .. } => None,
    }
}

fn execute_ping(message: Option<String>) -> (r: Value)
    ensures
        r@ == match message {
            Some(s) => Frame::Bulk(s@),
            None => Frame::Simple("PONG"@),
        },
{
    match message {
        Some(content) => Value::BulkString(content),
        None => Value::SimpleString("PONG".to_owned()),
    }
}

fn execute_get(key: &String, store: &mut Store, now: u64) -> (r: Value)
    requires
        old(store).wf(),
    ensures
        final(store).wf(),
        r@ == match visible(old(store)@, key@, now as int) {
            Some(v) => Frame::Bulk(v),
            None => Frame::Null,
        },
        final(store)@ == if old(store)@.contains_key(key@) && !is_live(
            old(store)@[key@].expires_at,
            now as int,
        ) {
            old(store)@.remove(key@)
        } else {
            old(store)@
        },
{
    match store.get(key.as_str(), now) {
        Some(value) => Value::BulkString(value),
        None => Value::Null,
    }
}

/// The text that reports a refusal to the peer, on one line.
pub open spec fn rejection_message(r: Rejection) -> Seq<char> {
    single_line(rejection_text(r))
}

/// The report of a refusal, before line breaks in it are blanked out.
pub open spec fn rejection_text(r: Rejection) -> Seq<char> {
    match r {
        Rejection::ExpectedString(_) => "Error parsing input command: Expected string argument"@,
        Rejection::EmptyCommandArray => "Error parsing input command: Empty command array"@,
        Rejection::CannotCreateCommand(_) => "Error parsing input command: Cannot create command from value"@,
        Rejection::UnknownCommand(s) => "Invalid command: Unknown command: "@ + s,
        Rejection::EchoRequiresMessage => "Invalid command: ECHO command requires a message"@,
        Rejection::GetRequiresKey => "Invalid command: GET command requires a key to retrieve value"@,
        Rejection::SetRequiresKeyValue => "Invalid command: SET command requires a key and a value to set"@,
        Rejection::UnknownSetFlag(s) => "Invalid command: Unknown SET command flag: "@ + s,
        Rejection::MissingFlagValue(s) => "Invalid command: Missing value for flag: "@ + s,
        Rejection::InvalidFlagValue(s) => "Invalid command: Invalid flag value: "@ + s + ". Expected integer"@,
        Rejection::UnexpectedTrailingArguments => "Invalid command: Unexpected trailing arguments"@,
    }
}

fn joined(a: &str, b: &str) -> (r: String)
    ensures
        r@ == a@ + b@,
{
    let mut m = a.to_owned();
    m.append(b);
    m
}

impl InterpretError {
    /// The text that reports this refusal to the peer.
    pub fn message(&self) -> (r: String)
        ensures
            r@ == rejection_message(self@),
            has_no_line_break(r@),
    {
        let text = self.text();
        single_line_text(text.as_str())
    }

    fn text(&self) -> (r: String)
        ensures
            r@ == rejection_text(self@),
    {
        match self {
            InterpretError::RawCommandError(e) => match e {
                RawCommandError::ExpectedString(_) => "Error parsing input command: Expected string argument".to_owned(),
                RawCommandError::EmptyCommandArray => "Error parsing input command: Empty command array".to_owned(),
                RawCommandError::CannotCreateCommand(_) => "Error parsing input command: Cannot create command from value".to_owned(),
            },
            InterpretError::CommandValidationError(e) => match e {
                CommandValidationError::UnknownCommand(s) => joined("Invalid command: Unknown command: ", s.as_str()),
                CommandValidationError::EchoRequiresMessage => "Invalid command: ECHO command requires a message".to_owned(),
                CommandValidationError::GetRequiresKey => "Invalid command: GET command requires a key to retrieve value".to_owned(),
                CommandValidationError::SetRequiresKeyValue => "Invalid command: SET command requires a key and a value to set".to_owned(),
                CommandValidationError::UnknownSetFlag(s) => joined("Invalid command: Unknown SET command flag: ", s.as_str()),
                CommandValidationError::MissingFlagValue(s) => joined("Invalid command: Missing value for flag: ", s.as_str()),
                CommandValidationError::InvalidFlagValue(s) => {
                    let m = joined("Invalid command: Invalid flag value: ", s.as_str());
                    joined(m.as_str(), ". Expected integer")
                },
                CommandValidationError::UnexpectedTrailingArguments => "Invalid command: Unexpected trailing arguments".to_owned(),
            },
        }
    }
}

} // verus!
