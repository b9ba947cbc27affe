//! The parser: one scan over the input with an explicit stack of the
//! containers that are open, so that the depth of a document costs no call
//! depth.

use crate::error::{Fault, ParseError};
use crate::digits::is_digit;
use crate::grammar::{
    dict_rest, document, integer, lemma_value_reads_on, list_rest, reads_on, string, value,
};
use crate::marks::{DICT_MARK, DIGIT_NINE, DIGIT_ZERO, END_MARK, INT_MARK, LIST_MARK};
use crate::options::Options;
use crate::order::inserted;
use crate::value::{BEncode, Dict, Value};
use crate::wellformed::lemma_document_wf;
use vstd::prelude::*;

verus! {

/// An open container as a mathematical value.
pub enum Open {
    /// A list that started at `start`, of which `items` were read.
    List { start: int, items: Seq<Value> },
    /// A dictionary that started at `start`, of which `entries` were read,
    /// and the key that was read behind them and waits for its value.
    Dict { start: int, entries: Seq<(Seq<char>, Value)>, pending: Option<Seq<char>> },
}

impl Open {
    /// The offset of the byte that opened the container.
    pub open spec fn start(self) -> int {
        match self {
            Open::List { start, .. } => start,
            Open::Dict { start, .. } => start,
        }
    }
}

/// A container that is open while its items are read. A dictionary holds
/// the key that waits for its value in a slot of its own.
pub enum Frame {
    List { start: usize, items: Vec<BEncode> },
    Dict { start: usize, entries: Dict, pending: Option<String> },
}

impl View for Frame {
    type V = Open;

    open spec fn view(&self) -> Open {
        match self {
            Frame::List { start, items } => Open::List {
                start: *start as int,
                items: BEncode::List(*items)@->List_0,
            },
            Frame::Dict { start, entries, pending } => Open::Dict {
                start: *start as int,
                entries: entries@,
                pending: match pending {
                    Some(key) => Some(key@),
                    None => None,
                },
            },
        }
    }
}

/// What a container makes of a token that is handed to it: it takes it in,
/// or refuses it.
pub open spec fn pushed(open: Open, token: Value, at: int) -> Result<Open, Fault> {
    match open {
        Open::List { start, items } => Ok(Open::List { start, items: items.push(token) }),
        Open::Dict { start, entries, pending: Some(key) } => Ok(
            Open::Dict { start, entries: inserted(entries, key, token), pending: None },
        ),
        Open::Dict { start, entries, pending: None } => match token {
            Value::Text(key) => Ok(Open::Dict { start, entries, pending: Some(key) }),
            _ => Err(Fault::NonStringKey(at)),
        },
    }
}

impl Frame {
    /// Hands the container a token that started at `at`. A list appends it.
    /// A dictionary with a key that waits stores the token under that key;
    /// one without takes a text as the next key and refuses any other
    /// token.
    pub fn push(self, item: BEncode, at: usize) -> (result: Result<Frame, ParseError>)
        ensures
            match result {
                Ok(frame) => pushed(self@, item@, at as int) == Ok::<Open, Fault>(frame@),
                Err(error) => pushed(self@, item@, at as int) == Err::<Open, Fault>(error@),
            },
    {
        match self {
            Frame::List { start, items } => {
                let mut items = items;
                let ghost before = BEncode::List(items)@->List_0;
                items.push(item);
                assert(BEncode::List(items)@->List_0 =~= before.push(item@));
                Ok(Frame::List { start, items })
            },
            Frame::Dict { start, entries, pending } => {
                let mut entries = entries;
                match pending {
                    Some(key) => {
                        entries.insert(key, item);
                        Ok(Frame::Dict { start, entries, pending: None })
                    },
                    None => match item {
                        BEncode::String(key) => Ok(
                            Frame::Dict { start, entries, pending: Some(key) },
                        ),
                        _ => Err(ParseError::NonStringKey(at)),
                    },
                }
            },
        }
    }
}

/// The state of a scan as a mathematical value.
pub struct Scan {
    /// The containers that are open, the innermost last.
    pub open: Seq<Open>,
    /// The offset of the next byte to read.
    pub pos: int,
}

/// The state of a scan: the containers that are open, the innermost last,
/// and the offset of the next byte to read.
pub struct ParserState {
    pub open: Vec<Frame>,
    pub pos: usize,
}

impl View for ParserState {
    type V = Scan;

    open spec fn view(&self) -> Scan {
        Scan { open: self.open@.map_values(|frame: Frame| frame@), pos: self.pos as int }
    }
}

/// What becomes of a token that is complete.
pub enum Attached {
    /// Nothing was open: the token is the document.
    Root(Value),
    /// The innermost container took it in; these containers are open now.
    Open(Seq<Open>),
    /// The innermost container refused it.
    Refused(Fault),
}

/// Hands a token that started at `at` to the innermost open container.
pub open spec fn attached(open: Seq<Open>, token: Value, at: int) -> Attached {
    if open.len() == 0 {
        Attached::Root(token)
    } else {
        match pushed(open.last(), token, at) {
            Ok(frame) => Attached::Open(open.drop_last().push(frame)),
            Err(fault) => Attached::Refused(fault),
        }
    }
}

/// The result of the parse that a scan in the state `open`, `pos` is part
/// of: that of reading the innermost open container to its end, of handing
/// it to the one around it, and so on until the outermost is closed.
pub open spec fn outcome(input: Seq<u8>, hex: bool, open: Seq<Open>, pos: int) -> Result<
    Value,
    Fault,
>
    decreases open.len(), 0nat,
{
    if open.len() == 0 {
        match value(input, pos, hex) {
            Ok((root, _)) => Ok(root),
            Err(fault) => Err(fault),
        }
    } else {
        let closed = match open.last() {
            Open::List { items, .. } => list_rest(input, pos, hex, items),
            Open::Dict { entries, pending: None, .. } => dict_rest(input, pos, hex, entries),
            Open::Dict { entries, pending: Some(key), .. } => match value(input, pos, hex) {
                Err(fault) => Err(fault),
                Ok((item, next)) => if reads_on(input, pos, next) {
                    dict_rest(input, next, hex, inserted(entries, key, item))
                } else {
                    Err(Fault::UnterminatedDocument(input.len() as int))
                },
            },
        };
        match closed {
            Err(fault) => Err(fault),
            Ok((container, next)) => delivered(
                input,
                hex,
                open.drop_last(),
                container,
                open.last().start(),
                next,
            ),
        }
    }
}

/// The result of the parse after a token that started at `at` was read up
/// to `next`, with `open` the containers around it.
pub open spec fn delivered(
    input: Seq<u8>,
    hex: bool,
    open: Seq<Open>,
    token: Value,
    at: int,
    next: int,
) -> Result<Value, Fault>
    decreases open.len(), 1nat,
{
    match attached(open, token, at) {
        Attached::Root(root) => Ok(root),
        Attached::Refused(fault) => Err(fault),
        Attached::Open(now) => outcome(input, hex, now, next),
    }
}

/// Where the next byte is no terminator, the parse goes on with the value
/// that starts there: it fails as that value does, or hands it to the
/// innermost open container.
pub proof fn lemma_outcome_of_token(input: Seq<u8>, hex: bool, open: Seq<Open>, pos: int)
    requires
        0 <= pos < input.len(),
        input[pos] != END_MARK,
    ensures
        outcome(input, hex, open, pos) == (match value(input, pos, hex) {
            Err(fault) => Err(fault),
            Ok((token, next)) => delivered(input, hex, open, token, pos, next),
        }),
{
    lemma_value_reads_on(input, pos, hex);
    if open.len() > 0 {
        if let Ok((token, next)) = value(input, pos, hex) {
            if let Attached::Open(now) = attached(open, token, pos) {
                assert(now.drop_last() =~= open.drop_last());
                assert(now.last().start() == open.last().start());
                lemma_value_reads_on(input, next, hex);
            }
        }
    }
}

/// Where a container opens, the parse goes on inside it.
pub proof fn lemma_outcome_of_opening(input: Seq<u8>, hex: bool, open: Seq<Open>, pos: int)
    requires
        0 <= pos < input.len(),
        input[pos] == LIST_MARK || input[pos] == DICT_MARK,
    ensures
        input[pos] == LIST_MARK ==> outcome(input, hex, open, pos) == outcome(
            input,
            hex,
            open.push(Open::List { start: pos, items: Seq::empty() }),
            pos + 1,
        ),
        input[pos] == DICT_MARK ==> outcome(input, hex, open, pos) == outcome(
            input,
            hex,
            open.push(Open::Dict { start: pos, entries: Seq::empty(), pending: None }),
            pos + 1,
        ),
{
    lemma_outcome_of_token(input, hex, open, pos);
    let list = Open::List { start: pos, items: Seq::empty() };
    let dict = Open::Dict { start: pos, entries: Seq::empty(), pending: None };
    assert(open.push(list).drop_last() =~= open);
    assert(open.push(dict).drop_last() =~= open);
}

/// Where the input is read to its end, the document is unterminated.
pub proof fn lemma_outcome_at_end(input: Seq<u8>, hex: bool, open: Seq<Open>, pos: int)
    requires
        pos >= input.len(),
    ensures
        outcome(input, hex, open, pos) == Err::<Value, Fault>(
            Fault::UnterminatedDocument(input.len() as int),
        ),
{
}

/// The container that the terminator at `scan.pos` closes, with the offset
/// at which it started. A terminator closes nothing where nothing is open,
/// and none where a key waits for its value.
pub open spec fn closing(scan: Scan) -> Result<(Value, int), Fault> {
    if scan.open.len() == 0 {
        Err(Fault::UnexpectedTerminator(scan.pos))
    } else {
        match scan.open.last() {
            Open::List { start, items } => Ok((Value::List(items), start)),
            Open::Dict { start, entries, pending: None } => Ok((Value::Dict(entries), start)),
            Open::Dict { pending: Some(_), .. } => Err(Fault::UnexpectedTerminator(scan.pos)),
        }
    }
}

/// The result of a parse is what the grammar says: the same value, or the
/// same failure.
pub open spec fn parsed(result: Result<BEncode, ParseError>, expected: Result<Value, Fault>) -> bool
{
    match result {
        Ok(root) => expected == Ok::<Value, Fault>(root@),
        Err(error) => expected == Err::<Value, Fault>(error@),
    }
}

/// What a step of the scan comes to.
pub enum Progress {
    /// The scan goes on in this state.
    On(Scan),
    /// The parse ends with this result.
    Done(Result<Value, Fault>),
}

/// What becomes of the scan once a token that was read up to `next` was
/// handed on.
pub open spec fn resumed(attached: Attached, next: int) -> Progress {
    match attached {
        Attached::Root(root) => Progress::Done(Ok(root)),
        Attached::Refused(fault) => Progress::Done(Err(fault)),
        Attached::Open(now) => Progress::On(Scan { open: now, pos: next }),
    }
}

/// One step of the scan, by the byte at `scan.pos`: an integer or a string
/// is read and handed to the innermost open container, `l` and `d` open a
/// container, `e` closes the innermost one and hands it on, and the end of
/// the input or any other byte ends the parse.
pub open spec fn stepped(input: Seq<u8>, hex: bool, scan: Scan) -> Progress {
    let at = scan.pos;
    if at < 0 || at >= input.len() {
        Progress::Done(Err(Fault::UnterminatedDocument(input.len() as int)))
    } else if input[at] == END_MARK {
        match closing(scan) {
            Err(fault) => Progress::Done(Err(fault)),
            Ok((container, start)) => resumed(
                attached(scan.open.drop_last(), container, start),
                at + 1,
            ),
        }
    } else if input[at] == LIST_MARK {
        Progress::On(
            Scan {
                open: scan.open.push(Open::List { start: at, items: Seq::empty() }),
                pos: at + 1,
            },
        )
    } else if input[at] == DICT_MARK {
        Progress::On(
            Scan {
                open: scan.open.push(
                    Open::Dict { start: at, entries: Seq::empty(), pending: None },
                ),
                pos: at + 1,
            },
        )
    } else if input[at] == INT_MARK || is_digit(input[at]) {
        let token = if input[at] == INT_MARK {
            integer(input, at)
        } else {
            string(input, at, hex)
        };
        match token {
            Err(fault) => Progress::Done(Err(fault)),
            Ok((token, next)) => resumed(attached(scan.open, token, at), next),
        }
    } else {
        Progress::Done(Err(Fault::UnexpectedByte(at)))
    }
}

/// A step of the scan keeps to the grammar: where the scan goes on, it goes
/// on behind the byte it was at and to the same result, and where it ends,
/// it ends with the result of the parse.
pub proof fn lemma_stepped(input: Seq<u8>, hex: bool, scan: Scan)
    requires
        0 <= scan.pos,
    ensures
        match stepped(input, hex, scan) {
            Progress::On(next) => scan.pos < next.pos <= input.len() && outcome(
                input,
                hex,
                next.open,
                next.pos,
            ) == outcome(input, hex, scan.open, scan.pos),
            Progress::Done(result) => outcome(input, hex, scan.open, scan.pos) == result,
        },
{
    let at = scan.pos;
    if at >= input.len() {
        lemma_outcome_at_end(input, hex, scan.open, at);
    } else if input[at] == END_MARK {
    } else {
        lemma_outcome_of_token(input, hex, scan.open, at);
        lemma_value_reads_on(input, at, hex);
        if input[at] == LIST_MARK || input[at] == DICT_MARK {
            lemma_outcome_of_opening(input, hex, scan.open, at);
        }
    }
}

impl ParserState {
    /// The state in which a scan starts: nothing is open, nothing is read.
    pub fn new() -> (state: ParserState)
        ensures
            state@ == (Scan { open: Seq::empty(), pos: 0 }),
    {
        let state = ParserState { open: Vec::new(), pos: 0 };
        assert(state@.open =~= Seq::empty());
        state
    }

    /// Hands a token that started at `at` to the innermost open container.
    /// `Ok(Some(..))` gives the token back as the document, where nothing is
    /// open.
    pub fn attach(&mut self, token: BEncode, at: usize) -> (result: Result<
        Option<BEncode>,
        ParseError,
    >)
        ensures
            final(self).pos == old(self).pos,
            match attached(old(self)@.open, token@, at as int) {
                Attached::Root(root) => result matches Ok(Some(document)) && document@ == root
                    && final(self)@ == old(self)@,
                Attached::Open(now) => result matches Ok(None) && final(self)@.open == now,
                Attached::Refused(fault) => result matches Err(error) && error@ == fault,
            },
    {
        let ghost before = self@.open;
        match self.open.pop() {
            None => Ok(Some(token)),
            Some(frame) => {
                assert(frame@ == before.last());
                assert(self@.open =~= before.drop_last());
                match frame.push(token, at) {
                    Ok(frame) => {
                        self.open.push(frame);
                        assert(self@.open =~= before.drop_last().push(frame@));
                        Ok(None)
                    },
                    Err(error) => Err(error),
                }
            },
        }
    }

    /// Closes the innermost open container at the terminator at `self.pos`
    /// and hands it to the one around it. `Ok(Some(..))` gives the document,
    /// where the container was the outermost.
    pub fn close(&mut self) -> (result: Result<Option<BEncode>, ParseError>)
        ensures
            final(self).pos == old(self).pos,
            match closing(old(self)@) {
                Err(fault) => result matches Err(error) && error@ == fault,
                Ok((container, at)) => match attached(
                    old(self)@.open.drop_last(),
                    container,
                    at,
                ) {
                    Attached::Root(root) => result matches Ok(Some(document)) && document@
                        == root,
                    Attached::Open(now) => result matches Ok(None) && final(self)@.open == now,
                    Attached::Refused(fault) => result matches Err(error) && error@ == fault,
                },
            },
    {
        let ghost before = self@.open;
        let at = self.pos;
        match self.open.pop() {
            None => Err(ParseError::UnexpectedTerminator(at)),
            Some(frame) => {
                assert(frame@ == before.last());
                assert(self@.open =~= before.drop_last());
                match frame {
                    Frame::List { start, items } => self.attach(BEncode::List(items), start),
                    Frame::Dict { start, entries, pending } => match pending {
                        Some(_) => Err(ParseError::UnexpectedTerminator(at)),
                        None => self.attach(BEncode::Dictionary(entries), start),
                    },
                }
            },
        }
    }

    /// Reads the token at `self.pos`. `None` says that the scan goes on;
    /// `Some(..)` gives the result of the parse.
    pub fn step(&mut self, bytes: &[u8], options: &Options) -> (done: Option<
        Result<BEncode, ParseError>,
    >)
        ensures
            match stepped(bytes@, options.parse_hex, old(self)@) {
                Progress::On(scan) => done is None && final(self)@ == scan,
                Progress::Done(expected) => done matches Some(result) && parsed(result, expected),
            },
    {
        let ghost open = self@.open;
        let at = self.pos;
        if at >= bytes.len() {
            return Some(Err(ParseError::UnterminatedDocument(bytes.len())));
        }
        let lead = bytes[at];
        if lead == END_MARK {
            match self.close() {
                Ok(None) => {
                    self.pos = at + 1;
                    None
                },
                Ok(Some(root)) => Some(Ok(root)),
                Err(error) => Some(Err(error)),
            }
        } else if lead == LIST_MARK {
            let frame = Frame::List { start: at, items: Vec::new() };
            assert(frame@ == (Open::List { start: at as int, items: Seq::empty() })) by {
                assert(frame@->List_items =~= Seq::empty());
            }
            self.open.push(frame);
            self.pos = at + 1;
            assert(self@.open =~= open.push(frame@));
            None
        } else if lead == DICT_MARK {
            let frame = Frame::Dict { start: at, entries: Dict::new(), pending: None };
            self.open.push(frame);
            self.pos = at + 1;
            assert(self@.open =~= open.push(frame@));
            None
        } else if lead == INT_MARK || (DIGIT_ZERO <= lead && lead <= DIGIT_NINE) {
            let token = if lead == INT_MARK {
                BEncode::parse_int(bytes, at)
            } else {
                BEncode::parse_str(bytes, at, options.parse_hex)
            };
            match token {
                Err(error) => Some(Err(error)),
                Ok((next, token)) => {
                    match self.attach(token, at) {
                        Ok(None) => {
                            self.pos = next;
                            None
                        },
                        Ok(Some(root)) => Some(Ok(root)),
                        Err(error) => Some(Err(error)),
                    }
                },
            }
        } else {
            Some(Err(ParseError::UnexpectedByte(at)))
        }
    }
}

impl BEncode {
    /// Parses a document: the value that starts at the first byte of
    /// `bytes`, or the first error of the scan. Bytes behind that value are
    /// not read.
    pub fn parse(bytes: Vec<u8>, options: Options) -> (result: Result<BEncode, ParseError>)
        ensures
            parsed(result, document(bytes@, options.parse_hex)),
            result matches Ok(root) ==> root@.wf(),
    {
        let mut state = ParserState::new();
        loop
            invariant
                state.pos <= bytes.len(),
                outcome(bytes@, options.parse_hex, state@.open, state@.pos) == document(
                    bytes@,
                    options.parse_hex,
                ),
            decreases bytes.len() - state.pos,
        {
            proof {
                lemma_stepped(bytes@, options.parse_hex, state@);
                lemma_document_wf(bytes@, options.parse_hex);
            }
            match state.step(bytes.as_slice(), &options) {
                Some(result) => {
                    return result;
                },
                None => {},
            }
        }
    }
}

} // verus!
