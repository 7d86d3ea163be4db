//! The streaming RESP parser: an incremental state machine over an
//! internal byte buffer.
//!
//! Bytes are appended with `read_buf`; `try_parse` attempts to decode the
//! next complete value, suspending with a recoverable error when input is
//! incomplete and leaving its state intact for the next attempt. The
//! machine's exact behaviour is given by the specification-level
//! interpreter `spec_run`: every call of `try_parse` returns precisely
//! what `spec_run` says for the bytes and state at entry, within the
//! per-call work ceiling `MAX_ITERATIONS`.

use vstd::prelude::*;
use crate::bytebuf::{buf_byte, buf_drop_prefix, buf_extend, buf_len, buf_slice, buf_with_capacity,
    bytes_view};
use crate::numbers::{is_signed_digits, scan_i64, spec_parse_signed, DigitScan, check_all_digits,
    parse_long_i64, scan_digits_i64};
use crate::resp::{vmodel, vmodel_elems, RespValue, ValueModel};
use crate::text::{check_big_number, check_double, contains_cr_or_lf, has_cr_or_lf,
    is_big_number_text, is_double_text, validate_utf8};
use vstd::utf8::valid_utf8;

verus! {

/// The per-call ceiling on state transitions inside `try_parse`.
pub const MAX_ITERATIONS: usize = 1024;

/// Initial capacity of the internal buffer.
pub const DEFAULT_BUFFER_INIT_SIZE: usize = 4096;

/// Why a parse attempt stopped. `UnexpectedEof` and `NotEnoughData` are
/// recoverable: feed more bytes and retry. Every other variant is fatal
/// for the current byte stream.
#[derive(Debug, PartialEq)]
pub enum ParseError {
    /// The bytes violate the grammar; the message says how.
    InvalidFormat(String),
    /// A bulk-string length reached the configured maximum.
    InvalidLength,
    /// More bytes are needed to finish the value being read.
    UnexpectedEof,
    /// An integer or length does not fit in a signed 64-bit value.
    Overflow,
    /// A bulk-string payload is not yet fully buffered.
    NotEnoughData,
    /// Aggregate nesting went beyond the configured maximum depth.
    InvalidDepth,
    /// A payload that must be text is not valid UTF-8.
    InvalidUtf8,
}

/// The model of a `ParseError`: the message as a character sequence.
pub enum ErrorModel {
    InvalidFormat(Seq<char>),
    InvalidLength,
    UnexpectedEof,
    Overflow,
    NotEnoughData,
    InvalidDepth,
    InvalidUtf8,
}

/// The model of an error value.
pub open spec fn emodel(e: ParseError) -> ErrorModel {
    match e {
        ParseError::InvalidFormat(m) => ErrorModel::InvalidFormat(m@),
        ParseError::InvalidLength => ErrorModel::InvalidLength,
        ParseError::UnexpectedEof => ErrorModel::UnexpectedEof,
        ParseError::Overflow => ErrorModel::Overflow,
        ParseError::NotEnoughData => ErrorModel::NotEnoughData,
        ParseError::InvalidDepth => ErrorModel::InvalidDepth,
        ParseError::InvalidUtf8 => ErrorModel::InvalidUtf8,
    }
}

impl Clone for ParseError {
    /// The clone carries the same model.
    fn clone(&self) -> (r: Self)
        ensures
            emodel(r) == emodel(*self),
    {
        match self {
            ParseError::InvalidFormat(m) => ParseError::InvalidFormat(m.clone()),
            ParseError::InvalidLength => ParseError::InvalidLength,
            ParseError::UnexpectedEof => ParseError::UnexpectedEof,
            ParseError::Overflow => ParseError::Overflow,
            ParseError::NotEnoughData => ParseError::NotEnoughData,
            ParseError::InvalidDepth => ParseError::InvalidDepth,
            ParseError::InvalidUtf8 => ParseError::InvalidUtf8,
        }
    }
}

/// Where the machine stands in the grammar. All cursors are byte offsets
/// into the internal buffer.
#[derive(Debug)]
pub enum ParseState {
    /// At a value boundary; the byte at `pos` is a type marker.
    Index { pos: usize },
    /// Accumulating the decimal length prefix of `$ * % ~ >`.
    ReadingLength { pos: usize, value: i64, negative: bool, type_char: u8 },
    /// The payload length is known; waiting for payload plus terminator.
    ReadingBulkString { start_pos: usize, remaining: usize },
    /// Reading a CRLF-terminated simple-string line.
    ReadingSimpleString { pos: usize },
    /// Reading a CRLF-terminated error line.
    ReadingError { pos: usize },
    /// Reading a CRLF-terminated integer line.
    ReadingInteger { pos: usize },
    /// An aggregate header was read; the next step opens its frame.
    ReadingArray {
        pos: usize,
        total: u64,
        current: u64,
        elements: Vec<RespValue>,
        original_type_char: u8,
    },
    /// A failed transition. Never stored; surfaced as the call's error.
    Error(ParseError),
    /// A completed value and the cursor just past it.
    Complete(Option<(RespValue, usize)>),
}

/// The model of a machine state.
pub enum StateModel {
    Index { pos: int },
    ReadingLength { pos: int, value: i64, negative: bool, type_char: u8 },
    ReadingBulkString { start_pos: int, remaining: int },
    ReadingSimpleString { pos: int },
    ReadingError { pos: int },
    ReadingInteger { pos: int },
    ReadingArray { pos: int, total: int, current: int, elements: Seq<ValueModel>, type_char: u8 },
    Failed(ErrorModel),
    Complete(Option<(ValueModel, int)>),
}

/// The model of a state value.
pub open spec fn smodel(s: ParseState) -> StateModel {
    match s {
        ParseState::Index { pos } => StateModel::Index { pos: pos as int },
        ParseState::ReadingLength { pos, value, negative, type_char } => StateModel::ReadingLength {
            pos: pos as int,
            value,
            negative,
            type_char,
        },
        ParseState::ReadingBulkString { start_pos, remaining } => StateModel::ReadingBulkString {
            start_pos: start_pos as int,
            remaining: remaining as int,
        },
        ParseState::ReadingSimpleString { pos } => StateModel::ReadingSimpleString {
            pos: pos as int,
        },
        ParseState::ReadingError { pos } => StateModel::ReadingError { pos: pos as int },
        ParseState::ReadingInteger { pos } => StateModel::ReadingInteger { pos: pos as int },
        ParseState::ReadingArray { pos, total, current, elements, original_type_char } => StateModel::ReadingArray {
            pos: pos as int,
            total: total as int,
            current: current as int,
            elements: vmodel_elems(elements@, 0),
            type_char: original_type_char,
        },
        ParseState::Error(e) => StateModel::Failed(emodel(e)),
        ParseState::Complete(c) => StateModel::Complete(
            match c {
                Some((v, pos)) => Some((vmodel(v), pos as int)),
                None => None,
            },
        ),
    }
}

/// One partially filled aggregate: its marker, the number of child values
/// it still expects in total, and the children read so far.
#[derive(Debug)]
pub struct Frame {
    pub type_char: u8,
    pub total: u64,
    pub elements: Vec<RespValue>,
}

/// The model of a frame.
pub struct FrameModel {
    pub type_char: u8,
    pub total: int,
    pub elements: Seq<ValueModel>,
}

/// The model of a frame value.
pub open spec fn fmodel(f: Frame) -> FrameModel {
    FrameModel { type_char: f.type_char, total: f.total as int, elements: vmodel_elems(f.elements@, 0) }
}

/// The model of the whole aggregate stack.
pub open spec fn stack_model(s: Seq<Frame>) -> Seq<FrameModel> {
    s.map_values(|f: Frame| fmodel(f))
}

/// Index of the first CRLF at or after `i`: the least `j >= i` with a CR
/// at `j` and an LF at `j + 1`.
pub open spec fn spec_find_crlf(s: Seq<u8>, i: int) -> Option<int>
    decreases s.len() - i,
{
    if i < 0 || i + 1 >= s.len() {
        None
    } else if s[i] == 13 && s[i + 1] == 10 {
        Some(i)
    } else {
        spec_find_crlf(s, i + 1)
    }
}

/// A stretch without CR cannot hold the first CRLF.
proof fn lemma_find_crlf_skip(s: Seq<u8>, a: int, b: int)
    requires
        0 <= a <= b <= s.len(),
        forall|j: int| a <= j < b ==> !(#[trigger] s[j] == 13 && j + 1 < s.len() && s[j + 1] == 10),
    ensures
        spec_find_crlf(s, a) == spec_find_crlf(s, b),
    decreases b - a,
{
    if a < b {
        lemma_find_crlf_skip(s, a + 1, b);
    }
}

/// Finds the first CRLF at or after `start`, scanning for CR bytes.
pub fn find_crlf(buf: &bytes::BytesMut, start: usize) -> (r: Option<usize>)
    requires
        start <= bytes_view(*buf).len(),
    ensures
        match r {
            Some(i) => Some(i as int) == spec_find_crlf(bytes_view(*buf), start as int) && start
                <= i && i + 2 <= bytes_view(*buf).len() && bytes_view(*buf)[i as int] == 13
                && bytes_view(*buf)[i + 1] == 10,
            None => spec_find_crlf(bytes_view(*buf), start as int) == None::<int>,
        },
{
    let ghost s = bytes_view(*buf);
    let n = buf_len(buf);
    let mut cur: usize = start;
    loop
        invariant
            start <= cur <= n == s.len(),
            s == bytes_view(*buf),
            spec_find_crlf(s, start as int) == spec_find_crlf(s, cur as int),
        decreases n - cur,
    {
        let window = buf_slice(buf, cur, n);
        match memchr::memchr(13u8, window) {
            None => {
                proof {
                    assert forall|j: int|
                        cur <= j < n implies !(#[trigger] s[j] == 13 && j + 1 < s.len() && s[j + 1]
                        == 10) by {
                        assert(window@[j - cur] == s[j]);
                        assert(window@[j - cur] != 13);
                    }
                    lemma_find_crlf_skip(s, cur as int, n as int);
                }
                return None;
            },
            Some(rel) => {
                let p = cur + rel;
                proof {
                    assert(s[p as int] == window@[rel as int]);
                    assert forall|j: int|
                        cur <= j < p implies !(#[trigger] s[j] == 13 && j + 1 < s.len() && s[j + 1]
                        == 10) by {
                        assert(window@[j - cur] == s[j]);
                        assert(window@[j - cur] != 13);
                    }
                    lemma_find_crlf_skip(s, cur as int, p as int);
                }
                if p + 1 < n {
                    if buf_byte(buf, p + 1) == 10 {
                        return Some(p);
                    }
                } else {
                    proof {
                        lemma_find_crlf_skip(s, p as int, n as int);
                    }
                    return None;
                }
                proof {
                    lemma_find_crlf_skip(s, p as int, p + 1);
                }
                cur = p + 1;
            },
        }
    }
}


/// The `-1` line that marks an absent payload: exactly `-` then `1`.
pub open spec fn is_null_literal(line: Seq<u8>) -> bool {
    line.len() == 2 && line[0] == 45 && line[1] == 49
}

/// The grammar step taken at a value boundary: dispatch on the marker
/// byte at `index` and, for the line-framed variants, read the whole
/// line.
pub open spec fn spec_handle_index(buf: Seq<u8>, index: int) -> StateModel {
    if index < 0 || index >= buf.len() {
        StateModel::Failed(ErrorModel::UnexpectedEof)
    } else {
        let b = buf[index];
        if b == 43 {
            StateModel::ReadingSimpleString { pos: index + 1 }
        } else if b == 45 {
            StateModel::ReadingError { pos: index + 1 }
        } else if b == 58 {
            StateModel::ReadingInteger { pos: index + 1 }
        } else if b == 36 || b == 42 || b == 37 || b == 126 || b == 62 {
            StateModel::ReadingLength { pos: index + 1, value: 0, negative: false, type_char: b }
        } else if b == 95 {
            if index + 2 < buf.len() && buf[index + 1] == 13 && buf[index + 2] == 10 {
                StateModel::Complete(Some((ValueModel::Null, index + 3)))
            } else {
                StateModel::Failed(ErrorModel::UnexpectedEof)
            }
        } else if b == 35 {
            if index + 2 < buf.len() && buf[index + 2] == 13 && index + 3 < buf.len() && buf[index
                + 3] == 10 {
                if buf[index + 1] == 116 {
                    StateModel::Complete(Some((ValueModel::Boolean(true), index + 4)))
                } else if buf[index + 1] == 102 {
                    StateModel::Complete(Some((ValueModel::Boolean(false), index + 4)))
                } else {
                    StateModel::Failed(ErrorModel::InvalidFormat("Invalid boolean value"@))
                }
            } else {
                StateModel::Failed(ErrorModel::UnexpectedEof)
            }
        } else if b == 44 {
            match spec_find_crlf(buf, index + 1) {
                Some(end) => {
                    let line = buf.subrange(index + 1, end);
                    if !valid_utf8(line) {
                        StateModel::Failed(ErrorModel::InvalidUtf8)
                    } else if is_double_text(line) {
                        StateModel::Complete(Some((ValueModel::Double(line), end + 2)))
                    } else {
                        StateModel::Failed(ErrorModel::InvalidFormat("Invalid double value"@))
                    }
                },
                None => StateModel::Failed(ErrorModel::UnexpectedEof),
            }
        } else if b == 40 {
            match spec_find_crlf(buf, index + 1) {
                Some(end) => {
                    let line = buf.subrange(index + 1, end);
                    if !is_big_number_text(line) {
                        StateModel::Failed(
                            ErrorModel::InvalidFormat("Invalid big number format"@),
                        )
                    } else {
                        StateModel::Complete(Some((ValueModel::BigNumber(line), end + 2)))
                    }
                },
                None => StateModel::Failed(ErrorModel::UnexpectedEof),
            }
        } else if b == 33 {
            match spec_find_crlf(buf, index + 1) {
                Some(end) => {
                    let line = buf.subrange(index + 1, end);
                    if is_null_literal(line) {
                        StateModel::Complete(Some((ValueModel::BulkError(None), end + 2)))
                    } else if !valid_utf8(line) {
                        StateModel::Failed(ErrorModel::InvalidUtf8)
                    } else {
                        StateModel::Complete(Some((ValueModel::BulkError(Some(line)), end + 2)))
                    }
                },
                None => StateModel::Failed(ErrorModel::UnexpectedEof),
            }
        } else if b == 61 {
            match spec_find_crlf(buf, index + 1) {
                Some(end) => {
                    let line = buf.subrange(index + 1, end);
                    if is_null_literal(line) {
                        StateModel::Complete(Some((ValueModel::VerbatimString(None), end + 2)))
                    } else if !valid_utf8(line) {
                        StateModel::Failed(ErrorModel::InvalidUtf8)
                    } else {
                        StateModel::Complete(
                            Some((ValueModel::VerbatimString(Some(line)), end + 2)),
                        )
                    }
                },
                None => StateModel::Failed(ErrorModel::UnexpectedEof),
            }
        } else if b == 13 {
            if index + 1 >= buf.len() {
                StateModel::Failed(ErrorModel::UnexpectedEof)
            } else if buf[index + 1] == 10 {
                StateModel::Index { pos: index + 2 }
            } else {
                StateModel::Failed(ErrorModel::InvalidFormat("Expected \\n after \\r"@))
            }
        } else {
            StateModel::Failed(ErrorModel::InvalidFormat("Invalid type marker"@))
        }
    }
}

/// The absent form of the aggregate with this marker.
pub open spec fn spec_null_aggregate(type_char: u8) -> ValueModel {
    if type_char == 37 {
        ValueModel::MapVal(None)
    } else if type_char == 126 {
        ValueModel::SetVal(None)
    } else if type_char == 62 {
        ValueModel::Push(None)
    } else {
        ValueModel::Array(None)
    }
}

/// The present-empty form of the aggregate with this marker.
pub open spec fn spec_empty_aggregate(type_char: u8) -> ValueModel {
    if type_char == 37 {
        ValueModel::MapVal(Some(Seq::empty()))
    } else if type_char == 126 {
        ValueModel::SetVal(Some(Seq::empty()))
    } else if type_char == 62 {
        ValueModel::Push(Some(Seq::empty()))
    } else {
        ValueModel::Array(Some(Seq::empty()))
    }
}

/// A finished aggregate built from its collected child values. For a map
/// the children pair up in order, key before value.
pub open spec fn spec_build_aggregate(type_char: u8, elems: Seq<ValueModel>) -> ValueModel {
    if type_char == 37 {
        ValueModel::MapVal(
            Some(Seq::new((elems.len() / 2) as nat, |i: int| (elems[2 * i], elems[2 * i + 1]))),
        )
    } else if type_char == 126 {
        ValueModel::SetVal(Some(elems))
    } else if type_char == 62 {
        ValueModel::Push(Some(elems))
    } else {
        ValueModel::Array(Some(elems))
    }
}

/// One step of length-prefix accumulation: a digit extends the value with
/// checked arithmetic, `-` sets the sign, and CRLF closes the prefix and
/// dispatches on the marker that opened it.
pub open spec fn spec_handle_length(
    buf: Seq<u8>,
    max_length: int,
    pos: int,
    value: i64,
    negative: bool,
    type_char: u8,
) -> StateModel {
    if pos < 0 || pos >= buf.len() {
        StateModel::Failed(ErrorModel::UnexpectedEof)
    } else {
        let b = buf[pos];
        if 48 <= b <= 57 {
            let d = (b - 48) as int;
            let v10 = (value as int) * 10;
            let nv = if negative {
                v10 - d
            } else {
                v10 + d
            };
            if v10 < i64::MIN || v10 > i64::MAX || nv < i64::MIN || nv > i64::MAX {
                StateModel::Failed(ErrorModel::Overflow)
            } else {
                StateModel::ReadingLength { pos: pos + 1, value: nv as i64, negative, type_char }
            }
        } else if b == 45 {
            StateModel::ReadingLength { pos: pos + 1, value, negative: true, type_char }
        } else if b == 13 {
            if pos + 1 >= buf.len() {
                StateModel::Failed(ErrorModel::UnexpectedEof)
            } else if buf[pos + 1] != 10 {
                StateModel::Failed(ErrorModel::InvalidFormat("Expected \\n after \\r"@))
            } else {
                let next = pos + 2;
                if type_char == 36 {
                    if value < 0 {
                        StateModel::Complete(Some((ValueModel::BulkString(None), next)))
                    } else if value == 0 {
                        if next + 2 <= buf.len() && buf[next] == 13 && buf[next + 1] == 10 {
                            StateModel::Complete(
                                Some((ValueModel::BulkString(Some(Seq::empty())), next + 2)),
                            )
                        } else {
                            StateModel::Failed(ErrorModel::UnexpectedEof)
                        }
                    } else if value >= max_length {
                        StateModel::Failed(ErrorModel::InvalidLength)
                    } else {
                        StateModel::ReadingBulkString { start_pos: next, remaining: value as int }
                    }
                } else if type_char == 42 || type_char == 37 || type_char == 126 || type_char
                    == 62 {
                    if value < 0 {
                        StateModel::Complete(Some((spec_null_aggregate(type_char), next)))
                    } else if value == 0 {
                        StateModel::Complete(Some((spec_empty_aggregate(type_char), next)))
                    } else {
                        let total = if type_char == 37 {
                            2 * (value as int)
                        } else {
                            value as int
                        };
                        StateModel::ReadingArray {
                            pos: next,
                            total,
                            current: 0,
                            elements: Seq::empty(),
                            type_char,
                        }
                    }
                } else if type_char == 58 {
                    StateModel::Complete(Some((ValueModel::Integer(value), next)))
                } else {
                    StateModel::Failed(ErrorModel::InvalidFormat("Invalid length type"@))
                }
            }
        } else {
            StateModel::Failed(ErrorModel::InvalidFormat("Invalid character in length"@))
        }
    }
}

/// The bulk-payload step: once payload and terminator are buffered, check
/// the terminator, validate UTF-8 and complete the bulk string.
pub open spec fn spec_handle_bulk(
    buf: Seq<u8>,
    max_length: int,
    start_pos: int,
    remaining: int,
) -> StateModel {
    if remaining == 0 {
        StateModel::Failed(
            ErrorModel::InvalidFormat("Unexpected zero remaining in handle_bulk_string"@),
        )
    } else if remaining >= max_length {
        StateModel::Failed(ErrorModel::InvalidLength)
    } else if start_pos < 0 || remaining < 0 || buf.len() < start_pos + remaining + 2 {
        StateModel::Failed(ErrorModel::NotEnoughData)
    } else if buf[start_pos + remaining] != 13 || buf[start_pos + remaining + 1] != 10 {
        StateModel::Failed(ErrorModel::InvalidFormat("Missing CRLF terminator"@))
    } else {
        let payload = buf.subrange(start_pos, start_pos + remaining);
        if !valid_utf8(payload) {
            StateModel::Failed(ErrorModel::InvalidUtf8)
        } else {
            StateModel::Complete(
                Some((ValueModel::BulkString(Some(payload)), start_pos + remaining + 2)),
            )
        }
    }
}

/// The simple-string step: read the line and reject embedded CR or LF.
pub open spec fn spec_handle_simple(buf: Seq<u8>, pos: int) -> StateModel {
    match spec_find_crlf(buf, pos) {
        Some(end) => {
            let line = buf.subrange(pos, end);
            if has_cr_or_lf(line) {
                StateModel::Failed(
                    ErrorModel::InvalidFormat("Simple string cannot contain CR or LF"@),
                )
            } else {
                StateModel::Complete(Some((ValueModel::SimpleString(line), end + 2)))
            }
        },
        None => StateModel::Failed(ErrorModel::UnexpectedEof),
    }
}

/// The error-line step: read the line and reject embedded CR or LF.
pub open spec fn spec_handle_error_line(buf: Seq<u8>, pos: int) -> StateModel {
    match spec_find_crlf(buf, pos) {
        Some(end) => {
            let line = buf.subrange(pos, end);
            if has_cr_or_lf(line) {
                StateModel::Failed(ErrorModel::InvalidFormat("Error cannot contain CR or LF"@))
            } else {
                StateModel::Complete(Some((ValueModel::Error(line), end + 2)))
            }
        },
        None => StateModel::Failed(ErrorModel::UnexpectedEof),
    }
}

/// The outcome of an integer line. Short lines go through the
/// overflow-exact scan; longer ones must be sign-and-digits and are judged
/// by whether their value fits a signed 64-bit integer.
pub open spec fn spec_integer_line(line: Seq<u8>, next: int, allow_plus: bool) -> StateModel {
    let n = line.len() as int;
    let plus = n > 0 && line[0] == 43;
    if plus && !allow_plus {
        StateModel::Failed(
            ErrorModel::InvalidFormat("Explicit '+' sign in integer not supported"@),
        )
    } else {
        let off: int = if plus {
            1
        } else {
            0
        };
        if plus && n == 1 {
            StateModel::Failed(ErrorModel::InvalidFormat("Invalid integer format after '+'"@))
        } else {
            let negative = n - off > 0 && line[off] == 45;
            if plus && negative {
                StateModel::Failed(
                    ErrorModel::InvalidFormat("Cannot have both '+' and '-' signs in integer"@),
                )
            } else {
                let start = off + if negative {
                    1int
                } else {
                    0int
                };
                if start >= n && (negative || plus) {
                    StateModel::Failed(
                        ErrorModel::InvalidFormat("Invalid integer format after sign"@),
                    )
                } else if n - off <= 19 {
                    match scan_i64(line, start, 0i64) {
                        DigitScan::BadChar => StateModel::Failed(
                            ErrorModel::InvalidFormat("Invalid character in integer"@),
                        ),
                        DigitScan::TooBig => StateModel::Failed(ErrorModel::Overflow),
                        DigitScan::Num(v) => StateModel::Complete(
                            Some((
                                ValueModel::Integer(
                                    if negative {
                                        ((-(v as int)) as i64)
                                    } else {
                                        v
                                    },
                                ),
                                next,
                            )),
                        ),
                    }
                } else {
                    let body = line.subrange(off, n);
                    if is_signed_digits(body) {
                        match spec_parse_signed(body) {
                            Some(v) => StateModel::Complete(
                                Some((ValueModel::Integer(v), next)),
                            ),
                            None => StateModel::Failed(ErrorModel::Overflow),
                        }
                    } else {
                        StateModel::Failed(
                            ErrorModel::InvalidFormat("Invalid character in integer"@),
                        )
                    }
                }
            }
        }
    }
}

/// The integer step: read the line, then judge it.
pub open spec fn spec_handle_integer(buf: Seq<u8>, pos: int, allow_plus: bool) -> StateModel {
    match spec_find_crlf(buf, pos) {
        Some(end) => spec_integer_line(buf.subrange(pos, end), end + 2, allow_plus),
        None => StateModel::Failed(ErrorModel::UnexpectedEof),
    }
}

/// One dispatch of the machine: the successor state, and the stack, which
/// only the aggregate-opening step extends.
pub open spec fn spec_dispatch(
    buf: Seq<u8>,
    max_length: int,
    allow_plus: bool,
    st: StateModel,
    stack: Seq<FrameModel>,
) -> (StateModel, Seq<FrameModel>) {
    match st {
        StateModel::Index { pos } => (spec_handle_index(buf, pos), stack),
        StateModel::ReadingLength { pos, value, negative, type_char } => (
            spec_handle_length(buf, max_length, pos, value, negative, type_char),
            stack,
        ),
        StateModel::ReadingBulkString { start_pos, remaining } => (
            spec_handle_bulk(buf, max_length, start_pos, remaining),
            stack,
        ),
        StateModel::ReadingSimpleString { pos } => (spec_handle_simple(buf, pos), stack),
        StateModel::ReadingError { pos } => (spec_handle_error_line(buf, pos), stack),
        StateModel::ReadingInteger { pos } => (spec_handle_integer(buf, pos, allow_plus), stack),
        StateModel::ReadingArray { pos, total, current, elements, type_char } => {
            if current >= total {
                (StateModel::Index { pos }, stack)
            } else {
                (
                    StateModel::Index { pos },
                    stack.push(FrameModel { type_char, total, elements }),
                )
            }
        },
        StateModel::Failed(e) => (StateModel::Failed(e), stack),
        StateModel::Complete(c) => (StateModel::Complete(c), stack),
    }
}

/// What one call of `try_parse` produces: its result and the state and
/// stack it leaves behind.
pub struct RunResult {
    pub result: Result<Option<ValueModel>, ErrorModel>,
    pub state: StateModel,
    pub stack: Seq<FrameModel>,
}

/// The machine interpreter. Each unit of fuel admits one dispatch; with
/// the fuel spent the run stops with the iteration-ceiling error. A
/// completed child value folds into the innermost open aggregate, and a
/// filled aggregate either folds further or, with the stack empty, is the
/// call's result. Failures leave state and stack exactly as they stood.
pub open spec fn spec_run(
    buf: Seq<u8>,
    max_length: int,
    max_depth: int,
    allow_plus: bool,
    st: StateModel,
    stack: Seq<FrameModel>,
    fuel: nat,
) -> RunResult
    decreases fuel,
{
    if fuel == 0 {
        RunResult {
            result: Err(ErrorModel::InvalidFormat("Maximum parsing iterations exceeded"@)),
            state: st,
            stack,
        }
    } else if stack.len() > max_depth {
        RunResult { result: Err(ErrorModel::InvalidDepth), state: st, stack }
    } else {
        let step = spec_dispatch(buf, max_length, allow_plus, st, stack);
        match step.0 {
            StateModel::Complete(Some((v, pos))) => {
                if step.1.len() > 0 {
                    let top = step.1.last();
                    let elems2 = top.elements.push(v);
                    if elems2.len() < top.total {
                        spec_run(
                            buf,
                            max_length,
                            max_depth,
                            allow_plus,
                            StateModel::Index { pos },
                            step.1.update(
                                step.1.len() - 1,
                                FrameModel {
                                    type_char: top.type_char,
                                    total: top.total,
                                    elements: elems2,
                                },
                            ),
                            (fuel - 1) as nat,
                        )
                    } else {
                        let agg = spec_build_aggregate(top.type_char, elems2);
                        let stack2 = step.1.drop_last();
                        if stack2.len() == 0 {
                            RunResult {
                                result: Ok(Some(agg)),
                                state: StateModel::Index { pos },
                                stack: stack2,
                            }
                        } else {
                            spec_run(
                                buf,
                                max_length,
                                max_depth,
                                allow_plus,
                                StateModel::Complete(Some((agg, pos))),
                                stack2,
                                (fuel - 1) as nat,
                            )
                        }
                    }
                } else {
                    RunResult {
                        result: Ok(Some(v)),
                        state: StateModel::Index { pos },
                        stack: step.1,
                    }
                }
            },
            StateModel::Complete(None) => {
                if step.1.len() == 0 {
                    RunResult { result: Ok(None), state: StateModel::Index { pos: 0 }, stack: step.1 }
                } else {
                    RunResult {
                        result: Err(
                            ErrorModel::InvalidFormat(
                                "Unexpected None completion in nested structure"@,
                            ),
                        ),
                        state: st,
                        stack: step.1,
                    }
                }
            },
            StateModel::Failed(e) => RunResult { result: Err(e), state: st, stack: step.1 },
            _ => spec_run(
                buf,
                max_length,
                max_depth,
                allow_plus,
                step.0,
                step.1,
                (fuel - 1) as nat,
            ),
        }
    }
}


/// Builds an `InvalidFormat` state carrying `msg`.
fn fail_format(msg: &str) -> (r: ParseState)
    ensures
        smodel(r) == StateModel::Failed(ErrorModel::InvalidFormat(msg@)),
{
    ParseState::Error(ParseError::InvalidFormat(msg.to_owned()))
}

/// The boundary dispatch, mirrored by `spec_handle_index`.
fn handle_index(buf: &bytes::BytesMut, index: usize) -> (r: ParseState)
    ensures
        smodel(r) == spec_handle_index(bytes_view(*buf), index as int),
{
    let ghost s = bytes_view(*buf);
    let n = buf_len(buf);
    if index >= n {
        return ParseState::Error(ParseError::UnexpectedEof);
    }
    let b = buf_byte(buf, index);
    if b == 43 {
        ParseState::ReadingSimpleString { pos: index + 1 }
    } else if b == 45 {
        ParseState::ReadingError { pos: index + 1 }
    } else if b == 58 {
        ParseState::ReadingInteger { pos: index + 1 }
    } else if b == 36 || b == 42 || b == 37 || b == 126 || b == 62 {
        ParseState::ReadingLength { pos: index + 1, value: 0, negative: false, type_char: b }
    } else if b == 95 {
        if n - index >= 3 && buf_byte(buf, index + 1) == 13 && buf_byte(buf, index + 2) == 10 {
            ParseState::Complete(Some((RespValue::Null, index + 3)))
        } else {
            ParseState::Error(ParseError::UnexpectedEof)
        }
    } else if b == 35 {
        if n - index >= 3 && buf_byte(buf, index + 2) == 13 && n - index >= 4 && buf_byte(
            buf,
            index + 3,
        ) == 10 {
            let middle = buf_byte(buf, index + 1);
            if middle == 116 {
                ParseState::Complete(Some((RespValue::Boolean(true), index + 4)))
            } else if middle == 102 {
                ParseState::Complete(Some((RespValue::Boolean(false), index + 4)))
            } else {
                fail_format("Invalid boolean value")
            }
        } else {
            ParseState::Error(ParseError::UnexpectedEof)
        }
    } else if b == 44 {
        match find_crlf(buf, index + 1) {
            Some(end) => {
                let line = buf_slice(buf, index + 1, end);
                if !validate_utf8(line) {
                    ParseState::Error(ParseError::InvalidUtf8)
                } else if check_double(line) {
                    ParseState::Complete(
                        Some((RespValue::Double(vstd::slice::slice_to_vec(line)), end + 2)),
                    )
                } else {
                    fail_format("Invalid double value")
                }
            },
            None => ParseState::Error(ParseError::UnexpectedEof),
        }
    } else if b == 40 {
        match find_crlf(buf, index + 1) {
            Some(end) => {
                let line = buf_slice(buf, index + 1, end);
                if !check_big_number(line) {
                    fail_format("Invalid big number format")
                } else {
                    ParseState::Complete(
                        Some((RespValue::BigNumber(vstd::slice::slice_to_vec(line)), end + 2)),
                    )
                }
            },
            None => ParseState::Error(ParseError::UnexpectedEof),
        }
    } else if b == 33 {
        match find_crlf(buf, index + 1) {
            Some(end) => {
                let line = buf_slice(buf, index + 1, end);
                if line.len() == 2 && line[0] == 45 && line[1] == 49 {
                    ParseState::Complete(Some((RespValue::BulkError(None), end + 2)))
                } else if !validate_utf8(line) {
                    ParseState::Error(ParseError::InvalidUtf8)
                } else {
                    ParseState::Complete(
                        Some((
                            RespValue::BulkError(Some(vstd::slice::slice_to_vec(line))),
                            end + 2,
                        )),
                    )
                }
            },
            None => ParseState::Error(ParseError::UnexpectedEof),
        }
    } else if b == 61 {
        match find_crlf(buf, index + 1) {
            Some(end) => {
                let line = buf_slice(buf, index + 1, end);
                if line.len() == 2 && line[0] == 45 && line[1] == 49 {
                    ParseState::Complete(Some((RespValue::VerbatimString(None), end + 2)))
                } else if !validate_utf8(line) {
                    ParseState::Error(ParseError::InvalidUtf8)
                } else {
                    ParseState::Complete(
                        Some((
                            RespValue::VerbatimString(Some(vstd::slice::slice_to_vec(line))),
                            end + 2,
                        )),
                    )
                }
            },
            None => ParseState::Error(ParseError::UnexpectedEof),
        }
    } else if b == 13 {
        if n - index < 2 {
            ParseState::Error(ParseError::UnexpectedEof)
        } else if buf_byte(buf, index + 1) == 10 {
            ParseState::Index { pos: index + 2 }
        } else {
            fail_format("Expected \\n after \\r")
        }
    } else {
        fail_format("Invalid type marker")
    }
}

/// The length-prefix step, mirrored by `spec_handle_length`.
fn handle_length(
    buf: &bytes::BytesMut,
    max_length: usize,
    pos: usize,
    value: i64,
    negative: bool,
    type_char: u8,
) -> (r: ParseState)
    ensures
        smodel(r) == spec_handle_length(
            bytes_view(*buf),
            max_length as int,
            pos as int,
            value,
            negative,
            type_char,
        ),
{
    let n = buf_len(buf);
    if pos >= n {
        return ParseState::Error(ParseError::UnexpectedEof);
    }
    let b = buf_byte(buf, pos);
    if 48 <= b && b <= 57 {
        let d: i64 = (b - 48) as i64;
        let stepped: Option<i64> = match value.checked_mul(10) {
            Some(v10) => if negative {
                v10.checked_sub(d)
            } else {
                v10.checked_add(d)
            },
            None => None,
        };
        match stepped {
            Some(nv) => ParseState::ReadingLength { pos: pos + 1, value: nv, negative, type_char },
            None => ParseState::Error(ParseError::Overflow),
        }
    } else if b == 45 {
        ParseState::ReadingLength { pos: pos + 1, value, negative: true, type_char }
    } else if b == 13 {
        if n - pos < 2 {
            ParseState::Error(ParseError::UnexpectedEof)
        } else if buf_byte(buf, pos + 1) != 10 {
            fail_format("Expected \\n after \\r")
        } else {
            let next = pos + 2;
            if type_char == 36 {
                if value < 0 {
                    ParseState::Complete(Some((RespValue::BulkString(None), next)))
                } else if value == 0 {
                    if n - next >= 2 && buf_byte(buf, next) == 13 && buf_byte(buf, next + 1)
                        == 10 {
                        ParseState::Complete(
                            Some((RespValue::BulkString(Some(Vec::new())), next + 2)),
                        )
                    } else {
                        ParseState::Error(ParseError::UnexpectedEof)
                    }
                } else if (value as u64) >= (max_length as u64) {
                    ParseState::Error(ParseError::InvalidLength)
                } else {
                    ParseState::ReadingBulkString { start_pos: next, remaining: value as usize }
                }
            } else if type_char == 42 || type_char == 37 || type_char == 126 || type_char == 62 {
                if value < 0 {
                    let null_value = if type_char == 37 {
                        RespValue::MapVal(None)
                    } else if type_char == 126 {
                        RespValue::SetVal(None)
                    } else if type_char == 62 {
                        RespValue::Push(None)
                    } else {
                        RespValue::Array(None)
                    };
                    ParseState::Complete(Some((null_value, next)))
                } else if value == 0 {
                    let empty_value = if type_char == 37 {
                        RespValue::MapVal(Some(Vec::new()))
                    } else if type_char == 126 {
                        RespValue::SetVal(Some(Vec::new()))
                    } else if type_char == 62 {
                        RespValue::Push(Some(Vec::new()))
                    } else {
                        RespValue::Array(Some(Vec::new()))
                    };
                    proof {
                        crate::resp::lemma_vmodel_elems(Seq::<RespValue>::empty(), 0);
                        crate::resp::lemma_vmodel_pairs(Seq::<(RespValue, RespValue)>::empty(), 0);
                        assert(vmodel_elems(Seq::<RespValue>::empty(), 0) =~= Seq::<
                            ValueModel,
                        >::empty());
                        assert(crate::resp::vmodel_pairs(
                            Seq::<(RespValue, RespValue)>::empty(),
                            0,
                        ) =~= Seq::<(ValueModel, ValueModel)>::empty());
                    }
                    ParseState::Complete(Some((empty_value, next)))
                } else {
                    let total: u64 = if type_char == 37 {
                        (value as u64) * 2
                    } else {
                        value as u64
                    };
                    let st = ParseState::ReadingArray {
                        pos: next,
                        total,
                        current: 0,
                        elements: Vec::new(),
                        original_type_char: type_char,
                    };
                    proof {
                        assert(vmodel_elems(Seq::<RespValue>::empty(), 0) =~= Seq::<
                            ValueModel,
                        >::empty());
                    }
                    st
                }
            } else if type_char == 58 {
                ParseState::Complete(Some((RespValue::Integer(value), next)))
            } else {
                fail_format("Invalid length type")
            }
        }
    } else {
        fail_format("Invalid character in length")
    }
}

/// The bulk-payload step, mirrored by `spec_handle_bulk`.
fn handle_bulk_string(
    buf: &bytes::BytesMut,
    max_length: usize,
    start_pos: usize,
    remaining: usize,
) -> (r: ParseState)
    ensures
        smodel(r) == spec_handle_bulk(
            bytes_view(*buf),
            max_length as int,
            start_pos as int,
            remaining as int,
        ),
{
    if remaining == 0 {
        return fail_format("Unexpected zero remaining in handle_bulk_string");
    }
    if remaining >= max_length {
        return ParseState::Error(ParseError::InvalidLength);
    }
    let n = buf_len(buf);
    if n < start_pos {
        return ParseState::Error(ParseError::NotEnoughData);
    }
    let avail = n - start_pos;
    if avail < remaining {
        return ParseState::Error(ParseError::NotEnoughData);
    }
    if avail - remaining < 2 {
        return ParseState::Error(ParseError::NotEnoughData);
    }
    if buf_byte(buf, start_pos + remaining) != 13 || buf_byte(buf, start_pos + remaining + 1)
        != 10 {
        return fail_format("Missing CRLF terminator");
    }
    let payload = buf_slice(buf, start_pos, start_pos + remaining);
    if !validate_utf8(payload) {
        return ParseState::Error(ParseError::InvalidUtf8);
    }
    ParseState::Complete(
        Some((
            RespValue::BulkString(Some(vstd::slice::slice_to_vec(payload))),
            start_pos + remaining + 2,
        )),
    )
}

/// The simple-string step, mirrored by `spec_handle_simple`.
fn handle_simple_string(buf: &bytes::BytesMut, pos: usize) -> (r: ParseState)
    ensures
        smodel(r) == spec_handle_simple(bytes_view(*buf), pos as int),
{
    let n = buf_len(buf);
    if pos > n {
        return ParseState::Error(ParseError::UnexpectedEof);
    }
    match find_crlf(buf, pos) {
        Some(end) => {
            let line = buf_slice(buf, pos, end);
            if contains_cr_or_lf(line) {
                fail_format("Simple string cannot contain CR or LF")
            } else {
                ParseState::Complete(
                    Some((RespValue::SimpleString(vstd::slice::slice_to_vec(line)), end + 2)),
                )
            }
        },
        None => ParseState::Error(ParseError::UnexpectedEof),
    }
}

/// The error-line step, mirrored by `spec_handle_error_line`.
fn handle_error(buf: &bytes::BytesMut, pos: usize) -> (r: ParseState)
    ensures
        smodel(r) == spec_handle_error_line(bytes_view(*buf), pos as int),
{
    let n = buf_len(buf);
    if pos > n {
        return ParseState::Error(ParseError::UnexpectedEof);
    }
    match find_crlf(buf, pos) {
        Some(end) => {
            let line = buf_slice(buf, pos, end);
            if contains_cr_or_lf(line) {
                fail_format("Error cannot contain CR or LF")
            } else {
                ParseState::Complete(
                    Some((RespValue::Error(vstd::slice::slice_to_vec(line)), end + 2)),
                )
            }
        },
        None => ParseState::Error(ParseError::UnexpectedEof),
    }
}

/// Judges one integer line, mirrored by `spec_integer_line`.
fn integer_line_outcome(line: &[u8], next: usize, allow_plus: bool) -> (r: ParseState)
    ensures
        smodel(r) == spec_integer_line(line@, next as int, allow_plus),
{
    let n = line.len();
    let plus = n > 0 && line[0] == 43;
    if plus && !allow_plus {
        return fail_format("Explicit '+' sign in integer not supported");
    }
    let off: usize = if plus {
        1
    } else {
        0
    };
    if plus && n == 1 {
        return fail_format("Invalid integer format after '+'");
    }
    let negative = n - off > 0 && line[off] == 45;
    if plus && negative {
        return fail_format("Cannot have both '+' and '-' signs in integer");
    }
    let start: usize = off + if negative {
        1
    } else {
        0
    };
    if start >= n && (negative || plus) {
        return fail_format("Invalid integer format after sign");
    }
    if n - off <= 19 {
        match scan_digits_i64(line, start) {
            DigitScan::BadChar => fail_format("Invalid character in integer"),
            DigitScan::TooBig => ParseState::Error(ParseError::Overflow),
            DigitScan::Num(v) => {
                proof {
                    crate::numbers::lemma_scan_nonneg(line@, start as int, 0i64);
                }
                let signed = if negative {
                    -v
                } else {
                    v
                };
                ParseState::Complete(Some((RespValue::Integer(signed), next)))
            },
        }
    } else {
        let body = vstd::slice::slice_subrange(line, off, n);
        let ghost bodyv = line@.subrange(off as int, n as int);
        let well_formed = if body.len() >= 1 && body[0] == 45 {
            body.len() >= 2 && check_all_digits(body, 1)
        } else {
            body.len() >= 1 && check_all_digits(body, 0)
        };
        if well_formed {
            match parse_long_i64(body) {
                Some(v) => ParseState::Complete(Some((RespValue::Integer(v), next))),
                None => ParseState::Error(ParseError::Overflow),
            }
        } else {
            fail_format("Invalid character in integer")
        }
    }
}

/// The integer step, mirrored by `spec_handle_integer`.
fn handle_integer(buf: &bytes::BytesMut, pos: usize, allow_plus: bool) -> (r: ParseState)
    ensures
        smodel(r) == spec_handle_integer(bytes_view(*buf), pos as int, allow_plus),
{
    let n = buf_len(buf);
    if pos > n {
        return ParseState::Error(ParseError::UnexpectedEof);
    }
    match find_crlf(buf, pos) {
        Some(end) => {
            let line = buf_slice(buf, pos, end);
            integer_line_outcome(line, end + 2, allow_plus)
        },
        None => ParseState::Error(ParseError::UnexpectedEof),
    }
}


/// Builds the finished aggregate for `type_char` from its children,
/// mirrored by `spec_build_aggregate`. Map children pair up in order.
fn build_aggregate(type_char: u8, elements: Vec<RespValue>) -> (r: RespValue)
    ensures
        vmodel(r) == spec_build_aggregate(type_char, vmodel_elems(elements@, 0)),
{
    let ghost orig = elements@;
    let ghost ms = vmodel_elems(orig, 0);
    proof {
        crate::resp::lemma_vmodel_elems(orig, 0);
        assert forall|j: int| 0 <= j < orig.len() implies #[trigger] ms[j] == vmodel(orig[j]) by {
            assert(vmodel_elems(orig, 0)[j - 0] == vmodel(orig[j]));
        }
    }
    if type_char == 37 {
        let mut elems = elements;
        let mut pairs: Vec<(RespValue, RespValue)> = Vec::new();
        while elems.len() >= 2
            invariant
                2 * pairs@.len() <= orig.len(),
                elems@ == orig.subrange(2 * pairs@.len() as int, orig.len() as int),
                forall|i: int|
                    0 <= i < pairs@.len() ==> #[trigger] pairs@[i] == (
                    orig[2 * i],
                    orig[2 * i + 1],
                    ),
            decreases elems@.len(),
        {
            let ghost p = pairs@.len() as int;
            let k = elems.remove(0);
            let v = elems.remove(0);
            pairs.push((k, v));
            proof {
                assert(k == orig[2 * p]);
                assert(v == orig[2 * p + 1]);
                assert(elems@ =~= orig.subrange(2 * pairs@.len() as int, orig.len() as int));
            }
        }
        let r = RespValue::MapVal(Some(pairs));
        proof {
            crate::resp::lemma_vmodel_pairs(pairs@, 0);
            let target = Seq::new((ms.len() / 2) as nat, |i: int| (ms[2 * i], ms[2 * i + 1]));
            assert(pairs@.len() == orig.len() / 2);
            assert forall|i: int| 0 <= i < pairs@.len() implies crate::resp::vmodel_pairs(
                pairs@,
                0,
            )[i] == target[i] by {
                assert(crate::resp::vmodel_pairs(pairs@, 0)[i - 0] == (
                    vmodel(pairs@[i].0),
                    vmodel(pairs@[i].1),
                ));
                assert(pairs@[i] == (orig[2 * i], orig[2 * i + 1]));
                assert(ms[2 * i] == vmodel(orig[2 * i]));
                assert(ms[2 * i + 1] == vmodel(orig[2 * i + 1]));
            }
            assert(crate::resp::vmodel_pairs(pairs@, 0) =~= target);
        }
        r
    } else if type_char == 126 {
        RespValue::SetVal(Some(elements))
    } else if type_char == 62 {
        RespValue::Push(Some(elements))
    } else {
        RespValue::Array(Some(elements))
    }
}

/// The model of a parse result.
pub open spec fn rmodel(r: Result<Option<RespValue>, ParseError>) -> Result<
    Option<ValueModel>,
    ErrorModel,
> {
    match r {
        Ok(Some(v)) => Ok(Some(vmodel(v))),
        Ok(None) => Ok(None),
        Err(e) => Err(emodel(e)),
    }
}

/// The effect of feeding bytes: when the machine rests at a value
/// boundary past consumed input, the consumed prefix is discarded and the
/// cursor reset; either way the new bytes are appended and nothing else
/// changes.
pub open spec fn spec_read_effect(old_bytes: Seq<u8>, st: StateModel, added: Seq<u8>) -> (
    Seq<u8>,
    StateModel,
) {
    match st {
        StateModel::Index { pos } => if 0 < pos <= old_bytes.len() {
            (old_bytes.skip(pos) + added, StateModel::Index { pos: 0 })
        } else {
            (old_bytes + added, st)
        },
        _ => (old_bytes + added, st),
    }
}

/// A streaming RESP parser: an internal buffer of unconsumed bytes, the
/// machine state, the stack of partially read aggregates, and the
/// configured limits.
#[derive(Debug)]
pub struct Parser {
    /// Bytes fed but not yet consumed by completed values.
    pub buffer: bytes::BytesMut,
    /// Where the machine stands.
    pub state: ParseState,
    /// Bulk-string payloads must stay below this many bytes.
    pub max_length: usize,
    /// Aggregates may nest at most this deep.
    pub max_depth: usize,
    /// One frame per open aggregate, innermost last.
    pub nested_stack: Vec<Frame>,
    /// Whether `:+123\r\n` is accepted; off by default.
    pub allow_explicit_positive_sign: bool,
}

impl Parser {
    /// A fresh parser with the given depth and length limits: empty
    /// buffer, cursor at the start, no open aggregates.
    pub fn new(max_depth: usize, max_length: usize) -> (p: Parser)
        ensures
            bytes_view(p.buffer) == Seq::<u8>::empty(),
            smodel(p.state) == (StateModel::Index { pos: 0 }),
            stack_model(p.nested_stack@) == Seq::<FrameModel>::empty(),
            p.max_depth == max_depth,
            p.max_length == max_length,
            p.allow_explicit_positive_sign == false,
    {
        let p = Parser {
            buffer: buf_with_capacity(DEFAULT_BUFFER_INIT_SIZE),
            state: ParseState::Index { pos: 0 },
            max_length,
            max_depth,
            nested_stack: Vec::new(),
            allow_explicit_positive_sign: false,
        };
        proof {
            assert(stack_model(p.nested_stack@) =~= Seq::<FrameModel>::empty());
        }
        p
    }

    /// Turns acceptance of an explicit `+` sign on integers on or off.
    pub fn set_allow_explicit_positive_sign(&mut self, allow: bool)
        ensures
            final(self).allow_explicit_positive_sign == allow,
            final(self).buffer == old(self).buffer,
            final(self).state == old(self).state,
            final(self).max_length == old(self).max_length,
            final(self).max_depth == old(self).max_depth,
            final(self).nested_stack == old(self).nested_stack,
    {
        self.allow_explicit_positive_sign = allow;
    }

    /// Appends bytes to the internal buffer, never losing unconsumed
    /// input. When the machine rests at a value boundary, the consumed
    /// prefix is dropped first to bound memory under steady pipelining.
    pub fn read_buf(&mut self, buf: &[u8])
        ensures
            ({
                let effect = spec_read_effect(
                    bytes_view(old(self).buffer),
                    smodel(old(self).state),
                    buf@,
                );
                bytes_view(final(self).buffer) == effect.0 && smodel(final(self).state)
                    == effect.1
            }),
            final(self).max_length == old(self).max_length,
            final(self).max_depth == old(self).max_depth,
            final(self).allow_explicit_positive_sign == old(
                self,
            ).allow_explicit_positive_sign,
            final(self).nested_stack == old(self).nested_stack,
    {
        let compact_at: Option<usize> = match &self.state {
            ParseState::Index { pos } => if *pos > 0 {
                Some(*pos)
            } else {
                None
            },
            _ => None,
        };
        match compact_at {
            Some(pos) => {
                let n = buf_len(&self.buffer);
                if pos <= n {
                    buf_drop_prefix(&mut self.buffer, pos);
                    self.state = ParseState::Index { pos: 0 };
                }
            },
            None => {},
        }
        buf_extend(&mut self.buffer, buf);
    }

    /// The internal buffer, for inspection.
    pub fn buffer(&self) -> (r: &bytes::BytesMut)
        ensures
            bytes_view(*r) == bytes_view(self.buffer),
    {
        &self.buffer
    }

    /// Resets the machine to a value boundary at `pos` and drops every
    /// open aggregate. The buffer itself is kept.
    pub fn clear_buffer(&mut self, pos: usize)
        ensures
            smodel(final(self).state) == (StateModel::Index { pos: pos as int }),
            stack_model(final(self).nested_stack@) == Seq::<FrameModel>::empty(),
            final(self).buffer == old(self).buffer,
            final(self).max_length == old(self).max_length,
            final(self).max_depth == old(self).max_depth,
            final(self).allow_explicit_positive_sign == old(
                self,
            ).allow_explicit_positive_sign,
    {
        self.state = ParseState::Index { pos };
        self.nested_stack.clear();
        proof {
            assert(stack_model(self.nested_stack@) =~= Seq::<FrameModel>::empty());
        }
    }

    /// Attempts to decode the next complete value. The call returns, and
    /// leaves the parser, exactly as the machine interpreter `spec_run`
    /// prescribes for the bytes, state and stack at entry, with
    /// `MAX_ITERATIONS` units of fuel: one decoded value per successful
    /// call, a recoverable error when input runs out, a fatal error on a
    /// grammar violation, and state and stack kept for resumption.
    #[verifier::rlimit(100)]
    pub fn try_parse(&mut self) -> (r: Result<Option<RespValue>, ParseError>)
        ensures
            ({
                let run = spec_run(
                    bytes_view(old(self).buffer),
                    old(self).max_length as int,
                    old(self).max_depth as int,
                    old(self).allow_explicit_positive_sign,
                    smodel(old(self).state),
                    stack_model(old(self).nested_stack@),
                    MAX_ITERATIONS as nat,
                );
                &&& bytes_view(final(self).buffer) == bytes_view(old(self).buffer)
                &&& final(self).max_length == old(self).max_length
                &&& final(self).max_depth == old(self).max_depth
                &&& final(self).allow_explicit_positive_sign == old(
                    self,
                ).allow_explicit_positive_sign
                &&& smodel(final(self).state) == run.state
                &&& stack_model(final(self).nested_stack@) == run.stack
                &&& rmodel(r) == run.result
            }),
    {
        let ghost buf0 = bytes_view(self.buffer);
        let ghost ml: int = self.max_length as int;
        let ghost md: int = self.max_depth as int;
        let ghost ap = self.allow_explicit_positive_sign;
        let ghost st0 = smodel(self.state);
        let ghost sk0 = stack_model(self.nested_stack@);
        let ghost full_run = spec_run(buf0, ml, md, ap, st0, sk0, MAX_ITERATIONS as nat);
        let mut iterations: usize = 0;
        loop
            invariant
                iterations <= MAX_ITERATIONS,
                bytes_view(self.buffer) == buf0,
                self.max_length as int == ml,
                self.max_depth as int == md,
                self.allow_explicit_positive_sign == ap,
                buf0 == bytes_view(old(self).buffer),
                ml == old(self).max_length as int,
                md == old(self).max_depth as int,
                ap == old(self).allow_explicit_positive_sign,
                full_run == spec_run(buf0, ml, md, ap, st0, sk0, MAX_ITERATIONS as nat),
                st0 == smodel(old(self).state),
                sk0 == stack_model(old(self).nested_stack@),
                full_run == spec_run(
                    buf0,
                    ml,
                    md,
                    ap,
                    smodel(self.state),
                    stack_model(self.nested_stack@),
                    (MAX_ITERATIONS - iterations) as nat,
                ),
            decreases MAX_ITERATIONS - iterations,
        {
            let ghost pre_st = smodel(self.state);
            let ghost pre_sk = stack_model(self.nested_stack@);
            let ghost fuel: nat = (MAX_ITERATIONS - iterations) as nat;
            iterations = iterations + 1;
            if iterations > MAX_ITERATIONS {
                return Err(
                    ParseError::InvalidFormat("Maximum parsing iterations exceeded".to_owned()),
                );
            }
            if self.nested_stack.len() > self.max_depth {
                return Err(ParseError::InvalidDepth);
            }
            proof {
                assert(stack_model(self.nested_stack@).len() == self.nested_stack@.len());
            }
            let ghost dispatched = spec_dispatch(buf0, ml, ap, pre_st, pre_sk);
            let mut cur = ParseState::Index { pos: 0 };
            core::mem::swap(&mut cur, &mut self.state);
            let next: ParseState = match cur {
                ParseState::Index { pos } => {
                    self.state = ParseState::Index { pos };
                    handle_index(&self.buffer, pos)
                },
                ParseState::ReadingLength { pos, value, negative, type_char } => {
                    self.state = ParseState::ReadingLength { pos, value, negative, type_char };
                    handle_length(&self.buffer, self.max_length, pos, value, negative, type_char)
                },
                ParseState::ReadingBulkString { start_pos, remaining } => {
                    self.state = ParseState::ReadingBulkString { start_pos, remaining };
                    handle_bulk_string(&self.buffer, self.max_length, start_pos, remaining)
                },
                ParseState::ReadingSimpleString { pos } => {
                    self.state = ParseState::ReadingSimpleString { pos };
                    handle_simple_string(&self.buffer, pos)
                },
                ParseState::ReadingError { pos } => {
                    self.state = ParseState::ReadingError { pos };
                    handle_error(&self.buffer, pos)
                },
                ParseState::ReadingInteger { pos } => {
                    self.state = ParseState::ReadingInteger { pos };
                    handle_integer(&self.buffer, pos, self.allow_explicit_positive_sign)
                },
                ParseState::ReadingArray { pos, total, current, elements, original_type_char } => {
                    if current >= total {
                        ParseState::Index { pos }
                    } else {
                        let frame = Frame { type_char: original_type_char, total, elements };
                        self.nested_stack.push(frame);
                        proof {
                            assert(stack_model(self.nested_stack@) =~= pre_sk.push(
                                dispatched.1.last(),
                            ));
                        }
                        ParseState::Index { pos }
                    }
                },
                ParseState::Error(e) => {
                    let e2 = e.clone();
                    self.state = ParseState::Error(e2);
                    ParseState::Error(e)
                },
                ParseState::Complete(c) => ParseState::Complete(c),
            };
            proof {
                assert(smodel(next) == dispatched.0);
                assert(stack_model(self.nested_stack@) == dispatched.1);
            }
            match next {
                ParseState::Complete(Some((value, pos))) => {
                    if self.nested_stack.len() > 0 {
                        let ghost pre_pop = self.nested_stack@;
                        let top_opt = self.nested_stack.pop();
                        let mut top = match top_opt {
                            Some(t) => t,
                            None => {
                                proof {
                                    assert(false);
                                }
                                Frame { type_char: 42, total: 0, elements: Vec::new() }
                            },
                        };
                        let ghost top_model = dispatched.1.last();
                        proof {
                            assert(dispatched.1[pre_pop.len() - 1] == fmodel(
                                pre_pop[pre_pop.len() - 1],
                            ));
                            assert(fmodel(top) == top_model);
                        }
                        let ghost elems_before = top.elements@;
                        let ghost value_model = vmodel(value);
                        top.elements.push(value);
                        let ghost elems2 = top_model.elements.push(value_model);
                        proof {
                            crate::resp::lemma_vmodel_elems(elems_before, 0);
                            crate::resp::lemma_vmodel_elems_push(elems_before, value);
                            assert(top.elements@ == elems_before.push(value));
                            assert(vmodel_elems(top.elements@, 0) == elems2);
                            assert(elems2.len() == elems_before.len() + 1);
                            assert(fmodel(top) == (FrameModel {
                                type_char: top_model.type_char,
                                total: top_model.total,
                                elements: elems2,
                            }));
                        }
                        let cnt = top.elements.len();
                        if (cnt as u64) < top.total {
                            self.nested_stack.push(top);
                            self.state = ParseState::Index { pos };
                            proof {
                                let target = dispatched.1.update(
                                    dispatched.1.len() - 1,
                                    FrameModel {
                                        type_char: top_model.type_char,
                                        total: top_model.total,
                                        elements: elems2,
                                    },
                                );
                                assert forall|i: int|
                                    0 <= i < self.nested_stack@.len() implies stack_model(
                                    self.nested_stack@,
                                )[i] == target[i] by {
                                    assert(stack_model(self.nested_stack@)[i] == fmodel(
                                        self.nested_stack@[i],
                                    ));
                                    if i < self.nested_stack@.len() - 1 {
                                        assert(self.nested_stack@[i] == pre_pop[i]);
                                        assert(dispatched.1[i] == fmodel(pre_pop[i]));
                                    }
                                }
                                assert(stack_model(self.nested_stack@) =~= target);
                            }
                        } else {
                            let agg = build_aggregate(top.type_char, top.elements);
                            proof {
                                assert(vmodel(agg) == spec_build_aggregate(
                                    top_model.type_char,
                                    elems2,
                                ));
                                let target = dispatched.1.drop_last();
                                assert forall|i: int|
                                    0 <= i < self.nested_stack@.len() implies stack_model(
                                    self.nested_stack@,
                                )[i] == target[i] by {
                                    assert(stack_model(self.nested_stack@)[i] == fmodel(
                                        self.nested_stack@[i],
                                    ));
                                    assert(self.nested_stack@[i] == pre_pop[i]);
                                    assert(dispatched.1[i] == fmodel(pre_pop[i]));
                                }
                                assert(stack_model(self.nested_stack@) =~= target);
                            }
                            if self.nested_stack.len() == 0 {
                                self.state = ParseState::Index { pos };
                                return Ok(Some(agg));
                            } else {
                                self.state = ParseState::Complete(Some((agg, pos)));
                            }
                        }
                    } else {
                        self.state = ParseState::Index { pos };
                        self.nested_stack.clear();
                        proof {
                            assert(stack_model(self.nested_stack@) =~= Seq::<
                                FrameModel,
                            >::empty());
                            assert(dispatched.1 =~= Seq::<FrameModel>::empty());
                        }
                        return Ok(Some(value));
                    }
                },
                ParseState::Complete(None) => {
                    if self.nested_stack.len() == 0 {
                        self.state = ParseState::Index { pos: 0 };
                        return Ok(None);
                    } else {
                        self.state = ParseState::Complete(None);
                        return Err(
                            ParseError::InvalidFormat(
                                "Unexpected None completion in nested structure".to_owned(),
                            ),
                        );
                    }
                },
                ParseState::Error(e) => {
                    return Err(e);
                },
                other => {
                    self.state = other;
                },
            }
        }
    }
}

} // verus!



