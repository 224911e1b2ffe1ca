//! A type representing a Redis protocol frame, its wire encoding, and the
//! scanner and parser that read frames from a byte buffer.
use vstd::prelude::*;
use vstd::slice::slice_subrange;
use vstd::slice::slice_to_vec;
use vstd::utf8::{decode_utf8, encode_utf8, valid_utf8};

use crate::cursor::{
    decimal_at, get_decimal, get_line, get_u8, lemma_first_crlf, line_at, msg_bad_format, peek_u8,
    remaining_from, skip, Cursor, Decimal, CR, LF,
};
use crate::text::{concat_text, decimal, push_bytes, push_decimal, utf8_to_string};

verus! {

broadcast use Cursor::lemma_pos_nonneg;

pub const PLUS: u8 = 43;

pub const MINUS: u8 = 45;

pub const COLON: u8 = 58;

pub const DOLLAR: u8 = 36;

pub const STAR: u8 = 42;

pub const ONE: u8 = 49;

/// Why a frame could not be read.
#[derive(Debug)]
pub enum Error {
    /// Not enough data is available to parse a message
    Incomplete,
    /// Invalid message encoding
    Other(String),
}

/// Why a frame could not be scanned; unlike `Error`, a frame that starts
/// with a byte naming no frame type is reported too.
#[derive(Debug)]
pub enum ScanError {
    /// Not enough data is available to parse a message
    Incomplete,
    /// Invalid message encoding
    Other(String),
    /// A frame starts with a byte that names no frame type
    UnknownType,
}

/// A frame of the protocol.
#[derive(Debug, PartialEq, Eq)]
pub enum Frame {
    Simple(String),
    Error(String),
    Integer(u64),
    Bulk(Vec<u8>),
    Null,
    Array(Vec<Frame>),
}

/// The mathematical value of a frame.
pub enum SpecFrame {
    Simple(Seq<char>),
    Error(Seq<char>),
    Integer(u64),
    Bulk(Seq<u8>),
    Null,
    Array(Seq<SpecFrame>),
}

/// The value of a frame.
pub open spec fn frame_view(f: Frame) -> SpecFrame
    decreases f,
{
    match f {
        Frame::Simple(s) => SpecFrame::Simple(s@),
        Frame::Error(s) => SpecFrame::Error(s@),
        Frame::Integer(n) => SpecFrame::Integer(n),
        Frame::Bulk(d) => SpecFrame::Bulk(d@),
        Frame::Null => SpecFrame::Null,
        Frame::Array(v) => SpecFrame::Array(frames_view(v@)),
    }
}

/// The values of some frames.
pub open spec fn frames_view(s: Seq<Frame>) -> Seq<SpecFrame>
    decreases s,
{
    if s.len() == 0 {
        Seq::empty()
    } else {
        frames_view(s.drop_last()).push(frame_view(s.last()))
    }
}

impl View for Frame {
    type V = SpecFrame;

    open spec fn view(&self) -> SpecFrame {
        frame_view(*self)
    }
}

/// The view of a sequence of frames is the sequence of their views.
pub proof fn lemma_frames_view(s: Seq<Frame>)
    ensures
        frames_view(s).len() == s.len(),
        forall|i: int| 0 <= i < s.len() ==> #[trigger] frames_view(s)[i] == frame_view(s[i]),
    decreases s.len(),
{
    if s.len() > 0 {
        lemma_frames_view(s.drop_last());
    }
}

/// The outcome of scanning one frame, or a run of frames: where the frame
/// ends, or why there is none, with the position the cursor is left at.
pub enum Scan {
    Done(int),
    Incomplete(int),
    Invalid(int, Seq<char>),
    Unknown(int),
}

/// The error text for a number too large for a length.
pub open spec fn msg_bad_length() -> Seq<char> {
    "invalid length"@
}

/// The start of the error text for a null bulk frame whose line is not `-1`.
pub open spec fn msg_unsupported() -> Seq<char> {
    "unsupported frame type: "@
}

/// The error text for a frame whose first byte names no frame type.
pub open spec fn msg_unknown_type() -> Seq<char> {
    "protocol error; unknown frame type"@
}

/// The error text for a simple or error line that is not valid UTF-8.
pub open spec fn msg_bad_utf8() -> Seq<char> {
    "invalid utf8"@
}

/// The outcome of scanning the frame at `pos` of `buf`.
pub open spec fn check_frame(buf: Seq<u8>, pos: int) -> Scan
    decreases buf.len() - pos, 0nat, 0nat,
{
    if pos < 0 || pos >= buf.len() {
        Scan::Incomplete(pos)
    } else {
        let t = buf[pos];
        let p = pos + 1;
        proof {
            lemma_first_crlf(buf, p);
        }
        if t == PLUS || t == MINUS {
            match line_at(buf, p) {
                Some((_, end)) => Scan::Done(end),
                None => Scan::Incomplete(p),
            }
        } else if t == COLON {
            match decimal_at(buf, p) {
                Decimal::Value(_, end) => Scan::Done(end),
                Decimal::Incomplete => Scan::Incomplete(p),
                Decimal::Invalid(end) => Scan::Invalid(end, msg_bad_format()),
            }
        } else if t == DOLLAR {
            if p >= buf.len() {
                Scan::Incomplete(p)
            } else if buf[p] == MINUS {
                match line_at(buf, p) {
                    Some((line, end)) => if line == seq![MINUS, ONE] {
                        Scan::Done(end)
                    } else {
                        Scan::Invalid(end, msg_unsupported() + bytes_debug_text(line))
                    },
                    None => Scan::Incomplete(p),
                }
            } else {
                match decimal_at(buf, p) {
                    Decimal::Value(n, end) => if n > usize::MAX {
                        Scan::Invalid(end, msg_bad_length())
                    } else if n + 2 <= remaining_from(buf, end) {
                        Scan::Done(end + n + 2)
                    } else {
                        Scan::Incomplete(end)
                    },
                    Decimal::Incomplete => Scan::Incomplete(p),
                    Decimal::Invalid(end) => Scan::Invalid(end, msg_bad_format()),
                }
            }
        } else if t == STAR {
            match decimal_at(buf, p) {
                Decimal::Value(n, end) => check_items(buf, end, n as nat),
                Decimal::Incomplete => Scan::Incomplete(p),
                Decimal::Invalid(end) => Scan::Invalid(end, msg_bad_format()),
            }
        } else {
            Scan::Unknown(p)
        }
    }
}

/// The outcome of scanning `n` frames one after another from `pos`.
pub open spec fn check_items(buf: Seq<u8>, pos: int, n: nat) -> Scan
    decreases buf.len() - pos, 1nat, n,
{
    if n == 0 {
        Scan::Done(pos)
    } else if pos < 0 || pos >= buf.len() {
        Scan::Incomplete(pos)
    } else {
        match check_frame(buf, pos) {
            Scan::Done(end) => if pos < end <= buf.len() {
                check_items(buf, end, (n - 1) as nat)
            } else {
                Scan::Invalid(end, msg_bad_format())
            },
            other => other,
        }
    }
}

/// A scan that ended in a frame stays within the buffer and moves on; a
/// run of `n` frames takes at least `n` bytes.
pub proof fn lemma_check_bounds(buf: Seq<u8>, pos: int)
    requires
        0 <= pos,
    ensures
        check_frame(buf, pos) matches Scan::Done(e) ==> pos < e <= buf.len(),
    decreases buf.len() - pos, 0nat, 0nat,
{
    if pos < buf.len() {
        let p = pos + 1;
        lemma_first_crlf(buf, p);
        if buf[pos] == STAR {
            if let Decimal::Value(n, end) = decimal_at(buf, p) {
                lemma_check_items_bounds(buf, end, n as nat);
            }
        }
    }
}

/// As `lemma_check_bounds`, for a run of `n` frames.
pub proof fn lemma_check_items_bounds(buf: Seq<u8>, pos: int, n: nat)
    requires
        0 <= pos <= buf.len(),
    ensures
        check_items(buf, pos, n) matches Scan::Done(e) ==> pos + n <= e <= buf.len(),
    decreases buf.len() - pos, 1nat, n,
{
    if n > 0 && pos < buf.len() {
        lemma_check_bounds(buf, pos);
        if let Scan::Done(end) = check_frame(buf, pos) {
            lemma_check_items_bounds(buf, end, (n - 1) as nat);
        }
    }
}

/// The exec result `res`, with the cursor left at `at`, is what the scan
/// outcome `s` describes.
pub open spec fn scan_agrees(s: Scan, res: Result<(), ScanError>, at: int) -> bool {
    match s {
        Scan::Done(e) => res is Ok && at == e,
        Scan::Incomplete(e) => res is Err && res->Err_0 is Incomplete && at == e,
        Scan::Invalid(e, t) => res is Err && res->Err_0 is Other && res->Err_0->Other_0@ == t
            && at == e,
        Scan::Unknown(e) => res is Err && res->Err_0 is UnknownType && at == e,
    }
}

/// As `scan_agrees`, for the errors of `check`.
pub open spec fn check_agrees(s: Scan, res: Result<(), Error>, at: int) -> bool {
    match s {
        Scan::Done(e) => res is Ok && at == e,
        Scan::Incomplete(e) => res is Err && res->Err_0 is Incomplete && at == e,
        Scan::Invalid(e, t) => res is Err && res->Err_0 is Other && res->Err_0->Other_0@ == t
            && at == e,
        Scan::Unknown(e) => res is Err && res->Err_0 is Other && res->Err_0->Other_0@
            == msg_unknown_type() && at == e,
    }
}

/// `line` is the text `-1` of a null bulk frame.
fn is_null_line(line: &[u8]) -> (b: bool)
    ensures
        b == (line@ == seq![MINUS, ONE]),
{
    let r = line.len() == 2 && line[0] == MINUS && line[1] == ONE;
    proof {
        if r {
            assert(line@ =~= seq![MINUS, ONE]);
        }
    }
    r
}

/// The text that `format!("{:?}")` writes for some bytes.
pub uninterp spec fn bytes_debug_text(b: Seq<u8>) -> Seq<char>;

/// Calls `format!("{:?}")` on a byte slice, which lists the bytes as
/// numbers in square brackets. The layout is not restated here: the result
/// is the name `bytes_debug_text` of the bytes.
#[verifier::external_body]
fn bytes_debug(line: &[u8]) -> (res: String)
    ensures
        res@ == bytes_debug_text(line@),
{
    format!("{:?}", line)
}

/// The number `n` as a `usize`, when it fits.
fn to_usize(n: u64) -> (r: Option<usize>)
    ensures
        n <= usize::MAX ==> r == Some(n as usize),
        n > usize::MAX ==> r is None,
{
    if n <= usize::MAX as u64 {
        Some(n as usize)
    } else {
        None
    }
}

/// The outcome of parsing one frame: the frame and where it ends, or why
/// there is none, with the position the cursor is left at.
///
/// `BadText(end, a, b)`: the simple or error line held in `a..b` is not
/// valid UTF-8; `end` is the position after the line.
pub enum Parsed {
    Done(SpecFrame, int),
    Incomplete(int),
    Invalid(int, Seq<char>),
    BadText(int, int, int),
    Unknown(int),
}

/// The outcome of parsing a run of frames.
pub enum ParsedItems {
    Done(Seq<SpecFrame>, int),
    Incomplete(int),
    Invalid(int, Seq<char>),
    BadText(int, int, int),
    Unknown(int),
}

/// The text of a simple or error line: the characters that the line encodes
/// in UTF-8, if it is valid UTF-8.
pub open spec fn line_text(line: Seq<u8>) -> Option<Seq<char>> {
    if valid_utf8(line) {
        Some(decode_utf8(line))
    } else {
        None
    }
}

/// The outcome of parsing the frame at `pos` of `buf`.
pub open spec fn parse_frame_at(buf: Seq<u8>, pos: int) -> Parsed
    decreases buf.len() - pos, 0nat, 0nat,
{
    if pos < 0 || pos >= buf.len() {
        Parsed::Incomplete(pos)
    } else {
        let t = buf[pos];
        let p = pos + 1;
        proof {
            lemma_first_crlf(buf, p);
        }
        if t == PLUS || t == MINUS {
            match line_at(buf, p) {
                Some((line, end)) => match line_text(line) {
                    Some(text) => if t == PLUS {
                        Parsed::Done(SpecFrame::Simple(text), end)
                    } else {
                        Parsed::Done(SpecFrame::Error(text), end)
                    },
                    None => Parsed::BadText(end, p, end - 2),
                },
                None => Parsed::Incomplete(p),
            }
        } else if t == COLON {
            match decimal_at(buf, p) {
                Decimal::Value(v, end) => Parsed::Done(SpecFrame::Integer(v), end),
                Decimal::Incomplete => Parsed::Incomplete(p),
                Decimal::Invalid(end) => Parsed::Invalid(end, msg_bad_format()),
            }
        } else if t == DOLLAR {
            if p >= buf.len() {
                Parsed::Incomplete(p)
            } else if buf[p] == MINUS {
                match line_at(buf, p) {
                    Some((line, end)) => if line == seq![MINUS, ONE] {
                        Parsed::Done(SpecFrame::Null, end)
                    } else {
                        Parsed::Invalid(end, msg_bad_format())
                    },
                    None => Parsed::Incomplete(p),
                }
            } else {
                match decimal_at(buf, p) {
                    Decimal::Value(n, end) => if n > usize::MAX {
                        Parsed::Invalid(end, msg_bad_length())
                    } else if n + 2 <= remaining_from(buf, end) {
                        Parsed::Done(SpecFrame::Bulk(buf.subrange(end, end + n)), end + n + 2)
                    } else {
                        Parsed::Incomplete(end)
                    },
                    Decimal::Incomplete => Parsed::Incomplete(p),
                    Decimal::Invalid(end) => Parsed::Invalid(end, msg_bad_format()),
                }
            }
        } else if t == STAR {
            match decimal_at(buf, p) {
                Decimal::Value(n, end) => if n > usize::MAX {
                    Parsed::Invalid(end, msg_bad_length())
                } else {
                    items_frame(parse_items(buf, end, n as nat))
                },
                Decimal::Incomplete => Parsed::Incomplete(p),
                Decimal::Invalid(end) => Parsed::Invalid(end, msg_bad_format()),
            }
        } else {
            Parsed::Unknown(p)
        }
    }
}

/// The outcome of parsing `n` frames one after another from `pos`.
pub open spec fn parse_items(buf: Seq<u8>, pos: int, n: nat) -> ParsedItems
    decreases buf.len() - pos, 1nat, n,
{
    if n == 0 {
        ParsedItems::Done(Seq::empty(), pos)
    } else if pos < 0 || pos >= buf.len() {
        ParsedItems::Incomplete(pos)
    } else {
        match parse_frame_at(buf, pos) {
            Parsed::Done(f, end) => if pos < end <= buf.len() {
                prepend_items(seq![f], parse_items(buf, end, (n - 1) as nat))
            } else {
                ParsedItems::Invalid(end, msg_bad_format())
            },
            Parsed::Incomplete(e) => ParsedItems::Incomplete(e),
            Parsed::Invalid(e, t) => ParsedItems::Invalid(e, t),
            Parsed::BadText(e, a, b) => ParsedItems::BadText(e, a, b),
            Parsed::Unknown(e) => ParsedItems::Unknown(e),
        }
    }
}

/// `pre` followed by the frames of `r`, when `r` holds frames.
pub open spec fn prepend_items(pre: Seq<SpecFrame>, r: ParsedItems) -> ParsedItems {
    match r {
        ParsedItems::Done(rest, e) => ParsedItems::Done(pre + rest, e),
        other => other,
    }
}

/// A run of frames as one array frame.
pub open spec fn items_frame(r: ParsedItems) -> Parsed {
    match r {
        ParsedItems::Done(fs, e) => Parsed::Done(SpecFrame::Array(fs), e),
        ParsedItems::Incomplete(e) => Parsed::Incomplete(e),
        ParsedItems::Invalid(e, t) => Parsed::Invalid(e, t),
        ParsedItems::BadText(e, a, b) => Parsed::BadText(e, a, b),
        ParsedItems::Unknown(e) => Parsed::Unknown(e),
    }
}

/// A parse that ended in a frame stays within the buffer and moves on.
pub proof fn lemma_parse_bounds(buf: Seq<u8>, pos: int)
    requires
        0 <= pos,
    ensures
        parse_frame_at(buf, pos) matches Parsed::Done(_, e) ==> pos < e <= buf.len(),
    decreases buf.len() - pos, 0nat, 0nat,
{
    if pos < buf.len() {
        let p = pos + 1;
        lemma_first_crlf(buf, p);
        if buf[pos] == STAR {
            if let Decimal::Value(n, end) = decimal_at(buf, p) {
                lemma_parse_items_bounds(buf, end, n as nat);
            }
        }
    }
}

/// As `lemma_parse_bounds`, for a run of `n` frames.
pub proof fn lemma_parse_items_bounds(buf: Seq<u8>, pos: int, n: nat)
    requires
        0 <= pos <= buf.len(),
    ensures
        parse_items(buf, pos, n) matches ParsedItems::Done(_, e) ==> pos <= e <= buf.len(),
    decreases buf.len() - pos, 1nat, n,
{
    if n > 0 && pos < buf.len() {
        lemma_parse_bounds(buf, pos);
        if let Parsed::Done(_, end) = parse_frame_at(buf, pos) {
            lemma_parse_items_bounds(buf, end, (n - 1) as nat);
        }
    }
}

/// The bytes `a..b` of `buf` are the line of a simple or error frame, and
/// are not valid UTF-8.
pub open spec fn bad_text_line(buf: Seq<u8>, a: int, b: int) -> bool {
    &&& 1 <= a <= b
    &&& (buf[a - 1] == PLUS || buf[a - 1] == MINUS)
    &&& line_at(buf, a) == Some((buf.subrange(a, b), b + 2))
    &&& !valid_utf8(buf.subrange(a, b))
}

/// A frame that scans completely, from `pos` to `end`, parses and ends at
/// `end`, unless a simple or error line inside it is not valid UTF-8; then
/// parsing fails on that line.
pub open spec fn parses_as_checked(buf: Seq<u8>, pos: int, end: int, p: Parsed) -> bool {
    match p {
        Parsed::Done(_, e) => e == end,
        Parsed::BadText(_, a, b) => pos < a && b + 2 <= end && bad_text_line(buf, a, b),
        _ => false,
    }
}

/// A message that `check` accepts parses, ending where `check` ended,
/// unless one of its simple or error lines is not valid UTF-8: no other
/// failure is left once the message has been checked.
pub proof fn lemma_parse_checked(buf: Seq<u8>, pos: int)
    requires
        0 <= pos,
        buf.len() <= usize::MAX,
        check_frame(buf, pos) is Done,
    ensures
        parses_as_checked(buf, pos, check_frame(buf, pos)->Done_0, parse_frame_at(buf, pos)),
    decreases buf.len() - pos, 0nat, 0nat,
{
    let p = pos + 1;
    lemma_first_crlf(buf, p);
    if buf[pos] == STAR {
        if let Decimal::Value(n, end) = decimal_at(buf, p) {
            lemma_check_items_bounds(buf, end, n as nat);
            lemma_parse_items_checked(buf, end, n as nat);
        }
    }
}

/// As `lemma_parse_checked`, for a run of `n` frames.
pub proof fn lemma_parse_items_checked(buf: Seq<u8>, pos: int, n: nat)
    requires
        0 <= pos <= buf.len(),
        buf.len() <= usize::MAX,
        check_items(buf, pos, n) is Done,
    ensures
        match parse_items(buf, pos, n) {
            ParsedItems::Done(_, e) => check_items(buf, pos, n) == Scan::Done(e),
            ParsedItems::BadText(_, a, b) => pos < a && b + 2 <= check_items(buf, pos, n)->Done_0
                && bad_text_line(buf, a, b),
            _ => false,
        },
    decreases buf.len() - pos, 1nat, n,
{
    if n > 0 {
        lemma_check_bounds(buf, pos);
        lemma_parse_checked(buf, pos);
        if let Scan::Done(end) = check_frame(buf, pos) {
            lemma_parse_items_checked(buf, end, (n - 1) as nat);
            lemma_check_items_bounds(buf, end, (n - 1) as nat);
        }
    }
}

/// The exec result `res`, with the cursor left at `at`, is what the parse
/// outcome `p` describes.
pub open spec fn parse_agrees(p: Parsed, res: Result<Frame, Error>, at: int) -> bool {
    match p {
        Parsed::Done(f, e) => res is Ok && res->Ok_0@ == f && at == e,
        Parsed::Incomplete(e) => res is Err && res->Err_0 is Incomplete && at == e,
        Parsed::Invalid(e, t) => res is Err && res->Err_0 is Other && res->Err_0->Other_0@ == t
            && at == e,
        Parsed::BadText(e, _, _) => res is Err && res->Err_0 is Other && res->Err_0->Other_0@
            == msg_bad_utf8() && at == e,
        Parsed::Unknown(e) => res is Err && res->Err_0 is Other && res->Err_0->Other_0@
            == msg_unknown_type() && at == e,
    }
}

/// The line terminator.
pub open spec fn crlf() -> Seq<u8> {
    seq![CR, LF]
}

/// The wire encoding of a frame.
pub open spec fn encode_spec(f: SpecFrame) -> Seq<u8>
    decreases f,
{
    match f {
        SpecFrame::Simple(s) => seq![PLUS] + encode_utf8(s) + crlf(),
        SpecFrame::Error(s) => seq![MINUS] + encode_utf8(s) + crlf(),
        SpecFrame::Integer(n) => seq![COLON] + decimal(n as nat) + crlf(),
        SpecFrame::Bulk(d) => seq![DOLLAR] + decimal(d.len()) + crlf() + d + crlf(),
        SpecFrame::Null => seq![DOLLAR, MINUS, ONE, CR, LF],
        SpecFrame::Array(fs) => seq![STAR] + decimal(fs.len()) + crlf() + encode_all(fs),
    }
}

/// The encodings of `fs`, one after another.
pub open spec fn encode_all(fs: Seq<SpecFrame>) -> Seq<u8>
    decreases fs,
{
    if fs.len() == 0 {
        Seq::empty()
    } else {
        encode_spec(fs[0]) + encode_all(fs.drop_first())
    }
}

/// Encoding one more frame appends its encoding.
pub proof fn lemma_encode_all_push(fs: Seq<SpecFrame>, f: SpecFrame)
    ensures
        encode_all(fs.push(f)) == encode_all(fs) + encode_spec(f),
    decreases fs.len(),
{
    if fs.len() == 0 {
        assert(fs.push(f)[0] == f);
        assert(fs.push(f).drop_first() =~= Seq::<SpecFrame>::empty());
        assert(encode_all(Seq::<SpecFrame>::empty()) == Seq::<u8>::empty());
        assert(encode_spec(f) + Seq::<u8>::empty() =~= encode_spec(f));
        assert(encode_all(fs) == Seq::<u8>::empty());
        assert(Seq::<u8>::empty() + encode_spec(f) =~= encode_spec(f));
    } else {
        assert(fs.push(f)[0] == fs[0]);
        lemma_encode_all_push(fs.drop_first(), f);
        assert(fs.push(f).drop_first() =~= fs.drop_first().push(f));
        assert(encode_spec(fs[0]) + (encode_all(fs.drop_first()) + encode_spec(f)) =~= (
        encode_spec(fs[0]) + encode_all(fs.drop_first())) + encode_spec(f));
    }
}

/// A copy of `f`, with copies of the frames it holds.
fn clone_frame(f: &Frame) -> (res: Frame)
    ensures
        res@ == f@,
    decreases f,
{
    match f {
        Frame::Simple(s) => Frame::Simple(s.clone()),
        Frame::Error(s) => Frame::Error(s.clone()),
        Frame::Integer(n) => Frame::Integer(*n),
        Frame::Bulk(d) => Frame::Bulk(slice_to_vec(d.as_slice())),
        Frame::Null => Frame::Null,
        Frame::Array(frames) => {
            let mut out: Vec<Frame> = Vec::new();
            let ghost views = frames_view(frames@);
            proof {
                lemma_frames_view(frames@);
            }
            let mut i: usize = 0;
            while i < frames.len()
                invariant
                    i <= frames@.len(),
                    *f == Frame::Array(*frames),
                    views == frames_view(frames@),
                    views.len() == frames@.len(),
                    forall|k: int| 0 <= k < frames@.len() ==> #[trigger] views[k] == frame_view(frames@[k]),
                    frames_view(out@) == views.take(i as int),
                decreases frames@.len() - i,
            {
                proof {
                    assert((*f)->Array_0 == *frames);
                    assert(decreases_to!(*f => (*f)->Array_0));
                    assert(decreases_to!(*frames => frames@));
                    assert(decreases_to!(frames@ => frames@[i as int]));
                    assert(decreases_to!(*f => frames@[i as int]));
                }
                let c = clone_frame(&frames[i]);
                proof {
                    assert(out@.push(c).drop_last() =~= out@);
                    assert(views.take(i + 1) =~= views.take(i as int).push(views[i as int]));
                }
                out.push(c);
                i = i + 1;
            }
            proof {
                assert(views.take(i as int) =~= views);
            }
            Frame::Array(out)
        },
    }
}

impl Clone for Frame {
    /// A copy of this frame, with copies of the frames it holds.
    fn clone(&self) -> (res: Frame)
        ensures
            res@ == self@,
    {
        clone_frame(self)
    }
}

impl Frame {
    /// Scans one frame from `src`, as `check` does, but reports a frame
    /// type byte that names no frame type as an error of its own kind.
    pub fn scan(src: &mut Cursor) -> (res: Result<(), ScanError>)
        ensures
            final(src).buf() == old(src).buf(),
            scan_agrees(check_frame(old(src).buf(), old(src).pos()), res, final(src).pos()),
        decreases old(src).buf().len() - old(src).pos(),
    {
        let ghost buf = src.buf();
        let ghost pos0 = src.pos();
        let total = src.get_ref().len();
        let b = match get_u8(src) {
            Ok(b) => b,
            Err(_) => return Err(ScanError::Incomplete),
        };
        proof {
            lemma_first_crlf(buf, pos0 + 1);
        }
        if b == PLUS || b == MINUS {
            match get_line(src) {
                Ok(_) => Ok(()),
                Err(_) => Err(ScanError::Incomplete),
            }
        } else if b == COLON {
            match get_decimal(src) {
                Ok(_) => Ok(()),
                Err(Error::Incomplete) => Err(ScanError::Incomplete),
                Err(Error::Other(m)) => Err(ScanError::Other(m)),
            }
        } else if b == DOLLAR {
            let next = match peek_u8(src) {
                Ok(c) => c,
                Err(_) => return Err(ScanError::Incomplete),
            };
            if next == MINUS {
                let line = match get_line(src) {
                    Ok(l) => l,
                    Err(_) => return Err(ScanError::Incomplete),
                };
                if !is_null_line(line) {
                    let shown = bytes_debug(line);
                    return Err(
                        ScanError::Other(concat_text("unsupported frame type: ", shown.as_str())),
                    );
                }
                Ok(())
            } else {
                let n = match get_decimal(src) {
                    Ok(n) => n,
                    Err(Error::Incomplete) => return Err(ScanError::Incomplete),
                    Err(Error::Other(m)) => return Err(ScanError::Other(m)),
                };
                let len = match to_usize(n) {
                    Some(l) => l,
                    None => return Err(ScanError::Other("invalid length".to_string())),
                };
                if len > usize::MAX - 2 {
                    return Err(ScanError::Incomplete);
                }
                match skip(src, len + 2) {
                    Ok(()) => Ok(()),
                    Err(_) => Err(ScanError::Incomplete),
                }
            }
        } else if b == STAR {
            let len = match get_decimal(src) {
                Ok(n) => n,
                Err(Error::Incomplete) => return Err(ScanError::Incomplete),
                Err(Error::Other(m)) => return Err(ScanError::Other(m)),
            };
            let mut i: u64 = 0;
            while i < len
                invariant
                    buf == old(src).buf(),
                    pos0 == old(src).pos(),
                    src.buf() == buf,
                    total == buf.len(),
                    i <= len,
                    pos0 < src.pos() <= buf.len(),
                    check_frame(buf, pos0) == check_items(buf, src.pos(), (len - i) as nat),
                decreases len - i,
            {
                proof {
                    lemma_check_bounds(buf, src.pos());
                }
                Frame::scan(src)?;
                i = i + 1;
            }
            Ok(())
        } else {
            Err(ScanError::UnknownType)
        }
    }

    /// Checks if an entire message can be decoded from `src`. A frame type
    /// byte that names no frame type is an invalid encoding.
    pub fn check(src: &mut Cursor) -> (res: Result<(), Error>)
        ensures
            final(src).buf() == old(src).buf(),
            check_agrees(check_frame(old(src).buf(), old(src).pos()), res, final(src).pos()),
    {
        match Frame::scan(src) {
            Ok(()) => Ok(()),
            Err(ScanError::Incomplete) => Err(Error::Incomplete),
            Err(ScanError::Other(m)) => Err(Error::Other(m)),
            Err(ScanError::UnknownType) => Err(
                Error::Other("protocol error; unknown frame type".to_string()),
            ),
        }
    }

    /// Parses one frame from `src`. The message is meant to have been
    /// validated with `check` already, after which only a simple or error
    /// line that is not UTF-8 can make it fail. On a message that was not
    /// checked, incomplete input and invalid encodings are errors too.
    pub fn parse(src: &mut Cursor) -> (res: Result<Frame, Error>)
        ensures
            final(src).buf() == old(src).buf(),
            parse_agrees(parse_frame_at(old(src).buf(), old(src).pos()), res, final(src).pos()),
            check_frame(old(src).buf(), old(src).pos()) is Done ==> parses_as_checked(
                old(src).buf(),
                old(src).pos(),
                check_frame(old(src).buf(), old(src).pos())->Done_0,
                parse_frame_at(old(src).buf(), old(src).pos()),
            ),
        decreases old(src).buf().len() - old(src).pos(),
    {
        let ghost buf = src.buf();
        let ghost pos0 = src.pos();
        let total = src.get_ref().len();
        proof {
            if check_frame(buf, pos0) is Done {
                lemma_parse_checked(buf, pos0);
            }
            lemma_first_crlf(buf, pos0 + 1);
        }
        let b = match get_u8(src) {
            Ok(b) => b,
            Err(e) => return Err(e),
        };
        if b == PLUS || b == MINUS {
            let line = get_line(src)?;
            let text = match utf8_to_string(line) {
                Some(t) => t,
                None => return Err(Error::Other("invalid utf8".to_string())),
            };
            if b == PLUS {
                Ok(Frame::Simple(text))
            } else {
                Ok(Frame::Error(text))
            }
        } else if b == COLON {
            let v = get_decimal(src)?;
            Ok(Frame::Integer(v))
        } else if b == DOLLAR {
            if MINUS == peek_u8(src)? {
                let line = get_line(src)?;
                if !is_null_line(line) {
                    return Err(Error::Other("protocol error; invalid frame format".to_string()));
                }
                Ok(Frame::Null)
            } else {
                let n = get_decimal(src)?;
                let len = match to_usize(n) {
                    Some(l) => l,
                    None => return Err(Error::Other("invalid length".to_string())),
                };
                if len > usize::MAX - 2 || src.remaining() < len + 2 {
                    return Err(Error::Incomplete);
                }
                let start = src.position();
                let data = slice_to_vec(slice_subrange(src.get_ref(), start, start + len));
                skip(src, len + 2)?;
                Ok(Frame::Bulk(data))
            }
        } else if b == STAR {
            let n = get_decimal(src)?;
            let len = match to_usize(n) {
                Some(l) => l,
                None => return Err(Error::Other("invalid length".to_string())),
            };
            let mut out: Vec<Frame> = Vec::new();
            let mut i: usize = 0;
            while i < len
                invariant
                    buf == old(src).buf(),
                    pos0 == old(src).pos(),
                    src.buf() == buf,
                    total == buf.len(),
                    i <= len,
                    pos0 < src.pos() <= buf.len(),
                    check_frame(buf, pos0) is Done ==> parses_as_checked(
                        buf,
                        pos0,
                        check_frame(buf, pos0)->Done_0,
                        parse_frame_at(buf, pos0),
                    ),
                    parse_frame_at(buf, pos0) == items_frame(
                        prepend_items(
                            frames_view(out@),
                            parse_items(buf, src.pos(), (len - i) as nat),
                        ),
                    ),
                decreases len - i,
            {
                let ghost p = src.pos();
                proof {
                    lemma_parse_bounds(buf, p);
                }
                let f = Frame::parse(src)?;
                proof {
                    let g = frame_view(f);
                    let rest = parse_items(buf, src.pos(), (len - i - 1) as nat);
                    assert(frames_view(out@.push(f)) == frames_view(out@).push(g)) by {
                        assert(out@.push(f).drop_last() =~= out@);
                    }
                    if let ParsedItems::Done(r, e) = rest {
                        assert(frames_view(out@) + (seq![g] + r) =~= frames_view(out@).push(g) + r);
                    }
                }
                out.push(f);
                i = i + 1;
            }
            proof {
                assert(frames_view(out@) + Seq::<SpecFrame>::empty() =~= frames_view(out@));
            }
            Ok(Frame::Array(out))
        } else {
            Err(Error::Other("protocol error; unknown frame type".to_string()))
        }
    }

    /// The wire encoding of this frame.
    pub fn encode(&self) -> (out: Vec<u8>)
        ensures
            out@ == encode_spec(self@),
        decreases self,
    {
        let mut out: Vec<u8> = Vec::new();
        match self {
            Frame::Simple(s) => {
                out.push(PLUS);
                push_bytes(&mut out, s.as_str().as_bytes());
                out.push(CR);
                out.push(LF);
            },
            Frame::Error(s) => {
                out.push(MINUS);
                push_bytes(&mut out, s.as_str().as_bytes());
                out.push(CR);
                out.push(LF);
            },
            Frame::Integer(n) => {
                out.push(COLON);
                push_decimal(&mut out, *n);
                out.push(CR);
                out.push(LF);
            },
            Frame::Bulk(data) => {
                out.push(DOLLAR);
                push_decimal(&mut out, data.len() as u64);
                out.push(CR);
                out.push(LF);
                push_bytes(&mut out, data.as_slice());
                out.push(CR);
                out.push(LF);
            },
            Frame::Null => {
                out.push(DOLLAR);
                out.push(MINUS);
                out.push(ONE);
                out.push(CR);
                out.push(LF);
            },
            Frame::Array(frames) => {
                out.push(STAR);
                push_decimal(&mut out, frames.len() as u64);
                out.push(CR);
                out.push(LF);
                let ghost hdr = out@;
                let ghost views = frames_view(frames@);
                proof {
                    lemma_frames_view(frames@);
                }
                let mut i: usize = 0;
                while i < frames.len()
                    invariant
                        i <= frames@.len(),
                        *self == Frame::Array(*frames),
                        views == frames_view(frames@),
                        views.len() == frames@.len(),
                        forall|k: int| 0 <= k < frames@.len() ==> #[trigger] views[k] == frame_view(frames@[k]),
                        out@ == hdr + encode_all(views.take(i as int)),
                    decreases frames@.len() - i,
                {
                    proof {
                        assert((*self)->Array_0 == *frames);
                        assert(decreases_to!(*self => (*self)->Array_0));
                        assert(decreases_to!(*frames => frames@));
                        assert(decreases_to!(frames@ => frames@[i as int]));
                        assert(decreases_to!(*self => frames@[i as int]));
                    }
                    let e = frames[i].encode();
                    proof {
                        lemma_encode_all_push(views.take(i as int), views[i as int]);
                        assert(views.take(i as int).push(views[i as int]) =~= views.take(i + 1));
                    }
                    push_bytes(&mut out, e.as_slice());
                    i = i + 1;
                }
                proof {
                    assert(views.take(i as int) =~= views);
                }
            },
        }
        proof {
            assert(out@ =~= encode_spec(self@));
        }
        out
    }

    /// Reads one whole frame from the start of `buffer`.
    pub fn parse_frame(buffer: &[u8]) -> (res: Result<Frame, Error>)
        ensures
            match check_frame(buffer@, 0) {
                Scan::Done(_) => match parse_frame_at(buffer@, 0) {
                    Parsed::Done(f, _) => res is Ok && res->Ok_0@ == f,
                    _ => res is Err && res->Err_0 is Other && res->Err_0->Other_0@
                        == msg_bad_utf8(),
                },
                Scan::Incomplete(_) => res is Err && res->Err_0 is Incomplete,
                Scan::Invalid(_, t) => res is Err && res->Err_0 is Other && res->Err_0->Other_0@
                    == t,
                Scan::Unknown(_) => res is Err && res->Err_0 is Other && res->Err_0->Other_0@
                    == msg_unknown_type(),
            },
    {
        let mut buf = Cursor::new(buffer);
        Frame::check(&mut buf)?;
        buf.set_position(0);
        Frame::parse(&mut buf)
    }
}

} // verus!
