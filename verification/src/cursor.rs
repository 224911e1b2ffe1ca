//! A read position over a byte buffer, and the line and number readers that
//! the frame scanner is built from.
use vstd::prelude::*;
use vstd::slice::slice_subrange;

use crate::frame::Error;

verus! {

pub const CR: u8 = 13;

pub const LF: u8 = 10;

/// A byte buffer together with a read position.
///
/// The position may lie past the end of the buffer; nothing can be read
/// there.
pub struct Cursor<'a> {
    data: &'a [u8],
    pos: usize,
}

impl<'a> Cursor<'a> {
    /// The whole buffer.
    pub closed spec fn buf(&self) -> Seq<u8> {
        self.data@
    }

    /// The read position.
    pub closed spec fn pos(&self) -> int {
        self.pos as int
    }

    /// The read position is never negative.
    pub broadcast proof fn lemma_pos_nonneg(&self)
        ensures
            #[trigger] self.pos() >= 0,
    {
    }

    /// A cursor at the start of `data`.
    pub fn new(data: &'a [u8]) -> (c: Cursor<'a>)
        ensures
            c.buf() == data@,
            c.pos() == 0,
    {
        Cursor { data, pos: 0 }
    }

    /// The read position.
    pub fn position(&self) -> (p: usize)
        ensures
            p == self.pos(),
    {
        self.pos
    }

    /// Moves the read position to `pos`.
    pub fn set_position(&mut self, pos: usize)
        ensures
            final(self).buf() == old(self).buf(),
            final(self).pos() == pos,
    {
        self.pos = pos;
    }

    /// The whole underlying buffer, whatever has been read of it.
    pub fn get_ref(&self) -> (r: &'a [u8])
        ensures
            r@ == self.buf(),
    {
        self.data
    }

    /// The number of bytes between the read position and the end.
    pub fn remaining(&self) -> (n: usize)
        ensures
            n == remaining_from(self.buf(), self.pos()),
            self.buf().len() <= usize::MAX,
    {
        if self.pos < self.data.len() {
            self.data.len() - self.pos
        } else {
            0
        }
    }
}

/// The number of bytes of `buf` at and after `pos`.
pub open spec fn remaining_from(buf: Seq<u8>, pos: int) -> int {
    if pos < buf.len() {
        buf.len() - pos
    } else {
        0
    }
}

/// `buf` holds a CR LF pair starting at `i`.
pub open spec fn is_crlf_at(buf: Seq<u8>, i: int) -> bool {
    &&& 0 <= i
    &&& i + 1 < buf.len()
    &&& buf[i] == CR
    &&& buf[i + 1] == LF
}

/// The start of the first CR LF pair of `buf` at or after `from`.
pub open spec fn first_crlf(buf: Seq<u8>, from: int) -> Option<int>
    decreases buf.len() - from,
{
    if from + 1 >= buf.len() {
        None
    } else if is_crlf_at(buf, from) {
        Some(from)
    } else {
        first_crlf(buf, from + 1)
    }
}

/// What `first_crlf` finds is a CR LF pair with none before it.
pub proof fn lemma_first_crlf(buf: Seq<u8>, from: int)
    requires
        0 <= from,
    ensures
        match first_crlf(buf, from) {
            Some(i) => {
                &&& from <= i
                &&& is_crlf_at(buf, i)
                &&& forall|j: int| from <= j < i ==> !is_crlf_at(buf, j)
            },
            None => forall|j: int| from <= j ==> !is_crlf_at(buf, j),
        },
    decreases buf.len() - from,
{
    if from + 1 >= buf.len() {
    } else if is_crlf_at(buf, from) {
    } else {
        lemma_first_crlf(buf, from + 1);
    }
}

/// An ASCII decimal digit.
pub open spec fn is_digit(b: u8) -> bool {
    48 <= b <= 57
}

/// The number of consecutive digits of `t` starting at `from`.
pub open spec fn digit_run(t: Seq<u8>, from: int) -> nat
    decreases t.len() - from,
{
    if 0 <= from < t.len() && is_digit(t[from]) {
        1 + digit_run(t, from + 1)
    } else {
        0
    }
}

/// The number that the decimal digits `d` write.
pub open spec fn digits_value(d: Seq<u8>) -> nat
    decreases d.len(),
{
    if d.len() == 0 {
        0
    } else {
        digits_value(d.drop_last()) * 10 + (d.last() - 48) as nat
    }
}

/// What `atoi::atoi::<u64>` gives for `t`: an optional `+` or `-`, then the
/// longest run of digits that follows (the rest of `t` is ignored). Nothing
/// when `t` starts with neither sign nor digit, or when the value does not
/// fit; after `-` only the value zero fits.
pub open spec fn atoi_u64(t: Seq<u8>) -> Option<u64> {
    let signed = t.len() > 0 && (t[0] == 43u8 || t[0] == 45u8);
    let off: int = if signed {
        1
    } else {
        0
    };
    let n = digit_run(t, off);
    let v = digits_value(t.subrange(off, off + n));
    if off + n == 0 {
        None
    } else if signed && t[0] == 45u8 {
        if v == 0 {
            Some(0u64)
        } else {
            None
        }
    } else if v <= u64::MAX {
        Some(v as u64)
    } else {
        None
    }
}

/// Calls `atoi::atoi::<u64>`, which reads an optional sign and the decimal
/// digits that follow it, stops at the first other byte, and checks for
/// overflow. The contract restates that behaviour as `atoi_u64`.
#[verifier::external_body]
fn parse_u64_prefix(text: &[u8]) -> (res: Option<u64>)
    ensures
        res == atoi_u64(text@),
{
    atoi::atoi::<u64>(text)
}

/// Where `get_line` leaves the cursor and what it returns, for a buffer and
/// a start position: the bytes up to the first CR LF and the position after
/// it, or `None` when there is no such pair.
pub open spec fn line_at(buf: Seq<u8>, pos: int) -> Option<(Seq<u8>, int)> {
    match first_crlf(buf, pos) {
        Some(i) => Some((buf.subrange(pos, i), i + 2)),
        None => None,
    }
}

/// The error text for a line that does not start with a number.
pub open spec fn msg_bad_format() -> Seq<char> {
    "protocol error; invalid frame format"@
}

/// A number on a CR LF terminated line.
pub enum Decimal {
    /// The value, and the position after the line.
    Value(u64, int),
    /// No line end was found.
    Incomplete,
    /// A line was found but does not start with a number; the position
    /// after the line.
    Invalid(int),
}

/// The number on the line at `pos`.
pub open spec fn decimal_at(buf: Seq<u8>, pos: int) -> Decimal {
    match line_at(buf, pos) {
        Some((line, end)) => match atoi_u64(line) {
            Some(v) => Decimal::Value(v, end),
            None => Decimal::Invalid(end),
        },
        None => Decimal::Incomplete,
    }
}

/// The next byte, without moving the cursor.
pub fn peek_u8(src: &mut Cursor) -> (res: Result<u8, Error>)
    ensures
        final(src).buf() == old(src).buf(),
        final(src).pos() == old(src).pos(),
        old(src).pos() < old(src).buf().len() ==> res == Ok::<u8, Error>(
            old(src).buf()[old(src).pos()],
        ),
        old(src).pos() >= old(src).buf().len() ==> res is Err && res->Err_0 is Incomplete,
{
    if src.pos >= src.data.len() {
        return Err(Error::Incomplete);
    }
    Ok(src.data[src.pos])
}

/// The next byte; the cursor moves past it.
pub fn get_u8(src: &mut Cursor) -> (res: Result<u8, Error>)
    ensures
        final(src).buf() == old(src).buf(),
        old(src).pos() < old(src).buf().len() ==> {
            &&& res == Ok::<u8, Error>(old(src).buf()[old(src).pos()])
            &&& final(src).pos() == old(src).pos() + 1
        },
        old(src).pos() >= old(src).buf().len() ==> {
            &&& res is Err && res->Err_0 is Incomplete
            &&& final(src).pos() == old(src).pos()
        },
{
    if src.pos >= src.data.len() {
        return Err(Error::Incomplete);
    }
    let b = src.data[src.pos];
    src.pos = src.pos + 1;
    Ok(b)
}

/// Moves the cursor `n` bytes on, if that many remain.
pub fn skip(src: &mut Cursor, n: usize) -> (res: Result<(), Error>)
    ensures
        final(src).buf() == old(src).buf(),
        n <= remaining_from(old(src).buf(), old(src).pos()) ==> {
            &&& res is Ok
            &&& final(src).pos() == old(src).pos() + n
        },
        n > remaining_from(old(src).buf(), old(src).pos()) ==> {
            &&& res is Err && res->Err_0 is Incomplete
            &&& final(src).pos() == old(src).pos()
        },
{
    if src.remaining() < n {
        return Err(Error::Incomplete);
    }
    src.pos = src.pos + n;
    Ok(())
}

/// The bytes from the cursor up to the next CR LF; the cursor moves past the
/// CR LF. When no CR LF follows, the cursor stays.
pub fn get_line<'a>(src: &mut Cursor<'a>) -> (res: Result<&'a [u8], Error>)
    ensures
        final(src).buf() == old(src).buf(),
        match line_at(old(src).buf(), old(src).pos()) {
            Some((line, end)) => res is Ok && res->Ok_0@ == line && final(src).pos() == end,
            None => res is Err && res->Err_0 is Incomplete && final(src).pos() == old(src).pos(),
        },
{
    let start = src.pos;
    let len = src.data.len();
    if len == 0 {
        return Err(Error::Incomplete);
    }
    let end = len - 1;
    let mut i = start;
    while i < end
        invariant
            start <= i,
            len == src.data@.len(),
            end + 1 == len,
            *src == *old(src),
            src.pos == start,
            first_crlf(src.data@, start as int) == first_crlf(src.data@, i as int),
        decreases end - i,
    {
        if src.data[i] == CR && src.data[i + 1] == LF {
            src.pos = i + 2;
            return Ok(slice_subrange(src.data, start, i));
        }
        i = i + 1;
    }
    Err(Error::Incomplete)
}

/// Reads a CR LF terminated decimal number.
pub fn get_decimal(src: &mut Cursor) -> (res: Result<u64, Error>)
    ensures
        final(src).buf() == old(src).buf(),
        match decimal_at(old(src).buf(), old(src).pos()) {
            Decimal::Value(v, end) => res == Ok::<u64, Error>(v) && final(src).pos() == end,
            Decimal::Incomplete => res is Err && res->Err_0 is Incomplete && final(src).pos()
                == old(src).pos(),
            Decimal::Invalid(end) => res is Err && res->Err_0 is Other && res->Err_0->Other_0@
                == msg_bad_format() && final(src).pos() == end,
        },
{
    let line = get_line(src)?;
    match parse_u64_prefix(line) {
        Some(v) => Ok(v),
        None => Err(Error::Other("protocol error; invalid frame format".to_string())),
    }
}

} // verus!
