//! The encoding of a frame reads back as the same frame.
use vstd::prelude::*;
use vstd::utf8::{encode_utf8, encode_utf8_decode_utf8, encode_utf8_valid_utf8};

use crate::cursor::{
    atoi_u64, decimal_at, first_crlf, is_crlf_at, is_digit, lemma_first_crlf, line_at, Decimal, CR,
    LF,
};
use crate::frame::{
    check_frame, check_items, crlf, encode_all, encode_spec, parse_frame_at, parse_items, Parsed,
    ParsedItems, Scan, SpecFrame, MINUS, ONE,
};
use crate::text::{decimal, lemma_decimal, lemma_digit_run};

verus! {

/// `b` holds a CR LF pair.
pub open spec fn has_crlf(b: Seq<u8>) -> bool {
    exists|j: int| #[trigger] is_crlf_at(b, j)
}

/// A frame whose encoding reads back as the same frame: no simple or error
/// text holds a CR LF pair, and every length fits in a `usize`.
pub open spec fn wire_safe(f: SpecFrame) -> bool
    decreases f,
{
    match f {
        SpecFrame::Simple(s) => !has_crlf(encode_utf8(s)),
        SpecFrame::Error(s) => !has_crlf(encode_utf8(s)),
        SpecFrame::Bulk(d) => d.len() <= usize::MAX,
        SpecFrame::Array(fs) => fs.len() <= usize::MAX && all_wire_safe(fs),
        _ => true,
    }
}

/// Every frame of `fs` is wire-safe.
pub open spec fn all_wire_safe(fs: Seq<SpecFrame>) -> bool
    decreases fs,
{
    if fs.len() == 0 {
        true
    } else {
        wire_safe(fs[0]) && all_wire_safe(fs.drop_first())
    }
}

/// A piece of a buffer region is the matching piece of what the region holds.
proof fn lemma_sub(buf: Seq<u8>, pos: int, whole: Seq<u8>, off: int, part: Seq<u8>)
    requires
        0 <= pos,
        pos + whole.len() <= buf.len(),
        buf.subrange(pos, pos + whole.len()) == whole,
        0 <= off,
        off + part.len() <= whole.len(),
        whole.subrange(off, off + part.len()) == part,
    ensures
        buf.subrange(pos + off, pos + off + part.len()) == part,
{
    assert(buf.subrange(pos + off, pos + off + part.len()) =~= whole.subrange(
        off,
        off + part.len(),
    ));
}

/// The first CR LF pair from `from` on, when there is none before `i`.
proof fn lemma_first_crlf_found(buf: Seq<u8>, from: int, i: int)
    requires
        from <= i,
        is_crlf_at(buf, i),
        forall|j: int| from <= j < i ==> !is_crlf_at(buf, j),
    ensures
        first_crlf(buf, from) == Some(i),
    decreases i - from,
{
    if from < i {
        lemma_first_crlf_found(buf, from + 1, i);
    }
}

/// A region that holds `u` and then CR LF is a line whose text is `u`.
proof fn lemma_line_of(buf: Seq<u8>, p: int, u: Seq<u8>)
    requires
        0 <= p,
        p + u.len() + 2 <= buf.len(),
        buf.subrange(p, p + u.len() + 2) == u + crlf(),
        !has_crlf(u),
    ensures
        line_at(buf, p) == Some((u, p + u.len() + 2)),
{
    let w = u + crlf();
    let i = p + u.len();
    assert(buf[i] == w[u.len() as int]);
    assert(buf[i + 1] == w[u.len() as int + 1]);
    assert forall|j: int| p <= j < i implies !is_crlf_at(buf, j) by {
        assert(buf[j] == w[j - p]);
        assert(buf[j + 1] == w[j + 1 - p]);
        if j + 1 < i {
            assert(!is_crlf_at(u, j - p));
        }
    }
    lemma_first_crlf_found(buf, p, i);
    assert(buf.subrange(p, i) =~= u) by {
        assert forall|k: int| 0 <= k < u.len() implies buf.subrange(p, i)[k] == u[k] by {
            assert(buf[p + k] == w[k]);
        }
    }
}

/// What `atoi` reads from a numeral is its number.
proof fn lemma_atoi_decimal(n: nat)
    requires
        n <= u64::MAX,
    ensures
        atoi_u64(decimal(n)) == Some(n as u64),
{
    let t = decimal(n);
    lemma_decimal(n);
    assert(is_digit(t[0]));
    lemma_digit_run(t, 0, t.len());
    assert(t.subrange(0, t.len() as int) =~= t);
}

/// A region that holds the numeral of `n` and then CR LF is a number line.
proof fn lemma_decimal_line(buf: Seq<u8>, p: int, n: nat)
    requires
        0 <= p,
        n <= u64::MAX,
        p + decimal(n).len() + 2 <= buf.len(),
        buf.subrange(p, p + decimal(n).len() + 2) == decimal(n) + crlf(),
    ensures
        decimal_at(buf, p) == Decimal::Value(n as u64, p + decimal(n).len() + 2),
        is_digit(buf[p]),
{
    let d = decimal(n);
    lemma_decimal(n);
    assert(!has_crlf(d)) by {
        assert forall|j: int| !is_crlf_at(d, j) by {
            if 0 <= j < d.len() {
                assert(is_digit(d[j]));
            }
        }
    }
    lemma_line_of(buf, p, d);
    lemma_atoi_decimal(n);
    assert(buf[p] == (d + crlf())[0]);
}

/// Scanning and parsing the encoding of a frame, wherever it stands in a
/// buffer and whatever follows it, gives back the frame and ends right
/// after the encoding.
pub proof fn lemma_decode_encoded(f: SpecFrame, buf: Seq<u8>, pos: int)
    requires
        wire_safe(f),
        0 <= pos,
        pos + encode_spec(f).len() <= buf.len(),
        buf.subrange(pos, pos + encode_spec(f).len()) == encode_spec(f),
    ensures
        check_frame(buf, pos) == Scan::Done(pos + encode_spec(f).len()),
        parse_frame_at(buf, pos) == Parsed::Done(f, pos + encode_spec(f).len()),
    decreases f,
{
    let enc = encode_spec(f);
    let p = pos + 1;
    assert(buf[pos] == enc[0]);
    match f {
        SpecFrame::Simple(s) => {
            let u = encode_utf8(s);
            assert(enc.subrange(1, 1 + u.len() as int + 2) =~= u + crlf());
            lemma_sub(buf, pos, enc, 1, u + crlf());
            lemma_line_of(buf, p, u);
            encode_utf8_valid_utf8(s);
            encode_utf8_decode_utf8(s);
        },
        SpecFrame::Error(s) => {
            let u = encode_utf8(s);
            assert(enc.subrange(1, 1 + u.len() as int + 2) =~= u + crlf());
            lemma_sub(buf, pos, enc, 1, u + crlf());
            lemma_line_of(buf, p, u);
            encode_utf8_valid_utf8(s);
            encode_utf8_decode_utf8(s);
        },
        SpecFrame::Integer(n) => {
            let d = decimal(n as nat);
            assert(enc.subrange(1, 1 + d.len() as int + 2) =~= d + crlf());
            lemma_sub(buf, pos, enc, 1, d + crlf());
            lemma_decimal_line(buf, p, n as nat);
        },
        SpecFrame::Bulk(data) => {
            let d = decimal(data.len());
            assert(enc.subrange(1, 1 + d.len() as int + 2) =~= d + crlf());
            lemma_sub(buf, pos, enc, 1, d + crlf());
            lemma_decimal_line(buf, p, data.len());
            let e = p + d.len() + 2;
            assert(enc.subrange(1 + d.len() as int + 2, 1 + d.len() as int + 2 + data.len() as int) =~= data);
            lemma_sub(buf, pos, enc, 1 + d.len() as int + 2, data);
        },
        SpecFrame::Null => {
            let u = seq![MINUS, ONE];
            assert(enc.subrange(1, 5) =~= u + crlf());
            lemma_sub(buf, pos, enc, 1, u + crlf());
            assert(!has_crlf(u));
            lemma_line_of(buf, p, u);
            assert(buf[p] == enc[1]);
        },
        SpecFrame::Array(fs) => {
            let d = decimal(fs.len());
            assert(enc.subrange(1, 1 + d.len() as int + 2) =~= d + crlf());
            lemma_sub(buf, pos, enc, 1, d + crlf());
            lemma_decimal_line(buf, p, fs.len());
            let e = p + d.len() + 2;
            let rest = encode_all(fs);
            assert(enc.subrange(1 + d.len() as int + 2, enc.len() as int) =~= rest);
            lemma_sub(buf, pos, enc, 1 + d.len() as int + 2, rest);
            lemma_decode_encoded_items(fs, buf, e);
        },
    }
}

/// As `lemma_decode_encoded`, for the encodings of a run of frames.
pub proof fn lemma_decode_encoded_items(fs: Seq<SpecFrame>, buf: Seq<u8>, pos: int)
    requires
        all_wire_safe(fs),
        0 <= pos,
        pos + encode_all(fs).len() <= buf.len(),
        buf.subrange(pos, pos + encode_all(fs).len()) == encode_all(fs),
    ensures
        check_items(buf, pos, fs.len()) == Scan::Done(pos + encode_all(fs).len()),
        parse_items(buf, pos, fs.len()) == ParsedItems::Done(fs, pos + encode_all(fs).len()),
    decreases fs,
{
    if fs.len() > 0 {
        let all = encode_all(fs);
        let first = encode_spec(fs[0]);
        let rest = encode_all(fs.drop_first());
        assert(all.subrange(0, first.len() as int) =~= first);
        lemma_sub(buf, pos, all, 0, first);
        assert(all.subrange(first.len() as int, first.len() as int + rest.len() as int) =~= rest);
        lemma_sub(buf, pos, all, first.len() as int, rest);
        assert(first.len() >= 1);
        lemma_decode_encoded(fs[0], buf, pos);
        lemma_decode_encoded_items(fs.drop_first(), buf, pos + first.len());
        assert(seq![fs[0]] + fs.drop_first() =~= fs);
    } else {
        assert(fs =~= Seq::<SpecFrame>::empty());
    }
}

/// Reading back what `encode` writes: the encoding of a wire-safe frame,
/// followed by any bytes at all, scans as one complete frame that ends right
/// after the encoding, and parses to the same frame.
pub proof fn lemma_encode_parse_roundtrip(f: SpecFrame, rest: Seq<u8>)
    requires
        wire_safe(f),
    ensures
        check_frame(encode_spec(f) + rest, 0) == Scan::Done(encode_spec(f).len() as int),
        parse_frame_at(encode_spec(f) + rest, 0) == Parsed::Done(f, encode_spec(f).len() as int),
{
    let buf = encode_spec(f) + rest;
    assert(buf.subrange(0, encode_spec(f).len() as int) =~= encode_spec(f));
    lemma_decode_encoded(f, buf, 0);
}


/// A region that holds `u` and then part of CR LF, at the end of the
/// buffer, is a line that is not finished yet.
proof fn lemma_line_cut(buf: Seq<u8>, p: int, u: Seq<u8>)
    requires
        0 <= p <= buf.len(),
        buf.len() - p < u.len() + 2,
        buf.subrange(p, buf.len() as int) == (u + crlf()).take(buf.len() - p),
        !has_crlf(u),
    ensures
        line_at(buf, p) is None,
{
    let w = u + crlf();
    lemma_first_crlf(buf, p);
    assert forall|j: int| p <= j implies !is_crlf_at(buf, j) by {
        if is_crlf_at(buf, j) {
            assert(buf[j] == buf.subrange(p, buf.len() as int)[j - p]);
            assert(buf[j + 1] == buf.subrange(p, buf.len() as int)[j + 1 - p]);
            assert(buf[j] == w[j - p]);
            assert(buf[j + 1] == w[j + 1 - p]);
            if j + 1 - p == u.len() {
                assert(w[u.len() as int] == CR);
            } else {
                assert(is_crlf_at(u, j - p));
            }
        }
    }
}

/// A numeral line cut before its end is not finished yet.
proof fn lemma_decimal_cut(buf: Seq<u8>, p: int, n: nat)
    requires
        0 <= p <= buf.len(),
        buf.len() - p < decimal(n).len() + 2,
        buf.subrange(p, buf.len() as int) == (decimal(n) + crlf()).take(buf.len() - p),
    ensures
        decimal_at(buf, p) is Incomplete,
        p < buf.len() ==> is_digit(buf[p]),
{
    let d = decimal(n);
    lemma_decimal(n);
    assert(!has_crlf(d)) by {
        assert forall|j: int| !is_crlf_at(d, j) by {
            if 0 <= j < d.len() {
                assert(is_digit(d[j]));
            }
        }
    }
    lemma_line_cut(buf, p, d);
    if p < buf.len() {
        assert(buf[p] == buf.subrange(p, buf.len() as int)[0]);
    }
}

/// The rest of the buffer from `pos` is the first `k` bytes of `enc`.
pub open spec fn holds_prefix(buf: Seq<u8>, pos: int, enc: Seq<u8>) -> bool {
    &&& 0 <= pos <= buf.len()
    &&& buf.len() - pos < enc.len()
    &&& buf.subrange(pos, buf.len() as int) == enc.take(buf.len() - pos)
}

/// A prefix of `whole` is, past `off`, a prefix of the part of `whole`
/// that starts at `off`.
proof fn lemma_prefix_sub(buf: Seq<u8>, pos: int, whole: Seq<u8>, off: int, part: Seq<u8>)
    requires
        0 <= pos <= buf.len(),
        buf.len() - pos < whole.len(),
        buf.subrange(pos, buf.len() as int) == whole.take(buf.len() - pos),
        0 <= off <= buf.len() - pos,
        off + part.len() <= whole.len(),
        whole.subrange(off, off + part.len()) == part,
        buf.len() - pos - off < part.len(),
    ensures
        buf.subrange(pos + off, buf.len() as int) == part.take(buf.len() - pos - off),
{
    let a = buf.subrange(pos + off, buf.len() as int);
    let b = part.take(buf.len() - pos - off);
    assert forall|i: int| 0 <= i < a.len() implies #[trigger] a[i] == b[i] by {
        assert(buf.subrange(pos, buf.len() as int)[off + i] == whole[off + i]);
        assert(whole.subrange(off, off + part.len())[i] == whole[off + i]);
    }
    assert(a =~= b);
}

/// A whole piece of `enc` inside the part of the buffer that holds a
/// prefix of `enc`.
proof fn lemma_prefix_whole(buf: Seq<u8>, pos: int, enc: Seq<u8>, off: int, part: Seq<u8>)
    requires
        0 <= pos <= buf.len(),
        buf.len() - pos < enc.len(),
        buf.subrange(pos, buf.len() as int) == enc.take(buf.len() - pos),
        0 <= off,
        off + part.len() <= buf.len() - pos,
        enc.subrange(off, off + part.len()) == part,
    ensures
        buf.subrange(pos + off, pos + off + part.len()) == part,
{
    let a = buf.subrange(pos + off, pos + off + part.len());
    assert forall|i: int| 0 <= i < part.len() implies #[trigger] a[i] == part[i] by {
        assert(buf.subrange(pos, buf.len() as int)[off + i] == enc[off + i]);
        assert(enc.subrange(off, off + part.len())[i] == enc[off + i]);
    }
    assert(a =~= part);
}

/// A reader that has only part of a frame waits for more: when the buffer
/// ends before the encoding of a wire-safe frame does, scanning the frame
/// reports that it is incomplete.
pub proof fn lemma_truncated_incomplete(f: SpecFrame, buf: Seq<u8>, pos: int)
    requires
        wire_safe(f),
        holds_prefix(buf, pos, encode_spec(f)),
    ensures
        check_frame(buf, pos) is Incomplete,
    decreases f,
{
    let enc = encode_spec(f);
    let k = buf.len() - pos;
    let p = pos + 1;
    if k > 0 {
        assert(buf[pos] == buf.subrange(pos, buf.len() as int)[0]);
        assert(buf[pos] == enc[0]);
        match f {
            SpecFrame::Simple(s) => {
                let u = encode_utf8(s);
                assert(enc.subrange(1, enc.len() as int) =~= u + crlf());
                lemma_prefix_sub(buf, pos, enc, 1, u + crlf());
                lemma_line_cut(buf, p, u);
            },
            SpecFrame::Error(s) => {
                let u = encode_utf8(s);
                assert(enc.subrange(1, enc.len() as int) =~= u + crlf());
                lemma_prefix_sub(buf, pos, enc, 1, u + crlf());
                lemma_line_cut(buf, p, u);
            },
            SpecFrame::Integer(n) => {
                let d = decimal(n as nat);
                assert(enc.subrange(1, enc.len() as int) =~= d + crlf());
                lemma_prefix_sub(buf, pos, enc, 1, d + crlf());
                lemma_decimal_cut(buf, p, n as nat);
            },
            SpecFrame::Null => {
                let u = seq![MINUS, ONE];
                assert(!has_crlf(u));
                assert(enc.subrange(1, 5) =~= u + crlf());
                lemma_prefix_sub(buf, pos, enc, 1, u + crlf());
                if p < buf.len() {
                    assert(buf[p] == buf.subrange(pos, buf.len() as int)[1]);
                }
                lemma_line_cut(buf, p, u);
            },
            SpecFrame::Bulk(data) => {
                let d = decimal(data.len());
                let h = 1 + d.len() as int + 2;
                if k < h {
                    assert(enc.subrange(1, h) =~= d + crlf());
                    lemma_prefix_sub(buf, pos, enc, 1, d + crlf());
                    lemma_decimal_cut(buf, p, data.len());
                } else {
                    assert(enc.subrange(1, h) =~= d + crlf());
                    lemma_prefix_whole(buf, pos, enc, 1, d + crlf());
                    lemma_decimal_line(buf, p, data.len());
                }
            },
            SpecFrame::Array(fs) => {
                let d = decimal(fs.len());
                let h = 1 + d.len() as int + 2;
                if k < h {
                    assert(enc.subrange(1, h) =~= d + crlf());
                    lemma_prefix_sub(buf, pos, enc, 1, d + crlf());
                    lemma_decimal_cut(buf, p, fs.len());
                } else {
                    assert(enc.subrange(1, h) =~= d + crlf());
                    lemma_prefix_whole(buf, pos, enc, 1, d + crlf());
                    lemma_decimal_line(buf, p, fs.len());
                    let rest = encode_all(fs);
                    assert(enc.subrange(h, enc.len() as int) =~= rest);
                    lemma_prefix_sub(buf, pos, enc, h, rest);
                    lemma_truncated_incomplete_items(fs, buf, pos + h);
                }
            },
        }
    }
}

/// As `lemma_truncated_incomplete`, for the encodings of a run of frames.
pub proof fn lemma_truncated_incomplete_items(fs: Seq<SpecFrame>, buf: Seq<u8>, pos: int)
    requires
        all_wire_safe(fs),
        holds_prefix(buf, pos, encode_all(fs)),
    ensures
        check_items(buf, pos, fs.len()) is Incomplete,
    decreases fs,
{
    let all = encode_all(fs);
    let first = encode_spec(fs[0]);
    let rest = encode_all(fs.drop_first());
    let k = buf.len() - pos;
    if k < first.len() {
        assert(all.subrange(0, first.len() as int) =~= first);
        lemma_prefix_sub(buf, pos, all, 0, first);
        lemma_truncated_incomplete(fs[0], buf, pos);
    } else {
        assert(all.subrange(0, first.len() as int) =~= first);
        lemma_prefix_whole(buf, pos, all, 0, first);
        lemma_decode_encoded(fs[0], buf, pos);
        assert(first.len() >= 1);
        assert(all.subrange(first.len() as int, all.len() as int) =~= rest);
        lemma_prefix_sub(buf, pos, all, first.len() as int, rest);
        lemma_truncated_incomplete_items(fs.drop_first(), buf, pos + first.len());
    }
}

/// Different wire-safe frames have different encodings.
pub proof fn lemma_encode_injective(f: SpecFrame, g: SpecFrame)
    requires
        wire_safe(f),
        wire_safe(g),
        encode_spec(f) == encode_spec(g),
    ensures
        f == g,
{
    lemma_encode_parse_roundtrip(f, Seq::empty());
    lemma_encode_parse_roundtrip(g, Seq::empty());
}

} // verus!
