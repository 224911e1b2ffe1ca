//! Utility for parsing a command.
//!
//! Commands are represented as array frames. Each entry in the frame is a
//! "token". A `Parse` is initialized with the array frame and provides a
//! cursor-like API. Each command struct includes a `parse_frames` method
//! that uses a `Parse` to extract its fields.
use vstd::prelude::*;
use vstd::string::StringExecFns;
use vstd::utf8::{decode_utf8, encode_utf8, valid_utf8};

use crate::frame::{frame_view, frames_view, lemma_frames_view, Frame, SpecFrame};
use crate::text::{
    bulk_debug, bulk_debug_text, concat_text, decimal_string, decimal_text, lossy_string,
    str_debug_text, text_debug, utf8_lossy, utf8_to_string,
};

verus! {

/// Why a token could not be taken from a command.
#[derive(Debug)]
pub enum ParseError {
    /// Attempting to extract a value failed due to the frame being fully
    /// consumed.
    EndOfStream,
    /// All other errors
    Other(String),
}

impl View for ParseError {
    /// `None` for the end of the tokens, else the error's text.
    type V = Option<Seq<char>>;

    open spec fn view(&self) -> Option<Seq<char>> {
        match self {
            ParseError::EndOfStream => None,
            ParseError::Other(m) => Some(m@),
        }
    }
}

impl From<String> for ParseError {
    fn from(src: String) -> (e: ParseError) {
        ParseError::Other(src)
    }
}

impl vstd::std_specs::convert::FromSpecImpl<String> for ParseError {
    open spec fn obeys_from_spec() -> bool {
        true
    }

    open spec fn from_spec(v: String) -> ParseError {
        ParseError::Other(v)
    }
}

/// The entries of an array frame that have not been taken yet.
pub struct Parse {
    parts: Vec<Frame>,
}

/// The text of a token that stands for a string: a simple frame's text, or
/// a bulk frame's bytes when they are valid UTF-8.
pub open spec fn token_string(f: SpecFrame) -> Option<Seq<char>> {
    match f {
        SpecFrame::Simple(s) => Some(s),
        SpecFrame::Bulk(d) => if valid_utf8(d) {
            Some(decode_utf8(d))
        } else {
            None
        },
        _ => None,
    }
}

/// The bytes of a token that stands for binary data: a bulk frame's bytes,
/// or the UTF-8 encoding of a simple frame's text.
pub open spec fn token_bytes(f: SpecFrame) -> Option<Seq<u8>> {
    match f {
        SpecFrame::Simple(s) => Some(encode_utf8(s)),
        SpecFrame::Bulk(d) => Some(d),
        _ => None,
    }
}

/// The text that `to_string` writes for an entry nested in an array entry;
/// nested arrays write nothing.
pub open spec fn inner_text(f: SpecFrame) -> Seq<char> {
    match f {
        SpecFrame::Simple(s) => s,
        SpecFrame::Error(e) => e,
        SpecFrame::Integer(i) => decimal_text(i as nat),
        SpecFrame::Bulk(b) => if valid_utf8(b) {
            decode_utf8(b)
        } else {
            utf8_lossy(b)
        },
        SpecFrame::Null => seq!['n', 'u', 'l', 'l'],
        SpecFrame::Array(_) => Seq::empty(),
    }
}

/// The texts of `fs`, one after another.
pub open spec fn inner_texts(fs: Seq<SpecFrame>) -> Seq<char>
    decreases fs.len(),
{
    if fs.len() == 0 {
        Seq::empty()
    } else {
        inner_texts(fs.drop_last()) + inner_text(fs.last())
    }
}

/// The text that `to_string` writes for an entry.
pub open spec fn part_text(f: SpecFrame) -> Seq<char> {
    match f {
        SpecFrame::Array(a) => inner_texts(a),
        other => inner_text(other),
    }
}

/// The texts of the entries `fs`, one after another.
pub open spec fn parts_text(fs: Seq<SpecFrame>) -> Seq<char>
    decreases fs.len(),
{
    if fs.len() == 0 {
        Seq::empty()
    } else {
        parts_text(fs.drop_last()) + part_text(fs.last())
    }
}

/// The `Debug` text of a frame that error messages show: the variant's
/// name, then its field in round brackets; text in the `Debug` form of a
/// string, a bulk frame's bytes in the `Debug` form of `bytes::Bytes`, and
/// an array's entries in square brackets, separated by `, `.
pub open spec fn frame_debug_text(f: SpecFrame) -> Seq<char>
    decreases f,
{
    match f {
        SpecFrame::Simple(s) => "Simple("@ + str_debug_text(s) + ")"@,
        SpecFrame::Error(s) => "Error("@ + str_debug_text(s) + ")"@,
        SpecFrame::Integer(n) => "Integer("@ + decimal_text(n as nat) + ")"@,
        SpecFrame::Bulk(d) => "Bulk("@ + bulk_debug_text(d) + ")"@,
        SpecFrame::Null => "Null"@,
        SpecFrame::Array(fs) => "Array(["@ + frames_debug_text(fs) + "])"@,
    }
}

/// The `Debug` texts of `fs`, separated by `, `.
pub open spec fn frames_debug_text(fs: Seq<SpecFrame>) -> Seq<char>
    decreases fs,
{
    if fs.len() == 0 {
        Seq::empty()
    } else if fs.len() == 1 {
        frame_debug_text(fs[0])
    } else {
        frames_debug_text(fs.drop_last()) + ", "@ + frame_debug_text(fs.last())
    }
}

/// `prefix`, `middle` and `suffix`, one after another.
fn enclose(prefix: &str, middle: &str, suffix: &str) -> (s: String)
    ensures
        s@ == prefix@ + middle@ + suffix@,
{
    let first = concat_text(prefix, middle);
    concat_text(first.as_str(), suffix)
}

/// The `Debug` text of a frame that error messages show.
fn frame_debug(frame: &Frame) -> (res: String)
    ensures
        res@ == frame_debug_text(frame@),
    decreases frame,
{
    match frame {
        Frame::Simple(s) => enclose("Simple(", text_debug(s.as_str()).as_str(), ")"),
        Frame::Error(s) => enclose("Error(", text_debug(s.as_str()).as_str(), ")"),
        Frame::Integer(n) => enclose("Integer(", decimal_string(*n).as_str(), ")"),
        Frame::Bulk(d) => enclose("Bulk(", bulk_debug(d.as_slice()).as_str(), ")"),
        Frame::Null => "Null".to_string(),
        Frame::Array(frames) => {
            let mut inner = String::new();
            let ghost views = frames_view(frames@);
            proof {
                lemma_frames_view(frames@);
            }
            let mut i: usize = 0;
            while i < frames.len()
                invariant
                    i <= frames@.len(),
                    *frame == Frame::Array(*frames),
                    views == frames_view(frames@),
                    views.len() == frames@.len(),
                    forall|k: int| 0 <= k < frames@.len() ==> #[trigger] views[k] == frame_view(frames@[k]),
                    inner@ == frames_debug_text(views.take(i as int)),
                decreases frames@.len() - i,
            {
                proof {
                    assert((*frame)->Array_0 == *frames);
                    assert(decreases_to!(*frame => (*frame)->Array_0));
                    assert(decreases_to!(*frames => frames@));
                    assert(decreases_to!(frames@ => frames@[i as int]));
                    assert(decreases_to!(*frame => frames@[i as int]));
                }
                let ghost before = inner@;
                if i > 0 {
                    inner.append(", ");
                }
                let entry = frame_debug(&frames[i]);
                inner.append(entry.as_str());
                proof {
                    let t = views.take(i + 1);
                    assert(t.drop_last() =~= views.take(i as int));
                    assert(t.last() == views[i as int]);
                    if i == 0 {
                        assert(t[0] == views[0]);
                        assert(inner@ =~= before + entry@);
                        assert(before =~= Seq::<char>::empty());
                        assert(inner@ =~= frames_debug_text(t));
                    } else {
                        assert(inner@ =~= before + ", "@ + entry@);
                    }
                }
                i = i + 1;
            }
            proof {
                assert(views.take(i as int) =~= views);
            }
            enclose("Array([", inner.as_str(), "])")
        },
    }
}

/// The start of the error text when the command is not an array frame.
pub open spec fn msg_expected_array() -> Seq<char> {
    "protocol error; expected array, got "@
}

/// The start of the error text when a token is neither a simple nor a bulk
/// frame.
pub open spec fn msg_expected_token() -> Seq<char> {
    "protocol error; expected simple frame or bulk frame, got "@
}

/// The error text for a bulk token that is not valid UTF-8 text.
pub open spec fn msg_invalid_string() -> Seq<char> {
    "protocol error; invalid string"@
}

/// The error text when a token is taken as a string and is not one.
pub open spec fn token_string_error(f: SpecFrame) -> Seq<char> {
    match f {
        SpecFrame::Bulk(_) => msg_invalid_string(),
        _ => msg_expected_token() + frame_debug_text(f),
    }
}

/// The error text when a token is taken as bytes and is not bytes.
pub open spec fn token_bytes_error(f: SpecFrame) -> Seq<char> {
    msg_expected_token() + frame_debug_text(f)
}

impl Parse {
    /// The entries not taken yet.
    pub closed spec fn parts(&self) -> Seq<SpecFrame> {
        frames_view(self.parts@)
    }

    /// Create a new `Parse` to parse the contents of `frame`.
    ///
    /// Returns `Err` if `frame` is not an array frame.
    pub fn new(frame: Frame) -> (res: Result<Parse, ParseError>)
        ensures
            match frame@ {
                SpecFrame::Array(fs) => res is Ok && res->Ok_0.parts() == fs,
                _ => res is Err && res->Err_0 is Other && res->Err_0->Other_0@
                    == msg_expected_array() + frame_debug_text(frame@),
            },
    {
        match frame {
            Frame::Array(array) => Ok(Parse { parts: array }),
            frame => {
                let shown = frame_debug(&frame);
                Err(
                    ParseError::Other(
                        concat_text("protocol error; expected array, got ", shown.as_str()),
                    ),
                )
            },
        }
    }

    /// Return the next entry. Array frames are arrays of frames, so the next
    /// entry is a frame.
    fn next(&mut self) -> (res: Result<Frame, ParseError>)
        ensures
            old(self).parts().len() == 0 ==> {
                &&& res is Err && res->Err_0 is EndOfStream
                &&& final(self).parts() == old(self).parts()
            },
            old(self).parts().len() > 0 ==> {
                &&& res is Ok && res->Ok_0@ == old(self).parts()[0]
                &&& final(self).parts() == old(self).parts().drop_first()
            },
    {
        proof {
            lemma_frames_view(self.parts@);
        }
        if self.parts.len() == 0 {
            return Err(ParseError::EndOfStream);
        }
        let f = self.parts.remove(0);
        proof {
            lemma_frames_view(self.parts@);
            assert(self.parts() =~= old(self).parts().drop_first());
        }
        Ok(f)
    }

    /// Return the next entry as a string.
    ///
    /// If the next entry cannot be represented as a String, then an error is
    /// returned. The entry is taken either way.
    pub fn next_string(&mut self) -> (res: Result<String, ParseError>)
        ensures
            old(self).parts().len() == 0 ==> {
                &&& res is Err && res->Err_0 is EndOfStream
                &&& final(self).parts() == old(self).parts()
            },
            old(self).parts().len() > 0 ==> {
                &&& final(self).parts() == old(self).parts().drop_first()
                &&& match token_string(old(self).parts()[0]) {
                    Some(t) => res is Ok && res->Ok_0@ == t,
                    None => res is Err && res->Err_0 is Other && res->Err_0->Other_0@
                        == token_string_error(old(self).parts()[0]),
                }
            },
    {
        let frame = self.next()?;
        match frame {
            Frame::Simple(s) => Ok(s),
            Frame::Bulk(data) => match utf8_to_string(data.as_slice()) {
                Some(s) => Ok(s),
                None => Err(ParseError::Other("protocol error; invalid string".to_string())),
            },
            frame => {
                let shown = frame_debug(&frame);
                Err(
                    ParseError::Other(
                        concat_text(
                            "protocol error; expected simple frame or bulk frame, got ",
                            shown.as_str(),
                        ),
                    ),
                )
            },
        }
    }

    /// Return the next entry as raw bytes.
    ///
    /// If the next entry cannot be represented as raw bytes, an error is
    /// returned. The entry is taken either way.
    pub fn next_bytes(&mut self) -> (res: Result<Vec<u8>, ParseError>)
        ensures
            old(self).parts().len() == 0 ==> {
                &&& res is Err && res->Err_0 is EndOfStream
                &&& final(self).parts() == old(self).parts()
            },
            old(self).parts().len() > 0 ==> {
                &&& final(self).parts() == old(self).parts().drop_first()
                &&& match token_bytes(old(self).parts()[0]) {
                    Some(b) => res is Ok && res->Ok_0@ == b,
                    None => res is Err && res->Err_0 is Other && res->Err_0->Other_0@
                        == token_bytes_error(old(self).parts()[0]),
                }
            },
    {
        let frame = self.next()?;
        match frame {
            Frame::Simple(s) => {
                let mut out: Vec<u8> = Vec::new();
                crate::text::push_bytes(&mut out, s.as_str().as_bytes());
                Ok(out)
            },
            Frame::Bulk(data) => Ok(data),
            frame => {
                let shown = frame_debug(&frame);
                Err(
                    ParseError::Other(
                        concat_text(
                            "protocol error; expected simple frame or bulk frame, got ",
                            shown.as_str(),
                        ),
                    ),
                )
            },
        }
    }

    /// All the remaining entries as one text; every entry is taken.
    ///
    /// Simple and error entries give their text, integers their decimal
    /// numeral, bulk entries their bytes read as UTF-8 (invalid sequences
    /// replaced), null entries `null`; an array entry gives the texts of its
    /// own entries, of which nested arrays give nothing.
    pub fn to_string(&mut self) -> (result: String)
        ensures
            result@ == parts_text(old(self).parts()),
            final(self).parts().len() == 0,
    {
        let mut result = String::new();
        let mut parts: Vec<Frame> = Vec::new();
        std::mem::swap(&mut parts, &mut self.parts);
        let ghost all = frames_view(parts@);
        proof {
            lemma_frames_view(parts@);
        }
        let mut i: usize = 0;
        while i < parts.len()
            invariant
                i <= parts@.len(),
                all == frames_view(parts@),
                all.len() == parts@.len(),
                forall|k: int| 0 <= k < parts@.len() ==> #[trigger] all[k] == frame_view(parts@[k]),
                result@ == parts_text(all.take(i as int)),
                self.parts@.len() == 0,
            decreases parts@.len() - i,
        {
            let part = &parts[i];
            let text = part_string(part);
            result.append(text.as_str());
            proof {
                assert(all.take(i + 1).drop_last() =~= all.take(i as int));
            }
            i = i + 1;
        }
        proof {
            assert(all.take(i as int) =~= all);
            lemma_frames_view(self.parts@);
        }
        result
    }
}

/// The text of one entry nested in an array entry.
fn inner_string(f: &Frame) -> (s: String)
    ensures
        s@ == inner_text(f@),
{
    match f {
        Frame::Simple(s) => s.clone(),
        Frame::Error(e) => e.clone(),
        Frame::Integer(i) => decimal_string(*i),
        Frame::Bulk(b) => lossy_string(b.as_slice()),
        Frame::Null => {
            let s = "null".to_string();
            proof {
                reveal_strlit("null");
                assert(s@ =~= seq!['n', 'u', 'l', 'l']);
            }
            s
        },
        Frame::Array(_) => String::new(),
    }
}

/// The text of one entry.
fn part_string(f: &Frame) -> (s: String)
    ensures
        s@ == part_text(f@),
{
    match f {
        Frame::Array(a) => {
            let mut result = String::new();
            let ghost all = frames_view(a@);
            proof {
                lemma_frames_view(a@);
            }
            let mut i: usize = 0;
            while i < a.len()
                invariant
                    i <= a@.len(),
                    *f == Frame::Array(*a),
                    all == frames_view(a@),
                    all.len() == a@.len(),
                    forall|k: int| 0 <= k < a@.len() ==> #[trigger] all[k] == frame_view(a@[k]),
                    result@ == inner_texts(all.take(i as int)),
                decreases a@.len() - i,
            {
                let text = inner_string(&a[i]);
                result.append(text.as_str());
                proof {
                    assert(all.take(i + 1).drop_last() =~= all.take(i as int));
                }
                i = i + 1;
            }
            proof {
                assert(all.take(i as int) =~= all);
            }
            result
        },
        other => inner_string(other),
    }
}

} // verus!
