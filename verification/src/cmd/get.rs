//! `GET key`: read the value of a key.
use vstd::prelude::*;

use crate::cmd::command::CommandRead;
use crate::db::{lookup, Db, Stored};
use crate::frame::{Frame, SpecFrame};
use crate::parse::{token_string, token_string_error, Parse, ParseError};

verus! {

/// Read the value of a key.
#[derive(Debug)]
pub struct Get {
    key: String,
}

/// Reading a `GET` from the tokens `parts`: the key, with how many tokens
/// are taken.
pub open spec fn get_read(parts: Seq<SpecFrame>) -> (CommandRead, nat) {
    if parts.len() == 0 {
        (CommandRead::EndOfStream, 0)
    } else {
        match token_string(parts[0]) {
            Some(k) => (CommandRead::Get(k), 1),
            None => (CommandRead::Other(token_string_error(parts[0])), 1),
        }
    }
}

/// The reply to a `GET` of `key` at time `now` on a store holding `m`: the
/// value as a bulk frame, or null.
pub open spec fn get_reply(m: Map<Seq<char>, Stored>, key: Seq<char>, now: nat) -> SpecFrame {
    match lookup(m, key, now) {
        Some(v) => SpecFrame::Bulk(v),
        None => SpecFrame::Null,
    }
}

impl Get {
    /// The key to read.
    pub closed spec fn key_view(&self) -> Seq<char> {
        self.key@
    }

    /// A `GET` of `key`.
    pub fn new(key: &str) -> (g: Get)
        ensures
            g.key_view() == key@,
    {
        Get { key: key.to_string() }
    }

    /// The key to read.
    pub fn key(&self) -> (k: &str)
        ensures
            k@ == self.key_view(),
    {
        self.key.as_str()
    }

    /// Reads the key from the command's remaining tokens.
    pub fn parse_frames(parse: &mut Parse) -> (res: Result<Get, ParseError>)
        ensures
            ({
                let (r, n) = get_read(old(parse).parts());
                &&& final(parse).parts() == old(parse).parts().skip(n as int)
                &&& match r {
                    CommandRead::Get(k) => res is Ok && res->Ok_0.key_view() == k,
                    CommandRead::EndOfStream => res is Err && res->Err_0 is EndOfStream,
                    CommandRead::Other(t) => res is Err && res->Err_0 is Other
                        && res->Err_0->Other_0@ == t,
                    _ => false,
                }
            }),
    {
        proof {
            let parts = old(parse).parts();
            assert(parts.skip(0) =~= parts);
            if parts.len() >= 1 {
                assert(parts.skip(1) =~= parts.drop_first());
            }
        }
        let key = parse.next_string()?;
        Ok(Get { key })
    }

    /// The reply to the command: the key's value as a bulk frame, or null
    /// when the key holds nothing at time `now`.
    pub fn apply(&self, db: &Db, now: u64) -> (f: Frame)
        ensures
            f@ == get_reply(db.contents(), self.key_view(), now as nat),
    {
        match db.get(&self.key, now) {
            Some(value) => Frame::Bulk(value),
            None => Frame::Null,
        }
    }
}

} // verus!
