//! `SET key value [EX seconds|PX milliseconds]`: write the value of a key.
use vstd::prelude::*;
use vstd::slice::slice_to_vec;

use crate::cmd::command::CommandRead;
use crate::db::{deadline, Db, Expire, Stored};
use crate::frame::{Frame, SpecFrame};
use crate::parse::{
    token_bytes, token_bytes_error, token_string, token_string_error, Parse, ParseError,
};
use crate::text::{parse_u64_text, str_to_u64, text_is, to_uppercase, uppercase};

verus! {

/// Write the value of a key, optionally with an expiration.
#[derive(Debug)]
pub struct SetCmd {
    key: String,
    value: Vec<u8>,
    expire: Option<Expire>,
}

/// What reading the optional expiration gives: the expiration in
/// milliseconds (none when there is none), or an error.
pub enum ExpireRead {
    Done(Option<nat>),
    EndOfStream,
    Other(Seq<char>),
}

/// The error text when the seconds after `EX` are not a number.
pub open spec fn msg_ex_integer() -> Seq<char> {
    "EX value must be an integer"@
}

/// The error text when the milliseconds after `PX` are not a number.
pub open spec fn msg_px_integer() -> Seq<char> {
    "PX value must be an integer"@
}

/// Reading the expiration that follows an option whose upper-cased text is
/// `upper`, from the tokens `rest`: `EX` takes seconds and `PX`
/// milliseconds from the next token, which must be a decimal number; any
/// other option means no expiration and takes nothing more. The result, and
/// how many tokens are taken.
pub open spec fn expire_read(upper: Seq<char>, rest: Seq<SpecFrame>) -> (ExpireRead, nat) {
    let unit: nat = if upper == seq!['E', 'X'] {
        1000
    } else if upper == seq!['P', 'X'] {
        1
    } else {
        0
    };
    if unit == 0 {
        (ExpireRead::Done(None), 0)
    } else if rest.len() == 0 {
        (ExpireRead::EndOfStream, 0)
    } else {
        match token_string(rest[0]) {
            Some(t) => match parse_u64_text(t) {
                Some(n) => (ExpireRead::Done(Some((n * unit) as nat)), 1),
                None => (
                    ExpireRead::Other(
                        if unit == 1000 {
                            msg_ex_integer()
                        } else {
                            msg_px_integer()
                        },
                    ),
                    1,
                ),
            },
            None => (ExpireRead::Other(token_string_error(rest[0])), 1),
        }
    }
}

/// Reading a `SET` from the tokens `parts`: key, value and the optional
/// expiration, with the result and how many tokens are taken.
pub open spec fn set_read(parts: Seq<SpecFrame>) -> (CommandRead, nat) {
    if parts.len() == 0 {
        (CommandRead::EndOfStream, 0)
    } else if token_string(parts[0]) is None {
        (CommandRead::Other(token_string_error(parts[0])), 1)
    } else if parts.len() == 1 {
        (CommandRead::EndOfStream, 1)
    } else if token_bytes(parts[1]) is None {
        (CommandRead::Other(token_bytes_error(parts[1])), 2)
    } else {
        let key = token_string(parts[0])->Some_0;
        let value = token_bytes(parts[1])->Some_0;
        if parts.len() == 2 {
            (CommandRead::SetCmd(key, value, None), 2)
        } else if token_string(parts[2]) is None {
            (CommandRead::Other(token_string_error(parts[2])), 3)
        } else {
            let (e, n) = expire_read(uppercase(token_string(parts[2])->Some_0), parts.skip(3));
            match e {
                ExpireRead::Done(x) => (CommandRead::SetCmd(key, value, x), 3 + n),
                ExpireRead::EndOfStream => (CommandRead::EndOfStream, 3 + n),
                ExpireRead::Other(t) => (CommandRead::Other(t), 3 + n),
            }
        }
    }
}

/// The expiration in milliseconds, if any.
pub open spec fn expire_millis(e: Option<Expire>) -> Option<nat> {
    match e {
        Some(x) => Some(x.millis()),
        None => None,
    }
}

impl SetCmd {
    /// The key to write.
    pub closed spec fn key_view(&self) -> Seq<char> {
        self.key@
    }

    /// The value to write.
    pub closed spec fn value_view(&self) -> Seq<u8> {
        self.value@
    }

    /// The expiration.
    pub closed spec fn expire_view(&self) -> Option<Expire> {
        self.expire
    }

    /// A `SET` of `key` to `value`.
    pub fn new(key: &str, value: Vec<u8>, expire: Option<Expire>) -> (s: SetCmd)
        ensures
            s.key_view() == key@,
            s.value_view() == value@,
            s.expire_view() == expire,
    {
        SetCmd { key: key.to_string(), value, expire }
    }

    /// The key to write.
    pub fn key(&self) -> (k: &str)
        ensures
            k@ == self.key_view(),
    {
        self.key.as_str()
    }

    /// The value to write.
    pub fn value(&self) -> (v: &[u8])
        ensures
            v@ == self.value_view(),
    {
        self.value.as_slice()
    }

    /// The expiration.
    pub fn expire(&self) -> (e: Option<Expire>)
        ensures
            e == self.expire_view(),
    {
        self.expire
    }

    /// Reads the expiration that follows an option, given the option's
    /// upper-cased text.
    pub fn parse_expire(upper: &str, parse: &mut Parse) -> (res: Result<Option<Expire>, ParseError>)
        ensures
            ({
                let (e, n) = expire_read(upper@, old(parse).parts());
                &&& final(parse).parts() == old(parse).parts().skip(n as int)
                &&& match e {
                    ExpireRead::Done(x) => res is Ok && expire_millis(res->Ok_0) == x,
                    ExpireRead::EndOfStream => res is Err && res->Err_0 is EndOfStream,
                    ExpireRead::Other(t) => res is Err && res->Err_0 is Other
                        && res->Err_0->Other_0@ == t,
                }
            }),
    {
        proof {
            reveal_strlit("EX");
            reveal_strlit("PX");
            assert("EX"@ =~= seq!['E', 'X']);
            assert("PX"@ =~= seq!['P', 'X']);
            let parts = old(parse).parts();
            assert(parts.skip(0) =~= parts);
            if parts.len() >= 1 {
                assert(parts.skip(1) =~= parts.drop_first());
            }
        }
        if text_is(upper, "EX") {
            let text = match parse.next_string() {
                Ok(t) => t,
                Err(e) => return Err(e),
            };
            let n = match str_to_u64(text.as_str()) {
                Some(n) => n,
                None => return Err(ParseError::from("EX value must be an integer".to_string())),
            };
            Ok(Some(Expire::from_secs(n)))
        } else if text_is(upper, "PX") {
            let text = match parse.next_string() {
                Ok(t) => t,
                Err(e) => return Err(e),
            };
            let n = match str_to_u64(text.as_str()) {
                Some(n) => n,
                None => return Err(ParseError::from("PX value must be an integer".to_string())),
            };
            Ok(Some(Expire::from_millis(n)))
        } else {
            Ok(None)
        }
    }

    /// Reads the key, the value and an optional `EX seconds` or
    /// `PX milliseconds` from the command's remaining tokens.
    pub fn parse_frames(parse: &mut Parse) -> (res: Result<SetCmd, ParseError>)
        ensures
            ({
                let (r, n) = set_read(old(parse).parts());
                &&& final(parse).parts() == old(parse).parts().skip(n as int)
                &&& match r {
                    CommandRead::SetCmd(k, v, x) => res is Ok && res->Ok_0.key_view() == k
                        && res->Ok_0.value_view() == v && expire_millis(res->Ok_0.expire_view())
                        == x,
                    CommandRead::EndOfStream => res is Err && res->Err_0 is EndOfStream,
                    CommandRead::Other(t) => res is Err && res->Err_0 is Other
                        && res->Err_0->Other_0@ == t,
                    _ => false,
                }
            }),
    {
        let ghost parts = parse.parts();
        proof {
            assert(parts.skip(0) =~= parts);
            if parts.len() >= 1 {
                assert(parts.skip(1) =~= parts.drop_first());
            }
            if parts.len() >= 2 {
                assert(parts.skip(2) =~= parts.drop_first().drop_first());
            }
            if parts.len() >= 3 {
                assert(parts.skip(3) =~= parts.drop_first().drop_first().drop_first());
            }
        }
        let key = parse.next_string()?;
        let value = parse.next_bytes()?;
        let expire = match parse.next_string() {
            Ok(opt) => {
                let upper = to_uppercase(opt.as_str());
                let r = SetCmd::parse_expire(upper.as_str(), parse);
                proof {
                    let (e, n) = expire_read(upper@, parts.skip(3));
                    assert(parts.skip(3).skip(n as int) =~= parts.skip(3 + n as int));
                }
                r?
            },
            Err(ParseError::EndOfStream) => None,
            Err(e) => return Err(e),
        };
        Ok(SetCmd { key, value, expire })
    }

    /// Writes the key in `db` at time `now`; the reply is `OK`.
    pub fn apply(&self, db: &mut Db, now: u64) -> (f: Frame)
        ensures
            final(db).contents() == old(db).contents().insert(
                self.key_view(),
                Stored { value: self.value_view(), expires_at: deadline(now as nat, self.expire_view()) },
            ),
            f@ == SpecFrame::Simple(seq!['O', 'K']),
    {
        db.set(self.key.clone(), slice_to_vec(self.value.as_slice()), self.expire, now);
        let ok = "OK".to_string();
        proof {
            reveal_strlit("OK");
            assert(ok@ =~= seq!['O', 'K']);
        }
        Frame::Simple(ok)
    }
}

} // verus!
