//! Reading a command from a frame.
use vstd::prelude::*;

use crate::cmd::get::{get_read, Get};
use crate::cmd::publish::{publish_read, Publish};
use crate::cmd::set::{expire_millis, set_read, SetCmd};
use crate::cmd::subscribe::{subscribe_read, Subscribe};
use crate::frame::{Frame, SpecFrame};
use crate::parse::{
    frame_debug_text, msg_expected_array, token_string, token_string_error, Parse, ParseError,
};
use crate::text::{concat_text, lowercase, str_debug_text, text_debug, text_is, to_lowercase};

verus! {

/// What reading a command gives: the command's fields, or an error.
pub enum CommandRead {
    Get(Seq<char>),
    SetCmd(Seq<char>, Seq<u8>, Option<nat>),
    Publish(Seq<char>, Seq<u8>),
    Subscribe(Seq<Seq<char>>),
    EndOfStream,
    Other(Seq<char>),
}

/// A command a client can send.
#[derive(Debug)]
pub enum Command {
    Get(Get),
    SetCmd(SetCmd),
    Publish(Publish),
    Subscribe(Subscribe),
}

/// Reading the command named `name` (in lower case) from the tokens that
/// follow the name, with how many tokens are taken. An unknown name is an
/// error and takes nothing.
pub open spec fn command_read(name: Seq<char>, parts: Seq<SpecFrame>) -> (CommandRead, nat) {
    if name == seq!['g', 'e', 't'] {
        get_read(parts)
    } else if name == seq!['s', 'e', 't'] {
        set_read(parts)
    } else if name == seq!['p', 'u', 'b', 'l', 'i', 's', 'h'] {
        publish_read(parts)
    } else if name == seq!['s', 'u', 'b', 's', 'c', 'r', 'i', 'b', 'e'] {
        subscribe_read(parts)
    } else {
        (CommandRead::Other(msg_unknown_command() + str_debug_text(name)), 0)
    }
}

/// The start of the error text for a name that names no command.
pub open spec fn msg_unknown_command() -> Seq<char> {
    "protocol error; unknown command "@
}

/// What reading a command from the frame `f` gives: its first entry names
/// the command, in any case, and the entries after it are the arguments.
pub open spec fn frame_command(f: SpecFrame) -> CommandRead {
    match f {
        SpecFrame::Array(parts) => if parts.len() == 0 {
            CommandRead::EndOfStream
        } else {
            match token_string(parts[0]) {
                Some(name) => command_read(lowercase(name), parts.drop_first()).0,
                None => CommandRead::Other(token_string_error(parts[0])),
            }
        },
        _ => CommandRead::Other(msg_expected_array() + frame_debug_text(f)),
    }
}

/// The exec result `res` is what `r` describes.
pub open spec fn command_agrees(r: CommandRead, res: Result<Command, ParseError>) -> bool {
    match r {
        CommandRead::Get(k) => res matches Ok(Command::Get(g)) && g.key_view() == k,
        CommandRead::SetCmd(k, v, x) => res matches Ok(Command::SetCmd(s)) && s.key_view() == k
            && s.value_view() == v && expire_millis(s.expire_view()) == x,
        CommandRead::Publish(c, m) => res matches Ok(Command::Publish(p)) && p.channel_view() == c
            && p.message_view() == m,
        CommandRead::Subscribe(c) => res matches Ok(Command::Subscribe(s)) && s.channels_view()
            == c,
        CommandRead::EndOfStream => res is Err && res->Err_0 is EndOfStream,
        CommandRead::Other(t) => res is Err && res->Err_0 is Other && res->Err_0->Other_0@ == t,
    }
}

impl Command {
    /// Reads the command named `name`, given in lower case, from the tokens
    /// that follow the name.
    pub fn from_name(name: &str, parse: &mut Parse) -> (res: Result<Command, ParseError>)
        ensures
            ({
                let (r, n) = command_read(name@, old(parse).parts());
                &&& final(parse).parts() == old(parse).parts().skip(n as int)
                &&& command_agrees(r, res)
            }),
    {
        proof {
            reveal_strlit("get");
            reveal_strlit("set");
            reveal_strlit("publish");
            reveal_strlit("subscribe");
            assert("get"@ =~= seq!['g', 'e', 't']);
            assert("set"@ =~= seq!['s', 'e', 't']);
            assert("publish"@ =~= seq!['p', 'u', 'b', 'l', 'i', 's', 'h']);
            assert("subscribe"@ =~= seq!['s', 'u', 'b', 's', 'c', 'r', 'i', 'b', 'e']);
            assert(old(parse).parts().skip(0) =~= old(parse).parts());
        }
        if text_is(name, "get") {
            match Get::parse_frames(parse) {
                Ok(c) => Ok(Command::Get(c)),
                Err(e) => Err(e),
            }
        } else if text_is(name, "set") {
            match SetCmd::parse_frames(parse) {
                Ok(c) => Ok(Command::SetCmd(c)),
                Err(e) => Err(e),
            }
        } else if text_is(name, "publish") {
            match Publish::parse_frames(parse) {
                Ok(c) => Ok(Command::Publish(c)),
                Err(e) => Err(e),
            }
        } else if text_is(name, "subscribe") {
            match Subscribe::parse_frames(parse) {
                Ok(c) => Ok(Command::Subscribe(c)),
                Err(e) => Err(e),
            }
        } else {
            let shown = text_debug(name);
            Err(ParseError::Other(concat_text("protocol error; unknown command ", shown.as_str())))
        }
    }

    /// Reads a command from an array frame: its first entry names the
    /// command, in any case, and the entries after it are the command's
    /// arguments.
    pub fn from_frame(frame: Frame) -> (res: Result<Command, ParseError>)
        ensures
            command_agrees(frame_command(frame@), res),
    {
        let mut parse = match Parse::new(frame) {
            Ok(p) => p,
            Err(e) => return Err(e),
        };
        let name = match parse.next_string() {
            Ok(n) => n,
            Err(e) => return Err(e),
        };
        let lower = to_lowercase(name.as_str());
        Command::from_name(lower.as_str(), &mut parse)
    }
}

} // verus!
