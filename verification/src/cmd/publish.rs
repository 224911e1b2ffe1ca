//! `PUBLISH channel message`: send a message to a channel's subscribers.
use vstd::prelude::*;

use crate::cmd::command::CommandRead;
use crate::frame::{Frame, SpecFrame};
use crate::parse::{
    token_bytes, token_bytes_error, token_string, token_string_error, Parse, ParseError,
};

verus! {

/// Send a message to the subscribers of a channel.
#[derive(Debug)]
pub struct Publish {
    channel: String,
    message: Vec<u8>,
}

/// Reading a `PUBLISH` from the tokens `parts`: the channel and the
/// message, with how many tokens are taken.
pub open spec fn publish_read(parts: Seq<SpecFrame>) -> (CommandRead, nat) {
    if parts.len() == 0 {
        (CommandRead::EndOfStream, 0)
    } else if token_string(parts[0]) is None {
        (CommandRead::Other(token_string_error(parts[0])), 1)
    } else if parts.len() == 1 {
        (CommandRead::EndOfStream, 1)
    } else {
        match token_bytes(parts[1]) {
            Some(m) => (CommandRead::Publish(token_string(parts[0])->Some_0, m), 2),
            None => (CommandRead::Other(token_bytes_error(parts[1])), 2),
        }
    }
}

impl Publish {
    /// The channel to publish on.
    pub closed spec fn channel_view(&self) -> Seq<char> {
        self.channel@
    }

    /// The message to publish.
    pub closed spec fn message_view(&self) -> Seq<u8> {
        self.message@
    }

    /// A `PUBLISH` of `message` on `channel`.
    pub fn new(channel: &str, message: Vec<u8>) -> (p: Publish)
        ensures
            p.channel_view() == channel@,
            p.message_view() == message@,
    {
        Publish { channel: channel.to_string(), message }
    }

    /// The channel to publish on.
    pub fn channel(&self) -> (c: &str)
        ensures
            c@ == self.channel_view(),
    {
        self.channel.as_str()
    }

    /// The message to publish.
    pub fn message(&self) -> (m: &[u8])
        ensures
            m@ == self.message_view(),
    {
        self.message.as_slice()
    }

    /// Reads the channel and the message from the command's remaining
    /// tokens.
    pub fn parse_frames(parse: &mut Parse) -> (res: Result<Publish, ParseError>)
        ensures
            ({
                let (r, n) = publish_read(old(parse).parts());
                &&& final(parse).parts() == old(parse).parts().skip(n as int)
                &&& match r {
                    CommandRead::Publish(c, m) => res is Ok && res->Ok_0.channel_view() == c
                        && res->Ok_0.message_view() == m,
                    CommandRead::EndOfStream => res is Err && res->Err_0 is EndOfStream,
                    CommandRead::Other(t) => res is Err && res->Err_0 is Other
                        && res->Err_0->Other_0@ == t,
                    _ => false,
                }
            }),
    {
        proof {
            let parts = old(parse).parts();
            assert(parts.skip(0) =~= parts);
            if parts.len() >= 1 {
                assert(parts.skip(1) =~= parts.drop_first());
            }
            if parts.len() >= 2 {
                assert(parts.skip(2) =~= parts.drop_first().drop_first());
            }
        }
        let channel = parse.next_string()?;
        let message = parse.next_bytes()?;
        Ok(Publish { channel, message })
    }

    /// The reply to the command, given how many subscribers the message
    /// reached: that number as an integer frame.
    pub fn apply(&self, receivers: usize) -> (f: Frame)
        ensures
            f@ == SpecFrame::Integer(receivers as u64),
    {
        Frame::Integer(receivers as u64)
    }
}

} // verus!
