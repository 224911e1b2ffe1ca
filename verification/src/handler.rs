//! What a connection does with each frame a client sends.
use vstd::prelude::*;

use crate::cmd::command::{frame_command, Command, CommandRead};
use crate::cmd::publish::Publish;
use crate::cmd::set::expire_millis;
use crate::cmd::subscribe::Subscribe;
use crate::cmd::get::get_reply;
use crate::db::{Db, Stored};
use crate::frame::{frames_view, lemma_frames_view, Frame, SpecFrame};
use crate::text::{bytes_of, concat_text};
use vstd::utf8::encode_utf8;
use crate::parse::ParseError;

verus! {

/// What the connection does next with a frame from the client.
#[derive(Debug)]
pub enum Step {
    /// Write this frame to the client, then read the next frame.
    Reply(Frame),
    /// Send the message to the channel's subscribers, then write
    /// `Publish::apply` of how many it reached, then read the next frame.
    Publish(Publish),
    /// Confirm each channel and then forward its messages; the connection
    /// reads no further commands.
    Subscribe(Subscribe),
}

/// When an entry written at `now` with an expiration of `millis` is gone.
pub open spec fn expires(now: nat, millis: Option<nat>) -> Option<nat> {
    match millis {
        Some(m) => Some(now + m),
        None => None,
    }
}

/// The text that `format!("{:?}")` writes for a command reading error,
/// given by its value: `None` for the end of the tokens, else its text.
pub uninterp spec fn parse_error_debug_text(e: Option<Seq<char>>) -> Seq<char>;

/// Calls `format!("{:?}")` on a command reading error, which writes the
/// text that the derived `Debug` of `ParseError` gives. That text is not
/// restated here: the result is the name `parse_error_debug_text` of the
/// error's value.
#[verifier::external_body]
fn error_debug(e: &ParseError) -> (res: String)
    ensures
        res@ == parse_error_debug_text(e@),
{
    format!("{:?}", e)
}

/// The text of the error frame that answers a frame holding no command:
/// `ERR ` and then the `Debug` text of the error.
pub open spec fn error_reply_text(e: Option<Seq<char>>) -> Seq<char> {
    seq!['E', 'R', 'R', ' '] + parse_error_debug_text(e)
}

/// Handles one frame from the client at time `now`: reads the command,
/// applies `GET` and `SET` to `db`, and says what the connection does next.
/// A frame that holds no command is answered with an error frame.
pub fn handle_frame(db: &mut Db, frame: Frame, now: u64) -> (step: Step)
    ensures
        match frame_command(frame@) {
            CommandRead::Get(k) => {
                &&& final(db).contents() == old(db).contents()
                &&& step matches Step::Reply(f) && f@ == get_reply(old(db).contents(), k, now as nat)
            },
            CommandRead::SetCmd(k, v, x) => {
                &&& final(db).contents() == old(db).contents().insert(
                    k,
                    Stored { value: v, expires_at: expires(now as nat, x) },
                )
                &&& step matches Step::Reply(f) && f@ == SpecFrame::Simple(seq!['O', 'K'])
            },
            CommandRead::Publish(c, m) => {
                &&& final(db).contents() == old(db).contents()
                &&& step matches Step::Publish(p) && p.channel_view() == c && p.message_view()
                    == m
            },
            CommandRead::Subscribe(c) => {
                &&& final(db).contents() == old(db).contents()
                &&& step matches Step::Subscribe(s) && s.channels_view() == c
            },
            CommandRead::EndOfStream => {
                &&& final(db).contents() == old(db).contents()
                &&& step matches Step::Reply(f) && f@ == SpecFrame::Error(error_reply_text(None))
            },
            CommandRead::Other(t) => {
                &&& final(db).contents() == old(db).contents()
                &&& step matches Step::Reply(f) && f@ == SpecFrame::Error(error_reply_text(Some(t)))
            },
        },
{
    match Command::from_frame(frame) {
        Ok(Command::Get(cmd)) => Step::Reply(cmd.apply(db, now)),
        Ok(Command::SetCmd(cmd)) => {
            let reply = cmd.apply(db, now);
            proof {
                assert(crate::db::deadline(now as nat, cmd.expire_view()) == expires(
                    now as nat,
                    expire_millis(cmd.expire_view()),
                ));
            }
            Step::Reply(reply)
        },
        Ok(Command::Publish(cmd)) => Step::Publish(cmd),
        Ok(Command::Subscribe(cmd)) => Step::Subscribe(cmd),
        Err(e) => {
            let shown = error_debug(&e);
            let text = concat_text("ERR ", shown.as_str());
            proof {
                reveal_strlit("ERR ");
                assert("ERR "@ =~= seq!['E', 'R', 'R', ' ']);
            }
            Step::Reply(Frame::Error(text))
        },
    }
}

/// What a read gives back of a write: on any store, handling a `SET` frame
/// and then a `GET` frame for the same key, before the `SET`'s expiration
/// has passed, replies to the `GET` with the value the `SET` wrote.
pub proof fn lemma_get_after_set(
    m: Map<Seq<char>, Stored>,
    set: SpecFrame,
    get: SpecFrame,
    now: nat,
    later: nat,
)
    requires
        frame_command(set) is SetCmd,
        frame_command(get) is Get,
        frame_command(get)->Get_0 == frame_command(set)->SetCmd_0,
        frame_command(set)->SetCmd_2 matches Some(ms) ==> later < now + ms,
    ensures
        ({
            let key = frame_command(set)->SetCmd_0;
            let value = frame_command(set)->SetCmd_1;
            let written = m.insert(
                key,
                Stored { value, expires_at: expires(now, frame_command(set)->SetCmd_2) },
            );
            get_reply(written, key, later) == SpecFrame::Bulk(value)
        }),
{
}

/// The frame that confirms a subscription to `channel`, the `count`-th
/// channel of the command.
pub fn subscribe_confirmation(channel: &str, count: u64) -> (f: Frame)
    ensures
        f@ == SpecFrame::Array(
            seq![
                SpecFrame::Bulk(encode_utf8(seq!['s', 'u', 'b', 's', 'c', 'r', 'i', 'b', 'e'])),
                SpecFrame::Bulk(encode_utf8(channel@)),
                SpecFrame::Integer(count),
            ],
        ),
{
    let mut parts: Vec<Frame> = Vec::new();
    parts.push(Frame::Bulk(bytes_of("subscribe")));
    parts.push(Frame::Bulk(bytes_of(channel)));
    parts.push(Frame::Integer(count));
    proof {
        reveal_strlit("subscribe");
        assert("subscribe"@ =~= seq!['s', 'u', 'b', 's', 'c', 'r', 'i', 'b', 'e']);
        lemma_frames_view(parts@);
    }
    let f = Frame::Array(parts);
    proof {
        assert(frames_view(parts@) =~= seq![
            SpecFrame::Bulk(encode_utf8(seq!['s', 'u', 'b', 's', 'c', 'r', 'i', 'b', 'e'])),
            SpecFrame::Bulk(encode_utf8(channel@)),
            SpecFrame::Integer(count),
        ]);
    }
    f
}

/// The frame that forwards `message`, published on `channel`, to a
/// subscriber.
pub fn message_frame(channel: &str, message: Vec<u8>) -> (f: Frame)
    ensures
        f@ == SpecFrame::Array(
            seq![
                SpecFrame::Bulk(encode_utf8(seq!['m', 'e', 's', 's', 'a', 'g', 'e'])),
                SpecFrame::Bulk(encode_utf8(channel@)),
                SpecFrame::Bulk(message@),
            ],
        ),
{
    let ghost m = message@;
    let mut parts: Vec<Frame> = Vec::new();
    parts.push(Frame::Bulk(bytes_of("message")));
    parts.push(Frame::Bulk(bytes_of(channel)));
    parts.push(Frame::Bulk(message));
    proof {
        reveal_strlit("message");
        assert("message"@ =~= seq!['m', 'e', 's', 's', 'a', 'g', 'e']);
        lemma_frames_view(parts@);
    }
    let f = Frame::Array(parts);
    proof {
        assert(frames_view(parts@) =~= seq![
            SpecFrame::Bulk(encode_utf8(seq!['m', 'e', 's', 's', 'a', 'g', 'e'])),
            SpecFrame::Bulk(encode_utf8(channel@)),
            SpecFrame::Bulk(m),
        ]);
    }
    f
}

} // verus!
