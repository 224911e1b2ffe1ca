//! `SUBSCRIBE channel [channel ...]`: listen to one or more channels.
use vstd::prelude::*;

use crate::cmd::command::CommandRead;
use crate::frame::SpecFrame;
use crate::parse::{token_string, token_string_error, Parse, ParseError};

verus! {

/// Listen to one or more channels.
#[derive(Debug)]
pub struct Subscribe {
    channels: Vec<String>,
}

/// The texts of some strings.
pub open spec fn texts(v: Seq<String>) -> Seq<Seq<char>> {
    v.map_values(|s: String| s@)
}

/// The first of `parts` from `i` on that is not a string token, or the
/// number of parts when there is none.
pub open spec fn first_non_string(parts: Seq<SpecFrame>, i: int) -> int
    decreases parts.len() - i,
{
    if i < 0 || i >= parts.len() {
        parts.len() as int
    } else if token_string(parts[i]) is None {
        i
    } else {
        first_non_string(parts, i + 1)
    }
}

/// Reading a `SUBSCRIBE` from the tokens `parts`: every remaining token,
/// each a string, and at least one; with how many tokens are taken.
pub open spec fn subscribe_read(parts: Seq<SpecFrame>) -> (CommandRead, nat) {
    let b = first_non_string(parts, 0);
    if b < parts.len() {
        (CommandRead::Other(token_string_error(parts[b])), (b + 1) as nat)
    } else if parts.len() == 0 {
        (CommandRead::Other(msg_no_channel()), 0)
    } else {
        (
            CommandRead::Subscribe(
                Seq::new(parts.len(), |i: int| token_string(parts[i])->Some_0),
            ),
            parts.len(),
        )
    }
}

/// The error text for a `SUBSCRIBE` without channels.
pub open spec fn msg_no_channel() -> Seq<char> {
    "SUBSCRIBE requires at least one channel"@
}

/// Where `first_non_string` stops, and that all before are strings.
proof fn lemma_first_non_string(parts: Seq<SpecFrame>, i: int)
    requires
        0 <= i <= parts.len(),
    ensures
        i <= first_non_string(parts, i) <= parts.len(),
        first_non_string(parts, i) < parts.len() ==> token_string(
            parts[first_non_string(parts, i)],
        ) is None,
        forall|j: int| i <= j < first_non_string(parts, i) ==> token_string(#[trigger] parts[j]) is Some,
    decreases parts.len() - i,
{
    if i < parts.len() && token_string(parts[i]) is Some {
        lemma_first_non_string(parts, i + 1);
    }
}

impl Subscribe {
    /// The channels to listen to.
    pub closed spec fn channels_view(&self) -> Seq<Seq<char>> {
        texts(self.channels@)
    }

    /// A `SUBSCRIBE` to `channels`.
    pub fn new(channels: Vec<String>) -> (s: Subscribe)
        ensures
            s.channels_view() == texts(channels@),
    {
        Subscribe { channels }
    }

    /// The channels to listen to.
    pub fn channels(&self) -> (c: &[String])
        ensures
            texts(c@) == self.channels_view(),
    {
        self.channels.as_slice()
    }

    /// Reads the channels: every remaining token of the command.
    pub fn parse_frames(parse: &mut Parse) -> (res: Result<Subscribe, ParseError>)
        ensures
            ({
                let (r, n) = subscribe_read(old(parse).parts());
                &&& final(parse).parts() == old(parse).parts().skip(n as int)
                &&& match r {
                    CommandRead::Subscribe(c) => res is Ok && res->Ok_0.channels_view() == c,
                    CommandRead::EndOfStream => res is Err && res->Err_0 is EndOfStream,
                    CommandRead::Other(t) => res is Err && res->Err_0 is Other
                        && res->Err_0->Other_0@ == t,
                    _ => false,
                }
            }),
    {
        let ghost parts = parse.parts();
        proof {
            lemma_first_non_string(parts, 0);
            assert(parts.skip(0) =~= parts);
        }
        let mut channels: Vec<String> = Vec::new();
        loop
            invariant
                parts == old(parse).parts(),
                channels@.len() <= parts.len(),
                channels@.len() <= first_non_string(parts, 0),
                first_non_string(parts, 0) <= parts.len(),
                first_non_string(parts, 0) < parts.len() ==> token_string(
                    parts[first_non_string(parts, 0)],
                ) is None,
                forall|j: int| 0 <= j < first_non_string(parts, 0) ==> token_string(#[trigger] parts[j]) is Some,
                parse.parts() == parts.skip(channels@.len() as int),
                forall|j: int|
                    0 <= j < channels@.len() ==> #[trigger] channels@[j]@ == token_string(
                        parts[j],
                    )->Some_0,
            ensures
                channels@.len() == parts.len(),
                parse.parts().len() == 0,
            decreases parse.parts().len(),
        {
            let ghost k = channels@.len() as int;
            proof {
                if k < parts.len() {
                    assert(parts.skip(k)[0] == parts[k]);
                    assert(parts.skip(k).drop_first() =~= parts.skip(k + 1));
                }
            }
            match parse.next_string() {
                Ok(ch) => {
                    channels.push(ch);
                },
                Err(ParseError::EndOfStream) => {
                    break ;
                },
                Err(e) => {
                    return Err(e);
                },
            }
        }
        if channels.len() == 0 {
            return Err(ParseError::from("SUBSCRIBE requires at least one channel".to_string()));
        }
        proof {
            assert(texts(channels@) =~= Seq::new(
                parts.len(),
                |i: int| token_string(parts[i])->Some_0,
            ));
        }
        Ok(Subscribe { channels })
    }
}

} // verus!
