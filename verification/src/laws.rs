//! What a client's command frames are read as, stated over the frames a
//! client sends: text arguments as bulk entries holding their UTF-8 bytes,
//! binary arguments as bulk entries holding the bytes themselves.
use vstd::prelude::*;
use vstd::utf8::{decode_utf8, encode_utf8, encode_utf8_decode_utf8, encode_utf8_valid_utf8, valid_utf8};

use crate::cmd::command::{frame_command, CommandRead};
use crate::cmd::get::get_reply;
use crate::cmd::subscribe::first_non_string;
use crate::db::Stored;
use crate::frame::SpecFrame;
use crate::handler::expires;
use crate::parse::{inner_text, inner_texts, part_text, parts_text, token_bytes, token_string};
use crate::cursor::is_digit;
use crate::text::{
    chars_value, decimal, decimal_text, is_digit_char, lemma_decimal, lowercase, parse_u64_text,
    uppercase, utf8_lossy,
};

verus! {

broadcast use {encode_utf8_valid_utf8, encode_utf8_decode_utf8};

/// The bulk entry a client sends for a text argument: its UTF-8 bytes.
pub open spec fn text_arg(s: Seq<char>) -> SpecFrame {
    SpecFrame::Bulk(encode_utf8(s))
}

/// The entry `name` names the command `cmd`, in any case.
pub open spec fn names(name: SpecFrame, cmd: Seq<char>) -> bool {
    token_string(name) matches Some(n) && lowercase(n) == cmd
}

/// A text argument is read back as the very text that was sent, and so is
/// a simple entry's text; as bytes, a bulk entry reads as its bytes and a
/// simple entry as the UTF-8 bytes of its text.
pub proof fn lemma_text_arg_reads_back(s: Seq<char>)
    ensures
        token_string(text_arg(s)) == Some(s),
        token_string(SpecFrame::Simple(s)) == Some(s),
        token_bytes(text_arg(s)) == Some(encode_utf8(s)),
        token_bytes(SpecFrame::Simple(s)) == Some(encode_utf8(s)),
{
}

/// A bulk entry reads as its bytes, whatever they are.
pub proof fn lemma_bulk_reads_back(d: Seq<u8>)
    ensures
        token_bytes(SpecFrame::Bulk(d)) == Some(d),
{
}

/// The decimal numeral of a number is read back as that number.
pub proof fn lemma_numeral_reads_back(n: u64)
    ensures
        parse_u64_text(decimal_text(n as nat)) == Some(n),
{
    lemma_numeral_value(n as nat);
    let t = decimal_text(n as nat);
    assert(t.subrange(0, t.len() as int) =~= t);
    assert(!(t[0] == '+'));
}

/// The characters of a numeral are digits, at least one, and write its
/// number.
proof fn lemma_numeral_value(n: nat)
    ensures
        decimal_text(n).len() >= 1,
        forall|i: int| 0 <= i < decimal_text(n).len() ==> is_digit_char(#[trigger] decimal_text(n)[i]),
        chars_value(decimal_text(n)) == n,
    decreases n,
{
    lemma_decimal(n);
    let t = decimal_text(n);
    assert forall|i: int| 0 <= i < t.len() implies is_digit_char(#[trigger] t[i]) by {
        assert(is_digit(decimal(n)[i]));
    }
    if n >= 10 {
        lemma_numeral_value(n / 10);
        assert(t.drop_last() =~= decimal_text(n / 10));
        assert(decimal(n).last() == (48 + n % 10) as u8);
        assert(t.last() as nat - 48 == n % 10);
        let q = n / 10;
        let r = n % 10;
        assert(q * 10 + r == n) by (nonlinear_arith)
            requires
                q == n / 10,
                r == n % 10,
        ;
        assert(chars_value(t) == chars_value(t.drop_last()) * 10 + (t.last() as nat - 48) as nat);
        assert(chars_value(t) == q * 10 + r);
    } else {
        assert(t.drop_last() =~= Seq::<char>::empty());
        assert(t.last() as nat - 48 == n);
        assert(chars_value(t) == chars_value(t.drop_last()) * 10 + (t.last() as nat - 48) as nat);
        assert(chars_value(Seq::<char>::empty()) == 0);
    }
}

/// `GET key` reads the key exactly as it was sent, as a bulk or a simple
/// entry: whatever the case of the command's name, the key is not changed.
pub proof fn lemma_get_reads_sent_key(name: SpecFrame, key: Seq<char>)
    requires
        names(name, seq!['g', 'e', 't']),
    ensures
        frame_command(SpecFrame::Array(seq![name, text_arg(key)])) == CommandRead::Get(key),
        frame_command(SpecFrame::Array(seq![name, SpecFrame::Simple(key)])) == CommandRead::Get(
            key,
        ),
{
    let parts = seq![name, text_arg(key)];
    assert(parts.drop_first() =~= seq![text_arg(key)]);
    let simple = seq![name, SpecFrame::Simple(key)];
    assert(simple.drop_first() =~= seq![SpecFrame::Simple(key)]);
}

/// `SET key value` reads the key as it was sent, as a bulk or a simple
/// entry, and the value byte for byte, whatever the bytes are, and sets no
/// expiration.
pub proof fn lemma_set_reads_sent_key_and_value(name: SpecFrame, key: Seq<char>, value: Seq<u8>)
    requires
        names(name, seq!['s', 'e', 't']),
    ensures
        frame_command(SpecFrame::Array(seq![name, text_arg(key), SpecFrame::Bulk(value)]))
            == CommandRead::SetCmd(key, value, None),
        frame_command(SpecFrame::Array(seq![name, SpecFrame::Simple(key), SpecFrame::Bulk(value)]))
            == CommandRead::SetCmd(key, value, None),
{
    let parts = seq![name, text_arg(key), SpecFrame::Bulk(value)];
    assert(parts.drop_first() =~= seq![text_arg(key), SpecFrame::Bulk(value)]);
    let simple = seq![name, SpecFrame::Simple(key), SpecFrame::Bulk(value)];
    assert(simple.drop_first() =~= seq![SpecFrame::Simple(key), SpecFrame::Bulk(value)]);
}

/// `SET key value EX seconds` and `SET key value PX milliseconds`, the
/// option in any case, read the key as sent, the value byte for byte and
/// the number sent, as milliseconds: seconds times 1000, milliseconds as
/// they are.
pub proof fn lemma_set_reads_sent_expiration(
    name: SpecFrame,
    key: Seq<char>,
    value: Seq<u8>,
    option: SpecFrame,
    amount: u64,
)
    requires
        names(name, seq!['s', 'e', 't']),
        token_string(option) matches Some(o) && (uppercase(o) == seq!['E', 'X'] || uppercase(o)
            == seq!['P', 'X']),
    ensures
        frame_command(
            SpecFrame::Array(
                seq![
                    name,
                    text_arg(key),
                    SpecFrame::Bulk(value),
                    option,
                    text_arg(decimal_text(amount as nat)),
                ],
            ),
        ) == CommandRead::SetCmd(
            key,
            value,
            Some(
                if uppercase(token_string(option)->Some_0) == seq!['E', 'X'] {
                    (amount * 1000) as nat
                } else {
                    amount as nat
                },
            ),
        ),
{
    let parts = seq![
        name,
        text_arg(key),
        SpecFrame::Bulk(value),
        option,
        text_arg(decimal_text(amount as nat)),
    ];
    let rest = parts.drop_first();
    assert(rest =~= seq![
        text_arg(key),
        SpecFrame::Bulk(value),
        option,
        text_arg(decimal_text(amount as nat)),
    ]);
    assert(rest.skip(3) =~= seq![text_arg(decimal_text(amount as nat))]);
    lemma_numeral_reads_back(amount);
}

/// What a read gives back of a write, from the frames a client sends: on
/// any store, the frames `SET key value` and then `GET key` read the same
/// key, and the `GET` is answered with exactly the bytes the `SET` sent.
pub proof fn lemma_set_then_get_replies_sent_value(
    m: Map<Seq<char>, Stored>,
    set_name: SpecFrame,
    get_name: SpecFrame,
    key: Seq<char>,
    value: Seq<u8>,
    now: nat,
    later: nat,
)
    requires
        names(set_name, seq!['s', 'e', 't']),
        names(get_name, seq!['g', 'e', 't']),
    ensures
        frame_command(SpecFrame::Array(seq![set_name, text_arg(key), SpecFrame::Bulk(value)]))
            == CommandRead::SetCmd(key, value, None),
        frame_command(SpecFrame::Array(seq![get_name, text_arg(key)])) == CommandRead::Get(key),
        get_reply(
            m.insert(key, Stored { value, expires_at: expires(now, None) }),
            key,
            later,
        ) == SpecFrame::Bulk(value),
{
    lemma_set_reads_sent_key_and_value(set_name, key, value);
    lemma_get_reads_sent_key(get_name, key);
}

/// `PUBLISH channel message` reads the channel as it was sent and the
/// message byte for byte.
pub proof fn lemma_publish_reads_sent_channel_and_message(
    name: SpecFrame,
    channel: Seq<char>,
    message: Seq<u8>,
)
    requires
        names(name, seq!['p', 'u', 'b', 'l', 'i', 's', 'h']),
    ensures
        frame_command(SpecFrame::Array(seq![name, text_arg(channel), SpecFrame::Bulk(message)]))
            == CommandRead::Publish(channel, message),
{
    let parts = seq![name, text_arg(channel), SpecFrame::Bulk(message)];
    assert(parts.drop_first() =~= seq![text_arg(channel), SpecFrame::Bulk(message)]);
}

/// The entries a client sends for some text arguments.
pub open spec fn text_args(ss: Seq<Seq<char>>) -> Seq<SpecFrame> {
    ss.map_values(|s: Seq<char>| text_arg(s))
}

/// A run of text arguments holds no token that is not a string.
proof fn lemma_text_args_all_strings(ss: Seq<Seq<char>>, i: int)
    requires
        0 <= i <= ss.len(),
    ensures
        first_non_string(text_args(ss), i) == ss.len(),
    decreases ss.len() - i,
{
    if i < ss.len() {
        assert(text_args(ss)[i] == text_arg(ss[i]));
        lemma_text_arg_reads_back(ss[i]);
        lemma_text_args_all_strings(ss, i + 1);
    }
}

/// `SUBSCRIBE channel ...` reads every channel as it was sent, in the
/// order sent.
pub proof fn lemma_subscribe_reads_sent_channels(name: SpecFrame, channels: Seq<Seq<char>>)
    requires
        names(name, seq!['s', 'u', 'b', 's', 'c', 'r', 'i', 'b', 'e']),
        channels.len() >= 1,
    ensures
        frame_command(SpecFrame::Array(seq![name] + text_args(channels)))
            == CommandRead::Subscribe(channels),
{
    let parts = seq![name] + text_args(channels);
    let rest = text_args(channels);
    assert(parts.drop_first() =~= rest);
    assert(parts[0] == name);
    lemma_text_args_all_strings(channels, 0);
    assert(Seq::new(rest.len(), |i: int| token_string(rest[i])->Some_0) =~= channels) by {
        assert forall|i: int| 0 <= i < rest.len() implies token_string(rest[i])->Some_0
            == channels[i] by {
            assert(rest[i] == text_arg(channels[i]));
            lemma_text_arg_reads_back(channels[i]);
        }
    }
}

/// What `to_string` writes for each kind of entry: a simple or error
/// entry its text, an integer its decimal numeral, a null entry `null`, and
/// a bulk entry holding UTF-8 text that text, and other bytes the text
/// that `String::from_utf8_lossy` makes of them.
pub proof fn lemma_entry_texts(s: Seq<char>, n: u64, d: Seq<u8>)
    ensures
        parts_text(seq![SpecFrame::Simple(s)]) == s,
        parts_text(seq![SpecFrame::Error(s)]) == s,
        parts_text(seq![SpecFrame::Integer(n)]) == decimal_text(n as nat),
        parts_text(seq![SpecFrame::Null]) == seq!['n', 'u', 'l', 'l'],
        valid_utf8(d) ==> parts_text(seq![SpecFrame::Bulk(d)]) == decode_utf8(d),
        !valid_utf8(d) ==> parts_text(seq![SpecFrame::Bulk(d)]) == utf8_lossy(d),
{
    lemma_parts_text_one(SpecFrame::Simple(s));
    lemma_parts_text_one(SpecFrame::Error(s));
    lemma_parts_text_one(SpecFrame::Integer(n));
    lemma_parts_text_one(SpecFrame::Null);
    lemma_parts_text_one(SpecFrame::Bulk(d));
}

/// The text of a single entry.
proof fn lemma_parts_text_one(f: SpecFrame)
    ensures
        parts_text(seq![f]) == part_text(f),
{
    let one = seq![f];
    assert(one.drop_last() =~= Seq::<SpecFrame>::empty());
    assert(one.last() == f);
    assert(parts_text(Seq::<SpecFrame>::empty()) == Seq::<char>::empty());
    assert(Seq::<char>::empty() + part_text(f) =~= part_text(f));
}

/// The texts of two runs of entries, one after the other, are the text of
/// the two runs joined.
pub proof fn lemma_parts_text_concat(a: Seq<SpecFrame>, b: Seq<SpecFrame>)
    ensures
        parts_text(a + b) == parts_text(a) + parts_text(b),
    decreases b.len(),
{
    if b.len() == 0 {
        assert(a + b =~= a);
        assert(parts_text(a) + Seq::<char>::empty() =~= parts_text(a));
    } else {
        lemma_parts_text_concat(a, b.drop_last());
        assert((a + b).drop_last() =~= a + b.drop_last());
        assert((a + b).last() == b.last());
        assert(parts_text(a) + (parts_text(b.drop_last()) + part_text(b.last())) =~= (
        parts_text(a) + parts_text(b.drop_last())) + part_text(b.last()));
    }
}

/// Entries nested in an array entry write the same text as they would at
/// the top level: an array entry `a` whose entries are no arrays writes
/// the text of `a`'s entries, null entries included.
pub proof fn lemma_nested_entries_write_as_top_level(a: Seq<SpecFrame>)
    requires
        forall|i: int| 0 <= i < a.len() ==> !(#[trigger] a[i] is Array),
    ensures
        parts_text(seq![SpecFrame::Array(a)]) == parts_text(a),
    decreases a.len(),
{
    lemma_inner_texts_are_parts_texts(a);
    lemma_parts_text_one(SpecFrame::Array(a));
}

/// For entries that are no arrays, the nested texts are the top-level
/// texts.
proof fn lemma_inner_texts_are_parts_texts(a: Seq<SpecFrame>)
    requires
        forall|i: int| 0 <= i < a.len() ==> !(#[trigger] a[i] is Array),
    ensures
        inner_texts(a) == parts_text(a),
    decreases a.len(),
{
    if a.len() > 0 {
        let b = a.drop_last();
        assert forall|i: int| 0 <= i < b.len() implies !(#[trigger] b[i] is Array) by {
            assert(b[i] == a[i]);
        }
        lemma_inner_texts_are_parts_texts(b);
        assert(!(a[a.len() - 1] is Array));
        assert(part_text(a.last()) == inner_text(a.last()));
    }
}

} // verus!
