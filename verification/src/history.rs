//! Historical chat-export records: the fields the importer reads from one
//! exported event, reduced to plain values.

use vstd::prelude::*;

use crate::text::push_char;
use crate::text::str_eq;

verus! {

/// One imported chat message: who sent it and its cleaned text.
#[derive(Debug, PartialEq, Eq)]
pub struct TelegramMessage {
    user_id: u64,
    message: String,
}

/// A message text with every line break replaced by a space.
pub open spec fn clean_view(s: Seq<char>) -> Seq<char> {
    s.map_values(
        |c: char|
            if c == '\n' {
                ' '
            } else {
                c
            },
    )
}

/// Replace every line break of a message with a space, so that the stored
/// log stays one message per line.
pub fn clean_message(message: &str) -> (r: String)
    ensures
        r@ == clean_view(message@),
{
    let n = message.unicode_len();
    let mut r = String::new();
    let mut i: usize = 0;
    proof {
        assert(r@ =~= clean_view(message@.take(0)));
    }
    while i < n
        invariant
            n == message@.len(),
            i <= n,
            r@ == clean_view(message@.take(i as int)),
        decreases n - i,
    {
        let c = message.get_char(i);
        if c == '\n' {
            push_char(&mut r, ' ');
        } else {
            push_char(&mut r, c);
        }
        i += 1;
        proof {
            assert(r@ =~= clean_view(message@.take(i as int)));
        }
    }
    proof {
        assert(message@.take(n as int) =~= message@);
    }
    r
}

impl TelegramMessage {
    /// Who sent the message.
    pub closed spec fn user_id_spec(&self) -> u64 {
        self.user_id
    }

    /// The cleaned message text.
    pub closed spec fn message_spec(&self) -> Seq<char> {
        self.message@
    }

    /// Who sent the message.
    pub fn user_id(&self) -> (r: u64)
        ensures
            r == self.user_id_spec(),
    {
        self.user_id
    }

    /// The cleaned message text.
    pub fn message(&self) -> (r: &str)
        ensures
            r@ == self.message_spec(),
    {
        self.message.as_str()
    }
}

/// Build an imported message from the fields read out of one exported
/// event: only an event of kind `message` with both a sender and a text
/// yields one, with its text cleaned of line breaks.
pub fn message_from_fields(event: &str, peer_id: Option<u64>, text: Option<&str>) -> (r: Option<
    TelegramMessage,
>)
    ensures
        (r is Some) == (event@ == "message"@ && peer_id is Some && text is Some),
        r matches Some(m) ==> m.user_id_spec() == peer_id.unwrap() && m.message_spec()
            == clean_view(text.unwrap()@),
{
    if str_eq(event, "message") {
        match (peer_id, text) {
            (Some(um), Some(t)) => Some(
                TelegramMessage { user_id: um, message: clean_message(t) },
            ),
            _ => None,
        }
    } else {
        None
    }
}

} // verus!
