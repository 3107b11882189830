//! The in-memory form of one frame payload.

use vstd::prelude::*;

verus! {

/// One frame payload: a record with an unsigned 32-bit `id` and a text `body`.
/// Both fields are always present; a decoded message has both populated.
pub struct Message {
    pub id: u32,
    pub body: String,
}

/// The mathematical value of a message: its id and the characters of its body.
pub open spec fn msg_view(m: Message) -> (u32, Seq<char>) {
    (m.id, m.body@)
}

/// The values of a sequence of messages, in order.
pub open spec fn msg_views(ms: Seq<Message>) -> Seq<(u32, Seq<char>)> {
    ms.map_values(|m: Message| msg_view(m))
}

} // verus!
