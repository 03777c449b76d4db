//! The domain model: players with their snapshot state, duels, pending
//! duel requests, and the wire message with its header.

use vstd::prelude::*;
use vstd::utf8::{decode_utf8, encode_utf8, valid_utf8};

verus! {

/// Identity of a connected player, process-unique with acceptable probability.
pub type Id = u32;

/// The closed set of protocol message kinds.
#[derive(Clone, Copy, Debug, PartialEq, Eq, Structural)]
pub enum MessageType {
    Welcome,
    Name,
    RequestDuel,
    RequestFailed,
    NewGame,
    Proxy,
    ExitDuel,
    ListPlayers,
    Dump,
}

impl MessageType {
    /// The number that stands for this kind on the wire.
    pub open spec fn spec_code(self) -> usize {
        match self {
            MessageType::Welcome => 0,
            MessageType::Name => 1,
            MessageType::RequestDuel => 2,
            MessageType::RequestFailed => 3,
            MessageType::NewGame => 4,
            MessageType::Proxy => 5,
            MessageType::ExitDuel => 6,
            MessageType::ListPlayers => 7,
            MessageType::Dump => 100,
        }
    }

    /// The kind that a wire number stands for, if any.
    pub open spec fn spec_from_code(code: usize) -> Option<MessageType> {
        if code == 0 {
            Some(MessageType::Welcome)
        } else if code == 1 {
            Some(MessageType::Name)
        } else if code == 2 {
            Some(MessageType::RequestDuel)
        } else if code == 3 {
            Some(MessageType::RequestFailed)
        } else if code == 4 {
            Some(MessageType::NewGame)
        } else if code == 5 {
            Some(MessageType::Proxy)
        } else if code == 6 {
            Some(MessageType::ExitDuel)
        } else if code == 7 {
            Some(MessageType::ListPlayers)
        } else if code == 100 {
            Some(MessageType::Dump)
        } else {
            None
        }
    }

    pub fn code(self) -> (r: usize)
        ensures
            r == self.spec_code(),
    {
        match self {
            MessageType::Welcome => 0,
            MessageType::Name => 1,
            MessageType::RequestDuel => 2,
            MessageType::RequestFailed => 3,
            MessageType::NewGame => 4,
            MessageType::Proxy => 5,
            MessageType::ExitDuel => 6,
            MessageType::ListPlayers => 7,
            MessageType::Dump => 100,
        }
    }

    pub fn from_code(code: usize) -> (r: Option<MessageType>)
        ensures
            r == MessageType::spec_from_code(code),
    {
        if code == 0 {
            Some(MessageType::Welcome)
        } else if code == 1 {
            Some(MessageType::Name)
        } else if code == 2 {
            Some(MessageType::RequestDuel)
        } else if code == 3 {
            Some(MessageType::RequestFailed)
        } else if code == 4 {
            Some(MessageType::NewGame)
        } else if code == 5 {
            Some(MessageType::Proxy)
        } else if code == 6 {
            Some(MessageType::ExitDuel)
        } else if code == 7 {
            Some(MessageType::ListPlayers)
        } else if code == 100 {
            Some(MessageType::Dump)
        } else {
            None
        }
    }
}

/// The library's error kinds, mirroring the protocol's error taxonomy.
#[derive(Clone, Copy, Debug, PartialEq, Eq, Structural)]
pub enum ServerError {
    /// A text body that is not valid UTF-8.
    BadUtf8,
    /// A field or body that should be a decimal number but is not, or does
    /// not fit its type.
    BadNumber,
    /// A header line whose fields cannot be parsed.
    BadHeader,
    /// A message whose type number belongs to no known kind.
    UnhandledType(usize),
    /// An event naming a player the registry does not hold.
    UnknownPlayer,
    /// A delivery into a closed outbound queue.
    SendFailed,
    /// A slice index outside the buffer.
    OutOfBounds,
}

/// Wire header of one message: four decimal fields on one line.
#[derive(Clone, Copy, Debug, PartialEq, Eq, Structural)]
pub struct Header {
    pub message_type: usize,
    pub message_length: usize,
    pub message_id: i64,
    pub answer_id: i64,
}

/// One protocol message: a header and the raw body bytes.
#[derive(Debug)]
pub struct Message {
    pub header: Header,
    pub body: Vec<u8>,
}

/// Mathematical model of a message: the header and the body byte sequence.
pub struct MessageV {
    pub header: Header,
    pub body: Seq<u8>,
}

impl View for Message {
    type V = MessageV;

    open spec fn view(&self) -> MessageV {
        MessageV { header: self.header, body: self.body@ }
    }
}

impl DeepView for Message {
    type V = MessageV;

    open spec fn deep_view(&self) -> MessageV {
        self@
    }
}

impl MessageV {
    /// The header's length field agrees with the body.
    pub open spec fn wf(self) -> bool {
        self.header.message_length == self.body.len()
    }
}

impl Message {
    /// The header's length field agrees with the body.
    pub open spec fn wf(self) -> bool {
        self@.wf()
    }

    /// A fresh message of the given kind whose body is the UTF-8 text `body`,
    /// with zero correlation tokens.
    pub fn new(msg_type: MessageType, body: &str) -> (r: Message)
        ensures
            r.header.message_type == msg_type.spec_code(),
            r.header.message_length == r.body@.len(),
            r.header.message_id == 0,
            r.header.answer_id == 0,
            r.body@ == encode_utf8(body@),
            r.wf(),
    {
        let bytes = body.as_bytes();
        let msg_body = vstd::slice::slice_to_vec(bytes);
        Message {
            header: Header {
                message_type: msg_type.code(),
                message_length: msg_body.len(),
                message_id: 0,
                answer_id: 0,
            },
            body: msg_body,
        }
    }

    /// The body seen as text, when it is valid UTF-8.
    pub fn body_as_str(&self) -> (r: Result<&str, ServerError>)
        ensures
            match r {
                Ok(s) => valid_utf8(self.body@) && s@ == decode_utf8(self.body@),
                Err(e) => !valid_utf8(self.body@) && e == ServerError::BadUtf8,
            },
    {
        match bytes_as_str(self.body.as_slice()) {
            Some(s) => Ok(s),
            None => Err(ServerError::BadUtf8),
        }
    }

    /// An exact copy of this message.
    pub fn duplicate(&self) -> (r: Message)
        ensures
            r@ == self@,
    {
        let mut body: Vec<u8> = Vec::new();
        let mut i: usize = 0;
        while i < self.body.len()
            invariant
                0 <= i <= self.body@.len(),
                body@ == self.body@.take(i as int),
            decreases self.body@.len() - i,
        {
            body.push(self.body[i]);
            proof {
                assert(self.body@.take(i + 1) =~= self.body@.take(i as int).push(
                    self.body@[i as int],
                ));
            }
            i = i + 1;
        }
        proof {
            assert(self.body@.take(self.body@.len() as int) =~= self.body@);
        }
        Message { header: self.header, body }
    }
}

/// Relies on `core::str::from_utf8`: it succeeds exactly on valid UTF-8
/// input, giving the text those bytes encode.
#[verifier::external_body]
pub(crate) fn bytes_as_str(b: &[u8]) -> (r: Option<&str>)
    ensures
        match r {
            Some(s) => valid_utf8(b@) && s@ == decode_utf8(b@),
            None => !valid_utf8(b@),
        },
{
    core::str::from_utf8(b).ok()
}

/// Relies on `rand::random`: a fresh 32-bit value from the thread-local
/// generator; nothing can be promised of the value, so nothing is stated.
#[verifier::external_body]
fn random_u32() -> u32 {
    rand::random()
}

/// The per-player outbound delivery queue, as the controller sees it: the
/// messages enqueued so far, and whether the transport still drains it.
#[derive(Debug)]
pub struct Outbox {
    pub messages: Vec<Message>,
    pub open: bool,
}

/// Mathematical model of an outbound queue.
pub struct OutboxV {
    pub messages: Seq<MessageV>,
    pub open: bool,
}

impl View for Outbox {
    type V = OutboxV;

    open spec fn view(&self) -> OutboxV {
        OutboxV { messages: self.messages.deep_view(), open: self.open }
    }
}

/// A player's mutable snapshot, always replaced whole, never field by field.
#[derive(Debug)]
pub struct PlayerState {
    pub status: PlayerStatus,
    pub name: String,
}

/// On hold and available for matching, or paired in a duel.
#[derive(Clone, Copy, Debug, PartialEq, Eq, Structural)]
pub enum PlayerStatus {
    OnHold,
    Duelling(Duel),
}

/// An unordered pair of player identities created at match time.
#[derive(Clone, Copy, Debug, PartialEq, Eq, Structural)]
pub struct Duel {
    pub player1: Id,
    pub player2: Id,
}

impl Duel {
    /// The identity this duel pairs with `id`.
    pub open spec fn spec_other_player(self, id: Id) -> Id {
        if self.player1 == id {
            self.player2
        } else {
            self.player1
        }
    }

    /// `self` pairs exactly the two identities `a` and `b`.
    pub open spec fn pairs(self, a: Id, b: Id) -> bool {
        (self.player1 == a && self.player2 == b) || (self.player1 == b && self.player2 == a)
    }

    pub fn other_player(&self, id: Id) -> (r: Id)
        ensures
            r == self.spec_other_player(id),
    {
        if self.player1 == id {
            self.player2
        } else {
            self.player1
        }
    }
}

/// A recorded one-directional intent: the player `src_id` asked to duel the
/// player `dest_id`; pending until matched or purged.
#[derive(Clone, Copy, Debug, PartialEq, Eq, Structural)]
pub struct Request {
    pub src_id: Id,
    pub dest_id: Id,
}

/// One connected player: identity, outbound queue, and state snapshot.
#[derive(Debug)]
pub struct Player {
    pub id: Id,
    pub outbox: Outbox,
    pub state: PlayerState,
}

/// Mathematical model of a player.
pub struct PlayerV {
    pub id: Id,
    pub name: Seq<char>,
    pub status: PlayerStatus,
    pub outbox: OutboxV,
}

impl View for Player {
    type V = PlayerV;

    open spec fn view(&self) -> PlayerV {
        PlayerV {
            id: self.id,
            name: self.state.name@,
            status: self.state.status,
            outbox: self.outbox@,
        }
    }
}

impl DeepView for Player {
    type V = PlayerV;

    open spec fn deep_view(&self) -> PlayerV {
        self@
    }
}

impl PlayerV {
    /// The player is not paired in a duel.
    pub open spec fn on_hold(self) -> bool {
        self.status is OnHold
    }
}

impl Player {
    /// A newly connected player: random identity, unnamed, on hold, with an
    /// empty open outbound queue.
    pub fn new() -> (r: Player)
        ensures
            r.state.name@ == Seq::<char>::empty(),
            r.state.status == PlayerStatus::OnHold,
            r.outbox.messages@ == Seq::<Message>::empty(),
            r.outbox.open == true,
    {
        Player {
            id: random_u32(),
            outbox: Outbox { messages: Vec::new(), open: true },
            state: PlayerState { status: PlayerStatus::OnHold, name: String::new() },
        }
    }

    /// Replaces the snapshot with one carrying the new name.
    pub fn set_name(&mut self, name: String)
        ensures
            final(self).id == old(self).id,
            final(self).outbox == old(self).outbox,
            final(self).state.status == old(self).state.status,
            final(self).state.name@ == name@,
    {
        self.state = PlayerState { name, status: self.state.status };
    }

    /// Replaces the snapshot with one carrying the new status.
    pub fn set_status(&mut self, status: PlayerStatus)
        ensures
            final(self).id == old(self).id,
            final(self).outbox == old(self).outbox,
            final(self).state.status == status,
            final(self).state.name == old(self).state.name,
    {
        let name = self.state.name.clone();
        self.state = PlayerState { name, status };
    }

    /// The player is not paired in a duel.
    pub open spec fn spec_on_hold(self) -> bool {
        self@.on_hold()
    }

    pub fn is_on_hold(&self) -> (r: bool)
        ensures
            r == self.spec_on_hold(),
    {
        match self.state.status {
            PlayerStatus::OnHold => true,
            PlayerStatus::Duelling(_) => false,
        }
    }
}

} // verus!
