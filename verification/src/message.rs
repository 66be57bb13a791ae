//! The message schema: a typed body and the envelope that carries it between
//! two identifiers.

use vstd::prelude::*;

use crate::id::ID;

verus! {

/// The discriminant of a message body.
#[derive(Debug, Clone, Copy, PartialEq, Eq, Structural)]
pub enum BodyType {
    Init,
    InitOk,
    Echo,
    EchoOk,
    Generate,
    GenerateOk,
    Broadcast,
    BroadcastOk,
    Read,
    ReadOk,
    Topology,
    TopologyOk,
    Error,
}

impl Default for BodyType {
    /// The fallback discriminant.
    fn default() -> (r: Self)
        ensures
            r == BodyType::Error,
    {
        BodyType::Error
    }
}

/// A message body: the discriminant, the sequence numbers that correlate a
/// response with its request, and the fields particular to each discriminant.
/// A field that the discriminant does not define stays `None`.
#[derive(Debug)]
pub struct Body {
    pub body_type: BodyType,
    /// Sequence number of this message.
    pub msg_id: Option<u64>,
    /// Sequence number of the request this message answers.
    pub in_reply_to: Option<u64>,
    /// Error: the numeric code.
    pub code: Option<u32>,
    /// Error: the explanatory text.
    pub text: Option<String>,
    /// Init: the identifier the receiver is given.
    pub node_id: Option<ID>,
    /// Init: the full cluster roster, the receiver included.
    pub node_ids: Option<Vec<ID>>,
    /// Echo: the payload, echoed verbatim.
    pub echo: Option<String>,
    /// Generate: the freshly produced identifier string.
    pub id: Option<String>,
    /// Broadcast: the value to record and propagate.
    pub message: Option<u32>,
    /// Read: every value this node has recorded, in arrival order.
    pub messages: Option<Vec<u32>>,
}

/// The mathematical shape of a body: each text as its character sequence,
/// each list as its sequence.
#[verifier::ext_equal]
pub ghost struct BodyView {
    pub body_type: BodyType,
    pub msg_id: Option<u64>,
    pub in_reply_to: Option<u64>,
    pub code: Option<u32>,
    pub text: Option<Seq<char>>,
    pub node_id: Option<ID>,
    pub node_ids: Option<Seq<ID>>,
    pub echo: Option<Seq<char>>,
    pub id: Option<Seq<char>>,
    pub message: Option<u32>,
    pub messages: Option<Seq<u32>>,
}

impl View for Body {
    type V = BodyView;

    open spec fn view(&self) -> BodyView {
        BodyView {
            body_type: self.body_type,
            msg_id: self.msg_id,
            in_reply_to: self.in_reply_to,
            code: self.code,
            text: match self.text {
                Some(s) => Some(s@),
                None => None,
            },
            node_id: self.node_id,
            node_ids: match self.node_ids {
                Some(v) => Some(v@),
                None => None,
            },
            echo: match self.echo {
                Some(s) => Some(s@),
                None => None,
            },
            id: match self.id {
                Some(s) => Some(s@),
                None => None,
            },
            message: self.message,
            messages: match self.messages {
                Some(v) => Some(v@),
                None => None,
            },
        }
    }
}

impl BodyView {
    /// A body of the given discriminant with every other field absent.
    pub open spec fn empty(t: BodyType) -> BodyView {
        BodyView {
            body_type: t,
            msg_id: None,
            in_reply_to: None,
            code: None,
            text: None,
            node_id: None,
            node_ids: None,
            echo: None,
            id: None,
            message: None,
            messages: None,
        }
    }
}

impl Body {
    /// A body of the given discriminant with every other field absent.
    pub fn empty(t: BodyType) -> (r: Body)
        ensures
            r@ == BodyView::empty(t),
    {
        Body {
            body_type: t,
            msg_id: None,
            in_reply_to: None,
            code: None,
            text: None,
            node_id: None,
            node_ids: None,
            echo: None,
            id: None,
            message: None,
            messages: None,
        }
    }
}

/// The envelope: who sent it, whom it is for, and the body.
#[derive(Debug)]
pub struct Message {
    pub src: ID,
    pub dest: ID,
    pub body: Body,
}

/// The mathematical shape of an envelope.
#[verifier::ext_equal]
pub ghost struct MessageView {
    pub src: ID,
    pub dest: ID,
    pub body: BodyView,
}

impl View for Message {
    type V = MessageView;

    open spec fn view(&self) -> MessageView {
        MessageView { src: self.src, dest: self.dest, body: self.body@ }
    }
}

/// The shapes of a list of envelopes, in order.
pub open spec fn views_of(ms: Seq<Message>) -> Seq<MessageView> {
    ms.map_values(|m: Message| m@)
}

/// A participant and the participants it knows of.
#[derive(Debug)]
pub struct Node {
    pub id: ID,
    pub known_nodes: Vec<ID>,
}

} // verus!
