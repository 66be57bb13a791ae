//! The node state machine: one mutable instance per process, fed one decoded
//! envelope at a time, answering with the envelopes to emit, in emission
//! order. The spec function [`step`] is the whole protocol: every handler is
//! proved to realise it.

use vstd::prelude::*;

use crate::id::{dec_seq, ID};
use crate::message::{views_of, Body, BodyType, BodyView, Message, MessageView};

verus! {

/// The node: its own identifier (absent until the first `init`), the send
/// counter, the ordered log of every broadcast value received, and the peers
/// learnt at `init` time.
pub struct EchoServer {
    pub id: Option<ID>,
    pub msg_counter_id: u64,
    pub msg_state: Vec<u32>,
    pub node_ids: Vec<ID>,
}

/// The mathematical shape of the node state.
#[verifier::ext_equal]
pub ghost struct ServerView {
    pub id: Option<ID>,
    pub msg_counter_id: nat,
    pub msg_state: Seq<u32>,
    pub node_ids: Seq<ID>,
}

impl View for EchoServer {
    type V = ServerView;

    open spec fn view(&self) -> ServerView {
        ServerView {
            id: self.id,
            msg_counter_id: self.msg_counter_id as nat,
            msg_state: self.msg_state@,
            node_ids: self.node_ids@,
        }
    }
}

/// The roster without the node's own identifier, in roster order.
pub open spec fn peers_of(roster: Seq<ID>, own: ID) -> Seq<ID> {
    roster.filter(|x: ID| x != own)
}

/// The decimal text of a 128-bit value drawn for `generate`.
pub open spec fn u128_digits(v: u128) -> Seq<char> {
    dec_seq(v as nat)
}

/// A response body: discriminant `t`, sequence number `tick`, answering `m`.
pub open spec fn reply_body(t: BodyType, tick: nat, m: MessageView) -> BodyView {
    BodyView { msg_id: Some(tick as u64), in_reply_to: m.body.msg_id, ..BodyView::empty(t) }
}

/// The state with the send counter moved forward by `n` ticks.
pub open spec fn ticked(pre: ServerView, n: nat) -> ServerView {
    ServerView { msg_counter_id: pre.msg_counter_id + n, ..pre }
}

/// The answer to anything the node cannot handle: an `error` body with code
/// 13 and empty text. The counter moves twice on this path — once before the
/// body is built and once as its sequence number is drawn, so the second tick
/// is the number stamped — and a node not yet initialized answers as the
/// envelope's destination.
pub open spec fn step_error(pre: ServerView, m: MessageView) -> (ServerView, Seq<MessageView>) {
    let src = if pre.id is Some {
        pre.id->Some_0
    } else {
        m.dest
    };
    let body = BodyView {
        code: Some(13u32),
        text: Some(Seq::<char>::empty()),
        ..reply_body(BodyType::Error, pre.msg_counter_id + 2, m)
    };
    (ticked(pre, 2), seq![MessageView { src, dest: m.src, body }])
}

/// `init`: the first one gives the node its identifier (the envelope's
/// destination) and its peers (the roster minus itself, in roster order); the
/// identifier is terminal, so any later `init` changes nothing and is merely
/// acknowledged. A roster-less `init` is refused without touching the state.
pub open spec fn step_init(pre: ServerView, m: MessageView) -> (ServerView, Seq<MessageView>) {
    if m.body.node_ids is None {
        step_error(pre, m)
    } else if pre.id is Some {
        (
            ticked(pre, 1),
            seq![
                MessageView {
                    src: pre.id->Some_0,
                    dest: m.src,
                    body: reply_body(BodyType::InitOk, pre.msg_counter_id + 1, m),
                },
            ],
        )
    } else {
        (
            ServerView {
                id: Some(m.dest),
                node_ids: peers_of(m.body.node_ids->Some_0, m.dest),
                msg_counter_id: pre.msg_counter_id + 1,
                ..pre
            },
            seq![
                MessageView {
                    src: m.dest,
                    dest: m.src,
                    body: reply_body(BodyType::InitOk, pre.msg_counter_id + 1, m),
                },
            ],
        )
    }
}

/// `echo`: the payload comes back verbatim.
pub open spec fn step_echo(pre: ServerView, m: MessageView) -> (ServerView, Seq<MessageView>) {
    let body = BodyView { echo: m.body.echo, ..reply_body(BodyType::EchoOk, pre.msg_counter_id + 1, m) };
    (ticked(pre, 1), seq![MessageView { src: pre.id->Some_0, dest: m.src, body }])
}

/// `generate`: the answer carries `fresh`, the decimal text of the value
/// drawn from the entropy source.
pub open spec fn step_generate(pre: ServerView, m: MessageView, fresh: Seq<char>) -> (
    ServerView,
    Seq<MessageView>,
) {
    let body = BodyView {
        id: Some(fresh),
        ..reply_body(BodyType::GenerateOk, pre.msg_counter_id + 1, m)
    };
    (ticked(pre, 1), seq![MessageView { src: pre.id->Some_0, dest: m.src, body }])
}

/// `read`: the answer carries the whole log, in arrival order, duplicates
/// preserved.
pub open spec fn step_read(pre: ServerView, m: MessageView) -> (ServerView, Seq<MessageView>) {
    let body = BodyView {
        messages: Some(pre.msg_state),
        ..reply_body(BodyType::ReadOk, pre.msg_counter_id + 1, m)
    };
    (ticked(pre, 1), seq![MessageView { src: pre.id->Some_0, dest: m.src, body }])
}

/// `topology`: the adjacency is ignored and acknowledged unconditionally.
pub open spec fn step_topology(pre: ServerView, m: MessageView) -> (ServerView, Seq<MessageView>) {
    (
        ticked(pre, 1),
        seq![
            MessageView {
                src: pre.id->Some_0,
                dest: m.src,
                body: reply_body(BodyType::TopologyOk, pre.msg_counter_id + 1, m),
            },
        ],
    )
}

/// The fan-out envelopes of one broadcast: one fresh `broadcast` per peer, in
/// peer order, each consuming its own counter tick, none a reply.
pub open spec fn fanout(own: ID, peers: Seq<ID>, v: u32, ctr: nat) -> Seq<MessageView> {
    Seq::new(
        peers.len(),
        |k: int|
            MessageView {
                src: own,
                dest: peers[k],
                body: BodyView {
                    msg_id: Some((ctr + 1 + k) as u64),
                    message: Some(v),
                    ..BodyView::empty(BodyType::Broadcast)
                },
            },
    )
}

/// `broadcast`: the value is appended to the log; when the sender is a
/// client, the value first fans out to every peer exactly once, then the
/// sender is acknowledged; a value arriving from a peer node is only
/// acknowledged, never propagated further. A value-less `broadcast` is
/// refused without touching the state.
pub open spec fn step_broadcast(pre: ServerView, m: MessageView) -> (ServerView, Seq<MessageView>) {
    if m.body.message is None {
        step_error(pre, m)
    } else {
        let v = m.body.message->Some_0;
        let own = pre.id->Some_0;
        let logged = ServerView { msg_state: pre.msg_state.push(v), ..pre };
        if m.src is Client {
            let n = pre.node_ids.len();
            let ok = MessageView {
                src: own,
                dest: m.src,
                body: reply_body(BodyType::BroadcastOk, pre.msg_counter_id + n + 1, m),
            };
            (ticked(logged, n + 1), fanout(own, pre.node_ids, v, pre.msg_counter_id) + seq![ok])
        } else {
            let ok = MessageView {
                src: own,
                dest: m.src,
                body: reply_body(BodyType::BroadcastOk, pre.msg_counter_id + 1, m),
            };
            (ticked(logged, 1), seq![ok])
        }
    }
}

/// One step of the node: the state after handling `m` and the envelopes
/// emitted, in emission order. `fresh` is the text drawn for `generate`;
/// every other discriminant ignores it. An incoming `broadcast_ok` is
/// consumed silently; every handler but `init` demands an initialized node
/// and otherwise answers the error body.
pub open spec fn step(pre: ServerView, m: MessageView, fresh: Seq<char>) -> (
    ServerView,
    Seq<MessageView>,
) {
    match m.body.body_type {
        BodyType::Init => step_init(pre, m),
        BodyType::BroadcastOk => (pre, Seq::<MessageView>::empty()),
        BodyType::Echo => if pre.id is Some {
            step_echo(pre, m)
        } else {
            step_error(pre, m)
        },
        BodyType::Generate => if pre.id is Some {
            step_generate(pre, m, fresh)
        } else {
            step_error(pre, m)
        },
        BodyType::Read => if pre.id is Some {
            step_read(pre, m)
        } else {
            step_error(pre, m)
        },
        BodyType::Broadcast => if pre.id is Some {
            step_broadcast(pre, m)
        } else {
            step_error(pre, m)
        },
        BodyType::Topology => if pre.id is Some {
            step_topology(pre, m)
        } else {
            step_error(pre, m)
        },
        _ => step_error(pre, m),
    }
}

/// Relies on rand::random: draws one value from the thread-local generator.
/// Nothing is assumed about which value comes back.
#[verifier::external_body]
fn random_u128() -> u128 {
    rand::random::<u128>()
}

/// The decimal text of `n`, as a fresh string.
fn decimal_string_u128(n: u128) -> (r: String)
    ensures
        r@ == dec_seq(n as nat),
{
    let mut out = String::new();
    crate::id::push_decimal_u128(n, &mut out);
    proof {
        assert(out@ =~= dec_seq(n as nat));
    }
    out
}

/// A copy of a value log.
fn copy_values(v: &Vec<u32>) -> (r: Vec<u32>)
    ensures
        r@ == v@,
{
    let mut r: Vec<u32> = Vec::new();
    let mut k: usize = 0;
    while k < v.len()
        invariant
            k <= v@.len(),
            r@ =~= v@.take(k as int),
        decreases v@.len() - k,
    {
        r.push(v[k]);
        proof {
            assert(v@.take(k + 1) =~= v@.take(k as int).push(v@[k as int]));
        }
        k += 1;
    }
    proof {
        assert(v@.take(v@.len() as int) =~= v@);
    }
    r
}

/// The roster minus the node's own identifier, in roster order.
fn peers_from_roster(roster: &Vec<ID>, own: ID) -> (r: Vec<ID>)
    ensures
        r@ == peers_of(roster@, own),
{
    let mut r: Vec<ID> = Vec::new();
    let mut k: usize = 0;
    while k < roster.len()
        invariant
            k <= roster@.len(),
            r@ =~= peers_of(roster@.take(k as int), own),
        decreases roster@.len() - k,
    {
        let x = roster[k];
        proof {
            reveal(Seq::filter);
            assert(roster@.take(k + 1).drop_last() =~= roster@.take(k as int));
            assert(roster@.take(k + 1).last() == roster@[k as int]);
        }
        if x != own {
            r.push(x);
        }
        k += 1;
    }
    proof {
        assert(roster@.take(roster@.len() as int) =~= roster@);
    }
    r
}

/// A response body answering `msg` with sequence number `tick`.
fn make_reply_body(t: BodyType, tick: u64, msg: &Message) -> (b: Body)
    ensures
        b@ == reply_body(t, tick as nat, msg@),
{
    let mut b = Body::empty(t);
    b.msg_id = Some(tick);
    b.in_reply_to = msg.body.msg_id;
    b
}

impl EchoServer {
    /// A node fresh at process start: uninitialized, counter at zero, empty
    /// log, no peers.
    pub fn new() -> (s: Self)
        ensures
            s@ == (ServerView {
                id: None,
                msg_counter_id: 0,
                msg_state: Seq::<u32>::empty(),
                node_ids: Seq::<ID>::empty(),
            }),
    {
        let s = EchoServer { id: None, msg_counter_id: 0, msg_state: Vec::new(), node_ids: Vec::new() };
        proof {
            assert(s@ =~= (ServerView {
                id: None,
                msg_counter_id: 0,
                msg_state: Seq::<u32>::empty(),
                node_ids: Seq::<ID>::empty(),
            }));
        }
        s
    }

    fn error_response(&mut self, msg: &Message) -> (out: Vec<Message>)
        requires
            old(self).msg_counter_id + 2 <= u64::MAX,
        ensures
            final(self)@ == step_error(old(self)@, msg@).0,
            views_of(out@) == step_error(old(self)@, msg@).1,
    {
        self.msg_counter_id = self.msg_counter_id + 2;
        let mut b = Body::empty(BodyType::Error);
        b.msg_id = Some(self.msg_counter_id);
        b.in_reply_to = msg.body.msg_id;
        b.code = Some(13);
        b.text = Some(String::new());
        let src = match self.id {
            Some(i) => i,
            None => msg.dest,
        };
        let mut out: Vec<Message> = Vec::new();
        out.push(Message { src, dest: msg.src, body: b });
        proof {
            assert(self@ =~= step_error(old(self)@, msg@).0);
            assert(views_of(out@) =~= step_error(old(self)@, msg@).1);
        }
        out
    }

    fn handle_init(&mut self, msg: &Message) -> (out: Vec<Message>)
        requires
            old(self).msg_counter_id + 2 <= u64::MAX,
        ensures
            final(self)@ == step_init(old(self)@, msg@).0,
            views_of(out@) == step_init(old(self)@, msg@).1,
    {
        match &msg.body.node_ids {
            None => self.error_response(msg),
            Some(roster) => {
                if self.id.is_none() {
                    self.id = Some(msg.dest);
                    self.node_ids = peers_from_roster(roster, msg.dest);
                }
                self.msg_counter_id = self.msg_counter_id + 1;
                let b = make_reply_body(BodyType::InitOk, self.msg_counter_id, msg);
                let src = self.id.unwrap();
                let mut out: Vec<Message> = Vec::new();
                out.push(Message { src, dest: msg.src, body: b });
                proof {
                    assert(self@ =~= step_init(old(self)@, msg@).0);
                    assert(views_of(out@) =~= step_init(old(self)@, msg@).1);
                }
                out
            },
        }
    }

    fn handle_echo(&mut self, msg: &Message) -> (out: Vec<Message>)
        requires
            old(self).id is Some,
            old(self).msg_counter_id + 1 <= u64::MAX,
        ensures
            final(self)@ == step_echo(old(self)@, msg@).0,
            views_of(out@) == step_echo(old(self)@, msg@).1,
    {
        self.msg_counter_id = self.msg_counter_id + 1;
        let mut b = make_reply_body(BodyType::EchoOk, self.msg_counter_id, msg);
        b.echo = match &msg.body.echo {
            Some(s) => Some(s.clone()),
            None => None,
        };
        let src = self.id.unwrap();
        let mut out: Vec<Message> = Vec::new();
        out.push(Message { src, dest: msg.src, body: b });
        proof {
            assert(self@ =~= step_echo(old(self)@, msg@).0);
            assert(views_of(out@) =~= step_echo(old(self)@, msg@).1);
        }
        out
    }

    fn handle_generate(&mut self, msg: &Message) -> (out: Vec<Message>)
        requires
            old(self).id is Some,
            old(self).msg_counter_id + 1 <= u64::MAX,
        ensures
            exists|v: u128|
                final(self)@ == step_generate(old(self)@, msg@, #[trigger] u128_digits(v)).0
                    && views_of(out@) == step_generate(old(self)@, msg@, u128_digits(v)).1,
    {
        let drawn = random_u128();
        let fresh = decimal_string_u128(drawn);
        self.msg_counter_id = self.msg_counter_id + 1;
        let mut b = make_reply_body(BodyType::GenerateOk, self.msg_counter_id, msg);
        b.id = Some(fresh);
        let src = self.id.unwrap();
        let mut out: Vec<Message> = Vec::new();
        out.push(Message { src, dest: msg.src, body: b });
        proof {
            assert(self@ =~= step_generate(old(self)@, msg@, u128_digits(drawn)).0);
            assert(views_of(out@) =~= step_generate(old(self)@, msg@, u128_digits(drawn)).1);
        }
        out
    }

    fn handle_read(&mut self, msg: &Message) -> (out: Vec<Message>)
        requires
            old(self).id is Some,
            old(self).msg_counter_id + 1 <= u64::MAX,
        ensures
            final(self)@ == step_read(old(self)@, msg@).0,
            views_of(out@) == step_read(old(self)@, msg@).1,
    {
        let log = copy_values(&self.msg_state);
        self.msg_counter_id = self.msg_counter_id + 1;
        let mut b = make_reply_body(BodyType::ReadOk, self.msg_counter_id, msg);
        b.messages = Some(log);
        let src = self.id.unwrap();
        let mut out: Vec<Message> = Vec::new();
        out.push(Message { src, dest: msg.src, body: b });
        proof {
            assert(self@ =~= step_read(old(self)@, msg@).0);
            assert(views_of(out@) =~= step_read(old(self)@, msg@).1);
        }
        out
    }

    fn handle_topology(&mut self, msg: &Message) -> (out: Vec<Message>)
        requires
            old(self).id is Some,
            old(self).msg_counter_id + 1 <= u64::MAX,
        ensures
            final(self)@ == step_topology(old(self)@, msg@).0,
            views_of(out@) == step_topology(old(self)@, msg@).1,
    {
        self.msg_counter_id = self.msg_counter_id + 1;
        let b = make_reply_body(BodyType::TopologyOk, self.msg_counter_id, msg);
        let src = self.id.unwrap();
        let mut out: Vec<Message> = Vec::new();
        out.push(Message { src, dest: msg.src, body: b });
        proof {
            assert(self@ =~= step_topology(old(self)@, msg@).0);
            assert(views_of(out@) =~= step_topology(old(self)@, msg@).1);
        }
        out
    }

    fn handle_broadcast(&mut self, msg: &Message) -> (out: Vec<Message>)
        requires
            old(self).id is Some,
            old(self).msg_counter_id + 2 + old(self).node_ids@.len() <= u64::MAX,
        ensures
            final(self)@ == step_broadcast(old(self)@, msg@).0,
            views_of(out@) == step_broadcast(old(self)@, msg@).1,
    {
        match msg.body.message {
            None => self.error_response(msg),
            Some(v) => {
                self.msg_state.push(v);
                let own = self.id.unwrap();
                let base = self.msg_counter_id;
                let mut out: Vec<Message> = Vec::new();
                let mut from_client = false;
                if let ID::Client(_c) = msg.src {
                    from_client = true;
                    let n = self.node_ids.len();
                    let ghost fans = fanout(own, self.node_ids@, v, base as nat);
                    let mut k: usize = 0;
                    while k < n
                        invariant
                            k <= n,
                            n == self.node_ids@.len(),
                            base + 1 + n <= u64::MAX,
                            own == self.id->Some_0,
                            fans == fanout(own, self.node_ids@, v, base as nat),
                            views_of(out@) =~= fans.take(k as int),
                        decreases n - k,
                    {
                        let mut b = Body::empty(BodyType::Broadcast);
                        b.msg_id = Some(base + 1 + k as u64);
                        b.message = Some(v);
                        let dest = self.node_ids[k];
                        out.push(Message { src: own, dest, body: b });
                        proof {
                            assert(fans.take(k + 1) =~= fans.take(k as int).push(fans[k as int]));
                            assert(views_of(out@) =~= fans.take(k + 1));
                        }
                        k += 1;
                    }
                    self.msg_counter_id = base + n as u64 + 1;
                    proof {
                        assert(fans.take(n as int) =~= fans);
                    }
                } else {
                    self.msg_counter_id = base + 1;
                }
                let b = make_reply_body(BodyType::BroadcastOk, self.msg_counter_id, msg);
                out.push(Message { src: own, dest: msg.src, body: b });
                proof {
                    assert(self@ =~= step_broadcast(old(self)@, msg@).0);
                    if from_client {
                        let fans = fanout(own, old(self).node_ids@, v, base as nat);
                        assert(views_of(out@) =~= step_broadcast(old(self)@, msg@).1);
                    } else {
                        assert(views_of(out@) =~= step_broadcast(old(self)@, msg@).1);
                    }
                }
                out
            },
        }
    }

    /// Handles one decoded envelope: mutates the node as [`step`] says and
    /// returns the envelopes to emit, in emission order. The bound on the
    /// counter is the machine limit on the sequence number space.
    pub fn handle_message(&mut self, msg: &Message) -> (out: Vec<Message>)
        requires
            old(self).msg_counter_id + 2 + old(self).node_ids@.len() <= u64::MAX,
        ensures
            msg@.body.body_type != BodyType::Generate ==> final(self)@ == step(
                old(self)@,
                msg@,
                Seq::<char>::empty(),
            ).0 && views_of(out@) == step(old(self)@, msg@, Seq::<char>::empty()).1,
            msg@.body.body_type == BodyType::Generate ==> exists|v: u128|
                final(self)@ == step(old(self)@, msg@, #[trigger] u128_digits(v)).0 && views_of(
                    out@,
                ) == step(old(self)@, msg@, u128_digits(v)).1,
    {
        match msg.body.body_type {
            BodyType::Init => self.handle_init(msg),
            BodyType::BroadcastOk => {
                let out: Vec<Message> = Vec::new();
                proof {
                    assert(views_of(out@) =~= Seq::<MessageView>::empty());
                }
                out
            },
            BodyType::Echo => {
                if self.id.is_some() {
                    self.handle_echo(msg)
                } else {
                    self.error_response(msg)
                }
            },
            BodyType::Generate => {
                if self.id.is_some() {
                    self.handle_generate(msg)
                } else {
                    let out = self.error_response(msg);
                    proof {
                        assert(self@ == step(old(self)@, msg@, u128_digits(0)).0);
                        assert(views_of(out@) == step(old(self)@, msg@, u128_digits(0)).1);
                    }
                    out
                }
            },
            BodyType::Read => {
                if self.id.is_some() {
                    self.handle_read(msg)
                } else {
                    self.error_response(msg)
                }
            },
            BodyType::Broadcast => {
                if self.id.is_some() {
                    self.handle_broadcast(msg)
                } else {
                    self.error_response(msg)
                }
            },
            BodyType::Topology => {
                if self.id.is_some() {
                    self.handle_topology(msg)
                } else {
                    self.error_response(msg)
                }
            },
            _ => self.error_response(msg),
        }
    }
}

/// `init` is the only way out of the uninitialized state; its first handling
/// sets the identifier to the envelope's destination and the peer set to the
/// roster minus that identifier; and both, once set, never change again,
/// whatever arrives later.
pub proof fn lemma_init_is_terminal(pre: ServerView, m: MessageView, fresh: Seq<char>)
    ensures
        pre.id is None && m.body.body_type != BodyType::Init ==> step(pre, m, fresh).0.id is None,
        pre.id is None && m.body.body_type == BodyType::Init && m.body.node_ids is Some ==> ({
            let post = step(pre, m, fresh).0;
            post.id == Some(m.dest) && post.node_ids == peers_of(m.body.node_ids->Some_0, m.dest)
        }),
        pre.id is Some ==> step(pre, m, fresh).0.id == pre.id && step(pre, m, fresh).0.node_ids
            == pre.node_ids,
{
}

/// The node's own identifier never stands in the peer set built from a
/// roster, however often the roster names it.
pub proof fn lemma_peers_exclude_self(roster: Seq<ID>, own: ID)
    ensures
        forall|k: int|
            0 <= k < peers_of(roster, own).len() ==> #[trigger] peers_of(roster, own)[k] != own,
    decreases roster.len(),
{
    reveal(Seq::filter);
    if roster.len() > 0 {
        lemma_peers_exclude_self(roster.drop_last(), own);
    }
}

/// `echo` answers with the exact payload, unmodified, correlated to the
/// request's sequence number; nothing but the counter moves.
pub proof fn lemma_echo_verbatim(pre: ServerView, m: MessageView, fresh: Seq<char>)
    requires
        pre.id is Some,
        m.body.body_type == BodyType::Echo,
    ensures
        step(pre, m, fresh).1.len() == 1,
        step(pre, m, fresh).1[0].body.body_type == BodyType::EchoOk,
        step(pre, m, fresh).1[0].body.echo == m.body.echo,
        step(pre, m, fresh).1[0].body.in_reply_to == m.body.msg_id,
        step(pre, m, fresh).0 == ticked(pre, 1),
{
}

/// A broadcast carrying a value from a client fans the value out to every
/// peer exactly once, in peer-registration order, each fan-out a fresh
/// `broadcast` from this node and no reply; the client is acknowledged last.
/// A broadcast arriving from a peer node is acknowledged and nothing fans
/// out.
pub proof fn lemma_broadcast_fanout(pre: ServerView, m: MessageView, fresh: Seq<char>)
    requires
        pre.id is Some,
        m.body.body_type == BodyType::Broadcast,
        m.body.message is Some,
    ensures
        m.src is Client ==> ({
            let outs = step(pre, m, fresh).1;
            &&& outs.len() == pre.node_ids.len() + 1
            &&& forall|k: int|
                0 <= k < pre.node_ids.len() ==> ({
                    let f = #[trigger] outs[k];
                    &&& f.src == pre.id->Some_0
                    &&& f.dest == pre.node_ids[k]
                    &&& f.body.body_type == BodyType::Broadcast
                    &&& f.body.message == m.body.message
                    &&& f.body.in_reply_to is None
                })
            &&& outs.last().body.body_type == BodyType::BroadcastOk
            &&& outs.last().dest == m.src
        }),
        !(m.src is Client) ==> ({
            let outs = step(pre, m, fresh).1;
            outs.len() == 1 && outs[0].body.body_type == BodyType::BroadcastOk
        }),
{
}

/// `read` answers with every value ever recorded, in arrival order,
/// duplicates preserved, and records nothing itself.
pub proof fn lemma_read_returns_log(pre: ServerView, m: MessageView, fresh: Seq<char>)
    requires
        pre.id is Some,
        m.body.body_type == BodyType::Read,
    ensures
        step(pre, m, fresh).1.len() == 1,
        step(pre, m, fresh).1[0].body.body_type == BodyType::ReadOk,
        step(pre, m, fresh).1[0].body.messages == Some(pre.msg_state),
        step(pre, m, fresh).0.msg_state == pre.msg_state,
{
}

/// The log only ever grows at its end: whatever arrives, the values already
/// recorded stay, in their order, for the lifetime of the node.
pub proof fn lemma_log_append_only(pre: ServerView, m: MessageView, fresh: Seq<char>)
    ensures
        pre.msg_state.is_prefix_of(step(pre, m, fresh).0.msg_state),
{
    let post = step(pre, m, fresh).0;
    assert(pre.msg_state =~= post.msg_state.subrange(0, pre.msg_state.len() as int));
}

/// The discriminants the node handles at all.
pub open spec fn handled(t: BodyType) -> bool {
    t == BodyType::Init || t == BodyType::Echo || t == BodyType::Generate || t == BodyType::Read
        || t == BodyType::Broadcast || t == BodyType::BroadcastOk || t == BodyType::Topology
}

/// An unhandled discriminant — initialized or not — and likewise any request
/// reaching a node not yet initialized, answers a single `error` body with
/// code 13 and empty text; the state keeps everything but the counter, which
/// ticks twice.
pub proof fn lemma_unhandled_yields_error(pre: ServerView, m: MessageView, fresh: Seq<char>)
    requires
        !handled(m.body.body_type) || (pre.id is None && m.body.body_type != BodyType::Init
            && m.body.body_type != BodyType::BroadcastOk),
    ensures
        step(pre, m, fresh).1.len() == 1,
        step(pre, m, fresh).1[0].body.body_type == BodyType::Error,
        step(pre, m, fresh).1[0].body.code == Some(13u32),
        step(pre, m, fresh).1[0].body.text == Some(Seq::<char>::empty()),
        step(pre, m, fresh).0.msg_counter_id == pre.msg_counter_id + 2,
        step(pre, m, fresh).0.id == pre.id,
        step(pre, m, fresh).0.msg_state == pre.msg_state,
        step(pre, m, fresh).0.node_ids == pre.node_ids,
{
}

} // verus!
