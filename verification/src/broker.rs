//! The decisions of a broker session: what it answers, what it stores, and
//! whom it forwards publications to. The network and the channels are the
//! caller's; it hands each event in and carries out the action that comes back.
use vstd::prelude::*;
use vstd::slice::slice_to_vec;
use vstd::string::StringSliceAdditionalSpecFns;
use vstd::utf8::encode_utf8;

use crate::error::ProtocolError;
use crate::packet::{qos_level, topics_view, ConnectReturnCode, Packet, QoS, SpecPacket, SubAckReturnCode, SubscribeTopic};
use crate::trie::{
    delivery_qos, distinct_clients, key_matches, key_of_filter, law_subscriber_receives, lemma_lookup_at, split_levels, sub_lookup, Level, Subscription,
    TopicTrie,
};

verus! {

/// What a broker shares between its sessions: the subscriptions and the
/// clients that are connected.
pub struct BrokerState {
    trie: TopicTrie,
    sessions: Vec<String>,
}

/// No client is connected twice.
pub open spec fn distinct_ids(ids: Seq<String>) -> bool {
    forall|a: int, b: int|
        0 <= a < ids.len() && 0 <= b < ids.len() && a != b ==> #[trigger] ids[a]@ != #[trigger] ids[b]@
}

/// The subscriptions after a client subscribes to each filter in turn.
pub open spec fn subscribe_all(
    m: Map<(Seq<Level>, Seq<char>), QoS>,
    topics: Seq<(Seq<char>, QoS)>,
    c: Seq<char>,
) -> Map<(Seq<Level>, Seq<char>), QoS>
    decreases topics.len(),
{
    if topics.len() == 0 {
        m
    } else {
        subscribe_all(m, topics.drop_last(), c).insert(
            (key_of_filter(encode_utf8(topics.last().0)), c),
            topics.last().1,
        )
    }
}

/// The subscriptions after a client unsubscribes from each filter in turn.
pub open spec fn unsubscribe_all(
    m: Map<(Seq<Level>, Seq<char>), QoS>,
    filters: Seq<Seq<char>>,
    c: Seq<char>,
) -> Map<(Seq<Level>, Seq<char>), QoS>
    decreases filters.len(),
{
    if filters.len() == 0 {
        m
    } else {
        unsubscribe_all(m, filters.drop_last(), c).remove((key_of_filter(encode_utf8(filters.last())), c))
    }
}

/// The characters of each string.
pub open spec fn string_views(v: Seq<String>) -> Seq<Seq<char>> {
    v.map_values(|s: String| s@)
}

/// What a session does after an event.
#[derive(Debug)]
pub enum SessionAction {
    /// Send this packet back to the client.
    Reply(Packet),
    /// Hand each packet to the session of the named client.
    Deliver(Vec<(String, Packet)>),
    /// End the session.
    Close,
    /// Nothing to do.
    Ignore,
}

/// The answer to the first packet of a connection: a CONNECT is accepted,
/// with its client identifier; anything else ends the connection.
pub fn accept_connect(first: Option<Result<Packet, ProtocolError>>) -> (r: Option<(String, Packet)>)
    ensures
        match first {
            Some(Ok(Packet::Connect { client_id, .. })) => r matches Some((id, reply)) && id@
                == client_id@ && reply@ == (SpecPacket::ConnAck {
                session_present: false,
                return_code: ConnectReturnCode::Accepted,
            }),
            _ => r is None,
        },
{
    match first {
        Some(Ok(Packet::Connect { client_id, .. })) => Some(
            (
                client_id,
                Packet::ConnAck { session_present: false, return_code: ConnectReturnCode::Accepted },
            ),
        ),
        _ => None,
    }
}

impl BrokerState {
    /// The invariant: the trie is well formed and no client is connected twice.
    pub closed spec fn wf(&self) -> bool {
        self.trie.wf() && distinct_ids(self.sessions@)
    }

    /// The subscriptions of all clients.
    pub closed spec fn subscriptions(&self) -> Map<(Seq<Level>, Seq<char>), QoS> {
        self.trie@
    }

    /// The clients that are connected.
    pub closed spec fn connected(&self) -> Set<Seq<char>> {
        Set::new(|c: Seq<char>| exists|i: int| 0 <= i < self.sessions@.len() && #[trigger] self.sessions@[i]@ == c)
    }

    /// A broker with no subscription and no connected client.
    pub fn new() -> (r: BrokerState)
        ensures
            r.wf(),
            r.subscriptions() == Map::<(Seq<Level>, Seq<char>), QoS>::empty(),
            r.connected() == Set::<Seq<char>>::empty(),
    {
        let r = BrokerState { trie: TopicTrie::new(), sessions: Vec::new() };
        assert(r.connected() =~= Set::<Seq<char>>::empty());
        r
    }

    /// Where client `c` is among the connected ones.
    fn session_index(&self, c: &String) -> (r: Option<usize>)
        ensures
            r matches Some(i) ==> i < self.sessions@.len() && self.sessions@[i as int]@ == c@,
            r is None ==> !self.connected().contains(c@),
    {
        let mut i: usize = 0;
        while i < self.sessions.len()
            invariant
                i <= self.sessions@.len(),
                forall|k: int| 0 <= k < i ==> #[trigger] self.sessions@[k]@ != c@,
            decreases self.sessions@.len() - i,
        {
            if self.sessions[i] == *c {
                return Some(i);
            }
            i += 1;
        }
        None
    }

    /// Whether client `c` is connected.
    pub fn is_connected(&self, c: &String) -> (r: bool)
        ensures
            r == self.connected().contains(c@),
    {
        match self.session_index(c) {
            Some(_) => true,
            None => false,
        }
    }

    /// Records that `client_id` is connected (a new connection of a client
    /// takes the place of its old one).
    pub fn register(&mut self, client_id: String)
        requires
            old(self).wf(),
        ensures
            final(self).wf(),
            final(self).subscriptions() == old(self).subscriptions(),
            final(self).connected() == old(self).connected().insert(client_id@),
    {
        let ghost c = client_id@;
        match self.session_index(&client_id) {
            Some(_) => {
                assert(self.connected().contains(c));
                assert(self.connected() =~= old(self).connected().insert(c));
            },
            None => {
                self.sessions.push(client_id);
                assert forall|x: Seq<char>| #[trigger] self.connected().contains(x) == old(self).connected().insert(c).contains(x) by {
                    if old(self).connected().contains(x) {
                        let i = choose|i: int| 0 <= i < old(self).sessions@.len() && #[trigger] old(self).sessions@[i]@ == x;
                        assert(self.sessions@[i] == old(self).sessions@[i]);
                    }
                    if self.connected().contains(x) && x != c {
                        let i = choose|i: int| 0 <= i < self.sessions@.len() && #[trigger] self.sessions@[i]@ == x;
                        assert(old(self).sessions@[i] == self.sessions@[i]);
                    }
                    if x == c {
                        assert(self.sessions@[self.sessions@.len() - 1]@ == c);
                    }
                }
                assert(self.connected() =~= old(self).connected().insert(c));
            },
        }
    }

    /// Records that `client_id` is gone.
    pub fn unregister(&mut self, client_id: &String)
        requires
            old(self).wf(),
        ensures
            final(self).wf(),
            final(self).subscriptions() == old(self).subscriptions(),
            final(self).connected() == old(self).connected().remove(client_id@),
    {
        let ghost c = client_id@;
        match self.session_index(client_id) {
            Some(i) => {
                self.sessions.remove(i);
                assert forall|a: int, b: int|
                    0 <= a < self.sessions@.len() && 0 <= b < self.sessions@.len() && a != b implies #[trigger] self.sessions@[a]@
                    != #[trigger] self.sessions@[b]@ by {
                    let a2 = if a < i { a } else { a + 1 };
                    let b2 = if b < i { b } else { b + 1 };
                    assert(self.sessions@[a] == old(self).sessions@[a2]);
                    assert(self.sessions@[b] == old(self).sessions@[b2]);
                }
                assert forall|x: Seq<char>| #[trigger] self.connected().contains(x) == old(self).connected().remove(c).contains(x) by {
                    if self.connected().contains(x) {
                        let a = choose|a: int| 0 <= a < self.sessions@.len() && #[trigger] self.sessions@[a]@ == x;
                        let a2 = if a < i { a } else { a + 1 };
                        assert(self.sessions@[a] == old(self).sessions@[a2]);
                        assert(old(self).sessions@[a2]@ == x);
                    }
                    if old(self).connected().contains(x) && x != c {
                        let a = choose|a: int| 0 <= a < old(self).sessions@.len() && #[trigger] old(self).sessions@[a]@ == x;
                        if a < i {
                            assert(self.sessions@[a] == old(self).sessions@[a]);
                        } else {
                            assert(self.sessions@[a - 1] == old(self).sessions@[a]);
                        }
                    }
                }
                assert(self.connected() =~= old(self).connected().remove(c));
            },
            None => {
                assert(self.connected() =~= old(self).connected().remove(c));
            },
        }
    }
}

/// Whether `ds` are the deliveries of a publication on `topic`: one for each
/// connected client that a subscription matching the topic names, carrying
/// the publication with the highest QoS among the client's matching subscriptions.
pub open spec fn deliveries_of(
    ds: Seq<(String, Packet)>,
    subs: Map<(Seq<Level>, Seq<char>), QoS>,
    connected: Set<Seq<char>>,
    topic: Seq<char>,
    retain: bool,
    dup: bool,
    packet_id: Option<u16>,
    payload: Seq<u8>,
) -> bool {
    let levels = split_levels(encode_utf8(topic));
    &&& forall|a: int, b: int|
        0 <= a < ds.len() && 0 <= b < ds.len() && a != b ==> #[trigger] ds[a].0@ != #[trigger] ds[b].0@
    &&& forall|i: int|
        0 <= i < ds.len() ==> {
            let (c, p) = #[trigger] ds[i];
            &&& connected.contains(c@)
            &&& delivery_qos(subs, levels, c@) matches Some(q) && p@ == (SpecPacket::Publish {
                topic,
                qos: q,
                retain,
                dup,
                packet_id,
                payload,
            })
        }
    &&& forall|c: Seq<char>|
        connected.contains(c) && #[trigger] delivery_qos(subs, levels, c) is Some ==> exists|i: int|
            0 <= i < ds.len() && #[trigger] ds[i].0@ == c
}

impl BrokerState {
    /// The deliveries of a publication on `topic`.
    fn route_publish(
        &self,
        topic: &String,
        retain: bool,
        dup: bool,
        packet_id: Option<u16>,
        payload: &Vec<u8>,
    ) -> (r: Vec<(String, Packet)>)
        requires
            self.wf(),
        ensures
            deliveries_of(
                r@,
                self.subscriptions(),
                self.connected(),
                topic@,
                retain,
                dup,
                packet_id,
                payload@,
            ),
    {
        let matched = self.trie.match_topic(topic.as_str());
        let ghost levels = split_levels(encode_utf8(topic@));
        let mut ds: Vec<(String, Packet)> = Vec::new();
        let mut i: usize = 0;
        while i < matched.len()
            invariant
                self.wf(),
                i <= matched@.len(),
                distinct_clients(matched@),
                forall|c: Seq<char>|
                    #![trigger sub_lookup(matched@, c)]
                    sub_lookup(matched@, c) == delivery_qos(self.trie@, levels, c),
                forall|a: int, b: int|
                    0 <= a < ds@.len() && 0 <= b < ds@.len() && a != b ==> #[trigger] ds@[a].0@
                        != #[trigger] ds@[b].0@,
                forall|k: int|
                    0 <= k < ds@.len() ==> exists|a: int|
                        0 <= a < i && #[trigger] matched@[a].client_id@ == (#[trigger] ds@[k]).0@,
                forall|k: int|
                    0 <= k < ds@.len() ==> {
                        let (c, p) = #[trigger] ds@[k];
                        &&& self.connected().contains(c@)
                        &&& delivery_qos(self.trie@, levels, c@) matches Some(q) && p@
                            == (SpecPacket::Publish {
                            topic: topic@,
                            qos: q,
                            retain,
                            dup,
                            packet_id,
                            payload: payload@,
                        })
                    },
                forall|a: int|
                    0 <= a < i && self.connected().contains(#[trigger] matched@[a].client_id@)
                        ==> exists|k: int| 0 <= k < ds@.len() && #[trigger] ds@[k].0@ == matched@[a].client_id@,
            decreases matched@.len() - i,
        {
            let sub = &matched[i];
            proof {
                lemma_lookup_at(matched@, i as int);
            }
            if self.is_connected(&sub.client_id) {
                let ghost before = ds@;
                let delivery = Packet::Publish {
                    topic: topic.clone(),
                    qos: sub.qos,
                    retain,
                    dup,
                    packet_id,
                    payload: slice_to_vec(payload.as_slice()),
                };
                ds.push((sub.client_id.clone(), delivery));
                proof {
                    let n = before.len() as int;
                    assert(ds@[n].0@ == matched@[i as int].client_id@);
                    assert forall|a: int, b: int|
                        0 <= a < ds@.len() && 0 <= b < ds@.len() && a != b implies #[trigger] ds@[a].0@
                        != #[trigger] ds@[b].0@ by {
                        if a == n && b < n {
                            assert(ds@[b] == before[b]);
                            let a2 = choose|a2: int| 0 <= a2 < i && #[trigger] matched@[a2].client_id@ == before[b].0@;
                        } else if b == n && a < n {
                            assert(ds@[a] == before[a]);
                            let a2 = choose|a2: int| 0 <= a2 < i && #[trigger] matched@[a2].client_id@ == before[a].0@;
                        } else {
                            assert(ds@[a] == before[a]);
                            assert(ds@[b] == before[b]);
                        }
                    }
                    assert forall|k: int| 0 <= k < ds@.len() implies exists|a: int|
                        0 <= a < i + 1 && #[trigger] matched@[a].client_id@ == (#[trigger] ds@[k]).0@ by {
                        if k < n {
                            assert(ds@[k] == before[k]);
                            let a2 = choose|a2: int| 0 <= a2 < i && #[trigger] matched@[a2].client_id@ == before[k].0@;
                            assert(matched@[a2].client_id@ == ds@[k].0@);
                        } else {
                            assert(matched@[i as int].client_id@ == ds@[k].0@);
                        }
                    }
                    assert forall|k: int| 0 <= k < ds@.len() implies {
                        let (c, p) = #[trigger] ds@[k];
                        &&& self.connected().contains(c@)
                        &&& delivery_qos(self.trie@, levels, c@) matches Some(q) && p@
                            == (SpecPacket::Publish {
                            topic: topic@,
                            qos: q,
                            retain,
                            dup,
                            packet_id,
                            payload: payload@,
                        })
                    } by {
                        if k < n {
                            assert(ds@[k] == before[k]);
                        }
                    }
                    assert forall|a: int|
                        0 <= a < i + 1 && self.connected().contains(#[trigger] matched@[a].client_id@)
                        implies exists|k: int| 0 <= k < ds@.len() && #[trigger] ds@[k].0@ == matched@[a].client_id@ by {
                        if a < i {
                            let k = choose|k: int| 0 <= k < before.len() && #[trigger] before[k].0@ == matched@[a].client_id@;
                            assert(ds@[k] == before[k]);
                        } else {
                            assert(ds@[n].0@ == matched@[a].client_id@);
                        }
                    }
                }
            }
            i += 1;
        }
        proof {
            assert forall|c: Seq<char>|
                self.connected().contains(c) && #[trigger] delivery_qos(self.trie@, levels, c) is Some implies exists|k: int|
                0 <= k < ds@.len() && #[trigger] ds@[k].0@ == c by {
                assert(sub_lookup(matched@, c) is Some);
                let a = choose|a: int| 0 <= a < matched@.len() && #[trigger] matched@[a].client_id@ == c;
                assert(self.connected().contains(matched@[a].client_id@));
            }
        }
        ds
    }
}

/// The filters of a sequence of subscription requests.
pub open spec fn filters_of(topics: Seq<(Seq<char>, QoS)>) -> Seq<Seq<char>> {
    topics.map_values(|t: (Seq<char>, QoS)| t.0)
}

impl BrokerState {
    /// Subscribes `client_id` to each requested filter in turn, noting the
    /// filters in `subscribed`; gives one success code (QoS 0) per filter.
    fn subscribe_topics(
        &mut self,
        client_id: &String,
        subscribed: &mut Vec<String>,
        topics: &Vec<SubscribeTopic>,
    ) -> (codes: Vec<SubAckReturnCode>)
        requires
            old(self).wf(),
        ensures
            final(self).wf(),
            final(self).connected() == old(self).connected(),
            final(self).subscriptions() == subscribe_all(
                old(self).subscriptions(),
                topics_view(topics@),
                client_id@,
            ),
            string_views(final(subscribed)@) == string_views(old(subscribed)@) + filters_of(
                topics_view(topics@),
            ),
            codes@ == Seq::new(topics@.len(), |i: int| SubAckReturnCode::SuccessQoS0),
    {
        let ghost tv = topics_view(topics@);
        let ghost subs0 = self.trie@;
        let ghost listed0 = string_views(subscribed@);
        let mut codes: Vec<SubAckReturnCode> = Vec::new();
        let mut i: usize = 0;
        assert(tv.take(0) =~= seq![]);
        assert(filters_of(tv.take(0)) =~= seq![]);
        assert(listed0 + filters_of(tv.take(0)) =~= listed0);
        while i < topics.len()
            invariant
                self.wf(),
                self.connected() == old(self).connected(),
                i <= topics@.len(),
                tv == topics_view(topics@),
                self.trie@ == subscribe_all(subs0, tv.take(i as int), client_id@),
                string_views(subscribed@) == listed0 + filters_of(tv.take(i as int)),
                codes@ == Seq::new(i as nat, |k: int| SubAckReturnCode::SuccessQoS0),
            decreases topics@.len() - i,
        {
            let topic = &topics[i];
            let ghost before = subscribed@;
            self.trie.subscribe(topic.filter.as_str(), client_id.clone(), topic.qos);
            subscribed.push(topic.filter.clone());
            codes.push(SubAckReturnCode::SuccessQoS0);
            proof {
                assert(tv[i as int] == topic@);
                assert(tv.take(i + 1).drop_last() =~= tv.take(i as int));
                assert(tv.take(i + 1).last() == tv[i as int]);
                assert(string_views(subscribed@) =~= string_views(before).push(topic.filter@));
                assert(filters_of(tv.take(i + 1)) =~= filters_of(tv.take(i as int)).push(topic.filter@));
                assert(codes@ =~= Seq::new((i + 1) as nat, |k: int| SubAckReturnCode::SuccessQoS0));
            }
            i += 1;
        }
        assert(tv.take(i as int) =~= tv);
        codes
    }

    /// What a session of `client_id` does with an incoming event: the next
    /// packet, a read error (`Some(Err(..))`, which is ignored), or the end of
    /// the stream (`None`). PINGREQ is answered with PINGRESP; SUBSCRIBE
    /// subscribes the client to every filter, notes them in `subscribed` and is
    /// answered with SUBACK granting QoS 0 to each; PUBLISH is delivered to the
    /// connected clients it matches; DISCONNECT and the end of the stream close
    /// the session; anything else is ignored.
    pub fn handle_packet(
        &mut self,
        client_id: &String,
        subscribed: &mut Vec<String>,
        incoming: Option<Result<Packet, ProtocolError>>,
    ) -> (r: SessionAction)
        requires
            old(self).wf(),
        ensures
            final(self).wf(),
            final(self).connected() == old(self).connected(),
            match incoming {
                Some(Ok(Packet::Subscribe { packet_id, topics })) => {
                    &&& r matches SessionAction::Reply(p) && p@ == (SpecPacket::SubAck {
                        packet_id,
                        return_codes: Seq::new(topics@.len(), |i: int| SubAckReturnCode::SuccessQoS0),
                    })
                    &&& final(self).subscriptions() == subscribe_all(
                        old(self).subscriptions(),
                        topics_view(topics@),
                        client_id@,
                    )
                    &&& string_views(final(subscribed)@) == string_views(old(subscribed)@)
                        + filters_of(topics_view(topics@))
                },
                _ => {
                    &&& final(self).subscriptions() == old(self).subscriptions()
                    &&& final(subscribed)@ == old(subscribed)@
                    &&& match incoming {
                        Some(Ok(Packet::PingReq)) => r matches SessionAction::Reply(p) && p@
                            == SpecPacket::PingResp,
                        Some(Ok(Packet::Publish { topic, qos, retain, dup, packet_id, payload })) => r matches SessionAction::Deliver(ds)
                            && deliveries_of(
                            ds@,
                            old(self).subscriptions(),
                            old(self).connected(),
                            topic@,
                            retain,
                            dup,
                            packet_id,
                            payload@,
                        ),
                        Some(Ok(Packet::Disconnect)) | None => r is Close,
                        _ => r is Ignore,
                    }
                },
            },
    {
        match incoming {
            Some(Ok(Packet::PingReq)) => SessionAction::Reply(Packet::PingResp),
            Some(Ok(Packet::Subscribe { packet_id, topics })) => {
                let return_codes = self.subscribe_topics(client_id, subscribed, &topics);
                SessionAction::Reply(Packet::SubAck { packet_id, return_codes })
            },
            Some(Ok(Packet::Publish { topic, qos: _, retain, dup, packet_id, payload })) => {
                SessionAction::Deliver(self.route_publish(&topic, retain, dup, packet_id, &payload))
            },
            Some(Ok(Packet::Disconnect)) | None => SessionAction::Close,
            _ => SessionAction::Ignore,
        }
    }

    /// Ends the session of `client_id`: takes its subscriptions to each of
    /// `filters` away and records it as gone.
    pub fn close_session(&mut self, client_id: &String, filters: &Vec<String>)
        requires
            old(self).wf(),
        ensures
            final(self).wf(),
            final(self).subscriptions() == unsubscribe_all(
                old(self).subscriptions(),
                string_views(filters@),
                client_id@,
            ),
            final(self).connected() == old(self).connected().remove(client_id@),
    {
        let ghost fv = string_views(filters@);
        let ghost subs0 = self.trie@;
        let mut i: usize = 0;
        assert(fv.take(0) =~= seq![]);
        while i < filters.len()
            invariant
                self.wf(),
                self.connected() == old(self).connected(),
                i <= filters@.len(),
                fv == string_views(filters@),
                self.trie@ == unsubscribe_all(subs0, fv.take(i as int), client_id@),
            decreases filters@.len() - i,
        {
            self.trie.unsubscribe(filters[i].as_str(), client_id.as_str());
            proof {
                assert(fv[i as int] == filters@[i as int]@);
                assert(fv.take(i + 1).drop_last() =~= fv.take(i as int));
            }
            i += 1;
        }
        assert(fv.take(i as int) =~= fv);
        self.unregister(client_id);
    }
}

/// A client that is not connected is delivered nothing.
pub proof fn law_disconnected_client_receives_nothing(
    ds: Seq<(String, Packet)>,
    subs: Map<(Seq<Level>, Seq<char>), QoS>,
    connected: Set<Seq<char>>,
    c: Seq<char>,
    topic: Seq<char>,
    retain: bool,
    dup: bool,
    packet_id: Option<u16>,
    payload: Seq<u8>,
)
    requires
        deliveries_of(ds, subs, connected, topic, retain, dup, packet_id, payload),
        !connected.contains(c),
    ensures
        forall|i: int| 0 <= i < ds.len() ==> #[trigger] ds[i].0@ != c,
{
    assert forall|i: int| 0 <= i < ds.len() implies #[trigger] ds[i].0@ != c by {
        let (d, p) = ds[i];
        assert(connected.contains(d@));
    }
}

/// A connected client that subscribed to a filter matching a publication's
/// topic is delivered the publication once, with at least the QoS it
/// subscribed with.
pub proof fn law_connected_subscriber_gets_delivery(
    ds: Seq<(String, Packet)>,
    subs: Map<(Seq<Level>, Seq<char>), QoS>,
    connected: Set<Seq<char>>,
    filter: Seq<char>,
    c: Seq<char>,
    q: QoS,
    topic: Seq<char>,
    retain: bool,
    dup: bool,
    packet_id: Option<u16>,
    payload: Seq<u8>,
)
    requires
        deliveries_of(
            ds,
            subs.insert((key_of_filter(encode_utf8(filter)), c), q),
            connected,
            topic,
            retain,
            dup,
            packet_id,
            payload,
        ),
        connected.contains(c),
        key_matches(key_of_filter(encode_utf8(filter)), split_levels(encode_utf8(topic))),
    ensures
        exists|i: int|
            0 <= i < ds.len() && #[trigger] ds[i].0@ == c && (ds[i].1@ matches SpecPacket::Publish {
                topic: t,
                qos: r,
                payload: pl,
                ..
            } && t == topic && pl == payload && qos_level(r) >= qos_level(q)),
        forall|a: int, b: int| 0 <= a < ds.len() && 0 <= b < ds.len() && ds[a].0@ == c && ds[b].0@ == c ==> a == b,
{
    let m = subs.insert((key_of_filter(encode_utf8(filter)), c), q);
    let levels = split_levels(encode_utf8(topic));
    law_subscriber_receives(subs, encode_utf8(filter), c, q, encode_utf8(topic));
    assert(delivery_qos(m, levels, c) is Some);
    let i = choose|i: int| 0 <= i < ds.len() && #[trigger] ds[i].0@ == c;
    let (d, p) = ds[i];
    assert(delivery_qos(m, levels, c) matches Some(r) && p@ == (SpecPacket::Publish {
        topic,
        qos: r,
        retain,
        dup,
        packet_id,
        payload,
    }));
}

} // verus!
