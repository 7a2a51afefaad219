//! Routing of publications to subscribers: a trie of topic filters.
use vstd::prelude::*;
use vstd::slice::slice_to_vec;
use vstd::string::StringSliceAdditionalSpecFns;

use crate::packet::{qos_level, QoS};

verus! {

/// One level of a topic filter: a literal token, the single-level wildcard
/// `+`, or the multi-level wildcard `#`.
pub enum Level {
    Exact(Seq<u8>),
    Plus,
    Hash,
}

/// `s` cut at every `/` byte, as `str::split('/')` cuts it: `n` slashes give
/// `n + 1` pieces, some of them possibly empty.
pub open spec fn split_levels(s: Seq<u8>) -> Seq<Seq<u8>>
    decreases s.len(),
{
    if s.len() == 0 {
        seq![Seq::<u8>::empty()]
    } else {
        let r = split_levels(s.drop_last());
        if s.last() == 0x2Fu8 {
            r.push(Seq::<u8>::empty())
        } else {
            r.update(r.len() - 1, r.last().push(s.last()))
        }
    }
}

/// The bytes of each token.
pub open spec fn token_views(v: Seq<Vec<u8>>) -> Seq<Seq<u8>> {
    v.map_values(|x: Vec<u8>| x@)
}

/// The filter level that a token stands for.
pub open spec fn level_of(tok: Seq<u8>) -> Level {
    if tok == seq![0x23u8] {
        Level::Hash
    } else if tok == seq![0x2Bu8] {
        Level::Plus
    } else {
        Level::Exact(tok)
    }
}

/// The levels of a sequence of tokens.
pub open spec fn levels_of(toks: Seq<Seq<u8>>) -> Seq<Level> {
    toks.map_values(|t: Seq<u8>| level_of(t))
}

/// The key under which a filter made of `toks` is stored: its levels up to
/// the first `#`, which ends it; what follows a `#` is ignored.
pub open spec fn filter_key(toks: Seq<Seq<u8>>) -> Seq<Level>
    decreases toks.len(),
{
    if toks.len() == 0 {
        seq![]
    } else if level_of(toks[0]) is Hash {
        seq![Level::Hash]
    } else {
        seq![level_of(toks[0])] + filter_key(toks.drop_first())
    }
}

/// The key of a topic filter string.
pub open spec fn key_of_filter(filter: Seq<u8>) -> Seq<Level> {
    filter_key(split_levels(filter))
}

/// Whether one filter level matches one topic token.
pub open spec fn level_matches(l: Level, tok: Seq<u8>) -> bool {
    match l {
        Level::Exact(e) => e == tok,
        Level::Plus => true,
        Level::Hash => false,
    }
}

/// Whether the levels `p` match the first `p.len()` tokens of a topic.
pub open spec fn prefix_match(p: Seq<Level>, topic: Seq<Seq<u8>>) -> bool {
    &&& p.len() <= topic.len()
    &&& forall|i: int| 0 <= i < p.len() ==> level_matches(#[trigger] p[i], topic[i])
}

/// Whether a stored filter key matches a topic: a key ending in `#` matches
/// every topic that its other levels match as a prefix (the parent level
/// included); any other key matches topics of its length level by level.
pub open spec fn key_matches(key: Seq<Level>, topic: Seq<Seq<u8>>) -> bool {
    if key.len() > 0 && key.last() is Hash {
        prefix_match(key.drop_last(), topic)
    } else {
        prefix_match(key, topic) && key.len() == topic.len()
    }
}

/// A client's subscription and the QoS it gets.
#[derive(Debug, Clone, PartialEq, Eq, Hash)]
pub struct Subscription {
    pub client_id: String,
    pub qos: QoS,
}

impl View for Subscription {
    type V = (Seq<char>, QoS);

    open spec fn view(&self) -> (Seq<char>, QoS) {
        (self.client_id@, self.qos)
    }
}

/// No client appears twice.
pub open spec fn distinct_clients(list: Seq<Subscription>) -> bool {
    forall|a: int, b: int|
        0 <= a < list.len() && 0 <= b < list.len() && a != b ==> #[trigger] list[a].client_id@
            != #[trigger] list[b].client_id@
}

/// The QoS a list gives client `c`, if it holds `c`.
pub open spec fn sub_lookup(list: Seq<Subscription>, c: Seq<char>) -> Option<QoS> {
    if exists|i: int| 0 <= i < list.len() && #[trigger] list[i].client_id@ == c {
        Some(list[choose|i: int| 0 <= i < list.len() && #[trigger] list[i].client_id@ == c].qos)
    } else {
        None
    }
}

/// The higher of two optional QoS levels.
pub open spec fn max_qos(a: Option<QoS>, b: Option<QoS>) -> Option<QoS> {
    match (a, b) {
        (None, _) => b,
        (_, None) => a,
        (Some(x), Some(y)) => if qos_level(x) >= qos_level(y) {
            a
        } else {
            b
        },
    }
}

/// The highest QoS that `has` holds, if it holds any.
pub open spec fn best_qos(has: spec_fn(QoS) -> bool) -> Option<QoS> {
    if has(QoS::ExactlyOnce) {
        Some(QoS::ExactlyOnce)
    } else if has(QoS::AtLeastOnce) {
        Some(QoS::AtLeastOnce)
    } else if has(QoS::AtMostOnce) {
        Some(QoS::AtMostOnce)
    } else {
        None
    }
}

/// The QoS a client gets for a topic from a set of subscriptions: the highest
/// QoS among its subscriptions whose filter matches the topic.
pub open spec fn delivery_qos(
    subs: Map<(Seq<Level>, Seq<char>), QoS>,
    topic: Seq<Seq<u8>>,
    c: Seq<char>,
) -> Option<QoS> {
    best_qos(
        |q: QoS|
            exists|k: Seq<Level>|
                #[trigger] subs.contains_key((k, c)) && subs[(k, c)] == q && key_matches(k, topic),
    )
}

/// Splits `s` at every `/` byte.
fn split_levels_exec(s: &[u8]) -> (r: Vec<Vec<u8>>)
    ensures
        token_views(r@) == split_levels(s@),
{
    let mut pieces: Vec<Vec<u8>> = Vec::new();
    let mut cur: Vec<u8> = Vec::new();
    let mut i: usize = 0;
    assert(s@.take(0) =~= seq![]);
    assert(token_views(pieces@).push(cur@) =~= split_levels(s@.take(0)));
    while i < s.len()
        invariant
            i <= s@.len(),
            token_views(pieces@).push(cur@) == split_levels(s@.take(i as int)),
        decreases s@.len() - i,
    {
        let ghost before = token_views(pieces@).push(cur@);
        assert(s@.take(i + 1).drop_last() =~= s@.take(i as int));
        assert(s@.take(i + 1).last() == s@[i as int]);
        if s[i] == 0x2F {
            pieces.push(cur);
            cur = Vec::new();
            assert(token_views(pieces@).push(cur@) =~= before.push(seq![]));
        } else {
            cur.push(s[i]);
            assert(token_views(pieces@).push(cur@) =~= before.update(
                before.len() - 1,
                before.last().push(s@[i as int]),
            ));
        }
        i += 1;
    }
    pieces.push(cur);
    assert(s@.take(i as int) =~= s@);
    assert(token_views(pieces@) =~= split_levels(s@));
    pieces
}

/// A node of the trie: the subscriptions that end at it, its children by
/// literal token, its `+` child, and the subscriptions with `#` at this level.
#[derive(Debug)]
pub struct TrieNode {
    subscribers: Vec<Subscription>,
    children: Vec<(Vec<u8>, usize)>,
    plus_child: Option<usize>,
    hash_subscribers: Vec<Subscription>,
}

impl TrieNode {
    fn empty() -> (r: TrieNode)
        ensures
            r.subscribers@.len() == 0,
            r.children@.len() == 0,
            r.plus_child is None,
            r.hash_subscribers@.len() == 0,
    {
        TrieNode {
            subscribers: Vec::new(),
            children: Vec::new(),
            plus_child: None,
            hash_subscribers: Vec::new(),
        }
    }
}

impl TrieNode {
    /// Whether the node holds no subscription and has no child.
    pub closed spec fn is_bare(&self) -> bool {
        &&& self.subscribers@.len() == 0
        &&& self.children@.len() == 0
        &&& self.plus_child is None
        &&& self.hash_subscribers@.len() == 0
    }
}

impl Default for TrieNode {
    /// A node with no subscription and no child.
    fn default() -> (r: TrieNode)
        ensures
            r.is_bare(),
    {
        TrieNode::empty()
    }
}

/// The subscriptions of a set of clients, arranged by the levels of their
/// topic filters. Nodes live in one vector and refer to their children by index;
/// node 0 is the root.
pub struct TopicTrie {
    nodes: Vec<TrieNode>,
    /// The filter levels that lead from the root to each node.
    paths: Ghost<Seq<Seq<Level>>>,
    /// The node each non-root node hangs from.
    parents: Ghost<Seq<int>>,
    /// For a node reached by a literal token, its place among its parent's children.
    slots: Ghost<Seq<int>>,
}

impl TopicTrie {
    /// The path of node `i`.
    pub closed spec fn path(&self, i: int) -> Seq<Level> {
        self.paths@[i]
    }

    /// Number of nodes.
    pub closed spec fn size(&self) -> int {
        self.nodes@.len() as int
    }

    /// What node `i` keeps to itself and what links it to the others.
    pub closed spec fn node_ok(&self, i: int) -> bool {
        let n = self.nodes@.len() as int;
        let node = self.nodes@[i];
        let path = self.paths@[i];
        &&& forall|m: int| 0 <= m < path.len() ==> !(#[trigger] path[m] is Hash)
        &&& forall|k: int|
            0 <= k < node.children@.len() ==> {
                let (tok, j) = #[trigger] node.children@[k];
                &&& j < n
                &&& self.paths@[j as int] == path.push(Level::Exact(tok@))
            }
        &&& forall|k1: int, k2: int|
            0 <= k1 < node.children@.len() && 0 <= k2 < node.children@.len() && k1 != k2
                ==> #[trigger] node.children@[k1].0@ != #[trigger] node.children@[k2].0@
        &&& node.plus_child matches Some(j) ==> j < n && self.paths@[j as int] == path.push(
            Level::Plus,
        )
        &&& i > 0 ==> {
            let p = self.parents@[i];
            &&& 0 <= p < n
            &&& path.len() > 0
            &&& self.paths@[p] == path.drop_last()
            &&& path.last() is Plus ==> self.nodes@[p].plus_child == Some(i as usize)
            &&& path.last() matches Level::Exact(e) ==> {
                let slot = self.slots@[i];
                &&& 0 <= slot < self.nodes@[p].children@.len()
                &&& self.nodes@[p].children@[slot].0@ == e
                &&& self.nodes@[p].children@[slot].1 == i
            }
        }
        &&& distinct_clients(node.subscribers@)
        &&& distinct_clients(node.hash_subscribers@)
    }

    /// The invariant of the trie: the root has the empty path, no two nodes
    /// have the same path, and every node is linked as `node_ok` says.
    pub closed spec fn wf(&self) -> bool {
        let n = self.nodes@.len() as int;
        &&& n >= 1
        &&& self.paths@.len() == n
        &&& self.parents@.len() == n
        &&& self.slots@.len() == n
        &&& self.paths@[0] == Seq::<Level>::empty()
        &&& forall|i: int, j: int|
            0 <= i < n && 0 <= j < n && #[trigger] self.paths@[i] == #[trigger] self.paths@[j] ==> i
                == j
        &&& forall|i: int| 0 <= i < n ==> #[trigger] self.node_ok(i)
    }

    /// The node whose path is `path`, if there is one.
    pub closed spec fn node_at(&self, path: Seq<Level>) -> Option<int> {
        if exists|i: int| 0 <= i < self.nodes@.len() && #[trigger] self.paths@[i] == path {
            Some(choose|i: int| 0 <= i < self.nodes@.len() && #[trigger] self.paths@[i] == path)
        } else {
            None
        }
    }

    /// The QoS stored for client `c` under filter key `key`, if any.
    pub closed spec fn entry(&self, key: Seq<Level>, c: Seq<char>) -> Option<QoS> {
        if key.len() > 0 && key.last() is Hash {
            match self.node_at(key.drop_last()) {
                Some(i) => sub_lookup(self.nodes@[i].hash_subscribers@, c),
                None => None,
            }
        } else {
            match self.node_at(key) {
                Some(i) => sub_lookup(self.nodes@[i].subscribers@, c),
                None => None,
            }
        }
    }
}

impl View for TopicTrie {
    /// The subscriptions: (filter key, client) to QoS.
    type V = Map<(Seq<Level>, Seq<char>), QoS>;

    closed spec fn view(&self) -> Map<(Seq<Level>, Seq<char>), QoS> {
        Map::new(
            |kc: (Seq<Level>, Seq<char>)| self.entry(kc.0, kc.1) is Some,
            |kc: (Seq<Level>, Seq<char>)| self.entry(kc.0, kc.1)->0,
        )
    }
}

impl TopicTrie {
    /// An empty trie: just the root.
    pub fn new() -> (r: TopicTrie)
        ensures
            r.wf(),
            r@ == Map::<(Seq<Level>, Seq<char>), QoS>::empty(),
    {
        let mut nodes: Vec<TrieNode> = Vec::new();
        nodes.push(TrieNode::empty());
        let ghost paths = seq![Seq::<Level>::empty()];
        let ghost parents = seq![0int];
        let r = TopicTrie { nodes, paths: Ghost(paths), parents: Ghost(parents), slots: Ghost(parents) };
        assert(r.node_ok(0));
        assert forall|kc: (Seq<Level>, Seq<char>)| !(#[trigger] r@.contains_key(kc)) by {
            if kc.0.len() > 0 && kc.0.last() is Hash {
                if let Some(i) = r.node_at(kc.0.drop_last()) {
                    assert(sub_lookup(r.nodes@[i].hash_subscribers@, kc.1) is None);
                }
            } else {
                if let Some(i) = r.node_at(kc.0) {
                    assert(sub_lookup(r.nodes@[i].subscribers@, kc.1) is None);
                }
            }
        }
        assert(r@ =~= Map::<(Seq<Level>, Seq<char>), QoS>::empty());
        r
    }
}

impl Default for TopicTrie {
    /// An empty trie, as `new` gives.
    fn default() -> (r: TopicTrie)
        ensures
            r.wf(),
            r@ == Map::<(Seq<Level>, Seq<char>), QoS>::empty(),
    {
        TopicTrie::new()
    }
}

/// The QoS that a list without repeated clients gives the client at place `i`.
pub proof fn lemma_lookup_at(list: Seq<Subscription>, i: int)
    requires
        distinct_clients(list),
        0 <= i < list.len(),
    ensures
        sub_lookup(list, list[i].client_id@) == Some(list[i].qos),
{
    let c = list[i].client_id@;
    assert(list[i].client_id@ == c);
    let a = choose|a: int| 0 <= a < list.len() && #[trigger] list[a].client_id@ == c;
    assert(a == i);
}

/// Whether two bytes sequences are equal.
fn same_bytes(a: &[u8], b: &[u8]) -> (r: bool)
    ensures
        r == (a@ == b@),
{
    if a.len() != b.len() {
        return false;
    }
    let mut i: usize = 0;
    while i < a.len()
        invariant
            a@.len() == b@.len(),
            i <= a@.len(),
            forall|k: int| 0 <= k < i ==> a@[k] == b@[k],
        decreases a@.len() - i,
    {
        if a[i] != b[i] {
            return false;
        }
        i += 1;
    }
    assert(a@ =~= b@);
    true
}

/// Where client `c` stands in a list, if it is there.
fn position_of(list: &Vec<Subscription>, c: &String) -> (r: Option<usize>)
    ensures
        r matches Some(i) ==> i < list@.len() && list@[i as int].client_id@ == c@,
        r is None ==> forall|i: int| 0 <= i < list@.len() ==> #[trigger] list@[i].client_id@ != c@,
{
    let mut i: usize = 0;
    while i < list.len()
        invariant
            i <= list@.len(),
            forall|k: int| 0 <= k < i ==> #[trigger] list@[k].client_id@ != c@,
        decreases list@.len() - i,
    {
        if list[i].client_id == *c {
            return Some(i);
        }
        i += 1;
    }
    None
}

/// Gives client `client_id` the QoS `qos` in a list, adding it if absent.
fn upsert(list: &mut Vec<Subscription>, client_id: String, qos: QoS)
    requires
        distinct_clients(old(list)@),
    ensures
        distinct_clients(final(list)@),
        forall|c: Seq<char>|
            #![trigger sub_lookup(final(list)@, c)]
            sub_lookup(final(list)@, c) == if c == client_id@ {
                Some(qos)
            } else {
                sub_lookup(old(list)@, c)
            },
{
    let ghost old_list = list@;
    let ghost cid = client_id@;
    match position_of(list, &client_id) {
        Some(i) => {
            list.set(i, Subscription { client_id, qos });
            assert forall|c: Seq<char>| #[trigger]
                sub_lookup(list@, c) == if c == cid {
                    Some(qos)
                } else {
                    sub_lookup(old_list, c)
                } by {
                if c == cid {
                    lemma_lookup_at(list@, i as int);
                } else if exists|a: int| 0 <= a < old_list.len() && #[trigger] old_list[a].client_id@ == c {
                    let a = choose|a: int| 0 <= a < old_list.len() && #[trigger] old_list[a].client_id@ == c;
                    lemma_lookup_at(old_list, a);
                    lemma_lookup_at(list@, a);
                }
            }
        },
        None => {
            list.push(Subscription { client_id, qos });
            assert forall|c: Seq<char>| #[trigger]
                sub_lookup(list@, c) == if c == cid {
                    Some(qos)
                } else {
                    sub_lookup(old_list, c)
                } by {
                if c == cid {
                    lemma_lookup_at(list@, old_list.len() as int);
                } else if exists|a: int| 0 <= a < old_list.len() && #[trigger] old_list[a].client_id@ == c {
                    let a = choose|a: int| 0 <= a < old_list.len() && #[trigger] old_list[a].client_id@ == c;
                    lemma_lookup_at(old_list, a);
                    lemma_lookup_at(list@, a);
                } else {
                    assert forall|a: int| 0 <= a < list@.len() implies #[trigger] list@[a].client_id@ != c by {
                        if a < old_list.len() {
                            assert(list@[a] == old_list[a]);
                        }
                    }
                }
            }
        },
    }
}

/// Takes client `client_id` out of a list.
fn remove_client(list: &mut Vec<Subscription>, client_id: &str)
    requires
        distinct_clients(old(list)@),
    ensures
        distinct_clients(final(list)@),
        forall|c: Seq<char>|
            #![trigger sub_lookup(final(list)@, c)]
            sub_lookup(final(list)@, c) == if c == client_id@ {
                None
            } else {
                sub_lookup(old(list)@, c)
            },
{
    let ghost old_list = list@;
    let target = client_id.to_owned();
    match position_of(list, &target) {
        Some(i) => {
            list.remove(i);
            assert forall|a: int, b: int|
                0 <= a < list@.len() && 0 <= b < list@.len() && a != b implies #[trigger] list@[a].client_id@
                != #[trigger] list@[b].client_id@ by {
                let a2 = if a < i { a } else { a + 1 };
                let b2 = if b < i { b } else { b + 1 };
                assert(list@[a] == old_list[a2]);
                assert(list@[b] == old_list[b2]);
            }
            assert forall|c: Seq<char>| #[trigger]
                sub_lookup(list@, c) == if c == client_id@ {
                    None
                } else {
                    sub_lookup(old_list, c)
                } by {
                if exists|a: int| 0 <= a < list@.len() && #[trigger] list@[a].client_id@ == c {
                    let a = choose|a: int| 0 <= a < list@.len() && #[trigger] list@[a].client_id@ == c;
                    let a2 = if a < i { a } else { a + 1 };
                    assert(list@[a] == old_list[a2]);
                    assert(a2 != i);
                    lemma_lookup_at(old_list, a2);
                    lemma_lookup_at(list@, a);
                } else if c != client_id@ {
                    assert forall|a: int| 0 <= a < old_list.len() implies #[trigger] old_list[a].client_id@ != c by {
                        if a < i {
                            assert(list@[a] == old_list[a]);
                        } else if a > i {
                            assert(list@[a - 1] == old_list[a]);
                        }
                    }
                }
            }
        },
        None => {
            assert forall|c: Seq<char>| #[trigger]
                sub_lookup(list@, c) == if c == client_id@ {
                    None
                } else {
                    sub_lookup(old_list, c)
                } by {
                if c == client_id@ {
                    assert forall|a: int| 0 <= a < list@.len() implies #[trigger] list@[a].client_id@ != c by {
                    }
                }
            }
        },
    }
}

impl TopicTrie {
    /// Node `i` is the node at its own path.
    proof fn lemma_node_at(&self, i: int)
        requires
            self.wf(),
            0 <= i < self.nodes@.len(),
        ensures
            self.node_at(self.paths@[i]) == Some(i),
    {
        let path = self.paths@[i];
        assert(self.paths@[i] == path);
        let c = choose|c: int| 0 <= c < self.nodes@.len() && #[trigger] self.paths@[c] == path;
        assert(self.paths@[c] == self.paths@[i]);
    }

    /// Every prefix of a node's path is the path of some node.
    proof fn lemma_ancestor(&self, j: int, m: int) -> (i: int)
        requires
            self.wf(),
            0 <= j < self.nodes@.len(),
            0 <= m <= self.paths@[j].len(),
        ensures
            0 <= i < self.nodes@.len(),
            self.paths@[i] == self.paths@[j].take(m),
        decreases self.paths@[j].len() - m,
    {
        assert(self.node_ok(j));
        if m == self.paths@[j].len() {
            assert(self.paths@[j].take(m) =~= self.paths@[j]);
            j
        } else {
            if j == 0 {
                assert(false);
            }
            let p = self.parents@[j];
            let i = self.lemma_ancestor(p, m);
            assert(self.paths@[p].take(m) =~= self.paths@[j].take(m));
            i
        }
    }

    /// A node one literal token below node `i` is listed among `i`'s children.
    proof fn lemma_exact_child(&self, i: int, j: int, e: Seq<u8>)
        requires
            self.wf(),
            0 <= i < self.nodes@.len(),
            0 <= j < self.nodes@.len(),
            self.paths@[j] == self.paths@[i].push(Level::Exact(e)),
        ensures
            0 <= self.slots@[j] < self.nodes@[i].children@.len(),
            self.nodes@[i].children@[self.slots@[j]].0@ == e,
            self.nodes@[i].children@[self.slots@[j]].1 == j,
    {
        assert(self.node_ok(j));
        if j == 0 {
            assert(self.paths@[0].len() == 0);
        }
        let p = self.parents@[j];
        assert(self.paths@[j].drop_last() =~= self.paths@[i]);
        assert(self.paths@[p] == self.paths@[i]);
    }

    /// A node one `+` below node `i` is `i`'s `+` child.
    proof fn lemma_plus_child(&self, i: int, j: int)
        requires
            self.wf(),
            0 <= i < self.nodes@.len(),
            0 <= j < self.nodes@.len(),
            self.paths@[j] == self.paths@[i].push(Level::Plus),
        ensures
            self.nodes@[i].plus_child == Some(j as usize),
    {
        assert(self.node_ok(j));
        if j == 0 {
            assert(self.paths@[0].len() == 0);
        }
        let p = self.parents@[j];
        assert(self.paths@[j].drop_last() =~= self.paths@[i]);
        assert(self.paths@[p] == self.paths@[i]);
    }

    /// The child of `node` for the literal token `tok`, if it has one.
    fn find_child(&self, node: usize, tok: &[u8]) -> (r: Option<usize>)
        requires
            self.wf(),
            node < self.nodes@.len(),
        ensures
            r matches Some(j) ==> j < self.nodes@.len() && self.paths@[j as int] == self.paths@[node as int].push(
                Level::Exact(tok@),
            ),
            r is None ==> forall|j: int|
                0 <= j < self.nodes@.len() ==> #[trigger] self.paths@[j] != self.paths@[node as int].push(
                    Level::Exact(tok@),
                ),
    {
        let children = &self.nodes[node].children;
        assert(self.node_ok(node as int));
        let mut k: usize = 0;
        while k < children.len()
            invariant
                self.wf(),
                node < self.nodes@.len(),
                *children == self.nodes@[node as int].children,
                k <= children@.len(),
                forall|a: int| 0 <= a < k ==> #[trigger] children@[a].0@ != tok@,
            decreases children@.len() - k,
        {
            if same_bytes(children[k].0.as_slice(), tok) {
                assert(self.node_ok(node as int));
                return Some(children[k].1);
            }
            k += 1;
        }
        proof {
            assert forall|j: int|
                0 <= j < self.nodes@.len() implies #[trigger] self.paths@[j] != self.paths@[node as int].push(
                Level::Exact(tok@),
            ) by {
                if self.paths@[j] == self.paths@[node as int].push(Level::Exact(tok@)) {
                    self.lemma_exact_child(node as int, j, tok@);
                    let slot = self.slots@[j];
                    assert(children@[slot].0@ == tok@);
                }
            }
        }
        None
    }
}

/// Whether `new` extends `old` by nodes that hold no subscriptions, keeping the
/// paths and the subscriptions of the nodes `old` had.
pub closed spec fn grows_empty(old: &TopicTrie, new: &TopicTrie) -> bool {
    &&& new.nodes@.len() >= old.nodes@.len()
    &&& forall|i: int| 0 <= i < old.nodes@.len() ==> #[trigger] new.paths@[i] == old.paths@[i]
    &&& forall|i: int|
        0 <= i < old.nodes@.len() ==> (#[trigger] new.nodes@[i]).subscribers@
            == old.nodes@[i].subscribers@ && new.nodes@[i].hash_subscribers@
            == old.nodes@[i].hash_subscribers@
    &&& forall|i: int|
        old.nodes@.len() <= i < new.nodes@.len() ==> (#[trigger] new.nodes@[i]).subscribers@.len()
            == 0 && new.nodes@[i].hash_subscribers@.len() == 0
}

/// Nodes without subscriptions add no subscription.
proof fn lemma_grows_empty(old: &TopicTrie, new: &TopicTrie)
    requires
        old.wf(),
        new.wf(),
        grows_empty(old, new),
    ensures
        new@ == old@,
{
    assert forall|key: Seq<Level>, c: Seq<char>| #[trigger] new.entry(key, c) == old.entry(key, c) by {
        let path = if key.len() > 0 && key.last() is Hash { key.drop_last() } else { key };
        if exists|i: int| 0 <= i < old.nodes@.len() && #[trigger] old.paths@[i] == path {
            let i = choose|i: int| 0 <= i < old.nodes@.len() && #[trigger] old.paths@[i] == path;
            old.lemma_node_at(i);
            new.lemma_node_at(i);
        } else if exists|i: int| 0 <= i < new.nodes@.len() && #[trigger] new.paths@[i] == path {
            let i = choose|i: int| 0 <= i < new.nodes@.len() && #[trigger] new.paths@[i] == path;
            new.lemma_node_at(i);
            if i < old.nodes@.len() {
                assert(old.paths@[i] == path);
            }
            assert(new.nodes@[i].subscribers@.len() == 0);
            assert(new.nodes@[i].hash_subscribers@.len() == 0);
        }
    }
    assert(new@ =~= old@);
}

impl TopicTrie {
    /// Adds an empty child of `parent` for the literal token `tok`, which it must not have yet.
    fn add_child(&mut self, parent: usize, tok: Vec<u8>) -> (j: usize)
        requires
            old(self).wf(),
            parent < old(self).nodes@.len(),
            forall|i: int|
                0 <= i < old(self).nodes@.len() ==> #[trigger] old(self).paths@[i] != old(
                    self,
                ).paths@[parent as int].push(Level::Exact(tok@)),
        ensures
            final(self).wf(),
            grows_empty(old(self), final(self)),
            j == old(self).nodes@.len(),
            final(self).nodes@.len() == j + 1,
            final(self).paths@[j as int] == old(self).paths@[parent as int].push(Level::Exact(tok@)),
            final(self)@ == old(self)@,
    {
        let ghost t = tok@;
        let ghost new_path = self.paths@[parent as int].push(Level::Exact(t));
        let j = self.nodes.len();
        self.nodes.push(TrieNode::empty());
        let slot = self.nodes[parent].children.len();
        self.nodes[parent].children.push((tok, j));
        self.paths = Ghost(self.paths@.push(new_path));
        self.parents = Ghost(self.parents@.push(parent as int));
        self.slots = Ghost(self.slots@.push(slot as int));
        proof {
            let n = old(self).nodes@.len() as int;
            assert(old(self).node_ok(parent as int));
            assert forall|a: int, b: int|
                0 <= a < n + 1 && 0 <= b < n + 1 && #[trigger] self.paths@[a]
                    == #[trigger] self.paths@[b] implies a == b by {
                if a < n && b < n {
                    assert(old(self).paths@[a] == old(self).paths@[b]);
                }
            }
            assert forall|i: int| 0 <= i < n + 1 implies #[trigger] self.node_ok(i) by {
                if i < n {
                    assert(old(self).node_ok(i));
                    let node = self.nodes@[i];
                    if i != parent {
                        assert(node == old(self).nodes@[i]);
                    } else {
                        assert forall|k1: int, k2: int|
                            0 <= k1 < node.children@.len() && 0 <= k2 < node.children@.len() && k1
                                != k2 implies #[trigger] node.children@[k1].0@
                            != #[trigger] node.children@[k2].0@ by {
                            let m = node.children@.len() - 1;
                            if k1 == m {
                                let j2 = node.children@[k2].1 as int;
                                assert(old(self).nodes@[i].children@[k2] == node.children@[k2]);
                                assert(old(self).paths@[j2] == old(self).paths@[i].push(
                                    Level::Exact(node.children@[k2].0@),
                                ));
                            } else if k2 == m {
                                let j1 = node.children@[k1].1 as int;
                                assert(old(self).nodes@[i].children@[k1] == node.children@[k1]);
                                assert(old(self).paths@[j1] == old(self).paths@[i].push(
                                    Level::Exact(node.children@[k1].0@),
                                ));
                            } else {
                                assert(old(self).nodes@[i].children@[k1] == node.children@[k1]);
                                assert(old(self).nodes@[i].children@[k2] == node.children@[k2]);
                            }
                        }
                        assert forall|k: int| 0 <= k < node.children@.len() implies {
                            let (tok2, j2) = #[trigger] node.children@[k];
                            &&& j2 < n + 1
                            &&& self.paths@[j2 as int] == self.paths@[i].push(Level::Exact(tok2@))
                        } by {
                            if k < node.children@.len() - 1 {
                                assert(old(self).nodes@[i].children@[k] == node.children@[k]);
                            }
                        }
                    }
                    if i > 0 {
                        let p = self.parents@[i];
                        assert(p == old(self).parents@[i]);
                        if p == parent {
                            let slot2 = self.slots@[i];
                            if self.paths@[i].last() is Exact {
                                assert(self.nodes@[p].children@[slot2] == old(self).nodes@[p].children@[slot2]);
                            }
                        }
                    }
                } else {
                    assert(i == j);
                    assert(self.paths@[i].drop_last() =~= self.paths@[parent as int]);
                    assert(self.nodes@[parent as int].children@[slot as int] == (tok, j));
                }
            }
            assert(grows_empty(old(self), self));
            lemma_grows_empty(old(self), self);
        }
        j
    }

    /// Adds an empty `+` child of `parent`, which has none yet.
    fn add_plus_child(&mut self, parent: usize) -> (j: usize)
        requires
            old(self).wf(),
            parent < old(self).nodes@.len(),
            old(self).nodes@[parent as int].plus_child is None,
        ensures
            final(self).wf(),
            grows_empty(old(self), final(self)),
            j == old(self).nodes@.len(),
            final(self).nodes@.len() == j + 1,
            final(self).paths@[j as int] == old(self).paths@[parent as int].push(Level::Plus),
            final(self)@ == old(self)@,
    {
        let ghost new_path = self.paths@[parent as int].push(Level::Plus);
        let j = self.nodes.len();
        self.nodes.push(TrieNode::empty());
        self.nodes[parent].plus_child = Some(j);
        self.paths = Ghost(self.paths@.push(new_path));
        self.parents = Ghost(self.parents@.push(parent as int));
        self.slots = Ghost(self.slots@.push(0int));
        proof {
            let n = old(self).nodes@.len() as int;
            assert(old(self).node_ok(parent as int));
            assert forall|a: int| 0 <= a < n implies #[trigger] old(self).paths@[a] != new_path by {
                if old(self).paths@[a] == new_path {
                    old(self).lemma_plus_child(parent as int, a);
                }
            }
            assert forall|a: int, b: int|
                0 <= a < n + 1 && 0 <= b < n + 1 && #[trigger] self.paths@[a]
                    == #[trigger] self.paths@[b] implies a == b by {
                if a < n && b < n {
                    assert(old(self).paths@[a] == old(self).paths@[b]);
                }
            }
            assert forall|i: int| 0 <= i < n + 1 implies #[trigger] self.node_ok(i) by {
                if i < n {
                    assert(old(self).node_ok(i));
                    if i != parent {
                        assert(self.nodes@[i] == old(self).nodes@[i]);
                    }
                    if i > 0 {
                        let p = self.parents@[i];
                        if p == parent && self.paths@[i].last() is Plus {
                            assert(old(self).nodes@[p].plus_child == Some(i as usize));
                        }
                    }
                } else {
                    assert(self.paths@[i].drop_last() =~= self.paths@[parent as int]);
                }
            }
            assert(grows_empty(old(self), self));
            lemma_grows_empty(old(self), self);
        }
        j
    }
}

/// The key of the subscriptions a node holds: its path, followed by `#` for
/// those registered with a trailing `#`.
pub open spec fn key_at(path: Seq<Level>, hash: bool) -> Seq<Level> {
    if hash {
        path.push(Level::Hash)
    } else {
        path
    }
}

/// Whether `new` has the nodes, paths and links of `old`.
pub closed spec fn same_shape(old: &TopicTrie, new: &TopicTrie) -> bool {
    &&& new.nodes@.len() == old.nodes@.len()
    &&& new.paths@ == old.paths@
    &&& new.parents@ == old.parents@
    &&& new.slots@ == old.slots@
    &&& forall|i: int|
        0 <= i < old.nodes@.len() ==> (#[trigger] new.nodes@[i]).children@ == old.nodes@[i].children@
            && new.nodes@[i].plus_child == old.nodes@[i].plus_child
}

impl TopicTrie {
    /// The entry of a key is read in the list of the node at its path.
    proof fn lemma_entry_at(&self, key: Seq<Level>, c: Seq<char>, i: int, hash: bool)
        requires
            self.wf(),
            0 <= i < self.nodes@.len(),
            key == key_at(self.paths@[i], hash),
        ensures
            self.entry(key, c) == if hash {
                sub_lookup(self.nodes@[i].hash_subscribers@, c)
            } else {
                sub_lookup(self.nodes@[i].subscribers@, c)
            },
    {
        self.lemma_node_at(i);
        assert(self.node_ok(i));
        if hash {
            assert(key.drop_last() =~= self.paths@[i]);
        } else if key.len() > 0 {
            assert(!(key[key.len() - 1] is Hash));
        }
    }

    /// The node and list that an entry is read from, if any.
    proof fn lemma_entry_cases(&self, key: Seq<Level>, c: Seq<char>)
        requires
            self.wf(),
        ensures
            self.entry(key, c) is Some ==> exists|i: int, hash: bool|
                0 <= i < self.nodes@.len() && key == #[trigger] key_at(self.paths@[i], hash),
    {
        if key.len() > 0 && key.last() is Hash {
            if let Some(i) = self.node_at(key.drop_last()) {
                assert(key == key_at(self.paths@[i], true));
            }
        } else {
            if let Some(i) = self.node_at(key) {
                assert(key == key_at(self.paths@[i], false));
            }
        }
    }

    /// Where one subscription list of one node changed, the entries change for
    /// that node's key alone, as that list's lookups do.
    proof fn lemma_list_changed(old: &TopicTrie, new: &TopicTrie, node: int, hash: bool)
        requires
            old.wf(),
            new.wf(),
            same_shape(old, new),
            0 <= node < old.nodes@.len(),
            forall|i: int|
                0 <= i < old.nodes@.len() && i != node ==> (#[trigger] new.nodes@[i]).subscribers@
                    == old.nodes@[i].subscribers@ && new.nodes@[i].hash_subscribers@
                    == old.nodes@[i].hash_subscribers@,
            hash ==> new.nodes@[node].subscribers@ == old.nodes@[node].subscribers@,
            !hash ==> new.nodes@[node].hash_subscribers@ == old.nodes@[node].hash_subscribers@,
        ensures
            forall|key: Seq<Level>, c: Seq<char>|
                key != key_at(old.paths@[node], hash) ==> #[trigger] new.entry(key, c) == old.entry(
                    key,
                    c,
                ),
    {
        assert forall|key: Seq<Level>, c: Seq<char>|
            key != key_at(old.paths@[node], hash) implies #[trigger] new.entry(key, c) == old.entry(
            key,
            c,
        ) by {
            old.lemma_entry_cases(key, c);
            new.lemma_entry_cases(key, c);
            if exists|i: int, h: bool| 0 <= i < old.nodes@.len() && key == #[trigger] key_at(old.paths@[i], h) {
                let (i, h) = choose|i: int, h: bool|
                    0 <= i < old.nodes@.len() && key == #[trigger] key_at(old.paths@[i], h);
                old.lemma_entry_at(key, c, i, h);
                new.lemma_entry_at(key, c, i, h);
            }
        }
    }

    /// Gives client `client_id` the QoS `qos` in the exact (or, when `hash`, the `#`) list of `node`.
    fn set_qos(&mut self, node: usize, hash: bool, client_id: String, qos: QoS)
        requires
            old(self).wf(),
            node < old(self).nodes@.len(),
        ensures
            final(self).wf(),
            same_shape(old(self), final(self)),
            final(self)@ == old(self)@.insert(
                (key_at(old(self).paths@[node as int], hash), client_id@),
                qos,
            ),
    {
        let ghost cid = client_id@;
        assert(self.node_ok(node as int));
        if hash {
            upsert(&mut self.nodes[node].hash_subscribers, client_id, qos);
        } else {
            upsert(&mut self.nodes[node].subscribers, client_id, qos);
        }
        proof {
            let key = key_at(self.paths@[node as int], hash);
            assert forall|i: int| 0 <= i < self.nodes@.len() implies #[trigger] self.node_ok(i) by {
                assert(old(self).node_ok(i));
                if i != node {
                    assert(self.nodes@[i] == old(self).nodes@[i]);
                }
            }
            assert(same_shape(old(self), self));
            TopicTrie::lemma_list_changed(old(self), self, node as int, hash);
            assert forall|c: Seq<char>| #[trigger] self.entry(key, c) == if c == cid {
                Some(qos)
            } else {
                old(self).entry(key, c)
            } by {
                old(self).lemma_entry_at(key, c, node as int, hash);
                self.lemma_entry_at(key, c, node as int, hash);
            }
            assert(self@ =~= old(self)@.insert((key, cid), qos));
        }
    }

    /// Takes client `client_id` out of the exact (or, when `hash`, the `#`) list of `node`.
    fn clear_qos(&mut self, node: usize, hash: bool, client_id: &str)
        requires
            old(self).wf(),
            node < old(self).nodes@.len(),
        ensures
            final(self).wf(),
            same_shape(old(self), final(self)),
            final(self)@ == old(self)@.remove((key_at(old(self).paths@[node as int], hash), client_id@)),
    {
        assert(self.node_ok(node as int));
        if hash {
            remove_client(&mut self.nodes[node].hash_subscribers, client_id);
        } else {
            remove_client(&mut self.nodes[node].subscribers, client_id);
        }
        proof {
            let key = key_at(self.paths@[node as int], hash);
            assert forall|i: int| 0 <= i < self.nodes@.len() implies #[trigger] self.node_ok(i) by {
                assert(old(self).node_ok(i));
                if i != node {
                    assert(self.nodes@[i] == old(self).nodes@[i]);
                }
            }
            assert(same_shape(old(self), self));
            TopicTrie::lemma_list_changed(old(self), self, node as int, hash);
            assert forall|c: Seq<char>| #[trigger] self.entry(key, c) == if c == client_id@ {
                None
            } else {
                old(self).entry(key, c)
            } by {
                old(self).lemma_entry_at(key, c, node as int, hash);
                self.lemma_entry_at(key, c, node as int, hash);
            }
            assert(self@ =~= old(self)@.remove((key, client_id@)));
        }
    }
}

/// Splitting always gives at least one piece.
proof fn lemma_split_nonempty(s: Seq<u8>)
    ensures
        split_levels(s).len() >= 1,
    decreases s.len(),
{
    if s.len() > 0 {
        lemma_split_nonempty(s.drop_last());
    }
}

/// The key of a filter whose first `idx` tokens hold no `#` begins with the levels of those tokens.
proof fn lemma_filter_key_prefix(toks: Seq<Seq<u8>>, idx: int)
    requires
        0 <= idx <= toks.len(),
        forall|m: int| 0 <= m < idx ==> !(level_of(#[trigger] toks[m]) is Hash),
    ensures
        filter_key(toks) == levels_of(toks.take(idx)) + filter_key(toks.skip(idx)),
    decreases idx,
{
    if idx == 0 {
        assert(toks.skip(0) =~= toks);
        assert(levels_of(toks.take(0)) =~= seq![]);
        assert(levels_of(toks.take(0)) + filter_key(toks.skip(0)) =~= filter_key(toks));
    } else {
        lemma_filter_key_prefix(toks, idx - 1);
        let rest = toks.skip(idx - 1);
        assert(rest[0] == toks[idx - 1]);
        assert(rest.drop_first() =~= toks.skip(idx));
        assert(levels_of(toks.take(idx)) =~= levels_of(toks.take(idx - 1)).push(level_of(toks[idx - 1])));
        assert(levels_of(toks.take(idx - 1)) + filter_key(rest) =~= levels_of(toks.take(idx))
            + filter_key(toks.skip(idx)));
    }
}

/// Whether a token is `#`.
fn is_hash_token(tok: &Vec<u8>) -> (r: bool)
    ensures
        r == (tok@ == seq![0x23u8]),
{
    let r = tok.len() == 1 && tok[0] == 0x23;
    assert(r ==> tok@ =~= seq![0x23u8]);
    r
}

/// Whether a token is `+`.
fn is_plus_token(tok: &Vec<u8>) -> (r: bool)
    ensures
        r == (tok@ == seq![0x2Bu8]),
{
    let r = tok.len() == 1 && tok[0] == 0x2B;
    assert(r ==> tok@ =~= seq![0x2Bu8]);
    r
}

impl TopicTrie {
    /// Subscribes `client_id` with `qos` to a topic filter such as
    /// `sensors/+/temperature`. A `#` level ends the filter; anything after it
    /// is ignored. A second subscription of the same client to the same filter
    /// replaces the first.
    pub fn subscribe(&mut self, topic_filter: &str, client_id: String, qos: QoS)
        requires
            old(self).wf(),
        ensures
            final(self).wf(),
            final(self)@ == old(self)@.insert(
                (key_of_filter(topic_filter.spec_bytes()), client_id@),
                qos,
            ),
    {
        let tokens = split_levels_exec(topic_filter.as_bytes());
        let ghost toks = token_views(tokens@);
        proof {
            lemma_split_nonempty(topic_filter.spec_bytes());
        }
        let mut current: usize = 0;
        let mut idx: usize = 0;
        assert(levels_of(toks.take(0)) =~= seq![]);
        while idx < tokens.len()
            invariant
                self.wf(),
                self@ == old(self)@,
                toks == token_views(tokens@),
                toks == split_levels(topic_filter.spec_bytes()),
                tokens@.len() >= 1,
                idx <= tokens@.len() - 1,
                current < self.nodes@.len(),
                self.paths@[current as int] == levels_of(toks.take(idx as int)),
                forall|m: int| 0 <= m < idx ==> !(level_of(#[trigger] toks[m]) is Hash),
            decreases tokens@.len() - idx,
        {
            let token = &tokens[idx];
            assert(toks[idx as int] == token@);
            proof {
                lemma_filter_key_prefix(toks, idx as int);
            }
            if is_hash_token(token) {
                assert(toks.skip(idx as int)[0] == toks[idx as int]);
                assert(filter_key(toks.skip(idx as int)) =~= seq![Level::Hash]);
                assert(key_of_filter(topic_filter.spec_bytes()) =~= key_at(self.paths@[current as int], true));
                self.set_qos(current, true, client_id, qos);
                return;
            }
            let ghost before = self.paths@[current as int];
            if is_plus_token(token) {
                assert(self.node_ok(current as int));
                current = match self.nodes[current].plus_child {
                    Some(j) => j,
                    None => self.add_plus_child(current),
                };
            } else {
                current = match self.find_child(current, token.as_slice()) {
                    Some(j) => j,
                    None => self.add_child(current, slice_to_vec(token.as_slice())),
                };
            }
            assert(self.paths@[current as int] == before.push(level_of(toks[idx as int])));
            assert(levels_of(toks.take(idx + 1)) =~= levels_of(toks.take(idx as int)).push(
                level_of(toks[idx as int]),
            ));
            if idx == tokens.len() - 1 {
                proof {
                    lemma_filter_key_prefix(toks, idx + 1);
                    assert(toks.take(idx + 1) =~= toks);
                    assert(toks.skip(idx + 1) =~= seq![]);
                    assert(key_of_filter(topic_filter.spec_bytes()) =~= key_at(self.paths@[current as int], false));
                }
                self.set_qos(current, false, client_id, qos);
                return;
            }
            idx += 1;
        }
    }
}

impl TopicTrie {
    /// Whether node `i` holds no subscription and has no child.
    pub closed spec fn node_is_empty(&self, i: int) -> bool {
        &&& self.nodes@[i].subscribers@.len() == 0
        &&& self.nodes@[i].children@.len() == 0
        &&& self.nodes@[i].plus_child is None
        &&& self.nodes@[i].hash_subscribers@.len() == 0
    }

    /// No entry lies under a level that `node` has no child for.
    proof fn lemma_no_entry_below(&self, node: int, l: Level, key: Seq<Level>, c: Seq<char>)
        requires
            self.wf(),
            0 <= node < self.nodes@.len(),
            !(l is Hash),
            forall|j: int|
                0 <= j < self.nodes@.len() ==> #[trigger] self.paths@[j] != self.paths@[node].push(l),
            key.len() > self.paths@[node].len(),
            key.take(self.paths@[node].len() as int + 1) == self.paths@[node].push(l),
        ensures
            self.entry(key, c) is None,
    {
        let d = self.paths@[node].len() as int;
        self.lemma_entry_cases(key, c);
        if self.entry(key, c) is Some {
            let (i, h) = choose|i: int, h: bool|
                0 <= i < self.nodes@.len() && key == #[trigger] key_at(self.paths@[i], h);
            assert(self.node_ok(i));
            if self.paths@[i].len() <= d {
                assert(h);
                assert(key.take(d + 1)[d] == key[d]);
                assert(key[d] == l);
                assert(key[d] == Level::Hash);
            }
            let a = self.lemma_ancestor(i, d + 1);
            assert(self.paths@[i].take(d + 1) =~= key.take(d + 1));
        }
    }

    /// Takes `client_id` out of the subscriptions to the filter made of
    /// `tokens[idx..]` below `node`; tells whether `node` is left empty.
    fn remove_recursive(&mut self, node: usize, tokens: &Vec<Vec<u8>>, idx: usize, client_id: &str) -> (empty: bool)
        requires
            old(self).wf(),
            node < old(self).nodes@.len(),
            idx <= tokens@.len(),
            old(self).paths@[node as int] == levels_of(
                token_views(tokens@).take(idx as int),
            ),
            forall|m: int|
                0 <= m < idx ==> !(level_of(#[trigger] token_views(tokens@)[m]) is Hash),
        ensures
            final(self).wf(),
            same_shape(old(self), final(self)),
            final(self)@ == old(self)@.remove(
                (
                    old(self).paths@[node as int] + filter_key(
                        token_views(tokens@).skip(idx as int),
                    ),
                    client_id@,
                ),
            ),
            empty == final(self).node_is_empty(node as int),
        decreases tokens@.len() - idx,
    {
        let ghost toks = token_views(tokens@);
        let ghost path = self.paths@[node as int];
        let ghost key = path + filter_key(toks.skip(idx as int));
        if idx < tokens.len() {
            let token = &tokens[idx];
            assert(toks[idx as int] == token@);
            assert(toks.skip(idx as int)[0] == toks[idx as int]);
            assert(toks.skip(idx as int).drop_first() =~= toks.skip(idx + 1));
            if is_hash_token(token) {
                assert(key =~= key_at(path, true));
                self.clear_qos(node, true, client_id);
            } else {
                let ghost level = level_of(token@);
                assert(key =~= path.push(level) + filter_key(toks.skip(idx + 1)));
                assert(levels_of(toks.take(idx + 1)) =~= path.push(level));
                let next = if is_plus_token(token) {
                    assert(self.node_ok(node as int));
                    let next = self.nodes[node].plus_child;
                    if next.is_none() {
                        assert forall|j: int|
                            0 <= j < self.nodes@.len() implies #[trigger] self.paths@[j] != path.push(level) by {
                            if self.paths@[j] == path.push(level) {
                                self.lemma_plus_child(node as int, j);
                            }
                        }
                    }
                    next
                } else {
                    self.find_child(node, token.as_slice())
                };
                match next {
                    Some(child) => {
                        assert forall|m: int| 0 <= m < idx + 1 implies !(level_of(#[trigger] toks[m]) is Hash) by {
                        }
                        self.remove_recursive(child, tokens, idx + 1, client_id);
                    },
                    None => {
                        proof {
                            assert(key.take(path.len() as int + 1) =~= path.push(level));
                            assert forall|c: Seq<char>| #[trigger] self.entry(key, c) is None by {
                                self.lemma_no_entry_below(node as int, level, key, c);
                            }
                            assert(self@ =~= self@.remove((key, client_id@)));
                        }
                    },
                }
            }
        } else {
            assert(toks.skip(idx as int) =~= seq![]);
            assert(key =~= key_at(path, false));
            self.clear_qos(node, false, client_id);
        }
        let n = &self.nodes[node];
        n.subscribers.len() == 0 && n.children.len() == 0 && n.plus_child.is_none()
            && n.hash_subscribers.len() == 0
    }

    /// Takes the subscription of `client_id` to `topic_filter` away, if there is one.
    pub fn unsubscribe(&mut self, topic_filter: &str, client_id: &str)
        requires
            old(self).wf(),
        ensures
            final(self).wf(),
            final(self)@ == old(self)@.remove((key_of_filter(topic_filter.spec_bytes()), client_id@)),
    {
        let tokens = split_levels_exec(topic_filter.as_bytes());
        let ghost toks = token_views(tokens@);
        assert(levels_of(toks.take(0)) =~= seq![]);
        assert(toks.skip(0) =~= toks);
        assert(Seq::<Level>::empty() + filter_key(toks) =~= filter_key(toks));
        self.remove_recursive(0, &tokens, 0, client_id);
    }
}

/// `q` extends `p`.
pub open spec fn extends(p: Seq<Level>, q: Seq<Level>) -> bool {
    q.len() >= p.len() && q.take(p.len() as int) == p
}

/// The best QoS of a disjunction is the higher of the best QoS of each part.
proof fn lemma_best_or(p: spec_fn(QoS) -> bool, q: spec_fn(QoS) -> bool, r: spec_fn(QoS) -> bool)
    requires
        forall|x: QoS| #[trigger] r(x) == (p(x) || q(x)),
    ensures
        best_qos(r) == max_qos(best_qos(p), best_qos(q)),
{
    assert(r(QoS::ExactlyOnce) == (p(QoS::ExactlyOnce) || q(QoS::ExactlyOnce)));
    assert(r(QoS::AtLeastOnce) == (p(QoS::AtLeastOnce) || q(QoS::AtLeastOnce)));
    assert(r(QoS::AtMostOnce) == (p(QoS::AtMostOnce) || q(QoS::AtMostOnce)));
}

/// The best QoS of "the list gives `c` this QoS" is what the list gives `c`.
proof fn lemma_best_lookup(list: Seq<Subscription>, c: Seq<char>, r: spec_fn(QoS) -> bool)
    requires
        forall|x: QoS| #[trigger] r(x) == (sub_lookup(list, c) == Some(x)),
    ensures
        best_qos(r) == sub_lookup(list, c),
{
    assert(r(QoS::ExactlyOnce) == (sub_lookup(list, c) == Some(QoS::ExactlyOnce)));
    assert(r(QoS::AtLeastOnce) == (sub_lookup(list, c) == Some(QoS::AtLeastOnce)));
    assert(r(QoS::AtMostOnce) == (sub_lookup(list, c) == Some(QoS::AtMostOnce)));
}

/// A list's lookups after one more of its entries is taken into account.
proof fn lemma_lookup_take(list: Seq<Subscription>, i: int, c: Seq<char>)
    requires
        distinct_clients(list),
        0 <= i < list.len(),
    ensures
        sub_lookup(list.take(i + 1), c) == if c == list[i].client_id@ {
            Some(list[i].qos)
        } else {
            sub_lookup(list.take(i), c)
        },
{
    let t1 = list.take(i + 1);
    let t0 = list.take(i);
    assert(distinct_clients(t1));
    assert(distinct_clients(t0));
    if c == list[i].client_id@ {
        assert(t1[i] == list[i]);
        lemma_lookup_at(t1, i);
    } else if exists|a: int| 0 <= a < t0.len() && #[trigger] t0[a].client_id@ == c {
        let a = choose|a: int| 0 <= a < t0.len() && #[trigger] t0[a].client_id@ == c;
        lemma_lookup_at(t0, a);
        assert(t1[a] == t0[a]);
        lemma_lookup_at(t1, a);
    } else {
        assert forall|a: int| 0 <= a < t1.len() implies #[trigger] t1[a].client_id@ != c by {
            if a < i {
                assert(t1[a] == t0[a]);
            }
        }
    }
}

/// Raises client `client_id` to `qos` in `results`, adding it if absent.
fn merge_one(results: &mut Vec<Subscription>, client_id: &String, qos: QoS)
    requires
        distinct_clients(old(results)@),
    ensures
        distinct_clients(final(results)@),
        forall|c: Seq<char>|
            #![trigger sub_lookup(final(results)@, c)]
            sub_lookup(final(results)@, c) == if c == client_id@ {
                max_qos(sub_lookup(old(results)@, c), Some(qos))
            } else {
                sub_lookup(old(results)@, c)
            },
{
    match position_of(results, client_id) {
        Some(i) => {
            proof {
                lemma_lookup_at(results@, i as int);
            }
            if qos.level() > results[i].qos.level() {
                upsert(results, client_id.clone(), qos);
            }
        },
        None => {
            upsert(results, client_id.clone(), qos);
        },
    }
}

/// Merges `list` into `results`, each client keeping the higher QoS.
fn merge_into(results: &mut Vec<Subscription>, list: &Vec<Subscription>)
    requires
        distinct_clients(old(results)@),
        distinct_clients(list@),
    ensures
        distinct_clients(final(results)@),
        forall|c: Seq<char>|
            #![trigger sub_lookup(final(results)@, c)]
            sub_lookup(final(results)@, c) == max_qos(
                sub_lookup(old(results)@, c),
                sub_lookup(list@, c),
            ),
{
    let ghost start = results@;
    let mut i: usize = 0;
    assert forall|c: Seq<char>| #[trigger] sub_lookup(list@.take(0), c) == None::<QoS> by {
    }
    while i < list.len()
        invariant
            i <= list@.len(),
            distinct_clients(list@),
            distinct_clients(results@),
            forall|c: Seq<char>|
                #![trigger sub_lookup(results@, c)]
                sub_lookup(results@, c) == max_qos(sub_lookup(start, c), sub_lookup(list@.take(i as int), c)),
        decreases list@.len() - i,
    {
        let ghost before = results@;
        merge_one(results, &list[i].client_id, list[i].qos);
        proof {
            assert forall|c: Seq<char>| #[trigger]
                sub_lookup(results@, c) == max_qos(sub_lookup(start, c), sub_lookup(list@.take(i + 1), c)) by {
                lemma_lookup_take(list@, i as int, c);
                if c == list@[i as int].client_id@ {
                    assert(list@.take(i as int).len() == i);
                    assert forall|a: int| 0 <= a < i implies #[trigger] list@.take(i as int)[a].client_id@ != c by {
                        assert(list@.take(i as int)[a] == list@[a]);
                    }
                    assert(sub_lookup(before, c) == max_qos(sub_lookup(start, c), None));
                }
            }
        }
        i += 1;
    }
    assert(list@.take(i as int) =~= list@);
}

impl TopicTrie {
    /// Whether node `j` holds client `c` with QoS `q` in a subscription that matches `topic`.
    pub closed spec fn node_hit(&self, j: int, topic: Seq<Seq<u8>>, c: Seq<char>, q: QoS) -> bool {
        let path = self.paths@[j];
        &&& prefix_match(path, topic)
        &&& (sub_lookup(self.nodes@[j].hash_subscribers@, c) == Some(q) || (path.len() == topic.len()
            && sub_lookup(self.nodes@[j].subscribers@, c) == Some(q)))
    }

    /// Whether some node at or below `node` holds client `c` with QoS `q` in
    /// a subscription that matches `topic`.
    pub closed spec fn sub_hit(&self, node: int, topic: Seq<Seq<u8>>, c: Seq<char>, q: QoS) -> bool {
        exists|j: int|
            0 <= j < self.nodes@.len() && extends(self.paths@[node], self.paths@[j]) && #[trigger] self.node_hit(
                j,
                topic,
                c,
                q,
            )
    }

    /// Subscriptions at or below `node` that match `topic` are those at
    /// `node` and those at or below its children whose level matches the next token.
    proof fn lemma_sub_hit_split(&self, node: int, topic: Seq<Seq<u8>>, c: Seq<char>, q: QoS)
        requires
            self.wf(),
            0 <= node < self.nodes@.len(),
            self.paths@[node].len() <= topic.len(),
            prefix_match(self.paths@[node], topic),
        ensures
            self.sub_hit(node, topic, c, q) == (self.node_hit(node, topic, c, q) || (
            self.paths@[node].len() < topic.len() && exists|ch: int|
                0 <= ch < self.nodes@.len() && (#[trigger] self.paths@[ch] == self.paths@[node].push(
                    Level::Exact(topic[self.paths@[node].len() as int]),
                ) || self.paths@[ch] == self.paths@[node].push(Level::Plus)) && self.sub_hit(
                    ch,
                    topic,
                    c,
                    q,
                ))),
    {
        let p = self.paths@[node];
        let d = p.len() as int;
        assert(p.take(d) =~= p);
        if self.sub_hit(node, topic, c, q) {
            let j = choose|j: int|
                0 <= j < self.nodes@.len() && extends(p, self.paths@[j]) && #[trigger] self.node_hit(
                    j,
                    topic,
                    c,
                    q,
                );
            if self.paths@[j].len() == d {
                assert(self.paths@[j] =~= p);
                assert(j == node);
            } else {
                let pj = self.paths@[j];
                assert(level_matches(pj[d], topic[d]));
                let ch = self.lemma_ancestor(j, d + 1);
                assert(pj.take(d + 1) =~= p.push(pj[d]));
                assert(pj.take(d + 1).take(d + 1) =~= pj.take(d + 1));
                assert(extends(self.paths@[ch], pj));
                assert(self.sub_hit(ch, topic, c, q));
            }
        }
        if self.node_hit(node, topic, c, q) {
            assert(extends(p, p));
        }
        if d < topic.len() && exists|ch: int|
            0 <= ch < self.nodes@.len() && (#[trigger] self.paths@[ch] == p.push(
                Level::Exact(topic[d]),
            ) || self.paths@[ch] == p.push(Level::Plus)) && self.sub_hit(ch, topic, c, q) {
            let ch = choose|ch: int|
                0 <= ch < self.nodes@.len() && (#[trigger] self.paths@[ch] == p.push(
                    Level::Exact(topic[d]),
                ) || self.paths@[ch] == p.push(Level::Plus)) && self.sub_hit(ch, topic, c, q);
            let j = choose|j: int|
                0 <= j < self.nodes@.len() && extends(self.paths@[ch], self.paths@[j])
                    && #[trigger] self.node_hit(j, topic, c, q);
            assert(self.paths@[j].take(d) =~= self.paths@[j].take(d + 1).take(d));
            assert(self.paths@[ch].take(d) =~= p);
            assert(extends(p, self.paths@[j]));
        }
    }
}

impl TopicTrie {
    /// The highest QoS that client `c` holds at or below `node` for subscriptions matching `topic`.
    pub closed spec fn sub_best(&self, node: int, topic: Seq<Seq<u8>>, c: Seq<char>) -> Option<QoS> {
        best_qos(|q: QoS| self.sub_hit(node, topic, c, q))
    }

    /// At the last level of the topic, only the subscriptions of the node itself match.
    proof fn lemma_best_at_end(&self, node: int, topic: Seq<Seq<u8>>, c: Seq<char>)
        requires
            self.wf(),
            0 <= node < self.nodes@.len(),
            self.paths@[node].len() == topic.len(),
            prefix_match(self.paths@[node], topic),
        ensures
            self.sub_best(node, topic, c) == max_qos(
                sub_lookup(self.nodes@[node].hash_subscribers@, c),
                sub_lookup(self.nodes@[node].subscribers@, c),
            ),
    {
        let hl = self.nodes@[node].hash_subscribers@;
        let el = self.nodes@[node].subscribers@;
        let fh = |q: QoS| sub_lookup(hl, c) == Some(q);
        let fe = |q: QoS| sub_lookup(el, c) == Some(q);
        let fs = |q: QoS| self.sub_hit(node, topic, c, q);
        assert forall|q: QoS| #[trigger] fs(q) == (fh(q) || fe(q)) by {
            self.lemma_sub_hit_split(node, topic, c, q);
        }
        lemma_best_or(fh, fe, fs);
        lemma_best_lookup(hl, c, fh);
        lemma_best_lookup(el, c, fe);
    }

    /// Before the last level of the topic, the subscriptions that match are
    /// those with `#` at the node and those below its matching children.
    proof fn lemma_best_inner(
        &self,
        node: int,
        topic: Seq<Seq<u8>>,
        c: Seq<char>,
        exact: Option<usize>,
        plus: Option<usize>,
    )
        requires
            self.wf(),
            0 <= node < self.nodes@.len(),
            self.paths@[node].len() < topic.len(),
            prefix_match(self.paths@[node], topic),
            exact matches Some(x) ==> x < self.nodes@.len() && self.paths@[x as int] == self.paths@[node].push(
                Level::Exact(topic[self.paths@[node].len() as int]),
            ),
            exact is None ==> forall|j: int|
                0 <= j < self.nodes@.len() ==> #[trigger] self.paths@[j] != self.paths@[node].push(
                    Level::Exact(topic[self.paths@[node].len() as int]),
                ),
            plus == self.nodes@[node].plus_child,
        ensures
            self.sub_best(node, topic, c) == max_qos(
                max_qos(
                    sub_lookup(self.nodes@[node].hash_subscribers@, c),
                    match exact {
                        Some(x) => self.sub_best(x as int, topic, c),
                        None => None,
                    },
                ),
                match plus {
                    Some(x) => self.sub_best(x as int, topic, c),
                    None => None,
                },
            ),
    {
        let p = self.paths@[node];
        let d = p.len() as int;
        assert(self.node_ok(node));
        let hl = self.nodes@[node].hash_subscribers@;
        let fh = |q: QoS| sub_lookup(hl, c) == Some(q);
        let fx = |q: QoS|
            match exact {
                Some(x) => self.sub_hit(x as int, topic, c, q),
                None => false,
            };
        let fp = |q: QoS|
            match plus {
                Some(x) => self.sub_hit(x as int, topic, c, q),
                None => false,
            };
        let fhx = |q: QoS| fh(q) || fx(q);
        let fs = |q: QoS| self.sub_hit(node, topic, c, q);
        assert forall|q: QoS| #[trigger] fs(q) == (fhx(q) || fp(q)) by {
            self.lemma_sub_hit_split(node, topic, c, q);
            if exists|ch: int|
                0 <= ch < self.nodes@.len() && (#[trigger] self.paths@[ch] == p.push(
                    Level::Exact(topic[d]),
                ) || self.paths@[ch] == p.push(Level::Plus)) && self.sub_hit(ch, topic, c, q) {
                let ch = choose|ch: int|
                    0 <= ch < self.nodes@.len() && (#[trigger] self.paths@[ch] == p.push(
                        Level::Exact(topic[d]),
                    ) || self.paths@[ch] == p.push(Level::Plus)) && self.sub_hit(ch, topic, c, q);
                if self.paths@[ch] == p.push(Level::Plus) {
                    self.lemma_plus_child(node, ch);
                } else if let Some(x) = exact {
                    assert(self.paths@[x as int] == self.paths@[ch]);
                }
            }
            if fx(q) {
                let x = exact->0;
                assert(self.paths@[x as int] == p.push(Level::Exact(topic[d])));
            }
            if fp(q) {
                let x = plus->0;
                assert(self.paths@[x as int] == p.push(Level::Plus));
            }
        }
        lemma_best_or(fhx, fp, fs);
        assert forall|q: QoS| #[trigger] fhx(q) == (fh(q) || fx(q)) by {
        }
        lemma_best_or(fh, fx, fhx);
        lemma_best_lookup(hl, c, fh);
        if let Some(x) = exact {
            assert(best_qos(fx) == self.sub_best(x as int, topic, c)) by {
                assert(fx =~= |q: QoS| self.sub_hit(x as int, topic, c, q));
            }
        }
        if let Some(x) = plus {
            assert(best_qos(fp) == self.sub_best(x as int, topic, c)) by {
                assert(fp =~= |q: QoS| self.sub_hit(x as int, topic, c, q));
            }
        }
    }

    /// Merges into `results` the subscriptions at or below `node` (at depth
    /// `idx` of the topic) that match the topic.
    fn match_recursive(&self, node: usize, topic: &Vec<Vec<u8>>, idx: usize, results: &mut Vec<Subscription>)
        requires
            self.wf(),
            node < self.nodes@.len(),
            self.paths@[node as int].len() == idx,
            idx <= topic@.len(),
            prefix_match(self.paths@[node as int], token_views(topic@)),
            distinct_clients(old(results)@),
        ensures
            distinct_clients(final(results)@),
            forall|c: Seq<char>|
                #![trigger sub_lookup(final(results)@, c)]
                sub_lookup(final(results)@, c) == max_qos(
                    sub_lookup(old(results)@, c),
                    self.sub_best(node as int, token_views(topic@), c),
                ),
        decreases topic@.len() - idx,
    {
        let ghost t = token_views(topic@);
        let ghost r0 = results@;
        assert(self.node_ok(node as int));
        merge_into(results, &self.nodes[node].hash_subscribers);
        if idx == topic.len() {
            merge_into(results, &self.nodes[node].subscribers);
            proof {
                assert forall|c: Seq<char>| #[trigger]
                    sub_lookup(results@, c) == max_qos(sub_lookup(r0, c), self.sub_best(node as int, t, c)) by {
                    self.lemma_best_at_end(node as int, t, c);
                }
            }
            return;
        }
        let ghost r1 = results@;
        let token = &topic[idx];
        assert(t[idx as int] == token@);
        let exact = self.find_child(node, token.as_slice());
        if let Some(ch) = exact {
            assert forall|i: int| 0 <= i < self.paths@[ch as int].len() implies level_matches(
                #[trigger] self.paths@[ch as int][i],
                t[i],
            ) by {
                if i < idx {
                    assert(self.paths@[ch as int][i] == self.paths@[node as int][i]);
                }
            }
            self.match_recursive(ch, topic, idx + 1, results);
        }
        let ghost r2 = results@;
        let plus = self.nodes[node].plus_child;
        if let Some(pl) = plus {
            assert forall|i: int| 0 <= i < self.paths@[pl as int].len() implies level_matches(
                #[trigger] self.paths@[pl as int][i],
                t[i],
            ) by {
                if i < idx {
                    assert(self.paths@[pl as int][i] == self.paths@[node as int][i]);
                }
            }
            self.match_recursive(pl, topic, idx + 1, results);
        }
        proof {
            assert forall|c: Seq<char>| #[trigger]
                sub_lookup(results@, c) == max_qos(sub_lookup(r0, c), self.sub_best(node as int, t, c)) by {
                self.lemma_best_inner(node as int, t, c, exact, plus);
            }
        }
    }
}

impl TopicTrie {
    /// The matches found from the root are the subscriptions of the trie's view that match.
    proof fn lemma_best_is_delivery(&self, topic: Seq<Seq<u8>>, c: Seq<char>)
        requires
            self.wf(),
        ensures
            self.sub_best(0, topic, c) == delivery_qos(self@, topic, c),
    {
        let view = self@;
        let fs = |q: QoS| self.sub_hit(0, topic, c, q);
        let fd = |q: QoS|
            exists|k: Seq<Level>|
                #[trigger] view.contains_key((k, c)) && view[(k, c)] == q && key_matches(k, topic);
        assert forall|q: QoS| #[trigger] fs(q) == fd(q) by {
            if fs(q) {
                let j = choose|j: int|
                    0 <= j < self.nodes@.len() && extends(self.paths@[0], self.paths@[j])
                        && #[trigger] self.node_hit(j, topic, c, q);
                let pj = self.paths@[j];
                assert(self.node_ok(j));
                if sub_lookup(self.nodes@[j].hash_subscribers@, c) == Some(q) {
                    let k = key_at(pj, true);
                    self.lemma_entry_at(k, c, j, true);
                    assert(k.drop_last() =~= pj);
                    assert(view.contains_key((k, c)));
                } else {
                    let k = key_at(pj, false);
                    self.lemma_entry_at(k, c, j, false);
                    if k.len() > 0 {
                        assert(!(pj[pj.len() - 1] is Hash));
                    }
                    assert(view.contains_key((k, c)));
                }
            }
            if fd(q) {
                let k = choose|k: Seq<Level>|
                    #[trigger] view.contains_key((k, c)) && view[(k, c)] == q && key_matches(k, topic);
                self.lemma_entry_cases(k, c);
                let (i, h) = choose|i: int, h: bool|
                    0 <= i < self.nodes@.len() && k == #[trigger] key_at(self.paths@[i], h);
                self.lemma_entry_at(k, c, i, h);
                assert(self.node_ok(i));
                let pi = self.paths@[i];
                if h {
                    assert(k.drop_last() =~= pi);
                } else if k.len() > 0 {
                    assert(!(pi[pi.len() - 1] is Hash));
                }
                assert(pi.take(0) =~= self.paths@[0]);
                assert(self.node_hit(i, topic, c, q));
            }
        }
        assert(fs =~= fd);
    }

    /// The subscriptions to deliver a message published on `concrete_topic`
    /// to: each client whose filters match the topic, once, with the highest
    /// QoS among its matching subscriptions. A filter matches level by level,
    /// `+` matching any one level and a trailing `#` any number of further
    /// levels, none included. The order of the result is unspecified.
    pub fn match_topic(&self, concrete_topic: &str) -> (r: Vec<Subscription>)
        requires
            self.wf(),
        ensures
            distinct_clients(r@),
            forall|c: Seq<char>|
                #![trigger sub_lookup(r@, c)]
                sub_lookup(r@, c) == delivery_qos(self@, split_levels(concrete_topic.spec_bytes()), c),
    {
        let tokens = split_levels_exec(concrete_topic.as_bytes());
        let mut results: Vec<Subscription> = Vec::new();
        assert(self.node_ok(0));
        self.match_recursive(0, &tokens, 0, &mut results);
        proof {
            assert forall|c: Seq<char>| #[trigger]
                sub_lookup(results@, c) == delivery_qos(self@, token_views(tokens@), c) by {
                self.lemma_best_is_delivery(token_views(tokens@), c);
            }
        }
        results
    }
}

/// Unsubscribing a client from a filter undoes subscribing it, when it did
/// not hold a subscription to that filter before.
pub proof fn law_unsubscribe_undoes_subscribe(
    subs: Map<(Seq<Level>, Seq<char>), QoS>,
    filter: Seq<u8>,
    c: Seq<char>,
    q: QoS,
)
    requires
        !subs.contains_key((key_of_filter(filter), c)),
    ensures
        subs.insert((key_of_filter(filter), c), q).remove((key_of_filter(filter), c)) == subs,
{
    assert(subs.insert((key_of_filter(filter), c), q).remove((key_of_filter(filter), c)) =~= subs);
}

/// The best QoS of a predicate that holds of `q` is at least `q`.
proof fn lemma_best_at_least(has: spec_fn(QoS) -> bool, q: QoS)
    requires
        has(q),
    ensures
        best_qos(has) matches Some(r) && qos_level(r) >= qos_level(q),
{
}

/// A client subscribed to a filter is delivered every publication whose
/// topic the filter matches, with at least the QoS it subscribed with.
pub proof fn law_subscriber_receives(
    subs: Map<(Seq<Level>, Seq<char>), QoS>,
    filter: Seq<u8>,
    c: Seq<char>,
    q: QoS,
    topic: Seq<u8>,
)
    requires
        key_matches(key_of_filter(filter), split_levels(topic)),
    ensures
        delivery_qos(subs.insert((key_of_filter(filter), c), q), split_levels(topic), c) matches Some(
            r,
        ) && qos_level(r) >= qos_level(q),
{
    let m = subs.insert((key_of_filter(filter), c), q);
    let t = split_levels(topic);
    let k = key_of_filter(filter);
    let has = |x: QoS|
        exists|k2: Seq<Level>| #[trigger] m.contains_key((k2, c)) && m[(k2, c)] == x && key_matches(k2, t);
    assert(m.contains_key((k, c)));
    assert(has(q));
    lemma_best_at_least(has, q);
}

/// What one client subscribes to or unsubscribes from changes nothing that
/// any other client is delivered.
pub proof fn law_other_clients_unaffected(
    subs: Map<(Seq<Level>, Seq<char>), QoS>,
    key: Seq<Level>,
    c: Seq<char>,
    q: QoS,
    topic: Seq<Seq<u8>>,
    other: Seq<char>,
)
    requires
        other != c,
    ensures
        delivery_qos(subs.insert((key, c), q), topic, other) == delivery_qos(subs, topic, other),
        delivery_qos(subs.remove((key, c)), topic, other) == delivery_qos(subs, topic, other),
{
    let ins = subs.insert((key, c), q);
    let rem = subs.remove((key, c));
    let h0 = |x: QoS|
        exists|k: Seq<Level>| #[trigger] subs.contains_key((k, other)) && subs[(k, other)] == x && key_matches(k, topic);
    let h1 = |x: QoS|
        exists|k: Seq<Level>| #[trigger] ins.contains_key((k, other)) && ins[(k, other)] == x && key_matches(k, topic);
    let h2 = |x: QoS|
        exists|k: Seq<Level>| #[trigger] rem.contains_key((k, other)) && rem[(k, other)] == x && key_matches(k, topic);
    assert forall|x: QoS| #[trigger] h1(x) == h0(x) && h2(x) == h0(x) by {
        if h0(x) {
            let k = choose|k: Seq<Level>| #[trigger] subs.contains_key((k, other)) && subs[(k, other)] == x && key_matches(k, topic);
            assert(ins.contains_key((k, other)));
            assert(rem.contains_key((k, other)));
        }
        if h1(x) {
            let k = choose|k: Seq<Level>| #[trigger] ins.contains_key((k, other)) && ins[(k, other)] == x && key_matches(k, topic);
            assert(subs.contains_key((k, other)));
        }
        if h2(x) {
            let k = choose|k: Seq<Level>| #[trigger] rem.contains_key((k, other)) && rem[(k, other)] == x && key_matches(k, topic);
            assert(subs.contains_key((k, other)));
        }
    }
    assert(h1 =~= h0);
    assert(h2 =~= h0);
}

/// The filter `#` matches every topic.
pub proof fn law_hash_matches_every_topic(topic: Seq<u8>)
    ensures
        key_matches(key_of_filter(seq![0x23u8]), split_levels(topic)),
{
    let f = seq![0x23u8];
    assert(f.drop_last() =~= Seq::<u8>::empty());
    let r = split_levels(f.drop_last());
    assert(r =~= seq![Seq::<u8>::empty()]);
    assert(r.last().push(0x23u8) =~= seq![0x23u8]);
    assert(split_levels(f) =~= seq![seq![0x23u8]]);
    let toks = seq![seq![0x23u8]];
    assert(level_of(toks[0]) is Hash);
    assert(key_of_filter(f) =~= seq![Level::Hash]);
    assert(key_of_filter(f).drop_last() =~= Seq::<Level>::empty());
}

/// The filter `+` matches exactly the topics of one level.
pub proof fn law_plus_matches_one_level(topic: Seq<u8>)
    ensures
        key_matches(key_of_filter(seq![0x2Bu8]), split_levels(topic)) == (split_levels(topic).len()
            == 1),
{
    let f = seq![0x2Bu8];
    assert(f.drop_last() =~= Seq::<u8>::empty());
    let r = split_levels(f.drop_last());
    assert(r =~= seq![Seq::<u8>::empty()]);
    assert(r.last().push(0x2Bu8) =~= seq![0x2Bu8]);
    assert(split_levels(f) =~= seq![seq![0x2Bu8]]);
    assert(seq![0x2Bu8][0] != seq![0x23u8][0]);
    let toks = seq![seq![0x2Bu8]];
    assert(level_of(toks[0]) is Plus);
    assert(toks.drop_first() =~= Seq::<Seq<u8>>::empty());
    assert(filter_key(toks.drop_first()) =~= Seq::<Level>::empty());
    assert(filter_key(toks) =~= seq![level_of(toks[0])] + filter_key(toks.drop_first()));
    assert(key_of_filter(f) =~= seq![Level::Plus]);
}

/// A filter without wildcards matches exactly the topics with the same levels.
pub proof fn law_literal_filter(filter: Seq<u8>, topic: Seq<u8>)
    requires
        forall|i: int|
            0 <= i < split_levels(filter).len() ==> #[trigger] level_of(split_levels(filter)[i]) is Exact,
    ensures
        key_matches(key_of_filter(filter), split_levels(topic)) == (split_levels(filter) == split_levels(
            topic,
        )),
{
    let toks = split_levels(filter);
    let t = split_levels(topic);
    lemma_filter_key_prefix(toks, toks.len() as int);
    assert(toks.take(toks.len() as int) =~= toks);
    assert(toks.skip(toks.len() as int) =~= Seq::<Seq<u8>>::empty());
    let key = key_of_filter(filter);
    assert(key =~= levels_of(toks));
    if key.len() > 0 {
        assert(level_of(toks[key.len() - 1]) is Exact);
    }
    if key_matches(key, t) {
        assert forall|i: int| 0 <= i < toks.len() implies toks[i] == t[i] by {
            assert(level_matches(key[i], t[i]));
            assert(level_of(toks[i]) is Exact);
        }
        assert(toks =~= t);
    }
    if toks == t {
        assert forall|i: int| 0 <= i < key.len() implies level_matches(#[trigger] key[i], t[i]) by {
            assert(level_of(toks[i]) is Exact);
        }
    }
}

} // verus!
