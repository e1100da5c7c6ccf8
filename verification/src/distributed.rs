pub mod communication;
pub mod node;

use self::communication::{deliveries, other_addresses, sends_view, Communication, Message, MessageView};
use self::node::{Node, NodeId};
use crate::utils::{removed_first_equal_at, ConsistentHash};
use std::sync::Arc;
use vstd::prelude::*;

verus! {

/// How many virtual nodes each node has on the ring.
pub const VIRTUAL_NODES: u32 = 100;

/// A shared handle on the same node.
fn share_node(node: &Arc<Node>) -> (r: Arc<Node>)
    ensures
        r == *node,
{
    Arc::clone(node)
}

/// The members after `node` joins: it takes the place of the member with its identifier,
/// or comes last when there is none.
pub open spec fn joined(members: Seq<Arc<Node>>, node: Arc<Node>) -> Seq<Arc<Node>> {
    if exists|i: int| 0 <= i < members.len() && #[trigger] members[i].node_id() == node.node_id() {
        let i = choose|i: int| 0 <= i < members.len() && #[trigger] members[i].node_id() == node.node_id();
        members.update(i, node)
    } else {
        members.push(node)
    }
}

/// The members after the member with identifier `id`, if any, leaves.
pub open spec fn left(members: Seq<Arc<Node>>, id: Seq<char>) -> Seq<Arc<Node>> {
    if exists|i: int| 0 <= i < members.len() && #[trigger] members[i].node_id() == id {
        let i = choose|i: int| 0 <= i < members.len() && #[trigger] members[i].node_id() == id;
        members.remove(i)
    } else {
        members
    }
}

/// `ids` with the first one equal to `id` taken out, if there is one.
pub open spec fn without_first(ids: Seq<Seq<char>>, id: Seq<char>) -> Seq<Seq<char>>
    decreases ids.len(),
{
    if ids.len() == 0 {
        ids
    } else if ids[0] == id {
        ids.drop_first()
    } else {
        seq![ids[0]] + without_first(ids.drop_first(), id)
    }
}

proof fn lemma_without_first_at(ids: Seq<Seq<char>>, id: Seq<char>, p: int)
    requires
        0 <= p <= ids.len(),
        forall|k: int| 0 <= k < p ==> #[trigger] ids[k] != id,
        p < ids.len() ==> ids[p] == id,
    ensures
        without_first(ids, id) == (if p < ids.len() {
            ids.remove(p)
        } else {
            ids
        }),
    decreases p,
{
    if ids.len() > 0 && p > 0 {
        assert(ids[0] != id);
        assert forall|k: int| 0 <= k < p - 1 implies #[trigger] ids.drop_first()[k] != id by {
            assert(ids.drop_first()[k] == ids[k + 1]);
        }
        lemma_without_first_at(ids.drop_first(), id, p - 1);
        if p < ids.len() {
            assert(seq![ids[0]] + ids.drop_first().remove(p - 1) =~= ids.remove(p));
        } else {
            assert(seq![ids[0]] + ids.drop_first() =~= ids);
        }
    } else if ids.len() > 0 {
        assert(ids.drop_first() =~= ids.remove(0));
    }
}

/// No two members share an identifier.
pub open spec fn distinct_members(members: Seq<Arc<Node>>) -> bool {
    forall|i: int, j: int|
        0 <= i < j < members.len() ==> #[trigger] members[i].node_id() != #[trigger] members[j].node_id()
}

/// The nodes of the system, the ring that spreads tasks over them, and the messaging of
/// the local node.
pub struct DistributedSystem {
    nodes: Vec<Arc<Node>>,
    communication: Communication,
    consistent_hash: ConsistentHash<NodeId>,
}

impl DistributedSystem {
    /// The nodes of the system, in the order they joined.
    pub closed spec fn members(&self) -> Seq<Arc<Node>> {
        self.nodes@
    }

    /// The node identifiers on the ring, in the order they were added.
    pub closed spec fn ring(&self) -> Seq<Seq<char>> {
        self.consistent_hash.node_list().map_values(|id: NodeId| id@)
    }

    /// How many virtual nodes each node has on the ring.
    pub closed spec fn virtual_count(&self) -> u32 {
        self.consistent_hash.virtual_count()
    }

    /// The node that this system speaks for.
    pub closed spec fn local(&self) -> Node {
        self.communication.local()
    }

    /// Some member has identifier `id`.
    pub open spec fn is_member_id(&self, id: Seq<char>) -> bool {
        exists|i: int| 0 <= i < self.members().len() && #[trigger] self.members()[i].node_id() == id
    }

    pub open spec fn well_formed(&self) -> bool {
        distinct_members(self.members())
    }

    /// A system of the local node alone.
    pub fn new(local_node: Arc<Node>) -> (r: Self)
        ensures
            r.well_formed(),
            r.members() == seq![local_node],
            r.ring() == seq![local_node.node_id()],
            r.virtual_count() == VIRTUAL_NODES,
            r.local() == *local_node,
    {
        let communication = Communication::new(share_node(&local_node));
        let ring = ConsistentHash::new(vec![local_node.id().clone()], VIRTUAL_NODES);
        let r = DistributedSystem {
            nodes: vec![local_node],
            communication,
            consistent_hash: ring,
        };
        assert(r.ring() =~= seq![local_node.node_id()]);
        r
    }

    /// The position of the member with identifier `id`, if there is one.
    fn position(&self, id: &NodeId) -> (r: Option<usize>)
        ensures
            match r {
                Some(i) => i < self.members().len() && self.members()[i as int].node_id() == id@,
                None => forall|i: int|
                    0 <= i < self.members().len() ==> #[trigger] self.members()[i].node_id() != id@,
            },
    {
        let mut i: usize = 0;
        while i < self.nodes.len()
            invariant
                i <= self.nodes@.len(),
                forall|j: int| 0 <= j < i ==> #[trigger] self.nodes@[j].node_id() != id@,
            decreases self.nodes@.len() - i,
        {
            if self.nodes[i].id().eq(id) {
                return Some(i);
            }
            i = i + 1;
        }
        None
    }

    /// Lets `node` join: it takes the place of the member with its identifier or joins
    /// last, and is added to the ring. Returns the sends that announce it to every member
    /// but the local node.
    pub fn add_node(&mut self, node: Arc<Node>) -> (r: Vec<(String, Message)>)
        requires
            old(self).well_formed(),
        ensures
            final(self).well_formed(),
            final(self).members() == joined(old(self).members(), node),
            final(self).ring() == old(self).ring().push(node.node_id()),
            final(self).virtual_count() == old(self).virtual_count(),
            final(self).local() == old(self).local(),
            sends_view(r@) == deliveries(
                other_addresses(final(self).members(), final(self).local().node_id()),
                MessageView::NodeJoin(node.node_id()),
            ),
    {
        let id = node.id().clone();
        match self.position(&id) {
            Some(i) => {
                proof {
                    assert(exists|k: int| 0 <= k < old(self).members().len() && #[trigger] old(
                        self,
                    ).members()[k].node_id() == node.node_id());
                    let k = choose|k: int| 0 <= k < old(self).members().len() && #[trigger] old(
                        self,
                    ).members()[k].node_id() == node.node_id();
                    assert(k == i);
                }
                self.nodes.set(i, share_node(&node));
            },
            None => {
                self.nodes.push(share_node(&node));
            },
        }
        proof {
            assert(self.nodes@ == joined(old(self).members(), node));
        }
        self.consistent_hash.add_node(id.clone());
        assert(self.ring() =~= old(self).ring().push(node.node_id()));
        self.communication.broadcast(self.nodes.as_slice(), Message::NodeJoin(id))
    }

    /// Lets the member with identifier `node_id` leave, if there is one, and takes the
    /// first entry with that identifier off the ring, if there is one. Returns the sends that
    /// announce it to every remaining member but the local node.
    pub fn remove_node(&mut self, node_id: &NodeId) -> (r: Vec<(String, Message)>)
        requires
            old(self).well_formed(),
        ensures
            final(self).well_formed(),
            final(self).members() == left(old(self).members(), node_id@),
            final(self).ring() == without_first(old(self).ring(), node_id@),
            final(self).virtual_count() == old(self).virtual_count(),
            final(self).local() == old(self).local(),
            sends_view(r@) == deliveries(
                other_addresses(final(self).members(), final(self).local().node_id()),
                MessageView::NodeLeave(node_id@),
            ),
    {
        match self.position(node_id) {
            Some(i) => {
                proof {
                    let k = choose|k: int| 0 <= k < old(self).members().len() && #[trigger] old(
                        self,
                    ).members()[k].node_id() == node_id@;
                    assert(k == i);
                }
                self.nodes.remove(i);
                proof {
                    assert forall|a: int, b: int|
                        0 <= a < b < self.nodes@.len() implies #[trigger] self.nodes@[a].node_id()
                        != #[trigger] self.nodes@[b].node_id() by {
                        let a0 = if a < i { a } else { a + 1 };
                        let b0 = if b < i { b } else { b + 1 };
                        assert(self.nodes@[a] == old(self).members()[a0]);
                        assert(self.nodes@[b] == old(self).members()[b0]);
                    }
                }
            },
            None => {},
        }
        proof {
            assert(self.nodes@ == left(old(self).members(), node_id@));
        }
        let ghost ring_before = self.consistent_hash.node_list();
        self.consistent_hash.remove_node(node_id);
        proof {
            let after = self.consistent_hash.node_list();
            let p = choose|p: int| #[trigger] removed_first_equal_at(ring_before, after, node_id, p);
            assert(removed_first_equal_at(ring_before, after, node_id, p));
            let ids = old(self).ring();
            assert forall|k: int| 0 <= k < p implies #[trigger] ids[k] != node_id@ by {
                assert(call_ensures(<String as PartialEq>::eq, (&ring_before[k], node_id), false));
            }
            if p < ring_before.len() {
                assert(call_ensures(<String as PartialEq>::eq, (&ring_before[p], node_id), true));
                assert(ids[p] == node_id@);
                assert(self.ring() =~= ids.remove(p));
            } else {
                assert(self.ring() =~= ids);
            }
            lemma_without_first_at(ids, node_id@, p);
        }
        self.communication.broadcast(self.nodes.as_slice(), Message::NodeLeave(node_id.clone()))
    }

    /// The member that task `task_id` falls to on the ring, when the ring picks a node
    /// that is a member. There is none when the ring is empty.
    pub fn get_node_for_task(&self, task_id: &str) -> (r: Option<Arc<Node>>)
        ensures
            self.ring().len() == 0 || self.virtual_count() == 0 ==> r is None,
            r matches Some(n) ==> self.members().contains(n) && self.ring().contains(
                n.node_id(),
            ),
            self.ring().len() > 0 && self.virtual_count() > 0 && (forall|i: int|
                0 <= i < self.ring().len() ==> self.is_member_id(#[trigger] self.ring()[i]))
                ==> r is Some,
    {
        match self.consistent_hash.get_node(task_id) {
            Some(node_id) => {
                proof {
                    let (hashes, j) = choose|hashes: Seq<u64>, j: usize|
                        {
                            &&& hashes.len() == self.consistent_hash.node_list().len()
                            &&& crate::utils::ring_choice(
                                crate::utils::ring_of(hashes, self.consistent_hash.virtual_count() as nat),
                                crate::utils::text_hash(task_id@),
                            ) == Some(j)
                            &&& j < self.consistent_hash.node_list().len()
                            &&& *node_id == self.consistent_hash.node_list()[j as int]
                        };
                    assert(self.ring()[j as int] == node_id@);
                    assert(self.ring().len() == self.consistent_hash.node_list().len());
                    if forall|i: int|
                        0 <= i < self.ring().len() ==> self.is_member_id(#[trigger] self.ring()[i]) {
                        assert(self.is_member_id(self.ring()[j as int]));
                    }
                }
                match self.position(node_id) {
                    Some(i) => {
                        let n = share_node(&self.nodes[i]);
                        proof {
                            assert(self.members()[i as int] == n);
                        }
                        Some(n)
                    },
                    None => None,
                }
            },
            None => {
                assert(self.ring().len() == self.consistent_hash.node_list().len());
                None
            },
        }
    }

    /// The messaging of the local node.
    pub fn communication(&self) -> (r: &Communication)
        ensures
            r.local() == self.local(),
    {
        &self.communication
    }

    /// The sends of a heartbeat from the local node to every other member.
    pub fn send_heartbeat(&self) -> (r: Vec<(String, Message)>)
        ensures
            sends_view(r@) == deliveries(
                other_addresses(self.members(), self.local().node_id()),
                MessageView::Heartbeat(self.local().node_id()),
            ),
    {
        let local_id = self.communication.get_node().id().clone();
        self.communication.broadcast(self.nodes.as_slice(), Message::Heartbeat(local_id))
    }
}

} // verus!
