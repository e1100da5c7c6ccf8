use crate::distributed::node::{Node, NodeId};
use crate::error::NightResult;
use crate::task::{Task, TaskId, TaskView};
use std::sync::Arc;
use vstd::prelude::*;

verus! {

/// What nodes tell each other.
pub enum Message {
    Heartbeat(NodeId),
    TaskAssignment(TaskId, Task),
    /// A task's new status, as its name.
    TaskStatusUpdate(TaskId, String),
    NodeJoin(NodeId),
    NodeLeave(NodeId),
}

/// What a message says.
pub ghost enum MessageView {
    Heartbeat(Seq<char>),
    TaskAssignment(TaskId, TaskView),
    TaskStatusUpdate(TaskId, Seq<char>),
    NodeJoin(Seq<char>),
    NodeLeave(Seq<char>),
}

impl View for Message {
    type V = MessageView;

    open spec fn view(&self) -> MessageView {
        match self {
            Message::Heartbeat(id) => MessageView::Heartbeat(id@),
            Message::TaskAssignment(id, task) => MessageView::TaskAssignment(*id, task@),
            Message::TaskStatusUpdate(id, status) => MessageView::TaskStatusUpdate(*id, status@),
            Message::NodeJoin(id) => MessageView::NodeJoin(id@),
            Message::NodeLeave(id) => MessageView::NodeLeave(id@),
        }
    }
}

impl Clone for Message {
    fn clone(&self) -> (r: Self)
        ensures
            r@ == self@,
    {
        match self {
            Message::Heartbeat(id) => Message::Heartbeat(id.clone()),
            Message::TaskAssignment(id, task) => Message::TaskAssignment(*id, task.clone()),
            Message::TaskStatusUpdate(id, status) => Message::TaskStatusUpdate(*id, status.clone()),
            Message::NodeJoin(id) => Message::NodeJoin(id.clone()),
            Message::NodeLeave(id) => Message::NodeLeave(id.clone()),
        }
    }
}

/// The addresses of the nodes of `nodes` whose identifier is not `local`, in order.
pub open spec fn other_addresses(nodes: Seq<Arc<Node>>, local: Seq<char>) -> Seq<Seq<char>>
    decreases nodes.len(),
{
    if nodes.len() == 0 {
        Seq::empty()
    } else {
        let rest = other_addresses(nodes.drop_last(), local);
        if nodes.last().node_id() != local {
            rest.push(nodes.last().address())
        } else {
            rest
        }
    }
}

/// What a list of sends says: each address with its message.
pub open spec fn sends_view(sends: Seq<(String, Message)>) -> Seq<(Seq<char>, MessageView)> {
    sends.map_values(|s: (String, Message)| (s.0@, s.1@))
}

/// The sends that deliver `message` to each of `addresses`, in order.
pub open spec fn deliveries(addresses: Seq<Seq<char>>, message: MessageView) -> Seq<
    (Seq<char>, MessageView),
> {
    addresses.map_values(|a: Seq<char>| (a, message))
}

/// The messaging of one node with the others.
pub struct Communication {
    node: Arc<Node>,
}

impl Clone for Communication {
    fn clone(&self) -> (r: Self)
        ensures
            r.local() == self.local(),
    {
        Communication { node: Arc::clone(&self.node) }
    }
}

impl Communication {
    /// The node that speaks.
    pub closed spec fn local(&self) -> Node {
        *self.node
    }

    pub fn new(node: Arc<Node>) -> (r: Self)
        ensures
            r.local() == *node,
    {
        Communication { node }
    }

    pub fn get_node(&self) -> (r: &Arc<Node>)
        ensures
            **r == self.local(),
    {
        &self.node
    }

    /// The sends of a broadcast of `message` over `nodes`: one to each node but this one,
    /// in the order of `nodes`.
    pub fn broadcast(&self, nodes: &[Arc<Node>], message: Message) -> (r: Vec<(String, Message)>)
        ensures
            sends_view(r@) == deliveries(other_addresses(nodes@, self.local().node_id()), message@),
    {
        let mut sends: Vec<(String, Message)> = Vec::new();
        let mut i: usize = 0;
        while i < nodes.len()
            invariant
                i <= nodes@.len(),
                sends_view(sends@) == deliveries(
                    other_addresses(nodes@.take(i as int), self.local().node_id()),
                    message@,
                ),
            decreases nodes@.len() - i,
        {
            let node = &nodes[i];
            let ghost prefix = nodes@.take(i as int);
            assert(nodes@.take(i + 1).drop_last() =~= prefix);
            assert(nodes@.take(i + 1).last() == nodes@[i as int]);
            if node.id().eq(self.node.id()) {
                assert(sends_view(sends@) == deliveries(
                    other_addresses(nodes@.take(i + 1), self.local().node_id()),
                    message@,
                ));
            } else {
                let ghost before = sends@;
                sends.push((node.addr().clone(), message.clone()));
                assert(sends_view(sends@) =~= sends_view(before).push(
                    (nodes@[i as int].address(), message@),
                ));
                assert(deliveries(other_addresses(nodes@.take(i + 1), self.local().node_id()), message@)
                    =~= deliveries(other_addresses(prefix, self.local().node_id()), message@).push(
                    (nodes@[i as int].address(), message@),
                ));
            }
            i = i + 1;
        }
        assert(nodes@.take(nodes@.len() as int) =~= nodes@);
        sends
    }

    /// What a node does with a message it received: an assignment queues the task on it;
    /// every other message leaves it as it was.
    pub fn handle_message(node: &mut Node, message: &Message) -> (r: NightResult<()>)
        ensures
            r is Ok,
            final(node).node_id() == old(node).node_id(),
            final(node).address() == old(node).address(),
            final(node).state() == old(node).state(),
            message matches Message::TaskAssignment(id, _) ==> final(node).tasks() == old(
                node,
            ).tasks().insert(*id, crate::distributed::node::TaskStatus::Queued),
            !(message is TaskAssignment) ==> final(node).tasks() == old(node).tasks(),
    {
        match message {
            Message::TaskAssignment(task_id, _) => node.add_task(*task_id),
            _ => Ok(()),
        }
    }
}

} // verus!
