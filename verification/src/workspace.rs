use vstd::prelude::*;

use crate::aura_bridge::AuraAstNode;

verus! {

broadcast use vstd::string::to_string_from_display_ensures_for_str;

/// The node type that workspaces hold by default.
pub type DefaultNode = AuraAstNode;

/// A bounded collection of nodes that an agent works on.
pub struct AgentWorkspace<T> {
    nodes: Vec<T>,
    max_size: usize,
}

impl<T> AgentWorkspace<T> {
    /// The nodes pushed so far, oldest first.
    pub closed spec fn spec_nodes(&self) -> Seq<T> {
        self.nodes@
    }

    /// The most nodes the workspace accepts.
    pub closed spec fn spec_max_size(&self) -> usize {
        self.max_size
    }

    /// The workspace holds no more nodes than it accepts.
    pub closed spec fn wf(&self) -> bool {
        self.nodes@.len() <= self.max_size
    }

    /// Creates an empty workspace that accepts up to `max_size` nodes.
    pub fn new(max_size: usize) -> (res: Result<Self, String>)
        ensures
            res matches Ok(ws) && ws.wf() && ws.spec_nodes() == Seq::<T>::empty() && ws.spec_max_size() == max_size,
    {
        Ok(AgentWorkspace { nodes: Vec::new(), max_size })
    }

    /// Appends `node`, or fails with "Buffer full" (leaving the workspace
    /// unchanged) when the workspace already holds `max_size` nodes.
    pub fn push_node(&mut self, node: T) -> (res: Result<(), String>)
        ensures
            final(self).spec_max_size() == old(self).spec_max_size(),
            old(self).wf() ==> final(self).wf(),
            old(self).spec_nodes().len() < old(self).spec_max_size() ==> res is Ok
                && final(self).spec_nodes() == old(self).spec_nodes().push(node),
            old(self).spec_nodes().len() >= old(self).spec_max_size() ==> (res matches Err(e)
                && e@ == "Buffer full"@) && final(self).spec_nodes() == old(self).spec_nodes(),
    {
        if self.nodes.len() >= self.max_size {
            return Err("Buffer full".to_string());
        }
        self.nodes.push(node);
        Ok(())
    }
}

/// The nodes held after each of `items` is pushed in turn onto a workspace
/// that holds `nodes` and accepts up to `max_size` of them.
pub open spec fn nodes_after_pushes<T>(nodes: Seq<T>, max_size: usize, items: Seq<T>) -> Seq<T>
    decreases items.len(),
{
    if items.len() == 0 {
        nodes
    } else {
        let next = if nodes.len() < max_size {
            nodes.push(items[0])
        } else {
            nodes
        };
        nodes_after_pushes(next, max_size, items.drop_first())
    }
}

/// Which of those pushes succeed, in order.
pub open spec fn push_outcomes<T>(nodes: Seq<T>, max_size: usize, items: Seq<T>) -> Seq<bool>
    decreases items.len(),
{
    if items.len() == 0 {
        Seq::empty()
    } else {
        let next = if nodes.len() < max_size {
            nodes.push(items[0])
        } else {
            nodes
        };
        seq![nodes.len() < max_size] + push_outcomes(next, max_size, items.drop_first())
    }
}

/// Pushing `items` one after another onto a new workspace: exactly the first
/// `max_size` pushes succeed, every later one fails, and the workspace holds
/// the nodes of the successful pushes, never more than `max_size`.
pub proof fn lemma_workspace_pushes<T>(max_size: usize, items: Seq<T>)
    ensures
        push_outcomes(Seq::empty(), max_size, items).len() == items.len(),
        forall|i: int| 0 <= i < items.len() ==> #[trigger] push_outcomes(Seq::empty(), max_size, items)[i] == (i
            < max_size),
        nodes_after_pushes(Seq::empty(), max_size, items) == items.take(
            if items.len() <= max_size { items.len() as int } else { max_size as int },
        ),
        nodes_after_pushes(Seq::empty(), max_size, items).len() <= max_size,
{
    assert(Seq::<T>::empty() + items =~= items);
    assert(items.take(0) =~= Seq::<T>::empty());
    lemma_pushes_from(Seq::empty(), max_size, items, Seq::empty());
}

proof fn lemma_pushes_from<T>(nodes: Seq<T>, max_size: usize, items: Seq<T>, done: Seq<T>)
    requires
        nodes.len() <= max_size,
        nodes == (done + items).take(nodes.len() as int),
        nodes.len() < max_size ==> nodes.len() == done.len(),
        nodes.len() == max_size ==> nodes.len() <= done.len(),
    ensures
        push_outcomes(nodes, max_size, items).len() == items.len(),
        forall|i: int| 0 <= i < items.len() ==> #[trigger] push_outcomes(nodes, max_size, items)[i] == (
            done.len() + i < max_size),
        nodes_after_pushes(nodes, max_size, items) == (done + items).take(
            if done.len() + items.len() <= max_size { (done.len() + items.len()) as int } else { max_size as int },
        ),
    decreases items.len(),
{
    if items.len() == 0 {
        assert((done + items).take(nodes.len() as int) =~= (done + items).take(
            if done.len() + items.len() <= max_size { (done.len() + items.len()) as int } else { max_size as int },
        ));
    } else {
        let next = if nodes.len() < max_size {
            nodes.push(items[0])
        } else {
            nodes
        };
        let done2 = done.push(items[0]);
        assert(done2 + items.drop_first() =~= done + items);
        if nodes.len() < max_size {
            assert(next =~= (done + items).take(next.len() as int));
        }
        lemma_pushes_from(next, max_size, items.drop_first(), done2);
        let outs = push_outcomes(nodes, max_size, items);
        let rest = push_outcomes(next, max_size, items.drop_first());
        assert(outs == seq![nodes.len() < max_size] + rest);
        assert forall|i: int| 0 <= i < items.len() implies #[trigger] outs[i] == (done.len() + i < max_size) by {
            if i > 0 {
                assert(outs[i] == rest[i - 1]);
            }
        }
    }
}

/// A workspace never holds more nodes than its maximum size.
pub proof fn lemma_workspace_bounded<T>(ws: &AgentWorkspace<T>)
    requires
        ws.wf(),
    ensures
        ws.spec_nodes().len() <= ws.spec_max_size(),
{
}

} // verus!
