use vstd::prelude::*;

verus! {

/// A node of the history: its payload, the index of its parent (none for
/// the root) and the indices of its children, oldest first.
pub struct Node<T> {
    pub data: T,
    pub parent: Option<usize>,
    pub children: Vec<usize>,
}

/// A history of states with a movable head, as in a version-control branch.
///
/// Nodes live in an arena and refer to each other by index. Growing adds a
/// child of the head and makes it the head; removing the head detaches it
/// from its parent and discards it with all it holds. No branch can survive
/// that, so the live nodes always form one path from the root to the head,
/// stored in the arena in that order.
pub struct Tree<T> {
    nodes: Vec<Node<T>>,
    head: usize,
}

impl<T> View for Tree<T> {
    type V = Seq<T>;

    /// The payloads from the root to the head.
    closed spec fn view(&self) -> Seq<T> {
        Seq::new(self.nodes@.len(), |i: int| self.nodes@[i].data)
    }
}

impl<T> Tree<T> {
    /// The arena is the path from the root to the head: each node's parent
    /// is the one before it, and its one child the one after it.
    pub closed spec fn links(&self) -> bool {
        &&& self.nodes@.len() >= 1
        &&& self.head == self.nodes@.len() - 1
        &&& self.nodes@[0].parent.is_none()
        &&& forall|i: int| 1 <= i < self.nodes@.len() ==> (#[trigger] self.nodes@[i]).parent == Some((i - 1) as usize)
        &&& forall|i: int| 0 <= i < self.head ==> (#[trigger] self.nodes@[i]).children@ == seq![(i + 1) as usize]
        &&& self.nodes@[self.head as int].children@.len() == 0
    }

    pub open spec fn wf(&self) -> bool {
        &&& self@.len() >= 1
        &&& self.links()
    }

    /// A tree holding the root alone, which is also the head.
    pub fn new(data: T) -> (r: Tree<T>)
        ensures
            r.wf(),
            r@ == seq![data],
    {
        let mut nodes: Vec<Node<T>> = Vec::new();
        nodes.push(Node { data, parent: None, children: Vec::new() });
        let r = Tree { nodes, head: 0 };
        proof {
            assert(r@ =~= seq![data]);
        }
        r
    }

    /// The payload of the head.
    pub fn access_head(&self) -> (r: &T)
        requires
            self.wf(),
        ensures
            *r == self@.last(),
    {
        &self.nodes[self.head].data
    }

    /// Adds `data` as a new child of the head and moves the head to it.
    pub fn grow(&mut self, data: T)
        requires
            old(self).wf(),
        ensures
            final(self).wf(),
            final(self)@ == old(self)@.push(data),
    {
        let h = self.head;
        let n = self.nodes.len();
        assert(h + 1 == n);
        let mut top = self.nodes.pop().unwrap();
        top.children.push(h + 1);
        self.nodes.push(top);
        self.nodes.push(Node { data, parent: Some(h), children: Vec::new() });
        self.head = h + 1;
        proof {
            assert(self.nodes@[h as int].children@ =~= seq![(h + 1) as usize]);
            assert forall|i: int| 1 <= i < self.nodes@.len() implies (#[trigger] self.nodes@[i]).parent == Some((i - 1) as usize) by {
                if i < h {
                    assert(self.nodes@[i] == old(self).nodes@[i]);
                }
            }
            assert forall|i: int| 0 <= i < self.head implies (#[trigger] self.nodes@[i]).children@ == seq![(i + 1) as usize] by {
                if i < h {
                    assert(self.nodes@[i] == old(self).nodes@[i]);
                }
            }
            assert(self@ =~= old(self)@.push(data));
        }
    }

    /// Moves the head back to its parent, detaching and discarding the old
    /// head, whose payload is returned. At the root nothing changes and
    /// nothing is returned.
    pub fn remove_head(&mut self) -> (r: Option<T>)
        requires
            old(self).wf(),
        ensures
            final(self).wf(),
            old(self)@.len() == 1 ==> r.is_none() && final(self)@ == old(self)@,
            old(self)@.len() > 1 ==> r == Some(old(self)@.last()) && final(self)@ == old(self)@.drop_last(),
    {
        if self.head == 0 {
            return None;
        }
        let removed = self.nodes.pop().unwrap();
        let mut parent = self.nodes.pop().unwrap();
        parent.children = Vec::new();
        self.nodes.push(parent);
        self.head = self.head - 1;
        proof {
            let n = old(self).nodes@.len();
            assert(removed == old(self).nodes@[n - 1]);
            assert forall|i: int| 1 <= i < self.nodes@.len() implies (#[trigger] self.nodes@[i]).parent == Some((i - 1) as usize) by {
                if i < self.head {
                    assert(self.nodes@[i] == old(self).nodes@[i]);
                } else {
                    assert(old(self).nodes@[i].parent == Some((i - 1) as usize));
                }
            }
            assert forall|i: int| 0 <= i < self.head implies (#[trigger] self.nodes@[i]).children@ == seq![(i + 1) as usize] by {
                assert(self.nodes@[i] == old(self).nodes@[i]);
            }
            assert(self@ =~= old(self)@.drop_last());
        }
        Some(removed.data)
    }

    /// Every node in depth-first pre-order from the root, following the
    /// child links.
    pub fn preorder(&self) -> (r: Vec<&T>)
        requires
            self.wf(),
        ensures
            r@.len() == self@.len(),
            forall|i: int| 0 <= i < r@.len() ==> *r@[i] == self@[i],
    {
        proof {
            assert(self.head + 1 == self@.len());
        }
        let mut out: Vec<&T> = Vec::new();
        let mut i: usize = 0;
        loop
            invariant_except_break
                i <= self.head,
                out@.len() == i,
                forall|k: int| 0 <= k < i ==> *out@[k] == self@[k],
            invariant
                self.wf(),
            ensures
                out@.len() == self@.len(),
                forall|k: int| 0 <= k < out@.len() ==> *out@[k] == self@[k],
            decreases self.head - i,
        {
            let ghost prev = out@;
            out.push(&self.nodes[i].data);
            assert(*out@[i as int] == self@[i as int]);
            assert forall|k: int| 0 <= k <= i implies *out@[k] == self@[k] by {
                if k < i {
                    assert(out@[k] == prev[k]);
                }
            }
            if self.nodes[i].children.len() == 0 {
                assert(i == self.head) by {
                    if i < self.head {
                        assert(self.nodes@[i as int].children@ == seq![(i + 1) as usize]);
                    }
                }
                break;
            }
            assert(i < self.head);
            assert(self.nodes@[i as int].children@ == seq![(i + 1) as usize]);
            i = self.nodes[i].children[0];
        }
        out
    }
}

} // verus!
