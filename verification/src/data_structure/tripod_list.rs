use vstd::prelude::*;
use crate::utils::ghost_cell::GhostToken;
use crate::utils::trc::Trc;

verus! {

/// The handle to all of a cell.
pub type Full<T> = Trc<T, 3, 3>;

type Two<T> = Trc<T, 2, 3>;

type One<T> = Trc<T, 1, 3>;

type FullPtr<T> = Full<Node<T>>;

type TwoPtr<T> = Two<Node<T>>;

type OnePtr<T> = One<Node<T>>;

/// The third of a node that its list does not hold: kept by the caller, it
/// finds the node again without a walk.
pub type MapPtr<T> = OnePtr<T>;

/// One element of a list: the value and a one-third handle to each neighbour.
pub struct Node<T> {
    prev: Option<OnePtr<T>>,
    next: Option<OnePtr<T>>,
    pub val: T,
}

impl<T> Node<T> {
    fn new(val: T) -> (node: Self)
        ensures
            node.value() == val,
            node.detached(),
    {
        Node { val, prev: None, next: None }
    }

    /// The value that the node carries.
    pub closed spec fn value(&self) -> T {
        self.val
    }

    /// The value that the node carries.
    pub fn get(&self) -> (val: &T)
        ensures
            *val == self.value(),
    {
        &self.val
    }

    /// Exclusive access to the value; the handles to the neighbours stay
    /// what they are.
    pub fn get_mut(&mut self) -> (val: &mut T)
        ensures
            *val == old(self).value(),
            final(self).value() == *final(val),
            final(self).prev_addr() == old(self).prev_addr(),
            final(self).next_addr() == old(self).next_addr(),
    {
        &mut self.val
    }

    /// Gives up the node for the value that it carries.
    pub fn into_inner(self) -> (val: T)
        ensures
            val == self.value(),
    {
        self.val
    }

    /// The address of the node before this one, if the node holds a handle to it.
    pub closed spec fn prev_addr(&self) -> Option<usize> {
        match self.prev {
            Some(p) => Some(p.addr()),
            None => None,
        }
    }

    /// The address of the node after this one, if the node holds a handle to it.
    pub closed spec fn next_addr(&self) -> Option<usize> {
        match self.next {
            Some(n) => Some(n.addr()),
            None => None,
        }
    }

    /// The node holds no handle to a neighbour.
    pub open spec fn detached(&self) -> bool {
        self.prev_addr() is None && self.next_addr() is None
    }
}

/// The node at place `i` of `nodes` is live in `cells` and holds handles to
/// exactly its neighbours in `nodes`.
pub open spec fn linked<T>(cells: Map<usize, Node<T>>, nodes: Seq<usize>, i: int) -> bool {
    &&& cells.dom().contains(nodes[i])
    &&& cells[nodes[i]].prev_addr() == if i == 0 {
        None
    } else {
        Some(nodes[i - 1])
    }
    &&& cells[nodes[i]].next_addr() == if i == nodes.len() - 1 {
        None
    } else {
        Some(nodes[i + 1])
    }
}

/// Every cell of `before` that is none of `nodes` is in `after` with the same value.
pub open spec fn others_kept<T>(
    before: Map<usize, Node<T>>,
    after: Map<usize, Node<T>>,
    nodes: Seq<usize>,
) -> bool {
    forall|a: usize|
        before.dom().contains(a) && !nodes.contains(a) ==> after.dom().contains(a) && after[a]
            == before[a]
}

/// The values that the cells at `nodes` carry, in the order of `nodes`.
pub open spec fn values_of<T>(cells: Map<usize, Node<T>>, nodes: Seq<usize>) -> Seq<T> {
    Seq::new(nodes.len(), |i: int| cells[nodes[i]].value())
}

/// `after` is `before` with the node at place `i` taken out of the chain:
/// the other nodes keep their order and their values, and the node that left
/// is still live, carries its value and holds no handle.
pub open spec fn unlinked<T>(
    before: TripodList<T>,
    before_token: GhostToken<Node<T>>,
    after: TripodList<T>,
    after_token: GhostToken<Node<T>>,
    i: int,
) -> bool {
    let addr = before.nodes()[i];
    &&& after_token.wf()
    &&& after.wf(after_token)
    &&& after.nodes() == before.nodes().remove(i)
    &&& !after.nodes().contains(addr)
    &&& after.values(after_token) == before.values(before_token).remove(i)
    &&& after_token@.dom() == before_token@.dom()
    &&& after_token@[addr].value() == before_token@[addr].value()
    &&& after_token@[addr].detached()
    &&& others_kept(before_token@, after_token@, before.nodes())
}

/// `after` is `before` with the cell at `addr` put into the chain at place
/// `i`: the nodes that were there keep their order and their values.
pub open spec fn linked_in<T>(
    before: TripodList<T>,
    before_token: GhostToken<Node<T>>,
    after: TripodList<T>,
    after_token: GhostToken<Node<T>>,
    i: int,
    addr: usize,
) -> bool {
    &&& after_token.wf()
    &&& after.wf(after_token)
    &&& after.nodes() == before.nodes().insert(i, addr)
    &&& after.values(after_token) == before.values(before_token).insert(
        i,
        before_token@[addr].value(),
    )
    &&& after_token@.dom() == before_token@.dom()
    &&& others_kept(before_token@, after_token@, before.nodes().push(addr))
}

/// What taking the node at place `i` out of a chain does to the cells, stated
/// on the cells alone.
proof fn lemma_unlink<T>(
    before: Map<usize, Node<T>>,
    after: Map<usize, Node<T>>,
    a: Seq<usize>,
    i: int,
)
    requires
        0 <= i < a.len(),
        a.no_duplicates(),
        forall|j: int| 0 <= j < a.len() ==> #[trigger] linked(before, a, j),
        after.dom() == before.dom(),
        forall|j: int|
            0 <= j < a.len() && j != i - 1 && j != i && j != i + 1 ==> after[#[trigger] a[j]]
                == before[a[j]],
        forall|x: usize| before.dom().contains(x) && !a.contains(x) ==> after[x] == before[x],
        after[a[i]].value() == before[a[i]].value(),
        after[a[i]].detached(),
        i > 0 ==> after[a[i - 1]].value() == before[a[i - 1]].value() && after[a[i
            - 1]].prev_addr() == before[a[i - 1]].prev_addr() && after[a[i - 1]].next_addr() == (
        if i + 1 < a.len() {
            Some(a[i + 1])
        } else {
            None
        }),
        i + 1 < a.len() ==> after[a[i + 1]].value() == before[a[i + 1]].value() && after[a[i
            + 1]].next_addr() == before[a[i + 1]].next_addr() && after[a[i + 1]].prev_addr() == (
        if i > 0 {
            Some(a[i - 1])
        } else {
            None
        }),
    ensures
        a.remove(i).no_duplicates(),
        !a.remove(i).contains(a[i]),
        forall|j: int| 0 <= j < a.remove(i).len() ==> #[trigger] linked(after, a.remove(i), j),
        values_of(after, a.remove(i)) == values_of(before, a).remove(i),
        others_kept(before, after, a),
{
    let r = a.remove(i);
    assert(r.len() == a.len() - 1);
    assert forall|j: int| 0 <= j < r.len() implies r[j] == a[if j < i {
        j
    } else {
        j + 1
    }] by {}
    assert forall|j: int| 0 <= j < r.len() implies #[trigger] linked(after, r, j) by {
        let k = if j < i {
            j
        } else {
            j + 1
        };
        assert(linked(before, a, k));
        assert(r[j] == a[k]);
        if j > 0 {
            assert(r[j - 1] == a[if j - 1 < i {
                j - 1
            } else {
                j
            }]);
        }
        if j + 1 < r.len() {
            assert(r[j + 1] == a[if j + 1 < i {
                j + 1
            } else {
                j + 2
            }]);
        }
    }
    assert(values_of(after, r) =~= values_of(before, a).remove(i)) by {
        assert forall|j: int| 0 <= j < r.len() implies values_of(after, r)[j] == values_of(
            before,
            a,
        ).remove(i)[j] by {
            let k = if j < i {
                j
            } else {
                j + 1
            };
            assert(r[j] == a[k]);
            assert(linked(before, a, k));
        }
    }
}

/// A doubly linked list whose nodes live in the scope of a token. Each node's
/// ownership is three thirds: one held by the node before it, or by the list
/// if it is the first; one by the node after it, or by the list if it is the
/// last; and one handed to whoever pushed the node, with which the node can
/// be taken out of the list wherever it stands.
pub struct TripodList<T> {
    head_tail: Option<(OnePtr<T>, OnePtr<T>)>,
    nodes: Ghost<Seq<usize>>,
}

impl<T> TripodList<T> {
    /// The addresses of the list's nodes, front to back.
    pub closed spec fn nodes(&self) -> Seq<usize> {
        self.nodes@
    }

    /// The list's invariant with respect to the scope that its nodes live in.
    pub closed spec fn wf(&self, token: GhostToken<Node<T>>) -> bool {
        let a = self.nodes@;
        &&& token.wf()
        &&& a.no_duplicates()
        &&& match self.head_tail {
            None => a.len() == 0,
            Some((head, tail)) => a.len() > 0 && head.addr() == a[0] && tail.addr() == a[a.len()
                - 1],
        }
        &&& forall|i: int| 0 <= i < a.len() ==> #[trigger] linked(token@, a, i)
    }

    /// The address that the list's handle to its first node points at.
    pub closed spec fn head_addr(&self) -> Option<usize> {
        match self.head_tail {
            Some((head, _)) => Some(head.addr()),
            None => None,
        }
    }

    /// The address that the list's handle to its last node points at.
    pub closed spec fn tail_addr(&self) -> Option<usize> {
        match self.head_tail {
            Some((_, tail)) => Some(tail.addr()),
            None => None,
        }
    }

    /// The handles that a well-formed list holds to the node at place `i` are
    /// exactly two thirds: one from the side of the front, held by the node
    /// before it or, for the first node, by the list; one from the side of
    /// the back, held by the node after it or, for the last node, by the
    /// list. The third that makes the whole is the one that was handed out when the node was linked.
    pub proof fn lemma_handles_to_node(&self, token: GhostToken<Node<T>>, i: int)
        requires
            self.wf(token),
            0 <= i < self.nodes().len(),
        ensures
            self.head_addr() == Some(self.nodes()[i]) <==> i == 0,
            self.tail_addr() == Some(self.nodes()[i]) <==> i == self.nodes().len() - 1,
            forall|j: int|
                0 <= j < self.nodes().len() ==> (token@[#[trigger] self.nodes()[j]].next_addr()
                    == Some(self.nodes()[i]) <==> j == i - 1),
            forall|j: int|
                0 <= j < self.nodes().len() ==> (token@[#[trigger] self.nodes()[j]].prev_addr()
                    == Some(self.nodes()[i]) <==> j == i + 1),
    {
        let a = self.nodes@;
        assert forall|j: int| 0 <= j < a.len() implies (token@[#[trigger] a[j]].next_addr()
            == Some(a[i]) <==> j == i - 1) by {
            assert(linked(token@, a, j));
        }
        assert forall|j: int| 0 <= j < a.len() implies (token@[#[trigger] a[j]].prev_addr()
            == Some(a[i]) <==> j == i + 1) by {
            assert(linked(token@, a, j));
        }
    }

    /// Every node of a well-formed list is a live cell of the scope.
    pub proof fn lemma_nodes_live(&self, token: GhostToken<Node<T>>, i: int)
        requires
            self.wf(token),
            0 <= i < self.nodes().len(),
        ensures
            token.wf(),
            token@.dom().contains(self.nodes()[i]),
    {
        assert(linked(token@, self.nodes@, i));
    }

    /// What happens to cells that are none of the list's nodes does not touch
    /// the list: it stays well formed and keeps its values.
    pub proof fn lemma_other_cells(&self, before: GhostToken<Node<T>>, after: GhostToken<Node<T>>)
        requires
            self.wf(before),
            after.wf(),
            forall|a: usize|
                self.nodes().contains(a) ==> after@.dom().contains(a) && after@[a] == before@[a],
        ensures
            self.wf(after),
            self.values(after) == self.values(before),
    {
        let a = self.nodes@;
        assert forall|i: int| 0 <= i < a.len() implies #[trigger] linked(after@, a, i) by {
            assert(linked(before@, a, i));
            assert(self.nodes()[i] == a[i]);
            assert(self.nodes().contains(a[i]));
            if i > 0 {
                assert(self.nodes().contains(a[i - 1]));
            }
            if i < a.len() - 1 {
                assert(self.nodes().contains(a[i + 1]));
            }
        }
        assert(self.values(after) =~= self.values(before)) by {
            assert forall|i: int| 0 <= i < a.len() implies after@[a[i]] == before@[a[i]] by {
                assert(self.nodes()[i] == a[i]);
                assert(self.nodes().contains(a[i]));
            }
        }
    }

    /// A list is well formed only in a well-formed scope.
    pub proof fn lemma_scope_wf(&self, token: GhostToken<Node<T>>)
        requires
            self.wf(token),
        ensures
            token.wf(),
    {
    }

    /// No node stands at two places of a well-formed list.
    pub proof fn lemma_nodes_distinct(&self, token: GhostToken<Node<T>>)
        requires
            self.wf(token),
        ensures
            self.nodes().no_duplicates(),
    {
    }

    /// The values of the list, front to back.
    pub open spec fn values(&self, token: GhostToken<Node<T>>) -> Seq<T> {
        values_of(token@, self.nodes())
    }

    /// The list of no nodes; it is well formed in every scope.
    pub fn new() -> (list: Self)
        ensures
            list.nodes() == Seq::<usize>::empty(),
            forall|token: GhostToken<Node<T>>| token.wf() ==> list.wf(token),
    {
        Self { head_tail: None, nodes: Ghost(Seq::empty()) }
    }

    /// Takes the first node out of the chain and returns the two thirds of it
    /// that the chain held.
    pub fn pop_front(&mut self, token: &mut GhostToken<Node<T>>) -> (popped: Option<TwoPtr<T>>)
        requires
            old(self).wf(*old(token)),
        ensures
            final(token).wf(),
            final(self).wf(*final(token)),
            match popped {
                Some(two) => old(self).nodes().len() > 0 && two.addr() == old(self).nodes()[0]
                    && unlinked(*old(self), *old(token), *final(self), *final(token), 0),
                None => old(self).nodes().len() == 0 && *final(self) == *old(self) && *final(token)
                    == *old(token),
            },
    {
        let (head, tail) = match self.head_tail.take() {
            Some(pair) => pair,
            None => {
                return None;
            },
        };
        let ghost a = old(self).nodes@;
        proof {
            assert(linked(old(token)@, a, 0));
        }
        if head.has_same_pointee(&tail) {
            let two = TwoPtr::join(head, tail);
            self.nodes = Ghost(a.remove(0));
            proof {
                assert(a.len() == 1);
                lemma_unlink(old(token)@, token@, a, 0);
            }
            return Some(two);
        }
        proof {
            assert(linked(old(token)@, a, 1));
        }
        let next = head.borrow_mut(token).next.take().unwrap();
        let other_head = next.borrow_mut(token).prev.take().unwrap();
        let two = TwoPtr::join(head, other_head);
        self.head_tail = Some((next, tail));
        self.nodes = Ghost(a.remove(0));
        proof {
            assert(token@.dom() =~= old(token)@.dom());
            lemma_unlink(old(token)@, token@, a, 0);
        }
        Some(two)
    }

    /// Takes the last node out of the chain and returns the two thirds of it
    /// that the chain held.
    pub fn pop_back(&mut self, token: &mut GhostToken<Node<T>>) -> (popped: Option<TwoPtr<T>>)
        requires
            old(self).wf(*old(token)),
        ensures
            final(token).wf(),
            final(self).wf(*final(token)),
            match popped {
                Some(two) => old(self).nodes().len() > 0 && two.addr() == old(self).nodes().last()
                    && unlinked(
                    *old(self),
                    *old(token),
                    *final(self),
                    *final(token),
                    old(self).nodes().len() - 1,
                ),
                None => old(self).nodes().len() == 0 && *final(self) == *old(self) && *final(token)
                    == *old(token),
            },
    {
        let (head, tail) = match self.head_tail.take() {
            Some(pair) => pair,
            None => {
                return None;
            },
        };
        let ghost a = old(self).nodes@;
        let ghost last = a.len() - 1;
        proof {
            assert(linked(old(token)@, a, last));
        }
        if head.has_same_pointee(&tail) {
            let two = TwoPtr::join(head, tail);
            self.nodes = Ghost(a.remove(last));
            proof {
                assert(a.len() == 1);
                lemma_unlink(old(token)@, token@, a, last);
            }
            return Some(two);
        }
        proof {
            assert(linked(old(token)@, a, last - 1));
        }
        let prev = tail.borrow_mut(token).prev.take().unwrap();
        let other_tail = prev.borrow_mut(token).next.take().unwrap();
        let two = TwoPtr::join(tail, other_tail);
        self.head_tail = Some((head, prev));
        self.nodes = Ghost(a.remove(last));
        proof {
            assert(token@.dom() =~= old(token)@.dom());
            lemma_unlink(old(token)@, token@, a, last);
        }
        Some(two)
    }

    /// Puts a node that stands alone at the front of the chain: two thirds of
    /// it go into the chain, the third is returned.
    pub fn link_front(&mut self, p: FullPtr<T>, token: &mut GhostToken<Node<T>>) -> (one: OnePtr<T>)
        requires
            old(self).wf(*old(token)),
            old(token)@.dom().contains(p.addr()),
            !old(self).nodes().contains(p.addr()),
            old(token)@[p.addr()].detached(),
        ensures
            one.addr() == p.addr(),
            linked_in(*old(self), *old(token), *final(self), *final(token), 0, p.addr()),
    {
        let ghost addr = p.addr();
        let (a, b) = p.split::<1, 2>();
        let (b, c) = b.split::<1, 1>();
        match self.head_tail.take() {
            Some((head, tail)) => {
                proof {
                    assert(linked(old(token)@, old(self).nodes@, 0));
                }
                let h = head.borrow_mut(token);
                h.prev = Some(b);
                let n = a.borrow_mut(token);
                n.next = Some(head);
                self.head_tail = Some((a, tail));
            },
            None => {
                self.head_tail = Some((a, b));
            },
        }
        self.nodes = Ghost(old(self).nodes@.insert(0, addr));
        proof {
            let before = old(self).nodes@;
            let after = self.nodes@;
            assert(after =~= seq![addr] + before);
            assert forall|i: int| 0 <= i < after.len() implies #[trigger] linked(
                token@,
                after,
                i,
            ) by {
                if i > 0 {
                    assert(after[i] == before[i - 1]);
                    assert(linked(old(token)@, before, i - 1));
                    assert(i > 1 ==> after[i - 1] == before[i - 2]);
                    assert(i < after.len() - 1 ==> after[i + 1] == before[i]);
                } else {
                    assert(after.len() > 1 ==> after[1] == before[0]);
                }
            }
            assert forall|i: int, j: int|
                0 <= i < after.len() && 0 <= j < after.len() && i != j implies after[i]
                != after[j] by {
                if i > 0 {
                    assert(after[i] == before[i - 1]);
                }
                if j > 0 {
                    assert(after[j] == before[j - 1]);
                }
            }
            assert(self.values(*token) =~= old(self).values(*old(token)).insert(
                0,
                old(token)@[addr].value(),
            )) by {
                assert forall|i: int| 1 <= i < after.len() implies token@[after[i]].value() == old(
                    token,
                )@[before[i - 1]].value() by {
                    assert(after[i] == before[i - 1]);
                    assert(linked(old(token)@, before, i - 1));
                }
            }
            assert(token@.dom() =~= old(token)@.dom());
            assert forall|x: usize|
                old(token)@.dom().contains(x) && !before.push(addr).contains(
                    x,
                ) implies token@.dom().contains(x) && token@[x] == old(token)@[x] by {
                assert(before.push(addr)[before.len() as int] == addr);
                if before.len() > 0 {
                    assert(before.push(addr)[0] == before[0]);
                }
            }
        }
        c
    }

    /// Puts a node that stands alone at the back of the chain: two thirds of
    /// it go into the chain, the third is returned.
    pub fn link_back(&mut self, p: FullPtr<T>, token: &mut GhostToken<Node<T>>) -> (one: OnePtr<T>)
        requires
            old(self).wf(*old(token)),
            old(token)@.dom().contains(p.addr()),
            !old(self).nodes().contains(p.addr()),
            old(token)@[p.addr()].detached(),
        ensures
            one.addr() == p.addr(),
            linked_in(
                *old(self),
                *old(token),
                *final(self),
                *final(token),
                old(self).nodes().len() as int,
                p.addr(),
            ),
    {
        let ghost addr = p.addr();
        let (a, b) = p.split::<1, 2>();
        let (b, c) = b.split::<1, 1>();
        match self.head_tail.take() {
            Some((head, tail)) => {
                proof {
                    assert(linked(old(token)@, old(self).nodes@, old(self).nodes@.len() - 1));
                }
                let t = tail.borrow_mut(token);
                t.next = Some(b);
                let n = a.borrow_mut(token);
                n.prev = Some(tail);
                self.head_tail = Some((head, a));
            },
            None => {
                self.head_tail = Some((a, b));
            },
        }
        self.nodes = Ghost(old(self).nodes@.insert(old(self).nodes@.len() as int, addr));
        proof {
            let before = old(self).nodes@;
            let after = self.nodes@;
            assert(after =~= before.push(addr));
            assert forall|i: int| 0 <= i < after.len() implies #[trigger] linked(
                token@,
                after,
                i,
            ) by {
                if i < before.len() {
                    assert(linked(old(token)@, before, i));
                }
            }
            assert(self.values(*token) =~= old(self).values(*old(token)).insert(
                before.len() as int,
                old(token)@[addr].value(),
            )) by {
                assert forall|i: int| 0 <= i < before.len() implies token@[after[i]].value() == old(
                    token,
                )@[before[i]].value() by {
                    assert(linked(old(token)@, before, i));
                }
            }
            assert(token@.dom() =~= old(token)@.dom());
            assert forall|x: usize|
                old(token)@.dom().contains(x) && !before.push(addr).contains(
                    x,
                ) implies token@.dom().contains(x) && token@[x] == old(token)@[x] by {
                assert(before.push(addr)[before.len() as int] == addr);
                if before.len() > 0 {
                    assert(before.push(addr)[before.len() - 1] == before[before.len() - 1]);
                }
            }
        }
        c
    }

    /// A cell allocated after the list was last changed is none of its nodes,
    /// and the list is as well formed with it as without.
    proof fn lemma_fresh_cell(
        &self,
        before: GhostToken<Node<T>>,
        after: GhostToken<Node<T>>,
        addr: usize,
    )
        requires
            self.wf(before),
            after.wf(),
            !before@.dom().contains(addr),
            after@ == before@.insert(addr, after@[addr]),
        ensures
            self.wf(after),
            !self.nodes().contains(addr),
            self.values(after) == self.values(before),
    {
        let a = self.nodes@;
        assert forall|i: int| 0 <= i < a.len() implies #[trigger] a[i] != addr by {
            assert(linked(before@, a, i));
        }
        assert forall|i: int| 0 <= i < a.len() implies #[trigger] linked(after@, a, i) by {
            assert(linked(before@, a, i));
        }
        assert(self.values(after) =~= self.values(before));
    }

    /// Allocates a node for `val` and puts it at the back; returns the third
    /// of the node that the list does not hold.
    pub fn push_back(&mut self, val: T, token: &mut GhostToken<Node<T>>) -> (one: OnePtr<T>)
        requires
            old(self).wf(*old(token)),
        ensures
            final(token).wf(),
            final(self).wf(*final(token)),
            !old(token)@.dom().contains(one.addr()),
            final(self).nodes() == old(self).nodes().push(one.addr()),
            final(self).values(*final(token)) == old(self).values(*old(token)).push(val),
            final(token)@.dom() == old(token)@.dom().insert(one.addr()),
            others_kept(old(token)@, final(token)@, old(self).nodes()),
    {
        let full = FullPtr::new(Node::new(val), token);
        proof {
            self.lemma_fresh_cell(*old(token), *token, full.addr());
        }
        let ghost mid = *token;
        let one = self.link_back(full, token);
        proof {
            let n = old(self).nodes().len() as int;
            assert(old(self).nodes().insert(n, one.addr()) =~= old(self).nodes().push(one.addr()));
            assert(old(self).values(mid).insert(n, val) =~= old(self).values(*old(token)).push(
                val,
            ));
            assert(token@.dom() =~= old(token)@.dom().insert(one.addr()));
            assert forall|x: usize|
                old(token)@.dom().contains(x) && !old(self).nodes().contains(
                    x,
                ) implies token@.dom().contains(x) && token@[x] == old(token)@[x] by {
                let pushed = old(self).nodes().push(one.addr());
                if pushed.contains(x) {
                    let j = choose|j: int| 0 <= j < pushed.len() && pushed[j] == x;
                    if j < n {
                        assert(old(self).nodes()[j] == x);
                    }
                }
            }
        }
        one
    }

    /// Allocates a node for `val` and puts it at the front; returns the third
    /// of the node that the list does not hold.
    pub fn push_front(&mut self, val: T, token: &mut GhostToken<Node<T>>) -> (one: OnePtr<T>)
        requires
            old(self).wf(*old(token)),
        ensures
            final(token).wf(),
            final(self).wf(*final(token)),
            !old(token)@.dom().contains(one.addr()),
            final(self).nodes() == seq![one.addr()] + old(self).nodes(),
            final(self).values(*final(token)) == seq![val] + old(self).values(*old(token)),
            final(token)@.dom() == old(token)@.dom().insert(one.addr()),
            others_kept(old(token)@, final(token)@, old(self).nodes()),
    {
        let full = FullPtr::new(Node::new(val), token);
        proof {
            self.lemma_fresh_cell(*old(token), *token, full.addr());
        }
        let ghost mid = *token;
        let one = self.link_front(full, token);
        proof {
            let n = old(self).nodes().len() as int;
            assert(old(self).nodes().insert(0, one.addr()) =~= seq![one.addr()] + old(
                self,
            ).nodes());
            assert(old(self).values(mid).insert(0, val) =~= seq![val] + old(self).values(
                *old(token),
            ));
            assert(token@.dom() =~= old(token)@.dom().insert(one.addr()));
            assert forall|x: usize|
                old(token)@.dom().contains(x) && !old(self).nodes().contains(
                    x,
                ) implies token@.dom().contains(x) && token@[x] == old(token)@[x] by {
                let pushed = old(self).nodes().push(one.addr());
                if pushed.contains(x) {
                    let j = choose|j: int| 0 <= j < pushed.len() && pushed[j] == x;
                    if j < n {
                        assert(old(self).nodes()[j] == x);
                    }
                }
            }
        }
        one
    }

    /// Takes the node that `one` points at out of the list, wherever it
    /// stands, without a walk, and returns the handle to all of it.
    pub fn remove(&mut self, one: OnePtr<T>, token: &mut GhostToken<Node<T>>) -> (full: FullPtr<T>)
        requires
            old(self).wf(*old(token)),
            old(self).nodes().contains(one.addr()),
        ensures
            full.addr() == one.addr(),
            unlinked(
                *old(self),
                *old(token),
                *final(self),
                *final(token),
                old(self).nodes().index_of(one.addr()),
            ),
            old(self).nodes().len() == 1 ==> final(self).nodes().len() == 0,
    {
        let ghost a = old(self).nodes@;
        let ghost idx = a.index_of(one.addr());
        proof {
            assert(0 <= idx < a.len() && a[idx] == one.addr());
            assert(linked(old(token)@, a, idx));
        }
        let (head, tail) = self.head_tail.take().unwrap();
        let res = match (one.has_same_pointee(&head), one.has_same_pointee(&tail)) {
            (true, true) => {
                let two = Two::join(head, tail);
                self.nodes = Ghost(a.remove(idx));
                proof {
                    assert(a.len() == 1);
                    lemma_unlink(old(token)@, token@, a, idx);
                }
                Full::join(two, one)
            },
            (true, false) => {
                self.head_tail = Some((head, tail));
                let front = self.pop_front(token).unwrap();
                Full::join(front, one)
            },
            (false, true) => {
                self.head_tail = Some((head, tail));
                let back = self.pop_back(token).unwrap();
                Full::join(back, one)
            },
            (false, false) => {
                self.head_tail = Some((head, tail));
                proof {
                    assert(linked(old(token)@, a, idx - 1));
                    assert(linked(old(token)@, a, idx + 1));
                }
                let prev = one.borrow_mut(token).prev.take().unwrap();
                let next = one.borrow_mut(token).next.take().unwrap();
                let a_third = prev.borrow_mut(token).next.take().unwrap();
                let b_third = next.borrow_mut(token).prev.take().unwrap();
                // The handle to the node before is raised to two thirds for the
                // length of the splice: one third goes into the node after, the
                // other stands for the third that was taken above, and is let go.
                let prev = Two::lift_from(prev);
                let (prev, other_prev) = prev.split::<1, 1>();
                next.borrow_mut(token).prev = Some(other_prev);
                prev.borrow_mut(token).next = Some(next);
                self.nodes = Ghost(a.remove(idx));
                proof {
                    assert(token@.dom() =~= old(token)@.dom());
                    lemma_unlink(old(token)@, token@, a, idx);
                }
                let two = Two::join(a_third, b_third);
                Full::join(two, one)
            },
        };
        res
    }

    /// The first value, if there is one.
    pub fn front<'a>(&'a self, token: &'a GhostToken<Node<T>>) -> (r: Option<&'a T>)
        requires
            self.wf(*token),
        ensures
            match r {
                Some(val) => self.nodes().len() > 0 && *val == self.values(*token)[0],
                None => self.nodes().len() == 0,
            },
    {
        match &self.head_tail {
            Some((head, _)) => {
                proof {
                    assert(linked(token@, self.nodes@, 0));
                }
                Some(&head.borrow(token).val)
            },
            None => None,
        }
    }

    /// The last value, if there is one.
    pub fn back<'a>(&'a self, token: &'a GhostToken<Node<T>>) -> (r: Option<&'a T>)
        requires
            self.wf(*token),
        ensures
            match r {
                Some(val) => self.nodes().len() > 0 && *val == self.values(*token).last(),
                None => self.nodes().len() == 0,
            },
    {
        match &self.head_tail {
            Some((_, tail)) => {
                proof {
                    assert(linked(token@, self.nodes@, self.nodes@.len() - 1));
                }
                Some(&tail.borrow(token).val)
            },
            None => None,
        }
    }

    /// Writing another value into the node at place `i` keeps the list, and
    /// changes its values at place `i` only.
    proof fn lemma_value_rewritten(
        &self,
        before: GhostToken<Node<T>>,
        after: GhostToken<Node<T>>,
        i: int,
    )
        requires
            self.wf(before),
            0 <= i < self.nodes().len(),
            after.wf(),
            after@ == before@.insert(self.nodes()[i], after@[self.nodes()[i]]),
            after@[self.nodes()[i]].prev == before@[self.nodes()[i]].prev,
            after@[self.nodes()[i]].next == before@[self.nodes()[i]].next,
        ensures
            self.wf(after),
            self.values(after) == self.values(before).update(i, after@[self.nodes()[i]].value()),
    {
        let a = self.nodes@;
        assert forall|j: int| 0 <= j < a.len() implies #[trigger] linked(after@, a, j) by {
            assert(linked(before@, a, j));
        }
        assert(self.values(after) =~= self.values(before).update(
            i,
            after@[self.nodes()[i]].value(),
        ));
    }

    /// Exclusive access to the first value, if there is one: the list holds
    /// what is written there.
    pub fn front_mut<'a>(&'a mut self, token: &'a mut GhostToken<Node<T>>) -> (r: Option<
        &'a mut T,
    >)
        requires
            old(self).wf(*old(token)),
        ensures
            *final(self) == *old(self),
            match r {
                Some(val) => old(self).nodes().len() > 0 && *val == old(self).values(
                    *old(token),
                )[0] && final(token).wf() && final(self).wf(*final(token)) && final(self).values(
                    *final(token),
                ) == old(
                    self,
                ).values(*old(token)).update(0, *final(val)) && final(token)@.dom() == old(
                    token,
                )@.dom() && others_kept(old(token)@, final(token)@, old(self).nodes()),
                None => old(self).nodes().len() == 0 && *final(token) == *old(token),
            },
    {
        match &self.head_tail {
            Some((head, _)) => {
                proof {
                    let list = *self;
                    let before = *token;
                    assert(linked(before@, list.nodes@, 0));
                    assert forall|after: GhostToken<Node<T>>|
                        after.wf() && after@ == before@.insert(
                            list.nodes()[0],
                            after@[list.nodes()[0]],
                        ) && after@[list.nodes()[0]].prev == before@[list.nodes()[0]].prev
                            && after@[list.nodes()[0]].next
                            == before@[list.nodes()[0]].next implies #[trigger] list.wf(after)
                        && list.values(after) == list.values(before).update(
                        0,
                        after@[list.nodes()[0]].value(),
                    ) && after@.dom() == before@.dom() by {
                        list.lemma_value_rewritten(before, after, 0);
                        assert(after@.dom() =~= before@.dom());
                    }
                }
                let node = head.borrow_mut(token);
                Some(&mut node.val)
            },
            None => None,
        }
    }

    /// Exclusive access to the last value, if there is one: the list holds
    /// what is written there.
    pub fn back_mut<'a>(&'a mut self, token: &'a mut GhostToken<Node<T>>) -> (r: Option<
        &'a mut T,
    >)
        requires
            old(self).wf(*old(token)),
        ensures
            *final(self) == *old(self),
            match r {
                Some(val) => old(self).nodes().len() > 0 && *val == old(self).values(
                    *old(token),
                ).last() && final(token).wf() && final(self).wf(*final(token)) && final(self).values(
                    *final(token),
                )
                    == old(self).values(*old(token)).update(
                    old(self).nodes().len() - 1,
                    *final(val),
                ) && final(token)@.dom() == old(token)@.dom() && others_kept(
                    old(token)@,
                    final(token)@,
                    old(self).nodes(),
                ),
                None => old(self).nodes().len() == 0 && *final(token) == *old(token),
            },
    {
        match &self.head_tail {
            Some((_, tail)) => {
                proof {
                    let list = *self;
                    let before = *token;
                    let last = list.nodes@.len() - 1;
                    assert(linked(before@, list.nodes@, last));
                    assert forall|after: GhostToken<Node<T>>|
                        after.wf() && after@ == before@.insert(
                            list.nodes()[last],
                            after@[list.nodes()[last]],
                        ) && after@[list.nodes()[last]].prev == before@[list.nodes()[last]].prev
                            && after@[list.nodes()[last]].next
                            == before@[list.nodes()[last]].next implies #[trigger] list.wf(after)
                        && list.values(after) == list.values(before).update(
                        last,
                        after@[list.nodes()[last]].value(),
                    ) && after@.dom() == before@.dom() by {
                        list.lemma_value_rewritten(before, after, last);
                        assert(after@.dom() =~= before@.dom());
                    }
                }
                let node = tail.borrow_mut(token);
                Some(&mut node.val)
            },
            None => None,
        }
    }

    /// Ends the list: walks it from the front and gives every node's cell
    /// back to the scope, values included. The thirds that were handed out
    /// point at nothing afterwards.
    pub fn drop(self, token: &mut GhostToken<Node<T>>)
        requires
            self.wf(*old(token)),
        ensures
            final(token).wf(),
            final(token)@ == old(token)@.remove_keys(self.nodes().to_set()),
    {
        let ghost a = self.nodes@;
        let ghost mut k: int = 0;
        let mut cur = match self.head_tail {
            Some((head, _)) => Some(head),
            None => None,
        };
        proof {
            assert(a.subrange(0, 0).to_set() =~= Set::<usize>::empty());
            assert(token@ =~= old(token)@.remove_keys(a.subrange(0, 0).to_set()));
        }
        while cur.is_some()
            invariant
                self.wf(*old(token)),
                a == self.nodes@,
                token.wf(),
                0 <= k <= a.len(),
                match cur {
                    Some(head) => k < a.len() && head.addr() == a[k],
                    None => k == a.len(),
                },
                token@ == old(token)@.remove_keys(a.subrange(0, k).to_set()),
            decreases a.len() - k,
        {
            let head = cur.unwrap();
            proof {
                assert(linked(old(token)@, a, k));
                assert(!a.subrange(0, k).to_set().contains(a[k])) by {
                    if a.subrange(0, k).contains(a[k]) {
                        let j = choose|j: int| 0 <= j < k && a.subrange(0, k)[j] == a[k];
                        assert(a[j] == a[k]);
                    }
                }
            }
            let node = head.borrow_mut(token);
            let _prev = node.prev.take();
            let next = node.next.take();
            let full = FullPtr::lift_from(head);
            let _node = full.into_inner(token);
            proof {
                let s0 = a.subrange(0, k);
                let s1 = a.subrange(0, k + 1);
                assert forall|x: usize| s1.to_set().contains(x) <==> (s0.to_set().contains(x) || x
                    == a[k]) by {
                    if s0.contains(x) {
                        let j = choose|j: int| 0 <= j < k && s0[j] == x;
                        assert(s1[j] == x);
                    }
                    if x == a[k] {
                        assert(s1[k] == x);
                    }
                    if s1.contains(x) {
                        let j = choose|j: int| 0 <= j < k + 1 && s1[j] == x;
                        if j < k {
                            assert(s0[j] == x);
                        }
                    }
                }
                assert(token@ =~= old(token)@.remove_keys(s1.to_set()));
                k = k + 1;
            }
            cur = next;
        }
        proof {
            assert(a.subrange(0, k) =~= a);
        }
    }
}

impl<T> Default for TripodList<T> {
    fn default() -> (list: Self)
        ensures
            list.nodes() == Seq::<usize>::empty(),
            forall|token: GhostToken<Node<T>>| token.wf() ==> list.wf(token),
    {
        Self::new()
    }
}

/// Taking out the first node by its handle leaves what a pop at the front
/// leaves, and taking out the last what a pop at the back leaves: the place
/// that `remove` finds for the handle is the place that the pop takes from.
pub proof fn lemma_remove_at_an_end_is_a_pop<T>(list: TripodList<T>, token: GhostToken<Node<T>>)
    requires
        list.wf(token),
        list.nodes().len() > 0,
    ensures
        list.nodes().index_of(list.nodes()[0]) == 0,
        list.nodes().index_of(list.nodes().last()) == list.nodes().len() - 1,
        list.nodes().remove(0) == list.nodes().drop_first(),
        list.values(token).remove(0) == list.values(token).drop_first(),
        list.nodes().remove(list.nodes().len() - 1) == list.nodes().drop_last(),
        list.values(token).remove(list.nodes().len() - 1) == list.values(token).drop_last(),
{
    let a = list.nodes();
    list.lemma_nodes_distinct(token);
    assert(a[0] == a[0]);
    assert(a[a.len() - 1] == a.last());
    assert(a.remove(0) =~= a.drop_first());
    assert(a.remove(a.len() - 1) =~= a.drop_last());
    assert(list.values(token).remove(0) =~= list.values(token).drop_first());
    assert(list.values(token).remove(a.len() - 1) =~= list.values(token).drop_last());
}

/// Taking a node out of a list and putting it in again, at either end, leaves
/// every cell of the scope live and none more: the list holds the nodes and
/// the values that it held, the one that moved at its new place.
pub proof fn lemma_remove_then_link_keeps_cells<T>(
    first: TripodList<T>,
    first_token: GhostToken<Node<T>>,
    taken: TripodList<T>,
    taken_token: GhostToken<Node<T>>,
    last: TripodList<T>,
    last_token: GhostToken<Node<T>>,
    from: int,
    to: int,
)
    requires
        first.wf(first_token),
        0 <= from < first.nodes().len(),
        unlinked(first, first_token, taken, taken_token, from),
        linked_in(taken, taken_token, last, last_token, to, first.nodes()[from]),
        to == 0 || to == taken.nodes().len(),
    ensures
        last.wf(last_token),
        last_token@.dom() == first_token@.dom(),
        last.nodes() == first.nodes().remove(from).insert(to, first.nodes()[from]),
        last.values(last_token) == first.values(first_token).remove(from).insert(
            to,
            first.values(first_token)[from],
        ),
        last.nodes().len() == first.nodes().len(),
{
}

} // verus!
