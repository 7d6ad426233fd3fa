use vstd::prelude::*;
use std::collections::HashMap;

verus! {

broadcast use vstd::std_specs::hash::group_hash_axioms;

/// Different characters have different code points.
proof fn lemma_code_points_differ(a: char, b: char)
    requires
        a != b,
    ensures
        a as u32 != b as u32,
{
}

/// What a kind of trie keeps in each node to find its way, and how it goes
/// from a node to the next.
pub trait TrieWalk<S>: Sized {
    fn root() -> Self;

    fn build(parent_node: &TrieImpl<Self, S>, c: char) -> Self;

    fn walk<'a>(node: &'a TrieImpl<Self, S>, c: char) -> Option<&'a TrieImpl<Self, S>>;
}

/// A node of a trie. Its children are found by the code point of the next
/// character of a key.
pub struct TrieImpl<T, S> {
    pub next: HashMap<u32, Box<TrieImpl<T, S>>>,
    pub walk_info: T,
    pub attached_info: Option<S>,
}

impl<T, S> TrieImpl<T, S> {
    /// The child that stands for the character `c`, if there is one.
    pub open spec fn child(&self, c: char) -> Option<Self> {
        if self.next@.contains_key(c as u32) {
            Some(*self.next@[c as u32])
        } else {
            None
        }
    }

    /// The node that the characters of `key` lead to from this one, if each
    /// of them has its child.
    pub open spec fn descend(&self, key: Seq<char>) -> Option<Self>
        decreases key.len(),
    {
        if key.len() == 0 {
            Some(*self)
        } else {
            match self.child(key[0]) {
                Some(child) => child.descend(key.drop_first()),
                None => None,
            }
        }
    }

    /// What is attached to `key`, if anything.
    pub open spec fn lookup(&self, key: Seq<char>) -> Option<S> {
        match self.descend(key) {
            Some(node) => node.attached_info,
            None => None,
        }
    }

    fn new(walk_info: T) -> (node: Self)
        ensures
            node.next@ == Map::<u32, Box<TrieImpl<T, S>>>::empty(),
            node.walk_info == walk_info,
            node.attached_info is None,
    {
        Self { next: HashMap::new(), walk_info, attached_info: None }
    }

    fn boxed(walk_info: T) -> (node: Box<Self>)
        ensures
            node.next@ == Map::<u32, Box<TrieImpl<T, S>>>::empty(),
            node.walk_info == walk_info,
            node.attached_info is None,
    {
        Box::new(Self::new(walk_info))
    }

    /// Nothing is attached to any key below a node without children and
    /// without anything attached to itself.
    pub proof fn lemma_empty(&self, key: Seq<char>)
        requires
            self.next@ == Map::<u32, Box<TrieImpl<T, S>>>::empty(),
            self.attached_info is None,
        ensures
            self.lookup(key) is None,
    {
    }
}

impl<T: TrieWalk<S>, S> TrieImpl<T, S> {
    /// Attaches `info` to the key `s`, in place of what was attached to it.
    pub fn insert(&mut self, s: &[char], info: S)
        requires
            forall|node: &TrieImpl<T, S>, c: char| call_requires(T::build, (node, c)),
        ensures
            final(self).walk_info == old(self).walk_info,
            forall|key: Seq<char>|
                #[trigger] final(self).lookup(key) == if key == s@ {
                    Some(info)
                } else {
                    old(self).lookup(key)
                },
    {
        assert(s@.subrange(0, s@.len() as int) =~= s@);
        self.insert_from(s, 0, info)
    }

    fn insert_from(&mut self, s: &[char], at: usize, info: S)
        requires
            at <= s.len(),
            forall|node: &TrieImpl<T, S>, c: char| call_requires(T::build, (node, c)),
        ensures
            final(self).walk_info == old(self).walk_info,
            forall|key: Seq<char>|
                #[trigger] final(self).lookup(key) == if key == s@.subrange(
                    at as int,
                    s@.len() as int,
                ) {
                    Some(info)
                } else {
                    old(self).lookup(key)
                },
        decreases s.len() - at,
    {
        let ghost rest = s@.subrange(at as int, s@.len() as int);
        if at == s.len() {
            self.attached_info = Some(info);
            proof {
                assert forall|key: Seq<char>|
                    #[trigger] self.lookup(key) == if key == rest {
                        Some(info)
                    } else {
                        old(self).lookup(key)
                    } by {
                    if key.len() == 0 {
                        assert(key =~= rest);
                    } else {
                        assert(self.child(key[0]) == old(self).child(key[0]));
                    }
                }
            }
        } else {
            let c = s[at];
            let k = c as u32;
            let mut child = match self.next.remove(&k) {
                Some(child) => child,
                None => Self::boxed(T::build(&*self, c)),
            };
            let ghost before = *child;
            child.insert_from(s, at + 1, info);
            let ghost after = *child;
            self.next.insert(k, child);
            proof {
                let below = s@.subrange(at + 1, s@.len() as int);
                assert(below =~= rest.drop_first());
                assert(rest[0] == c);
                assert forall|key: Seq<char>|
                    #[trigger] self.lookup(key) == if key == rest {
                        Some(info)
                    } else {
                        old(self).lookup(key)
                    } by {
                    if key.len() == 0 {
                    } else if key[0] == c {
                        let tail = key.drop_first();
                        assert(self.child(key[0]) == Some(after));
                        assert(after.lookup(tail) == if tail == below {
                            Some(info)
                        } else {
                            before.lookup(tail)
                        });
                        if tail == below {
                            assert(key =~= seq![c] + tail);
                            assert(rest =~= seq![c] + below);
                        }
                        if old(self).next@.contains_key(k) {
                            assert(old(self).child(key[0]) == Some(before));
                        } else {
                            before.lemma_empty(tail);
                        }
                    } else {
                        lemma_code_points_differ(key[0], c);
                        assert(self.child(key[0]) == old(self).child(key[0]));
                    }
                }
            }
        }
    }

    /// The walk that starts at this node and goes by the characters of `s`.
    pub fn walk<'a>(&'a self, s: &'a [char]) -> (walker: TrieWalker<'a, T, S>)
        ensures
            walker == (TrieWalker::Continue { ptr: self, rest: s, at: 0 }),
    {
        TrieWalker::Continue { ptr: self, rest: s, at: 0 }
    }

    /// A trie in which nothing is attached to any key.
    pub fn new_root() -> (root: Self)
        requires
            call_requires(T::root, ()),
        ensures
            call_ensures(T::root, (), root.walk_info),
            forall|key: Seq<char>| #[trigger] root.lookup(key) is None,
    {
        let root = Self::new(T::root());
        proof {
            assert forall|key: Seq<char>| #[trigger] root.lookup(key) is None by {
                root.lemma_empty(key);
            }
        }
        root
    }

    /// As `new_root`, on the heap.
    pub fn new_boxed_root() -> (root: Box<Self>)
        requires
            call_requires(T::root, ()),
        ensures
            call_ensures(T::root, (), root.walk_info),
            forall|key: Seq<char>| #[trigger] root.lookup(key) is None,
    {
        Box::new(Self::new_root())
    }
}

/// A walk through a trie: the node that it has reached and the characters
/// that are left, or the end.
pub enum TrieWalker<'a, T, S> {
    Continue { ptr: &'a TrieImpl<T, S>, rest: &'a [char], at: usize },
    End,
}

impl<'a, T: TrieWalk<S>, S> TrieWalker<'a, T, S> {
    /// One step of the walk by `f`: at the end of the characters, or where
    /// `f` finds no node for the next one, the walk ends.
    fn and_then(
        &mut self,
        f: impl FnOnce(&'a TrieImpl<T, S>, char) -> Option<&'a TrieImpl<T, S>>,
    ) -> (reached: Option<&'a TrieImpl<T, S>>)
        requires
            forall|node: &'a TrieImpl<T, S>, c: char| f.requires((node, c)),
        ensures
            match *old(self) {
                TrieWalker::Continue { ptr, rest, at } => if at < rest.len() {
                    f.ensures((ptr, rest[at as int]), reached) && *final(self) == (match reached {
                        Some(node) => TrieWalker::Continue { ptr: node, rest, at: (at + 1) as usize },
                        None => TrieWalker::End,
                    })
                } else {
                    reached is None && *final(self) == TrieWalker::<T, S>::End
                },
                TrieWalker::End => reached is None && *final(self) == TrieWalker::<T, S>::End,
            },
    {
        match self {
            TrieWalker::Continue { ptr, rest, at } => {
                if *at < rest.len() {
                    let c = rest[*at];
                    let res = f(*ptr, c);
                    match res {
                        Some(new_ptr) => {
                            *ptr = new_ptr;
                            *at = *at + 1;
                            Some(new_ptr)
                        },
                        None => {
                            *self = TrieWalker::End;
                            None
                        },
                    }
                } else {
                    *self = TrieWalker::End;
                    None
                }
            },
            TrieWalker::End => None,
        }
    }

    /// The next node of the walk, by the way that this kind of trie goes from
    /// a node to the next.
    pub fn next(&mut self) -> (reached: Option<&'a TrieImpl<T, S>>)
        requires
            forall|node: &'a TrieImpl<T, S>, c: char| call_requires(T::walk, (node, c)),
        ensures
            match *old(self) {
                TrieWalker::Continue { ptr, rest, at } => if at < rest.len() {
                    call_ensures(T::walk, (ptr, rest[at as int]), reached) && *final(self) == (
                    match reached {
                        Some(node) => TrieWalker::Continue { ptr: node, rest, at: (at + 1) as usize },
                        None => TrieWalker::End,
                    })
                } else {
                    reached is None && *final(self) == TrieWalker::<T, S>::End
                },
                TrieWalker::End => reached is None && *final(self) == TrieWalker::<T, S>::End,
            },
    {
        self.and_then(T::walk)
    }
}

/// The plain trie keeps nothing in its nodes and goes to the child that
/// stands for the character.
impl<S> TrieWalk<S> for () {
    fn root() -> Self {
    }

    fn build(_parent_node: &TrieImpl<Self, S>, _c: char) -> Self {
    }

    fn walk<'a>(node: &'a TrieImpl<Self, S>, c: char) -> (reached: Option<&'a TrieImpl<Self, S>>)
        ensures
            match reached {
                Some(child) => node.child(c) == Some(*child),
                None => node.child(c) is None,
            },
    {
        let k = c as u32;
        match node.next.get(&k) {
            Some(child) => Some(&**child),
            None => None,
        }
    }
}

/// The plain trie.
pub type Trie<S> = TrieImpl<(), S>;

} // verus!
