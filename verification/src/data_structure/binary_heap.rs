use vstd::prelude::*;
use vstd::multiset::Multiset;
use vstd::seq_lib::{to_multiset_build, to_multiset_update, to_multiset_contains, to_multiset_len};
use crate::utils::order::{less, lt, le, total_order, lemma_trichotomy, lemma_le_transitive};

verus! {

/// No element of `s` comes after the one at its parent's place, where the
/// parent of place `i` is place `(i - 1) / 2`.
pub open spec fn heap_ordered<T: Ord>(s: Seq<T>) -> bool {
    forall|i: int| 1 <= i < s.len() ==> le(#[trigger] s[i], s[(i - 1) / 2])
}

/// As `heap_ordered`, but for the children of place `hole`, which are held
/// against the parent of `hole` instead.
spec fn ordered_around<T: Ord>(s: Seq<T>, hole: int) -> bool {
    &&& forall|i: int| 1 <= i < s.len() && (i - 1) / 2 != hole ==> le(#[trigger] s[i], s[(i - 1) / 2])
    &&& forall|i: int|
        1 <= i < s.len() && (i - 1) / 2 == hole && hole >= 1 ==> le(
            #[trigger] s[i],
            s[(hole - 1) / 2],
        )
}

/// As `heap_ordered`, but for place `hole`, whose children are held against
/// the parent of `hole` instead.
spec fn ordered_above<T: Ord>(s: Seq<T>, hole: int) -> bool {
    &&& forall|i: int| 1 <= i < s.len() && i != hole ==> le(#[trigger] s[i], s[(i - 1) / 2])
    &&& forall|i: int|
        1 <= i < s.len() && (i - 1) / 2 == hole && hole >= 1 ==> le(
            #[trigger] s[i],
            s[(hole - 1) / 2],
        )
}

/// In a heap no element comes after the first.
pub proof fn lemma_first_is_greatest<T: Ord>(s: Seq<T>, i: int)
    requires
        total_order::<T>(),
        heap_ordered(s),
        0 <= i < s.len(),
    ensures
        le(s[i], s[0]),
    decreases i,
{
    lemma_trichotomy(s[0], s[0]);
    if i > 0 {
        lemma_first_is_greatest(s, (i - 1) / 2);
        lemma_le_transitive(s[i], s[(i - 1) / 2], s[0]);
    }
}

/// Exchanging two elements changes neither how many there are of any value
/// nor the length.
proof fn lemma_swap_keeps_multiset<T>(s: Seq<T>, i: int, j: int)
    requires
        0 <= i < s.len(),
        0 <= j < s.len(),
    ensures
        s.update(i, s[j]).update(j, s[i]).to_multiset() == s.to_multiset(),
{
    broadcast use to_multiset_update, to_multiset_contains;

    let s1 = s.update(i, s[j]);
    let s2 = s1.update(j, s[i]);
    if i == j {
        assert(s2 =~= s);
    } else {
        let m = s.to_multiset();
        assert(s.contains(s[i]));
        assert(s.contains(s[j]));
        assert(s1[j] == s[j]);
        assert(s1.to_multiset() =~= m.insert(s[j]).remove(s[i]));
        assert(s2.to_multiset() =~= s1.to_multiset().insert(s[i]).remove(s[j]));
        assert forall|x: T| s2.to_multiset().count(x) == m.count(x) by {
            assert(m.count(s[i]) > 0);
            assert(m.count(s[j]) > 0);
        }
        assert(s2.to_multiset() =~= m);
    }
}

/// Exchanges the elements at two places of a vector, by `swap` of std's
/// slices: each of the two places gets what the other held, and every other
/// place keeps what it holds.
#[verifier::external_body]
fn swap_places<T>(v: &mut Vec<T>, i: usize, j: usize)
    requires
        i < old(v).len(),
        j < old(v).len(),
    ensures
        final(v)@ == old(v)@.update(i as int, old(v)@[j as int]).update(j as int, old(v)@[i as int]),
{
    v.swap(i, j)
}

/// A max-heap: the greatest element is the one that leaves first.
pub struct BinaryHeap<T> {
    data: Vec<T>,
}

impl<T> BinaryHeap<T> {
    /// The elements, in the order in which the heap stores them.
    pub closed spec fn items(&self) -> Seq<T> {
        self.data@
    }

    /// The elements with their multiplicities.
    pub open spec fn view(&self) -> Multiset<T> {
        self.items().to_multiset()
    }

    /// The heap of no elements.
    pub fn new() -> (heap: Self)
        ensures
            heap.items() == Seq::<T>::empty(),
            heap@ == Multiset::<T>::empty(),
    {
        let heap = Self { data: Vec::new() };
        proof {
            heap.items().to_multiset_ensures();
            assert(heap@.len() == 0);
            assert(heap@ =~= Multiset::<T>::empty());
        }
        heap
    }

    /// How many elements the heap holds, equal ones counted each.
    pub fn len(&self) -> (n: usize)
        ensures
            n == self.items().len(),
            n == self@.len(),
    {
        broadcast use to_multiset_len;

        self.data.len()
    }

    /// Whether the heap holds no element.
    pub fn is_empty(&self) -> (empty: bool)
        ensures
            empty == (self.items().len() == 0),
            empty == (self@.len() == 0),
    {
        self.len() == 0
    }
}

impl<T> Default for BinaryHeap<T> {
    fn default() -> (heap: Self)
        ensures
            heap.items() == Seq::<T>::empty(),
            heap@ == Multiset::<T>::empty(),
    {
        Self::new()
    }
}

impl<T: Ord> BinaryHeap<T> {
    /// The heap's invariant.
    pub open spec fn wf(&self) -> bool {
        heap_ordered(self.items())
    }

    #[inline]
    fn parent(id: usize) -> (p: usize)
        requires
            id >= 1,
        ensures
            p == (id - 1) / 2,
    {
        (id - 1) / 2
    }

    #[inline]
    fn left_son(id: usize) -> (son: usize)
        requires
            2 * id + 2 <= usize::MAX,
        ensures
            son == 2 * id + 1,
    {
        2 * id + 1
    }

    #[inline]
    fn right_son(id: usize) -> (son: usize)
        requires
            2 * id + 2 <= usize::MAX,
        ensures
            son == 2 * id + 2,
    {
        2 * id + 2
    }

    /// Puts `elem` into the heap.
    pub fn push(&mut self, elem: T)
        requires
            total_order::<T>(),
            old(self).wf(),
        ensures
            final(self).wf(),
            final(self)@ == old(self)@.insert(elem),
    {
        broadcast use to_multiset_build;

        let mut pos: usize = self.data.len();
        self.data.push(elem);
        proof {
            let s = self.data@;
            assert forall|i: int| 1 <= i < s.len() && i != pos implies le(
                #[trigger] s[i],
                s[(i - 1) / 2],
            ) by {
                assert(s[i] == old(self).data@[i]);
            }
        }
        while pos != 0 && less(&self.data[Self::parent(pos)], &self.data[pos])
            invariant
                total_order::<T>(),
                pos < self.data.len(),
                self.data@.to_multiset() == old(self)@.insert(elem),
                ordered_above(self.data@, pos as int),
            decreases pos,
        {
            let up: usize = Self::parent(pos);
            let ghost before = self.data@;
            swap_places(&mut self.data, pos, up);
            proof {
                lemma_swap_keeps_multiset(before, pos as int, up as int);
                let s = self.data@;
                let hole = pos as int;
                let p = up as int;
                lemma_trichotomy(before[p], before[hole]);
                assert forall|i: int| 1 <= i < s.len() && i != p implies le(
                    #[trigger] s[i],
                    s[(i - 1) / 2],
                ) by {
                    if i == hole {
                    } else if (i - 1) / 2 == hole {
                        assert(le(before[i], before[p]));
                    } else if (i - 1) / 2 == p {
                        assert(le(before[i], before[p]));
                        lemma_le_transitive(before[i], before[p], before[hole]);
                    } else {
                        assert(le(before[i], before[(i - 1) / 2]));
                    }
                }
                assert forall|i: int|
                    1 <= i < s.len() && (i - 1) / 2 == p && p >= 1 implies le(
                    #[trigger] s[i],
                    s[(p - 1) / 2],
                ) by {
                    assert(le(before[p], before[(p - 1) / 2]));
                    if i != hole {
                        assert(le(before[i], before[p]));
                        lemma_le_transitive(before[i], before[p], before[(p - 1) / 2]);
                    }
                }
            }
            pos = up;
        }
        proof {
            let s = self.data@;
            if pos != 0 {
                lemma_trichotomy(s[(pos - 1) / 2], s[pos as int]);
            }
            assert forall|i: int| 1 <= i < s.len() implies le(#[trigger] s[i], s[(i - 1) / 2]) by {
                if i == pos {
                }
            }
        }
    }

    /// Takes the greatest element out.
    pub fn pop(&mut self) -> (greatest: Option<T>)
        requires
            total_order::<T>(),
            old(self).wf(),
        ensures
            final(self).wf(),
            match greatest {
                Some(g) => old(self)@.contains(g) && final(self)@ == old(self)@.remove(g)
                    && forall|x: T| old(self)@.contains(x) ==> le(x, g),
                None => old(self)@.len() == 0 && final(self)@ == old(self)@,
            },
    {
        broadcast use to_multiset_build, to_multiset_update, to_multiset_contains, to_multiset_len;

        let ghost d = self.data@;
        let mut item = match self.data.pop() {
            Some(last) => last,
            None => {
                return None;
            },
        };
        let ghost rest = self.data@;
        proof {
            assert(d =~= rest.push(item));
            assert(d.to_multiset() =~= rest.to_multiset().insert(item));
            assert(d.contains(d[0]));
            assert forall|x: T| d.to_multiset().contains(x) implies le(x, d[0]) by {
                assert(d.contains(x));
                let i = choose|i: int| 0 <= i < d.len() && d[i] == x;
                lemma_first_is_greatest(d, i);
            }
        }
        if self.data.len() == 0 {
            proof {
                assert(rest.to_multiset() =~= d.to_multiset().remove(item));
            }
            return Some(item);
        }
        core::mem::swap(&mut item, &mut self.data[0]);
        proof {
            let s = self.data@;
            assert(s =~= rest.update(0, d[d.len() - 1]));
            assert(item == d[0]);
            assert(s.to_multiset() =~= d.to_multiset().remove(d[0]));
            assert forall|i: int| 1 <= i < s.len() && (i - 1) / 2 != 0 implies le(
                #[trigger] s[i],
                s[(i - 1) / 2],
            ) by {
                assert(le(d[i], d[(i - 1) / 2]));
            }
        }
        let mut pos: usize = 0;
        let end: usize = self.data.len();
        while pos < end / 2
            invariant
                total_order::<T>(),
                d.len() > 0,
                end == self.data.len(),
                pos < end,
                self.data@.to_multiset() == d.to_multiset().remove(d[0]),
                ordered_around(self.data@, pos as int),
            ensures
                d.len() > 0,
                self.data@.to_multiset() == d.to_multiset().remove(d[0]),
                heap_ordered(self.data@),
            decreases end - pos,
        {
            let left: usize = Self::left_son(pos);
            let right: usize = Self::right_son(pos);
            let mut t: usize = if less(&self.data[pos], &self.data[left]) {
                left
            } else {
                pos
            };
            if right < end && less(&self.data[t], &self.data[right]) {
                t = right;
            }
            let ghost before = self.data@;
            proof {
                lemma_trichotomy(before[pos as int], before[left as int]);
                if right < end {
                    lemma_trichotomy(before[pos as int], before[right as int]);
                    lemma_trichotomy(before[left as int], before[right as int]);
                    let (l, m, r) = (before[left as int], before[pos as int], before[right as int]);
                    if le(l, m) && le(m, r) {
                        lemma_le_transitive(l, m, r);
                    }
                    if le(r, m) && le(m, l) {
                        lemma_le_transitive(r, m, l);
                    }
                }
            }
            if t == pos {
                proof {
                    assert forall|i: int| 1 <= i < before.len() implies le(
                        #[trigger] before[i],
                        before[(i - 1) / 2],
                    ) by {
                        if (i - 1) / 2 == pos {
                            assert(i == left || i == right);
                        }
                    }
                }
                break ;
            }
            swap_places(&mut self.data, t, pos);
            proof {
                lemma_swap_keeps_multiset(before, t as int, pos as int);
                let s = self.data@;
                let hole = t as int;
                let p = pos as int;
                assert forall|i: int| 1 <= i < s.len() && (i - 1) / 2 != hole implies le(
                    #[trigger] s[i],
                    s[(i - 1) / 2],
                ) by {
                    if i == hole {
                    } else if (i - 1) / 2 == p {
                        assert(i == left || i == right);
                    } else if i == p {
                        assert(le(before[hole], before[(p - 1) / 2]));
                    } else {
                        assert(le(before[i], before[(i - 1) / 2]));
                    }
                }
                assert forall|i: int|
                    1 <= i < s.len() && (i - 1) / 2 == hole && hole >= 1 implies le(
                    #[trigger] s[i],
                    s[(hole - 1) / 2],
                ) by {
                    assert(le(before[i], before[(i - 1) / 2]));
                }
            }
            pos = t;
        }
        Some(item)
    }

    /// The greatest element, which `pop` would take out.
    pub fn top(&self) -> (greatest: Option<&T>)
        requires
            total_order::<T>(),
            self.wf(),
        ensures
            match greatest {
                Some(g) => self@.contains(*g) && forall|x: T| self@.contains(x) ==> le(x, *g),
                None => self@.len() == 0,
            },
    {
        broadcast use to_multiset_contains, to_multiset_len;

        if self.data.len() == 0 {
            None
        } else {
            proof {
                let s = self.data@;
                assert(s.contains(s[0]));
                assert forall|x: T| self@.contains(x) implies le(x, s[0]) by {
                    assert(s.contains(x));
                    let i = choose|i: int| 0 <= i < s.len() && s[i] == x;
                    lemma_first_is_greatest(s, i);
                }
            }
            Some(&self.data[0])
        }
    }
}

} // verus!
