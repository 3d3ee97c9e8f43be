//! An indexed binary min-heap: a binary heap augmented with a map from
//! element identity to its current array position, so that an arbitrary
//! element can be removed by identity in logarithmic time.

use std::collections::HashMap;
use vstd::multiset::Multiset;
use vstd::prelude::*;

verus! {

broadcast use vstd::seq_lib::group_to_multiset_ensures, vstd::std_specs::hash::group_hash_axioms, vstd::multiset::group_multiset_axioms;

/// Updating one position replaces that position's element in the multiset
/// of the sequence's elements.
proof fn lemma_update_to_multiset<T>(s: Seq<T>, i: int, x: T)
    requires
        0 <= i < s.len(),
    ensures
        s.update(i, x).to_multiset() == s.to_multiset().remove(s[i]).insert(x),
{
    let u = s.update(i, x);
    assert(u.remove(i) =~= s.remove(i));
    assert(u.to_multiset().remove(x) == s.to_multiset().remove(s[i]));
    assert(u.contains(x)) by {
        assert(u[i] == x);
    }
    assert(u.to_multiset().count(x) >= 1);
    assert(u.to_multiset() =~= u.to_multiset().remove(x).insert(x));
}

/// Swapping two positions of a sequence leaves the multiset of its
/// elements unchanged.
proof fn lemma_swap_to_multiset<T>(s: Seq<T>, a: int, b: int)
    requires
        0 <= a < s.len(),
        0 <= b < s.len(),
    ensures
        s.update(a, s[b]).update(b, s[a]).to_multiset() == s.to_multiset(),
{
    if a == b {
        assert(s.update(a, s[b]).update(b, s[a]) =~= s);
    } else {
        let u1 = s.update(a, s[b]);
        let u2 = u1.update(b, s[a]);
        lemma_update_to_multiset(s, a, s[b]);
        assert(u1[b] == s[b]);
        lemma_update_to_multiset(u1, b, s[a]);
        assert(s.contains(s[a]));
        assert(s.to_multiset().count(s[a]) >= 1);
        assert(u2.to_multiset() =~= s.to_multiset());
    }
}

/// Items stored in the heap expose a stable identity, used to find and
/// remove them by key.
pub trait Identity {
    /// The identity of the item, as a mathematical value.
    spec fn id(&self) -> usize;

    /// Returns the identity of the item.
    fn get_id(&self) -> (r: usize)
        ensures
            r == self.id(),
    ;
}

/// A total preorder on heap items: the order by which the heap ranks its
/// elements. Implementations must prove totality and transitivity; the
/// heap's minimality guarantees rest on those two laws. (Antisymmetry is
/// not required: distinct items may compare as equally ranked.)
pub trait HeapOrd: Sized {
    /// The ranking relation, as a mathematical predicate.
    spec fn le_spec(self, other: Self) -> bool;

    /// Totality: any two items are comparable.
    proof fn lemma_le_total(a: Self, b: Self)
        ensures
            a.le_spec(b) || b.le_spec(a),
    ;

    /// Transitivity of the ranking relation.
    proof fn lemma_le_trans(a: Self, b: Self, c: Self)
        requires
            a.le_spec(b),
            b.le_spec(c),
        ensures
            a.le_spec(c),
    ;

    /// Executable comparison, faithful to the ranking relation.
    fn ranks_le(&self, other: &Self) -> (r: bool)
        ensures
            r == self.le_spec(*other),
    ;
}

/// Parent position of a (0-based) heap array position.
pub open spec fn parent(i: int) -> int {
    (i - 1) / 2
}

/// The binary-heap ordering: every non-root position is ranked no lower
/// than its parent.
pub open spec fn heap_ordered<T: HeapOrd>(s: Seq<T>) -> bool {
    forall|i: int| 1 <= i < s.len() ==> s[parent(i)].le_spec(#[trigger] s[i])
}

/// An indexed binary min-heap over items with a stable identity.
/// `data` holds the heap array; `locations` maps each live item's
/// identity to its current position in `data`.
#[derive(Debug, Clone)]
pub struct Heap<T> {
    data: Vec<T>,
    locations: HashMap<usize, usize>,
}

impl<T: Identity + HeapOrd + Copy> Heap<T> {
    /// The live elements, as a multiset (the heap imposes no full order).
    pub closed spec fn contents(self) -> Multiset<T> {
        self.data@.to_multiset()
    }

    /// The identities of the live elements.
    pub closed spec fn id_set(self) -> Set<usize> {
        self.locations@.dom()
    }

    /// The position index is consistent with the heap array: each element's
    /// identity maps to its position, and each mapped identity names a real
    /// position holding an element of that identity.
    spec fn locs_ok(self) -> bool {
        &&& forall|i: int|
            0 <= i < self.data@.len() ==> {
                &&& self.locations@.contains_key((#[trigger] self.data@[i]).id())
                &&& self.locations@[self.data@[i].id()] == i
            }
        &&& forall|k: usize|
            #[trigger] self.locations@.contains_key(k) ==> {
                &&& self.locations@[k] < self.data@.len()
                &&& self.data@[self.locations@[k] as int].id() == k
            }
    }

    /// Well-formedness: the array is heap-ordered and the index is in sync.
    pub closed spec fn wf(self) -> bool {
        &&& heap_ordered(self.data@)
        &&& self.locs_ok()
    }

    /// Number of live elements.
    pub fn size(&self) -> (r: usize)
        ensures
            r == self.contents().len(),
    {
        self.data.len()
    }

    /// Whether the heap holds no elements.
    pub fn is_empty(&self) -> (r: bool)
        ensures
            r == (self.contents().len() == 0),
    {
        self.data.is_empty()
    }

    /// In a well-formed heap, identities are unique: each element is the
    /// only live one with its identity, occurs exactly once, and the live
    /// identities are exactly those of the live elements.
    pub proof fn lemma_ids_unique(self)
        requires
            self.wf(),
        ensures
            forall|a: T, b: T|
                self.contents().contains(a) && self.contents().contains(b) && a.id() == b.id()
                    ==> a == b,
            forall|a: T| self.contents().contains(a) ==> self.contents().count(a) == 1,
            forall|a: T| self.contents().contains(a) ==> self.id_set().contains(a.id()),
            forall|u: usize|
                self.id_set().contains(u) ==> exists|a: T|
                    self.contents().contains(a) && a.id() == u,
    {
        let s = self.data@;
        assert(s.no_duplicates()) by {
            assert forall|i: int, j: int|
                0 <= i < s.len() && 0 <= j < s.len() && i != j implies s[i] != s[j] by {
                assert(self.locations@[s[i].id()] == i && self.locations@[s[j].id()] == j);
            }
        }
        s.lemma_multiset_has_no_duplicates();
        assert forall|a: T, b: T|
            self.contents().contains(a) && self.contents().contains(b) && a.id()
                == b.id() implies a == b by {
            let i = choose|i: int| 0 <= i < s.len() && s[i] == a;
            let j = choose|j: int| 0 <= j < s.len() && s[j] == b;
            assert(self.locations@[s[i].id()] == i && self.locations@[s[j].id()] == j);
        }
        assert forall|a: T| self.contents().contains(a) implies self.id_set().contains(a.id()) by {
            let i = choose|i: int| 0 <= i < s.len() && s[i] == a;
            assert(self.locations@.contains_key(s[i].id()));
        }
        assert forall|u: usize| self.id_set().contains(u) implies exists|a: T|
            self.contents().contains(a) && a.id() == u by {
            let i = self.locations@[u] as int;
            assert(s[i].id() == u);
            assert(s.contains(s[i]));
            assert(self.contents().contains(s[i]) && s[i].id() == u);
        }
    }

    /// Whether an element with the given identity is live in the heap.
    pub fn contains_id(&self, id: &usize) -> (r: bool)
        ensures
            r == self.id_set().contains(*id),
    {
        self.locations.contains_key(id)
    }
}

/// The binary-heap ordering everywhere except at the edge from `p`'s
/// parent down to `p` (the position being bubbled up).
spec fn heap_except_up<T: HeapOrd>(s: Seq<T>, p: int) -> bool {
    forall|i: int| 1 <= i < s.len() && i != p ==> s[parent(i)].le_spec(#[trigger] s[i])
}

/// While bubbling up at `p`, `p`'s own parent already ranks no higher
/// than `p`'s children, so a swap with the parent keeps them ordered.
spec fn up_extra<T: HeapOrd>(s: Seq<T>, p: int) -> bool {
    p >= 1 ==> forall|i: int|
        1 <= i < s.len() && parent(i) == p ==> s[parent(p)].le_spec(#[trigger] s[i])
}

impl<T: Identity + HeapOrd + Copy> Heap<T> {
    /// Swaps the elements at two positions and updates both entries of the
    /// position index, keeping array and index in sync.
    fn swap_elements(&mut self, a_index: usize, b_index: usize)
        requires
            old(self).locs_ok(),
            a_index < old(self).data@.len(),
            b_index < old(self).data@.len(),
        ensures
            final(self).locs_ok(),
            final(self).data@ == old(self).data@.update(
                a_index as int,
                old(self).data@[b_index as int],
            ).update(b_index as int, old(self).data@[a_index as int]),
            final(self).data@.to_multiset() == old(self).data@.to_multiset(),
            final(self).locations@.dom() == old(self).locations@.dom(),
    {
        proof {
            lemma_swap_to_multiset(self.data@, a_index as int, b_index as int);
        }
        let va = self.data[a_index];
        let vb = self.data[b_index];
        self.data[a_index] = vb;
        self.data[b_index] = va;
        let id_a = self.data[a_index].get_id();
        self.locations.insert(id_a, a_index);
        let id_b = self.data[b_index].get_id();
        self.locations.insert(id_b, b_index);
        proof {
            assert(final(self).locations@.dom() =~= old(self).locations@.dom());
        }
    }

    /// Restores the heap ordering by swapping the element at the given
    /// (1-based) position with its parent while the parent ranks higher.
    fn bubble_up(&mut self, checked_pos: usize)
        requires
            old(self).locs_ok(),
            1 <= checked_pos <= old(self).data@.len(),
            heap_except_up(old(self).data@, checked_pos - 1),
            up_extra(old(self).data@, checked_pos - 1),
        ensures
            final(self).locs_ok(),
            heap_ordered(final(self).data@),
            final(self).data@.len() == old(self).data@.len(),
            final(self).data@.to_multiset() == old(self).data@.to_multiset(),
            final(self).locations@.dom() == old(self).locations@.dom(),
        decreases checked_pos,
    {
        if checked_pos <= 1 {
            return ;
        }
        let parent_pos = checked_pos / 2;
        let ghost s = self.data@;
        let ghost p = checked_pos - 1 as int;
        let ghost q = parent_pos - 1 as int;
        proof {
            assert(q == parent(p));
        }
        if self.data[parent_pos - 1].ranks_le(&self.data[checked_pos - 1]) {
            return ;
        }
        proof {
            T::lemma_le_total(s[q], s[p]);
        }
        self.swap_elements(parent_pos - 1, checked_pos - 1);
        let ghost t = self.data@;
        proof {
            assert forall|i: int| 1 <= i < t.len() && i != q implies t[parent(i)].le_spec(
                #[trigger] t[i],
            ) by {
                if i == p {
                    // the swapped edge itself, now ordered by totality
                } else if parent(i) == p {
                    // a child of p now sits under p's old parent value
                    assert(s[parent(p)].le_spec(s[i]));
                } else if parent(i) == q {
                    // a sibling of p: old parent value moved down to p
                    T::lemma_le_trans(t[q], s[q], s[i]);
                } else {
                    assert(t[parent(i)] == s[parent(i)] && t[i] == s[i]);
                }
            }
            assert(heap_except_up(t, q));
            if q >= 1 {
                assert forall|i: int| 1 <= i < t.len() && parent(i) == q implies t[parent(
                    q,
                )].le_spec(#[trigger] t[i]) by {
                    if i == p {
                        assert(t[i] == s[q]);
                        assert(s[parent(q)].le_spec(s[q]));
                    } else {
                        assert(t[i] == s[i]);
                        assert(s[q].le_spec(s[i]));
                        T::lemma_le_trans(s[parent(q)], s[q], s[i]);
                    }
                }
            }
            assert(up_extra(t, q));
        }
        self.bubble_up(parent_pos);
    }

    /// Adds an item to the heap. The caller must guarantee that the item's
    /// identity is not already live in the heap.
    pub fn insert(&mut self, item: T)
        requires
            old(self).wf(),
            !old(self).id_set().contains(item.id()),
            old(self).contents().len() < usize::MAX,
        ensures
            final(self).wf(),
            final(self).contents() == old(self).contents().insert(item),
            final(self).id_set() == old(self).id_set().insert(item.id()),
    {
        let new_item_id = item.get_id();
        self.data.push(item);
        let pos = self.data.len() - 1;
        self.locations.insert(new_item_id, pos);
        proof {
            let s = self.data@;
            let p = pos as int;
            assert forall|i: int| 0 <= i < s.len() implies {
                &&& self.locations@.contains_key((#[trigger] s[i]).id())
                &&& self.locations@[s[i].id()] == i
            } by {
                if i < p {
                    assert(old(self).data@[i] == s[i]);
                    assert(s[i].id() != item.id());
                }
            }
            assert(self.locs_ok());
            assert(heap_except_up(s, p)) by {
                assert forall|i: int| 1 <= i < s.len() && i != p implies s[parent(i)].le_spec(
                    #[trigger] s[i],
                ) by {
                    assert(s[i] == old(self).data@[i]);
                    assert(s[parent(i)] == old(self).data@[parent(i)]);
                }
            }
            assert(up_extra(s, p)) by {
                assert forall|i: int| 1 <= i < s.len() && parent(i) == p implies false by {
                    assert(i >= 2 * p + 1);
                }
            }
            assert(self.id_set() =~= old(self).id_set().insert(item.id()));
        }
        self.bubble_up(pos + 1);
    }
}

/// The binary-heap ordering everywhere except at the edges from `p` down
/// to `p`'s children (the position being bubbled down).
spec fn heap_except_down<T: HeapOrd>(s: Seq<T>, p: int) -> bool {
    forall|i: int| 1 <= i < s.len() && parent(i) != p ==> s[parent(i)].le_spec(#[trigger] s[i])
}

/// While bubbling down at `p`, `p`'s own parent already ranks no higher
/// than `p`'s children, so a swap with a child keeps them ordered.
spec fn down_extra<T: HeapOrd>(s: Seq<T>, p: int) -> bool {
    p >= 1 ==> forall|i: int|
        1 <= i < s.len() && parent(i) == p ==> s[parent(p)].le_spec(#[trigger] s[i])
}

impl<T: Identity + HeapOrd + Copy> Heap<T> {
    /// In a heap-ordered array the root ranks no higher than any element.
    proof fn lemma_root_le(s: Seq<T>, i: int)
        requires
            heap_ordered(s),
            0 <= i < s.len(),
        ensures
            s[0].le_spec(s[i]),
        decreases i,
    {
        if i == 0 {
            T::lemma_le_total(s[0], s[0]);
        } else {
            Self::lemma_root_le(s, parent(i));
            T::lemma_le_trans(s[0], s[parent(i)], s[i]);
        }
    }

    /// Restores the heap ordering by swapping the element at the given
    /// (1-based) position with the lower-ranked of its children while one
    /// of them ranks below it; on a tie between children the left child
    /// is chosen, keeping the procedure deterministic.
    fn bubble_down(&mut self, checked_pos: usize)
        requires
            old(self).locs_ok(),
            1 <= checked_pos <= old(self).data@.len(),
            heap_except_down(old(self).data@, checked_pos - 1),
            down_extra(old(self).data@, checked_pos - 1),
        ensures
            final(self).locs_ok(),
            heap_ordered(final(self).data@),
            final(self).data@.len() == old(self).data@.len(),
            final(self).data@.to_multiset() == old(self).data@.to_multiset(),
            final(self).locations@.dom() == old(self).locations@.dom(),
        decreases old(self).data@.len() - checked_pos,
    {
        let len = self.data.len();
        let ghost s = self.data@;
        let ghost p = checked_pos - 1 as int;
        if checked_pos > len / 2 {
            // no children: every non-exempt edge holds, and the exempt
            // edges do not exist
            proof {
                assert forall|i: int| 1 <= i < s.len() implies s[parent(i)].le_spec(
                    #[trigger] s[i],
                ) by {
                    assert(parent(i) != p) by {
                        if parent(i) == p {
                            assert(i >= 2 * p + 1);
                        }
                    }
                }
            }
            return ;
        }
        let li = 2 * checked_pos - 1;
        let ri = 2 * checked_pos;
        proof {
            assert(li < len);
            assert(parent(li as int) == p);
            assert(ri < len ==> parent(ri as int) == p);
        }
        let mut ci = li;
        if ri < len && !self.data[li].ranks_le(&self.data[ri]) {
            proof {
                T::lemma_le_total(s[li as int], s[ri as int]);
            }
            ci = ri;
        }
        let ghost c = ci as int;
        proof {
            // the chosen child ranks no higher than the other child
            if ri < len {
                if c == ri {
                    assert(s[c].le_spec(s[li as int]));
                } else {
                    assert(s[c].le_spec(s[ri as int]));
                }
            }
        }
        if self.data[checked_pos - 1].ranks_le(&self.data[ci]) {
            proof {
                assert forall|i: int| 1 <= i < s.len() implies s[parent(i)].le_spec(
                    #[trigger] s[i],
                ) by {
                    if parent(i) == p {
                        assert(i == li as int || i == ri as int);
                        if i != c {
                            T::lemma_le_trans(s[p], s[c], s[i]);
                        }
                    }
                }
            }
            return ;
        }
        proof {
            T::lemma_le_total(s[p], s[c]);
        }
        self.swap_elements(checked_pos - 1, ci);
        let ghost t = self.data@;
        proof {
            assert forall|i: int| 1 <= i < t.len() && parent(i) != c implies t[parent(i)].le_spec(
                #[trigger] t[i],
            ) by {
                if i == c {
                    // the swapped edge itself: the chosen child moved up
                } else if parent(i) == p {
                    // the other child of p, above which the chosen child now sits
                    assert(t[parent(i)] == s[c] && t[i] == s[i]);
                    assert(i == li as int || i == ri as int);
                } else if i == p {
                    // p itself, now holding the child value, under p's parent
                    assert(p >= 1);
                    assert(t[parent(p)] == s[parent(p)] && t[i] == s[c]);
                    assert(s[parent(p)].le_spec(s[c]));
                } else {
                    assert(t[parent(i)] == s[parent(i)] && t[i] == s[i]);
                }
            }
            assert(heap_except_down(t, c));
            assert forall|i: int| 1 <= i < t.len() && parent(i) == c implies t[parent(c)].le_spec(
                #[trigger] t[i],
            ) by {
                assert(t[i] == s[i]);
                assert(t[parent(c)] == t[p] && t[p] == s[c]);
                assert(s[c].le_spec(s[i]));
            }
            assert(down_extra(t, c));
        }
        self.bubble_down(ci + 1);
    }

    /// Removes and returns the last element of the heap array, dropping
    /// its identity from the position index.
    fn pop_last(&mut self) -> (r: Option<T>)
        requires
            old(self).locs_ok(),
            old(self).data@.len() > 0,
        ensures
            final(self).locs_ok(),
            r == Some(old(self).data@.last()),
            final(self).data@ == old(self).data@.drop_last(),
            final(self).data@.to_multiset() == old(self).data@.to_multiset().remove(
                old(self).data@.last(),
            ),
            final(self).locations@.dom() == old(self).locations@.dom().remove(
                old(self).data@.last().id(),
            ),
    {
        let ghost s = self.data@;
        let ans = self.data.pop();
        if let Some(v) = &ans {
            let id = v.get_id();
            self.locations.remove(&id);
        }
        proof {
            assert(s.drop_last() =~= s.remove(s.len() - 1));
            assert(final(self).locations@.dom() =~= old(self).locations@.dom().remove(
                s.last().id(),
            ));
        }
        ans
    }

    /// Removes and returns a lowest-ranked element, or `None` when the
    /// heap is empty. The returned element ranks no higher than anything
    /// the heap held.
    pub fn extract_min(&mut self) -> (r: Option<T>)
        requires
            old(self).wf(),
        ensures
            final(self).wf(),
            match r {
                None => {
                    &&& old(self).contents().len() == 0
                    &&& final(self).contents() == old(self).contents()
                    &&& final(self).id_set() == old(self).id_set()
                },
                Some(m) => {
                    &&& old(self).contents().contains(m)
                    &&& final(self).contents() == old(self).contents().remove(m)
                    &&& final(self).id_set() == old(self).id_set().remove(m.id())
                    &&& forall|x: T| old(self).contents().contains(x) ==> m.le_spec(x)
                },
            },
    {
        if self.data.len() == 0 {
            None
        } else {
            let ghost s = self.data@;
            proof {
                assert forall|x: T| old(self).contents().contains(x) implies s[0].le_spec(x) by {
                    assert(s.contains(x));
                    let i = choose|i: int| 0 <= i < s.len() && s[i] == x;
                    Self::lemma_root_le(s, i);
                }
            }
            let last = self.data.len() - 1;
            self.swap_elements(0, last);
            let ans = self.pop_last();
            proof {
                assert(self.data@ =~= if s.len() == 1 {
                    Seq::<T>::empty()
                } else {
                    s.update(0, s.last()).drop_last()
                });
            }
            if self.data.len() > 0 {
                proof {
                    let t = self.data@;
                    assert forall|i: int| 1 <= i < t.len() && parent(i) != 0 implies t[parent(
                        i,
                    )].le_spec(#[trigger] t[i]) by {
                        assert(t[parent(i)] == s[parent(i)] && t[i] == s[i]);
                    }
                    assert(heap_except_down(t, 0));
                }
                self.bubble_down(1);
            }
            proof {
                assert(self.contents() =~= old(self).contents().remove(s[0]));
            }
            ans
        }
    }

    /// Removes and returns the element with the given identity, or `None`
    /// when no live element has it. The vacated position is repaired in
    /// both directions, bubbling the replacement up or down as its rank
    /// demands.
    pub fn delete_by_id(&mut self, id: usize) -> (r: Option<T>)
        requires
            old(self).wf(),
        ensures
            final(self).wf(),
            match r {
                None => {
                    &&& !old(self).id_set().contains(id)
                    &&& final(self).contents() == old(self).contents()
                    &&& final(self).id_set() == old(self).id_set()
                },
                Some(x) => {
                    &&& x.id() == id
                    &&& old(self).contents().contains(x)
                    &&& final(self).contents() == old(self).contents().remove(x)
                    &&& final(self).id_set() == old(self).id_set().remove(id)
                },
            },
    {
        let pos_opt = match self.locations.get(&id) {
            Some(p) => Some(*p),
            None => None,
        };
        match pos_opt {
            None => None,
            Some(i) => {
                let ghost s = self.data@;
                proof {
                    assert(s.contains(s[i as int])) by {
                        assert(s[i as int] == s[i as int]);
                    }
                }
                let last = self.data.len() - 1;
                self.swap_elements(i, last);
                let ans = self.pop_last();
                proof {
                    assert(self.data@ =~= if i as int == s.len() - 1 {
                        s.drop_last()
                    } else {
                        s.update(i as int, s.last()).drop_last()
                    });
                }
                if i < self.data.len() {
                    let ghost t = self.data@;
                    let ghost p = i as int;
                    proof {
                        // away from position i the old ordering is intact
                        assert forall|j: int|
                            1 <= j < t.len() && j != p && parent(j) != p implies t[parent(
                            j,
                        )].le_spec(#[trigger] t[j]) by {
                            assert(t[parent(j)] == s[parent(j)] && t[j] == s[j]);
                        }
                    }
                    let repair_up = i > 0 && !self.data[(i + 1) / 2 - 1].ranks_le(&self.data[i]);
                    if repair_up {
                        proof {
                            let q = parent(p);
                            assert(q == (p + 1) / 2 - 1);
                            T::lemma_le_total(t[q], t[p]);
                            // the replacement came from below the deleted
                            // element, so it still ranks under p's children
                            assert forall|j: int|
                                1 <= j < t.len() && parent(j) == p implies t[parent(j)].le_spec(
                                #[trigger] t[j],
                            ) by {
                                assert(t[j] == s[j]);
                                assert(s[p].le_spec(s[j]));
                                assert(s.len() >= 2);
                                Self::lemma_root_le(s, s.len() - 1);
                                T::lemma_le_trans(t[p], t[q], s[p]);
                                T::lemma_le_trans(t[p], s[p], s[j]);
                            }
                            assert(heap_except_up(t, p));
                            assert forall|j: int|
                                1 <= j < t.len() && parent(j) == p implies t[parent(p)].le_spec(
                                #[trigger] t[j],
                            ) by {
                                assert(t[j] == s[j]);
                                assert(t[parent(p)] == s[parent(p)]);
                                assert(s[parent(p)].le_spec(s[p]));
                                assert(s[p].le_spec(s[j]));
                                T::lemma_le_trans(s[parent(p)], s[p], s[j]);
                            }
                            assert(up_extra(t, p));
                        }
                        self.bubble_up(i + 1);
                    } else {
                        proof {
                            assert(heap_except_down(t, p));
                            if p >= 1 {
                                assert(t[parent(p)].le_spec(t[p]));
                                assert forall|j: int|
                                    1 <= j < t.len() && parent(j) == p implies t[parent(
                                    p,
                                )].le_spec(#[trigger] t[j]) by {
                                    assert(t[j] == s[j]);
                                    assert(t[parent(p)] == s[parent(p)]);
                                    assert(s[parent(p)].le_spec(s[p]));
                                    assert(s[p].le_spec(s[j]));
                                    T::lemma_le_trans(s[parent(p)], s[p], s[j]);
                                }
                            }
                            assert(down_extra(t, p));
                        }
                        self.bubble_down(i + 1);
                    }
                }
                proof {
                    assert(self.contents() =~= old(self).contents().remove(s[i as int]));
                    assert(self.id_set() =~= old(self).id_set().remove(id));
                }
                ans
            },
        }
    }
}

impl<T: Identity + HeapOrd + Copy> Heap<T> {
    /// Heap-sort law: repeatedly extracting the minimum until the heap is
    /// empty yields exactly the heap's elements, in ascending rank order.
    pub fn extract_all(&mut self) -> (r: Vec<T>)
        requires
            old(self).wf(),
        ensures
            final(self).wf(),
            final(self).contents().len() == 0,
            r@.to_multiset() == old(self).contents(),
            forall|i: int, j: int|
                #![trigger r@[i], r@[j]]
                0 <= i <= j < r@.len() ==> r@[i].le_spec(r@[j]),
    {
        let mut out: Vec<T> = Vec::new();
        proof {
            assert(out@.to_multiset().add(self.contents()) =~= old(self).contents());
        }
        while !self.is_empty()
            invariant
                self.wf(),
                out@.to_multiset().add(self.contents()) == old(self).contents(),
                forall|i: int, j: int|
                    #![trigger out@[i], out@[j]]
                    0 <= i <= j < out@.len() ==> out@[i].le_spec(out@[j]),
                forall|i: int, x: T|
                    #![trigger out@[i].le_spec(x)]
                    0 <= i < out@.len() && self.contents().contains(x) ==> out@[i].le_spec(x),
            decreases self.contents().len(),
        {
            let ghost pre = *self;
            let ghost out_pre = out@;
            let m_opt = self.extract_min();
            if let Some(m) = m_opt {
                out.push(m);
                proof {
                    assert(out@.to_multiset().add(self.contents()) =~= old(self).contents())
                        by {
                        assert(out@.to_multiset() =~= out_pre.to_multiset().insert(m));
                        assert(pre.contents().contains(m));
                        assert(out@.to_multiset().add(self.contents()) =~= out_pre.to_multiset()
                            .insert(m).add(pre.contents().remove(m)));
                    }
                    assert forall|i: int, j: int|
                        #![trigger out@[i], out@[j]]
                        0 <= i <= j < out@.len() implies out@[i].le_spec(out@[j]) by {
                        if j == out@.len() - 1 {
                            if i < j {
                                assert(out_pre[i].le_spec(m));
                            } else {
                                T::lemma_le_total(m, m);
                            }
                        }
                    }
                    assert forall|i: int, x: T|
                        #![trigger out@[i].le_spec(x)]
                        0 <= i < out@.len() && self.contents().contains(x) implies out@[i].le_spec(
                        x,
                    ) by {
                        assert(pre.contents().contains(x));
                    }
                }
            }
        }
        out
    }
}

/// Ordering law for interleaved operations: once a minimum `m1` has been
/// extracted, as long as every element inserted afterwards ranks at least
/// `m1`, any later extracted minimum `m2` also ranks at least `m1` — the
/// stream of extracted minimums never decreases.
///
/// `c1` is the heap's contents at the first extraction; `c2` any later
/// contents reachable from `c1.remove(m1)` by such insertions and by
/// removals.
pub proof fn lemma_min_monotone<T: Identity + HeapOrd + Copy>(
    c1: Multiset<T>,
    c2: Multiset<T>,
    m1: T,
    m2: T,
)
    requires
        c1.contains(m1),
        forall|x: T| c1.contains(x) ==> m1.le_spec(x),
        forall|x: T| c2.contains(x) ==> c1.remove(m1).contains(x) || m1.le_spec(x),
        c2.contains(m2),
    ensures
        m1.le_spec(m2),
{
    if c1.remove(m1).contains(m2) {
        assert(c1.contains(m2));
    }
}

impl<T: Identity + HeapOrd + Copy> Default for Heap<T> {
    /// An empty heap.
    fn default() -> (h: Self)
        ensures
            h.wf(),
            h.contents() == Multiset::<T>::empty(),
            h.id_set() == Set::<usize>::empty(),
    {
        let h = Heap { data: Vec::new(), locations: HashMap::new() };
        proof {
            assert(h.contents() =~= Multiset::<T>::empty());
            assert(h.id_set() =~= Set::<usize>::empty());
        }
        h
    }
}

} // verus!
