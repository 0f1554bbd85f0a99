//! [Frontier]: the priority queue of a shortest-route search, a binary min-heap ordered by
//! cost.
use vstd::multiset::Multiset;
use vstd::prelude::*;

use crate::dijkstra_node::DijkstraNode;

verus! {

broadcast use vstd::seq_lib::group_to_multiset_ensures;

/// Every entry costs no less than its parent entry.
pub open spec fn heap_ordered(s: Seq<DijkstraNode>) -> bool {
    forall|j: int| #![trigger s[j]] 0 < j < s.len() ==> s[(j - 1) / 2].cost <= s[j].cost
}

/// Heap order holds except for the entry at `i` and its parent; the parent of `i`, if
/// any, costs no more than the children of `i`.
spec fn ordered_above(s: Seq<DijkstraNode>, i: int) -> bool {
    &&& forall|j: int| #![trigger s[j]] 0 < j < s.len() && j != i ==> s[(j - 1) / 2].cost <= s[j].cost
    &&& i > 0 ==> forall|c: int|
        #![trigger s[c]]
        0 < c < s.len() && (c - 1) / 2 == i ==> s[(i - 1) / 2].cost <= s[c].cost
}

/// Heap order holds except between the entry at `i` and its children; the parent of `i`,
/// if any, costs no more than the children of `i`.
spec fn ordered_below(s: Seq<DijkstraNode>, i: int) -> bool {
    &&& forall|j: int| #![trigger s[j]] 0 < j < s.len() && (j - 1) / 2 != i ==> s[(j - 1) / 2].cost <= s[j].cost
    &&& i > 0 ==> forall|c: int|
        #![trigger s[c]]
        0 < c < s.len() && (c - 1) / 2 == i ==> s[(i - 1) / 2].cost <= s[c].cost
}

proof fn lemma_root_is_min(s: Seq<DijkstraNode>, j: int)
    requires
        heap_ordered(s),
        0 <= j < s.len(),
    ensures
        s[0].cost <= s[j].cost,
    decreases j,
{
    if j > 0 {
        lemma_root_is_min(s, (j - 1) / 2);
    }
}

proof fn lemma_swap_multiset(s: Seq<DijkstraNode>, i: int, j: int)
    requires
        0 <= i < s.len(),
        0 <= j < s.len(),
    ensures
        s.update(i, s[j]).update(j, s[i]).to_multiset() == s.to_multiset(),
{
    broadcast use vstd::multiset::group_multiset_axioms;

    let s1 = s.update(i, s[j]);
    assert(s1.to_multiset() == s.to_multiset().insert(s[j]).remove(s[i]));
    assert(s1[j] == if i == j { s[j] } else { s[j] });
    assert(s1.update(j, s[i]).to_multiset() == s1.to_multiset().insert(s[i]).remove(s1[j]));
    assert(s1.update(j, s[i]).to_multiset() =~= s.to_multiset());
}

/// A priority queue of search entries: the entry with the smallest cost leaves first.
pub struct Frontier {
    items: Vec<DijkstraNode>,
}

impl View for Frontier {
    type V = Multiset<DijkstraNode>;

    closed spec fn view(&self) -> Multiset<DijkstraNode> {
        self.items@.to_multiset()
    }
}

impl Frontier {
    /// The entries are kept in heap order.
    pub closed spec fn wf(&self) -> bool {
        heap_ordered(self.items@)
    }

    /// An empty frontier.
    pub fn new() -> (f: Self)
        ensures
            f.wf(),
            f@ == Multiset::<DijkstraNode>::empty(),
    {
        let f = Frontier { items: Vec::new() };
        proof {
            broadcast use vstd::multiset::group_multiset_axioms;

            assert(f.items@ =~= Seq::<DijkstraNode>::empty());
            assert(f@ =~= Multiset::<DijkstraNode>::empty());
        }
        f
    }

    /// The number of entries.
    pub fn len(&self) -> (n: usize)
        ensures
            n == self@.len(),
    {
        self.items.len()
    }

    /// Adds an entry.
    pub fn push(&mut self, e: DijkstraNode)
        requires
            old(self).wf(),
        ensures
            final(self).wf(),
            final(self)@ == old(self)@.insert(e),
    {
        self.items.push(e);
        let mut i: usize = self.items.len() - 1;
        proof {
            assert(self.items@ == old(self).items@.push(e));
        }
        while i > 0
            invariant
                i < self.items@.len(),
                ordered_above(self.items@, i as int),
                self.items@.to_multiset() == old(self).items@.push(e).to_multiset(),
            ensures
                heap_ordered(self.items@),
                self.items@.to_multiset() == old(self).items@.push(e).to_multiset(),
            decreases i,
        {
            let p: usize = (i - 1) / 2;
            if !self.items[i].has_priority_over(&self.items[p]) {
                proof {
                    assert(heap_ordered(self.items@));
                }
                break;
            }
            let ghost s = self.items@;
            let at_p = self.items[p];
            let at_i = self.items[i];
            self.items.set(p, at_i);
            self.items.set(i, at_p);
            proof {
                lemma_swap_multiset(s, p as int, i as int);
                assert(self.items@ == s.update(p as int, s[i as int]).update(i as int, s[p as int]));
                let s2 = self.items@;
                assert forall|j: int| #![trigger s2[j]] 0 < j < s2.len() && j != p implies s2[(j - 1) / 2].cost
                    <= s2[j].cost by {
                    if j == i {
                    } else if (j - 1) / 2 == i {
                        assert(s[(j - 1) / 2] == s[i as int]);
                        assert(s[j].cost >= s[(i - 1) / 2].cost);
                    } else if (j - 1) / 2 == p {
                        assert(s[j].cost >= s[p as int].cost);
                    } else {
                        assert(s2[j] == s[j]);
                        assert(s[j].cost >= s[(j - 1) / 2].cost);
                    }
                }
                if p > 0 {
                    assert(s[p as int].cost >= s[(p - 1) / 2].cost);
                    assert forall|c: int| #![trigger s2[c]] 0 < c < s2.len() && (c - 1) / 2 == p implies s2[(p
                        - 1) / 2].cost <= s2[c].cost by {
                        if c != i {
                            assert(s[c].cost >= s[p as int].cost);
                        }
                    }
                }
            }
            i = p;
        }
        proof {
            assert(heap_ordered(self.items@));
        }
    }

    /// Takes out an entry of smallest cost; `None` when the frontier is empty.
    pub fn pop(&mut self) -> (r: Option<DijkstraNode>)
        requires
            old(self).wf(),
        ensures
            final(self).wf(),
            old(self)@.len() == 0 ==> r is None && final(self)@ == old(self)@,
            old(self)@.len() > 0 ==> (r matches Some(e) && old(self)@.contains(e) && final(self)@ == old(
                self,
            )@.remove(e) && forall|x: DijkstraNode| #[trigger] old(self)@.contains(x) ==> e.cost <= x.cost),
    {
        broadcast use vstd::multiset::group_multiset_axioms;

        let n: usize = self.items.len();
        if n == 0 {
            return None;
        }
        let ghost s0 = self.items@;
        proof {
            assert forall|x: DijkstraNode| #[trigger] old(self)@.contains(x) implies s0[0].cost <= x.cost by {
                assert(s0.contains(x));
                let k = choose|k: int| 0 <= k < s0.len() && s0[k] == x;
                lemma_root_is_min(s0, k);
            }
            assert(s0.contains(s0[0]));
        }
        let top: DijkstraNode = self.items[0];
        let last: DijkstraNode = self.items.pop().unwrap();
        proof {
            assert(s0 =~= self.items@.push(last));
        }
        if self.items.len() == 0 {
            proof {
                assert(s0 =~= seq![top]);
                assert(self.items@.to_multiset() =~= s0.to_multiset().remove(top));
            }
            return Some(top);
        }
        self.items.set(0, last);
        proof {
            assert(self.items@ == s0.drop_last().update(0, last));
            assert(s0.drop_last().update(0, last).to_multiset() == s0.drop_last().to_multiset().insert(last).remove(
                s0[0],
            ));
            assert(s0.drop_last().to_multiset().insert(last) =~= s0.to_multiset());
            let s1 = self.items@;
            assert forall|j: int| #![trigger s1[j]] 0 < j < s1.len() && (j - 1) / 2 != 0 implies s1[(j - 1)
                / 2].cost <= s1[j].cost by {
                assert(s1[j] == s0[j]);
                assert(s1[(j - 1) / 2] == s0[(j - 1) / 2]);
            }
        }
        let len: usize = self.items.len();
        let mut i: usize = 0;
        while i < len
            invariant
                len == self.items@.len(),
                len > 0,
                i < len,
                ordered_below(self.items@, i as int),
                self.items@.to_multiset() == s0.to_multiset().remove(top),
            ensures
                heap_ordered(self.items@),
                self.items@.to_multiset() == s0.to_multiset().remove(top),
            decreases len - i,
        {
            if len < 2 || i > (len - 2) / 2 {
                proof {
                    assert(heap_ordered(self.items@));
                }
                break;
            }
            let l: usize = 2 * i + 1;
            let r: usize = l + 1;
            let m: usize = if r < len && self.items[r].has_priority_over(&self.items[l]) { r } else { l };
            if !self.items[m].has_priority_over(&self.items[i]) {
                proof {
                    assert(heap_ordered(self.items@));
                }
                break;
            }
            let ghost s = self.items@;
            let at_i = self.items[i];
            let at_m = self.items[m];
            self.items.set(i, at_m);
            self.items.set(m, at_i);
            proof {
                lemma_swap_multiset(s, i as int, m as int);
                assert(self.items@ == s.update(i as int, s[m as int]).update(m as int, s[i as int]));
                let s2 = self.items@;
                assert forall|j: int| #![trigger s2[j]] 0 < j < s2.len() && (j - 1) / 2 != m implies s2[(j - 1)
                    / 2].cost <= s2[j].cost by {
                    if j == m {
                    } else if (j - 1) / 2 == i {
                        assert(s2[j] == s[j]);
                    } else if j == i {
                        assert(s[m as int].cost >= s[(i - 1) / 2].cost);
                    } else {
                        assert(s2[j] == s[j]);
                        assert(s[j].cost >= s[(j - 1) / 2].cost);
                    }
                }
                assert forall|c: int| #![trigger s2[c]] 0 < c < s2.len() && (c - 1) / 2 == m implies s2[(m - 1)
                    / 2].cost <= s2[c].cost by {
                    assert(s2[c] == s[c]);
                    assert(s[c].cost >= s[m as int].cost);
                }
            }
            i = m;
        }
        proof {
            assert(heap_ordered(self.items@));
        }
        Some(top)
    }
}

} // verus!
