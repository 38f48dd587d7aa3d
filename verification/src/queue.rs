//! The nodes that a search has yet to look at, cheapest first.

use crate::graph::{NodeId, NodeKey};
use vstd::multiset::Multiset;
use vstd::prelude::*;

verus! {

/// A bag of nodes, each with a cost, that gives out a cheapest one first.
/// It is kept as a binary heap: no entry is cheaper than the one above it.
pub struct MinQueue {
    entries: Vec<(u32, NodeId)>,
}

/// What an entry stands for in contracts.
pub open spec fn entry_view(entry: (u32, NodeId)) -> (u32, NodeKey) {
    (entry.0, entry.1@)
}

/// The entries as contracts see them, in the order in which they are kept.
spec fn views(entries: Seq<(u32, NodeId)>) -> Seq<(u32, NodeKey)> {
    entries.map_values(|e: (u32, NodeId)| entry_view(e))
}

/// The place above place `i`.
spec fn above(i: int) -> int {
    (i - 1) / 2
}

/// No entry is cheaper than the one above it, but perhaps the entries just
/// below place `hole`, which then are no cheaper than the one above `hole`.
spec fn heap_but_below(entries: Seq<(u32, NodeId)>, hole: int) -> bool {
    &&& forall|i: int|
        1 <= i < entries.len() && above(i) != hole ==> entries[above(i)].0 <= (
        #[trigger] entries[i]).0
    &&& forall|i: int|
        1 <= i < entries.len() && above(i) == hole && hole > 0 ==> entries[above(hole)].0 <= (
        #[trigger] entries[i]).0
}

/// No entry is cheaper than the one above it, but perhaps the entry at
/// place `hole`; the entries just below it are no cheaper than the one
/// above it.
spec fn heap_but_at(entries: Seq<(u32, NodeId)>, hole: int) -> bool {
    &&& forall|i: int|
        1 <= i < entries.len() && i != hole ==> entries[above(i)].0 <= (#[trigger] entries[i]).0
    &&& forall|i: int|
        1 <= i < entries.len() && above(i) == hole && hole > 0 ==> entries[above(hole)].0 <= (
        #[trigger] entries[i]).0
}

/// No entry is cheaper than the one above it.
spec fn is_heap(entries: Seq<(u32, NodeId)>) -> bool {
    forall|i: int| 1 <= i < entries.len() ==> entries[above(i)].0 <= (#[trigger] entries[i]).0
}

/// In a heap no entry is cheaper than the first.
proof fn lemma_first_is_least(entries: Seq<(u32, NodeId)>, i: int)
    requires
        is_heap(entries),
        0 <= i < entries.len(),
    ensures
        entries[0].0 <= entries[i].0,
    decreases i,
{
    if i > 0 {
        lemma_first_is_least(entries, above(i));
    }
}

/// Exchanging two entries keeps the bag.
proof fn lemma_exchange_keeps_bag(entries: Seq<(u32, NodeId)>, i: int, j: int)
    requires
        0 <= i < entries.len(),
        0 <= j < entries.len(),
    ensures
        views(entries.update(i, entries[j]).update(j, entries[i])).to_multiset() == views(
            entries,
        ).to_multiset(),
{
    broadcast use vstd::seq_lib::group_to_multiset_ensures;

    let v = views(entries);
    let mid = v.update(i, v[j]);
    assert(views(entries.update(i, entries[j]).update(j, entries[i])) =~= mid.update(j, v[i]));
    vstd::seq_lib::to_multiset_update(v, i, v[j]);
    vstd::seq_lib::to_multiset_update(mid, j, v[i]);
    assert(v.to_multiset().count(v[i]) > 0) by {
        assert(v.contains(v[i]));
    }
    assert(v.to_multiset().count(v[j]) > 0) by {
        assert(v.contains(v[j]));
    }
    assert(mid.update(j, v[i]).to_multiset() =~= v.to_multiset());
}

/// Exchanges the entries at two different places.
fn exchange(entries: &mut Vec<(u32, NodeId)>, i: usize, j: usize)
    requires
        i < old(entries).len(),
        j < old(entries).len(),
        i != j,
    ensures
        final(entries)@ == old(entries)@.update(i as int, old(entries)@[j as int]).update(
            j as int,
            old(entries)@[i as int],
        ),
        views(final(entries)@).to_multiset() == views(old(entries)@).to_multiset(),
{
    let mut held = (0u32, NodeId::Street(0));
    std::mem::swap(&mut held, &mut entries[i]);
    std::mem::swap(&mut held, &mut entries[j]);
    std::mem::swap(&mut held, &mut entries[i]);
    proof {
        assert(entries@ =~= old(entries)@.update(i as int, old(entries)@[j as int]).update(
            j as int,
            old(entries)@[i as int],
        ));
        lemma_exchange_keeps_bag(old(entries)@, i as int, j as int);
    }
}

impl View for MinQueue {
    type V = Multiset<(u32, NodeKey)>;

    closed spec fn view(&self) -> Multiset<(u32, NodeKey)> {
        views(self.entries@).to_multiset()
    }
}

/// Moves the entry at place `at`, the only one that may be cheaper than the
/// one above it, up to where it belongs.
fn sift_up(entries: &mut Vec<(u32, NodeId)>, at: usize)
    requires
        at < old(entries).len(),
        heap_but_at(old(entries)@, at as int),
    ensures
        is_heap(final(entries)@),
        views(final(entries)@).to_multiset() == views(old(entries)@).to_multiset(),
{
    let mut i = at;
    while i > 0 && entries[(i - 1) / 2].0 > entries[i].0
        invariant
            i < entries.len(),
            heap_but_at(entries@, i as int),
            views(entries@).to_multiset() == views(old(entries)@).to_multiset(),
        decreases i,
    {
        let up = (i - 1) / 2;
        let ghost before = entries@;
        exchange(entries, i, up);
        proof {
            assert forall|k: int| 1 <= k < entries@.len() && k != up implies entries@[above(k)].0 <= (
            #[trigger] entries@[k]).0 by {
                if k == i {
                } else if above(k) == i {
                    assert(before[above(i as int)].0 <= before[k].0);
                } else if above(k) == up {
                    assert(before[above(k)].0 <= before[k].0);
                } else {
                    assert(before[above(k)].0 <= before[k].0);
                }
            }
            assert forall|k: int|
                1 <= k < entries@.len() && above(k) == up && up > 0 implies entries@[above(
                up as int,
            )].0 <= (#[trigger] entries@[k]).0 by {
                assert(before[above(up as int)].0 <= before[up as int].0);
                if k != i {
                    assert(before[above(k)].0 <= before[k].0);
                }
            }
        }
        i = up;
    }
}

/// Moves the first entry, the only one that may be dearer than the entries
/// just below it, down to where it belongs.
fn sift_down(entries: &mut Vec<(u32, NodeId)>)
    requires
        heap_but_below(old(entries)@, 0),
    ensures
        is_heap(final(entries)@),
        views(final(entries)@).to_multiset() == views(old(entries)@).to_multiset(),
{
    let n = entries.len();
    let mut i: usize = 0;
    loop
        invariant
            n == entries.len(),
            i < n || n == 0,
            heap_but_below(entries@, i as int),
            views(entries@).to_multiset() == views(old(entries)@).to_multiset(),
        ensures
            is_heap(entries@),
        decreases n - i,
    {
        if n < 2 || i > (n - 2) / 2 {
            proof {
                assert forall|k: int| 1 <= k < entries@.len() implies entries@[above(k)].0 <= (
                #[trigger] entries@[k]).0 by {
                    assert(above(k) != i);
                }
            }
            break ;
        }
        let left = 2 * i + 1;
        let right = left + 1;
        let least = if right < n && entries[right].0 < entries[left].0 {
            right
        } else {
            left
        };
        if entries[i].0 <= entries[least].0 {
            proof {
                assert forall|k: int| 1 <= k < entries@.len() implies entries@[above(k)].0 <= (
                #[trigger] entries@[k]).0 by {
                    if above(k) == i {
                        assert(k == left || k == right);
                    }
                }
            }
            break ;
        }
        let ghost before = entries@;
        exchange(entries, i, least);
        proof {
            assert forall|k: int|
                1 <= k < entries@.len() && above(k) != least implies entries@[above(k)].0 <= (
            #[trigger] entries@[k]).0 by {
                if above(k) == i {
                    assert(k == left || k == right);
                } else if k == i {
                    assert(before[above(i as int)].0 <= before[least as int].0);
                } else {
                    assert(before[above(k)].0 <= before[k].0);
                }
            }
            assert forall|k: int|
                1 <= k < entries@.len() && above(k) == least && least > 0 implies entries@[above(
                least as int,
            )].0 <= (#[trigger] entries@[k]).0 by {
                assert(before[above(k)].0 <= before[k].0);
            }
        }
        i = least;
    }
}

impl MinQueue {
    #[verifier::type_invariant]
    spec fn inv(self) -> bool {
        is_heap(self.entries@)
    }

    /// A queue that holds nothing.
    pub fn new() -> (queue: Self)
        ensures
            queue@ == Multiset::<(u32, NodeKey)>::empty(),
    {
        let queue = MinQueue { entries: Vec::new() };
        proof {
            broadcast use vstd::seq_lib::group_to_multiset_ensures;

            assert(views(queue.entries@) =~= Seq::<(u32, NodeKey)>::empty());
            assert(queue@.len() == 0);
            assert(queue@ =~= Multiset::<(u32, NodeKey)>::empty());
        }
        queue
    }

    /// Puts in `node` at `cost`, beside whatever entries are alike.
    pub fn push(&mut self, cost: u32, node: NodeId)
        ensures
            final(self)@ == old(self)@.insert((cost, node@)),
    {
        proof {
            use_type_invariant(&*self);
        }
        let mut entries = Vec::new();
        std::mem::swap(&mut entries, &mut self.entries);
        let ghost before = entries@;
        entries.push((cost, node));
        proof {
            broadcast use vstd::seq_lib::group_to_multiset_ensures;

            assert(views(entries@) =~= views(before).push((cost, node@)));
            assert forall|i: int| 1 <= i < entries@.len() && i != before.len() implies entries@[above(
                i,
            )].0 <= (#[trigger] entries@[i]).0 by {
                assert(before[above(i)].0 <= before[i].0);
            }
        }
        let last = entries.len() - 1;
        sift_up(&mut entries, last);
        self.entries = entries;
    }

    /// Takes out an entry than which none in the queue is cheaper.
    pub fn pop(&mut self) -> (least: Option<(u32, NodeId)>)
        ensures
            match least {
                Some((cost, node)) => {
                    &&& old(self)@.count((cost, node@)) > 0
                    &&& final(self)@ == old(self)@.remove((cost, node@))
                    &&& forall|other: (u32, NodeKey)| #[trigger]
                        old(self)@.count(other) > 0 ==> cost <= other.0
                },
                None => old(self)@.len() == 0 && final(self)@ == old(self)@,
            },
    {
        proof {
            use_type_invariant(&*self);
            broadcast use vstd::seq_lib::group_to_multiset_ensures;

            assert(views(self.entries@).len() == views(self.entries@).to_multiset().len());
        }
        if self.entries.len() == 0 {
            return None;
        }
        let mut entries = Vec::new();
        std::mem::swap(&mut entries, &mut self.entries);
        let ghost before = entries@;
        let least = entries.swap_remove(0);
        proof {
            broadcast use vstd::seq_lib::group_to_multiset_ensures;

            let all = views(before);
            assert(all[0] == entry_view(least));
            assert(all.contains(entry_view(least)));
            assert forall|other: (u32, NodeKey)| #[trigger]
                all.to_multiset().count(other) > 0 implies least.0 <= other.0 by {
                assert(all.contains(other));
                let j = choose|j: int| 0 <= j < all.len() && all[j] == other;
                lemma_first_is_least(before, j);
            }
            let moved = all.update(0, all.last());
            vstd::seq_lib::to_multiset_update(all, 0, all.last());
            assert(views(entries@) =~= moved.remove(moved.len() - 1));
            assert(moved[moved.len() - 1] == all.last());
            assert(all.contains(all.last()));
            assert(views(entries@).to_multiset() =~= all.to_multiset().remove(all[0]));
            assert forall|i: int| 1 <= i < entries@.len() && above(i) != 0 implies entries@[above(
                i,
            )].0 <= (#[trigger] entries@[i]).0 by {
                assert(before[above(i)].0 <= before[i].0);
            }
        }
        sift_down(&mut entries);
        self.entries = entries;
        Some(least)
    }
}

} // verus!
