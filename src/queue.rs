//! A binary min-heap of search entries, ordered by cost and then by node
//! index.

use vstd::prelude::*;

use crate::algo::Entry;

verus! {

/// `a` comes out no later than `b`: lower cost first, then lower index.
pub open spec fn entry_le(a: Entry, b: Entry) -> bool {
    a.cost < b.cost || (a.cost == b.cost && a.idx.0 <= b.idx.0)
}

pub open spec fn parent(i: int) -> int {
    (i - 1) / 2
}

/// Every entry but the root comes out no earlier than its parent.
pub open spec fn heap_ok(s: Seq<Entry>) -> bool {
    forall|i: int| 0 < i < s.len() ==> entry_le(s[parent(i)], #[trigger] s[i])
}

/// The heap property everywhere but between `k` and its parent; `k`'s
/// parent also comes out no later than `k`'s children.
pub open spec fn heap_up(s: Seq<Entry>, k: int) -> bool {
    &&& forall|i: int| 0 < i < s.len() && i != k ==> entry_le(s[parent(i)], #[trigger] s[i])
    &&& forall|i: int|
        0 < i < s.len() && k > 0 && parent(i) == k ==> entry_le(s[parent(k)], #[trigger] s[i])
}

/// The heap property everywhere but between `k` and its children; `k`'s
/// parent also comes out no later than `k`'s children.
pub open spec fn heap_down(s: Seq<Entry>, k: int) -> bool {
    &&& forall|i: int| 0 < i < s.len() && parent(i) != k ==> entry_le(s[parent(i)], #[trigger] s[i])
    &&& forall|i: int|
        0 < i < s.len() && k > 0 && parent(i) == k ==> entry_le(s[parent(k)], #[trigger] s[i])
}

/// The root comes out first.
proof fn lemma_root_first(s: Seq<Entry>, i: int)
    requires
        heap_ok(s),
        0 <= i < s.len(),
    ensures
        entry_le(s[0], s[i]),
    decreases i,
{
    if i > 0 {
        lemma_root_first(s, parent(i));
    }
}

proof fn lemma_swap_contains(s: Seq<Entry>, i: int, j: int)
    requires
        0 <= i < s.len(),
        0 <= j < s.len(),
    ensures
        forall|x: Entry| #[trigger] s.update(i, s[j]).update(j, s[i]).contains(x) <==> s.contains(x),
{
    let t = s.update(i, s[j]).update(j, s[i]);
    assert forall|x: Entry| #[trigger] t.contains(x) <==> s.contains(x) by {
        if t.contains(x) {
            let k = choose|k: int| 0 <= k < t.len() && t[k] == x;
            if k == i {
                assert(s[j] == x || s[i] == x);
            } else if k == j {
                assert(s[i] == x);
            } else {
                assert(s[k] == x);
            }
        }
        if s.contains(x) {
            let k = choose|k: int| 0 <= k < s.len() && s[k] == x;
            if k == i {
                assert(t[j] == x);
            } else if k == j {
                if i == j {
                    assert(t[j] == x);
                } else {
                    assert(t[i] == x);
                }
            } else {
                assert(t[k] == x);
            }
        }
    }
}

/// Entries waiting for the search, smallest first.
pub struct MinQueue {
    items: Vec<Entry>,
}

impl View for MinQueue {
    type V = Seq<Entry>;

    closed spec fn view(&self) -> Seq<Entry> {
        self.items@
    }
}

impl MinQueue {
    pub closed spec fn wf(&self) -> bool {
        heap_ok(self.items@)
    }

    pub fn new() -> (r: MinQueue)
        ensures
            r.wf(),
            r@.len() == 0,
    {
        MinQueue { items: Vec::new() }
    }

    pub fn len(&self) -> (r: usize)
        ensures
            r == self@.len(),
    {
        self.items.len()
    }

    /// Adds an entry.
    pub fn push(&mut self, e: Entry)
        requires
            old(self).wf(),
        ensures
            final(self).wf(),
            final(self)@.len() == old(self)@.len() + 1,
            forall|x: Entry| #[trigger] final(self)@.contains(x) <==> old(self)@.contains(x) || x == e,
    {
        let ghost start = self.items@;
        self.items.push(e);
        let mut k = self.items.len() - 1;
        proof {
            assert(self.items@[k as int] == e);
            assert forall|x: Entry| #[trigger] self.items@.contains(x) <==> start.contains(x) || x == e by {
                if start.contains(x) {
                    let j = choose|j: int| 0 <= j < start.len() && start[j] == x;
                    assert(self.items@[j] == x);
                }
                if self.items@.contains(x) {
                    let j = choose|j: int| 0 <= j < self.items@.len() && self.items@[j] == x;
                    if j < start.len() {
                        assert(start[j] == x);
                    }
                }
            }
        }
        loop
            invariant_except_break
                0 <= k < self.items@.len(),
                self.items@.len() == start.len() + 1,
                heap_up(self.items@, k as int),
                forall|x: Entry| #[trigger] self.items@.contains(x) <==> start.contains(x) || x == e,
            ensures
                self.items@.len() == start.len() + 1,
                heap_ok(self.items@),
                forall|x: Entry| #[trigger] self.items@.contains(x) <==> start.contains(x) || x == e,
            decreases k,
        {
            if k == 0 {
                break;
            }
            let p = (k - 1) / 2;
            if entry_le_exec(self.items[p], self.items[k]) {
                break;
            }
            let ghost before = self.items@;
            let a = self.items[p];
            let b = self.items[k];
            self.items.set(p, b);
            self.items.set(k, a);
            proof {
                lemma_swap_contains(before, p as int, k as int);
                assert(self.items@ == before.update(p as int, before[k as int]).update(k as int, before[p as int]));
                let s = self.items@;
                assert forall|i: int| 0 < i < s.len() && i != p implies entry_le(s[parent(i)], #[trigger] s[i]) by {
                    {
                        if i == k {
                        } else if parent(i) == k {
                            assert(entry_le(before[p as int], before[i]));
                        } else if parent(i) == p {
                            assert(entry_le(before[p as int], before[i]));
                        } else {
                        }
                    }
                }
                assert forall|i: int|
                    0 < i < s.len() && p > 0 && parent(i) == p implies entry_le(s[parent(p as int)], #[trigger] s[i]) by {
                    if i == k {
                        assert(entry_le(before[parent(p as int)], before[p as int]));
                    } else {
                        assert(entry_le(before[parent(p as int)], before[p as int]));
                    }
                }
            }
            k = p;
        }
    }

    /// Removes and returns an entry that comes out first.
    pub fn pop(&mut self) -> (r: Entry)
        requires
            old(self).wf(),
            old(self)@.len() > 0,
        ensures
            final(self).wf(),
            final(self)@.len() == old(self)@.len() - 1,
            old(self)@.contains(r),
            forall|x: Entry| #[trigger] old(self)@.contains(x) ==> entry_le(r, x),
            forall|x: Entry| #[trigger] final(self)@.contains(x) ==> old(self)@.contains(x),
            forall|x: Entry| #[trigger] old(self)@.contains(x) && x != r ==> final(self)@.contains(x),
    {
        let ghost start = self.items@;
        let top = self.items[0];
        proof {
            assert forall|x: Entry| #[trigger] start.contains(x) implies entry_le(top, x) by {
                let j = choose|j: int| 0 <= j < start.len() && start[j] == x;
                lemma_root_first(start, j);
            }
        }
        let last = self.items.pop().unwrap();
        if self.items.len() == 0 {
            proof {
                assert forall|x: Entry| #[trigger] start.contains(x) && x != top implies self.items@.contains(x) by {
                    let j = choose|j: int| 0 <= j < start.len() && start[j] == x;
                }
            }
            return top;
        }
        self.items.set(0, last);
        proof {
            let s = self.items@;
            assert(s == start.drop_last().update(0, start.last()));
            assert forall|x: Entry| #[trigger] s.contains(x) implies start.contains(x) by {
                let j = choose|j: int| 0 <= j < s.len() && s[j] == x;
                if j == 0 {
                    assert(start[start.len() - 1] == x);
                } else {
                    assert(start[j] == x);
                }
            }
            assert forall|x: Entry| #[trigger] start.contains(x) && x != top implies s.contains(x) by {
                let j = choose|j: int| 0 <= j < start.len() && start[j] == x;
                if j == start.len() - 1 {
                    assert(s[0] == x);
                } else {
                    assert(j != 0);
                    assert(s[j] == x);
                }
            }
            assert(heap_down(s, 0)) by {
                assert forall|i: int| 0 < i < s.len() && parent(i) != 0 implies entry_le(s[parent(i)], #[trigger] s[i]) by {
                    assert(s[i] == start[i]);
                    assert(s[parent(i)] == start[parent(i)]);
                }
            }
        }
        let n = self.items.len();
        let mut k: usize = 0;
        loop
            invariant_except_break
                0 <= k < n,
                n == self.items@.len(),
                n == start.len() - 1,
                heap_down(self.items@, k as int),
                forall|x: Entry| #[trigger] self.items@.contains(x) ==> start.contains(x),
                forall|x: Entry| #[trigger] start.contains(x) && x != top ==> self.items@.contains(x),
            ensures
                n == self.items@.len(),
                heap_ok(self.items@),
                forall|x: Entry| #[trigger] self.items@.contains(x) ==> start.contains(x),
                forall|x: Entry| #[trigger] start.contains(x) && x != top ==> self.items@.contains(x),
            decreases n - k,
        {
            if k >= n / 2 {
                proof {
                    let s = self.items@;
                    assert forall|i: int| 0 < i < s.len() implies entry_le(s[parent(i)], #[trigger] s[i]) by {
                        assert(parent(i) != k);
                    }
                }
                break;
            }
            let l = 2 * k + 1;
            let r = 2 * k + 2;
            let mut m = k;
            if l < n && !entry_le_exec(self.items[m], self.items[l]) {
                m = l;
            }
            if r < n && !entry_le_exec(self.items[m], self.items[r]) {
                m = r;
            }
            if m == k {
                proof {
                    let s = self.items@;
                    assert forall|i: int| 0 < i < s.len() implies entry_le(s[parent(i)], #[trigger] s[i]) by {
                        if parent(i) == k {
                            assert(i == l || i == r);
                        }
                    }
                }
                break;
            }
            let ghost before = self.items@;
            let a = self.items[k];
            let b = self.items[m];
            self.items.set(k, b);
            self.items.set(m, a);
            proof {
                lemma_swap_contains(before, k as int, m as int);
                assert(self.items@ == before.update(k as int, before[m as int]).update(m as int, before[k as int]));
                let s = self.items@;
                assert(entry_le(s[k as int], s[m as int]));
                assert forall|i: int| 0 < i < s.len() && parent(i) != m implies entry_le(s[parent(i)], #[trigger] s[i]) by {
                    if i == m {
                    } else if parent(i) == k {
                        assert(i == l || i == r);
                    } else if i == k {
                        assert(entry_le(before[parent(k as int)], before[m as int]));
                    } else {
                    }
                }
                assert forall|i: int|
                    0 < i < s.len() && m > 0 && parent(i) == m implies entry_le(s[parent(m as int)], #[trigger] s[i]) by {
                    assert(parent(m as int) == k);
                    assert(entry_le(before[m as int], before[i]));
                }
            }
            k = m;
        }
        top
    }
}

/// `entry_le` on values.
pub fn entry_le_exec(a: Entry, b: Entry) -> (r: bool)
    ensures
        r == entry_le(a, b),
{
    a.cost < b.cost || (a.cost == b.cost && a.idx.0 <= b.idx.0)
}

} // verus!
