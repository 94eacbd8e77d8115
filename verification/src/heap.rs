//! A binary max-heap over path costs, used by the potentials sweep.

use vstd::prelude::*;

verus! {

use vstd::pervasive::VecAdditionalExecFns;
use crate::graph::PathCost;

/// Some slot of `s` holds `e`.
pub open spec fn heap_contains(s: Seq<(PathCost, Option<usize>)>, e: (PathCost, Option<usize>)) -> bool {
    exists|i: int| 0 <= i < s.len() && s[i] == e
}

/// The binary-heap shape: every entry's cost is at most its parent's cost.
pub open spec fn heap_shaped(s: Seq<(PathCost, Option<usize>)>) -> bool {
    forall|i: int| 1 <= i < s.len() ==> (#[trigger] s[i]).0.spec_le(s[(i - 1) / 2].0)
}

/// In a shaped heap the root's cost dominates every slot.
proof fn lemma_root_ge(s: Seq<(PathCost, Option<usize>)>, i: int)
    requires
        heap_shaped(s),
        0 <= i < s.len(),
    ensures
        s[i].0.spec_le(s[0].0),
    decreases i,
{
    if i > 0 {
        lemma_root_ge(s, (i - 1) / 2);
    }
}

/// Swapping two slots neither adds nor removes entries.
proof fn lemma_swap_contains(s: Seq<(PathCost, Option<usize>)>, i: int, j: int)
    requires
        0 <= i < s.len(),
        0 <= j < s.len(),
        i != j,
    ensures
        forall|x: (PathCost, Option<usize>)|
            heap_contains(s.update(i, s[j]).update(j, s[i]), x) <==> heap_contains(s, x),
{
    let t = s.update(i, s[j]).update(j, s[i]);
    assert forall|x: (PathCost, Option<usize>)| heap_contains(t, x) implies heap_contains(s, x) by {
        let k = choose|k: int| 0 <= k < t.len() && t[k] == x;
        if k == j {
            assert(s[i] == x);
        } else if k == i {
            assert(s[j] == x);
        } else {
            assert(s[k] == x);
        }
    }
    assert forall|x: (PathCost, Option<usize>)| heap_contains(s, x) implies heap_contains(t, x) by {
        let k = choose|k: int| 0 <= k < s.len() && s[k] == x;
        if k == i {
            assert(t[j] == x);
        } else if k == j {
            assert(t[i] == x);
        } else {
            assert(t[k] == x);
        }
    }
}

/// A binary max-heap of `(cost, invalid_at)` entries ordered by cost. The
/// contract tracks the collection of entries — whatever the heap hands out
/// was pushed into it earlier — and the heap shape, so the root dominates
/// every held entry.
pub struct CostHeap {
    data: Vec<(PathCost, Option<usize>)>,
}

impl View for CostHeap {
    type V = Seq<(PathCost, Option<usize>)>;

    closed spec fn view(&self) -> Seq<(PathCost, Option<usize>)> {
        self.data@
    }
}

impl CostHeap {
    /// The heap's entries are arranged with every cost below its parent's.
    pub open spec fn wf(&self) -> bool {
        heap_shaped(self@)
    }

    /// An empty heap.
    pub fn new() -> (r: CostHeap)
        ensures
            r@.len() == 0,
            r.wf(),
    {
        CostHeap { data: Vec::new() }
    }

    /// Number of entries currently held.
    pub fn len(&self) -> (r: usize)
        ensures
            r == self@.len(),
    {
        self.data.len()
    }

    /// Inserts an entry and restores the heap shape by sifting it up.
    pub fn push(&mut self, e: (PathCost, Option<usize>))
        requires
            old(self).wf(),
        ensures
            final(self).wf(),
            final(self)@.len() == old(self)@.len() + 1,
            forall|x: (PathCost, Option<usize>)|
                heap_contains(final(self)@, x) ==> heap_contains(old(self)@, x) || x == e,
            forall|x: (PathCost, Option<usize>)|
                heap_contains(old(self)@, x) ==> heap_contains(final(self)@, x),
            heap_contains(final(self)@, e),
    {
        self.data.push(e);
        let ghost snap = self.data@;
        let mut c = self.data.len() - 1;
        while c > 0
            invariant
                self.data@.len() == snap.len(),
                c < self.data@.len(),
                forall|x: (PathCost, Option<usize>)|
                    heap_contains(self.data@, x) <==> heap_contains(snap, x),
                // The shape holds everywhere except possibly between `c` and
                // its parent, and the children of `c` stay below its parent.
                forall|i: int|
                    1 <= i < self.data@.len() && i != c ==> (#[trigger] self.data@[i]).0.spec_le(
                        self.data@[(i - 1) / 2].0,
                    ),
                c > 0 ==> forall|i: int|
                    1 <= i < self.data@.len() && (i - 1) / 2 == c ==> (
                    #[trigger] self.data@[i]).0.spec_le(self.data@[(c - 1) / 2].0),
            decreases c,
        {
            let p = (c - 1) / 2;
            let pc = self.data[p];
            let cc = self.data[c];
            if pc.0.lt(cc.0) {
                let ghost s = self.data@;
                self.data.set(p, cc);
                self.data.set(c, pc);
                proof {
                    lemma_swap_contains(s, p as int, c as int);
                }
                c = p;
            } else {
                c = 0;
            }
        }
        proof {
            assert forall|x: (PathCost, Option<usize>)| heap_contains(
                self.data@,
                x,
            ) implies heap_contains(old(self)@, x) || x == e by {
                assert(heap_contains(snap, x));
                let k = choose|k: int| 0 <= k < snap.len() && snap[k] == x;
                if k < old(self)@.len() {
                    assert(old(self)@[k] == x);
                }
            }
            assert(snap[snap.len() - 1] == e);
            assert(heap_contains(snap, e));
            assert(heap_contains(self.data@, e));
            assert forall|x: (PathCost, Option<usize>)| heap_contains(
                old(self)@,
                x,
            ) implies heap_contains(self.data@, x) by {
                let k = choose|k: int| 0 <= k < old(self)@.len() && old(self)@[k] == x;
                assert(snap[k] == x);
                assert(heap_contains(snap, x));
            }
        }
    }

    /// The greatest entry by cost, left in place: no held entry costs more.
    pub fn peek(&self) -> (r: (PathCost, Option<usize>))
        requires
            self.wf(),
            self@.len() > 0,
        ensures
            r == self@[0],
            heap_contains(self@, r),
            forall|x: (PathCost, Option<usize>)| heap_contains(self@, x) ==> x.0.spec_le(r.0),
    {
        proof {
            assert forall|x: (PathCost, Option<usize>)| heap_contains(self@, x) implies x.0.spec_le(
                self@[0].0,
            ) by {
                let k = choose|k: int| 0 <= k < self@.len() && self@[k] == x;
                lemma_root_ge(self@, k);
            }
        }
        self.data[0]
    }

    /// Removes and returns the root entry — a maximal one by cost —
    /// restoring the heap shape by sifting the displaced last entry down.
    pub fn pop(&mut self) -> (r: (PathCost, Option<usize>))
        requires
            old(self).wf(),
            old(self)@.len() > 0,
        ensures
            final(self).wf(),
            final(self)@.len() == old(self)@.len() - 1,
            r == old(self)@[0],
            heap_contains(old(self)@, r),
            forall|x: (PathCost, Option<usize>)|
                heap_contains(final(self)@, x) ==> heap_contains(old(self)@, x),
            forall|x: (PathCost, Option<usize>)|
                x != r && heap_contains(old(self)@, x) ==> heap_contains(final(self)@, x),
    {
        let top = self.data[0];
        let last = self.data.pop().unwrap();
        let n = self.data.len();
        if n > 0 {
            self.data.set(0, last);
            let ghost snap = self.data@;
            proof {
                assert forall|x: (PathCost, Option<usize>)| heap_contains(snap, x) implies heap_contains(
                    old(self)@,
                    x,
                ) by {
                    let k = choose|k: int| 0 <= k < snap.len() && snap[k] == x;
                    if k == 0 {
                        assert(old(self)@[old(self)@.len() - 1] == x);
                    } else {
                        assert(old(self)@[k] == x);
                    }
                }
            }
            let mut c: usize = 0;
            let mut done = false;
            while !done
                invariant
                    n == self.data@.len(),
                    c < n,
                    forall|x: (PathCost, Option<usize>)|
                        heap_contains(self.data@, x) <==> heap_contains(snap, x),
                    // The shape holds for every pair whose parent is not `c`,
                    // and the children of `c` stay below its parent.
                    forall|i: int|
                        1 <= i < n && (i - 1) / 2 != c ==> (#[trigger] self.data@[i]).0.spec_le(
                            self.data@[(i - 1) / 2].0,
                        ),
                    c > 0 ==> forall|i: int|
                        1 <= i < n && (i - 1) / 2 == c ==> (#[trigger] self.data@[i]).0.spec_le(
                            self.data@[(c - 1) / 2].0,
                        ),
                    done ==> heap_shaped(self.data@),
                decreases (if done { 0int } else { 1int }), n - c,
            {
                if c >= n / 2 {
                    proof {
                        assert forall|i: int| 1 <= i < n implies (#[trigger] self.data@[i]).0.spec_le(
                            self.data@[(i - 1) / 2].0,
                        ) by {
                            assert((i - 1) / 2 < n / 2);
                        }
                    }
                    done = true;
                } else {
                    let l = 2 * c + 1;
                    if l >= n {
                        proof {
                            assert forall|i: int| 1 <= i < n implies (
                            #[trigger] self.data@[i]).0.spec_le(self.data@[(i - 1) / 2].0) by {
                                if (i - 1) / 2 == c {
                                    assert(i >= 2 * c + 1);
                                }
                            }
                        }
                        done = true;
                    } else {
                        let mut m = l;
                        let rgt = l + 1;
                        if rgt < n && self.data[m].0.lt(self.data[rgt].0) {
                            m = rgt;
                        }
                        if self.data[c].0.lt(self.data[m].0) {
                            let cc = self.data[c];
                            let mc = self.data[m];
                            let ghost s = self.data@;
                            self.data.set(c, mc);
                            self.data.set(m, cc);
                            proof {
                                lemma_swap_contains(s, c as int, m as int);
                                assert forall|i: int|
                                    1 <= i < n && (i - 1) / 2 != m implies (
                                #[trigger] self.data@[i]).0.spec_le(self.data@[(i - 1) / 2].0) by {
                                    if i == m as int {
                                        assert(self.data@[m as int] == s[c as int]);
                                    } else if (i - 1) / 2 == c {
                                        assert(self.data@[i] == s[i]);
                                        assert(s[i].0.spec_le(s[m as int].0));
                                    }
                                }
                            }
                            c = m;
                        } else {
                            proof {
                                assert forall|i: int| 1 <= i < n implies (
                                #[trigger] self.data@[i]).0.spec_le(self.data@[(i - 1) / 2].0) by {
                                    if (i - 1) / 2 == c {
                                        assert(i == l || i == l + 1);
                                        assert(self.data@[i].0.spec_le(self.data@[m as int].0));
                                    }
                                }
                            }
                            done = true;
                        }
                    }
                }
            }
            proof {
                assert forall|x: (PathCost, Option<usize>)| heap_contains(
                    self.data@,
                    x,
                ) implies heap_contains(old(self)@, x) by {
                    assert(heap_contains(snap, x));
                }
                assert forall|x: (PathCost, Option<usize>)|
                    x != top && heap_contains(old(self)@, x) implies heap_contains(
                    self.data@,
                    x,
                ) by {
                    let k = choose|k: int| 0 <= k < old(self)@.len() && old(self)@[k] == x;
                    if k == old(self)@.len() - 1 {
                        assert(snap[0] == x);
                    } else {
                        assert(snap[k] == x);
                    }
                    assert(heap_contains(snap, x));
                }
            }
        }
        top
    }
}

} // verus!
