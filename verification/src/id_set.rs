//! An ordered set of event ids, kept as a strictly increasing vector.
//!
//! `PendingEvents` keeps its `available_events` and `directives` indexes as
//! ordered id sets; the smallest member is the first element.

use vstd::assert_seqs_equal;
use vstd::prelude::*;

verus! {

/// Holds iff `s` is strictly increasing, hence free of duplicates.
pub open spec fn strictly_sorted(s: Seq<usize>) -> bool {
    forall|i: int, j: int| 0 <= i < j < s.len() ==> s[i] < s[j]
}

/// An ordered set of ids backed by a strictly increasing vector.
#[derive(Clone, Debug)]
pub struct IdSet {
    ids: Vec<usize>,
}

impl IdSet {
    /// The members, in increasing order.
    pub closed spec fn view(&self) -> Seq<usize> {
        self.ids@
    }

    /// The representation invariant: strictly increasing order.
    pub closed spec fn wf(&self) -> bool {
        strictly_sorted(self.ids@)
    }

    /// Membership, the set reading of the ordered vector.
    pub open spec fn has(&self, x: usize) -> bool {
        self@.contains(x)
    }

    /// Creates an empty set.
    pub fn new() -> (r: IdSet)
        ensures
            r.wf(),
            r@ == Seq::<usize>::empty(),
    {
        IdSet { ids: Vec::new() }
    }

    /// Number of members.
    pub fn len(&self) -> (r: usize)
        ensures
            r == self@.len(),
    {
        self.ids.len()
    }

    /// Whether the set has no members.
    pub fn is_empty(&self) -> (r: bool)
        ensures
            r == (self@.len() == 0),
    {
        self.ids.len() == 0
    }

    /// The smallest member, if any.
    pub fn min(&self) -> (r: Option<usize>)
        requires
            self.wf(),
        ensures
            match r {
                Some(m) => self.has(m) && forall|y: usize| self.has(y) ==> m <= y,
                None => self@.len() == 0,
            },
    {
        if self.ids.len() == 0 {
            None
        } else {
            let m = self.ids[0];
            proof {
                assert(self@.contains(m)) by {
                    assert(self@[0] == m);
                }
                assert forall|y: usize| self.has(y) implies m <= y by {
                    let k = choose|k: int| 0 <= k < self@.len() && self@[k] == y;
                    if k > 0 {
                        assert(self@[0] < self@[k]);
                    }
                }
            }
            Some(m)
        }
    }

    /// Whether `x` is a member.
    pub fn contains(&self, x: usize) -> (r: bool)
        requires
            self.wf(),
        ensures
            r == self.has(x),
    {
        let n = self.ids.len();
        let mut i: usize = 0;
        while i < n
            invariant
                n == self@.len(),
                0 <= i <= n,
                forall|k: int| 0 <= k < i ==> self@[k] != x,
            decreases n - i,
        {
            if self.ids[i] == x {
                proof {
                    assert(self@.contains(x)) by {
                        assert(self@[i as int] == x);
                    }
                }
                return true;
            }
            i += 1;
        }
        proof {
            assert(!self@.contains(x)) by {
                if self@.contains(x) {
                    let k = choose|k: int| 0 <= k < self@.len() && self@[k] == x;
                }
            }
        }
        false
    }

    /// Adds `x`; no effect when `x` is already a member.
    pub fn insert(&mut self, x: usize)
        requires
            old(self).wf(),
        ensures
            final(self).wf(),
            forall|y: usize| final(self).has(y) <==> old(self).has(y) || y == x,
    {
        let n = self.ids.len();
        let mut i: usize = 0;
        while i < n && self.ids[i] < x
            invariant
                n == self@.len(),
                0 <= i <= n,
                self.wf(),
                forall|k: int| 0 <= k < i ==> self@[k] < x,
            decreases n - i,
        {
            i += 1;
        }
        if i < n && self.ids[i] == x {
            proof {
                assert(self.has(x)) by {
                    assert(self@[i as int] == x);
                }
            }
            return;
        }
        let ghost pre = self@;
        self.ids.insert(i, x);
        proof {
            assert(self@ == pre.insert(i as int, x));
            assert forall|a: int, b: int| 0 <= a < b < self@.len() implies self@[a] < self@[b] by {
                if b < i {
                    assert(self@[a] == pre[a] && self@[b] == pre[b]);
                } else if a > i {
                    assert(self@[a] == pre[a - 1] && self@[b] == pre[b - 1]);
                } else if a < i && b == i {
                    assert(self@[a] == pre[a]);
                } else if a == i && b > i {
                    assert(self@[b] == pre[b - 1]);
                    assert(i < pre.len() ==> x < pre[i as int]);
                } else if a < i && b > i {
                    assert(self@[a] == pre[a] && self@[b] == pre[b - 1]);
                }
            }
            assert forall|y: usize| final(self).has(y) <==> pre.contains(y) || y == x by {
                if final(self).has(y) {
                    let k = choose|k: int| 0 <= k < self@.len() && self@[k] == y;
                    if k < i {
                        assert(pre[k] == y);
                    } else if k > i {
                        assert(pre[k - 1] == y);
                    }
                }
                if pre.contains(y) {
                    let k = choose|k: int| 0 <= k < pre.len() && pre[k] == y;
                    if k < i {
                        assert(self@[k] == y);
                    } else {
                        assert(self@[k + 1] == y);
                    }
                }
                if y == x {
                    assert(self@[i as int] == x);
                }
            }
        }
    }

    /// Removes `x`; no effect when `x` is not a member.
    pub fn remove(&mut self, x: usize)
        requires
            old(self).wf(),
        ensures
            final(self).wf(),
            forall|y: usize| final(self).has(y) <==> old(self).has(y) && y != x,
    {
        let n = self.ids.len();
        let mut i: usize = 0;
        while i < n
            invariant
                n == self@.len(),
                0 <= i <= n,
                self.wf(),
                self == old(self),
                forall|k: int| 0 <= k < i ==> self@[k] != x,
            decreases n - i,
        {
            if self.ids[i] == x {
                let ghost pre = self@;
                self.ids.remove(i);
                proof {
                    assert(self@ == pre.remove(i as int));
                    assert forall|a: int, b: int| 0 <= a < b < self@.len() implies self@[a]
                        < self@[b] by {
                        let pa: int = if a < i { a } else { a + 1 };
                        let pb: int = if b < i { b } else { b + 1 };
                        assert(self@[a] == pre[pa] && self@[b] == pre[pb]);
                    }
                    assert forall|y: usize| final(self).has(y) <==> (pre.contains(y) && y != x) by {
                        if final(self).has(y) {
                            let k = choose|k: int| 0 <= k < self@.len() && self@[k] == y;
                            let pk: int = if k < i { k } else { k + 1 };
                            assert(pre[pk] == y);
                            assert(pre.contains(y));
                            if pk < i {
                                assert(pre[pk] != x);
                            } else if pk > i {
                                assert(pre[i as int] < pre[pk]);
                                assert(pre[i as int] == x);
                            }
                        }
                        if pre.contains(y) && y != x {
                            let k = choose|k: int| 0 <= k < pre.len() && pre[k] == y;
                            assert(pre[i as int] == x);
                            assert(k != i);
                            if k < i {
                                assert(self@[k] == y);
                                assert(self@.contains(y));
                            } else {
                                assert(self@[k - 1] == y);
                                assert(self@.contains(y));
                            }
                        }
                    }
                }
                return;
            }
            i += 1;
        }
        proof {
            assert(!self@.contains(x)) by {
                if self@.contains(x) {
                    let k = choose|k: int| 0 <= k < self@.len() && self@[k] == x;
                    assert(self@[k] != x);
                }
            }
        }
    }

    /// The members as a fresh vector, in increasing order.
    pub fn to_vec(&self) -> (r: Vec<usize>)
        ensures
            r@ == self@,
    {
        let n = self.ids.len();
        let mut out: Vec<usize> = Vec::new();
        let mut i: usize = 0;
        while i < n
            invariant
                n == self@.len(),
                0 <= i <= n,
                out@ == self@.take(i as int),
            decreases n - i,
        {
            out.push(self.ids[i]);
            proof {
                assert(out@ == self@.take(i + 1 as int)) by {
                    assert_seqs_equal!(out@ == self@.take(i + 1 as int));
                }
            }
            i += 1;
        }
        proof {
            assert(self@.take(n as int) == self@);
        }
        out
    }
}

} // verus!
