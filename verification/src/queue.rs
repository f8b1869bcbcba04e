use vstd::multiset::Multiset;
use vstd::prelude::*;

verus! {

/// A pair key with the count it had when it was queued.
#[derive(Clone, Copy, Debug)]
pub struct PairCandidate {
    pub count: i64,
    pub key: u64,
}

/// `x` comes out of the queue no later than `y`: a higher count first and, among equal
/// counts, the smaller key first.
pub open spec fn outranks(x: PairCandidate, y: PairCandidate) -> bool {
    x.count > y.count || (x.count == y.count && x.key <= y.key)
}

/// Decides `outranks(x, y)`.
pub fn candidate_outranks(x: &PairCandidate, y: &PairCandidate) -> (r: bool)
    ensures
        r == outranks(*x, *y),
{
    x.count > y.count || (x.count == y.count && x.key <= y.key)
}

pub open spec fn parent(i: int) -> int {
    (i - 1) / 2
}

/// A binary max-heap of candidates, ordered by `outranks`.
pub struct PairQueue {
    items: Vec<PairCandidate>,
}

impl PairQueue {
    /// The candidates held, in heap layout.
    pub closed spec fn items(&self) -> Seq<PairCandidate> {
        self.items@
    }

    /// The candidates held, counted with their repetitions.
    pub closed spec fn contents(&self) -> Multiset<PairCandidate> {
        self.items@.to_multiset()
    }

    /// The candidate is held by the queue.
    pub open spec fn holds(&self, c: PairCandidate) -> bool {
        self.items().contains(c)
    }

    pub open spec fn len(&self) -> nat {
        self.items().len()
    }

    pub closed spec fn heap_ordered(s: Seq<PairCandidate>) -> bool {
        forall|i: int| 0 < i < s.len() ==> outranks(#[trigger] s[parent(i)], s[i])
    }

    /// Well-formedness: each candidate comes out no later than its children.
    pub closed spec fn wf(&self) -> bool {
        Self::heap_ordered(self.items@)
    }

    proof fn lemma_update_multiset(s: Seq<PairCandidate>, i: int, x: PairCandidate)
        requires
            0 <= i < s.len(),
        ensures
            s.update(i, x).to_multiset() == s.to_multiset().remove(s[i]).insert(x),
    {
        broadcast use vstd::seq_lib::group_to_multiset_ensures;

        let u = s.update(i, x);
        assert(u.remove(i) =~= s.remove(i));
        assert(u.to_multiset().remove(x) == s.to_multiset().remove(s[i]));
        assert(u.contains(x)) by {
            assert(u[i] == x);
        }
        assert(u.to_multiset() =~= u.to_multiset().remove(x).insert(x));
    }

    proof fn lemma_swap_multiset(s: Seq<PairCandidate>, i: int, j: int)
        requires
            0 <= i < s.len(),
            0 <= j < s.len(),
        ensures
            s.update(i, s[j]).update(j, s[i]).to_multiset() == s.to_multiset(),
    {
        broadcast use vstd::seq_lib::group_to_multiset_ensures;

        let u = s.update(i, s[j]);
        Self::lemma_update_multiset(s, i, s[j]);
        Self::lemma_update_multiset(u, j, s[i]);
        if i == j {
            assert(s.update(i, s[j]).update(j, s[i]) =~= s);
        } else {
            assert(s.contains(s[i])) by {
                assert(s[i] == s[i]);
            }
            assert(s.update(i, s[j]).update(j, s[i]).to_multiset() =~= s.to_multiset());
        }
    }

    proof fn lemma_root_outranks(s: Seq<PairCandidate>, i: int)
        requires
            Self::heap_ordered(s),
            0 <= i < s.len(),
        ensures
            outranks(s[0], s[i]),
        decreases i,
    {
        if i > 0 {
            Self::lemma_root_outranks(s, parent(i));
        }
    }

    /// An empty queue.
    pub fn new() -> (q: Self)
        ensures
            q.wf(),
            q.len() == 0,
            q.contents() == Multiset::<PairCandidate>::empty(),
            forall|c: PairCandidate| !q.holds(c),
    {
        broadcast use vstd::seq_lib::group_to_multiset_ensures;

        PairQueue { items: Vec::new() }
    }

    pub fn is_empty(&self) -> (r: bool)
        ensures
            r == (self.len() == 0),
    {
        self.items.len() == 0
    }

    /// Adds a candidate.
    pub fn push(&mut self, c: PairCandidate)
        requires
            old(self).wf(),
        ensures
            final(self).wf(),
            final(self).len() == old(self).len() + 1,
            final(self).contents() == old(self).contents().insert(c),
            forall|x: PairCandidate| #[trigger] final(self).holds(x) <==> (old(self).holds(x) || x == c),
    {
        broadcast use vstd::seq_lib::group_to_multiset_ensures;

        let ghost s0 = self.items@;
        self.items.push(c);
        let mut i = self.items.len() - 1;
        proof {
            assert forall|x: PairCandidate| #[trigger] self.items@.contains(x) <==> (s0.contains(x) || x == c) by {
                if s0.contains(x) {
                    let j = choose|j: int| 0 <= j < s0.len() && s0[j] == x;
                    assert(self.items@[j] == x);
                }
                if x == c {
                    assert(self.items@[i as int] == x);
                }
            }
        }
        while i > 0
            invariant
                i < self.items@.len(),
                self.items@.len() == s0.len() + 1,
                forall|j: int|
                    0 < j < self.items@.len() && j != i ==> outranks(
                        #[trigger] self.items@[parent(j)],
                        self.items@[j],
                    ),
                i > 0 ==> forall|j: int|
                    0 < j < self.items@.len() && parent(j) == i ==> outranks(
                        self.items@[parent(i as int)],
                        #[trigger] self.items@[j],
                    ),
                forall|x: PairCandidate| #[trigger] self.items@.contains(x) <==> (s0.contains(x) || x == c),
                self.items@.to_multiset() == s0.to_multiset().insert(c),
            ensures
                self.items@.len() == s0.len() + 1,
                Self::heap_ordered(self.items@),
                forall|x: PairCandidate| #[trigger] self.items@.contains(x) <==> (s0.contains(x) || x == c),
                self.items@.to_multiset() == s0.to_multiset().insert(c),
            decreases i,
        {
            let p = (i - 1) / 2;
            if candidate_outranks(&self.items[p], &self.items[i]) {
                proof {
                    assert forall|j: int| 0 < j < self.items@.len() implies outranks(
                        #[trigger] self.items@[parent(j)],
                        self.items@[j],
                    ) by {
                        if j == i {
                        }
                    }
                }
                break;
            }
            let ghost before = self.items@;
            let xi = self.items[i];
            let xp = self.items[p];
            self.items.set(p, xi);
            self.items.set(i, xp);
            proof {
                let s = self.items@;
                assert(s =~= before.update(p as int, xi).update(i as int, xp));
                Self::lemma_swap_multiset(before, p as int, i as int);
                assert forall|x: PairCandidate| #[trigger] s.contains(x) <==> before.contains(x) by {
                    if s.contains(x) {
                        let j = choose|j: int| 0 <= j < s.len() && s[j] == x;
                        if j == p {
                            assert(before[i as int] == x);
                        } else if j == i {
                            assert(before[p as int] == x);
                        } else {
                            assert(before[j] == x);
                        }
                    }
                    if before.contains(x) {
                        let j = choose|j: int| 0 <= j < before.len() && before[j] == x;
                        if j == p {
                            assert(s[i as int] == x);
                        } else if j == i {
                            assert(s[p as int] == x);
                        } else {
                            assert(s[j] == x);
                        }
                    }
                }
                assert forall|j: int| 0 < j < s.len() && j != p implies outranks(
                    #[trigger] s[parent(j)],
                    s[j],
                ) by {
                    if j == i {
                    } else if parent(j) == i {
                    } else if parent(j) == p {
                        assert(outranks(before[parent(j)], before[j]));
                    } else {
                        assert(outranks(before[parent(j)], before[j]));
                    }
                }
                if p > 0 {
                    assert forall|j: int| 0 < j < s.len() && parent(j) == p implies outranks(
                        s[parent(p as int)],
                        #[trigger] s[j],
                    ) by {
                        assert(outranks(before[parent(p as int)], before[p as int]));
                        if j != i {
                            assert(outranks(before[p as int], before[j]));
                        }
                    }
                }
            }
            i = p;
        }
    }

    /// Removes and returns a candidate that outranks every candidate held; `None` when empty.
    pub fn pop(&mut self) -> (r: Option<PairCandidate>)
        requires
            old(self).wf(),
        ensures
            final(self).wf(),
            old(self).len() == 0 ==> r is None && final(self).len() == 0,
            old(self).len() > 0 ==> r is Some && final(self).len() == old(self).len() - 1,
            r matches Some(top) ==> {
                &&& old(self).holds(top)
                &&& forall|x: PairCandidate| #[trigger] old(self).holds(x) ==> outranks(top, x)
                &&& forall|x: PairCandidate| #[trigger] final(self).holds(x) ==> old(self).holds(x)
                &&& forall|x: PairCandidate|
                    old(self).holds(x) && x != top ==> #[trigger] final(self).holds(x)
                &&& final(self).contents() == old(self).contents().remove(top)
            },
            r is None ==> forall|x: PairCandidate| !#[trigger] final(self).holds(x),
            r is None ==> forall|x: PairCandidate| !#[trigger] old(self).holds(x),
    {
        let n = self.items.len();
        if n == 0 {
            return None;
        }
        let ghost s0 = self.items@;
        let top = self.items[0];
        proof {
            assert forall|x: PairCandidate| #[trigger] s0.contains(x) implies outranks(top, x) by {
                let j = choose|j: int| 0 <= j < s0.len() && s0[j] == x;
                Self::lemma_root_outranks(s0, j);
            }
        }
        let last = self.items.pop().unwrap();
        proof {
            broadcast use vstd::seq_lib::group_to_multiset_ensures;

            assert(s0 =~= self.items@.push(last));
        }
        if n == 1 {
            proof {
                assert forall|x: PairCandidate| !#[trigger] self.items@.contains(x) by {}
            }
            return Some(top);
        }
        let ghost d = self.items@;
        self.items.set(0, last);
        let ghost s1 = self.items@;
        proof {
            broadcast use vstd::seq_lib::group_to_multiset_ensures;

            Self::lemma_update_multiset(d, 0, last);
            assert(d[0] == top);
            assert(s1.to_multiset() =~= s0.to_multiset().remove(top));
            assert forall|x: PairCandidate| s0.contains(x) && x != top implies #[trigger] s1.contains(
                x,
            ) by {
                let j = choose|j: int| 0 <= j < s0.len() && s0[j] == x;
                if j == n - 1 {
                    assert(s1[0] == x);
                } else {
                    assert(j != 0);
                    assert(s1[j] == x);
                }
            }
            assert forall|x: PairCandidate| #[trigger] s1.contains(x) implies s0.contains(x) by {
                let j = choose|j: int| 0 <= j < s1.len() && s1[j] == x;
                if j == 0 {
                    assert(s0[n - 1] == x);
                } else {
                    assert(s0[j] == x);
                }
            }
        }
        let m = self.items.len();
        let mut i: usize = 0;
        while i < m / 2
            invariant
                m == self.items@.len(),
                m == n - 1,
                i < m,
                forall|j: int|
                    0 < j < m && parent(j) != i ==> outranks(
                        #[trigger] self.items@[parent(j)],
                        self.items@[j],
                    ),
                i > 0 ==> forall|j: int|
                    0 < j < m && parent(j) == i ==> outranks(
                        self.items@[parent(i as int)],
                        #[trigger] self.items@[j],
                    ),
                forall|x: PairCandidate| #[trigger] self.items@.contains(x) <==> s1.contains(x),
                self.items@.to_multiset() == s1.to_multiset(),
            ensures
                m == self.items@.len(),
                Self::heap_ordered(self.items@),
                forall|x: PairCandidate| #[trigger] self.items@.contains(x) <==> s1.contains(x),
                self.items@.to_multiset() == s1.to_multiset(),
            decreases m - i,
        {
            let l = 2 * i + 1;
            let mut c = l;
            if l + 1 < m && !candidate_outranks(&self.items[l], &self.items[l + 1]) {
                c = l + 1;
            }
            if candidate_outranks(&self.items[i], &self.items[c]) {
                proof {
                    assert forall|j: int| 0 < j < m implies outranks(
                        #[trigger] self.items@[parent(j)],
                        self.items@[j],
                    ) by {
                        if parent(j) == i {
                            assert(j == l || j == l + 1);
                        }
                    }
                }
                break;
            }
            let ghost before = self.items@;
            let xi = self.items[i];
            let xc = self.items[c];
            self.items.set(i, xc);
            self.items.set(c, xi);
            proof {
                let s = self.items@;
                assert(s =~= before.update(i as int, xc).update(c as int, xi));
                Self::lemma_swap_multiset(before, i as int, c as int);
                assert(parent(c as int) == i);
                assert forall|x: PairCandidate| #[trigger] s.contains(x) <==> before.contains(x) by {
                    if s.contains(x) {
                        let j = choose|j: int| 0 <= j < s.len() && s[j] == x;
                        if j == i {
                            assert(before[c as int] == x);
                        } else if j == c {
                            assert(before[i as int] == x);
                        } else {
                            assert(before[j] == x);
                        }
                    }
                    if before.contains(x) {
                        let j = choose|j: int| 0 <= j < before.len() && before[j] == x;
                        if j == i {
                            assert(s[c as int] == x);
                        } else if j == c {
                            assert(s[i as int] == x);
                        } else {
                            assert(s[j] == x);
                        }
                    }
                }
                assert forall|j: int| 0 < j < m && parent(j) != c implies outranks(
                    #[trigger] s[parent(j)],
                    s[j],
                ) by {
                    if j == i {
                    } else if j == c {
                    } else if parent(j) == i {
                        assert(j == l || j == l + 1);
                    } else {
                        assert(outranks(before[parent(j)], before[j]));
                    }
                }
                assert forall|j: int| 0 < j < m && parent(j) == c implies outranks(
                    s[parent(c as int)],
                    #[trigger] s[j],
                ) by {
                    assert(outranks(before[parent(j)], before[j]));
                }
            }
            i = c;
        }
        proof {
            let s = self.items@;
            assert forall|x: PairCandidate| #[trigger] s.contains(x) implies s0.contains(x) by {}
        }
        Some(top)
    }
}

} // verus!
