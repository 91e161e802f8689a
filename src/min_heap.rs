//! A binary min-heap of `(vertex, cost)` entries, ordered by cost.
use vstd::multiset::Multiset;
use vstd::prelude::*;

verus! {

broadcast use {vstd::seq_lib::group_to_multiset_ensures, vstd::multiset::group_multiset_axioms};

/// Every entry but the one at `k` costs no less than its parent.
pub open spec fn ordered_except(s: Seq<(u32, u32)>, k: int) -> bool {
    forall|i: int| 0 < i < s.len() && i != k ==> s[(i - 1) / 2].1 <= #[trigger] s[i].1
}

/// Every entry whose parent is not at `k` costs no less than its parent.
pub open spec fn ordered_below_except(s: Seq<(u32, u32)>, k: int) -> bool {
    forall|i: int| 0 < i < s.len() && (i - 1) / 2 != k ==> s[(i - 1) / 2].1 <= #[trigger] s[i].1
}

/// The heap property: no entry costs less than its parent.
pub open spec fn heap_ordered(s: Seq<(u32, u32)>) -> bool {
    forall|i: int| 0 < i < s.len() ==> s[(i - 1) / 2].1 <= #[trigger] s[i].1
}

/// A frontier of `(vertex, cost)` entries from which the cheapest comes out
/// first; entries of equal cost leave in no promised order.
pub struct MinHeap {
    entries: Vec<(u32, u32)>,
}

impl View for MinHeap {
    type V = Multiset<(u32, u32)>;

    closed spec fn view(&self) -> Multiset<(u32, u32)> {
        self.entries@.to_multiset()
    }
}

proof fn lemma_root_is_least(s: Seq<(u32, u32)>, i: int)
    requires
        heap_ordered(s),
        0 <= i < s.len(),
    ensures
        s[0].1 <= s[i].1,
    decreases i,
{
    if i > 0 {
        lemma_root_is_least(s, (i - 1) / 2);
    }
}

proof fn lemma_sift_up_step(s: Seq<(u32, u32)>, k: int)
    requires
        0 < k < s.len(),
        ordered_except(s, k),
        forall|c: int| 0 < c < s.len() && (c - 1) / 2 == k ==> s[(k - 1) / 2].1 <= #[trigger] s[c].1,
        s[(k - 1) / 2].1 > s[k].1,
    ensures
        ({
            let p = (k - 1) / 2;
            let t = s.update(p, s[k]).update(k, s[p]);
            &&& ordered_except(t, p)
            &&& p > 0 ==> forall|c: int|
                0 < c < t.len() && (c - 1) / 2 == p ==> t[(p - 1) / 2].1 <= #[trigger] t[c].1
        }),
{
    let p = (k - 1) / 2;
    let t = s.update(p, s[k]).update(k, s[p]);
    assert forall|i: int| 0 < i < t.len() && i != p implies t[(i - 1) / 2].1 <= #[trigger] t[i].1 by {
        if i == k {
        } else if (i - 1) / 2 == k {
            assert(s[(k - 1) / 2].1 <= s[i].1);
        } else if (i - 1) / 2 == p {
            assert(s[(i - 1) / 2].1 <= s[i].1);
        } else {
            assert(s[(i - 1) / 2].1 <= s[i].1);
        }
    }
    if p > 0 {
        assert forall|c: int| 0 < c < t.len() && (c - 1) / 2 == p implies t[(p - 1) / 2].1
            <= #[trigger] t[c].1 by {
            assert(s[(p - 1) / 2].1 <= s[p].1);
            if c != k {
                assert(s[(c - 1) / 2].1 <= s[c].1);
            }
        }
    }
}

proof fn lemma_sift_down_step(s: Seq<(u32, u32)>, k: int, c: int)
    requires
        0 <= k,
        c == 2 * k + 1 || c == 2 * k + 2,
        c < s.len(),
        c == 2 * k + 1 && 2 * k + 2 < s.len() ==> s[c].1 <= s[2 * k + 2].1,
        c == 2 * k + 2 ==> s[c].1 <= s[2 * k + 1].1,
        ordered_below_except(s, k),
        k > 0 ==> forall|j: int| 0 < j < s.len() && (j - 1) / 2 == k ==> s[(k - 1) / 2].1 <= #[trigger] s[j].1,
        s[k].1 > s[c].1,
    ensures
        ({
            let t = s.update(k, s[c]).update(c, s[k]);
            &&& ordered_below_except(t, c)
            &&& forall|j: int| 0 < j < t.len() && (j - 1) / 2 == c ==> t[(c - 1) / 2].1 <= #[trigger] t[j].1
        }),
{
    let t = s.update(k, s[c]).update(c, s[k]);
    assert((c - 1) / 2 == k);
    assert forall|i: int| 0 < i < t.len() && (i - 1) / 2 != c implies t[(i - 1) / 2].1
        <= #[trigger] t[i].1 by {
        if i == c {
        } else if (i - 1) / 2 == k {
            assert(i == 2 * k + 1 || i == 2 * k + 2);
        } else if i == k {
            assert(s[(k - 1) / 2].1 <= s[c].1);
        } else {
            assert(s[(i - 1) / 2].1 <= s[i].1);
        }
    }
    assert forall|j: int| 0 < j < t.len() && (j - 1) / 2 == c implies t[(c - 1) / 2].1
        <= #[trigger] t[j].1 by {
        assert(s[(j - 1) / 2].1 <= s[j].1);
    }
}

proof fn lemma_sift_down_done(s: Seq<(u32, u32)>, k: int, c: int)
    requires
        0 <= k,
        c == 2 * k + 1 || c == 2 * k + 2,
        c < s.len(),
        c == 2 * k + 1 && 2 * k + 2 < s.len() ==> s[c].1 <= s[2 * k + 2].1,
        c == 2 * k + 2 ==> s[c].1 <= s[2 * k + 1].1,
        ordered_below_except(s, k),
        s[k].1 <= s[c].1,
    ensures
        heap_ordered(s),
{
    assert forall|i: int| 0 < i < s.len() implies s[(i - 1) / 2].1 <= #[trigger] s[i].1 by {
        if (i - 1) / 2 == k {
            assert(i == 2 * k + 1 || i == 2 * k + 2);
        }
    }
}

proof fn lemma_sift_down_leaf(s: Seq<(u32, u32)>, k: int)
    requires
        0 <= k,
        2 * k + 1 >= s.len(),
        ordered_below_except(s, k),
    ensures
        heap_ordered(s),
{
    assert forall|i: int| 0 < i < s.len() implies s[(i - 1) / 2].1 <= #[trigger] s[i].1 by {
        if (i - 1) / 2 == k {
            assert(2 * k + 1 <= i);
        }
    }
}

proof fn lemma_root_below_all(s: Seq<(u32, u32)>)
    requires
        heap_ordered(s),
        s.len() > 0,
    ensures
        forall|x: (u32, u32)| #[trigger] s.to_multiset().contains(x) ==> s[0].1 <= x.1,
{
    assert forall|x: (u32, u32)| #[trigger] s.to_multiset().contains(x) implies s[0].1 <= x.1 by {
        assert(s.contains(x));
        let i = choose|i: int| 0 <= i < s.len() && s[i] == x;
        lemma_root_is_least(s, i);
    }
}

proof fn lemma_swap_last_out(s: Seq<(u32, u32)>)
    requires
        s.len() > 0,
    ensures
        ({
            let n = s.len() - 1;
            let t = s.update(0, s[n]).update(n, s[0]);
            &&& t.drop_last().to_multiset().insert(s[0]) == s.to_multiset()
            &&& forall|i: int| 0 < i < n ==> #[trigger] t[i] == s[i]
        }),
{
    let n = s.len() - 1;
    let t = s.update(0, s[n]).update(n, s[0]);
    assert(t.drop_last() =~= t.remove(n));
    assert(t[n] == s[0]);
    assert(s.to_multiset().insert(s[n]).contains(s[0]));
    assert(s.to_multiset() =~= t.to_multiset());
    assert(t.remove(n).to_multiset() == t.to_multiset().remove(s[0]));
    assert(t.to_multiset().contains(s[0]));
    assert(t.drop_last().to_multiset().insert(s[0]) =~= s.to_multiset());
}

impl MinHeap {
    pub closed spec fn wf(&self) -> bool {
        heap_ordered(self.entries@)
    }

    pub fn new() -> (h: MinHeap)
        ensures
            h.wf(),
            h@ == Multiset::<(u32, u32)>::empty(),
    {
        let h = MinHeap { entries: Vec::new() };
        assert(h@ =~= Multiset::empty());
        h
    }

    pub fn len(&self) -> (n: usize)
        ensures
            n == self@.len(),
    {
        self.entries.len()
    }

    fn swap(&mut self, i: usize, j: usize)
        requires
            i < old(self).entries.len(),
            j < old(self).entries.len(),
        ensures
            final(self).entries@ == old(self).entries@.update(i as int, old(self).entries@[j as int]).update(
                j as int,
                old(self).entries@[i as int],
            ),
            final(self)@ == old(self)@,
    {
        let ghost s = self.entries@;
        let a = self.entries[i];
        let b = self.entries[j];
        self.entries.set(i, b);
        self.entries.set(j, a);
        assert(s.to_multiset().contains(a));
        assert(s.to_multiset().insert(b).contains(a));
        assert(self@ =~= s.to_multiset());
    }

    /// Adds an entry.
    pub fn push(&mut self, e: (u32, u32))
        requires
            old(self).wf(),
        ensures
            final(self).wf(),
            final(self)@ == old(self)@.insert(e),
    {
        self.entries.push(e);
        let mut k: usize = self.entries.len() - 1;
        let mut done = false;
        while k > 0 && !done
            invariant
                0 <= k < self.entries@.len(),
                done ==> heap_ordered(self.entries@),
                ordered_except(self.entries@, k as int),
                k > 0 ==> forall|c: int|
                    0 < c < self.entries@.len() && (c - 1) / 2 == k ==> self.entries@[(k - 1) / 2].1
                        <= #[trigger] self.entries@[c].1,
                self@ == old(self)@.insert(e),
            decreases 2 * k + if done {
                0int
            } else {
                1int
            },
        {
            let p = (k - 1) / 2;
            if self.entries[p].1 <= self.entries[k].1 {
                done = true;
            } else {
                let ghost s = self.entries@;
                self.swap(p, k);
                proof {
                    lemma_sift_up_step(s, k as int);
                }
                k = p;
            }
        }
    }

    /// Removes and returns an entry of least cost, if any.
    pub fn pop(&mut self) -> (r: Option<(u32, u32)>)
        requires
            old(self).wf(),
        ensures
            final(self).wf(),
            r is None <==> old(self)@.len() == 0,
            r matches Some(e) ==> {
                &&& old(self)@ == final(self)@.insert(e)
                &&& forall|x: (u32, u32)| #[trigger] old(self)@.contains(x) ==> e.1 <= x.1
            },
    {
        let n = self.entries.len();
        if n == 0 {
            return None;
        }
        let ghost s0 = self.entries@;
        proof {
            lemma_root_below_all(s0);
        }
        self.swap(0, n - 1);
        let e = self.entries.pop().unwrap();
        proof {
            lemma_swap_last_out(s0);
        }
        let m = self.entries.len();
        let mut k: usize = 0;
        proof {
            assert forall|i: int| 0 < i < m && (i - 1) / 2 != 0 implies self.entries@[(i - 1) / 2].1
                <= #[trigger] self.entries@[i].1 by {
                assert(s0[(i - 1) / 2].1 <= s0[i].1);
            }
        }
        let mut done = false;
        while k < m / 2 && !done
            invariant
                m == self.entries@.len(),
                k < m || m == 0,
                done ==> heap_ordered(self.entries@),
                ordered_below_except(self.entries@, k as int),
                k > 0 ==> forall|c: int|
                    0 < c < m && (c - 1) / 2 == k ==> self.entries@[(k - 1) / 2].1
                        <= #[trigger] self.entries@[c].1,
                self@ == old(self)@.remove(e),
            decreases 2 * (m - k) + if done {
                0int
            } else {
                1int
            },
        {
            let l = 2 * k + 1;
            let mut c = l;
            if l + 1 < m && self.entries[l + 1].1 < self.entries[l].1 {
                c = l + 1;
            }
            if self.entries[k].1 <= self.entries[c].1 {
                proof {
                    lemma_sift_down_done(self.entries@, k as int, c as int);
                }
                done = true;
            } else {
                let ghost s = self.entries@;
                self.swap(k, c);
                proof {
                    lemma_sift_down_step(s, k as int, c as int);
                }
                k = c;
            }
        }
        proof {
            if !done {
                lemma_sift_down_leaf(self.entries@, k as int);
            }
            assert(old(self)@ =~= self@.insert(e));
        }
        Some(e)
    }
}

} // verus!
