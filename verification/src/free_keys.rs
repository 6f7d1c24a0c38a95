//! The pool of free descriptor indices, kept as runs of adjacent indices.

use vstd::prelude::*;
use crate::layout::KEY_MAXCOUNT;

verus! {

/// How a free run lies relative to an index.
#[derive(Clone, Copy, Debug, PartialEq, Eq, Structural)]
pub enum FreeKeyCases {
    /// The index is the one just below the run.
    LeftAdjacent,
    /// The index is the one just above the run.
    RightAdjacent,
    /// The index is inside the run.
    Within,
    /// The index is below the run and does not touch it.
    LessThan,
    /// The index is above the run and does not touch it.
    GreaterThan,
}

/// A run of free descriptor indices: `start` and the `run` indices after it.
#[derive(Clone, Copy, Debug)]
pub struct FreeKeyRange {
    /// The first free index of the run.
    pub start: u32,
    /// Number of further free indices after `start`.
    pub run: u32,
}

impl FreeKeyRange {
    /// The last index of the run.
    pub open spec fn end(self) -> int {
        self.start + self.run
    }

    /// Whether index `x` is inside the run.
    pub open spec fn has(self, x: int) -> bool {
        self.start <= x <= self.end()
    }

    /// How the run lies relative to `index`.
    pub open spec fn compare_spec(self, index: int) -> FreeKeyCases {
        if index < self.start - 1 {
            FreeKeyCases::LessThan
        } else if index == self.start - 1 {
            FreeKeyCases::LeftAdjacent
        } else if index <= self.end() {
            FreeKeyCases::Within
        } else if index == self.end() + 1 {
            FreeKeyCases::RightAdjacent
        } else {
            FreeKeyCases::GreaterThan
        }
    }

    /// Classifies `index` against this run.
    pub fn compare_to(&self, index: u32) -> (case: FreeKeyCases)
        ensures
            case == self.compare_spec(index as int),
    {
        let start: u64 = self.start as u64;
        let end: u64 = self.start as u64 + self.run as u64;
        let at: u64 = index as u64;
        if at + 1 < start {
            FreeKeyCases::LessThan
        } else if at + 1 == start {
            FreeKeyCases::LeftAdjacent
        } else if at <= end {
            FreeKeyCases::Within
        } else if at == end + 1 {
            FreeKeyCases::RightAdjacent
        } else {
            FreeKeyCases::GreaterThan
        }
    }
}

/// Whether some run of `s` holds index `x`.
pub open spec fn runs_have(s: Seq<FreeKeyRange>, x: int) -> bool {
    exists|i: int| 0 <= i < s.len() && (#[trigger] s[i]).has(x)
}

/// Runs in ascending order that neither overlap nor touch, all inside
/// `1..=KEY_MAXCOUNT`.
pub open spec fn runs_wf(s: Seq<FreeKeyRange>) -> bool {
    &&& forall|i: int| 0 <= i < s.len() ==> 1 <= (#[trigger] s[i]).start && s[i].end() <= KEY_MAXCOUNT
    &&& forall|i: int, j: int|
        0 <= i < j < s.len() ==> (#[trigger] s[i]).end() + 1 < (#[trigger] s[j]).start
}

/// The free descriptor indices of a dictionary, smallest first.
#[derive(Debug)]
pub struct FreeIndexHeap {
    /// The runs, in ascending order.
    pub ranges: Vec<FreeKeyRange>,
}

impl View for FreeIndexHeap {
    type V = Set<int>;

    /// The set of free indices.
    open spec fn view(&self) -> Set<int> {
        Set::new(|x: int| runs_have(self.ranges@, x))
    }
}

impl FreeIndexHeap {
    /// The runs are ordered, apart from each other and within bounds.
    pub open spec fn wf(&self) -> bool {
        runs_wf(self.ranges@)
    }

    /// A heap with no free index.
    pub fn new() -> (heap: FreeIndexHeap)
        ensures
            heap.wf(),
            heap@ == Set::<int>::empty(),
            heap.ranges@.len() == 0,
    {
        let heap = FreeIndexHeap { ranges: Vec::new() };
        assert(heap@ =~= Set::<int>::empty());
        heap
    }

    /// A heap whose free indices are those from `start` to `KEY_MAXCOUNT`.
    pub fn from_high_water(start: u32) -> (heap: FreeIndexHeap)
        ensures
            heap.wf(),
            heap@ == Set::new(|x: int| 1 <= x && start <= x <= KEY_MAXCOUNT),
    {
        let mut heap = FreeIndexHeap { ranges: Vec::new() };
        let first: u32 = if start == 0 { 1 } else { start };
        if first as usize <= KEY_MAXCOUNT {
            let r = FreeKeyRange { start: first, run: (KEY_MAXCOUNT - first as usize) as u32 };
            heap.ranges.push(r);
            assert(heap.ranges@[0] == r);
            assert forall|x: int| 1 <= x && start <= x <= KEY_MAXCOUNT implies runs_have(
                heap.ranges@,
                x,
            ) by {
                assert(heap.ranges@[0].has(x));
            }
        }
        assert(heap@ =~= Set::new(|x: int| 1 <= x && start <= x <= KEY_MAXCOUNT));
        heap
    }

    /// Whether no index is free.
    pub fn is_empty(&self) -> (r: bool)
        requires
            self.wf(),
        ensures
            r == (self@ == Set::<int>::empty()),
            r == (self.ranges@.len() == 0),
    {
        let r = self.ranges.len() == 0;
        proof {
            if r {
                assert(self@ =~= Set::<int>::empty());
            } else {
                assert(self.ranges@[0].has(self.ranges@[0].start as int));
                assert(self@.contains(self.ranges@[0].start as int));
            }
        }
        r
    }

    /// Whether `index` is free.
    pub fn contains(&self, index: u32) -> (r: bool)
        ensures
            r == self@.contains(index as int),
    {
        let mut i: usize = 0;
        while i < self.ranges.len()
            invariant
                i <= self.ranges@.len(),
                forall|j: int| 0 <= j < i ==> !(#[trigger] self.ranges@[j]).has(index as int),
            decreases self.ranges@.len() - i,
        {
            let r = self.ranges[i];
            if r.start <= index && index as u64 <= r.start as u64 + r.run as u64 {
                assert(self.ranges@[i as int].has(index as int));
                return true;
            }
            i += 1;
        }
        false
    }

    /// Takes the smallest free index out of the heap.
    pub fn pop(&mut self) -> (r: Option<u32>)
        requires
            old(self).wf(),
        ensures
            final(self).wf(),
            r is None <==> old(self)@ == Set::<int>::empty(),
            r is None ==> final(self).ranges@ == old(self).ranges@,
            r matches Some(i) ==> {
                &&& old(self)@.contains(i as int)
                &&& 1 <= i <= KEY_MAXCOUNT
                &&& forall|x: int| old(self)@.contains(x) ==> i <= x
                &&& final(self)@ == old(self)@.remove(i as int)
            },
    {
        if self.ranges.len() == 0 {
            assert(self@ =~= Set::<int>::empty());
            return None;
        }
        let ghost s = self.ranges@;
        let first = self.ranges[0];
        assert(s[0].has(first.start as int));
        assert(self@.contains(first.start as int));
        if first.run > 0 {
            let r = FreeKeyRange { start: first.start + 1, run: first.run - 1 };
            self.ranges.set(0, r);
            proof {
                let t = self.ranges@;
                assert forall|x: int| runs_have(t, x) <==> (runs_have(s, x) && x != first.start) by {
                    if runs_have(t, x) {
                        let j = choose|j: int| 0 <= j < t.len() && (#[trigger] t[j]).has(x);
                        assert(s[j].has(x));
                        if j > 0 {
                            assert(s[0].end() + 1 < s[j].start);
                        }
                    }
                    if runs_have(s, x) && x != first.start {
                        let j = choose|j: int| 0 <= j < s.len() && (#[trigger] s[j]).has(x);
                        assert(t[j].has(x));
                    }
                }
                assert forall|i: int, j: int| 0 <= i < j < t.len() implies (#[trigger] t[i]).end()
                    + 1 < (#[trigger] t[j]).start by {
                    assert(s[i].end() + 1 < s[j].start);
                }
                assert forall|i: int| 0 <= i < t.len() implies 1 <= (#[trigger] t[i]).start
                    && t[i].end() <= KEY_MAXCOUNT by {
                    assert(1 <= s[i].start && s[i].end() <= KEY_MAXCOUNT);
                }
            }
        } else {
            self.ranges.remove(0);
            proof {
                let t = self.ranges@;
                assert forall|x: int| runs_have(t, x) <==> (runs_have(s, x) && x != first.start) by {
                    if runs_have(t, x) {
                        let j = choose|j: int| 0 <= j < t.len() && (#[trigger] t[j]).has(x);
                        assert(s[j + 1].has(x));
                        assert(s[0].end() + 1 < s[j + 1].start);
                    }
                    if runs_have(s, x) && x != first.start {
                        let j = choose|j: int| 0 <= j < s.len() && (#[trigger] s[j]).has(x);
                        assert(t[j - 1].has(x));
                    }
                }
                assert forall|i: int, j: int| 0 <= i < j < t.len() implies (#[trigger] t[i]).end()
                    + 1 < (#[trigger] t[j]).start by {
                    assert(s[i + 1].end() + 1 < s[j + 1].start);
                }
                assert forall|i: int| 0 <= i < t.len() implies 1 <= (#[trigger] t[i]).start
                    && t[i].end() <= KEY_MAXCOUNT by {
                    assert(1 <= s[i + 1].start && s[i + 1].end() <= KEY_MAXCOUNT);
                }
            }
        }
        proof {
            assert(self@ =~= old(self)@.remove(first.start as int));
            assert forall|x: int| old(self)@.contains(x) implies first.start <= x by {
                let j = choose|j: int| 0 <= j < s.len() && (#[trigger] s[j]).has(x);
                if j > 0 {
                    assert(s[0].end() + 1 < s[j].start);
                }
            }
        }
        Some(first.start)
    }

    /// Returns `index` to the heap, merging it with the runs it touches.
    #[verifier::loop_isolation(false)]
    pub fn push(&mut self, index: u32)
        requires
            old(self).wf(),
            1 <= index <= KEY_MAXCOUNT,
            !old(self)@.contains(index as int),
        ensures
            final(self).wf(),
            final(self)@ == old(self)@.insert(index as int),
    {
        let ghost s = self.ranges@;
        let n = self.ranges.len();
        let mut k: usize = 0;
        while k < n
            invariant
                k <= n,
                n == s.len(),
                self.ranges@ == s,
                forall|j: int| 0 <= j < k ==> (#[trigger] s[j]).end() + 1 < index,
            decreases n - k,
        {
            let cur = self.ranges[k];
            match cur.compare_to(index) {
                FreeKeyCases::GreaterThan => {
                    k += 1;
                },
                FreeKeyCases::Within => {
                    proof {
                        assert(s[k as int].has(index as int));
                        assert(old(self)@.contains(index as int));
                    }
                    unreached()
                },
                FreeKeyCases::LessThan => {
                    let r = FreeKeyRange { start: index, run: 0 };
                    self.ranges.insert(k, r);
                    proof {
                        lemma_insert_run(s, k as int, r);
                        assert(self@ =~= old(self)@.insert(index as int));
                    }
                    return ;
                },
                FreeKeyCases::LeftAdjacent => {
                    let r = FreeKeyRange { start: index, run: cur.run + 1 };
                    self.ranges.set(k, r);
                    proof {
                        lemma_grow_run(s, k as int, r, index as int);
                        assert(self@ =~= old(self)@.insert(index as int));
                    }
                    return ;
                },
                FreeKeyCases::RightAdjacent => {
                    let bridges = k + 1 < n && match self.ranges[k + 1].compare_to(index) {
                        FreeKeyCases::LeftAdjacent => true,
                        _ => false,
                    };
                    if bridges {
                        let next = self.ranges[k + 1];
                        let r = FreeKeyRange { start: cur.start, run: cur.run + next.run + 2 };
                        self.ranges.set(k, r);
                        self.ranges.remove(k + 1);
                        proof {
                            lemma_bridge_runs(s, k as int, r, index as int);
                            assert(self.ranges@ =~= s.update(k as int, r).remove(k as int + 1));
                            assert(self@ =~= old(self)@.insert(index as int));
                        }
                    } else {
                        let r = FreeKeyRange { start: cur.start, run: cur.run + 1 };
                        self.ranges.set(k, r);
                        proof {
                            if k + 1 < n {
                                assert(s[k as int].end() + 1 < s[k as int + 1].start);
                                assert(!s[k as int + 1].has(index as int)) by {
                                    if s[k as int + 1].has(index as int) {
                                        assert(old(self)@.contains(index as int));
                                    }
                                }
                            }
                            lemma_grow_run(s, k as int, r, index as int);
                            assert(self@ =~= old(self)@.insert(index as int));
                        }
                    }
                    return ;
                },
            }
        }
        let r = FreeKeyRange { start: index, run: 0 };
        self.ranges.push(r);
        proof {
            assert(self.ranges@ =~= s.insert(n as int, r));
            lemma_insert_run(s, n as int, r);
            assert(self@ =~= old(self)@.insert(index as int));
        }
    }
}

/// Inserting a single index as a run of its own between the runs that lie
/// clear of it adds that index and keeps the runs well formed.
pub proof fn lemma_insert_run(s: Seq<FreeKeyRange>, k: int, r: FreeKeyRange)
    requires
        runs_wf(s),
        0 <= k <= s.len(),
        r.run == 0,
        1 <= r.start <= KEY_MAXCOUNT,
        forall|j: int| 0 <= j < k ==> (#[trigger] s[j]).end() + 1 < r.start,
        k < s.len() ==> r.start + 1 < s[k].start,
    ensures
        runs_wf(s.insert(k, r)),
        forall|x: int| runs_have(s.insert(k, r), x) <==> (runs_have(s, x) || x == r.start),
{
    let t = s.insert(k, r);
    assert forall|i: int, j: int| 0 <= i < j < t.len() implies (#[trigger] t[i]).end() + 1 < (
    #[trigger] t[j]).start by {
        let oi = if i < k { i } else { i - 1 };
        let oj = if j < k { j } else { j - 1 };
        if i != k && j != k {
            assert(s[oi].end() + 1 < s[oj].start);
        } else if i == k {
            if k < oj {
                assert(s[k].end() + 1 < s[oj].start);
            }
        } else {
            assert(s[oi].end() + 1 < r.start);
        }
    }
    assert forall|i: int| 0 <= i < t.len() implies 1 <= (#[trigger] t[i]).start && t[i].end()
        <= KEY_MAXCOUNT by {
        if i < k {
            assert(1 <= s[i].start && s[i].end() <= KEY_MAXCOUNT);
        } else if i > k {
            assert(1 <= s[i - 1].start && s[i - 1].end() <= KEY_MAXCOUNT);
        }
    }
    assert forall|x: int| runs_have(t, x) <==> (runs_have(s, x) || x == r.start) by {
        if runs_have(t, x) {
            let j = choose|j: int| 0 <= j < t.len() && (#[trigger] t[j]).has(x);
            if j < k {
                assert(s[j].has(x));
            } else if j > k {
                assert(s[j - 1].has(x));
            }
        }
        if runs_have(s, x) {
            let j = choose|j: int| 0 <= j < s.len() && (#[trigger] s[j]).has(x);
            if j < k {
                assert(t[j].has(x));
            } else {
                assert(t[j + 1].has(x));
            }
        }
        if x == r.start {
            assert(t[k].has(x));
        }
    }
}

/// Growing run `k` by the one index next to it adds that index and keeps
/// the runs well formed, where the neighbours stay clear of it.
pub proof fn lemma_grow_run(s: Seq<FreeKeyRange>, k: int, r: FreeKeyRange, index: int)
    requires
        runs_wf(s),
        0 <= k < s.len(),
        1 <= index <= KEY_MAXCOUNT,
        (r.start == index && r.end() == s[k].end() && index + 1 == s[k].start) || (r.start
            == s[k].start && r.end() == index && index == s[k].end() + 1),
        forall|j: int| 0 <= j < k ==> (#[trigger] s[j]).end() + 1 < index,
        k + 1 < s.len() ==> index + 1 < s[k + 1].start,
    ensures
        runs_wf(s.update(k, r)),
        forall|x: int| runs_have(s.update(k, r), x) <==> (runs_have(s, x) || x == index),
{
    let t = s.update(k, r);
    assert forall|i: int, j: int| 0 <= i < j < t.len() implies (#[trigger] t[i]).end() + 1 < (
    #[trigger] t[j]).start by {
        assert(s[i].end() + 1 < s[j].start);
        if i == k && k + 1 < j {
            assert(s[k + 1].end() + 1 < s[j].start);
        }
    }
    assert forall|i: int| 0 <= i < t.len() implies 1 <= (#[trigger] t[i]).start && t[i].end()
        <= KEY_MAXCOUNT by {
        assert(1 <= s[i].start && s[i].end() <= KEY_MAXCOUNT);
    }
    assert forall|x: int| runs_have(t, x) <==> (runs_have(s, x) || x == index) by {
        if runs_have(t, x) {
            let j = choose|j: int| 0 <= j < t.len() && (#[trigger] t[j]).has(x);
            if j != k {
                assert(s[j].has(x));
            } else if x != index {
                assert(s[k].has(x));
            }
        }
        if runs_have(s, x) {
            let j = choose|j: int| 0 <= j < s.len() && (#[trigger] s[j]).has(x);
            assert(t[j].has(x));
        }
        if x == index {
            assert(t[k].has(x));
        }
    }
}

/// Joining runs `k` and `k + 1` over the one index between them adds that
/// index and keeps the runs well formed.
pub proof fn lemma_bridge_runs(s: Seq<FreeKeyRange>, k: int, r: FreeKeyRange, index: int)
    requires
        runs_wf(s),
        0 <= k,
        k + 1 < s.len(),
        index == s[k].end() + 1,
        index + 1 == s[k + 1].start,
        r.start == s[k].start,
        r.end() == s[k + 1].end(),
    ensures
        runs_wf(s.update(k, r).remove(k + 1)),
        forall|x: int|
            runs_have(s.update(k, r).remove(k + 1), x) <==> (runs_have(s, x) || x == index),
{
    let t = s.update(k, r).remove(k + 1);
    assert forall|i: int, j: int| 0 <= i < j < t.len() implies (#[trigger] t[i]).end() + 1 < (
    #[trigger] t[j]).start by {
        let oi = if i <= k { i } else { i + 1 };
        let oj = if j <= k { j } else { j + 1 };
        assert(s[oi].end() + 1 < s[oj].start);
        if i == k {
            assert(s[k + 1].end() + 1 < s[oj].start);
        }
    }
    assert forall|i: int| 0 <= i < t.len() implies 1 <= (#[trigger] t[i]).start && t[i].end()
        <= KEY_MAXCOUNT by {
        let oi = if i <= k { i } else { i + 1 };
        assert(1 <= s[oi].start && s[oi].end() <= KEY_MAXCOUNT);
        assert(1 <= s[k + 1].start && s[k + 1].end() <= KEY_MAXCOUNT);
    }
    assert forall|x: int| runs_have(t, x) <==> (runs_have(s, x) || x == index) by {
        if runs_have(t, x) {
            let j = choose|j: int| 0 <= j < t.len() && (#[trigger] t[j]).has(x);
            if j < k {
                assert(s[j].has(x));
            } else if j > k {
                assert(s[j + 1].has(x));
            } else if x != index {
                if x < index {
                    assert(s[k].has(x));
                } else {
                    assert(s[k + 1].has(x));
                }
            }
        }
        if runs_have(s, x) {
            let j = choose|j: int| 0 <= j < s.len() && (#[trigger] s[j]).has(x);
            if j <= k {
                assert(t[j].has(x));
            } else if j == k + 1 {
                assert(t[k].has(x));
            } else {
                assert(t[j - 1].has(x));
            }
        }
        if x == index {
            assert(t[k].has(x));
        }
    }
}

} // verus!
