//! A bit storage that keeps the set positions as sorted runs.
//!
//! The storage is a sequence of closed ranges `(first, last)`. Its meaning is
//! the set of positions that some range holds; its shape is canonical, which
//! makes the sequence a function of that set: the same positions, set and
//! cleared in any order, leave the same sequence.

use crate::bloom::Bitmap;
use vstd::prelude::*;

verus! {

/// Whether position `p` lies in the closed range `run`.
pub open spec fn in_run(run: (usize, usize), p: int) -> bool {
    run.0 <= p <= run.1
}

/// The positions that one of `runs` holds.
pub open spec fn covered(runs: Seq<(usize, usize)>) -> Set<int> {
    Set::new(|p: int| exists|i: int| 0 <= i < runs.len() && #[trigger] in_run(runs[i], p))
}

/// Whether `runs` is the one way to write its positions down: no run is
/// empty, the runs ascend, and between two of them at least one position is
/// left out, so that no two overlap or touch.
pub open spec fn canonical(runs: Seq<(usize, usize)>) -> bool {
    &&& forall|i: int| 0 <= i < runs.len() ==> (#[trigger] runs[i]).0 <= runs[i].1
    &&& forall|i: int, j: int|
        0 <= i < j < runs.len() ==> (#[trigger] runs[i]).1 + 1 < (#[trigger] runs[j]).0
}

/// Canonical runs are maximal: the position before a run and the position
/// behind it are not covered, so no run can be made longer and none is part
/// of a longer stretch of set positions.
pub proof fn lemma_runs_maximal(runs: Seq<(usize, usize)>, i: int)
    requires
        canonical(runs),
        0 <= i < runs.len(),
    ensures
        covered(runs).contains(runs[i].0 as int),
        covered(runs).contains(runs[i].1 as int),
        !covered(runs).contains(runs[i].0 - 1),
        !covered(runs).contains(runs[i].1 + 1),
{
    assert(in_run(runs[i], runs[i].0 as int));
    assert(in_run(runs[i], runs[i].1 as int));
    assert forall|j: int| 0 <= j < runs.len() implies !in_run(#[trigger] runs[j], runs[i].0 - 1)
        && !in_run(runs[j], runs[i].1 + 1) by {
        if j < i {
            assert(runs[j].1 + 1 < runs[i].0);
        } else if i < j {
            assert(runs[i].1 + 1 < runs[j].0);
        }
    }
}

/// Of two canonical sequences that cover the same positions, the first does
/// not start before the second, and its first run does not end before that
/// of the second.
proof fn lemma_first_run(a: Seq<(usize, usize)>, b: Seq<(usize, usize)>)
    requires
        canonical(a),
        canonical(b),
        covered(a) == covered(b),
        a.len() > 0,
        b.len() > 0,
    ensures
        b[0].0 <= a[0].0,
        a[0].0 == b[0].0 ==> b[0].1 <= a[0].1,
{
    assert(in_run(a[0], a[0].0 as int));
    assert(covered(b).contains(a[0].0 as int));
    let j = choose|j: int| 0 <= j < b.len() && in_run(b[j], a[0].0 as int);
    if j > 0 {
        assert(b[0].1 + 1 < b[j].0);
    }
    if a[0].0 == b[0].0 && a[0].1 < b[0].1 {
        let q = a[0].1 + 1;
        assert(in_run(b[0], q));
        assert(covered(a).contains(q));
        let i = choose|i: int| 0 <= i < a.len() && in_run(a[i], q);
        if i > 0 {
            assert(a[0].1 + 1 < a[i].0);
        }
    }
}

/// Of two canonical sequences with the same first run that cover the same
/// positions, what the first covers behind its first run the second covers
/// behind its first run.
proof fn lemma_rest(a: Seq<(usize, usize)>, b: Seq<(usize, usize)>, q: int)
    requires
        canonical(a),
        canonical(b),
        covered(a) == covered(b),
        a.len() > 0,
        b.len() > 0,
        a[0] == b[0],
    ensures
        canonical(a.drop_first()),
        covered(a.drop_first()).contains(q) ==> covered(b.drop_first()).contains(q),
{
    let (x, y) = (a.drop_first(), b.drop_first());
    if covered(x).contains(q) {
        let i = choose|i: int| 0 <= i < x.len() && in_run(x[i], q);
        assert(in_run(a[i + 1], q));
        assert(a[0].1 + 1 < a[i + 1].0);
        assert(covered(b).contains(q));
        let j = choose|j: int| 0 <= j < b.len() && in_run(b[j], q);
        assert(in_run(y[j - 1], q));
    }
}

/// A set of positions has at most one canonical way to be written down: two
/// canonical sequences of runs that cover the same positions are the same
/// sequence.
pub proof fn lemma_canonical_unique(a: Seq<(usize, usize)>, b: Seq<(usize, usize)>)
    requires
        canonical(a),
        canonical(b),
        covered(a) == covered(b),
    ensures
        a == b,
    decreases a.len(),
{
    if a.len() == 0 || b.len() == 0 {
        if a.len() > 0 {
            assert(in_run(a[0], a[0].0 as int));
            assert(covered(b).contains(a[0].0 as int));
        }
        if b.len() > 0 {
            assert(in_run(b[0], b[0].0 as int));
            assert(covered(a).contains(b[0].0 as int));
        }
        assert(a =~= b);
    } else {
        lemma_first_run(a, b);
        lemma_first_run(b, a);
        let (x, y) = (a.drop_first(), b.drop_first());
        assert forall|q: int| covered(x).contains(q) <==> covered(y).contains(q) by {
            lemma_rest(a, b, q);
            lemma_rest(b, a, q);
        }
        assert(covered(x) =~= covered(y));
        lemma_canonical_unique(x, y);
        assert(a =~= seq![a[0]] + x);
        assert(b =~= seq![b[0]] + y);
    }
}

/// Where `p` runs start at or before `key` and the others behind it, `key`
/// is covered if and only if the last of those `p` runs reaches it.
proof fn lemma_located(runs: Seq<(usize, usize)>, p: int, key: usize)
    requires
        canonical(runs),
        0 <= p <= runs.len(),
        forall|i: int| 0 <= i < p ==> (#[trigger] runs[i]).0 <= key,
        forall|i: int| p <= i < runs.len() ==> key < (#[trigger] runs[i]).0,
    ensures
        covered(runs).contains(key as int) <==> p > 0 && key <= runs[p - 1].1,
{
    if p > 0 && key <= runs[p - 1].1 {
        assert(in_run(runs[p - 1], key as int));
    }
    if covered(runs).contains(key as int) {
        let i = choose|i: int| 0 <= i < runs.len() && in_run(runs[i], key as int);
        if i < p - 1 {
            assert(runs[i].1 + 1 < runs[p - 1].0);
        }
    }
}

/// A run of the single position `key`, put where no run holds or touches
/// `key`, adds `key` and keeps the runs canonical.
proof fn lemma_open(runs: Seq<(usize, usize)>, p: int, key: usize)
    requires
        canonical(runs),
        0 <= p <= runs.len(),
        p > 0 ==> runs[p - 1].1 + 1 < key,
        p < runs.len() ==> key + 1 < runs[p].0,
    ensures
        canonical(runs.insert(p, (key, key))),
        covered(runs.insert(p, (key, key))) == covered(runs).insert(key as int),
{
    let after = runs.insert(p, (key, key));
    assert forall|q: int| covered(after).contains(q) <==> covered(runs).insert(
        key as int,
    ).contains(q) by {
        if covered(after).contains(q) {
            let i = choose|i: int| 0 <= i < after.len() && in_run(after[i], q);
            if i < p {
                assert(in_run(runs[i], q));
            } else if i > p {
                assert(in_run(runs[i - 1], q));
            }
        }
        if covered(runs).contains(q) {
            let i = choose|i: int| 0 <= i < runs.len() && in_run(runs[i], q);
            if i < p {
                assert(in_run(after[i], q));
            } else {
                assert(in_run(after[i + 1], q));
            }
        }
        if q == key {
            assert(in_run(after[p], q));
        }
    }
    assert(covered(after) =~= covered(runs).insert(key as int));
}

/// A run that takes in the position `key` at one of its ends, where `key`
/// touches no other run, adds `key` and keeps the runs canonical.
proof fn lemma_grow(runs: Seq<(usize, usize)>, i: int, key: usize)
    requires
        canonical(runs),
        0 <= i < runs.len(),
        runs[i].1 + 1 == key || key + 1 == runs[i].0,
        i > 0 ==> runs[i - 1].1 + 1 < key,
        i + 1 < runs.len() ==> key + 1 < runs[i + 1].0,
    ensures
        ({
            let grown = if runs[i].1 < key {
                (runs[i].0, key)
            } else {
                (key, runs[i].1)
            };
            &&& canonical(runs.update(i, grown))
            &&& covered(runs.update(i, grown)) == covered(runs).insert(key as int)
        }),
{
    let grown = if runs[i].1 < key {
        (runs[i].0, key)
    } else {
        (key, runs[i].1)
    };
    let after = runs.update(i, grown);
    assert forall|q: int| covered(after).contains(q) <==> covered(runs).insert(
        key as int,
    ).contains(q) by {
        if covered(after).contains(q) {
            let j = choose|j: int| 0 <= j < after.len() && in_run(after[j], q);
            if j != i {
                assert(in_run(runs[j], q));
            } else if q != key {
                assert(in_run(runs[i], q));
            }
        }
        if covered(runs).contains(q) {
            let j = choose|j: int| 0 <= j < runs.len() && in_run(runs[j], q);
            assert(in_run(after[j], q));
        }
        if q == key {
            assert(in_run(after[i], q));
        }
    }
    assert(covered(after) =~= covered(runs).insert(key as int));
}

/// Where `key` is the one position between two runs, the run from the start
/// of the first to the end of the second, in place of both, adds `key` and
/// keeps the runs canonical.
proof fn lemma_bridge(runs: Seq<(usize, usize)>, p: int, key: usize)
    requires
        canonical(runs),
        0 < p < runs.len(),
        runs[p - 1].1 + 1 == key,
        key + 1 == runs[p].0,
    ensures
        canonical(runs.remove(p).update(p - 1, (runs[p - 1].0, runs[p].1))),
        covered(runs.remove(p).update(p - 1, (runs[p - 1].0, runs[p].1))) == covered(
            runs,
        ).insert(key as int),
{
    let after = runs.remove(p).update(p - 1, (runs[p - 1].0, runs[p].1));
    assert forall|q: int| covered(after).contains(q) <==> covered(runs).insert(
        key as int,
    ).contains(q) by {
        if covered(after).contains(q) {
            let j = choose|j: int| 0 <= j < after.len() && in_run(after[j], q);
            if j < p - 1 {
                assert(in_run(runs[j], q));
            } else if j > p - 1 {
                assert(in_run(runs[j + 1], q));
            } else if q < key {
                assert(in_run(runs[p - 1], q));
            } else if q > key {
                assert(in_run(runs[p], q));
            }
        }
        if covered(runs).contains(q) {
            let j = choose|j: int| 0 <= j < runs.len() && in_run(runs[j], q);
            if j < p {
                assert(in_run(after[j], q));
            } else {
                assert(in_run(after[j - 1], q));
            }
        }
        if q == key {
            assert(in_run(after[p - 1], q));
        }
    }
    assert(covered(after) =~= covered(runs).insert(key as int));
}

/// Taking out the run that holds `key` alone removes `key` and keeps the runs
/// canonical.
proof fn lemma_close(runs: Seq<(usize, usize)>, i: int, key: usize)
    requires
        canonical(runs),
        0 <= i < runs.len(),
        runs[i] == (key, key),
    ensures
        canonical(runs.remove(i)),
        covered(runs.remove(i)) == covered(runs).remove(key as int),
{
    let after = runs.remove(i);
    assert forall|q: int| covered(after).contains(q) <==> covered(runs).remove(
        key as int,
    ).contains(q) by {
        if covered(after).contains(q) {
            let j = choose|j: int| 0 <= j < after.len() && in_run(after[j], q);
            if j < i {
                assert(in_run(runs[j], q));
            } else {
                assert(in_run(runs[j + 1], q));
            }
        }
        if covered(runs).contains(q) && q != key {
            let j = choose|j: int| 0 <= j < runs.len() && in_run(runs[j], q);
            if j < i {
                assert(in_run(after[j], q));
            } else {
                assert(in_run(after[j - 1], q));
            }
        }
    }
    assert(covered(after) =~= covered(runs).remove(key as int));
}

/// A run of more than one position that gives up `key` at one of its ends
/// removes `key` and keeps the runs canonical.
proof fn lemma_shrink(runs: Seq<(usize, usize)>, i: int, key: usize)
    requires
        canonical(runs),
        0 <= i < runs.len(),
        runs[i].0 < runs[i].1,
        key == runs[i].0 || key == runs[i].1,
    ensures
        ({
            let shrunk = if key == runs[i].0 {
                ((key + 1) as usize, runs[i].1)
            } else {
                (runs[i].0, (key - 1) as usize)
            };
            &&& canonical(runs.update(i, shrunk))
            &&& covered(runs.update(i, shrunk)) == covered(runs).remove(key as int)
        }),
{
    let shrunk = if key == runs[i].0 {
        ((key + 1) as usize, runs[i].1)
    } else {
        (runs[i].0, (key - 1) as usize)
    };
    let after = runs.update(i, shrunk);
    assert forall|q: int| covered(after).contains(q) <==> covered(runs).remove(
        key as int,
    ).contains(q) by {
        if covered(after).contains(q) {
            let j = choose|j: int| 0 <= j < after.len() && in_run(after[j], q);
            assert(in_run(runs[j], q));
        }
        if covered(runs).contains(q) && q != key {
            let j = choose|j: int| 0 <= j < runs.len() && in_run(runs[j], q);
            assert(in_run(after[j], q));
        }
    }
    assert(covered(after) =~= covered(runs).remove(key as int));
}

/// A run that holds `key` strictly inside, cut into the part before `key`
/// and the part behind it, removes `key` and keeps the runs canonical.
proof fn lemma_split(runs: Seq<(usize, usize)>, i: int, key: usize)
    requires
        canonical(runs),
        0 <= i < runs.len(),
        runs[i].0 < key < runs[i].1,
    ensures
        canonical(
            runs.update(i, (runs[i].0, (key - 1) as usize)).insert(
                i + 1,
                ((key + 1) as usize, runs[i].1),
            ),
        ),
        covered(
            runs.update(i, (runs[i].0, (key - 1) as usize)).insert(
                i + 1,
                ((key + 1) as usize, runs[i].1),
            ),
        ) == covered(runs).remove(key as int),
{
    let after = runs.update(i, (runs[i].0, (key - 1) as usize)).insert(
        i + 1,
        ((key + 1) as usize, runs[i].1),
    );
    assert forall|q: int| covered(after).contains(q) <==> covered(runs).remove(
        key as int,
    ).contains(q) by {
        if covered(after).contains(q) {
            let j = choose|j: int| 0 <= j < after.len() && in_run(after[j], q);
            if j <= i {
                assert(in_run(runs[j], q));
            } else {
                assert(in_run(runs[j - 1], q));
            }
        }
        if covered(runs).contains(q) && q != key {
            let j = choose|j: int| 0 <= j < runs.len() && in_run(runs[j], q);
            if j < i {
                assert(in_run(after[j], q));
            } else if j > i {
                assert(in_run(after[j + 1], q));
            } else if q < key {
                assert(in_run(after[i], q));
            } else {
                assert(in_run(after[i + 1], q));
            }
        }
    }
    assert(covered(after) =~= covered(runs).remove(key as int));
}

/// A sparse bit storage over all positions that a machine word can name.
///
/// The set positions are kept as closed ranges `(first, last)`, in ascending
/// order, merged wherever two would overlap or touch. Memory is therefore
/// proportional to the number of maximal runs of set bits.
#[derive(Debug, PartialEq, Eq)]
pub struct CompressedBitmap {
    ranges: Vec<(usize, usize)>,
}

impl Clone for CompressedBitmap {
    /// A storage with the same runs.
    fn clone(&self) -> (copy: Self)
        ensures
            copy.runs() == self.runs(),
    {
        let mut ranges: Vec<(usize, usize)> = Vec::with_capacity(self.ranges.len());
        let mut i: usize = 0;
        while i < self.ranges.len()
            invariant
                i <= self.ranges.len(),
                ranges@ == self.ranges@.take(i as int),
            decreases self.ranges.len() - i,
        {
            ranges.push(self.ranges[i]);
            i += 1;
            assert(ranges@ =~= self.ranges@.take(i as int));
        }
        assert(ranges@ =~= self.ranges@);
        CompressedBitmap { ranges }
    }
}

impl CompressedBitmap {
    /// The runs of set positions, in ascending order.
    pub closed spec fn runs(&self) -> Seq<(usize, usize)> {
        self.ranges@
    }

    /// A storage with no position set.
    pub fn new() -> (empty: Self)
        ensures
            empty.runs() == Seq::<(usize, usize)>::empty(),
            empty.inv(),
            empty.bits() == Set::<int>::empty(),
    {
        let empty = CompressedBitmap { ranges: Vec::new() };
        assert(empty.bits() =~= Set::<int>::empty());
        empty
    }

    /// The storage that holds the positions of `runs`, if `runs` is
    /// canonical: no run empty, the runs ascending, no two overlapping or
    /// touching. Any other sequence is turned down.
    pub fn from_runs(runs: Vec<(usize, usize)>) -> (made: Option<Self>)
        ensures
            made is Some <==> canonical(runs@),
            made matches Some(bitmap) ==> bitmap.runs() == runs@,
    {
        let mut i: usize = 0;
        while i < runs.len()
            invariant
                i <= runs.len(),
                forall|a: int| 0 <= a < i ==> (#[trigger] runs@[a]).0 <= runs@[a].1,
                forall|a: int, b: int|
                    0 <= a < b < i ==> (#[trigger] runs@[a]).1 + 1 < (#[trigger] runs@[b]).0,
            decreases runs.len() - i,
        {
            let (first, last) = runs[i];
            if first > last {
                return None;
            }
            if i > 0 {
                let before = runs[i - 1].1;
                if first <= before || first - before < 2 {
                    assert(!(runs@[i - 1].1 + 1 < runs@[i as int].0));
                    return None;
                }
                assert forall|a: int| 0 <= a < i implies (#[trigger] runs@[a]).1 + 1
                    < runs@[i as int].0 by {
                    if a < i - 1 {
                        assert(runs@[a].1 + 1 < runs@[i - 1].0);
                    }
                }
            }
            i += 1;
        }
        Some(CompressedBitmap { ranges: runs })
    }

    /// The runs of set positions, each as its first and last position, in
    /// ascending order.
    pub fn ranges(&self) -> (ranges: &[(usize, usize)])
        ensures
            ranges@ == self.runs(),
    {
        self.ranges.as_slice()
    }

    /// The number of runs that start at or before `key`. The run that could
    /// hold `key` is the one before this index, the runs from it on lie
    /// behind `key`.
    fn locate(&self, key: usize) -> (p: usize)
        requires
            canonical(self.runs()),
        ensures
            p <= self.runs().len(),
            forall|i: int| 0 <= i < p ==> (#[trigger] self.runs()[i]).0 <= key,
            forall|i: int| p <= i < self.runs().len() ==> key < (#[trigger] self.runs()[i]).0,
    {
        let mut lo: usize = 0;
        let mut hi: usize = self.ranges.len();
        while lo < hi
            invariant
                lo <= hi <= self.runs().len(),
                canonical(self.runs()),
                forall|i: int| 0 <= i < lo ==> (#[trigger] self.runs()[i]).0 <= key,
                forall|i: int| hi <= i < self.runs().len() ==> key < (#[trigger] self.runs()[i]).0,
            decreases hi - lo,
        {
            let mid = lo + (hi - lo) / 2;
            if self.ranges[mid].0 <= key {
                lo = mid + 1;
            } else {
                hi = mid;
            }
        }
        lo
    }
}

impl Bitmap for CompressedBitmap {
    open spec fn bits(&self) -> Set<int> {
        covered(self.runs())
    }

    open spec fn inv(&self) -> bool {
        canonical(self.runs())
    }

    open spec fn capacity(&self) -> nat {
        (usize::MAX + 1) as nat
    }

    fn set(&mut self, key: usize, value: bool)
        ensures
            value == old(self).bits().contains(key as int) ==> final(self).runs() == old(
                self,
            ).runs(),
            final(self).runs().len() <= old(self).runs().len() + 1,
    {
        let p = self.locate(key);
        let inside = p > 0 && key <= self.ranges[p - 1].1;
        proof {
            lemma_located(self.runs(), p as int, key);
        }
        if value == inside {
            assert(self.bits().insert(key as int) =~= self.bits() || !value);
            assert(self.bits().remove(key as int) =~= self.bits() || value);
            return ;
        }
        let ghost before = self.runs();
        if value {
            let joins_left = p > 0 && key - self.ranges[p - 1].1 == 1;
            let joins_right = p < self.ranges.len() && self.ranges[p].0 - key == 1;
            if joins_left && joins_right {
                let merged = (self.ranges[p - 1].0, self.ranges[p].1);
                self.ranges.remove(p);
                self.ranges.set(p - 1, merged);
                proof {
                    lemma_bridge(before, p as int, key);
                }
            } else if joins_left {
                let first = self.ranges[p - 1].0;
                self.ranges.set(p - 1, (first, key));
                proof {
                    lemma_grow(before, p - 1, key);
                }
            } else if joins_right {
                let last = self.ranges[p].1;
                self.ranges.set(p, (key, last));
                proof {
                    lemma_grow(before, p as int, key);
                }
            } else {
                self.ranges.insert(p, (key, key));
                proof {
                    lemma_open(before, p as int, key);
                }
            }
        } else {
            let (first, last) = self.ranges[p - 1];
            if first == last {
                self.ranges.remove(p - 1);
                proof {
                    lemma_close(before, p - 1, key);
                }
            } else if key == first {
                self.ranges.set(p - 1, (key + 1, last));
                proof {
                    lemma_shrink(before, p - 1, key);
                }
            } else if key == last {
                self.ranges.set(p - 1, (first, key - 1));
                proof {
                    lemma_shrink(before, p - 1, key);
                }
            } else {
                self.ranges.set(p - 1, (first, key - 1));
                self.ranges.insert(p, (key + 1, last));
                proof {
                    lemma_split(before, p - 1, key);
                }
            }
        }
    }

    fn get(&self, key: usize) -> (value: bool)
    {
        let p = self.locate(key);
        proof {
            lemma_located(self.runs(), p as int, key);
        }
        p > 0 && key <= self.ranges[p - 1].1
    }
}

} // verus!
