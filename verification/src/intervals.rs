//! Sets of byte positions, kept as sorted runs with gaps between them.

use vstd::prelude::*;

verus! {

/// Half-open runs in normal form: none is empty, and each ends strictly before
/// the next one begins.
pub open spec fn normal(runs: Seq<(u64, u64)>) -> bool {
    &&& forall|i: int| 0 <= i < runs.len() ==> (#[trigger] runs[i]).0 < runs[i].1
    &&& forall|i: int, j: int|
        0 <= i < j < runs.len() ==> (#[trigger] runs[i]).1 < (#[trigger] runs[j]).0
}

/// Position `x` lies in one of the runs.
pub open spec fn covers(runs: Seq<(u64, u64)>, x: int) -> bool {
    exists|i: int| 0 <= i < runs.len() && (#[trigger] runs[i]).0 <= x < runs[i].1
}

/// The sum of the lengths of the runs.
pub open spec fn measure(runs: Seq<(u64, u64)>) -> int
    decreases runs.len(),
{
    if runs.len() == 0 {
        0
    } else {
        measure(runs.drop_last()) + (runs.last().1 - runs.last().0)
    }
}

/// The positions of a range that have not been cut out of it yet.
pub struct Intervals {
    runs: Vec<(u64, u64)>,
}

impl View for Intervals {
    type V = Seq<(u64, u64)>;

    closed spec fn view(&self) -> Seq<(u64, u64)> {
        self.runs@
    }
}

impl Intervals {
    /// Every value of this type is in normal form.
    pub open spec fn wf(&self) -> bool {
        normal(self@)
    }

    /// All the positions from `l` up to, but not including, `r`.
    pub fn new(l: u64, r: u64) -> (res: Self)
        ensures
            res.wf(),
            res@ == if l < r {
                seq![(l, r)]
            } else {
                Seq::<(u64, u64)>::empty()
            },
            measure(res@) == if l < r {
                r - l
            } else {
                0
            },
            forall|x: int| #[trigger] covers(res@, x) <==> l <= x < r,
    {
        let mut runs: Vec<(u64, u64)> = Vec::new();
        if l < r {
            runs.push((l, r));
        }
        let res = Intervals { runs };
        proof {
            reveal_with_fuel(measure, 2);
            if l < r {
                assert(res@ =~= seq![(l, r)]);
                assert(res@.drop_last() =~= Seq::<(u64, u64)>::empty());
                assert forall|x: int| #[trigger] covers(res@, x) <==> l <= x < r by {
                    assert(res@[0] == (l, r));
                }
            }
        }
        res
    }

    /// Takes the positions from `l` up to `r` out of the set and returns those
    /// that were in it.
    pub fn cut(&mut self, l: u64, r: u64) -> (res: Vec<(u64, u64)>)
        requires
            old(self).wf(),
        ensures
            final(self).wf(),
            normal(res@),
            forall|x: int| #[trigger]
                covers(res@, x) <==> covers(old(self)@, x) && l <= x < r,
            forall|x: int| #[trigger]
                covers(final(self)@, x) <==> covers(old(self)@, x) && !(l <= x < r),
            measure(res@) + measure(final(self)@) == measure(old(self)@),
    {
        let ghost old_runs = self.runs@;
        let mut kept: Vec<(u64, u64)> = Vec::new();
        let mut taken: Vec<(u64, u64)> = Vec::new();
        let n = self.runs.len();
        for i in 0..n
            invariant
                n == old_runs.len(),
                self.runs@ == old_runs,
                normal(old_runs),
                normal(kept@),
                normal(taken@),
                forall|j: int, k: int|
                    0 <= j < kept@.len() && i <= k < n ==> (#[trigger] kept@[j]).1 < (
                    #[trigger] old_runs[k]).0,
                forall|j: int, k: int|
                    0 <= j < taken@.len() && i <= k < n ==> (#[trigger] taken@[j]).1 < (
                    #[trigger] old_runs[k]).0,
                forall|x: int| #[trigger]
                    covers(taken@, x) <==> covers(old_runs.take(i as int), x) && l <= x < r,
                forall|x: int| #[trigger]
                    covers(kept@, x) <==> covers(old_runs.take(i as int), x) && !(l <= x < r),
                measure(taken@) + measure(kept@) == measure(old_runs.take(i as int)),
        {
            let (a, b) = self.runs[i];
            let lo: u64 = if a < l { l } else { a };
            let hi: u64 = if b < r { b } else { r };
            let ghost seen = old_runs.take(i as int);
            let ghost taken0 = taken@;
            let ghost kept0 = kept@;
            assert(old_runs.take(i + 1) =~= seen.push((a, b)));
            assert(a == old_runs[i as int].0 && b == old_runs[i as int].1);
            proof {
                lemma_push(seen, (a, b));
            }
            if lo < hi {
                taken.push((lo, hi));
                proof {
                    lemma_push(taken0, (lo, hi));
                }
                if a < lo {
                    kept.push((a, lo));
                    proof {
                        lemma_push(kept0, (a, lo));
                    }
                }
                let ghost kept1 = kept@;
                if hi < b {
                    kept.push((hi, b));
                    proof {
                        lemma_push(kept1, (hi, b));
                    }
                }
            } else {
                kept.push((a, b));
                proof {
                    lemma_push(kept0, (a, b));
                }
            }
        }
        assert(old_runs.take(n as int) =~= old_runs);
        self.runs = kept;
        taken
    }

    /// The runs that are left, in ascending order.
    pub fn collect(self) -> (res: Vec<(u64, u64)>)
        ensures
            res@ == self@,
    {
        self.runs
    }
}

/// What one more run adds to the positions and to the total length.
pub proof fn lemma_push(runs: Seq<(u64, u64)>, run: (u64, u64))
    ensures
        forall|x: int| #[trigger]
            covers(runs.push(run), x) <==> covers(runs, x) || run.0 <= x < run.1,
        measure(runs.push(run)) == measure(runs) + (run.1 - run.0),
        measure(Seq::empty()) == 0,
        !covers(Seq::empty(), run.0 as int),
{
    let more = runs.push(run);
    assert(more.drop_last() =~= runs);
    assert forall|x: int| #[trigger] covers(more, x) <==> covers(runs, x) || run.0 <= x < run.1 by {
        if covers(more, x) {
            let i = choose|i: int| 0 <= i < more.len() && (#[trigger] more[i]).0 <= x < more[i].1;
            if i < runs.len() {
                assert(runs[i] == more[i]);
            }
        }
        if covers(runs, x) {
            let i = choose|i: int| 0 <= i < runs.len() && (#[trigger] runs[i]).0 <= x < runs[i].1;
            assert(more[i] == runs[i]);
        }
        if run.0 <= x < run.1 {
            assert(more[runs.len() as int] == run);
        }
    }
}

/// The normal form is unique: two lists of runs in normal form that cover the
/// same positions are the same list.
pub proof fn lemma_normal_unique(a: Seq<(u64, u64)>, b: Seq<(u64, u64)>)
    requires
        normal(a),
        normal(b),
        forall|x: int| #[trigger] covers(a, x) <==> covers(b, x),
    ensures
        a == b,
    decreases a.len(),
{
    if a.len() == 0 {
        if b.len() > 0 {
            assert(covers(b, b[0].0 as int));
            assert(covers(a, b[0].0 as int));
        }
        assert(a =~= b);
    } else {
        let la = a.last();
        assert(covers(a, la.0 as int));
        assert(covers(b, la.0 as int));
        assert(b.len() > 0);
        let lb = b.last();
        lemma_last_run(a, b);
        lemma_last_run(b, a);
        assert(la == lb);
        let ra = a.drop_last();
        let rb = b.drop_last();
        assert(normal(ra));
        assert(normal(rb));
        assert forall|x: int| #[trigger] covers(ra, x) <==> covers(rb, x) by {
            assert(ra.push(la) =~= a);
            assert(rb.push(lb) =~= b);
            lemma_push(ra, la);
            lemma_push(rb, lb);
            assert(covers(a, x) <==> covers(b, x));
            lemma_before_last(a, x);
            lemma_before_last(b, x);
        }
        lemma_normal_unique(ra, rb);
        assert(a =~= ra.push(la));
        assert(b =~= rb.push(lb));
    }
}

/// No position lies both in the last run and in an earlier one.
proof fn lemma_before_last(runs: Seq<(u64, u64)>, x: int)
    requires
        normal(runs),
        runs.len() > 0,
    ensures
        !(covers(runs.drop_last(), x) && runs.last().0 <= x < runs.last().1),
{
    if covers(runs.drop_last(), x) {
        let i = choose|i: int|
            0 <= i < runs.drop_last().len() && (#[trigger] runs.drop_last()[i]).0 <= x
                < runs.drop_last()[i].1;
        assert(runs[i].1 < runs[runs.len() - 1].0);
    }
}

/// The last run of `a` reaches no further, to either side, than the last run of `b`.
proof fn lemma_last_run(a: Seq<(u64, u64)>, b: Seq<(u64, u64)>)
    requires
        normal(a),
        normal(b),
        a.len() > 0,
        b.len() > 0,
        forall|x: int| #[trigger] covers(a, x) <==> covers(b, x),
    ensures
        a.last().1 <= b.last().1,
        a.last().0 >= b.last().0,
{
    let la = a.last();
    let lb = b.last();
    let end = la.1 - 1;
    assert(a[a.len() - 1] == la);
    assert(b[b.len() - 1] == lb);
    assert(covers(a, end));
    assert(covers(b, end));
    let i = choose|i: int| 0 <= i < b.len() && (#[trigger] b[i]).0 <= end < b[i].1;
    assert(b[i].1 <= lb.1);
    if la.0 < lb.0 {
        // Position lb.0 - 1 would have to be covered by a, but b leaves it open.
        let x = lb.0 - 1;
        let last_b = lb.1 - 1;
        assert(covers(b, last_b));
        assert(covers(a, last_b));
        let k = choose|k: int| 0 <= k < a.len() && (#[trigger] a[k]).0 <= last_b < a[k].1;
        assert(a[k].1 <= la.1);
        assert(la.0 <= x < la.1);
        assert(covers(a, x));
        assert(covers(b, x));
        let j = choose|j: int| 0 <= j < b.len() && (#[trigger] b[j]).0 <= x < b[j].1;
        if j < b.len() - 1 {
            assert(b[j].1 < b[b.len() - 1].0);
        }
    }
}

/// In normal form no run is empty, and between any two runs there is a position
/// that neither covers.
pub proof fn lemma_normal_gaps(runs: Seq<(u64, u64)>)
    ensures
        normal(runs) <==> {
            &&& forall|i: int| 0 <= i < runs.len() ==> (#[trigger] runs[i]).0 < runs[i].1
            &&& forall|i: int, j: int|
                0 <= i < j < runs.len() ==> (#[trigger] runs[i]).1 < (#[trigger] runs[j]).0
        },
{
}

/// A set of runs covers the positions from the beginning of a run up to its end.
pub proof fn lemma_covers(runs: Seq<(u64, u64)>, x: int)
    ensures
        covers(runs, x) <==> exists|i: int|
            0 <= i < runs.len() && (#[trigger] runs[i]).0 <= x && x < runs[i].1,
{
}

} // verus!
