//! Located targets and what holds of the targets of every search.

use crate::ident::target_id_spec;
use crate::indices::{all_below, lemma_increasing_no_duplicates, strictly_increasing};
use crate::pool::{lemma_unused_count, used_below};
use vstd::prelude::*;

verus! {

/// A located target: its identifier, its estimated position, the rays that
/// support it and how well they fit.
#[derive(Debug, Clone)]
pub struct LocatedTarget<P, D> {
    /// `Target_<n>`, where `n` counts the targets of one search from 1.
    pub id: String,
    /// The refined position, as the caller's refinement reports it.
    pub position: P,
    /// Number of supporting rays.
    pub num_lines: usize,
    /// How far the supporting rays pass from `position`, as the caller's
    /// residual kernel reports it: by convention the root mean square of the
    /// distances, in metres.
    pub avg_error_dist_m: D,
    /// Indices of the supporting rays in the measurement array, ascending.
    pub lines: Vec<usize>,
}

/// The mathematical content of a `LocatedTarget`.
pub ghost struct LocatedTargetView<P, D> {
    pub id: Seq<char>,
    pub position: P,
    pub num_lines: nat,
    pub avg_error_dist_m: D,
    pub lines: Seq<usize>,
}

impl<P, D> View for LocatedTarget<P, D> {
    type V = LocatedTargetView<P, D>;

    open spec fn view(&self) -> LocatedTargetView<P, D> {
        LocatedTargetView {
            id: self.id@,
            position: self.position,
            num_lines: self.num_lines as nat,
            avg_error_dist_m: self.avg_error_dist_m,
            lines: self.lines@,
        }
    }
}

/// No index occurs in both lists.
pub open spec fn disjoint_lines(a: Seq<usize>, b: Seq<usize>) -> bool {
    forall|i: int, j: int| 0 <= i < a.len() && 0 <= j < b.len() ==> a[i] != b[j]
}

/// What holds of the targets of every search over `num_rays` rays with a
/// minimum of `min_lines` rays per target: they are numbered from 1 in the
/// order of discovery, each is supported by at least `min_lines` rays of the
/// array, and no ray supports two of them.
pub open spec fn valid_targets<P, D>(
    ts: Seq<LocatedTargetView<P, D>>,
    num_rays: nat,
    min_lines: nat,
) -> bool {
    &&& forall|k: int|
        0 <= k < ts.len() ==> {
            &&& (#[trigger] ts[k]).id == target_id_spec((k + 1) as nat)
            &&& ts[k].num_lines == ts[k].lines.len()
            &&& ts[k].num_lines >= min_lines
            &&& strictly_increasing(ts[k].lines)
            &&& all_below(ts[k].lines, num_rays)
        }
    &&& forall|a: int, b: int|
        0 <= a < b < ts.len() ==> disjoint_lines((#[trigger] ts[a]).lines, (#[trigger] ts[b]).lines)
}

/// Number of supporting rays of all targets together.
pub open spec fn total_lines<P, D>(ts: Seq<LocatedTargetView<P, D>>) -> nat
    decreases ts.len(),
{
    if ts.len() == 0 {
        0
    } else {
        total_lines(ts.drop_last()) + ts.last().lines.len()
    }
}

/// The rays that support some target.
pub open spec fn covered<P, D>(ts: Seq<LocatedTargetView<P, D>>) -> Set<usize>
    decreases ts.len(),
{
    if ts.len() == 0 {
        Set::empty()
    } else {
        covered(ts.drop_last()).union(ts.last().lines.to_set())
    }
}

/// The views of a list of targets.
pub open spec fn views<P, D>(ts: Seq<LocatedTarget<P, D>>) -> Seq<LocatedTargetView<P, D>> {
    ts.map_values(|t: LocatedTarget<P, D>| t@)
}

/// A ray is covered exactly when it is listed by one of the targets.
pub proof fn lemma_covered<P, D>(ts: Seq<LocatedTargetView<P, D>>, x: usize)
    ensures
        covered(ts).contains(x) <==> exists|k: int, j: int|
            0 <= k < ts.len() && 0 <= j < ts[k].lines.len() && #[trigger] ts[k].lines[j] == x,
    decreases ts.len(),
{
    if ts.len() > 0 {
        let front = ts.drop_last();
        lemma_covered(front, x);
        if covered(ts).contains(x) {
            if covered(front).contains(x) {
                let (k, j) = choose|k: int, j: int|
                    0 <= k < front.len() && 0 <= j < front[k].lines.len()
                        && #[trigger] front[k].lines[j] == x;
                assert(ts[k].lines[j] == x);
            } else {
                let last = ts.last().lines;
                assert(last.to_set().contains(x));
                let j = choose|j: int| 0 <= j < last.len() && last[j] == x;
                assert(ts[ts.len() - 1].lines[j] == x);
            }
        }
        if exists|k: int, j: int|
            0 <= k < ts.len() && 0 <= j < ts[k].lines.len() && #[trigger] ts[k].lines[j] == x {
            let (k, j) = choose|k: int, j: int|
                0 <= k < ts.len() && 0 <= j < ts[k].lines.len() && #[trigger] ts[k].lines[j] == x;
            if k < front.len() {
                assert(front[k].lines[j] == x);
            } else {
                assert(ts.last().lines[j] == x);
                assert(ts.last().lines.to_set().contains(x));
            }
        }
    }
}

/// The targets of a search cover as many rays as they list, all of them
/// rays of the array, and at least `min_lines` for each target.
pub proof fn lemma_covered_count<P, D>(
    ts: Seq<LocatedTargetView<P, D>>,
    num_rays: nat,
    min_lines: nat,
)
    requires
        valid_targets(ts, num_rays, min_lines),
        num_rays <= usize::MAX,
    ensures
        covered(ts).finite(),
        covered(ts).len() == total_lines(ts),
        forall|x: usize| covered(ts).contains(x) ==> x < num_rays,
        ts.len() * min_lines <= total_lines(ts),
        total_lines(ts) <= num_rays,
    decreases ts.len(),
{
    if ts.len() > 0 {
        let front = ts.drop_last();
        let last = ts.last().lines;
        assert(valid_targets(front, num_rays, min_lines)) by {
            assert(forall|k: int| 0 <= k < front.len() ==> front[k] == ts[k]);
        }
        lemma_covered_count(front, num_rays, min_lines);
        lemma_increasing_no_duplicates(last);
        last.unique_seq_to_set();
        assert(covered(front).disjoint(last.to_set())) by {
            assert forall|x: usize| covered(front).contains(x) implies !last.to_set().contains(
                x,
            ) by {
                lemma_covered(front, x);
                let (k, j) = choose|k: int, j: int|
                    0 <= k < front.len() && 0 <= j < front[k].lines.len()
                        && #[trigger] front[k].lines[j] == x;
                assert(front[k] == ts[k]);
                assert(disjoint_lines(ts[k].lines, ts[ts.len() - 1].lines));
                if last.to_set().contains(x) {
                    let i = choose|i: int| 0 <= i < last.len() && last[i] == x;
                    assert(ts[k].lines[j] != ts[ts.len() - 1].lines[i]);
                }
            }
        }
        vstd::set_lib::lemma_set_disjoint_lens(covered(front), last.to_set());
        assert forall|x: usize| covered(ts).contains(x) implies x < num_rays by {
            if last.to_set().contains(x) {
                let i = choose|i: int| 0 <= i < last.len() && last[i] == x;
                assert(last[i] < num_rays);
            }
        }
        assert(ts.len() * min_lines <= total_lines(ts)) by {
            assert(ts.len() * min_lines == front.len() * min_lines + min_lines)
                by (nonlinear_arith)
                requires
                    ts.len() == front.len() + 1,
            ;
            assert(ts[ts.len() - 1].num_lines >= min_lines);
        }
    }
    lemma_unused_count(covered(ts), num_rays);
    assert(used_below(covered(ts), num_rays) =~= covered(ts));
}

/// No search returns more targets than the rays can support: at most the
/// number of rays divided by the minimum of rays per target, rounded down.
pub proof fn lemma_target_count_bounded<P, D>(
    ts: Seq<LocatedTargetView<P, D>>,
    num_rays: nat,
    min_lines: nat,
)
    requires
        valid_targets(ts, num_rays, min_lines),
        num_rays <= usize::MAX,
        min_lines >= 1,
    ensures
        ts.len() * min_lines <= num_rays,
        ts.len() <= num_rays / min_lines,
        num_rays < min_lines ==> ts.len() == 0,
{
    lemma_covered_count(ts, num_rays, min_lines);
    let count = ts.len();
    assert(count <= num_rays / min_lines) by (nonlinear_arith)
        requires
            count * min_lines <= num_rays,
            min_lines >= 1,
    ;
    if num_rays < min_lines {
        assert(num_rays / min_lines == 0) by (nonlinear_arith)
            requires
                num_rays < min_lines,
                0 <= num_rays,
        ;
    }
}

} // verus!
