//! Ascending index lists: the shape that every list of ray indices in this
//! crate has.

use vstd::prelude::*;

verus! {

/// Every element is smaller than the one after it.
pub open spec fn strictly_increasing(s: Seq<usize>) -> bool {
    forall|i: int, j: int| 0 <= i < j < s.len() ==> s[i] < s[j]
}

/// Every element is below `bound`.
pub open spec fn all_below(s: Seq<usize>, bound: nat) -> bool {
    forall|k: int| 0 <= k < s.len() ==> s[k] < bound
}

/// The indices below `n` on which `keep` holds, in ascending order.
pub open spec fn indices_where(n: nat, keep: spec_fn(usize) -> bool) -> Seq<usize>
    decreases n,
{
    if n == 0 {
        Seq::empty()
    } else {
        let below = indices_where((n - 1) as nat, keep);
        if keep((n - 1) as usize) {
            below.push((n - 1) as usize)
        } else {
            below
        }
    }
}

/// `indices_where` lists exactly the indices on which `keep` holds, each
/// once, in ascending order.
pub proof fn lemma_indices_where(n: nat, keep: spec_fn(usize) -> bool)
    requires
        n <= usize::MAX,
    ensures
        strictly_increasing(indices_where(n, keep)),
        all_below(indices_where(n, keep), n),
        indices_where(n, keep).len() <= n,
        forall|k: int|
            0 <= k < indices_where(n, keep).len() ==> keep(#[trigger] indices_where(n, keep)[k]),
        forall|i: usize| i < n && keep(i) ==> indices_where(n, keep).contains(i),
    decreases n,
{
    if n > 0 {
        let m = (n - 1) as nat;
        lemma_indices_where(m, keep);
        let below = indices_where(m, keep);
        let all = indices_where(n, keep);
        if keep(m as usize) {
            assert(all == below.push(m as usize));
            assert(all[below.len() as int] == m as usize);
            assert forall|i: usize| i < n && keep(i) implies all.contains(i) by {
                if i < m {
                    assert(below.contains(i));
                    let k = choose|k: int| 0 <= k < below.len() && below[k] == i;
                    assert(all[k] == i);
                } else {
                    assert(all[below.len() as int] == i);
                }
            }
        } else {
            assert forall|i: usize| i < n && keep(i) implies all.contains(i) by {
                assert(i < m);
                assert(below.contains(i));
            }
        }
    }
}

/// The items at `positions`, in the order of `positions`.
pub open spec fn selected<T>(items: Seq<T>, positions: Seq<usize>) -> Seq<T> {
    Seq::new(positions.len(), |k: int| items[positions[k] as int])
}

/// Picks the items at `positions` out of `items`.
///
/// With the list of free rays as `items` this translates positions in that
/// list into indices in the measurement array; with the rays themselves as
/// `items` it collects the rays that a list of indices names.
pub fn select<T: Copy>(items: &Vec<T>, positions: &Vec<usize>) -> (chosen: Vec<T>)
    requires
        all_below(positions@, items.len() as nat),
    ensures
        chosen@ == selected(items@, positions@),
{
    let mut chosen: Vec<T> = Vec::new();
    let mut k: usize = 0;
    while k < positions.len()
        invariant
            k <= positions.len(),
            all_below(positions@, items.len() as nat),
            chosen@ == selected(items@, positions@.take(k as int)),
        decreases positions.len() - k,
    {
        chosen.push(items[positions[k]]);
        proof {
            assert(chosen@ =~= selected(items@, positions@.take(k + 1)));
        }
        k = k + 1;
    }
    proof {
        assert(positions@.take(positions.len() as int) =~= positions@);
    }
    chosen
}

/// Ascending positions in an ascending list select an ascending list.
pub proof fn lemma_selected_increasing(items: Seq<usize>, positions: Seq<usize>)
    requires
        strictly_increasing(items),
        strictly_increasing(positions),
        all_below(positions, items.len()),
    ensures
        strictly_increasing(selected(items, positions)),
        forall|k: int|
            0 <= k < positions.len() ==> items.contains(#[trigger] selected(items, positions)[k]),
{
    let chosen = selected(items, positions);
    assert forall|i: int, j: int| 0 <= i < j < chosen.len() implies chosen[i] < chosen[j] by {
        assert(positions[i] < positions[j]);
    }
    assert forall|k: int| 0 <= k < positions.len() implies items.contains(
        #[trigger] chosen[k],
    ) by {
        assert(items[positions[k] as int] == chosen[k]);
    }
}

/// An ascending list holds no index twice.
pub proof fn lemma_increasing_no_duplicates(s: Seq<usize>)
    requires
        strictly_increasing(s),
    ensures
        s.no_duplicates(),
{
    assert forall|i: int, j: int| 0 <= i < s.len() && 0 <= j < s.len() && i != j implies s[i]
        != s[j] by {
        if i < j {
            assert(s[i] < s[j]);
        } else {
            assert(s[j] < s[i]);
        }
    }
}

} // verus!
