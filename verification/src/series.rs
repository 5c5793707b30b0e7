//! Best-so-far series: for one run, the best objective value seen up to
//! and including each step.

use vstd::prelude::*;
use crate::record::Direction;

verus! {

/// A slot holds a value that is strictly better than `value`, so an
/// observation of `value` leaves it as it is.
pub open spec fn dominates(dir: Direction, slot: Option<i64>, value: i64) -> bool {
    match slot {
        Some(v) => dir.better_spec(v, value) != value,
        None => false,
    }
}

/// Some slot between `step` and `i` (both included) dominates `value`.
pub open spec fn shielded(
    s: Seq<Option<i64>>,
    step: int,
    i: int,
    value: i64,
    dir: Direction,
) -> bool {
    exists|j: int| step <= j <= i && 0 <= j < s.len() && dominates(dir, #[trigger] s[j], value)
}

/// The series grown to cover `step`, every new slot repeating the last
/// old one.
pub open spec fn extended(s: Seq<Option<i64>>, step: int) -> Seq<Option<i64>>
    recommends
        s.len() > 0,
{
    if step < s.len() {
        s
    } else {
        Seq::new((step + 1) as nat, |i: int| if i < s.len() { s[i] } else { s.last() })
    }
}

/// The series after `value` was observed at `step`: the series is
/// extended to cover `step`, and from `step` onward every slot takes
/// `value` up to the first slot that dominates it.
pub open spec fn observed(
    s: Seq<Option<i64>>,
    step: int,
    value: i64,
    dir: Direction,
) -> Seq<Option<i64>>
    recommends
        s.len() > 0,
        0 <= step,
{
    let e = extended(s, step);
    Seq::new(
        e.len(),
        |i: int| if i < step || shielded(e, step, i, value, dir) { e[i] } else { Some(value) },
    )
}

/// Grows the series until it covers `step`, holding the last value
/// forward.
pub fn extend_to(series: &mut Vec<Option<i64>>, step: usize)
    requires
        old(series)@.len() > 0,
        step < usize::MAX,
    ensures
        final(series)@ == extended(old(series)@, step as int),
{
    let ghost start = series@;
    while series.len() <= step
        invariant
            series@.len() >= start.len() > 0,
            series@.len() == start.len() || series@.len() <= step + 1,
            step < usize::MAX,
            forall|i: int| 0 <= i < start.len() ==> series@[i] == start[i],
            forall|i: int| start.len() <= i < series@.len() ==> series@[i] == start.last(),
        decreases step + 1 - series@.len(),
    {
        let last = series[series.len() - 1];
        series.push(last);
    }
    assert(series@ =~= extended(start, step as int));
}

/// Records that `value` was observed at `step`: the series is extended to
/// cover `step`, then the value sweeps forward from `step` and stops at
/// the first slot that already holds something strictly better.
pub fn observe(series: &mut Vec<Option<i64>>, step: usize, value: i64, dir: Direction)
    requires
        old(series)@.len() > 0,
        step < usize::MAX,
    ensures
        final(series)@ == observed(old(series)@, step as int, value, dir),
        is_best_so_far(old(series)@, dir) ==> is_best_so_far(final(series)@, dir),
        never_worse(old(series)@, final(series)@, dir),
{
    let ghost start = series@;
    extend_to(series, step);
    let ghost e = series@;
    let mut i: usize = step;
    let mut stopped = false;
    while i < series.len() && !stopped
        invariant
            step <= i <= series@.len(),
            series@.len() == e.len(),
            stopped ==> i > step && dominates(dir, e[i - 1], value),
            forall|j: int|
                step <= j < i - (if stopped { 1int } else { 0int }) ==> !dominates(
                    dir,
                    #[trigger] e[j],
                    value,
                ),
            forall|j: int| 0 <= j < step ==> series@[j] == e[j],
            forall|j: int| i <= j < e.len() ==> series@[j] == e[j],
            forall|j: int|
                step <= j < i ==> series@[j] == (if shielded(e, step as int, j, value, dir) {
                    e[j]
                } else {
                    Some(value)
                }),
        decreases series@.len() - i + (if stopped { 0int } else { 1int }),
    {
        match series[i] {
            Some(v) => {
                let b = dir.better(v, value);
                if b != value {
                    stopped = true;
                } else {
                    series.set(i, Some(value));
                }
            },
            None => {
                series.set(i, Some(value));
            },
        }
        i = i + 1;
    }
    proof {
        assert forall|j: int| i <= j < e.len() implies shielded(e, step as int, j, value, dir) by {
            assert(stopped);
            assert(dominates(dir, e[i - 1], value));
        }
        assert(series@ =~= observed(start, step as int, value, dir));
        lemma_observed_never_worse(start, step as int, value, dir);
        if is_best_so_far(start, dir) {
            lemma_observed_best_so_far(start, step as int, value, dir);
        }
    }
}

/// Hold-forward extension: a series extended to cover a step behind its
/// end keeps what it held, and every new slot, up to and including the
/// step, holds what the last old slot held.
pub proof fn lemma_extended_holds_forward(s: Seq<Option<i64>>, step: int)
    requires
        s.len() > 0,
        step >= s.len(),
    ensures
        extended(s, step).len() == step + 1,
        forall|i: int| 0 <= i < s.len() ==> extended(s, step)[i] == s[i],
        forall|i: int| s.len() <= i <= step ==> extended(s, step)[i] == s[s.len() - 1],
{
}

/// An observation at a step behind the end of the series finds the last
/// old value held forward there: what the slots from the old end up to
/// the step hold afterwards is `value` or that last value.
pub proof fn lemma_observed_beyond_end(s: Seq<Option<i64>>, step: int, value: i64, dir: Direction)
    requires
        s.len() > 0,
        step >= s.len(),
    ensures
        observed(s, step, value, dir).len() == step + 1,
        forall|i: int| 0 <= i < s.len() ==> observed(s, step, value, dir)[i] == s[i],
        forall|i: int| s.len() <= i < step ==> observed(s, step, value, dir)[i] == s[s.len() - 1],
        observed(s, step, value, dir)[step] == if dominates(dir, s[s.len() - 1], value) {
            s[s.len() - 1]
        } else {
            Some(value)
        },
{
    let e = extended(s, step);
    assert(e[step] == s[s.len() - 1]);
    if dominates(dir, s[s.len() - 1], value) {
        assert(shielded(e, step, step, value, dir));
    }
}

/// Every step but those in `steps` repeats the step before it.
pub open spec fn holds_forward_except(s: Seq<Option<i64>>, steps: Set<int>) -> bool {
    forall|k: int| 1 <= k < s.len() && !steps.contains(k) ==> #[trigger] s[k] == s[k - 1]
}

/// Hold-forward along the whole series: where every step without an
/// observation of its own repeats the step before it, the same holds
/// after one more observation.
pub proof fn lemma_observed_holds_forward(
    s: Seq<Option<i64>>,
    steps: Set<int>,
    step: int,
    value: i64,
    dir: Direction,
)
    requires
        0 <= step,
        holds_forward_except(s, steps),
    ensures
        holds_forward_except(observed(s, step, value, dir), steps.insert(step)),
{
    let e = extended(s, step);
    let o = observed(s, step, value, dir);
    assert forall|k: int| 1 <= k < e.len() && !steps.contains(k) implies #[trigger] e[k] == e[k
        - 1] by {
        if k < s.len() {
            assert(s[k] == s[k - 1]);
        }
    }
    assert forall|k: int|
        1 <= k < o.len() && !steps.insert(step).contains(k) implies #[trigger] o[k] == o[k
        - 1] by {
        assert(e[k] == e[k - 1]);
        if k > step {
            if shielded(e, step, k, value, dir) {
                let j = choose|j: int|
                    step <= j <= k && 0 <= j < e.len() && dominates(dir, #[trigger] e[j], value);
                if j == k {
                    assert(dominates(dir, e[k - 1], value));
                }
                assert(shielded(e, step, k - 1, value, dir));
            } else {
                if shielded(e, step, k - 1, value, dir) {
                    let j = choose|j: int|
                        step <= j <= k - 1 && 0 <= j < e.len() && dominates(
                            dir,
                            #[trigger] e[j],
                            value,
                        );
                    assert(shielded(e, step, k, value, dir));
                }
            }
        }
    }
}

/// A best-so-far series is not empty, and once a slot is set every later
/// slot is set to something at least as good.
pub open spec fn is_best_so_far(s: Seq<Option<i64>>, dir: Direction) -> bool {
    &&& s.len() > 0
    &&& forall|i: int, j: int|
        0 <= i <= j < s.len() && (#[trigger] s[i]) is Some ==> (#[trigger] s[j]) is Some
            && dir.at_least_as_good(s[j]->0, s[i]->0)
}

/// Every slot of `before` that is set is still set in `after`, to
/// something at least as good.
pub open spec fn never_worse(
    before: Seq<Option<i64>>,
    after: Seq<Option<i64>>,
    dir: Direction,
) -> bool {
    &&& before.len() <= after.len()
    &&& forall|i: int|
        0 <= i < before.len() && (#[trigger] before[i]) is Some ==> after[i] is Some
            && dir.at_least_as_good(after[i]->0, before[i]->0)
}

/// Holding the last value forward keeps a best-so-far series one.
pub proof fn lemma_extended_best_so_far(s: Seq<Option<i64>>, step: int, dir: Direction)
    requires
        is_best_so_far(s, dir),
        0 <= step,
    ensures
        is_best_so_far(extended(s, step), dir),
{
    let e = extended(s, step);
    assert forall|i: int, j: int| 0 <= i <= j < e.len() && (#[trigger] e[i]) is Some implies (
    #[trigger] e[j]) is Some && dir.at_least_as_good(e[j]->0, e[i]->0) by {
        let a = if i < s.len() { i } else { s.len() - 1 };
        let b = if j < s.len() { j } else { s.len() - 1 };
        assert(e[i] == s[a]);
        assert(e[j] == s[b]);
        assert(a <= b);
    }
}

/// An observation keeps a best-so-far series one: along the steps the
/// series never gets worse, whatever was observed and wherever.
pub proof fn lemma_observed_best_so_far(s: Seq<Option<i64>>, step: int, value: i64, dir: Direction)
    requires
        is_best_so_far(s, dir),
        0 <= step,
    ensures
        is_best_so_far(observed(s, step, value, dir), dir),
{
    let e = extended(s, step);
    let o = observed(s, step, value, dir);
    lemma_extended_best_so_far(s, step, dir);
    assert(e.len() > step);
    assert forall|i: int, j: int| 0 <= i <= j < o.len() && (#[trigger] o[i]) is Some implies (
    #[trigger] o[j]) is Some && dir.at_least_as_good(o[j]->0, o[i]->0) by {
        if j < step {
            assert(o[i] == e[i] && o[j] == e[j]);
        } else if i < step {
            assert(o[i] == e[i]);
            assert(e[step] is Some && dir.at_least_as_good(e[step]->0, e[i]->0));
            assert(e[j] is Some && dir.at_least_as_good(e[j]->0, e[step]->0));
            if !shielded(e, step, j, value, dir) {
                assert(!dominates(dir, e[step], value));
            }
        } else if shielded(e, step, i, value, dir) {
            let k = choose|k: int|
                step <= k <= i && 0 <= k < e.len() && dominates(dir, #[trigger] e[k], value);
            assert(shielded(e, step, j, value, dir));
        } else if shielded(e, step, j, value, dir) {
            let k = choose|k: int|
                step <= k <= j && 0 <= k < e.len() && dominates(dir, #[trigger] e[k], value);
            assert(e[k] is Some);
            assert(e[j] is Some && dir.at_least_as_good(e[j]->0, e[k]->0));
        }
    }
}

/// An observation never makes a slot worse: what was set stays set, to
/// the old value or to a better one.
pub proof fn lemma_observed_never_worse(s: Seq<Option<i64>>, step: int, value: i64, dir: Direction)
    requires
        s.len() > 0,
        0 <= step,
    ensures
        never_worse(s, observed(s, step, value, dir), dir),
{
    let e = extended(s, step);
    let o = observed(s, step, value, dir);
    assert forall|i: int| 0 <= i < s.len() && (#[trigger] s[i]) is Some implies o[i] is Some
        && dir.at_least_as_good(o[i]->0, s[i]->0) by {
        assert(e[i] == s[i]);
        if i >= step && !shielded(e, step, i, value, dir) {
            assert(!dominates(dir, e[i], value));
        }
    }
}

} // verus!
