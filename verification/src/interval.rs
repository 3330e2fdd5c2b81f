//! Half-open intervals of seconds, the seconds that a collection of them
//! covers, and the merge that turns a collection into disjoint intervals
//! covering the same seconds.
//!
//! An interval is a pair `(start, end)` and stands for the seconds `t` with
//! `start <= t < end`. A pair whose end is not after its start covers nothing.

use vstd::prelude::*;
use vstd::set_lib::*;

verus! {

/// Second `t` lies in `iv`.
pub open spec fn holds(iv: (u64, u64), t: int) -> bool {
    iv.0 <= t < iv.1
}

/// The seconds of one interval.
pub open spec fn seconds(iv: (u64, u64)) -> Set<int> {
    set_int_range(iv.0 as int, iv.1 as int)
}

/// The seconds that lie in at least one of the intervals.
pub open spec fn covered(ivs: Seq<(u64, u64)>) -> Set<int> {
    Set::new(|t: int| exists|iv: (u64, u64)| #[trigger] ivs.contains(iv) && holds(iv, t))
}

/// The length of one interval.
pub open spec fn span(iv: (u64, u64)) -> nat {
    if iv.0 <= iv.1 {
        (iv.1 - iv.0) as nat
    } else {
        0
    }
}

/// The lengths of the intervals, added up.
pub open spec fn total_span(ivs: Seq<(u64, u64)>) -> nat
    decreases ivs.len(),
{
    if ivs.len() == 0 {
        0
    } else {
        total_span(ivs.drop_last()) + span(ivs.last())
    }
}

/// No interval ends before it starts.
pub open spec fn well_formed(ivs: Seq<(u64, u64)>) -> bool {
    forall|i: int| 0 <= i < ivs.len() ==> (#[trigger] ivs[i]).0 <= ivs[i].1
}

/// The two intervals have a second in common.
pub open spec fn overlap(a: (u64, u64), b: (u64, u64)) -> bool {
    a.0 < a.1 && b.0 < b.1 && a.0 < b.1 && b.0 < a.1
}

/// The two intervals have a second in common, or one starts exactly where
/// the other ends.
pub open spec fn meet(a: (u64, u64), b: (u64, u64)) -> bool {
    a.0 <= b.1 && b.0 <= a.1
}

/// No two of the intervals have a second in common.
pub open spec fn pairwise_disjoint(ivs: Seq<(u64, u64)>) -> bool {
    forall|i: int, j: int| 0 <= i < j < ivs.len() ==> !overlap(#[trigger] ivs[i], #[trigger] ivs[j])
}

/// No two of the intervals overlap or touch.
pub open spec fn pairwise_apart(ivs: Seq<(u64, u64)>) -> bool {
    forall|i: int, j: int| 0 <= i < j < ivs.len() ==> !meet(#[trigger] ivs[i], #[trigger] ivs[j])
}

pub proof fn lemma_seconds(iv: (u64, u64))
    ensures
        seconds(iv).finite(),
        seconds(iv).len() == span(iv),
        forall|t: int| seconds(iv).contains(t) <==> holds(iv, t),
{
    if iv.0 <= iv.1 {
        lemma_int_range(iv.0 as int, iv.1 as int);
    } else {
        assert(seconds(iv) =~= Set::<int>::empty());
    }
}

pub proof fn lemma_contains_push(ivs: Seq<(u64, u64)>, iv: (u64, u64))
    ensures
        forall|x: (u64, u64)| #[trigger]
            ivs.push(iv).contains(x) <==> ivs.contains(x) || x == iv,
{
    let more = ivs.push(iv);
    assert forall|x: (u64, u64)| #[trigger] more.contains(x) <==> ivs.contains(x) || x == iv by {
        if more.contains(x) {
            let i = choose|i: int| 0 <= i < more.len() && more[i] == x;
            if i < ivs.len() {
                assert(ivs[i] == x);
            }
        }
        if ivs.contains(x) {
            let i = choose|i: int| 0 <= i < ivs.len() && ivs[i] == x;
            assert(more[i] == x);
        }
        if x == iv {
            assert(more[ivs.len() as int] == x);
        }
    }
}

/// One more interval adds its own seconds to those covered.
pub proof fn lemma_covered_push(ivs: Seq<(u64, u64)>, iv: (u64, u64))
    ensures
        covered(ivs.push(iv)) == covered(ivs) + seconds(iv),
{
    lemma_contains_push(ivs, iv);
    lemma_seconds(iv);
    let more = ivs.push(iv);
    assert forall|t: int| covered(more).contains(t) <==> (covered(ivs) + seconds(iv)).contains(
        t,
    ) by {
        if covered(more).contains(t) {
            let x = choose|x: (u64, u64)| #[trigger] more.contains(x) && holds(x, t);
            if x != iv {
                assert(ivs.contains(x));
            }
        }
        if covered(ivs).contains(t) {
            let x = choose|x: (u64, u64)| #[trigger] ivs.contains(x) && holds(x, t);
            assert(more.contains(x));
        }
        if seconds(iv).contains(t) {
            assert(more.contains(iv));
        }
    }
    assert(covered(more) =~= covered(ivs) + seconds(iv));
}

/// Only finitely many seconds are covered.
pub proof fn lemma_covered_finite(ivs: Seq<(u64, u64)>)
    ensures
        covered(ivs).finite(),
    decreases ivs.len(),
{
    if ivs.len() == 0 {
        assert(covered(ivs) =~= Set::<int>::empty()) by {
            assert forall|t: int| !covered(ivs).contains(t) by {
                if covered(ivs).contains(t) {
                    let x = choose|x: (u64, u64)| #[trigger] ivs.contains(x) && holds(x, t);
                    assert(false);
                }
            }
        }
    } else {
        lemma_covered_finite(ivs.drop_last());
        lemma_seconds(ivs.last());
        lemma_covered_push(ivs.drop_last(), ivs.last());
        assert(ivs.drop_last().push(ivs.last()) =~= ivs);
    }
}

/// The time covered is never more than the lengths added up, and it is as
/// much exactly when no two of the intervals have a second in common.
pub proof fn law_covered_at_most_total(ivs: Seq<(u64, u64)>)
    ensures
        covered(ivs).len() <= total_span(ivs),
        covered(ivs).len() == total_span(ivs) <==> pairwise_disjoint(ivs),
    decreases ivs.len(),
{
    if ivs.len() == 0 {
        lemma_covered_finite(ivs);
        assert(covered(ivs) =~= Set::<int>::empty()) by {
            assert forall|t: int| !covered(ivs).contains(t) by {
                if covered(ivs).contains(t) {
                    let x = choose|x: (u64, u64)| #[trigger] ivs.contains(x) && holds(x, t);
                    assert(false);
                }
            }
        }
    } else {
        let init = ivs.drop_last();
        let last = ivs.last();
        let n = init.len() as int;
        assert(init.push(last) =~= ivs);
        law_covered_at_most_total(init);
        lemma_covered_finite(init);
        lemma_seconds(last);
        lemma_covered_push(init, last);
        let a = covered(init);
        let b = seconds(last);
        lemma_set_intersect_union_lens(a, b);
        let common = a.intersect(b);
        assert(common.finite());
        let clear = forall|i: int| 0 <= i < n ==> !overlap(#[trigger] init[i], last);
        // The last interval shares a second with what came before exactly
        // when it overlaps one of the earlier intervals.
        assert(common.len() == 0 <==> clear) by {
            if clear {
                assert forall|t: int| !common.contains(t) by {
                    if common.contains(t) {
                        let x = choose|x: (u64, u64)| #[trigger] init.contains(x) && holds(x, t);
                        let i = choose|i: int| 0 <= i < init.len() && init[i] == x;
                        assert(overlap(init[i], last));
                    }
                }
                assert(common =~= Set::<int>::empty());
            } else {
                let i = choose|i: int| 0 <= i < n && overlap(#[trigger] init[i], last);
                let t: int = if init[i].0 <= last.0 {
                    last.0 as int
                } else {
                    init[i].0 as int
                };
                assert(init.contains(init[i]));
                assert(holds(init[i], t));
                assert(a.contains(t));
                assert(b.contains(t));
                assert(common.contains(t));
                assert(common.len() != 0) by {
                    if common.len() == 0 {
                        assert(common =~= Set::<int>::empty());
                    }
                }
            }
        }
        assert(pairwise_disjoint(ivs) <==> pairwise_disjoint(init) && clear) by {
            if pairwise_disjoint(ivs) {
                assert forall|i: int, j: int| 0 <= i < j < n implies !overlap(
                    #[trigger] init[i],
                    #[trigger] init[j],
                ) by {
                    assert(init[i] == ivs[i] && init[j] == ivs[j]);
                }
                assert forall|i: int| 0 <= i < n implies !overlap(#[trigger] init[i], last) by {
                    assert(init[i] == ivs[i] && last == ivs[n]);
                }
            }
            if pairwise_disjoint(init) && clear {
                assert forall|i: int, j: int| 0 <= i < j < ivs.len() implies !overlap(
                    #[trigger] ivs[i],
                    #[trigger] ivs[j],
                ) by {
                    assert(init[i] == ivs[i]);
                    if j < n {
                        assert(init[j] == ivs[j]);
                    }
                }
            }
        }
    }
}

/// Where intervals that share no second do not touch either, the time
/// covered is the lengths added up exactly when no two of the intervals
/// overlap or touch.
pub proof fn law_covered_is_total_iff_apart(ivs: Seq<(u64, u64)>)
    requires
        well_formed(ivs),
        pairwise_disjoint(ivs) ==> pairwise_apart(ivs),
    ensures
        covered(ivs).len() <= total_span(ivs),
        covered(ivs).len() == total_span(ivs) <==> pairwise_apart(ivs),
{
    law_covered_at_most_total(ivs);
    if pairwise_apart(ivs) {
        assert forall|i: int, j: int| 0 <= i < j < ivs.len() implies !overlap(
            #[trigger] ivs[i],
            #[trigger] ivs[j],
        ) by {
            assert(!meet(ivs[i], ivs[j]));
        }
    }
}

// ---------------------------------------------------------------------------
// Merging
// ---------------------------------------------------------------------------

/// `inner` lies inside `outer`.
pub open spec fn within(inner: (u64, u64), outer: (u64, u64)) -> bool {
    outer.0 <= inner.0 && inner.1 <= outer.1
}

/// The intervals are in ascending order with a gap between any two: each
/// ends before the next one starts.
pub open spec fn separated(ivs: Seq<(u64, u64)>) -> bool {
    forall|i: int, j: int| 0 <= i < j < ivs.len() ==> (#[trigger] ivs[i]).1 < (#[trigger] ivs[j]).0
}

/// `iv` lies inside one of the intervals of `out`.
#[verifier::opaque]
pub open spec fn housed(iv: (u64, u64), out: Seq<(u64, u64)>) -> bool {
    exists|k: int| 0 <= k < out.len() && within(iv, #[trigger] out[k])
}

/// `o` is made of intervals of `input`: it starts where one of them starts,
/// ends where one of them ends, both of these inside `o`, and every second
/// of `o` lies in some interval of `input`.
#[verifier::opaque]
pub open spec fn grown_from(o: (u64, u64), input: Seq<(u64, u64)>) -> bool {
    &&& exists|a: (u64, u64)| #[trigger] input.contains(a) && a.0 == o.0 && a.1 <= o.1
    &&& exists|b: (u64, u64)| #[trigger] input.contains(b) && b.1 == o.1 && o.0 <= b.0
    &&& forall|t: int| #[trigger] holds(o, t) ==> covered(input).contains(t)
}

/// `out` is `input` merged: intervals in ascending order with gaps between
/// them, each interval of `input` inside one of them, and each of them made
/// of intervals of `input`.
pub open spec fn is_merge_of(out: Seq<(u64, u64)>, input: Seq<(u64, u64)>) -> bool {
    &&& separated(out)
    &&& forall|iv: (u64, u64)| #[trigger] input.contains(iv) ==> housed(iv, out)
    &&& forall|k: int| 0 <= k < out.len() ==> grown_from(#[trigger] out[k], input)
}

/// The place of a housed interval.
pub proof fn lemma_housed_in(iv: (u64, u64), out: Seq<(u64, u64)>) -> (k: int)
    requires
        housed(iv, out),
    ensures
        0 <= k < out.len(),
        within(iv, out[k]),
{
    reveal(housed);
    choose|k: int| 0 <= k < out.len() && within(iv, #[trigger] out[k])
}

pub proof fn lemma_house(iv: (u64, u64), out: Seq<(u64, u64)>, k: int)
    requires
        0 <= k < out.len(),
        within(iv, out[k]),
    ensures
        housed(iv, out),
{
    reveal(housed);
}

/// The interval of `input` with which `o` starts.
pub proof fn lemma_grown_start(o: (u64, u64), input: Seq<(u64, u64)>) -> (a: (u64, u64))
    requires
        grown_from(o, input),
    ensures
        input.contains(a),
        a.0 == o.0,
        a.1 <= o.1,
{
    reveal(grown_from);
    choose|a: (u64, u64)| #[trigger] input.contains(a) && a.0 == o.0 && a.1 <= o.1
}

/// The interval of `input` with which `o` ends.
pub proof fn lemma_grown_end(o: (u64, u64), input: Seq<(u64, u64)>) -> (b: (u64, u64))
    requires
        grown_from(o, input),
    ensures
        input.contains(b),
        b.1 == o.1,
        o.0 <= b.0,
{
    reveal(grown_from);
    choose|b: (u64, u64)| #[trigger] input.contains(b) && b.1 == o.1 && o.0 <= b.0
}

/// An interval of `input` in which second `t` of `o` lies.
pub proof fn lemma_grown_filled(o: (u64, u64), input: Seq<(u64, u64)>, t: int) -> (x: (u64, u64))
    requires
        grown_from(o, input),
        holds(o, t),
    ensures
        input.contains(x),
        holds(x, t),
{
    reveal(grown_from);
    assert(covered(input).contains(t));
    choose|x: (u64, u64)| #[trigger] input.contains(x) && holds(x, t)
}

pub proof fn lemma_grow(o: (u64, u64), input: Seq<(u64, u64)>, a: (u64, u64), b: (u64, u64))
    requires
        input.contains(a),
        a.0 == o.0,
        a.1 <= o.1,
        input.contains(b),
        b.1 == o.1,
        o.0 <= b.0,
        forall|t: int| #[trigger] holds(o, t) ==> covered(input).contains(t),
    ensures
        grown_from(o, input),
{
    reveal(grown_from);
}

proof fn lemma_grown_from_more(o: (u64, u64), input: Seq<(u64, u64)>, more: Seq<(u64, u64)>)
    requires
        grown_from(o, input),
        forall|x: (u64, u64)| input.contains(x) ==> more.contains(x),
    ensures
        grown_from(o, more),
{
    let a = lemma_grown_start(o, input);
    let b = lemma_grown_end(o, input);
    assert forall|t: int| #[trigger] holds(o, t) implies covered(more).contains(t) by {
        let x = lemma_grown_filled(o, input, t);
        assert(more.contains(x) && holds(x, t));
    }
    lemma_grow(o, more, a, b);
}

/// An interval that starts after all that was merged so far ends opens an
/// interval of its own.
proof fn lemma_merge_open(out: Seq<(u64, u64)>, input: Seq<(u64, u64)>, iv: (u64, u64))
    requires
        is_merge_of(out, input),
        out.len() > 0 ==> out.last().0 <= iv.0 && out.last().1 < iv.0,
    ensures
        is_merge_of(out.push(iv), input.push(iv)),
{
    let out2 = out.push(iv);
    let input2 = input.push(iv);
    let n = out.len() as int;
    lemma_contains_push(input, iv);
    assert forall|i: int, j: int| 0 <= i < j < out2.len() implies (#[trigger] out2[i]).1 < (
    #[trigger] out2[j]).0 by {
        if j < n {
            assert(out[i].1 < out[j].0);
        } else if i < n - 1 {
            assert(out[i].1 < out[n - 1].0);
        }
    }
    assert forall|x: (u64, u64)| #[trigger] input2.contains(x) implies housed(x, out2) by {
        if input.contains(x) {
            let k = lemma_housed_in(x, out);
            lemma_house(x, out2, k);
        } else {
            lemma_house(x, out2, n);
        }
    }
    assert forall|k: int| 0 <= k < out2.len() implies grown_from(#[trigger] out2[k], input2) by {
        if k < n {
            assert(grown_from(out[k], input));
            lemma_grown_from_more(out[k], input, input2);
        } else {
            assert(input2.contains(iv));
            assert forall|t: int| #[trigger] holds(iv, t) implies covered(input2).contains(t) by {
                assert(input2.contains(iv) && holds(iv, t));
            }
            lemma_grow(iv, input2, iv, iv);
        }
    }
}

/// An interval that starts inside the last one merged so far, or exactly at
/// its end, makes that one longer where it reaches further.
proof fn lemma_merge_extend(out: Seq<(u64, u64)>, input: Seq<(u64, u64)>, iv: (u64, u64))
    requires
        is_merge_of(out, input),
        out.len() > 0,
        out.last().0 <= iv.0 <= out.last().1,
    ensures
        is_merge_of(
            out.update(
                out.len() - 1,
                (
                    out.last().0,
                    if iv.1 > out.last().1 {
                        iv.1
                    } else {
                        out.last().1
                    },
                ),
            ),
            input.push(iv),
        ),
{
    let n = out.len() as int;
    let last = out.last();
    let grown = (
        last.0,
        if iv.1 > last.1 {
            iv.1
        } else {
            last.1
        },
    );
    let out2 = out.update(n - 1, grown);
    let input2 = input.push(iv);
    lemma_contains_push(input, iv);
    assert forall|i: int, j: int| 0 <= i < j < out2.len() implies (#[trigger] out2[i]).1 < (
    #[trigger] out2[j]).0 by {
        assert(out[i].1 < out[j].0);
    }
    assert forall|x: (u64, u64)| #[trigger] input2.contains(x) implies housed(x, out2) by {
        if input.contains(x) {
            let k = lemma_housed_in(x, out);
            lemma_house(x, out2, k);
        } else {
            lemma_house(x, out2, n - 1);
        }
    }
    assert forall|k: int| 0 <= k < out2.len() implies grown_from(#[trigger] out2[k], input2) by {
        assert(grown_from(out[k], input));
        if k < n - 1 {
            lemma_grown_from_more(out[k], input, input2);
        } else {
            let a = lemma_grown_start(last, input);
            let b0 = lemma_grown_end(last, input);
            let b = if iv.1 > last.1 {
                iv
            } else {
                b0
            };
            assert(input2.contains(a));
            assert(input2.contains(b));
            assert forall|t: int| #[trigger] holds(grown, t) implies covered(input2).contains(
                t,
            ) by {
                if holds(last, t) {
                    let x = lemma_grown_filled(last, input, t);
                    assert(input2.contains(x) && holds(x, t));
                } else {
                    assert(input2.contains(iv) && holds(iv, t));
                }
            }
            lemma_grow(grown, input2, a, b);
        }
    }
}

/// What merging gives depends on which intervals there are, not on their
/// order or on how often each occurs.
pub proof fn lemma_merge_same_elements(
    out: Seq<(u64, u64)>,
    a: Seq<(u64, u64)>,
    b: Seq<(u64, u64)>,
)
    requires
        is_merge_of(out, a),
        forall|x: (u64, u64)| a.contains(x) <==> b.contains(x),
    ensures
        is_merge_of(out, b),
{
    assert forall|x: (u64, u64)| #[trigger] b.contains(x) implies housed(x, out) by {
        assert(a.contains(x));
    }
    assert forall|k: int| 0 <= k < out.len() implies grown_from(#[trigger] out[k], b) by {
        assert(grown_from(out[k], a));
        lemma_grown_from_more(out[k], a, b);
    }
}

/// Merging keeps well-formed intervals well-formed.
pub proof fn lemma_merge_well_formed(out: Seq<(u64, u64)>, input: Seq<(u64, u64)>)
    requires
        is_merge_of(out, input),
        well_formed(input),
    ensures
        well_formed(out),
{
    assert forall|k: int| 0 <= k < out.len() implies (#[trigger] out[k]).0 <= out[k].1 by {
        assert(grown_from(out[k], input));
        let b = lemma_grown_end(out[k], input);
        let i = choose|i: int| 0 <= i < input.len() && input[i] == b;
        assert(input[i].0 <= input[i].1);
    }
}

/// Merging neither loses nor adds a second, and what it gives has the time
/// covered as the sum of its lengths.
pub proof fn lemma_merge_total(out: Seq<(u64, u64)>, input: Seq<(u64, u64)>)
    requires
        is_merge_of(out, input),
    ensures
        covered(out) == covered(input),
        total_span(out) == covered(input).len(),
{
    assert forall|t: int| covered(out).contains(t) <==> covered(input).contains(t) by {
        if covered(out).contains(t) {
            let o = choose|o: (u64, u64)| #[trigger] out.contains(o) && holds(o, t);
            let k = choose|k: int| 0 <= k < out.len() && out[k] == o;
            assert(grown_from(out[k], input));
            let x = lemma_grown_filled(out[k], input, t);
        }
        if covered(input).contains(t) {
            let x = choose|x: (u64, u64)| #[trigger] input.contains(x) && holds(x, t);
            let k = lemma_housed_in(x, out);
            assert(out.contains(out[k]) && holds(out[k], t));
        }
    }
    assert(covered(out) =~= covered(input));
    law_covered_at_most_total(out);
    assert(pairwise_disjoint(out)) by {
        assert forall|i: int, j: int| 0 <= i < j < out.len() implies !overlap(
            #[trigger] out[i],
            #[trigger] out[j],
        ) by {
            assert(out[i].1 < out[j].0);
        }
    }
}

/// Calls `[T]::sort_unstable_by_key` with the start of an interval as the
/// key. Taken on trust, not proved: afterwards the vector holds the same
/// intervals, each as often as before, in ascending order of their starts.
/// Nothing is said of the order of intervals with the same start.
#[verifier::external_body]
fn sort_by_start(intervals: &mut Vec<(u64, u64)>)
    ensures
        final(intervals)@.to_multiset() == old(intervals)@.to_multiset(),
        forall|i: int, j: int|
            0 <= i <= j < final(intervals)@.len() ==> (#[trigger] final(intervals)@[i]).0 <= (
            #[trigger] final(intervals)@[j]).0,
{
    intervals.sort_unstable_by_key(|iv| iv.0);
}

/// Merges intervals that overlap or touch. The result holds disjoint
/// intervals in ascending order, none touching another, that cover the same
/// seconds as `intervals`.
pub fn merge_intervals(intervals: Vec<(u64, u64)>) -> (merged: Vec<(u64, u64)>)
    ensures
        is_merge_of(merged@, intervals@),
        covered(merged@) == covered(intervals@),
        total_span(merged@) == covered(intervals@).len(),
        well_formed(intervals@) ==> well_formed(merged@),
{
    let ghost input = intervals@;
    let mut sorted = intervals;
    if sorted.len() == 0 {
        proof {
            assert(is_merge_of(sorted@, input));
            lemma_merge_total(sorted@, input);
        }
        return sorted;
    }
    sort_by_start(&mut sorted);
    proof {
        assert forall|x: (u64, u64)| input.contains(x) <==> sorted@.contains(x) by {
            vstd::seq_lib::to_multiset_contains(sorted@, x);
            vstd::seq_lib::to_multiset_contains(input, x);
        }
        vstd::seq_lib::to_multiset_len(sorted@);
        vstd::seq_lib::to_multiset_len(input);
    }
    let mut merged: Vec<(u64, u64)> = Vec::new();
    let mut cur: (u64, u64) = sorted[0];
    proof {
        let empty_out = Seq::<(u64, u64)>::empty();
        let empty_in = Seq::<(u64, u64)>::empty();
        assert(is_merge_of(empty_out, empty_in));
        lemma_merge_open(empty_out, empty_in, cur);
        assert(empty_out.push(cur) =~= merged@.push(cur));
        assert(empty_in.push(cur) =~= sorted@.take(1));
    }
    let mut i: usize = 1;
    while i < sorted.len()
        invariant
            1 <= i <= sorted.len(),
            is_merge_of(merged@.push(cur), sorted@.take(i as int)),
            exists|j: int| 0 <= j < i && (#[trigger] sorted@[j]).0 == cur.0,
            forall|i: int, j: int|
                0 <= i <= j < sorted@.len() ==> (#[trigger] sorted@[i]).0 <= (
                #[trigger] sorted@[j]).0,
        decreases sorted.len() - i,
    {
        let next = sorted[i];
        let ghost out = merged@.push(cur);
        let ghost seen = sorted@.take(i as int);
        proof {
            let j = choose|j: int| 0 <= j < i && (#[trigger] sorted@[j]).0 == cur.0;
            assert(sorted@[j].0 <= sorted@[i as int].0);
            assert(seen.push(next) =~= sorted@.take(i + 1));
        }
        if next.0 > cur.1 {
            proof {
                lemma_merge_open(out, seen, next);
            }
            merged.push(cur);
            cur = next;
            assert(sorted@[i as int].0 == cur.0);
        } else {
            proof {
                lemma_merge_extend(out, seen, next);
            }
            if next.1 > cur.1 {
                cur.1 = next.1;
            }
            assert(merged@.push(cur) =~= out.update(out.len() - 1, cur));
        }
        i += 1;
    }
    proof {
        let out = merged@.push(cur);
        assert(sorted@.take(i as int) =~= sorted@);
        lemma_merge_same_elements(out, sorted@, input);
        lemma_merge_total(out, input);
        if well_formed(input) {
            lemma_merge_well_formed(out, input);
        }
    }
    merged.push(cur);
    merged
}

/// The lengths of merged intervals, added up.
pub fn total_seconds(merged: &Vec<(u64, u64)>) -> (total: u64)
    requires
        separated(merged@),
        well_formed(merged@),
    ensures
        total == total_span(merged@),
        total == covered(merged@).len(),
{
    let mut total: u64 = 0;
    let mut i: usize = 0;
    while i < merged.len()
        invariant
            i <= merged.len(),
            separated(merged@),
            well_formed(merged@),
            total == total_span(merged@.take(i as int)),
            i > 0 ==> total <= merged@[i - 1].1,
        decreases merged.len() - i,
    {
        let (start, end) = merged[i];
        proof {
            assert(merged@[i as int].0 <= merged@[i as int].1);
            if i > 0 {
                assert(merged@[i - 1].1 < merged@[i as int].0);
            }
            assert(merged@.take(i + 1).drop_last() =~= merged@.take(i as int));
        }
        total = total + (end - start);
        i += 1;
    }
    proof {
        assert(merged@.take(i as int) =~= merged@);
        law_covered_at_most_total(merged@);
        assert(pairwise_disjoint(merged@)) by {
            assert forall|i: int, j: int| 0 <= i < j < merged@.len() implies !overlap(
                #[trigger] merged@[i],
                #[trigger] merged@[j],
            ) by {
                assert(merged@[i].1 < merged@[j].0);
            }
        }
    }
    total
}

// ---------------------------------------------------------------------------
// What merging gives is fixed by the intervals given
// ---------------------------------------------------------------------------

/// Each interval of one merge of `input` is an interval of any other.
proof fn lemma_merge_shares(
    o1: Seq<(u64, u64)>,
    o2: Seq<(u64, u64)>,
    input: Seq<(u64, u64)>,
    k: int,
)
    requires
        well_formed(input),
        is_merge_of(o1, input),
        is_merge_of(o2, input),
        0 <= k < o1.len(),
    ensures
        o2.contains(o1[k]),
{
    lemma_merge_well_formed(o1, input);
    lemma_merge_well_formed(o2, input);
    let o = o1[k];
    assert(grown_from(o1[k], input));
    let first = lemma_grown_start(o, input);
    let at = choose|i: int| 0 <= i < input.len() && input[i] == first;
    assert(input[at].0 <= input[at].1);
    let m = lemma_housed_in(first, o2);
    let p = o2[m];
    assert(grown_from(o2[m], input));
    assert(p.0 <= p.1);
    assert(o.0 <= o.1);
    // Both start at the same second.
    if p.0 < o.0 {
        let t = o.0 - 1;
        let x = lemma_grown_filled(p, input, t);
        let k2 = lemma_housed_in(x, o1);
        if k2 < k {
            assert(o1[k2].1 < o1[k].0);
        } else if k2 > k {
            assert(o1[k].1 < o1[k2].0);
        }
        assert(false);
    }
    // Both end at the same second.
    if o.1 < p.1 {
        let t = o.1 as int;
        let x = lemma_grown_filled(p, input, t);
        let k3 = lemma_housed_in(x, o1);
        if k3 < k {
            assert(o1[k3].1 < o1[k].0);
        } else if k3 > k {
            assert(o1[k].1 < o1[k3].0);
        }
        assert(false);
    }
    if p.1 < o.1 {
        let t = p.1 as int;
        let x = lemma_grown_filled(o, input, t);
        let m4 = lemma_housed_in(x, o2);
        if m4 < m {
            assert(o2[m4].1 < o2[m].0);
        } else if m4 > m {
            assert(o2[m].1 < o2[m4].0);
        }
        assert(false);
    }
    assert(o2[m] == o);
}

/// Two ascending lists of intervals with gaps that hold the same intervals
/// are the same list.
proof fn lemma_separated_same_elements(x: Seq<(u64, u64)>, y: Seq<(u64, u64)>)
    requires
        separated(x),
        separated(y),
        well_formed(x),
        well_formed(y),
        forall|e: (u64, u64)| x.contains(e) <==> y.contains(e),
    ensures
        x == y,
    decreases x.len(),
{
    if x.len() == 0 {
        if y.len() > 0 {
            assert(y.contains(y[0]));
        }
        assert(x =~= y);
    } else {
        let xl = x.len() - 1;
        assert(x.contains(x[xl]));
        let m = choose|m: int| 0 <= m < y.len() && y[m] == x[xl];
        let yl = y.len() - 1;
        assert(y.contains(y[yl]));
        let k = choose|k: int| 0 <= k < x.len() && x[k] == y[yl];
        assert(x[k].0 <= x[k].1 && y[m].0 <= y[m].1);
        if k < xl {
            assert(x[k].1 < x[xl].0);
        }
        if m < yl {
            assert(y[m].1 < y[yl].0);
        }
        assert(x[xl] == y[yl]);
        let x0 = x.drop_last();
        let y0 = y.drop_last();
        assert forall|e: (u64, u64)| x0.contains(e) <==> y0.contains(e) by {
            if x0.contains(e) {
                let i = choose|i: int| 0 <= i < x0.len() && x0[i] == e;
                assert(x[i] == e);
                assert(x[i].0 <= x[i].1);
                assert(x[i].1 < x[xl].0);
                assert(x.contains(e));
                let j = choose|j: int| 0 <= j < y.len() && y[j] == e;
                assert(y0[j] == e);
            }
            if y0.contains(e) {
                let j = choose|j: int| 0 <= j < y0.len() && y0[j] == e;
                assert(y[j] == e);
                assert(y[j].0 <= y[j].1);
                assert(y[j].1 < y[yl].0);
                assert(y.contains(e));
                let i = choose|i: int| 0 <= i < x.len() && x[i] == e;
                assert(x0[i] == e);
            }
        }
        assert(separated(x0)) by {
            assert forall|i: int, j: int| 0 <= i < j < x0.len() implies (#[trigger] x0[i]).1 < (
            #[trigger] x0[j]).0 by {
                assert(x[i].1 < x[j].0);
            }
        }
        assert(separated(y0)) by {
            assert forall|i: int, j: int| 0 <= i < j < y0.len() implies (#[trigger] y0[i]).1 < (
            #[trigger] y0[j]).0 by {
                assert(y[i].1 < y[j].0);
            }
        }
        assert(well_formed(x0)) by {
            assert forall|i: int| 0 <= i < x0.len() implies (#[trigger] x0[i]).0 <= x0[i].1 by {
                assert(x[i].0 <= x[i].1);
            }
        }
        assert(well_formed(y0)) by {
            assert forall|i: int| 0 <= i < y0.len() implies (#[trigger] y0[i]).0 <= y0[i].1 by {
                assert(y[i].0 <= y[i].1);
            }
        }
        lemma_separated_same_elements(x0, y0);
        assert(x =~= x0.push(x[xl]));
        assert(y =~= y0.push(y[yl]));
    }
}

/// A list of intervals in ascending order with gaps is its own merge.
pub proof fn lemma_merge_of_itself(out: Seq<(u64, u64)>)
    requires
        separated(out),
        well_formed(out),
    ensures
        is_merge_of(out, out),
{
    assert forall|iv: (u64, u64)| #[trigger] out.contains(iv) implies housed(iv, out) by {
        let k = choose|k: int| 0 <= k < out.len() && out[k] == iv;
        lemma_house(iv, out, k);
    }
    assert forall|k: int| 0 <= k < out.len() implies grown_from(#[trigger] out[k], out) by {
        let o = out[k];
        assert(out.contains(o));
        assert(o.0 <= o.1);
        assert forall|t: int| #[trigger] holds(o, t) implies covered(out).contains(t) by {
            assert(out.contains(o) && holds(o, t));
        }
        lemma_grow(o, out, o, o);
    }
}

/// There is only one way to merge given intervals.
pub proof fn law_merge_unique(o1: Seq<(u64, u64)>, o2: Seq<(u64, u64)>, input: Seq<(u64, u64)>)
    requires
        well_formed(input),
        is_merge_of(o1, input),
        is_merge_of(o2, input),
    ensures
        o1 == o2,
{
    lemma_merge_well_formed(o1, input);
    lemma_merge_well_formed(o2, input);
    assert forall|e: (u64, u64)| o1.contains(e) <==> o2.contains(e) by {
        if o1.contains(e) {
            let k = choose|k: int| 0 <= k < o1.len() && o1[k] == e;
            lemma_merge_shares(o1, o2, input, k);
        }
        if o2.contains(e) {
            let k = choose|k: int| 0 <= k < o2.len() && o2[k] == e;
            lemma_merge_shares(o2, o1, input, k);
        }
    }
    lemma_separated_same_elements(o1, o2);
}

/// Merging does not depend on the order in which the intervals are given:
/// the same intervals in another order merge to the same list.
pub proof fn law_merge_order_invariant(
    o1: Seq<(u64, u64)>,
    input1: Seq<(u64, u64)>,
    o2: Seq<(u64, u64)>,
    input2: Seq<(u64, u64)>,
)
    requires
        well_formed(input1),
        input1.to_multiset() == input2.to_multiset(),
        is_merge_of(o1, input1),
        is_merge_of(o2, input2),
    ensures
        o1 == o2,
{
    assert forall|x: (u64, u64)| input2.contains(x) <==> input1.contains(x) by {
        vstd::seq_lib::to_multiset_contains(input1, x);
        vstd::seq_lib::to_multiset_contains(input2, x);
    }
    lemma_merge_same_elements(o2, input2, input1);
    law_merge_unique(o1, o2, input1);
}

/// Merging what was merged changes nothing.
pub proof fn law_merge_idempotent(
    out: Seq<(u64, u64)>,
    input: Seq<(u64, u64)>,
    again: Seq<(u64, u64)>,
)
    requires
        well_formed(input),
        is_merge_of(out, input),
        is_merge_of(again, out),
    ensures
        again == out,
{
    lemma_merge_well_formed(out, input);
    lemma_merge_of_itself(out);
    law_merge_unique(again, out, out);
}

/// What merging gives is never longer in all than the intervals given, and
/// as long exactly when no two of those have a second in common.
pub proof fn law_merged_total_at_most_sum(out: Seq<(u64, u64)>, input: Seq<(u64, u64)>)
    requires
        is_merge_of(out, input),
    ensures
        total_span(out) <= total_span(input),
        total_span(out) == total_span(input) <==> pairwise_disjoint(input),
{
    lemma_merge_total(out, input);
    law_covered_at_most_total(input);
}

/// Where intervals that share no second do not touch either, what merging
/// gives is as long in all as the intervals given exactly when no two of
/// those overlap or touch.
pub proof fn law_merged_total_is_sum_iff_apart(out: Seq<(u64, u64)>, input: Seq<(u64, u64)>)
    requires
        well_formed(input),
        is_merge_of(out, input),
        pairwise_disjoint(input) ==> pairwise_apart(input),
    ensures
        total_span(out) == total_span(input) <==> pairwise_apart(input),
{
    lemma_merge_total(out, input);
    law_covered_is_total_iff_apart(input);
}

} // verus!
