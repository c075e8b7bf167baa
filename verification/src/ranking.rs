//! Ranking: the scored positions of a list, best score first.

use vstd::prelude::*;

verus! {

/// Position `a` ranks before position `b`: by its higher score, or, of equal scores, by standing
/// first in the list.
pub open spec fn ranks_before(scores: Seq<Option<i64>>, a: usize, b: usize) -> bool {
    &&& scores[a as int] is Some
    &&& scores[b as int] is Some
    &&& {
        ||| scores[a as int]->0 > scores[b as int]->0
        ||| scores[a as int]->0 == scores[b as int]->0 && a < b
    }
}

/// A list of positions that have a score.
pub open spec fn all_scored(scores: Seq<Option<i64>>, order: Seq<usize>) -> bool {
    forall|k: int|
        0 <= k < order.len() ==> (#[trigger] order[k]) < scores.len()
            && scores[order[k] as int] is Some
}

/// Each position ranks before those that follow it.
pub open spec fn in_rank_order(scores: Seq<Option<i64>>, order: Seq<usize>) -> bool {
    forall|j: int, k: int|
        #![trigger order[j], order[k]]
        0 <= j < k < order.len() ==> ranks_before(scores, order[j], order[k])
}

/// `order` lists the positions that have a score, each once, best score first; equal scores keep
/// the order of the list.
pub open spec fn is_ranking(scores: Seq<Option<i64>>, order: Seq<usize>) -> bool {
    &&& all_scored(scores, order)
    &&& in_rank_order(scores, order)
    &&& forall|i: usize|
        i < scores.len() && scores[i as int] is Some ==> #[trigger] order.contains(i)
}

/// The same positions stand in two lists.
spec fn same_positions(a: Seq<usize>, b: Seq<usize>) -> bool {
    forall|x: usize| a.contains(x) <==> b.contains(x)
}

/// A list of scores has one ranking only.
pub proof fn lemma_ranking_is_unique(scores: Seq<Option<i64>>, a: Seq<usize>, b: Seq<usize>)
    requires
        is_ranking(scores, a),
        is_ranking(scores, b),
    ensures
        a == b,
{
    assert forall|x: usize| a.contains(x) <==> b.contains(x) by {
        if a.contains(x) {
            let k = choose|k: int| 0 <= k < a.len() && a[k] == x;
            assert(a[k] < scores.len());
        }
        if b.contains(x) {
            let k = choose|k: int| 0 <= k < b.len() && b[k] == x;
            assert(b[k] < scores.len());
        }
    }
    lemma_same_order(scores, a, b);
}

proof fn lemma_same_order(scores: Seq<Option<i64>>, a: Seq<usize>, b: Seq<usize>)
    requires
        in_rank_order(scores, a),
        in_rank_order(scores, b),
        same_positions(a, b),
    ensures
        a == b,
    decreases a.len(),
{
    if a.len() == 0 {
        if b.len() > 0 {
            assert(b.contains(b[0]));
            assert(a.contains(b[0]));
        }
        assert(a =~= b);
    } else {
        assert(a.contains(a[0]));
        assert(b.contains(a[0]));
        let k = choose|k: int| 0 <= k < b.len() && b[k] == a[0];
        assert(b.contains(b[0]));
        assert(a.contains(b[0]));
        let j = choose|j: int| 0 <= j < a.len() && a[j] == b[0];
        assert(a[0] == b[0]) by {
            if j > 0 && k > 0 {
                assert(ranks_before(scores, a[0], a[j]));
                assert(ranks_before(scores, b[0], b[k]));
            }
        }
        let a_rest = a.drop_first();
        let b_rest = b.drop_first();
        assert(in_rank_order(scores, a_rest)) by {
            assert forall|j: int, k: int|
                #![trigger a_rest[j], a_rest[k]]
                0 <= j < k < a_rest.len() implies ranks_before(scores, a_rest[j], a_rest[k]) by {
                assert(a_rest[j] == a[j + 1] && a_rest[k] == a[k + 1]);
            }
        }
        assert(in_rank_order(scores, b_rest)) by {
            assert forall|j: int, k: int|
                #![trigger b_rest[j], b_rest[k]]
                0 <= j < k < b_rest.len() implies ranks_before(scores, b_rest[j], b_rest[k]) by {
                assert(b_rest[j] == b[j + 1] && b_rest[k] == b[k + 1]);
            }
        }
        assert forall|x: usize| a_rest.contains(x) implies b_rest.contains(x) by {
            lemma_rest(scores, a, b, x);
        }
        assert forall|x: usize| b_rest.contains(x) implies a_rest.contains(x) by {
            lemma_rest(scores, b, a, x);
        }
        lemma_same_order(scores, a_rest, b_rest);
        assert(a =~= seq![a[0]] + a_rest);
        assert(b =~= seq![b[0]] + b_rest);
    }
}

proof fn lemma_rest(scores: Seq<Option<i64>>, a: Seq<usize>, b: Seq<usize>, x: usize)
    requires
        in_rank_order(scores, a),
        same_positions(a, b),
        a.len() > 0,
        b.len() > 0,
        a[0] == b[0],
        a.drop_first().contains(x),
    ensures
        b.drop_first().contains(x),
{
    let i = choose|i: int| 0 <= i < a.drop_first().len() && a.drop_first()[i] == x;
    assert(a[i + 1] == x);
    assert(a.contains(x));
    assert(ranks_before(scores, a[0], a[i + 1]));
    let k = choose|k: int| 0 <= k < b.len() && b[k] == x;
    assert(b.drop_first()[k - 1] == x);
}

/// A list in rank order names no position twice.
pub proof fn lemma_ranking_has_no_duplicates(scores: Seq<Option<i64>>, order: Seq<usize>)
    requires
        in_rank_order(scores, order),
    ensures
        order.no_duplicates(),
{
    assert forall|j: int, k: int| 0 <= j < k < order.len() implies order[j] != order[k] by {
        assert(ranks_before(scores, order[j], order[k]));
    }
}

/// Where all positions have a score, the ranking is as long as the list.
pub proof fn lemma_all_ranked(scores: Seq<Option<i64>>, order: Seq<usize>)
    requires
        is_ranking(scores, order),
        scores.len() <= usize::MAX,
        forall|i: int| 0 <= i < scores.len() ==> #[trigger] scores[i] is Some,
    ensures
        order.len() == scores.len(),
{
    let all = Seq::new(scores.len(), |i: int| i as usize);
    lemma_ranking_has_no_duplicates(scores, order);
    order.unique_seq_to_set();
    all.unique_seq_to_set();
    assert forall|x: usize| order.to_set().contains(x) <==> all.to_set().contains(x) by {
        if order.contains(x) {
            let k = choose|k: int| 0 <= k < order.len() && order[k] == x;
            assert(order[k] < scores.len());
            assert(all[x as int] == x);
        }
        if all.contains(x) {
            let k = choose|k: int| 0 <= k < all.len() && all[k] == x;
            assert(scores[x as int] is Some);
            assert(order.contains(x));
        }
    }
    assert(order.to_set() =~= all.to_set());
}

fn is_before(scores: &Vec<Option<i64>>, a: usize, b: usize) -> (yes: bool)
    requires
        a < scores@.len(),
        b < scores@.len(),
    ensures
        yes == ranks_before(scores@, a, b),
{
    match (scores[a], scores[b]) {
        (Some(x), Some(y)) => x > y || (x == y && a < b),
        _ => false,
    }
}

/// Merges two rankings of different positions into one.
fn merge(scores: &Vec<Option<i64>>, a: &Vec<usize>, b: &Vec<usize>) -> (merged: Vec<usize>)
    requires
        all_scored(scores@, a@),
        all_scored(scores@, b@),
        in_rank_order(scores@, a@),
        in_rank_order(scores@, b@),
        forall|x: usize| a@.contains(x) ==> !b@.contains(x),
    ensures
        all_scored(scores@, merged@),
        in_rank_order(scores@, merged@),
        forall|x: usize| #[trigger] merged@.contains(x) <==> a@.contains(x) || b@.contains(x),
{
    let mut merged: Vec<usize> = Vec::new();
    let mut i: usize = 0;
    let mut j: usize = 0;
    while i < a.len() || j < b.len()
        invariant
            i <= a@.len(),
            j <= b@.len(),
            all_scored(scores@, a@),
            all_scored(scores@, b@),
            in_rank_order(scores@, a@),
            in_rank_order(scores@, b@),
            forall|x: usize| a@.contains(x) ==> !b@.contains(x),
            all_scored(scores@, merged@),
            in_rank_order(scores@, merged@),
            forall|m: int, k: int|
                #![trigger merged@[m], a@[k]]
                0 <= m < merged@.len() && i <= k < a@.len() ==> ranks_before(
                    scores@,
                    merged@[m],
                    a@[k],
                ),
            forall|m: int, k: int|
                #![trigger merged@[m], b@[k]]
                0 <= m < merged@.len() && j <= k < b@.len() ==> ranks_before(
                    scores@,
                    merged@[m],
                    b@[k],
                ),
            forall|m: int|
                0 <= m < merged@.len() ==> a@.contains(#[trigger] merged@[m]) || b@.contains(
                    merged@[m],
                ),
            forall|k: int| 0 <= k < i ==> merged@.contains(#[trigger] a@[k]),
            forall|k: int| 0 <= k < j ==> merged@.contains(#[trigger] b@[k]),
        decreases a@.len() - i + b@.len() - j,
    {
        let ghost before = merged@;
        let from_a = if i == a.len() {
            false
        } else if j == b.len() {
            true
        } else {
            assert(a@.contains(a@[i as int]));
            assert(b@.contains(b@[j as int]));
            is_before(scores, a[i], b[j])
        };
        if from_a {
            assert(a@.contains(a@[i as int]));
            merged.push(a[i]);
            i += 1;
        } else {
            assert(b@.contains(b@[j as int]));
            merged.push(b[j]);
            j += 1;
        }
        proof {
            let n = before.len() as int;
            assert(merged@[n] == merged@.last());
            assert forall|x: usize| before.contains(x) implies merged@.contains(x) by {
                let m = choose|m: int| 0 <= m < n && before[m] == x;
                assert(merged@[m] == x);
            }
            assert(merged@.contains(merged@[n]));
        }
    }
    proof {
        assert forall|x: usize| #[trigger] merged@.contains(x) <==> a@.contains(x) || b@.contains(
            x,
        ) by {
            if merged@.contains(x) {
                let m = choose|m: int| 0 <= m < merged@.len() && merged@[m] == x;
                assert(a@.contains(merged@[m]) || b@.contains(merged@[m]));
            }
        }
    }
    merged
}

/// Sorts the positions of `order` from `from` up to `to` by rank.
fn sort(scores: &Vec<Option<i64>>, order: &Vec<usize>, from: usize, to: usize) -> (sorted: Vec<
    usize,
>)
    requires
        from <= to <= order@.len(),
        all_scored(scores@, order@),
        order@.no_duplicates(),
    ensures
        all_scored(scores@, sorted@),
        in_rank_order(scores@, sorted@),
        forall|x: usize|
            #[trigger] sorted@.contains(x) <==> order@.subrange(from as int, to as int).contains(x),
    decreases to - from,
{
    let ghost part = order@.subrange(from as int, to as int);
    if to - from <= 1 {
        let mut sorted: Vec<usize> = Vec::new();
        if from < to {
            sorted.push(order[from]);
        }
        assert(sorted@ =~= part);
        sorted
    } else {
        let mid: usize = from + (to - from) / 2;
        let a = sort(scores, order, from, mid);
        let b = sort(scores, order, mid, to);
        let ghost left = order@.subrange(from as int, mid as int);
        let ghost right = order@.subrange(mid as int, to as int);
        proof {
            assert(part =~= left + right);
            assert forall|x: usize| a@.contains(x) implies !b@.contains(x) by {
                if b@.contains(x) {
                    let i = choose|i: int| 0 <= i < left.len() && left[i] == x;
                    let j = choose|j: int| 0 <= j < right.len() && right[j] == x;
                    assert(order@[from + i] == order@[mid + j]);
                }
            }
        }
        let sorted = merge(scores, &a, &b);
        proof {
            assert forall|x: usize| #[trigger] sorted@.contains(x) <==> part.contains(x) by {
                if part.contains(x) {
                    let i = choose|i: int| 0 <= i < part.len() && part[i] == x;
                    if i < left.len() {
                        assert(left[i] == x);
                    } else {
                        assert(right[i - left.len()] == x);
                    }
                }
                if left.contains(x) {
                    let i = choose|i: int| 0 <= i < left.len() && left[i] == x;
                    assert(part[i] == x);
                }
                if right.contains(x) {
                    let j = choose|j: int| 0 <= j < right.len() && right[j] == x;
                    assert(part[left.len() + j] == x);
                }
            }
        }
        sorted
    }
}

/// Lists the positions that have a score, best score first; equal scores keep the order of the
/// list.
pub fn rank(scores: &Vec<Option<i64>>) -> (order: Vec<usize>)
    ensures
        is_ranking(scores@, order@),
{
    let mut found: Vec<usize> = Vec::new();
    let mut i: usize = 0;
    while i < scores.len()
        invariant
            i <= scores@.len(),
            all_scored(scores@, found@),
            forall|k: int| 0 <= k < found@.len() ==> #[trigger] found@[k] < i,
            found@.no_duplicates(),
            forall|x: usize| x < i && scores@[x as int] is Some ==> #[trigger] found@.contains(x),
        decreases scores@.len() - i,
    {
        let ghost before = found@;
        if scores[i].is_some() {
            found.push(i);
        }
        proof {
            assert forall|x: usize| x < i + 1 && scores@[x as int] is Some implies #[trigger] found@
                .contains(x) by {
                if x == i {
                    assert(found@.last() == i);
                } else {
                    assert(before.contains(x));
                    let k = choose|k: int| 0 <= k < before.len() && before[k] == x;
                    assert(found@[k] == x);
                }
            }
        }
        i += 1;
    }
    let n = found.len();
    let order = sort(scores, &found, 0, n);
    assert(found@.subrange(0, n as int) =~= found@);
    order
}

/// A ranking names each position that has a score, and no other; of two that it names the first
/// has the higher score, or the same score and stands first in the list.
pub proof fn lemma_ranked(scores: &Vec<Option<i64>>, order: Vec<usize>, i: usize, j: int, k: int)
    requires
        call_ensures(rank, (scores,), order),
    ensures
        order@.contains(i) <==> i < scores@.len() && scores@[i as int] is Some,
        0 <= j < k < order@.len() ==> {
            let a = order@[j];
            let b = order@[k];
            &&& a < scores@.len() && b < scores@.len()
            &&& scores@[a as int]->0 >= scores@[b as int]->0
            &&& scores@[a as int]->0 == scores@[b as int]->0 ==> a < b
        },
{
    if order@.contains(i) {
        let n = choose|n: int| 0 <= n < order@.len() && order@[n] == i;
        assert(order@[n] < scores@.len());
    }
    if 0 <= j < k < order@.len() {
        assert(ranks_before(scores@, order@[j], order@[k]));
    }
}

} // verus!
