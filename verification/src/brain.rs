//! The ranking of a population by fitness.

use vstd::prelude::*;

verus! {

/// `order` ranks the values of `fitness`: it names every place of `fitness`
/// once, the places of higher values first, and among equal values the
/// earlier place first.
pub open spec fn ranks(fitness: Seq<i64>, order: Seq<usize>) -> bool {
    &&& order.len() == fitness.len()
    &&& forall|i: int| 0 <= i < order.len() ==> #[trigger] order[i] < fitness.len()
    &&& forall|i: int, j: int| 0 <= i < j < order.len() ==> #[trigger] order[i] != #[trigger] order[j]
    &&& climbs_down(fitness, order, order.len() as int)
}

/// The first `n` places of `order` stand by falling fitness, and places of
/// equal fitness by rising place.
pub open spec fn climbs_down(fitness: Seq<i64>, order: Seq<usize>, n: int) -> bool {
    forall|i: int, j: int|
        0 <= i < j < n ==> {
            ||| fitness[(#[trigger] order[i]) as int] > fitness[(#[trigger] order[j]) as int]
            ||| (fitness[order[i] as int] == fitness[order[j] as int] && order[i] < order[j])
        }
}

/// The places of the fitness values, the fittest first; equal values keep
/// their order.
pub fn get_sorted_index(fitness: &Vec<i64>) -> (order: Vec<usize>)
    ensures
        ranks(fitness@, order@),
{
    let n = fitness.len();
    let mut order: Vec<usize> = Vec::new();
    let mut i: usize = 0;
    while i < n
        invariant
            i <= n,
            n == fitness.len(),
            order.len() == i,
            forall|k: int| 0 <= k < i ==> #[trigger] order@[k] < i,
            forall|a: int, b: int| 0 <= a < b < i ==> #[trigger] order@[a] != #[trigger] order@[b],
            climbs_down(fitness@, order@, i as int),
        decreases n - i,
    {
        order.push(i);
        let mut j: usize = i;
        while j > 0 && fitness[order[j - 1]] < fitness[order[j]]
            invariant
                j <= i < n,
                n == fitness.len(),
                order.len() == i + 1,
                order@[j as int] == i,
                forall|k: int| 0 <= k <= i && k != j ==> #[trigger] order@[k] < i,
                forall|a: int, b: int| 0 <= a < b <= i ==> #[trigger] order@[a] != #[trigger] order@[b],
                forall|a: int, b: int|
                    0 <= a < b <= i && a != j && b != j ==> {
                        ||| fitness@[(#[trigger] order@[a]) as int] > fitness@[(#[trigger] order@[b]) as int]
                        ||| (fitness@[order@[a] as int] == fitness@[order@[b] as int] && order@[a] < order@[b])
                    },
                forall|b: int| j < b <= i ==> fitness@[i as int] > fitness@[(#[trigger] order@[b]) as int],
            decreases j,
        {
            let ghost cur = order@;
            let moving = order[j];
            let other = order[j - 1];
            order[j] = other;
            order[j - 1] = moving;
            proof {
                let now = order@;
                assert(now =~= cur.update(j as int, cur[j - 1]).update(j - 1, cur[j as int]));
                assert forall|a: int, b: int| 0 <= a < b <= i implies #[trigger] now[a] != #[trigger] now[b] by {
                    let oa = if a == j { j - 1 } else if a == j - 1 { j as int } else { a };
                    let ob = if b == j { j - 1 } else if b == j - 1 { j as int } else { b };
                    assert(now[a] == cur[oa]);
                    assert(now[b] == cur[ob]);
                    if oa < ob {
                        assert(cur[oa] != cur[ob]);
                    } else {
                        assert(cur[ob] != cur[oa]);
                    }
                }
                assert forall|a: int, b: int| 0 <= a < b <= i && a != j - 1 && b != j - 1 implies {
                    ||| fitness@[(#[trigger] now[a]) as int] > fitness@[(#[trigger] now[b]) as int]
                    ||| (fitness@[now[a] as int] == fitness@[now[b] as int] && now[a] < now[b])
                } by {
                    if b == j {
                        assert(now[j as int] == cur[j - 1]);
                        assert(now[a] == cur[a]);
                        assert({
                            ||| fitness@[cur[a] as int] > fitness@[cur[j - 1] as int]
                            ||| (fitness@[cur[a] as int] == fitness@[cur[j - 1] as int] && cur[a] < cur[j - 1])
                        });
                    } else if a == j {
                        assert(now[j as int] == cur[j - 1]);
                        assert(now[b] == cur[b]);
                        assert({
                            ||| fitness@[cur[j - 1] as int] > fitness@[cur[b] as int]
                            ||| (fitness@[cur[j - 1] as int] == fitness@[cur[b] as int] && cur[j - 1] < cur[b])
                        });
                    } else {
                        assert(now[a] == cur[a]);
                        assert(now[b] == cur[b]);
                        assert({
                            ||| fitness@[cur[a] as int] > fitness@[cur[b] as int]
                            ||| (fitness@[cur[a] as int] == fitness@[cur[b] as int] && cur[a] < cur[b])
                        });
                    }
                }
                assert forall|b: int| j - 1 < b <= i implies fitness@[i as int] > fitness@[(#[trigger] now[b]) as int] by {
                    if b == j {
                        assert(now[b] == cur[j - 1]);
                    } else {
                        assert(now[b] == cur[b]);
                        assert(fitness@[i as int] > fitness@[cur[b] as int]);
                    }
                }
            }
            j -= 1;
        }
        proof {
            let now = order@;
            assert forall|a: int, b: int| 0 <= a < b < i + 1 implies {
                ||| fitness@[(#[trigger] now[a]) as int] > fitness@[(#[trigger] now[b]) as int]
                ||| (fitness@[now[a] as int] == fitness@[now[b] as int] && now[a] < now[b])
            } by {
                if a == j {
                    assert(fitness@[i as int] > fitness@[now[b] as int]);
                } else if b == j {
                    assert(j > 0);
                    assert(fitness@[now[j - 1] as int] >= fitness@[now[j as int] as int]);
                    assert(now[a] < i);
                    if a < j - 1 {
                        assert({
                            ||| fitness@[now[a] as int] > fitness@[now[j - 1] as int]
                            ||| (fitness@[now[a] as int] == fitness@[now[j - 1] as int] && now[a] < now[j - 1])
                        });
                    }
                } else {
                }
            }
            assert forall|k: int| 0 <= k < i + 1 implies #[trigger] now[k] < i + 1 by {
                if k != j {
                    assert(now[k] < i);
                }
            }
        }
        i += 1;
    }
    order
}

} // verus!
