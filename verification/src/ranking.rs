//! Ranking: the positions of the greatest entries, greatest first, ties in position order.

use vstd::prelude::*;

verus! {

/// Position `a` ranks before position `b`: a greater rank, or an equal rank and an earlier
/// position (the order of a stable sort by rank, descending).
pub open spec fn ranks_before(ranks: Seq<u64>, a: int, b: int) -> bool {
    ranks[a] > ranks[b] || (ranks[a] == ranks[b] && a < b)
}

/// `top` lists, best first, the `min(n, len)` best of the first `len` positions of `ranks`.
pub open spec fn is_top(top: Seq<usize>, ranks: Seq<u64>, n: int, len: int) -> bool {
    &&& top.len() == if n < len { n } else { len }
    &&& forall|t: int| 0 <= t < top.len() ==> (#[trigger] top[t]) < len
    &&& forall|s: int, t: int|
        0 <= s < t < top.len() ==> ranks_before(ranks, #[trigger] top[s] as int, #[trigger] top[t] as int)
    &&& forall|x: int, t: int|
        0 <= x < len && !top.contains(x as usize) && 0 <= t < top.len() ==> #[trigger] ranks_before(
            ranks,
            top[t] as int,
            x,
        )
}

proof fn lemma_top_step(
    old_top: Seq<usize>,
    top: Seq<usize>,
    ranks: Seq<u64>,
    n: int,
    j: int,
    p: int,
)
    requires
        0 <= j < ranks.len(),
        j <= usize::MAX,
        n >= 0,
        is_top(old_top, ranks, n, j),
        old_top.len() < n ==> forall|x: usize| x < j ==> #[trigger] old_top.contains(x),
        0 <= p <= old_top.len(),
        forall|t: int| 0 <= t < p ==> ranks_before(ranks, #[trigger] old_top[t] as int, j),
        forall|t: int| p <= t < old_top.len() ==> ranks_before(ranks, j, #[trigger] old_top[t] as int),
        top == (if p < n {
            let ins = old_top.insert(p, j as usize);
            if ins.len() > n { ins.drop_last() } else { ins }
        } else {
            old_top
        }),
    ensures
        is_top(top, ranks, n, j + 1),
        top.len() < n ==> forall|x: usize| x < j + 1 ==> #[trigger] top.contains(x),
{
    if p < n {
        let ins = old_top.insert(p, j as usize);
        assert forall|t: int| 0 <= t < ins.len() implies (#[trigger] ins[t]) < j + 1 by {
            if t < p {
                assert(ins[t] == old_top[t]);
            } else if t > p {
                assert(ins[t] == old_top[t - 1]);
            }
        }
        assert forall|s: int, t: int| 0 <= s < t < ins.len() implies ranks_before(
            ranks,
            #[trigger] ins[s] as int,
            #[trigger] ins[t] as int,
        ) by {
            assert(ins[p] == j as usize);
            if t < p {
                assert(ins[s] == old_top[s] && ins[t] == old_top[t]);
                assert(ranks_before(ranks, old_top[s] as int, old_top[t] as int));
            } else if t == p {
                assert(ins[s] == old_top[s]);
                assert(ranks_before(ranks, old_top[s] as int, j));
            } else if s < p {
                assert(ins[s] == old_top[s] && ins[t] == old_top[t - 1]);
                assert(ranks_before(ranks, old_top[s] as int, j));
                assert(ranks_before(ranks, j, old_top[t - 1] as int));
            } else if s == p {
                assert(ins[t] == old_top[t - 1]);
                assert(ranks_before(ranks, j, old_top[t - 1] as int));
            } else {
                assert(ranks_before(ranks, old_top[s - 1] as int, old_top[t - 1] as int));
                assert(ins[s] == old_top[s - 1] && ins[t] == old_top[t - 1]);
            }
        }
        if old_top.len() < n {
            assert(top == ins);
            assert forall|x: usize| x < j + 1 implies #[trigger] top.contains(x) by {
                if x < j {
                    assert(old_top.contains(x));
                    let k = choose|k: int| 0 <= k < old_top.len() && old_top[k] == x;
                    if k < p {
                        assert(top[k] == old_top[k]);
                    } else {
                        assert(top[k + 1] == old_top[k]);
                    }
                } else {
                    assert(top[p] == j as usize);
                }
            }
        } else {
            assert(old_top.len() == n);
            assert(ins.len() == n + 1);
            assert(top == ins.drop_last());
            let dropped = ins[ins.len() - 1];
            assert forall|x: int, t: int|
                0 <= x < j + 1 && !top.contains(x as usize) && 0 <= t < top.len() implies #[trigger] ranks_before(
                ranks,
                top[t] as int,
                x,
            ) by {
                assert(top[t] == ins[t]);
                if x == dropped as int {
                } else if x == j {
                    assert(top[p] == j as usize);
                } else {
                    assert(!old_top.contains(x as usize)) by {
                        if old_top.contains(x as usize) {
                            let k = choose|k: int| 0 <= k < old_top.len() && old_top[k] == x as usize;
                            if k < p {
                                assert(top[k] == old_top[k]);
                            } else if k + 1 < top.len() {
                                assert(top[k + 1] == old_top[k]);
                            } else {
                                assert(ins[k + 1] == old_top[k]);
                                assert(k + 1 == n);
                                assert(x == dropped as int);
                            }
                        }
                    }
                    if t < p {
                        assert(top[t] == old_top[t]);
                    } else if t == p {
                        assert(ranks_before(ranks, old_top[p] as int, x));
                    } else {
                        assert(top[t] == old_top[t - 1]);
                    }
                }
            }
        }
    } else {
        assert forall|x: int, t: int|
            0 <= x < j + 1 && !top.contains(x as usize) && 0 <= t < top.len() implies #[trigger] ranks_before(
            ranks,
            top[t] as int,
            x,
        ) by {
            if x == j {
            }
        }
    }
}

/// The positions of the `n` greatest entries of `ranks` (all of them when there are fewer),
/// greatest first; equal entries keep their order.
pub fn top_positions(ranks: &Vec<u64>, n: usize) -> (top: Vec<usize>)
    ensures
        is_top(top@, ranks@, n as int, ranks@.len() as int),
{
    let mut top: Vec<usize> = Vec::new();
    let mut j: usize = 0;
    while j < ranks.len()
        invariant
            0 <= j <= ranks@.len(),
            is_top(top@, ranks@, n as int, j as int),
            top@.len() < n ==> forall|x: usize| x < j ==> #[trigger] top@.contains(x),
        decreases ranks@.len() - j,
    {
        let ghost old_top = top@;
        let mut p: usize = 0;
        while p < top.len() && (ranks[top[p]] > ranks[j] || (ranks[top[p]] == ranks[j]
            && top[p] < j))
            invariant
                0 <= p <= top@.len(),
                top@ == old_top,
                j < ranks@.len(),
                is_top(top@, ranks@, n as int, j as int),
                forall|t: int| 0 <= t < p ==> ranks_before(ranks@, #[trigger] top@[t] as int, j as int),
            decreases top@.len() - p,
        {
            p = p + 1;
        }
        proof {
            assert forall|t: int| p <= t < old_top.len() implies ranks_before(
                ranks@,
                j as int,
                #[trigger] old_top[t] as int,
            ) by {
                assert(old_top[p as int] < j);
                if t > p {
                    assert(ranks_before(ranks@, old_top[p as int] as int, old_top[t] as int));
                }
            }
        }
        if p < n {
            top.insert(p, j);
            if top.len() > n {
                top.pop();
            }
        }
        proof {
            lemma_top_step(old_top, top@, ranks@, n as int, j as int, p as int);
        }
        j = j + 1;
    }
    top
}

}
