use vstd::prelude::*;

verus! {

/// A directed graph given by its edges `(from, to)` over vertices `0..n`.
pub open spec fn graph_ok(n: int, es: Seq<(usize, usize)>) -> bool {
    forall|j: int| 0 <= j < es.len() ==> (#[trigger] es[j]).0 < n && es[j].1 < n
}

pub open spec fn edge(es: Seq<(usize, usize)>, u: int, v: int) -> bool {
    exists|j: int| 0 <= j < es.len() && (#[trigger] es[j]).0 == u && es[j].1 == v
}

/// `w[0] -> w[1] -> ... -> w[last] -> w[0]` along edges of `es`.
pub open spec fn is_cycle(es: Seq<(usize, usize)>, w: Seq<usize>) -> bool {
    &&& w.len() > 0
    &&& forall|i: int| 0 <= i < w.len() - 1 ==> edge(es, #[trigger] w[i] as int, w[i + 1] as int)
    &&& edge(es, w.last() as int, w[0] as int)
}

pub open spec fn has_cycle(es: Seq<(usize, usize)>) -> bool {
    exists|w: Seq<usize>| is_cycle(es, w)
}

const WHITE: u8 = 0;

const GRAY: u8 = 1;

const BLACK: u8 = 2;

pub open spec fn count(s: Seq<u8>, x: u8) -> nat
    decreases s.len(),
{
    if s.len() == 0 {
        0
    } else {
        count(s.drop_last(), x) + (if s.last() == x {
            1nat
        } else {
            0nat
        })
    }
}

proof fn lemma_count_update(s: Seq<u8>, i: int, y: u8, x: u8)
    requires
        0 <= i < s.len(),
    ensures
        count(s.update(i, y), x) + (if s[i] == x {
            1nat
        } else {
            0nat
        }) == count(s, x) + (if y == x {
            1nat
        } else {
            0nat
        }),
    decreases s.len(),
{
    if i == s.len() - 1 {
        assert(s.update(i, y).drop_last() == s.drop_last());
    } else {
        assert(s.update(i, y).drop_last() == s.drop_last().update(i, y));
        lemma_count_update(s.drop_last(), i, y, x);
    }
}

/// Edges still to be examined by the frames of the search stack.
pub open spec fn rest(ne: int, idx: Seq<usize>) -> int
    decreases idx.len(),
{
    if idx.len() == 0 {
        0
    } else {
        rest(ne, idx.drop_last()) + (ne - idx.last())
    }
}

/// Finish ranks that fall along every edge prove the graph has no cycle.
proof fn lemma_ranked_acyclic(es: Seq<(usize, usize)>, fin: Seq<usize>, w: Seq<usize>)
    requires
        forall|j: int|
            0 <= j < es.len() ==> (#[trigger] es[j]).0 < fin.len() && es[j].1 < fin.len() && fin[es[j].1 as int]
                < fin[es[j].0 as int],
    ensures
        !is_cycle(es, w),
{
    if is_cycle(es, w) {
        let n = w.len();
        assert forall|k: int| 1 <= k < n implies fin[#[trigger] w[k] as int] < fin[w[0] as int] by {
            lemma_walk_descends(es, fin, w, k);
        }
        let j = choose|j: int| 0 <= j < es.len() && (#[trigger] es[j]).0 == w.last() && es[j].1 == w[0];
        assert(fin[w[0] as int] < fin[w.last() as int]);
    }
}

proof fn lemma_walk_descends(es: Seq<(usize, usize)>, fin: Seq<usize>, w: Seq<usize>, k: int)
    requires
        forall|j: int|
            0 <= j < es.len() ==> (#[trigger] es[j]).0 < fin.len() && es[j].1 < fin.len() && fin[es[j].1 as int]
                < fin[es[j].0 as int],
        is_cycle(es, w),
        1 <= k < w.len(),
    ensures
        fin[w[k] as int] < fin[w[0] as int],
    decreases k,
{
    assert(edge(es, w[k - 1] as int, w[k] as int));
    let j = choose|j: int| 0 <= j < es.len() && (#[trigger] es[j]).0 == w[k - 1] && es[j].1 == w[k];
    if k > 1 {
        lemma_walk_descends(es, fin, w, k - 1);
    }
}

proof fn lemma_rest_nonneg(ne: int, idx: Seq<usize>)
    requires
        forall|k: int| 0 <= k < idx.len() ==> #[trigger] idx[k] <= ne,
    ensures
        rest(ne, idx) >= 0,
    decreases idx.len(),
{
    if idx.len() > 0 {
        lemma_rest_nonneg(ne, idx.drop_last());
    }
}

proof fn lemma_count_zero(s: Seq<u8>, x: u8)
    requires
        forall|i: int| 0 <= i < s.len() ==> s[i] != x,
    ensures
        count(s, x) == 0,
    decreases s.len(),
{
    if s.len() > 0 {
        lemma_count_zero(s.drop_last(), x);
    }
}

proof fn lemma_count_le(s: Seq<u8>, x: u8)
    ensures
        count(s, x) <= s.len(),
    decreases s.len(),
{
    if s.len() > 0 {
        lemma_count_le(s.drop_last(), x);
    }
}

/// A copy of `s[p..]`.
fn suffix(s: &Vec<usize>, p: usize) -> (r: Vec<usize>)
    requires
        p <= s@.len(),
    ensures
        r@ == s@.subrange(p as int, s@.len() as int),
{
    let mut r: Vec<usize> = Vec::new();
    let mut i: usize = p;
    while i < s.len()
        invariant
            p <= i <= s@.len(),
            r@ == s@.subrange(p as int, i as int),
        decreases s@.len() - i,
    {
        r.push(s[i]);
        i = i + 1;
    }
    r
}

/// Depth-first search over a graph on `n` vertices. Returns a cycle if there is one.
pub fn find_cycle(n: usize, es: &Vec<(usize, usize)>) -> (r: Option<Vec<usize>>)
    requires
        graph_ok(n as int, es@),
    ensures
        r matches Some(w) ==> is_cycle(es@, w@),
        r is None ==> !has_cycle(es@),
{
    let ne = es.len();
    let mut color: Vec<u8> = Vec::new();
    let mut fin: Vec<usize> = Vec::new();
    let mut k: usize = 0;
    while k < n
        invariant
            k <= n,
            color@.len() == k,
            fin@.len() == k,
            forall|x: int| 0 <= x < k ==> color@[x] == WHITE,
        decreases n - k,
    {
        color.push(WHITE);
        fin.push(0);
        k = k + 1;
    }
    let mut counter: usize = 0;
    let mut root: usize = 0;
    proof {
        lemma_count_zero(color@, BLACK);
    }
    while root < n
        invariant
            ne == es@.len(),
            graph_ok(n as int, es@),
            root <= n,
            color@.len() == n,
            fin@.len() == n,
            counter <= n,
            count(color@, BLACK) == counter,
            forall|x: int| 0 <= x < root ==> color@[x] == BLACK,
            forall|x: int| 0 <= x < n ==> color@[x] == WHITE || color@[x] == BLACK,
            forall|x: int|
                #![trigger color@[x]]
                0 <= x < n && color@[x] == BLACK ==> fin@[x] < counter && forall|j: int|
                    0 <= j < ne && (#[trigger] es@[j]).0 == x ==> color@[es@[j].1 as int] == BLACK
                        && fin@[es@[j].1 as int] < fin@[x],
        decreases n - root,
    {
        if color[root] == WHITE {
            let res = search(n, es, root, &mut color, &mut fin, &mut counter);
            if res.is_some() {
                return res;
            }
        }
        root = root + 1;
    }
    proof {
        assert forall|j: int| 0 <= j < es@.len() implies (#[trigger] es@[j]).0 < fin@.len()
            && es@[j].1 < fin@.len() && fin@[es@[j].1 as int] < fin@[es@[j].0 as int] by {
            assert(color@[es@[j].0 as int] == BLACK);
        }
        assert forall|w: Seq<usize>| !is_cycle(es@, w) by {
            lemma_ranked_acyclic(es@, fin@, w);
        }
    }
    None
}

/// The part of the search stack from `v` up, closed by an edge from its top back to `v`.
fn cycle_on_stack(es: &Vec<(usize, usize)>, stack: &Vec<usize>, v: usize) -> (w: Vec<usize>)
    requires
        stack@.len() > 0,
        exists|k: int| 0 <= k < stack@.len() && #[trigger] stack@[k] == v,
        forall|k: int| 0 <= k < stack@.len() - 1 ==> edge(es@, #[trigger] stack@[k] as int, stack@[k + 1] as int),
        edge(es@, stack@.last() as int, v as int),
    ensures
        is_cycle(es@, w@),
{
    let sl = stack.len();
    let mut p: usize = 0;
    while stack[p] != v
        invariant
            sl == stack@.len(),
            0 <= p < stack@.len(),
            exists|k: int| p <= k < stack@.len() && #[trigger] stack@[k] == v,
        decreases stack@.len() - p,
    {
        p = p + 1;
    }
    let w = suffix(stack, p);
    assert forall|t: int| 0 <= t < w@.len() - 1 implies edge(es@, #[trigger] w@[t] as int, w@[t + 1] as int) by {
        assert(w@[t] == stack@[p + t]);
        assert(w@[t + 1] == stack@[p + t + 1]);
    }
    w
}

/// The search from a white `root`: every vertex reached turns black, or a cycle is returned.
#[verifier::spinoff_prover]
#[verifier::rlimit(60)]
fn search(
    n: usize,
    es: &Vec<(usize, usize)>,
    root: usize,
    color: &mut Vec<u8>,
    fin: &mut Vec<usize>,
    counter: &mut usize,
) -> (r: Option<Vec<usize>>)
    requires
        graph_ok(n as int, es@),
        root < n,
        old(color)@.len() == n,
        old(fin)@.len() == n,
        *old(counter) <= n,
        count(old(color)@, BLACK) == *old(counter),
        old(color)@[root as int] == WHITE,
        forall|x: int| 0 <= x < n ==> old(color)@[x] == WHITE || old(color)@[x] == BLACK,
        forall|x: int|
            #![trigger old(color)@[x]]
            0 <= x < n && old(color)@[x] == BLACK ==> old(fin)@[x] < *old(counter) && forall|j: int|
                0 <= j < es@.len() && (#[trigger] es@[j]).0 == x ==> old(color)@[es@[j].1 as int]
                    == BLACK && old(fin)@[es@[j].1 as int] < old(fin)@[x],
    ensures
        r matches Some(w) ==> is_cycle(es@, w@),
        r is None ==> {
            &&& final(color)@.len() == n
            &&& final(fin)@.len() == n
            &&& *final(counter) <= n
            &&& count(final(color)@, BLACK) == *final(counter)
            &&& final(color)@[root as int] == BLACK
            &&& forall|x: int| 0 <= x < n && old(color)@[x] == BLACK ==> final(color)@[x] == BLACK
            &&& forall|x: int| 0 <= x < n ==> final(color)@[x] == WHITE || final(color)@[x] == BLACK
            &&& forall|x: int|
                #![trigger final(color)@[x]]
                0 <= x < n && final(color)@[x] == BLACK ==> final(fin)@[x] < *final(counter)
                    && forall|j: int|
                    0 <= j < es@.len() && (#[trigger] es@[j]).0 == x ==> final(color)@[es@[j].1 as int]
                        == BLACK && final(fin)@[es@[j].1 as int] < final(fin)@[x]
        },
{
    let ne = es.len();
    let ghost c0 = color@;
    proof {
        lemma_count_zero(color@, GRAY);
        lemma_count_update(color@, root as int, GRAY, BLACK);
        lemma_count_update(color@, root as int, GRAY, WHITE);
        lemma_count_update(color@, root as int, GRAY, GRAY);
    }
    color.set(root, GRAY);
    let mut stack: Vec<usize> = Vec::new();
    let mut idx: Vec<usize> = Vec::new();
    stack.push(root);
    idx.push(0);
    assert forall|x: int| 0 <= x < n && color@[x] == GRAY implies exists|k: int|
        0 <= k < stack@.len() && #[trigger] stack@[k] == x by {
        assert(x == root);
        assert(stack@[0] == x);
    }
    while stack.len() > 0
        invariant
            ne == es@.len(),
            graph_ok(n as int, es@),
            color@.len() == n,
            fin@.len() == n,
            *counter <= n,
            count(color@, BLACK) == *counter,
            count(color@, GRAY) == stack@.len(),
            stack@.len() == idx@.len(),
            c0.len() == n,
            forall|x: int| 0 <= x < n && c0[x] == BLACK ==> color@[x] == BLACK,
            forall|x: int| 0 <= x < n ==> color@[x] == WHITE || color@[x] == GRAY || color@[x] == BLACK,
            c0[root as int] == WHITE,
            color@[root as int] != WHITE,
            stack@.len() == 0 ==> color@[root as int] == BLACK,
            stack@.len() > 0 ==> stack@[0] == root,
            forall|k: int| 0 <= k < stack@.len() ==> (#[trigger] stack@[k]) < n && color@[stack@[k] as int] == GRAY,
            forall|k: int| 0 <= k < idx@.len() ==> #[trigger] idx@[k] <= ne,
            forall|x: int| 0 <= x < n && color@[x] == GRAY ==> exists|k: int| 0 <= k < stack@.len() && #[trigger] stack@[k] == x,
            forall|k: int| 0 <= k < stack@.len() - 1 ==> edge(es@, #[trigger] stack@[k] as int, stack@[k + 1] as int),
            forall|k1: int, k2: int|
                0 <= k1 < stack@.len() && 0 <= k2 < stack@.len() && k1 != k2 ==> #[trigger] stack@[k1]
                    != #[trigger] stack@[k2],
            forall|k: int, j: int|
                0 <= k < stack@.len() && 0 <= j < idx@[k] && (#[trigger] es@[j]).0 == #[trigger] stack@[k]
                    ==> color@[es@[j].1 as int] == BLACK,
            forall|x: int|
                #![trigger color@[x]]
                0 <= x < n && color@[x] == BLACK ==> fin@[x] < *counter && forall|j: int|
                    0 <= j < ne && (#[trigger] es@[j]).0 == x ==> color@[es@[j].1 as int] == BLACK
                        && fin@[es@[j].1 as int] < fin@[x],
        decreases count(color@, WHITE), count(color@, GRAY), rest(ne as int, idx@),
    {
        let top = stack.len() - 1;
        let u = stack[top];
        let i = idx[top];
        if i < ne {
            let (a, v) = es[i];
            if a != u || color[v] == BLACK {
                let ghost before = idx@;
                idx.set(top, i + 1);
                proof {
                    assert(idx@.drop_last() == before.drop_last());
                    assert(rest(ne as int, idx@) < rest(ne as int, before));
                    lemma_rest_nonneg(ne as int, idx@);
                }
            } else if color[v] == GRAY {
                // A gray successor is on the stack: the path from it closes a cycle.
                proof {
                    assert(es@[i as int].0 == u && es@[i as int].1 == v);
                }
                return Some(cycle_on_stack(es, &stack, v));
            } else {
                proof {
                    lemma_count_update(color@, v as int, GRAY, BLACK);
                    lemma_count_update(color@, v as int, GRAY, WHITE);
                    lemma_count_update(color@, v as int, GRAY, GRAY);
                    assert(edge(es@, u as int, v as int)) by {
                        assert(es@[i as int].0 == u && es@[i as int].1 == v);
                    }
                }
                let ghost cb = color@;
                let ghost before = stack@;
                color.set(v, GRAY);
                stack.push(v);
                idx.push(0);
                proof {
                    assert forall|x: int| 0 <= x < n && color@[x] == GRAY implies exists|k: int|
                        0 <= k < stack@.len() && #[trigger] stack@[k] == x by {
                        if x != v {
                            assert(cb[x] == GRAY);
                            assert(exists|k: int| 0 <= k < before.len() && #[trigger] before[k] == x);
                            let k = choose|k: int| 0 <= k < before.len() && #[trigger] before[k] == x;
                            assert(stack@[k] == x);
                        } else {
                            assert(stack@[stack@.len() - 1] == x);
                        }
                    }
                }
            }
        } else {
            proof {
                lemma_count_update(color@, u as int, BLACK, BLACK);
                lemma_count_update(color@, u as int, BLACK, WHITE);
                lemma_count_update(color@, u as int, BLACK, GRAY);
            }
            let ghost cb = color@;
            color.set(u, BLACK);
            fin.set(u, *counter);
            proof {
                assert(count(color@, BLACK) <= color@.len()) by {
                    lemma_count_le(color@, BLACK);
                }
            }
            *counter = *counter + 1;
            let ghost before = stack@;
            stack.pop();
            idx.pop();
            proof {
                assert(stack@ == before.drop_last());
                assert forall|x: int| 0 <= x < n && color@[x] == GRAY implies exists|k: int|
                    0 <= k < stack@.len() && #[trigger] stack@[k] == x by {
                    assert(cb[x] == GRAY);
                    assert(exists|k: int| 0 <= k < before.len() && #[trigger] before[k] == x);
                    let k = choose|k: int| 0 <= k < before.len() && #[trigger] before[k] == x;
                    assert(k != top);
                    assert(stack@[k] == x);
                }
            }
        }
    }
    None
}

} // verus!
