//! Reachability in a directed graph given by adjacency lists.
use vstd::prelude::*;

verus! {

/// `path` starts at `start` and each step follows an edge of `adj`.
pub open spec fn is_walk(adj: Seq<Seq<usize>>, start: int, path: Seq<int>) -> bool {
    &&& path.len() > 0
    &&& path[0] == start
    &&& forall|k: int| 0 <= k < path.len() ==> 0 <= #[trigger] path[k] < adj.len()
    &&& forall|k: int|
        0 <= k < path.len() - 1 ==> adj[#[trigger] path[k]].contains(path[k + 1] as usize)
}

/// Node `v` can be reached from `start`.
pub open spec fn walks_to(adj: Seq<Seq<usize>>, start: int, v: int) -> bool {
    exists|path: Seq<int>| is_walk(adj, start, path) && path.last() == v
}

/// The adjacency lists of a graph, as sequences.
pub open spec fn adjacency(adj: Seq<Vec<usize>>) -> Seq<Seq<usize>> {
    adj.map_values(|v: Vec<usize>| v@)
}

spec fn marks_inv(g: Seq<Seq<usize>>, start: int, marked: Seq<bool>, order: Seq<usize>) -> bool {
    &&& marked.len() == g.len()
    &&& forall|k: int| 0 <= k < order.len() ==> (#[trigger] order[k]) < g.len()
    &&& forall|k: int| 0 <= k < order.len() ==> marked[#[trigger] order[k] as int]
    &&& forall|k: int| 0 <= k < order.len() ==> walks_to(g, start, #[trigger] order[k] as int)
    &&& forall|c: int| 0 <= c < g.len() && marked[c] ==> order.contains(c as usize)
    &&& forall|j: int, k: int| 0 <= j < k < order.len() ==> order[j] != order[k]
}

fn visit(
    Ghost(g): Ghost<Seq<Seq<usize>>>,
    Ghost(start): Ghost<int>,
    marked: &mut Vec<bool>,
    order: &mut Vec<usize>,
    from: usize,
    to: usize,
)
    requires
        marks_inv(g, start, old(marked)@, old(order)@),
        (from as int) < g.len(),
        walks_to(g, start, from as int),
        g[from as int].contains(to),
    ensures
        marks_inv(g, start, final(marked)@, final(order)@),
        forall|c: int| 0 <= c < g.len() && old(marked)@[c] ==> final(marked)@[c],
        (to as int) < g.len() ==> final(marked)@[to as int],
        final(order)@.len() >= old(order)@.len(),
        forall|k: int| 0 <= k < old(order)@.len() ==> final(order)@[k] == old(order)@[k],
{
    if to < marked.len() && !marked[to] {
        let ghost before = order@;
        proof {
            let path = choose|path: Seq<int>| is_walk(g, start, path) && path.last() == from as int;
            let longer = path.push(to as int);
            assert(longer[longer.len() - 2] == from as int);
            assert(is_walk(g, start, longer));
            assert(longer.last() == to as int);
            assert forall|k: int| 0 <= k < before.len() implies before[k] != to by {
                if before[k] == to {
                    assert(marked@[before[k] as int]);
                }
            }
        }
        marked.set(to, true);
        order.push(to);
        proof {
            assert(order@[order@.len() - 1] == to);
            assert forall|c: int| 0 <= c < g.len() && marked@[c] implies order@.contains(c as usize) by {
                if c != to as int {
                    assert(before.contains(c as usize));
                    let k = choose|k: int| 0 <= k < before.len() && before[k] == c;
                    assert(order@[k] == c);
                }
            }
            assert forall|k: int| 0 <= k < order@.len() implies walks_to(g, start, #[trigger] order@[k] as int) by {
                if k < before.len() {
                    assert(order@[k] == before[k]);
                }
            }
        }
    }
}

proof fn lemma_distinct_below(s: Seq<usize>, n: nat)
    requires
        forall|k: int| 0 <= k < s.len() ==> (#[trigger] s[k]) < n,
        forall|j: int, k: int| 0 <= j < k < s.len() ==> s[j] != s[k],
    ensures
        s.len() <= n,
{
    let ints = s.map_values(|x: usize| x as int);
    assert(ints.no_duplicates()) by {
        assert forall|j: int, k: int| 0 <= j < ints.len() && 0 <= k < ints.len() && j != k implies ints[j] != ints[k] by {
            if j < k {
                assert(s[j] != s[k]);
            } else {
                assert(s[k] != s[j]);
            }
        }
    }
    ints.unique_seq_to_set();
    vstd::set_lib::lemma_int_range(0, n as int);
    assert(ints.to_set().subset_of(vstd::set_lib::set_int_range(0, n as int)));
    vstd::set_lib::lemma_len_subset(ints.to_set(), vstd::set_lib::set_int_range(0, n as int));
}

proof fn lemma_closed(g: Seq<Seq<usize>>, start: int, marked: Seq<bool>, order: Seq<usize>, path: Seq<int>)
    requires
        is_walk(g, start, path),
        g.len() <= usize::MAX,
        marked.len() == g.len(),
        marked[start],
        forall|c: int| 0 <= c < g.len() && marked[c] ==> order.contains(c as usize),
        forall|k: int, t: int|
            0 <= k < order.len() && 0 <= t < g.len() && g[#[trigger] order[k] as int].contains(
                t as usize,
            ) ==> #[trigger] marked[t],
    ensures
        marked[path.last()],
    decreases path.len(),
{
    if path.len() > 1 {
        let prefix = path.drop_last();
        assert(is_walk(g, start, prefix));
        lemma_closed(g, start, marked, order, prefix);
        let b = prefix.last();
        assert(prefix[prefix.len() - 1] == b);
        assert(0 <= b < g.len());
        let k = choose|k: int| 0 <= k < order.len() && order[k] == b as usize;
        assert(path[path.len() - 2] == b);
        assert(g[path[path.len() - 2]].contains(path[path.len() - 1] as usize));
        assert(order[k] as int == b);
        assert(0 <= path.last() < g.len());
    }
}

/// Which nodes of `adj` can be reached from `start`.
pub fn reach(adj: &Vec<Vec<usize>>, start: usize) -> (marked: Vec<bool>)
    requires
        (start as int) < adj@.len(),
    ensures
        marked@.len() == adj@.len(),
        forall|v: int|
            0 <= v < adj@.len() ==> (#[trigger] marked@[v] <==> walks_to(
                adjacency(adj@),
                start as int,
                v,
            )),
{
    let n = adj.len();
    let ghost g = adjacency(adj@);
    let mut marked: Vec<bool> = Vec::new();
    while marked.len() < n
        invariant
            marked@.len() <= n,
            forall|b: int| 0 <= b < marked@.len() ==> !marked@[b],
        decreases n - marked@.len(),
    {
        marked.push(false);
    }
    let mut order: Vec<usize> = Vec::new();
    marked.set(start, true);
    order.push(start);
    proof {
        let path = seq![start as int];
        assert(is_walk(g, start as int, path));
        assert(path.last() == start as int);
        assert(order@[0] == start);
        assert forall|c: int| 0 <= c < n && marked@[c] implies order@.contains(c as usize) by {
            assert(c == start);
        }
    }
    let mut head: usize = 0;
    while head < order.len()
        invariant
            n == g.len(),
            g == adjacency(adj@),
            marks_inv(g, start as int, marked@, order@),
            head <= order@.len(),
            forall|k: int, t: int|
                0 <= k < head && 0 <= t < n && g[#[trigger] order@[k] as int].contains(t as usize)
                    ==> #[trigger] marked@[t],
            marked@[start as int],
        decreases n - head,
    {
        proof {
            lemma_distinct_below(order@, n as nat);
        }
        let b = order[head];
        let targets = &adj[b];
        assert(targets@ == g[b as int]);
        let mut i: usize = 0;
        while i < targets.len()
            invariant
                n == g.len(),
                g == adjacency(adj@),
                marks_inv(g, start as int, marked@, order@),
                head < order@.len(),
                b == order@[head as int],
                targets@ == g[b as int],
                i <= targets@.len(),
                forall|k: int, t: int|
                    0 <= k < head && 0 <= t < n && g[#[trigger] order@[k] as int].contains(
                        t as usize,
                    ) ==> #[trigger] marked@[t],
                forall|j: int| 0 <= j < i && targets@[j] < n ==> marked@[#[trigger] targets@[j] as int],
                marked@[start as int],
            decreases targets@.len() - i,
        {
            let t = targets[i];
            assert(targets@.contains(t));
            visit(Ghost(g), Ghost(start as int), &mut marked, &mut order, b, t);
            i += 1;
        }
        proof {
            assert forall|k: int, t: int|
                0 <= k < head + 1 && 0 <= t < n && g[#[trigger] order@[k] as int].contains(t as usize)
                    implies #[trigger] marked@[t] by {
                if k == head {
                    let j = choose|j: int| 0 <= j < targets@.len() && targets@[j] == t;
                    assert(targets@[j] < n);
                }
            }
        }
        head += 1;
    }
    proof {
        assert forall|v: int| 0 <= v < n implies (#[trigger] marked@[v] <==> walks_to(
            g,
            start as int,
            v,
        )) by {
            if walks_to(g, start as int, v) {
                let path = choose|path: Seq<int>| is_walk(g, start as int, path) && path.last() == v;
                lemma_closed(g, start as int, marked@, order@, path);
            }
            if marked@[v] {
                assert(order@.contains(v as usize));
                let k = choose|k: int| 0 <= k < order@.len() && order@[k] == v;
                assert(walks_to(g, start as int, order@[k] as int));
            }
        }
    }
    marked
}

} // verus!
