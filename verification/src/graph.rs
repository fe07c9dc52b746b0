//! Directed graphs over the nodes `0..n`: topological order and cycles.

use vstd::prelude::*;

verus! {

/// For each node, its successors.
pub type Graph = Seq<Seq<usize>>;

/// Every successor is a node, and each list of successors is ascending.
pub open spec fn wf_graph(g: Graph) -> bool {
    &&& g.len() <= usize::MAX
    &&& forall|u: int, i: int|
        0 <= u < g.len() && 0 <= i < g[u].len() ==> (#[trigger] g[u][i]) < g.len()
    &&& forall|u: int, i: int, j: int|
        0 <= u < g.len() && 0 <= i < j < g[u].len() ==> (#[trigger] g[u][i]) < (
        #[trigger] g[u][j])
}

/// There is an edge from `u` to `v`.
pub open spec fn edge(g: Graph, u: usize, v: usize) -> bool {
    u < g.len() && g[u as int].contains(v)
}

/// The nodes in ascending order.
pub open spec fn nodes(n: nat) -> Seq<usize> {
    Seq::new(n, |i: int| i as usize)
}

/// Every predecessor of `v` is in `done`.
pub open spec fn ready(g: Graph, done: Seq<usize>, v: usize) -> bool {
    forall|u: usize| #[trigger] edge(g, u, v) ==> done.contains(u)
}

/// Removing nodes without remaining predecessors, first come first served:
/// `queue` holds the nodes found so far, of which the first `head` have been
/// removed. Removing a node lets those of its successors follow, in ascending
/// order, that have no predecessor left.
pub open spec fn kahn(g: Graph, queue: Seq<usize>, head: nat) -> Seq<usize>
    decreases g.len() - head,
{
    if head < queue.len() && head < g.len() {
        let done = queue.take((head + 1) as int);
        kahn(g, queue + g[queue[head as int] as int].filter(|v: usize| ready(g, done, v)), head + 1)
    } else {
        queue
    }
}

/// The nodes that Kahn's algorithm removes, in the order of their removal.
pub open spec fn removal_order(g: Graph) -> Seq<usize> {
    kahn(g, nodes(g.len()).filter(|v: usize| ready(g, Seq::empty(), v)), 0)
}

/// How many of the nodes below `k` are predecessors of `v` that are not in
/// `done`.
pub open spec fn missing(g: Graph, done: Seq<usize>, v: usize, k: nat) -> nat
    decreases k,
{
    if k == 0 {
        0
    } else {
        let u = (k - 1) as usize;
        missing(g, done, v, (k - 1) as nat) + if edge(g, u, v) && !done.contains(u) {
            1nat
        } else {
            0nat
        }
    }
}

proof fn lemma_missing_zero(g: Graph, done: Seq<usize>, v: usize, k: nat)
    requires
        k <= g.len() <= usize::MAX,
    ensures
        missing(g, done, v, k) <= k,
        missing(g, done, v, k) == 0 <==> forall|u: usize|
            u < k && #[trigger] edge(g, u, v) ==> done.contains(u),
    decreases k,
{
    if k > 0 {
        let w = (k - 1) as usize;
        lemma_missing_zero(g, done, v, (k - 1) as nat);
        if missing(g, done, v, k) == 0 {
            assert forall|u: usize| u < k && #[trigger] edge(g, u, v) implies done.contains(u) by {
                if u != w {
                    assert(u < k - 1);
                }
            }
        }
        if forall|u: usize| u < k && #[trigger] edge(g, u, v) ==> done.contains(u) {
            assert(edge(g, w, v) ==> done.contains(w));
            assert forall|u: usize| u < k - 1 && #[trigger] edge(g, u, v) implies done.contains(
                u,
            ) by {
                assert(u < k);
            }
        }
    }
}

proof fn lemma_missing_ready(g: Graph, done: Seq<usize>, v: usize)
    requires
        g.len() <= usize::MAX,
    ensures
        missing(g, done, v, g.len()) == 0 <==> ready(g, done, v),
{
    lemma_missing_zero(g, done, v, g.len());
    if ready(g, done, v) {
        assert forall|u: usize| u < g.len() && #[trigger] edge(g, u, v) implies done.contains(
            u,
        ) by {}
    }
    if forall|u: usize| u < g.len() && #[trigger] edge(g, u, v) ==> done.contains(u) {
        assert forall|u: usize| #[trigger] edge(g, u, v) implies done.contains(u) by {}
    }
}

proof fn lemma_missing_push(g: Graph, done: Seq<usize>, w: usize, v: usize, k: nat)
    requires
        k <= g.len() <= usize::MAX,
        !done.contains(w),
    ensures
        missing(g, done.push(w), v, k) == missing(g, done, v, k) - if w < k && edge(g, w, v) {
            1int
        } else {
            0int
        },
    decreases k,
{
    if k > 0 {
        let u = (k - 1) as usize;
        lemma_missing_push(g, done, w, v, (k - 1) as nat);
        assert(done.push(w).contains(u) == (done.contains(u) || u == w)) by {
            if done.contains(u) {
                let i = choose|i: int| 0 <= i < done.len() && done[i] == u;
                assert(done.push(w)[i] == u);
            }
            assert(done.push(w)[done.len() as int] == w);
        }
    }
}

/// What holds of the queue whenever `head` of its nodes have been removed.
pub open spec fn kahn_inv(g: Graph, queue: Seq<usize>, head: nat) -> bool {
    &&& head <= queue.len()
    &&& queue.no_duplicates()
    &&& forall|i: int| 0 <= i < queue.len() ==> (#[trigger] queue[i]) < g.len()
    &&& forall|v: usize|
        v < g.len() ==> (#[trigger] queue.contains(v) <==> ready(g, queue.take(head as int), v))
    &&& forall|i: int, u: usize|
        0 <= i < queue.len() && #[trigger] edge(g, u, queue[i]) ==> exists|j: int|
            0 <= j < i && #[trigger] queue[j] == u
}

proof fn lemma_no_dup_bound(s: Seq<usize>, n: nat)
    requires
        s.no_duplicates(),
        forall|i: int| 0 <= i < s.len() ==> (#[trigger] s[i]) < n,
    ensures
        s.len() <= n,
        s.len() == n ==> forall|v: usize| v < n ==> s.contains(v),
    decreases n,
{
    let set = s.to_set();
    s.unique_seq_to_set();
    let all = Set::new(|v: usize| v < n);
    lemma_below_len(n);
    assert(set.subset_of(all));
    vstd::set_lib::lemma_len_subset(set, all);
    if s.len() == n {
        assert forall|v: usize| v < n implies s.contains(v) by {
            if !set.contains(v) {
                assert(set.subset_of(all.remove(v)));
                vstd::set_lib::lemma_len_subset(set, all.remove(v));
            }
        }
    }
}

proof fn lemma_below_len(n: nat)
    ensures
        Set::new(|v: usize| v < n).finite(),
        Set::new(|v: usize| v < n).len() <= n,
    decreases n,
{
    let all = Set::new(|v: usize| v < n);
    if n == 0 {
        assert(all =~= Set::empty());
    } else {
        let m = (n - 1) as nat;
        lemma_below_len(m);
        let prev = Set::new(|v: usize| v < m);
        if m <= usize::MAX {
            assert(all =~= prev.insert(m as usize));
        } else {
            assert(all =~= prev);
        }
    }
}

/// The nodes that may follow once `queue[head]` has been removed.
pub open spec fn released(g: Graph, queue: Seq<usize>, head: nat) -> Seq<usize> {
    let done = queue.take((head + 1) as int);
    g[queue[head as int] as int].filter(|v: usize| ready(g, done, v))
}

proof fn lemma_filter_distinct(s: Seq<usize>, p: spec_fn(usize) -> bool)
    requires
        s.no_duplicates(),
    ensures
        s.filter(p).no_duplicates(),
        forall|x: usize| #[trigger] s.filter(p).contains(x) <==> s.contains(x) && p(x),
    decreases s.len(),
{
    reveal(Seq::filter);
    if s.len() > 0 {
        let t = s.drop_last();
        lemma_filter_distinct(t, p);
        assert forall|x: usize| #[trigger] s.filter(p).contains(x) <==> s.contains(x) && p(x) by {
            assert(s =~= t.push(s.last()));
            if s.contains(x) && p(x) {
                if t.contains(x) {
                    let f = t.filter(p);
                    assert(f.contains(x));
                    let k = choose|k: int| 0 <= k < f.len() && f[k] == x;
                    assert(s.filter(p)[k] == x);
                } else {
                    assert(x == s.last());
                    assert(s.filter(p).last() == x);
                }
            }
            if s.filter(p).contains(x) {
                let f = s.filter(p);
                let k = choose|k: int| 0 <= k < f.len() && f[k] == x;
                if k < t.filter(p).len() {
                    assert(t.filter(p)[k] == x);
                    assert(t.filter(p).contains(x));
                    assert(t.contains(x));
                    let m = choose|m: int| 0 <= m < t.len() && t[m] == x;
                    assert(s[m] == x);
                } else {
                    assert(x == s.last());
                }
            }
        }
        if p(s.last()) {
            let f = t.filter(p);
            if f.contains(s.last()) {
                assert(t.contains(s.last()));
                let m = choose|m: int| 0 <= m < t.len() && t[m] == s.last();
                assert(s[m] == s[s.len() - 1]);
                assert(false);
            }
        }
    }
}

proof fn lemma_row_distinct(g: Graph, u: usize)
    requires
        wf_graph(g),
        u < g.len(),
    ensures
        g[u as int].no_duplicates(),
{
    assert forall|i: int, j: int|
        0 <= i < g[u as int].len() && 0 <= j < g[u as int].len() && i != j implies g[u as int][i]
        != g[u as int][j] by {
        if i < j {
            assert(g[u as int][i] < g[u as int][j]);
        } else {
            assert(g[u as int][j] < g[u as int][i]);
        }
    }
}

proof fn lemma_kahn_start(g: Graph)
    requires
        wf_graph(g),
    ensures
        kahn_inv(g, nodes(g.len()).filter(|v: usize| ready(g, Seq::empty(), v)), 0),
{
    let p = |v: usize| ready(g, Seq::empty(), v);
    let q = nodes(g.len()).filter(p);
    lemma_filter_distinct(nodes(g.len()), p);
    assert forall|i: int| 0 <= i < q.len() implies (#[trigger] q[i]) < g.len() by {
        assert(q.contains(q[i]));
        assert(nodes(g.len()).contains(q[i]));
    }
    assert(q.take(0) =~= Seq::<usize>::empty());
    assert forall|v: usize| v < g.len() implies (#[trigger] q.contains(v) <==> ready(
        g,
        q.take(0),
        v,
    )) by {
        assert(nodes(g.len())[v as int] == v);
    }
    assert forall|i: int, u: usize| 0 <= i < q.len() && #[trigger] edge(g, u, q[i]) implies exists|
        j: int,
    |
        0 <= j < i && #[trigger] q[j] == u by {
        assert(q.contains(q[i]));
        assert(Seq::<usize>::empty().contains(u));
        assert(false);
    }
}

proof fn lemma_take_push(q: Seq<usize>, h: int)
    requires
        0 <= h < q.len(),
    ensures
        q.take(h + 1) == q.take(h).push(q[h]),
{
    assert(q.take(h + 1) =~= q.take(h).push(q[h]));
}

proof fn lemma_kahn_step(g: Graph, q: Seq<usize>, head: nat)
    requires
        wf_graph(g),
        kahn_inv(g, q, head),
        head < q.len(),
    ensures
        kahn_inv(g, q + released(g, q, head), head + 1),
{
    let u0 = q[head as int];
    let done = q.take((head + 1) as int);
    let old_done = q.take(head as int);
    let p = |v: usize| ready(g, done, v);
    let r = released(g, q, head);
    let q2 = q + r;
    lemma_row_distinct(g, u0);
    lemma_filter_distinct(g[u0 as int], p);
    lemma_take_push(q, head as int);
    assert(q2.take((head + 1) as int) =~= done);
    // `u0` is not among the nodes removed before.
    assert(!old_done.contains(u0)) by {
        if old_done.contains(u0) {
            let i = choose|i: int| 0 <= i < old_done.len() && old_done[i] == u0;
            assert(q[i] == q[head as int]);
        }
    }
    assert forall|x: usize| #[trigger] r.contains(x) implies x < g.len() && !q.contains(x)
        && edge(g, u0, x) && ready(g, done, x) by {
        let row = g[u0 as int];
        assert(row.contains(x));
        let i = choose|i: int| 0 <= i < row.len() && row[i] == x;
        assert(g[u0 as int][i] < g.len());
        if q.contains(x) {
            assert(ready(g, old_done, x));
            assert(edge(g, u0, x));
            assert(old_done.contains(u0));
        }
    }
    assert(q2.no_duplicates()) by {
        assert forall|i: int, j: int|
            0 <= i < q2.len() && 0 <= j < q2.len() && i != j implies q2[i] != q2[j] by {
            if i < q.len() && j >= q.len() {
                assert(q.contains(q2[i]));
                assert(r.contains(r[j - q.len()]));
            } else if j < q.len() && i >= q.len() {
                assert(q.contains(q2[j]));
                assert(r.contains(r[i - q.len()]));
            } else if i >= q.len() {
                assert(r[i - q.len()] != r[j - q.len()]);
            }
        }
    }
    assert forall|i: int| 0 <= i < q2.len() implies (#[trigger] q2[i]) < g.len() by {
        if i >= q.len() {
            assert(r.contains(r[i - q.len()]));
        }
    }
    assert forall|v: usize| v < g.len() implies (#[trigger] q2.contains(v) <==> ready(
        g,
        q2.take((head + 1) as int),
        v,
    )) by {
        if q2.contains(v) {
            let i = choose|i: int| 0 <= i < q2.len() && q2[i] == v;
            if i < q.len() {
                assert(q.contains(v));
                assert(ready(g, old_done, v));
                assert forall|u: usize| #[trigger] edge(g, u, v) implies done.contains(u) by {
                    assert(old_done.contains(u));
                    let k = choose|k: int| 0 <= k < old_done.len() && old_done[k] == u;
                    assert(done[k] == u);
                }
            } else {
                assert(r.contains(r[i - q.len()]));
            }
        }
        if ready(g, done, v) && !q.contains(v) {
            assert(!ready(g, old_done, v));
            let u = choose|u: usize| #[trigger] edge(g, u, v) && !old_done.contains(u);
            assert(done.contains(u));
            let k = choose|k: int| 0 <= k < done.len() && done[k] == u;
            if k < head {
                assert(old_done[k] == u);
            }
            assert(u == u0);
            assert(r.contains(v));
            let m = choose|m: int| 0 <= m < r.len() && r[m] == v;
            assert(q2[q.len() + m] == v);
        }
        if q.contains(v) {
            let k = choose|k: int| 0 <= k < q.len() && q[k] == v;
            assert(q2[k] == v);
        }
    }
    assert forall|i: int, u: usize| 0 <= i < q2.len() && #[trigger] edge(
        g,
        u,
        q2[i],
    ) implies exists|j: int| 0 <= j < i && #[trigger] q2[j] == u by {
        if i < q.len() {
            assert(edge(g, u, q[i]));
            let j = choose|j: int| 0 <= j < i && #[trigger] q[j] == u;
            assert(q2[j] == u);
        } else {
            assert(r.contains(r[i - q.len()]));
            assert(ready(g, done, q2[i]));
            assert(done.contains(u));
            let k = choose|k: int| 0 <= k < done.len() && done[k] == u;
            assert(q2[k] == u);
        }
    }
}

proof fn lemma_kahn_end(g: Graph, q: Seq<usize>, head: nat)
    requires
        wf_graph(g),
        kahn_inv(g, q, head),
    ensures
        kahn_inv(g, kahn(g, q, head), kahn(g, q, head).len()),
        q.is_prefix_of(kahn(g, q, head)),
    decreases g.len() - head,
{
    lemma_no_dup_bound(q, g.len());
    if head < q.len() && head < g.len() {
        lemma_kahn_step(g, q, head);
        lemma_kahn_end(g, q + released(g, q, head), head + 1);
    } else {
        assert(head == q.len());
    }
}

/// What Kahn's algorithm removes: distinct nodes, each after all its
/// predecessors; a node is removed if and only if all its predecessors are.
pub proof fn lemma_removal_order(g: Graph)
    requires
        wf_graph(g),
    ensures
        kahn_inv(g, removal_order(g), removal_order(g).len()),
        removal_order(g).len() <= g.len(),
        removal_order(g).len() == g.len() ==> forall|v: usize|
            v < g.len() ==> removal_order(g).contains(v),
        forall|v: usize|
            v < g.len() ==> (#[trigger] removal_order(g).contains(v) <==> ready(
                g,
                removal_order(g),
                v,
            )),
{
    let q = nodes(g.len()).filter(|v: usize| ready(g, Seq::empty(), v));
    lemma_kahn_start(g);
    lemma_kahn_end(g, q, 0);
    let r = removal_order(g);
    lemma_no_dup_bound(r, g.len());
    assert(r.take(r.len() as int) =~= r);
}

/// The graph that a vector of successor lists stands for.
pub open spec fn rows(adj: Seq<Vec<usize>>) -> Graph {
    adj.map_values(|r: Vec<usize>| r@)
}

proof fn lemma_row_take(g: Graph, u: usize, j: int, v: usize)
    requires
        u < g.len(),
        0 <= j < g[u as int].len(),
    ensures
        g[u as int].take(j + 1).contains(v) == (g[u as int].take(j).contains(v) || v
            == g[u as int][j]),
{
    let row = g[u as int];
    lemma_take_push(row, j);
    let a = row.take(j);
    if a.contains(v) {
        let i = choose|i: int| 0 <= i < a.len() && a[i] == v;
        assert(row.take(j + 1)[i] == v);
    }
    assert(row.take(j + 1)[j] == row[j]);
    let b = row.take(j + 1);
    if b.contains(v) {
        let i = choose|i: int| 0 <= i < b.len() && b[i] == v;
        if i < j {
            assert(a[i] == v);
        }
    }
}

proof fn lemma_row_take_fresh(g: Graph, u: usize, j: int)
    requires
        wf_graph(g),
        u < g.len(),
        0 <= j < g[u as int].len(),
    ensures
        !g[u as int].take(j).contains(g[u as int][j]),
{
    let a = g[u as int].take(j);
    if a.contains(g[u as int][j]) {
        let i = choose|i: int| 0 <= i < a.len() && a[i] == g[u as int][j];
        assert(g[u as int][i] < g[u as int][j]);
    }
}

/// For each node, the number of its predecessors.
fn in_degrees(adj: &Vec<Vec<usize>>) -> (deg: Vec<usize>)
    requires
        wf_graph(rows(adj@)),
    ensures
        deg@.len() == adj@.len(),
        forall|v: usize|
            v < adj@.len() ==> #[trigger] deg@[v as int] == missing(
                rows(adj@),
                Seq::empty(),
                v,
                adj@.len(),
            ),
{
    let ghost g = rows(adj@);
    let n: usize = adj.len();
    let mut deg: Vec<usize> = Vec::new();
    let mut k: usize = 0;
    while k < n
        invariant
            k <= n,
            deg@.len() == k,
            forall|v: usize| v < k ==> #[trigger] deg@[v as int] == 0,
        decreases n - k,
    {
        deg.push(0);
        k = k + 1;
    }
    let mut u: usize = 0;
    while u < n
        invariant
            u <= n,
            n == adj@.len(),
            g == rows(adj@),
            wf_graph(g),
            deg@.len() == n,
            forall|v: usize|
                v < n ==> #[trigger] deg@[v as int] == missing(g, Seq::empty(), v, u as nat),
        decreases n - u,
    {
        let row = &adj[u];
        assert(row@ == g[u as int]);
        let mut j: usize = 0;
        while j < row.len()
            invariant
                j <= row@.len(),
                u < n,
                n == adj@.len(),
                g == rows(adj@),
                wf_graph(g),
                row@ == g[u as int],
                deg@.len() == n,
                forall|v: usize|
                    v < n ==> #[trigger] deg@[v as int] == missing(g, Seq::empty(), v, u as nat)
                        + if g[u as int].take(j as int).contains(v) {
                        1nat
                    } else {
                        0nat
                    },
            decreases row@.len() - j,
        {
            let v = row[j];
            assert(g[u as int][j as int] < g.len());
            proof {
                lemma_missing_zero(g, Seq::empty(), v, u as nat);
                lemma_row_take_fresh(g, u, j as int);
                assert forall|x: usize| true implies g[u as int].take(j + 1).contains(x) == (
                g[u as int].take(j as int).contains(x) || x == v) by {
                    lemma_row_take(g, u, j as int, x);
                }
            }
            deg.set(v, deg[v] + 1);
            j = j + 1;
        }
        proof {
            assert(g[u as int].take(g[u as int].len() as int) =~= g[u as int]);
        }
        u = u + 1;
    }
    deg
}

/// The nodes that Kahn's algorithm removes, in the order of their removal.
pub fn removal(adj: &Vec<Vec<usize>>) -> (order: Vec<usize>)
    requires
        wf_graph(rows(adj@)),
    ensures
        order@ == removal_order(rows(adj@)),
{
    let ghost g = rows(adj@);
    let ghost none = Seq::<usize>::empty();
    let ghost p0 = |v: usize| ready(g, none, v);
    let n: usize = adj.len();
    let mut deg = in_degrees(adj);
    let mut queue: Vec<usize> = Vec::new();
    let mut k: usize = 0;
    assert(nodes(n as nat).take(0) =~= none);
    assert(none.filter(p0) =~= none) by {
        reveal(Seq::filter);
    }
    while k < n
        invariant
            k <= n,
            n == g.len(),
            wf_graph(g),
            deg@.len() == n,
            none == Seq::<usize>::empty(),
            p0 == |v: usize| ready(g, none, v),
            forall|v: usize|
                v < n ==> #[trigger] deg@[v as int] == missing(g, none, v, n as nat),
            queue@ == nodes(n as nat).take(k as int).filter(p0),
        decreases n - k,
    {
        proof {
            lemma_missing_ready(g, none, k);
            let s = nodes(n as nat);
            assert(s[k as int] == k);
            lemma_take_push(s, k as int);
            s.take(k as int).lemma_filter_push(k, p0);
        }
        if deg[k] == 0 {
            queue.push(k);
        }
        k = k + 1;
    }
    proof {
        assert(nodes(n as nat).take(n as int) =~= nodes(n as nat));
        lemma_kahn_start(g);
        assert(queue@.take(0) =~= none);
    }
    let mut head: usize = 0;
    while head < queue.len()
        invariant
            none == Seq::<usize>::empty(),
            n == g.len(),
            g == rows(adj@),
            wf_graph(g),
            head <= queue@.len(),
            deg@.len() == n,
            kahn_inv(g, queue@, head as nat),
            kahn(g, queue@, head as nat) == removal_order(g),
            forall|v: usize|
                v < n ==> #[trigger] deg@[v as int] == missing(
                    g,
                    queue@.take(head as int),
                    v,
                    n as nat,
                ),
        decreases n - head,
    {
        let ghost q0 = queue@;
        let ghost old_done = q0.take(head as int);
        let ghost done = q0.take(head + 1);
        let ghost p = |v: usize| ready(g, done, v);
        let u = queue[head];
        proof {
            lemma_no_dup_bound(q0, g.len());
            lemma_take_push(q0, head as int);
            if old_done.contains(u) {
                let i = choose|i: int| 0 <= i < old_done.len() && old_done[i] == u;
                assert(q0[i] == q0[head as int]);
            }
            lemma_kahn_step(g, q0, head as nat);
            assert(g[u as int].take(0) =~= none);
            assert(none.filter(p) =~= none) by {
                reveal(Seq::filter);
            }
            assert(q0 + none =~= q0);
        }
        let row = &adj[u];
        let mut j: usize = 0;
        while j < row.len()
            invariant
                j <= row@.len(),
                u < n,
                n == g.len(),
                g == rows(adj@),
                wf_graph(g),
                row@ == g[u as int],
                deg@.len() == n,
                !old_done.contains(u),
                done == old_done.push(u),
                p == |v: usize| ready(g, done, v),
                queue@ == q0 + g[u as int].take(j as int).filter(p),
                forall|v: usize|
                    v < n ==> #[trigger] deg@[v as int] == missing(g, old_done, v, n as nat)
                        - if g[u as int].take(j as int).contains(v) {
                        1int
                    } else {
                        0int
                    },
            decreases row@.len() - j,
        {
            let v = row[j];
            assert(g[u as int][j as int] < g.len());
            proof {
                assert(edge(g, u, v)) by {
                    assert(g[u as int].contains(v));
                }
                lemma_missing_push(g, old_done, u, v, n as nat);
                lemma_missing_ready(g, done, v);
                lemma_row_take_fresh(g, u, j as int);
                assert forall|x: usize| true implies g[u as int].take(j + 1).contains(x) == (
                g[u as int].take(j as int).contains(x) || x == v) by {
                    lemma_row_take(g, u, j as int, x);
                }
                lemma_take_push(g[u as int], j as int);
                g[u as int].take(j as int).lemma_filter_push(v, p);
            }
            let ghost qj = queue@;
            deg.set(v, deg[v] - 1);
            if deg[v] == 0 {
                queue.push(v);
            }
            j = j + 1;
            assert(queue@ =~= q0 + g[u as int].take(j as int).filter(p));
        }
        proof {
            assert(g[u as int].take(g[u as int].len() as int) =~= g[u as int]);
            assert(queue@ == q0 + released(g, q0, head as nat));
            assert(queue@.take(head + 1) =~= done);
            assert forall|v: usize| v < n implies #[trigger] deg@[v as int] == missing(
                g,
                done,
                v,
                n as nat,
            ) by {
                lemma_missing_push(g, old_done, u, v, n as nat);
            }
        }
        head = head + 1;
    }
    queue
}

/// `v` is a node that has not been removed.
pub open spec fn remains(g: Graph, removed: Seq<usize>, v: usize) -> bool {
    v < g.len() && !removed.contains(v)
}

/// The state of a depth-first search for a cycle.
pub struct Search {
    /// The path being followed: each node with the index of the successor that
    /// is to be tried next.
    pub stack: Seq<(usize, nat)>,
    /// The nodes reached so far.
    pub visited: Set<usize>,
    /// The cycle, once one has been found.
    pub ring: Option<Seq<usize>>,
}

/// The nodes on the path being followed.
pub open spec fn path(stack: Seq<(usize, nat)>) -> Seq<usize> {
    stack.map_values(|f: (usize, nat)| f.0)
}

/// `v` is the least remaining node that has not been reached.
pub open spec fn is_root(g: Graph, removed: Seq<usize>, visited: Set<usize>, v: usize) -> bool {
    &&& remains(g, removed, v)
    &&& !visited.contains(v)
    &&& forall|w: usize| w < v && #[trigger] remains(g, removed, w) ==> visited.contains(w)
}

/// One step of the search. It starts from the least node not yet reached, tries
/// successors in ascending order, never reaches a node twice, and stops at the
/// first edge that leads back onto the path.
pub open spec fn search_step(g: Graph, removed: Seq<usize>, s: Search) -> Search {
    if s.ring is Some {
        s
    } else if s.stack.len() == 0 {
        if exists|v: usize| is_root(g, removed, s.visited, v) {
            let v = choose|v: usize| is_root(g, removed, s.visited, v);
            Search { stack: seq![(v, 0nat)], visited: s.visited.insert(v), ring: None }
        } else {
            s
        }
    } else {
        let (u, i) = s.stack.last();
        if i < g[u as int].len() {
            let v = g[u as int][i as int];
            let stack = s.stack.drop_last().push((u, i + 1));
            if !remains(g, removed, v) {
                Search { stack, ..s }
            } else if path(stack).contains(v) {
                Search { ring: Some(path(stack).skip(path(stack).index_of(v))), ..s }
            } else if s.visited.contains(v) {
                Search { stack, ..s }
            } else {
                Search { stack: stack.push((v, 0nat)), visited: s.visited.insert(v), ring: None }
            }
        } else {
            Search { stack: s.stack.drop_last(), ..s }
        }
    }
}

/// The search after `k` steps.
pub open spec fn search(g: Graph, removed: Seq<usize>, k: nat) -> Search
    decreases k,
{
    if k == 0 {
        Search { stack: Seq::empty(), visited: Set::empty(), ring: None }
    } else {
        search_step(g, removed, search(g, removed, (k - 1) as nat))
    }
}

/// The cycle that the search finds; empty if there is none.
pub open spec fn ring_of(g: Graph, removed: Seq<usize>) -> Seq<usize> {
    if exists|k: nat| (#[trigger] search(g, removed, k)).ring is Some {
        let k = choose|k: nat| (#[trigger] search(g, removed, k)).ring is Some;
        search(g, removed, k).ring->0
    } else {
        Seq::empty()
    }
}

/// The search has found a cycle, or has nothing left to try.
pub open spec fn search_over(g: Graph, removed: Seq<usize>, s: Search) -> bool {
    s.ring is Some || (s.stack.len() == 0 && !exists|v: usize| is_root(g, removed, s.visited, v))
}

proof fn lemma_search_stays(g: Graph, removed: Seq<usize>, k: nat, m: nat)
    requires
        search_over(g, removed, search(g, removed, k)),
        k <= m,
    ensures
        search(g, removed, m) == search(g, removed, k),
    decreases m - k,
{
    if k < m {
        lemma_search_stays(g, removed, k, (m - 1) as nat);
    }
}

/// Whichever step the search ends at, the cycle is the same.
proof fn lemma_ring_of(g: Graph, removed: Seq<usize>, k: nat)
    requires
        search_over(g, removed, search(g, removed, k)),
    ensures
        ring_of(g, removed) == match search(g, removed, k).ring {
            Some(ring) => ring,
            None => Seq::empty(),
        },
{
    if exists|j: nat| (#[trigger] search(g, removed, j)).ring is Some {
        let j = choose|j: nat| (#[trigger] search(g, removed, j)).ring is Some;
        if j <= k {
            lemma_search_stays(g, removed, j, k);
        } else {
            lemma_search_stays(g, removed, k, j);
        }
    }
}

/// `ring` is a cycle of distinct remaining nodes; its last node has an edge to
/// its first.
pub open spec fn is_ring(g: Graph, removed: Seq<usize>, ring: Seq<usize>) -> bool {
    &&& ring.len() > 0
    &&& ring.no_duplicates()
    &&& forall|i: int| 0 <= i < ring.len() ==> remains(g, removed, #[trigger] ring[i])
    &&& forall|i: int|
        0 <= i < ring.len() - 1 ==> edge(g, #[trigger] ring[i], ring[i + 1])
    &&& edge(g, ring.last(), ring[0])
}

/// The nodes that the search has left behind, each after all its remaining
/// successors.
pub open spec fn finished(g: Graph, removed: Seq<usize>, s: Search, fin: Seq<usize>) -> bool {
    &&& fin.no_duplicates()
    &&& forall|v: usize| #[trigger]
        s.visited.contains(v) <==> fin.contains(v) || path(s.stack).contains(v)
    &&& forall|v: usize| #[trigger] fin.contains(v) ==> !path(s.stack).contains(v)
    &&& forall|i: int, v: usize|
        0 <= i < fin.len() && remains(g, removed, v) && #[trigger] edge(g, fin[i], v)
            ==> fin.take(i).contains(v)
    &&& forall|i: int, t: int|
        0 <= i < s.stack.len() && 0 <= t < s.stack[i].1 && remains(
            g,
            removed,
            #[trigger] g[s.stack[i].0 as int][t],
        ) ==> fin.contains(g[s.stack[i].0 as int][t]) || (i + 1 < s.stack.len() && t
            == s.stack[i].1 - 1)
}

/// What holds throughout the search.
pub open spec fn search_inv(g: Graph, removed: Seq<usize>, s: Search, fin: Seq<usize>) -> bool {
    &&& path(s.stack).no_duplicates()
    &&& forall|i: int|
        0 <= i < s.stack.len() ==> remains(g, removed, (#[trigger] s.stack[i]).0) && s.stack[i].1
            <= g[s.stack[i].0 as int].len()
    &&& forall|i: int|
        0 <= i < s.stack.len() - 1 ==> (#[trigger] s.stack[i]).1 > 0 && g[s.stack[i].0 as int][s.stack[i].1
            - 1] == s.stack[i + 1].0
    &&& forall|v: usize| #[trigger] s.visited.contains(v) ==> remains(g, removed, v)
    &&& finished(g, removed, s, fin)
    &&& s.ring is Some ==> is_ring(g, removed, s.ring->0)
}

proof fn lemma_contains_push(q: Seq<usize>, x: usize, v: usize)
    ensures
        q.push(x).contains(v) == (q.contains(v) || v == x),
{
    if q.contains(v) {
        let i = choose|i: int| 0 <= i < q.len() && q[i] == v;
        assert(q.push(x)[i] == v);
    }
    assert(q.push(x)[q.len() as int] == x);
}

proof fn lemma_push_distinct(q: Seq<usize>, x: usize)
    requires
        q.no_duplicates(),
        !q.contains(x),
    ensures
        q.push(x).no_duplicates(),
{
    assert forall|i: int, j: int|
        0 <= i < q.push(x).len() && 0 <= j < q.push(x).len() && i != j implies q.push(x)[i]
        != q.push(x)[j] by {
        if i == q.len() {
            assert(q.contains(q[j]));
        } else if j == q.len() {
            assert(q.contains(q[i]));
        }
    }
}

proof fn lemma_search_step(g: Graph, removed: Seq<usize>, s: Search, fin: Seq<usize>) -> (fin2: Seq<
    usize,
>)
    requires
        wf_graph(g),
        search_inv(g, removed, s, fin),
    ensures
        search_inv(g, removed, search_step(g, removed, s), fin2),
{
    let s2 = search_step(g, removed, s);
    if s.ring is Some {
        return fin;
    }
    if s.stack.len() == 0 {
        if exists|v: usize| is_root(g, removed, s.visited, v) {
            let v = choose|v: usize| is_root(g, removed, s.visited, v);
            assert(path(s2.stack) =~= seq![v]);
            assert(path(s.stack) =~= Seq::<usize>::empty());
            assert forall|w: usize| #[trigger] s2.visited.contains(w) <==> fin.contains(w) || path(
                s2.stack,
            ).contains(w) by {
                assert(seq![v][0] == v);
                assert(s.visited.contains(w) <==> fin.contains(w) || path(s.stack).contains(w));
            }
            assert forall|w: usize| #[trigger] fin.contains(w) implies !path(s2.stack).contains(
                w,
            ) by {
                assert(s.visited.contains(w));
            }
        }
        return fin;
    }
    let (u, i) = s.stack.last();
    let top = s.stack.len() - 1;
    assert(s.stack[top] == (u, i));
    if i < g[u as int].len() {
        let v = g[u as int][i as int];
        let stack = s.stack.drop_last().push((u, i + 1));
        assert(path(stack) =~= path(s.stack));
        assert(edge(g, u, v));
        if !remains(g, removed, v) {
            assert(finished(g, removed, s2, fin)) by {
                assert forall|a: int, t: int|
                    0 <= a < s2.stack.len() && 0 <= t < s2.stack[a].1 && remains(
                        g,
                        removed,
                        #[trigger] g[s2.stack[a].0 as int][t],
                    ) implies fin.contains(g[s2.stack[a].0 as int][t]) || (a + 1 < s2.stack.len()
                    && t == s2.stack[a].1 - 1) by {
                    if a < top {
                        assert(s2.stack[a] == s.stack[a]);
                    }
                    assert(g[s.stack[a].0 as int][t] == g[s2.stack[a].0 as int][t]);
                }
            }
            assert forall|a: int| 0 <= a < s2.stack.len() - 1 implies (
            #[trigger] s2.stack[a]).1 > 0 && g[s2.stack[a].0 as int][s2.stack[a].1 - 1]
                == s2.stack[a + 1].0 by {
                assert(s2.stack[a] == s.stack[a]);
            }
            return fin;
        }
        if path(stack).contains(v) {
            let q = path(stack);
            let k = q.index_of(v);
            assert(q[k] == v);
            let ring = q.skip(k);
            assert(ring[0] == v);
            assert(ring.last() == u);
            assert(ring.no_duplicates());
            assert forall|a: int| 0 <= a < ring.len() implies remains(
                g,
                removed,
                #[trigger] ring[a],
            ) by {
                assert(ring[a] == s.stack[a + k].0);
            }
            assert forall|a: int| 0 <= a < ring.len() - 1 implies edge(
                g,
                #[trigger] ring[a],
                ring[a + 1],
            ) by {
                let f = s.stack[a + k];
                assert(ring[a] == f.0);
                assert(ring[a + 1] == s.stack[a + k + 1].0);
                assert(g[f.0 as int][f.1 - 1] == ring[a + 1]);
                assert(g[f.0 as int].contains(ring[a + 1]));
            }
            assert(s2.stack == s.stack);
            return fin;
        }
        if s.visited.contains(v) {
            assert(fin.contains(v));
            assert(finished(g, removed, s2, fin)) by {
                assert forall|a: int, t: int|
                    0 <= a < s2.stack.len() && 0 <= t < s2.stack[a].1 && remains(
                        g,
                        removed,
                        #[trigger] g[s2.stack[a].0 as int][t],
                    ) implies fin.contains(g[s2.stack[a].0 as int][t]) || (a + 1 < s2.stack.len()
                    && t == s2.stack[a].1 - 1) by {
                    if a < top {
                        assert(s2.stack[a] == s.stack[a]);
                    }
                    assert(g[s.stack[a].0 as int][t] == g[s2.stack[a].0 as int][t]);
                }
            }
            assert forall|a: int| 0 <= a < s2.stack.len() - 1 implies (
            #[trigger] s2.stack[a]).1 > 0 && g[s2.stack[a].0 as int][s2.stack[a].1 - 1]
                == s2.stack[a + 1].0 by {
                assert(s2.stack[a] == s.stack[a]);
            }
            return fin;
        }
        assert(path(s2.stack) =~= path(stack).push(v));
        lemma_push_distinct(path(stack), v);
        assert forall|w: usize| path(s2.stack).contains(w) == (path(s.stack).contains(w) || w
            == v) by {
            lemma_contains_push(path(stack), v, w);
        }
        assert forall|w: usize| #[trigger] s2.visited.contains(w) <==> fin.contains(w) || path(
            s2.stack,
        ).contains(w) by {
            assert(s.visited.contains(w) <==> fin.contains(w) || path(s.stack).contains(w));
        }
        assert forall|w: usize| #[trigger] fin.contains(w) implies !path(s2.stack).contains(w) by {
            assert(s.visited.contains(w));
        }
        assert forall|a: int, t: int|
            0 <= a < s2.stack.len() && 0 <= t < s2.stack[a].1 && remains(
                g,
                removed,
                #[trigger] g[s2.stack[a].0 as int][t],
            ) implies fin.contains(g[s2.stack[a].0 as int][t]) || (a + 1 < s2.stack.len() && t
            == s2.stack[a].1 - 1) by {
            if a < top {
                assert(s2.stack[a] == s.stack[a]);
            }
            if a <= top {
                assert(g[s.stack[a].0 as int][t] == g[s2.stack[a].0 as int][t]);
            }
        }
        assert forall|a: int| 0 <= a < s2.stack.len() implies remains(
            g,
            removed,
            (#[trigger] s2.stack[a]).0,
        ) && s2.stack[a].1 <= g[s2.stack[a].0 as int].len() by {
            if a < top {
                assert(s2.stack[a] == s.stack[a]);
            }
        }
        assert forall|a: int| 0 <= a < s2.stack.len() - 1 implies (#[trigger] s2.stack[a]).1 > 0
            && g[s2.stack[a].0 as int][s2.stack[a].1 - 1] == s2.stack[a + 1].0 by {
            if a < top {
                assert(s2.stack[a] == s.stack[a]);
            }
        }
        return fin;
    }
    let fin2 = fin.push(u);
    assert(path(s2.stack) =~= path(s.stack).drop_last());
    assert(path(s.stack) =~= path(s2.stack).push(u));
    assert(path(s.stack)[top] == u);
    assert(!path(s2.stack).contains(u)) by {
        if path(s2.stack).contains(u) {
            let q = path(s2.stack);
            let a = choose|a: int| 0 <= a < q.len() && q[a] == u;
            assert(path(s.stack)[a] == path(s.stack)[top]);
        }
    }
    assert(!fin.contains(u));
    lemma_push_distinct(fin, u);
    assert forall|w: usize| fin2.contains(w) == (fin.contains(w) || w == u) by {
        lemma_contains_push(fin, u, w);
    }
    assert forall|w: usize| path(s.stack).contains(w) == (path(s2.stack).contains(w) || w == u) by {
        lemma_contains_push(path(s2.stack), u, w);
    }
    assert forall|w: usize| #[trigger] s2.visited.contains(w) <==> fin2.contains(w) || path(
        s2.stack,
    ).contains(w) by {
        assert(s.visited.contains(w) <==> fin.contains(w) || path(s.stack).contains(w));
    }
    assert forall|a: int, v: usize|
        0 <= a < fin2.len() && remains(g, removed, v) && #[trigger] edge(
            g,
            fin2[a],
            v,
        ) implies fin2.take(a).contains(v) by {
        if a < fin.len() {
            assert(fin2[a] == fin[a]);
            assert(edge(g, fin[a], v));
            assert(fin2.take(a) =~= fin.take(a));
        } else {
            assert(fin2.take(a) =~= fin);
            let row = g[u as int];
            let t = choose|t: int| 0 <= t < row.len() && row[t] == v;
            assert(g[s.stack[top].0 as int][t] == v);
        }
    }
    assert forall|a: int, t: int|
        0 <= a < s2.stack.len() && 0 <= t < s2.stack[a].1 && remains(
            g,
            removed,
            #[trigger] g[s2.stack[a].0 as int][t],
        ) implies fin2.contains(g[s2.stack[a].0 as int][t]) || (a + 1 < s2.stack.len() && t
        == s2.stack[a].1 - 1) by {
        assert(s2.stack[a] == s.stack[a]);
        assert(g[s.stack[a].0 as int][t] == g[s2.stack[a].0 as int][t]);
        if a + 1 == top && t == s.stack[a].1 - 1 {
            assert(s.stack[a + 1].0 == u);
        }
    }
    assert forall|a: int| 0 <= a < s2.stack.len() - 1 implies (#[trigger] s2.stack[a]).1 > 0
        && g[s2.stack[a].0 as int][s2.stack[a].1 - 1] == s2.stack[a + 1].0 by {
        assert(s2.stack[a] == s.stack[a]);
    }
    fin2
}

/// How many of the nodes below `k` have not been reached.
pub open spec fn unseen(visited: Set<usize>, k: nat) -> nat
    decreases k,
{
    if k == 0 {
        0
    } else {
        unseen(visited, (k - 1) as nat) + if visited.contains((k - 1) as usize) {
            0nat
        } else {
            1nat
        }
    }
}

proof fn lemma_unseen_insert(visited: Set<usize>, v: usize, k: nat)
    requires
        !visited.contains(v),
        k <= usize::MAX,
    ensures
        unseen(visited.insert(v), k) == unseen(visited, k) - if v < k {
            1int
        } else {
            0int
        },
    decreases k,
{
    if k > 0 {
        lemma_unseen_insert(visited, v, (k - 1) as nat);
    }
}

/// How many successors the nodes on the path have yet to try, each node itself
/// counted once.
pub open spec fn work(g: Graph, stack: Seq<(usize, nat)>) -> int
    decreases stack.len(),
{
    if stack.len() == 0 {
        0
    } else {
        let (u, i) = stack.last();
        work(g, stack.drop_last()) + g[u as int].len() - i + 1
    }
}

proof fn lemma_work_positive(g: Graph, removed: Seq<usize>, s: Search, fin: Seq<usize>, k: int)
    requires
        search_inv(g, removed, s, fin),
        0 <= k <= s.stack.len(),
    ensures
        work(g, s.stack.take(k)) >= k,
    decreases k,
{
    if k > 0 {
        lemma_work_positive(g, removed, s, fin, k - 1);
        assert(s.stack.take(k).drop_last() =~= s.stack.take(k - 1));
        assert(s.stack.take(k).last() == s.stack[k - 1]);
    }
}

/// Every step that finds no cycle reaches a new node or leaves less to try.
proof fn lemma_search_progress(g: Graph, removed: Seq<usize>, s: Search, fin: Seq<usize>)
    requires
        wf_graph(g),
        search_inv(g, removed, s, fin),
        !search_over(g, removed, s),
    ensures
        ({
            let s2 = search_step(g, removed, s);
            ||| s2.ring is Some
            ||| unseen(s2.visited, g.len()) < unseen(s.visited, g.len())
            ||| s2.visited == s.visited && 0 <= work(g, s2.stack) < work(g, s.stack)
        }),
        work(g, s.stack) >= 0,
{
    let s2 = search_step(g, removed, s);
    let fin2 = lemma_search_step(g, removed, s, fin);
    lemma_work_positive(g, removed, s, fin, s.stack.len() as int);
    assert(s.stack.take(s.stack.len() as int) =~= s.stack);
    lemma_work_positive(g, removed, s2, fin2, s2.stack.len() as int);
    assert(s2.stack.take(s2.stack.len() as int) =~= s2.stack);
    if s.stack.len() == 0 {
        let v = choose|v: usize| is_root(g, removed, s.visited, v);
        lemma_unseen_insert(s.visited, v, g.len());
    } else {
        let (u, i) = s.stack.last();
        if i < g[u as int].len() {
            let v = g[u as int][i as int];
            let stack = s.stack.drop_last().push((u, i + 1));
            assert(stack.drop_last() =~= s.stack.drop_last());
            if remains(g, removed, v) && !path(stack).contains(v) && !s.visited.contains(v) {
                lemma_unseen_insert(s.visited, v, g.len());
            }
        }
    }
}

/// The search ends.
proof fn lemma_search_ends(g: Graph, removed: Seq<usize>, k: nat, fin: Seq<usize>) -> (r: (
    nat,
    Seq<usize>,
))
    requires
        wf_graph(g),
        search_inv(g, removed, search(g, removed, k), fin),
    ensures
        search_over(g, removed, search(g, removed, r.0)),
        search_inv(g, removed, search(g, removed, r.0), r.1),
    decreases
            unseen(search(g, removed, k).visited, g.len()),
            work(g, search(g, removed, k).stack),
{
    let s = search(g, removed, k);
    if search_over(g, removed, s) {
        (k, fin)
    } else {
        let fin2 = lemma_search_step(g, removed, s, fin);
        lemma_search_progress(g, removed, s, fin);
        let s2 = search(g, removed, k + 1);
        assert(s2 == search_step(g, removed, s));
        if s2.ring is Some {
            (k + 1, fin2)
        } else {
            lemma_search_ends(g, removed, k + 1, fin2)
        }
    }
}

proof fn lemma_search_start(g: Graph, removed: Seq<usize>)
    ensures
        search_inv(g, removed, search(g, removed, 0), Seq::empty()),
{
    assert(path(search(g, removed, 0).stack) =~= Seq::empty());
}

proof fn lemma_all_reached(g: Graph, removed: Seq<usize>, visited: Set<usize>, k: nat)
    requires
        g.len() <= usize::MAX,
        k <= g.len(),
        !exists|v: usize| is_root(g, removed, visited, v),
    ensures
        forall|v: usize| v < k && #[trigger] remains(g, removed, v) ==> visited.contains(v),
    decreases k,
{
    if k > 0 {
        lemma_all_reached(g, removed, visited, (k - 1) as nat);
        let u = (k - 1) as usize;
        assert(!is_root(g, removed, visited, u));
        assert forall|v: usize| v < k && #[trigger] remains(
            g,
            removed,
            v,
        ) implies visited.contains(v) by {
            if v < k - 1 {
            } else {
                assert(v == u);
            }
        }
    }
}

/// Some remaining node has an edge to `v`.
pub open spec fn preceded(g: Graph, removed: Seq<usize>, v: usize) -> bool {
    exists|u: usize| remains(g, removed, u) && #[trigger] edge(g, u, v)
}

/// Some node remains, and every remaining node has a remaining predecessor.
pub open spec fn stuck(g: Graph, removed: Seq<usize>) -> bool {
    &&& exists|v: usize| remains(g, removed, v)
    &&& forall|v: usize|
        remains(g, removed, v) ==> #[trigger] preceded(g, removed, v)
}

/// What the search finds is a cycle, and it finds one wherever every remaining
/// node has a remaining predecessor.
pub proof fn lemma_ring(g: Graph, removed: Seq<usize>)
    requires
        wf_graph(g),
    ensures
        ring_of(g, removed).len() > 0 ==> is_ring(g, removed, ring_of(g, removed)),
        stuck(g, removed) ==> ring_of(g, removed).len() > 0,
{
    lemma_search_start(g, removed);
    let (k, fin) = lemma_search_ends(g, removed, 0, Seq::empty());
    lemma_ring_of(g, removed, k);
    let s = search(g, removed, k);
    if s.ring is None && stuck(g, removed) {
        lemma_all_reached(g, removed, s.visited, g.len());
        assert(path(s.stack) =~= Seq::empty());
        let w = choose|v: usize| remains(g, removed, v);
        assert(s.visited.contains(w));
        assert(fin.contains(w));
        let v = fin.last();
        assert(fin.contains(v));
        assert(s.visited.contains(v));
        assert(preceded(g, removed, v));
        let u = choose|u: usize| remains(g, removed, u) && #[trigger] edge(g, u, v);
        assert(s.visited.contains(u));
        assert(fin.contains(u));
        let i = choose|i: int| 0 <= i < fin.len() && fin[i] == u;
        assert(edge(g, fin[i], v));
        let before = fin.take(i);
        let j = choose|j: int| 0 <= j < before.len() && before[j] == v;
        assert(fin[j] == fin[fin.len() - 1]);
    }
}

/// A walk along edges between remaining nodes that comes back to where it
/// started; nodes may repeat.
pub open spec fn is_closed_walk(g: Graph, removed: Seq<usize>, walk: Seq<usize>) -> bool {
    &&& walk.len() > 0
    &&& forall|i: int| 0 <= i < walk.len() ==> remains(g, removed, #[trigger] walk[i])
    &&& forall|i: int|
        0 <= i < walk.len() - 1 ==> edge(g, #[trigger] walk[i], walk[i + 1])
    &&& edge(g, walk.last(), walk[0])
}

/// The remaining nodes hold a cycle.
pub open spec fn has_cycle(g: Graph, removed: Seq<usize>) -> bool {
    exists|walk: Seq<usize>| is_closed_walk(g, removed, walk)
}

/// Each node that is left behind has its remaining successors before it.
proof fn lemma_walk_descends(
    g: Graph,
    removed: Seq<usize>,
    s: Search,
    fin: Seq<usize>,
    walk: Seq<usize>,
    k: int,
)
    requires
        finished(g, removed, s, fin),
        forall|v: usize| remains(g, removed, v) ==> #[trigger] fin.contains(v),
        is_closed_walk(g, removed, walk),
        0 <= k < walk.len(),
    ensures
        0 <= fin.index_of(walk[k]) <= fin.index_of(walk[0]) - k,
    decreases k,
{
    assert(fin.contains(walk[k]));
    assert(fin[fin.index_of(walk[k])] == walk[k]);
    if k > 0 {
        lemma_walk_descends(g, removed, s, fin, walk, k - 1);
        lemma_edge_descends(g, removed, s, fin, walk[k - 1], walk[k]);
    }
}

proof fn lemma_edge_descends(
    g: Graph,
    removed: Seq<usize>,
    s: Search,
    fin: Seq<usize>,
    u: usize,
    v: usize,
)
    requires
        finished(g, removed, s, fin),
        fin.contains(u),
        remains(g, removed, v),
        edge(g, u, v),
    ensures
        fin.index_of(v) < fin.index_of(u),
{
    let i = fin.index_of(u);
    assert(fin[i] == u);
    assert(edge(g, fin[i], v));
    let before = fin.take(i);
    assert(before.contains(v));
    let j = choose|j: int| 0 <= j < before.len() && before[j] == v;
    assert(fin[j] == v);
    assert(fin.contains(v));
    assert(fin[fin.index_of(v)] == v);
}

/// The search is exact: it finds a cycle of distinct remaining nodes if and only
/// if the remaining nodes hold a cycle.
pub proof fn search_finds_a_cycle_iff_there_is_one(g: Graph, removed: Seq<usize>)
    requires
        wf_graph(g),
    ensures
        ring_of(g, removed).len() > 0 <==> has_cycle(g, removed),
        ring_of(g, removed).len() > 0 ==> is_ring(g, removed, ring_of(g, removed)),
{
    lemma_ring(g, removed);
    let ring = ring_of(g, removed);
    if ring.len() > 0 {
        assert(is_closed_walk(g, removed, ring));
    } else {
        lemma_search_start(g, removed);
        let (k, fin) = lemma_search_ends(g, removed, 0, Seq::empty());
        lemma_ring_of(g, removed, k);
        let s = search(g, removed, k);
        lemma_all_reached(g, removed, s.visited, g.len());
        assert(path(s.stack) =~= Seq::empty());
        assert forall|v: usize| remains(g, removed, v) implies #[trigger] fin.contains(v) by {
            assert(s.visited.contains(v));
        }
        if has_cycle(g, removed) {
            let walk = choose|walk: Seq<usize>| is_closed_walk(g, removed, walk);
            let last = walk.len() - 1;
            lemma_walk_descends(g, removed, s, fin, walk, last);
            assert(remains(g, removed, walk[last]));
            assert(remains(g, removed, walk[0]));
            lemma_edge_descends(g, removed, s, fin, walk[last], walk[0]);
        }
    }
}

/// The frames of a stack.
pub open spec fn frames(stack: Seq<(usize, usize)>) -> Seq<(usize, nat)> {
    stack.map_values(|f: (usize, usize)| (f.0, f.1 as nat))
}

/// The nodes on the path from the first occurrence of `v` on.
fn path_from(stack: &Vec<(usize, usize)>, v: usize) -> (r: Vec<usize>)
    requires
        path(frames(stack@)).contains(v),
        path(frames(stack@)).no_duplicates(),
    ensures
        r@ == path(frames(stack@)).skip(path(frames(stack@)).index_of(v)),
{
    let ghost q = path(frames(stack@));
    let mut p: usize = 0;
    while p < stack.len() && stack[p].0 != v
        invariant
            q == path(frames(stack@)),
            p <= stack@.len(),
            forall|j: int| 0 <= j < p ==> q[j] != v,
        decreases stack@.len() - p,
    {
        p = p + 1;
    }
    assert(q[q.index_of(v)] == v);
    assert(q[p as int] == v);
    let mut out: Vec<usize> = Vec::new();
    let mut j: usize = p;
    while j < stack.len()
        invariant
            q == path(frames(stack@)),
            p <= j <= stack@.len(),
            out@ == q.subrange(p as int, j as int),
        decreases stack@.len() - j,
    {
        out.push(stack[j].0);
        j = j + 1;
        assert(out@ =~= q.subrange(p as int, j as int));
    }
    assert(out@ =~= q.skip(p as int));
    out
}

/// A cycle among the nodes that are not in `removed`; empty if there is none.
pub fn find_cycle(adj: &Vec<Vec<usize>>, removed: &Vec<usize>) -> (ring: Vec<usize>)
    requires
        wf_graph(rows(adj@)),
    ensures
        ring@ == ring_of(rows(adj@), removed@),
        ring@.len() > 0 <==> has_cycle(rows(adj@), removed@),
        ring@.len() > 0 ==> is_ring(rows(adj@), removed@, ring@),
{
    proof {
        search_finds_a_cycle_iff_there_is_one(rows(adj@), removed@);
    }
    search_ring(adj, removed)
}

/// The cycle found by a depth-first search. The search keeps its own stack, so
/// the length of a cycle is not bounded by the depth of the call stack.
fn search_ring(adj: &Vec<Vec<usize>>, removed: &Vec<usize>) -> (ring: Vec<usize>)
    requires
        wf_graph(rows(adj@)),
    ensures
        ring@ == ring_of(rows(adj@), removed@),
{
    let ghost g = rows(adj@);
    let n: usize = adj.len();
    let mut allowed: Vec<bool> = Vec::new();
    let mut visited: Vec<bool> = Vec::new();
    let mut on_path: Vec<bool> = Vec::new();
    let mut i: usize = 0;
    while i < n
        invariant
            n == adj@.len(),
            i <= n,
            allowed@.len() == i,
            visited@.len() == i,
            on_path@.len() == i,
            forall|v: int| 0 <= v < i ==> allowed@[v] && !visited@[v] && !on_path@[v],
        decreases n - i,
    {
        allowed.push(true);
        visited.push(false);
        on_path.push(false);
        i = i + 1;
    }
    i = 0;
    while i < removed.len()
        invariant
            n == adj@.len(),
            allowed@.len() == n,
            i <= removed@.len(),
            forall|v: usize|
                v < n ==> #[trigger] allowed@[v as int] == !removed@.take(i as int).contains(v),
        decreases removed@.len() - i,
    {
        let u: usize = removed[i];
        assert(removed@.take(i + 1) =~= removed@.take(i as int).push(u));
        if u < n {
            allowed.set(u, false);
        }
        i = i + 1;
        proof {
            assert forall|v: usize| v < n implies #[trigger] allowed@[v as int] == !removed@.take(
                i as int,
            ).contains(v) by {
                lemma_contains_push(removed@.take(i - 1), u, v);
            }
        }
    }
    assert(removed@.take(i as int) =~= removed@);
    let mut stack: Vec<(usize, usize)> = Vec::new();
    let mut root: usize = 0;
    let ghost mut k: nat = 0;
    let ghost mut fin: Seq<usize> = Seq::empty();
    proof {
        lemma_search_start(g, removed@);
        assert(frames(stack@) =~= Seq::empty());
    }
    loop
        invariant
            g == rows(adj@),
            wf_graph(g),
            n == adj@.len(),
            allowed@.len() == n,
            visited@.len() == n,
            on_path@.len() == n,
            root <= n,
            forall|v: usize| v < n ==> #[trigger] allowed@[v as int] == remains(g, removed@, v),
            search_inv(g, removed@, search(g, removed@, k), fin),
            search(g, removed@, k).ring is None,
            search(g, removed@, k).stack == frames(stack@),
            forall|v: usize|
                v < n ==> #[trigger] visited@[v as int] == search(g, removed@, k).visited.contains(
                    v,
                ),
            forall|v: usize|
                v < n ==> #[trigger] on_path@[v as int] == path(
                    search(g, removed@, k).stack,
                ).contains(v),
            forall|v: usize|
                v < root && #[trigger] remains(g, removed@, v) ==> search(
                    g,
                    removed@,
                    k,
                ).visited.contains(v),
        decreases
                unseen(search(g, removed@, k).visited, g.len()),
                work(g, search(g, removed@, k).stack),
                n - root,
    {
        let ghost s = search(g, removed@, k);
        let ghost s2 = search(g, removed@, k + 1);
        assert(s2 == search_step(g, removed@, s));
        if stack.len() == 0 {
            if root >= n {
                assert(search_over(g, removed@, s)) by {
                    if exists|v: usize| is_root(g, removed@, s.visited, v) {
                        let v = choose|v: usize| is_root(g, removed@, s.visited, v);
                        assert(remains(g, removed@, v));
                    }
                }
                proof {
                    lemma_ring_of(g, removed@, k);
                }
                let none: Vec<usize> = Vec::new();
                assert(none@ =~= Seq::empty());
                return none;
            }
            if !allowed[root] || visited[root] {
                root = root + 1;
                continue ;
            }
            proof {
                assert(is_root(g, removed@, s.visited, root));
                let v = choose|v: usize| is_root(g, removed@, s.visited, v);
                assert(v == root) by {
                    if v < root {
                        assert(remains(g, removed@, v));
                    } else if root < v {
                        assert(remains(g, removed@, root));
                    }
                }
                fin = lemma_search_step(g, removed@, s, fin);
                lemma_unseen_insert(s.visited, v, g.len());
                k = k + 1;
            }
            visited.set(root, true);
            on_path.set(root, true);
            stack.push((root, 0));
            proof {
                assert(frames(stack@) =~= s2.stack);
                assert(path(s2.stack) =~= path(s.stack).push(root));
                assert forall|v: usize| v < n implies #[trigger] on_path@[v as int] == path(
                    s2.stack,
                ).contains(v) by {
                    lemma_contains_push(path(s.stack), root, v);
                }
            }
        } else {
            let top: usize = stack.len() - 1;
            let (u, i): (usize, usize) = stack[top];
            assert(s.stack.last() == (u, i as nat));
            assert(s.stack[top as int] == (u, i as nat));
            assert(remains(g, removed@, u));
            proof {
                if !search_over(g, removed@, s) {
                    lemma_search_progress(g, removed@, s, fin);
                }
                fin = lemma_search_step(g, removed@, s, fin);
                k = k + 1;
            }
            if i < adj[u].len() {
                let v: usize = adj[u][i];
                let ghost trail = s.stack.drop_last().push((u, (i + 1) as nat));
                stack.set(top, (u, i + 1));
                assert(g[u as int][i as int] == v);
                proof {
                    assert(frames(stack@) =~= trail);
                    assert(path(trail) =~= path(s.stack));
                }
                if allowed[v] {
                    if on_path[v] {
                        let ring = path_from(&stack, v);
                        proof {
                            lemma_ring_of(g, removed@, k);
                        }
                        return ring;
                    }
                    if !visited[v] {
                        visited.set(v, true);
                        on_path.set(v, true);
                        stack.push((v, 0));
                        proof {
                            assert(frames(stack@) =~= s2.stack);
                            assert(path(s2.stack) =~= path(s.stack).push(v));
                            assert forall|w: usize| w < n implies #[trigger] on_path@[w as int]
                                == path(s2.stack).contains(w) by {
                                lemma_contains_push(path(s.stack), v, w);
                            }
                        }
                    }
                }
            } else {
                stack.pop();
                on_path.set(u, false);
                proof {
                    assert(frames(stack@) =~= s2.stack);
                    assert(path(s.stack) =~= path(s2.stack).push(u));
                    assert forall|w: usize| w < n implies #[trigger] on_path@[w as int] == path(
                        s2.stack,
                    ).contains(w) by {
                        lemma_contains_push(path(s2.stack), u, w);
                        if w == u && path(s2.stack).contains(u) {
                            let q = path(s2.stack);
                            let a = choose|a: int| 0 <= a < q.len() && q[a] == u;
                            assert(path(s.stack)[a] == path(s.stack)[top as int]);
                        }
                    }
                }
            }
        }
    }
}

/// Kahn's algorithm gets stuck unless it removes every node.
pub proof fn lemma_stuck(g: Graph)
    requires
        wf_graph(g),
        removal_order(g).len() != g.len(),
    ensures
        stuck(g, removal_order(g)),
{
    let q = removal_order(g);
    let n = g.len();
    lemma_removal_order(g);
    if !exists|v: usize| remains(g, q, v) {
        let all = nodes(n);
        assert(all.no_duplicates());
        all.unique_seq_to_set();
        q.lemma_cardinality_of_set();
        assert forall|v: usize| all.to_set().contains(v) implies q.to_set().contains(v) by {
            assert(all.contains(v));
            assert(!remains(g, q, v));
        }
        vstd::set_lib::lemma_len_subset(all.to_set(), q.to_set());
    }
    assert forall|v: usize| remains(g, q, v) implies #[trigger] preceded(g, q, v) by {
        assert(!q.contains(v));
        assert(!ready(g, q, v));
        let u = choose|u: usize| #[trigger] edge(g, u, v) && !q.contains(u);
        assert(remains(g, q, u));
    }
}

/// Strictly ascending.
spec fn climbs(s: Seq<usize>) -> bool {
    forall|i: int, j: int| 0 <= i < j < s.len() ==> (#[trigger] s[i]) < (#[trigger] s[j])
}

proof fn lemma_filter_climbs(s: Seq<usize>, p: spec_fn(usize) -> bool)
    requires
        climbs(s),
    ensures
        climbs(s.filter(p)),
        forall|i: int| 0 <= i < s.filter(p).len() ==> s.contains(#[trigger] s.filter(p)[i]),
    decreases s.len(),
{
    reveal(Seq::filter);
    if s.len() > 0 {
        let t = s.drop_last();
        let n = t.len() as int;
        lemma_filter_climbs(t, p);
        let f = s.filter(p);
        let e = t.filter(p);
        assert forall|i: int| 0 <= i < f.len() implies s.contains(#[trigger] f[i]) by {
            if i < e.len() {
                assert(f[i] == e[i]);
                let k = choose|k: int| 0 <= k < t.len() && t[k] == e[i];
                assert(s[k] == f[i]);
            } else {
                assert(f[i] == s[n]);
            }
        }
        assert forall|i: int, j: int| 0 <= i < j < f.len() implies (#[trigger] f[i]) < (
        #[trigger] f[j]) by {
            assert(f[i] == e[i]);
            if j < e.len() {
                assert(f[j] == e[j]);
            } else {
                let k = choose|k: int| 0 <= k < t.len() && t[k] == e[i];
                assert(s[k] == t[k]);
                assert(s[k] < s[n]);
            }
        }
    }
}

/// The first `n` nodes of the order are all that `v` waits for.
pub open spec fn is_free(g: Graph, order: Seq<usize>, n: int, v: usize) -> bool {
    forall|u: usize| #[trigger] edge(g, u, v) ==> order.take(n).contains(u)
}

/// Of the nodes up to `h` removals, none comes before one that was free earlier,
/// and those that were free at once come in ascending order.
spec fn is_fair(g: Graph, q: Seq<usize>, h: int) -> bool {
    forall|i: int, j: int|
        0 <= i < j < q.len() ==> #[trigger] is_fair_pair(g, q, h, i, j)
}

spec fn is_fair_pair(g: Graph, q: Seq<usize>, h: int, i: int, j: int) -> bool {
    &&& forall|n: int| 0 <= n <= h && #[trigger] is_free(g, q, n, q[j]) ==> is_free(g, q, n, q[i])
    &&& (forall|n: int|
        0 <= n <= h ==> (#[trigger] is_free(g, q, n, q[i]) <==> is_free(g, q, n, q[j]))) ==> q[i]
        < q[j]
}

proof fn lemma_free_grows(g: Graph, q: Seq<usize>, m: int, n: int, v: usize)
    requires
        0 <= m <= n <= q.len(),
        is_free(g, q, m, v),
    ensures
        is_free(g, q, n, v),
{
    assert forall|u: usize| #[trigger] edge(g, u, v) implies q.take(n).contains(u) by {
        let k = choose|k: int| 0 <= k < q.take(m).len() && q.take(m)[k] == u;
        assert(q.take(n)[k] == u);
    }
}

proof fn lemma_fair_step(g: Graph, q: Seq<usize>, head: nat)
    requires
        wf_graph(g),
        kahn_inv(g, q, head),
        is_fair(g, q, head as int),
        head < q.len(),
    ensures
        is_fair(g, q + released(g, q, head), head as int + 1),
{
    let h = head as int;
    let done = q.take(h + 1);
    let p = |v: usize| ready(g, done, v);
    let u0 = q[h];
    let row = g[u0 as int];
    let r = released(g, q, head);
    let q2 = q + r;
    let len = q.len() as int;
    assert(u0 < g.len());
    lemma_kahn_step(g, q, head);
    assert(climbs(row)) by {
        assert forall|i: int, j: int| 0 <= i < j < row.len() implies (#[trigger] row[i]) < (
        #[trigger] row[j]) by {
            assert(g[u0 as int][i] < g[u0 as int][j]);
        }
    }
    lemma_filter_climbs(row, p);
    assert forall|n: int, v: usize| 0 <= n <= h + 1 implies (#[trigger] is_free(g, q2, n, v)
        <==> ready(g, q.take(n), v)) by {
        assert(q2.take(n) =~= q.take(n));
    }
    assert forall|n: int, v: usize| 0 <= n <= h implies (#[trigger] is_free(g, q, n, v) <==> is_free(
        g,
        q2,
        n,
        v,
    )) by {
        assert(q2.take(n) =~= q.take(n));
    }
    assert forall|i: int| 0 <= i < len implies is_free(g, q2, h, #[trigger] q2[i]) && is_free(
        g,
        q2,
        h + 1,
        q2[i],
    ) by {
        assert(q2[i] == q[i]);
        assert(q.contains(q[i]));
        assert(ready(g, q.take(h), q[i]));
        lemma_free_grows(g, q2, h, h + 1, q[i]);
    }
    assert forall|i: int| len <= i < q2.len() implies is_free(g, q2, h + 1, #[trigger] q2[i])
        && forall|n: int| 0 <= n <= h ==> !#[trigger] is_free(g, q2, n, q2[i]) by {
        let v = q2[i];
        assert(v == r[i - len]);
        assert(r.contains(v));
        lemma_filter_distinct_at(row, p, v);
        assert(row.contains(v));
        assert(v < g.len()) by {
            let k = choose|k: int| 0 <= k < row.len() && row[k] == v;
            assert(g[u0 as int][k] < g.len());
        }
        assert(!q.contains(v)) by {
            if q.contains(v) {
                let k = choose|k: int| 0 <= k < q.len() && q[k] == v;
                assert(q2[k] == q2[i]);
            }
        }
        assert(!ready(g, q.take(h), v));
        assert forall|n: int| 0 <= n <= h implies !#[trigger] is_free(g, q2, n, v) by {
            if is_free(g, q2, n, v) {
                lemma_free_grows(g, q2, n, h, v);
                assert(is_free(g, q2, h, v));
            }
        }
    }
    assert forall|i: int, j: int| 0 <= i < j < q2.len() implies #[trigger] is_fair_pair(
        g,
        q2,
        h + 1,
        i,
        j,
    ) by {
        if j < len {
            assert(q2[i] == q[i] && q2[j] == q[j]);
            assert(is_fair_pair(g, q, h, i, j));
            assert forall|n: int| 0 <= n <= h + 1 && #[trigger] is_free(
                g,
                q2,
                n,
                q2[j],
            ) implies is_free(g, q2, n, q2[i]) by {
                if n <= h {
                    assert(is_free(g, q, n, q[j]));
                }
            }
            if forall|n: int|
                0 <= n <= h + 1 ==> (#[trigger] is_free(g, q2, n, q2[i]) <==> is_free(
                    g,
                    q2,
                    n,
                    q2[j],
                )) {
                assert forall|n: int| 0 <= n <= h implies (#[trigger] is_free(g, q, n, q[i])
                    <==> is_free(g, q, n, q[j])) by {
                    assert(is_free(g, q2, n, q2[i]) <==> is_free(g, q2, n, q2[j]));
                    assert(is_free(g, q, n, q[j]) <==> is_free(g, q2, n, q[j]));
                }
            }
        } else if i < len {
            assert(is_free(g, q2, h, q2[i]) && !is_free(g, q2, h, q2[j]));
        } else {
            assert(q2[i] == r[i - len] && q2[j] == r[j - len]);
            assert forall|n: int| 0 <= n <= h + 1 && #[trigger] is_free(
                g,
                q2,
                n,
                q2[j],
            ) implies is_free(g, q2, n, q2[i]) by {
                assert(n == h + 1);
            }
        }
    }
}

proof fn lemma_filter_distinct_at(s: Seq<usize>, p: spec_fn(usize) -> bool, v: usize)
    requires
        climbs(s),
        s.filter(p).contains(v),
    ensures
        s.contains(v),
        p(v),
{
    assert(s.no_duplicates()) by {
        assert forall|i: int, j: int| 0 <= i < s.len() && 0 <= j < s.len() && i
            != j implies s[i] != s[j] by {
            if i < j {
                assert(s[i] < s[j]);
            } else {
                assert(s[j] < s[i]);
            }
        }
    }
    lemma_filter_distinct(s, p);
}

proof fn lemma_fair(g: Graph, q: Seq<usize>, head: nat)
    requires
        wf_graph(g),
        kahn_inv(g, q, head),
        is_fair(g, q, head as int),
    ensures
        is_fair(g, kahn(g, q, head), kahn(g, q, head).len() as int),
    decreases g.len() - head,
{
    lemma_no_dup_bound(q, g.len());
    if head < q.len() && head < g.len() {
        lemma_fair_step(g, q, head);
        lemma_kahn_step(g, q, head);
        lemma_fair(g, q + released(g, q, head), head + 1);
    }
}

/// Nodes are removed first come first served: of two, the one that comes first
/// was free no later, and of two that were free at once the lesser comes first.
pub proof fn removal_is_first_come_first_served(g: Graph, i: int, j: int)
    requires
        wf_graph(g),
        0 <= i < j < removal_order(g).len(),
    ensures
        ({
            let order = removal_order(g);
            &&& forall|n: int|
                0 <= n <= order.len() && #[trigger] is_free(g, order, n, order[j]) ==> is_free(
                    g,
                    order,
                    n,
                    order[i],
                )
            &&& (forall|n: int|
                0 <= n <= order.len() ==> (#[trigger] is_free(g, order, n, order[i]) <==> is_free(
                    g,
                    order,
                    n,
                    order[j],
                ))) ==> order[i] < order[j]
        }),
{
    let p = |v: usize| ready(g, Seq::empty(), v);
    let all = nodes(g.len());
    let q = all.filter(p);
    lemma_kahn_start(g);
    assert(climbs(all));
    lemma_filter_climbs(all, p);
    assert(is_fair(g, q, 0)) by {
        assert forall|a: int, b: int| 0 <= a < b < q.len() implies #[trigger] is_fair_pair(
            g,
            q,
            0,
            a,
            b,
        ) by {
            assert(q.take(0) =~= Seq::<usize>::empty());
            lemma_filter_distinct_at(all, p, q[a]);
            assert(is_free(g, q, 0, q[a]));
        }
    }
    lemma_fair(g, q, 0);
    let order = removal_order(g);
    assert(is_fair_pair(g, order, order.len() as int, i, j));
}

}
