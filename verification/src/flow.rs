//! Which callables may reach which parameters (0-CFA).
//!
//! A callback parameter stands for every callable that some call site may bind
//! to it. Binding one parameter may resolve further calls, so the relation is
//! the least one that all call sites respect.

use vstd::prelude::*;

use crate::ast::{block_view, stmt_view, FuncV, Stmt, StmtV};
use crate::ordset::NameSet;
use crate::tables::{Tables, TablesV};
use crate::text::{clone_names, has_name, names, str_eq, Name};

verus! {

/// What a call may run.
pub enum TargetV {
    Func(Name),
    Extern(Name),
}

/// A call statement.
pub struct CallV {
    pub callee: Name,
    pub args: Seq<Name>,
}

/// The call statements inside a statement, in order.
pub open spec fn stmt_calls(s: StmtV) -> Seq<CallV>
    decreases s,
{
    match s {
        StmtV::With { lock, line, body } => calls_upto(body, body.len() as int),
        StmtV::Ordered { locks, line, body } => calls_upto(body, body.len() as int),
        StmtV::Couple { class, line, body } => calls_upto(body, body.len() as int),
        StmtV::Mask { body } => calls_upto(body, body.len() as int),
        StmtV::Call { callee, args, line } => seq![CallV { callee, args }],
    }
}

/// The call statements inside the first `n` statements of a block, in order.
pub open spec fn calls_upto(block: Seq<StmtV>, n: int) -> Seq<CallV>
    decreases block, n,
{
    if 0 < n <= block.len() {
        calls_upto(block, n - 1) + stmt_calls(block[n - 1])
    } else {
        Seq::empty()
    }
}

/// The call statements of a function, in order.
pub open spec fn calls_of(f: FuncV) -> Seq<CallV> {
    calls_upto(f.body, f.body.len() as int)
}

/// After `n` rounds, calling `name` inside the function `f` may run `x`: a
/// parameter stands for what flows to it, any other name for itself.
pub open spec fn may_target(t: TablesV, n: nat, f: Name, name: Name, x: TargetV) -> bool
    decreases n, 1nat,
{
    if t.funcs.contains_key(f) && t.funcs[f].params.contains(name) {
        flows_by(t, n, f, name, x)
    } else if t.funcs.contains_key(name) {
        x == TargetV::Func(name)
    } else if t.externs.contains_key(name) {
        x == TargetV::Extern(name)
    } else {
        false
    }
}

/// Within `n` rounds, the callable `x` flows to the parameter `p` of the
/// function `f`.
pub open spec fn flows_by(t: TablesV, n: nat, f: Name, p: Name, x: TargetV) -> bool
    decreases n, 0nat,
{
    if n == 0 {
        false
    } else {
        exists|g: Name, k: int, i: int|
            #[trigger] is_binding(t, g, k, i, f, p) && may_target(
                t,
                (n - 1) as nat,
                g,
                calls_of(t.funcs[g])[k].callee,
                TargetV::Func(f),
            ) && may_target(t, (n - 1) as nat, g, calls_of(t.funcs[g])[k].args[i], x)
    }
}

/// If the call number `k` of the function `g` runs `f`, then its argument number
/// `i` is bound to the parameter `p` of `f`.
pub open spec fn is_binding(t: TablesV, g: Name, k: int, i: int, f: Name, p: Name) -> bool {
    &&& t.funcs.contains_key(g)
    &&& 0 <= k < calls_of(t.funcs[g]).len()
    &&& t.funcs.contains_key(f)
    &&& calls_of(t.funcs[g])[k].args.len() == t.funcs[f].params.len()
    &&& 0 <= i < t.funcs[f].params.len()
    &&& t.funcs[f].params[i] == p
}

/// The callable `x` may flow to the parameter `p` of the function `f`.
pub open spec fn flows(t: TablesV, f: Name, p: Name, x: TargetV) -> bool {
    exists|n: nat| flows_by(t, n, f, p, x)
}

/// The functions that may flow to the parameter `p` of the function `f`.
pub open spec fn flowing_funcs(t: TablesV, f: Name, p: Name) -> Set<Name> {
    Set::new(|g: Name| flows(t, f, p, TargetV::Func(g)))
}

/// The externs that may flow to the parameter `p` of the function `f`.
pub open spec fn flowing_externs(t: TablesV, f: Name, p: Name) -> Set<Name> {
    Set::new(|e: Name| flows(t, f, p, TargetV::Extern(e)))
}

/// A set of bindings: function, parameter, callable.
pub type Bindings = Set<(Name, Name, TargetV)>;

/// Under the bindings `b`, calling `name` inside the function `f` may run `x`.
pub open spec fn targets_under(t: TablesV, b: Bindings, f: Name, name: Name, x: TargetV) -> bool {
    if t.funcs.contains_key(f) && t.funcs[f].params.contains(name) {
        b.contains((f, name, x))
    } else if t.funcs.contains_key(name) {
        x == TargetV::Func(name)
    } else if t.externs.contains_key(name) {
        x == TargetV::Extern(name)
    } else {
        false
    }
}

/// The bindings `b` respect every call site.
pub open spec fn respected(t: TablesV, b: Bindings) -> bool {
    forall|g: Name, k: int, i: int, f: Name, p: Name, x: TargetV|
        #[trigger] is_binding(t, g, k, i, f, p) && targets_under(
            t,
            b,
            g,
            calls_of(t.funcs[g])[k].callee,
            TargetV::Func(f),
        ) && #[trigger] targets_under(t, b, g, calls_of(t.funcs[g])[k].args[i], x) ==> b.contains(
            (f, p, x),
        )
}

/// Every binding of `b` flows.
pub open spec fn justified(t: TablesV, b: Bindings) -> bool {
    forall|f: Name, p: Name, x: TargetV| #[trigger]
        b.contains((f, p, x)) ==> flows(t, f, p, x)
}

proof fn lemma_flows_more(t: TablesV, n: nat, f: Name, p: Name, x: TargetV)
    requires
        flows_by(t, n, f, p, x),
    ensures
        flows_by(t, n + 1, f, p, x),
    decreases n,
{
    let (g, k, i) = choose|g: Name, k: int, i: int|
        #[trigger] is_binding(t, g, k, i, f, p) && may_target(
            t,
            (n - 1) as nat,
            g,
            calls_of(t.funcs[g])[k].callee,
            TargetV::Func(f),
        ) && may_target(t, (n - 1) as nat, g, calls_of(t.funcs[g])[k].args[i], x);
    let c = calls_of(t.funcs[g])[k];
    if t.funcs[g].params.contains(c.callee) {
        lemma_flows_more(t, (n - 1) as nat, g, c.callee, TargetV::Func(f));
    }
    if t.funcs[g].params.contains(c.args[i]) {
        lemma_flows_more(t, (n - 1) as nat, g, c.args[i], x);
    }
    assert(may_target(t, n, g, c.callee, TargetV::Func(f)));
    assert(may_target(t, n, g, c.args[i], x));
    assert(is_binding(t, g, k, i, f, p));
}

proof fn lemma_flows_upto(t: TablesV, n: nat, m: nat, f: Name, p: Name, x: TargetV)
    requires
        flows_by(t, n, f, p, x),
        n <= m,
    ensures
        flows_by(t, m, f, p, x),
    decreases m - n,
{
    if n < m {
        lemma_flows_upto(t, n, (m - 1) as nat, f, p, x);
        lemma_flows_more(t, (m - 1) as nat, f, p, x);
    }
}

/// What one call site adds to justified bindings is justified.
proof fn lemma_binding_flows(
    t: TablesV,
    b: Bindings,
    g: Name,
    k: int,
    i: int,
    f: Name,
    p: Name,
    x: TargetV,
)
    requires
        justified(t, b),
        is_binding(t, g, k, i, f, p),
        targets_under(t, b, g, calls_of(t.funcs[g])[k].callee, TargetV::Func(f)),
        targets_under(t, b, g, calls_of(t.funcs[g])[k].args[i], x),
    ensures
        flows(t, f, p, x),
{
    let c = calls_of(t.funcs[g])[k];
    let n: nat = if t.funcs[g].params.contains(c.callee) {
        assert(b.contains((g, c.callee, TargetV::Func(f))));
        choose|n: nat| flows_by(t, n, g, c.callee, TargetV::Func(f))
    } else {
        0
    };
    let m: nat = if t.funcs[g].params.contains(c.args[i]) {
        assert(b.contains((g, c.args[i], x)));
        choose|m: nat| flows_by(t, m, g, c.args[i], x)
    } else {
        0
    };
    let h = if n < m {
        m
    } else {
        n
    };
    if t.funcs[g].params.contains(c.callee) {
        lemma_flows_upto(t, n, h, g, c.callee, TargetV::Func(f));
    }
    if t.funcs[g].params.contains(c.args[i]) {
        lemma_flows_upto(t, m, h, g, c.args[i], x);
    }
    assert(may_target(t, h, g, c.callee, TargetV::Func(f)));
    assert(may_target(t, h, g, c.args[i], x));
    assert(flows_by(t, h + 1, f, p, x));
}

proof fn lemma_flows_respected(t: TablesV, b: Bindings, n: nat, f: Name, p: Name, x: TargetV)
    requires
        respected(t, b),
        flows_by(t, n, f, p, x),
    ensures
        b.contains((f, p, x)),
    decreases n,
{
    let (g, k, i) = choose|g: Name, k: int, i: int|
        #[trigger] is_binding(t, g, k, i, f, p) && may_target(
            t,
            (n - 1) as nat,
            g,
            calls_of(t.funcs[g])[k].callee,
            TargetV::Func(f),
        ) && may_target(t, (n - 1) as nat, g, calls_of(t.funcs[g])[k].args[i], x);
    let c = calls_of(t.funcs[g])[k];
    if t.funcs[g].params.contains(c.callee) {
        lemma_flows_respected(t, b, (n - 1) as nat, g, c.callee, TargetV::Func(f));
    }
    if t.funcs[g].params.contains(c.args[i]) {
        lemma_flows_respected(t, b, (n - 1) as nat, g, c.args[i], x);
    }
    assert(targets_under(t, b, g, c.callee, TargetV::Func(f)));
    assert(targets_under(t, b, g, calls_of(t.funcs[g])[k].args[i], x));
    assert(is_binding(t, g, k, i, f, p));
}

/// Bindings that are justified and respect every call site are the flow.
proof fn lemma_least(t: TablesV, b: Bindings)
    requires
        justified(t, b),
        respected(t, b),
    ensures
        forall|f: Name, p: Name, x: TargetV| #[trigger]
            b.contains((f, p, x)) <==> flows(t, f, p, x),
{
    assert forall|f: Name, p: Name, x: TargetV| #[trigger]
        b.contains((f, p, x)) <==> flows(t, f, p, x) by {
        if flows(t, f, p, x) {
            let n = choose|n: nat| flows_by(t, n, f, p, x);
            lemma_flows_respected(t, b, n, f, p, x);
        }
    }
}

/// The flow respects every call site: what a call may bind, it binds.
pub proof fn flow_respects_calls(
    t: TablesV,
    g: Name,
    k: int,
    i: int,
    f: Name,
    p: Name,
    x: TargetV,
)
    requires
        is_binding(t, g, k, i, f, p),
        targets_under(t, flow_bindings(t), g, calls_of(t.funcs[g])[k].callee, TargetV::Func(f)),
        targets_under(t, flow_bindings(t), g, calls_of(t.funcs[g])[k].args[i], x),
    ensures
        flows(t, f, p, x),
{
    lemma_binding_flows(t, flow_bindings(t), g, k, i, f, p, x);
}

/// The flow is the least relation that respects every call site.
pub proof fn flow_is_least(t: TablesV, b: Bindings, f: Name, p: Name, x: TargetV)
    requires
        respected(t, b),
        flows(t, f, p, x),
    ensures
        b.contains((f, p, x)),
{
    let n = choose|n: nat| flows_by(t, n, f, p, x);
    lemma_flows_respected(t, b, n, f, p, x);
}

/// Only what is declared flows.
pub proof fn lemma_flow_known(t: TablesV, n: nat, f: Name, p: Name, x: TargetV)
    requires
        flows_by(t, n, f, p, x),
    ensures
        match x {
            TargetV::Func(g) => t.funcs.contains_key(g),
            TargetV::Extern(e) => t.externs.contains_key(e),
        },
    decreases n,
{
    let (g, k, i) = choose|g: Name, k: int, i: int|
        #[trigger] is_binding(t, g, k, i, f, p) && may_target(
            t,
            (n - 1) as nat,
            g,
            calls_of(t.funcs[g])[k].callee,
            TargetV::Func(f),
        ) && may_target(t, (n - 1) as nat, g, calls_of(t.funcs[g])[k].args[i], x);
    let a = calls_of(t.funcs[g])[k].args[i];
    if t.funcs[g].params.contains(a) {
        lemma_flow_known(t, (n - 1) as nat, g, a, x);
    }
}

/// All bindings that flow.
pub open spec fn flow_bindings(t: TablesV) -> Bindings {
    Set::new(|b: (Name, Name, TargetV)| flows(t, b.0, b.1, b.2))
}

/// A call statement and the function that holds it.
struct Site {
    caller: String,
    callee: String,
    args: Vec<String>,
}

impl Site {
    spec fn call(&self) -> CallV {
        CallV { callee: self.callee@, args: names(self.args@) }
    }
}

/// The call statements of a list of sites.
spec fn site_calls(sites: Seq<Site>) -> Seq<CallV> {
    sites.map_values(|s: Site| s.call())
}

/// Every site of `sites` from `lo` on is in the function `f`.
spec fn sites_in(sites: Seq<Site>, lo: int, f: Name) -> bool {
    forall|i: int| lo <= i < sites.len() ==> (#[trigger] sites[i]).caller@ == f
}

/// Appends the call statements of a block.
fn collect_calls(stmts: &Vec<Stmt>, fname: &String, out: &mut Vec<Site>)
    ensures
        site_calls(final(out)@) == site_calls(old(out)@) + calls_upto(
            block_view(stmts@),
            stmts@.len() as int,
        ),
        old(out)@.len() <= final(out)@.len(),
        final(out)@.take(old(out)@.len() as int) == old(out)@,
        sites_in(final(out)@, old(out)@.len() as int, fname@),
    decreases block_view(stmts@),
{
    let ghost start = out@;
    let ghost b = block_view(stmts@);
    let mut i: usize = 0;
    assert(site_calls(out@) =~= site_calls(start) + calls_upto(b, 0));
    assert(out@.take(start.len() as int) =~= start);
    while i < stmts.len()
        invariant
            b == block_view(stmts@),
            i <= stmts@.len(),
            site_calls(out@) == site_calls(start) + calls_upto(b, i as int),
            start.len() <= out@.len(),
            out@.take(start.len() as int) == start,
            sites_in(out@, start.len() as int, fname@),
        decreases stmts@.len() - i,
    {
        let ghost before = out@;
        assert(b[i as int] == stmt_view(stmts@[i as int]));
        assert(calls_upto(b, i + 1) == calls_upto(b, i as int) + stmt_calls(b[i as int]));
        match &stmts[i] {
            Stmt::With { lock: _, line: _, body } => {
                assert(decreases_to!(b => b[i as int]));
                collect_calls(body, fname, out);
            },
            Stmt::Ordered { locks: _, line: _, body } => {
                assert(decreases_to!(b => b[i as int]));
                collect_calls(body, fname, out);
            },
            Stmt::Couple { class: _, line: _, body } => {
                assert(decreases_to!(b => b[i as int]));
                collect_calls(body, fname, out);
            },
            Stmt::Mask { body } => {
                assert(decreases_to!(b => b[i as int]));
                collect_calls(body, fname, out);
            },
            Stmt::Call { callee, args, line: _ } => {
                let s = Site {
                    caller: fname.clone(),
                    callee: callee.clone(),
                    args: clone_names(args),
                };
                out.push(s);
                assert(site_calls(out@) =~= site_calls(before).push(s.call()));
            },
        }
        proof {
            assert(site_calls(out@) =~= site_calls(before) + stmt_calls(b[i as int]));
            assert(site_calls(out@) =~= site_calls(start) + calls_upto(b, i + 1));
            assert(out@.take(start.len() as int) =~= start) by {
                assert(out@.take(before.len() as int) =~= before);
                assert forall|k: int| 0 <= k < start.len() implies out@[k] == start[k] by {
                    assert(out@.take(before.len() as int)[k] == before[k]);
                    assert(before.take(start.len() as int)[k] == start[k]);
                }
            }
            assert forall|k: int| start.len() <= k < out@.len() implies (
            #[trigger] out@[k]).caller@ == fname@ by {
                if k < before.len() {
                    assert(out@.take(before.len() as int)[k] == before[k]);
                }
            }
        }
        i = i + 1;
    }
}

/// The sites are all call statements of the functions.
spec fn all_sites(t: TablesV, sites: Seq<Site>) -> bool {
    &&& forall|j: int|
        0 <= j < sites.len() ==> t.funcs.contains_key((#[trigger] sites[j]).caller@) && calls_of(
            t.funcs[sites[j].caller@],
        ).contains(sites[j].call())
    &&& forall|g: Name, k: int|
        t.funcs.contains_key(g) && 0 <= k < calls_of(t.funcs[g]).len() ==> has_site(
            sites,
            g,
            #[trigger] calls_of(t.funcs[g])[k],
        )
}

/// One of the sites is the call `c` in the function `g`.
spec fn has_site(sites: Seq<Site>, g: Name, c: CallV) -> bool {
    exists|j: int|
        0 <= j < sites.len() && (#[trigger] sites[j]).caller@ == g && sites[j].call() == c
}

/// The call statements of all functions.
fn call_sites(t: &Tables) -> (r: Vec<Site>)
    requires
        t.wf(),
    ensures
        all_sites(t.value(), r@),
{
    let ghost v = t.value();
    let ghost q = t.funcs.key_seq();
    let mut out: Vec<Site> = Vec::new();
    let mut i: usize = 0;
    while i < t.funcs.keys.len()
        invariant
            t.wf(),
            v == t.value(),
            q == t.funcs.key_seq(),
            i <= q.len(),
            forall|j: int|
                0 <= j < out@.len() ==> v.funcs.contains_key((#[trigger] out@[j]).caller@)
                    && calls_of(v.funcs[out@[j].caller@]).contains(out@[j].call()),
            forall|h: int, k: int|
                0 <= h < i && 0 <= k < calls_of(v.funcs[q[h]]).len() ==> has_site(
                    out@,
                    q[h],
                    #[trigger] calls_of(v.funcs[q[h]])[k],
                ),
        decreases q.len() - i,
    {
        let name = &t.funcs.keys[i];
        let ghost before = out@;
        proof {
            t.funcs.lemma_at(i as int);
        }
        match t.func(name.as_str()) {
            Some(f) => {
                collect_calls(&f.body, name, &mut out);
                proof {
                    let cs = calls_of(v.funcs[name@]);
                    assert(site_calls(out@) == site_calls(before) + cs);
                    assert(out@.len() == before.len() + cs.len()) by {
                        assert(site_calls(out@).len() == out@.len());
                        assert(site_calls(before).len() == before.len());
                    }
                    assert forall|j: int| 0 <= j < out@.len() implies v.funcs.contains_key(
                        (#[trigger] out@[j]).caller@,
                    ) && calls_of(v.funcs[out@[j].caller@]).contains(out@[j].call()) by {
                        if j < before.len() {
                            assert(out@.take(before.len() as int)[j] == before[j]);
                        } else {
                            assert(site_calls(out@)[j] == cs[j - before.len()]);
                        }
                    }
                    assert forall|h: int, k: int|
                        0 <= h < i + 1 && 0 <= k < calls_of(
                            v.funcs[q[h]],
                        ).len() implies has_site(
                        out@,
                        q[h],
                        #[trigger] calls_of(v.funcs[q[h]])[k],
                    ) by {
                        if h < i {
                            let c = calls_of(v.funcs[q[h]])[k];
                            assert(has_site(before, q[h], c));
                            let j = choose|j: int|
                                0 <= j < before.len() && (#[trigger] before[j]).caller@ == q[h]
                                    && before[j].call() == c;
                            assert(out@.take(before.len() as int)[j] == before[j]);
                            assert(out@[j].caller@ == q[h]);
                        } else {
                            let j = before.len() + k;
                            assert(site_calls(out@)[j] == cs[k]);
                            assert(out@[j].caller@ == q[h]);
                        }
                    }
                }
            },
            None => {},
        }
        i = i + 1;
    }
    proof {
        assert forall|g: Name, k: int|
            v.funcs.contains_key(g) && 0 <= k < calls_of(v.funcs[g]).len() implies has_site(
            out@,
            g,
            #[trigger] calls_of(v.funcs[g])[k],
        ) by {
            assert(q.contains(g));
            let h = choose|h: int| 0 <= h < q.len() && q[h] == g;
            assert(has_site(out@, q[h], calls_of(v.funcs[q[h]])[k]));
        }
    }
    out
}

/// What a call may run.
pub struct Targets {
    pub funcs: NameSet,
    pub externs: NameSet,
}

impl Targets {
    pub open spec fn wf(&self) -> bool {
        self.funcs.wf() && self.externs.wf()
    }

    /// `x` is one of the targets.
    pub open spec fn has(&self, x: TargetV) -> bool {
        match x {
            TargetV::Func(f) => self.funcs@.contains(f),
            TargetV::Extern(e) => self.externs@.contains(e),
        }
    }

    /// Every target is declared.
    pub open spec fn known(&self, t: TablesV) -> bool {
        &&& self.funcs@.subset_of(t.funcs.dom())
        &&& self.externs@.subset_of(t.externs.dom())
    }

    fn none() -> (r: Targets)
        ensures
            r.wf(),
            r.funcs@ == Set::<Name>::empty(),
            r.externs@ == Set::<Name>::empty(),
    {
        Targets { funcs: NameSet::new(), externs: NameSet::new() }
    }

    fn copy(&self) -> (r: Targets)
        requires
            self.wf(),
        ensures
            r.wf(),
            r.funcs@ == self.funcs@,
            r.externs@ == self.externs@,
    {
        Targets { funcs: self.funcs.copy(), externs: self.externs.copy() }
    }
}

/// What flows to one parameter.
pub struct Cell {
    pub func: String,
    pub param: String,
    pub targets: Targets,
}

/// What flows to every parameter.
pub struct Flow {
    pub cells: Vec<Cell>,
}

/// `c` is the cell of the parameter `p` of the function `f`.
pub open spec fn is_cell(c: Cell, f: Name, p: Name) -> bool {
    c.func@ == f && c.param@ == p
}

/// The bindings that the cells hold.
pub open spec fn bindings(cells: Seq<Cell>) -> Bindings {
    Set::new(
        |b: (Name, Name, TargetV)|
            exists|i: int|
                0 <= i < cells.len() && is_cell(#[trigger] cells[i], b.0, b.1)
                    && cells[i].targets.has(b.2),
    )
}

/// Some cell is that of the parameter `p` of the function `f`.
pub open spec fn has_cell(cells: Seq<Cell>, f: Name, p: Name) -> bool {
    exists|i: int| 0 <= i < cells.len() && is_cell(#[trigger] cells[i], f, p)
}

/// How many targets the cells could still gain.
spec fn cell_room(cells: Seq<Cell>, nf: nat, ne: nat) -> int
    decreases cells.len(),
{
    if cells.len() == 0 {
        0
    } else {
        cell_room(cells.drop_last(), nf, ne) + nf - cells.last().targets.funcs@.len() + ne
            - cells.last().targets.externs@.len()
    }
}

proof fn lemma_cell_room(a: Seq<Cell>, b: Seq<Cell>, i: int, nf: nat, ne: nat)
    requires
        0 <= i < a.len(),
        a.len() == b.len(),
        forall|j: int| 0 <= j < a.len() && j != i ==> a[j] == b[j],
    ensures
        cell_room(b, nf, ne) == cell_room(a, nf, ne) + a[i].targets.funcs@.len()
            + a[i].targets.externs@.len() - b[i].targets.funcs@.len()
            - b[i].targets.externs@.len(),
    decreases a.len(),
{
    if i < a.len() - 1 {
        lemma_cell_room(a.drop_last(), b.drop_last(), i, nf, ne);
    } else {
        assert(a.drop_last() =~= b.drop_last());
    }
}

proof fn lemma_cell_room_bound(cells: Seq<Cell>, fs: Seq<Name>, es: Seq<Name>)
    requires
        forall|i: int|
            0 <= i < cells.len() ==> (#[trigger] cells[i]).targets.funcs@.subset_of(fs.to_set())
                && cells[i].targets.externs@.subset_of(es.to_set()),
    ensures
        cell_room(cells, fs.len(), es.len()) >= 0,
    decreases cells.len(),
{
    if cells.len() > 0 {
        let c = cells.last();
        assert(cells[cells.len() - 1] == c);
        assert forall|i: int| 0 <= i < cells.drop_last().len() implies (
        #[trigger] cells.drop_last()[i]).targets.funcs@.subset_of(fs.to_set())
            && cells.drop_last()[i].targets.externs@.subset_of(es.to_set()) by {
            assert(cells[i] == cells.drop_last()[i]);
        }
        lemma_cell_room_bound(cells.drop_last(), fs, es);
        fs.lemma_cardinality_of_set();
        es.lemma_cardinality_of_set();
        vstd::set_lib::lemma_len_subset(c.targets.funcs@, fs.to_set());
        vstd::set_lib::lemma_len_subset(c.targets.externs@, es.to_set());
    }
}

proof fn lemma_union_len(a: Set<Name>, b: Set<Name>)
    requires
        a.finite(),
        b.finite(),
    ensures
        a.union(b).finite(),
        a.union(b).len() >= a.len(),
        !b.subset_of(a) ==> a.union(b).len() > a.len(),
{
    let u = a.union(b);
    assert(u.finite());
    assert(a.subset_of(u));
    vstd::set_lib::lemma_len_subset(a, u);
    if !b.subset_of(a) {
        let x = choose|x: Name| b.contains(x) && !a.contains(x);
        assert(a.insert(x).subset_of(u));
        vstd::set_lib::lemma_len_subset(a.insert(x), u);
    }
}

impl Flow {
    /// There is one cell for each parameter of each function, and every target
    /// is declared.
    pub open spec fn wf(&self, t: TablesV) -> bool {
        &&& forall|i: int|
            0 <= i < self.cells@.len() ==> (#[trigger] self.cells@[i]).targets.wf()
                && self.cells@[i].targets.known(t)
        &&& forall|i: int, j: int|
            0 <= i < self.cells@.len() && 0 <= j < self.cells@.len() && i != j ==> !is_cell(
                #[trigger] self.cells@[i],
                (#[trigger] self.cells@[j]).func@,
                self.cells@[j].param@,
            )
        &&& forall|f: Name, p: Name| #[trigger]
            t.funcs.contains_key(f) && #[trigger] t.funcs[f].params.contains(p) ==> has_cell(
                self.cells@,
                f,
                p,
            )
    }

    fn find(&self, f: &str, p: &str) -> (r: Option<usize>)
        ensures
            match r {
                Some(i) => i < self.cells@.len() && is_cell(self.cells@[i as int], f@, p@),
                None => !has_cell(self.cells@, f@, p@),
            },
    {
        let mut i: usize = 0;
        while i < self.cells.len()
            invariant
                i <= self.cells@.len(),
                forall|j: int| 0 <= j < i ==> !is_cell(#[trigger] self.cells@[j], f@, p@),
            decreases self.cells@.len() - i,
        {
            if str_eq(self.cells[i].func.as_str(), f) && str_eq(self.cells[i].param.as_str(), p) {
                return Some(i);
            }
            i = i + 1;
        }
        None
    }

    /// What is bound to the parameter `p` of the function `f`.
    pub fn bound(&self, t: &Tables, f: &str, p: &str) -> (r: Targets)
        requires
            t.wf(),
            self.wf(t.value()),
        ensures
            r.wf(),
            r.known(t.value()),
            forall|x: TargetV| r.has(x) <==> #[trigger] bindings(self.cells@).contains((f@, p@, x)),
    {
        match self.find(f, p) {
            Some(i) => {
                let r = self.cells[i].targets.copy();
                assert(self.cells@[i as int].targets.known(t.value()));
                assert forall|x: TargetV| r.has(x) <==> #[trigger] bindings(self.cells@).contains(
                    (f@, p@, x),
                ) by {
                    assert(r.has(x) == self.cells@[i as int].targets.has(x));
                    if bindings(self.cells@).contains((f@, p@, x)) {
                        let j = choose|j: int|
                            0 <= j < self.cells@.len() && is_cell(
                                #[trigger] self.cells@[j],
                                f@,
                                p@,
                            ) && self.cells@[j].targets.has(x);
                        if j != i {
                            assert(!is_cell(
                                self.cells@[i as int],
                                self.cells@[j].func@,
                                self.cells@[j].param@,
                            ));
                        }
                    }
                }
                r
            },
            None => Targets::none(),
        }
    }

    /// What calling `name` inside the function `f` may run.
    fn targets(&self, t: &Tables, f: &str, name: &str) -> (r: Targets)
        requires
            t.wf(),
            self.wf(t.value()),
        ensures
            r.wf(),
            r.known(t.value()),
            forall|x: TargetV| r.has(x) <==> #[trigger] targets_under(
                t.value(),
                bindings(self.cells@),
                f@,
                name@,
                x,
            ),
    {
        let is_param = match t.func(f) {
            Some(func) => has_name(&func.params, name),
            None => false,
        };
        if is_param {
            let r = self.bound(t, f, name);
            assert forall|x: TargetV| r.has(x) <==> #[trigger] targets_under(
                t.value(),
                bindings(self.cells@),
                f@,
                name@,
                x,
            ) by {
                assert(r.has(x) <==> bindings(self.cells@).contains((f@, name@, x)));
            }
            return r;
        }
        let mut r = Targets::none();
        if t.funcs.contains_key(name) {
            let _ = r.funcs.insert(name);
        } else if t.externs.contains_key(name) {
            let _ = r.externs.insert(name);
        }
        r
    }

    /// Adds targets to the parameter `p` of the function `f`; the result says
    /// whether any was new.
    fn bind(&mut self, t: &Tables, f: &str, p: &str, ts: &Targets) -> (changed: bool)
        requires
            t.wf(),
            old(self).wf(t.value()),
            ts.wf(),
            ts.known(t.value()),
            has_cell(old(self).cells@, f@, p@),
        ensures
            final(self).wf(t.value()),
            forall|b: (Name, Name, TargetV)| #[trigger]
                bindings(final(self).cells@).contains(b) <==> bindings(old(self).cells@).contains(b)
                    || (b.0 == f@ && b.1 == p@ && ts.has(b.2)),
            changed ==> exists|x: TargetV|
                ts.has(x) && !#[trigger] bindings(old(self).cells@).contains((f@, p@, x)),
            !changed ==> bindings(final(self).cells@) == bindings(old(self).cells@),
            forall|nf: nat, ne: nat|
                cell_room(final(self).cells@, nf, ne) <= #[trigger] cell_room(
                    old(self).cells@,
                    nf,
                    ne,
                ),
            changed ==> forall|nf: nat, ne: nat|
                cell_room(final(self).cells@, nf, ne) < #[trigger] cell_room(
                    old(self).cells@,
                    nf,
                    ne,
                ),
    {
        let ghost before = self.cells@;
        let found = self.find(f, p);
        if found.is_none() {
            return false;
        }
        let i: usize = found.unwrap();
        let mut cell = self.cells.remove(i);
        let ghost c0 = cell;
        let new_funcs = cell.targets.funcs.extend(&ts.funcs);
        let new_externs = cell.targets.externs.extend(&ts.externs);
        self.cells.insert(i, cell);
        let changed = new_funcs || new_externs;
        proof {
            assert(before[i as int] == c0);
            assert(self.cells@ =~= before.update(i as int, cell));
            let now = self.cells@;
            assert forall|b: (Name, Name, TargetV)| #[trigger]
                bindings(now).contains(b) <==> bindings(before).contains(b) || (b.0 == f@ && b.1
                    == p@ && ts.has(b.2)) by {
                if bindings(now).contains(b) {
                    let j = choose|j: int|
                        0 <= j < now.len() && is_cell(#[trigger] now[j], b.0, b.1)
                            && now[j].targets.has(b.2);
                    if j != i {
                        assert(before[j] == now[j]);
                    } else if c0.targets.has(b.2) {
                        assert(is_cell(before[i as int], b.0, b.1));
                    }
                }
                if bindings(before).contains(b) {
                    let j = choose|j: int|
                        0 <= j < before.len() && is_cell(#[trigger] before[j], b.0, b.1)
                            && before[j].targets.has(b.2);
                    assert(is_cell(now[j], b.0, b.1) && now[j].targets.has(b.2));
                }
                if b.0 == f@ && b.1 == p@ && ts.has(b.2) {
                    assert(is_cell(now[i as int], b.0, b.1) && now[i as int].targets.has(b.2));
                }
            }
            lemma_bindings_of_cell(before, i as int, f@, p@);
            if new_funcs {
                let g = choose|g: Name|
                    ts.funcs@.contains(g) && !c0.targets.funcs@.contains(g);
                assert(!bindings(before).contains((f@, p@, TargetV::Func(g))));
            }
            if new_externs {
                let g = choose|g: Name|
                    ts.externs@.contains(g) && !c0.targets.externs@.contains(g);
                assert(!bindings(before).contains((f@, p@, TargetV::Extern(g))));
            }
            if !changed {
                assert forall|b: (Name, Name, TargetV)| bindings(now).contains(b) <==> bindings(
                    before,
                ).contains(b) by {
                    if b.0 == f@ && b.1 == p@ && ts.has(b.2) {
                        assert(c0.targets.has(b.2));
                        assert(bindings(before).contains((f@, p@, b.2)));
                    }
                }
                assert(bindings(now) =~= bindings(before));
            }
            assert forall|a: Name, b: Name| #[trigger]
                t.value().funcs.contains_key(a) && #[trigger] t.value().funcs[a].params.contains(
                    b,
                ) implies has_cell(now, a, b) by {
                assert(has_cell(before, a, b));
                let j = choose|j: int| 0 <= j < before.len() && is_cell(#[trigger] before[j], a, b);
                assert(is_cell(now[j], a, b));
            }
            assert forall|a: int, b: int|
                0 <= a < now.len() && 0 <= b < now.len() && a != b implies !is_cell(
                #[trigger] now[a],
                (#[trigger] now[b]).func@,
                now[b].param@,
            ) by {
                assert(!is_cell(before[a], before[b].func@, before[b].param@));
            }
            assert forall|a: int| 0 <= a < now.len() implies (#[trigger] now[a]).targets.wf()
                && now[a].targets.known(t.value()) by {
                assert(before[a].targets.known(t.value()));
            }
            lemma_union_len(c0.targets.funcs@, ts.funcs@);
            lemma_union_len(c0.targets.externs@, ts.externs@);
            assert forall|nf: nat, ne: nat|
                cell_room(now, nf, ne) <= #[trigger] cell_room(before, nf, ne) && (changed
                    ==> cell_room(now, nf, ne) < cell_room(before, nf, ne)) by {
                lemma_cell_room(before, now, i as int, nf, ne);
            }
        }
        changed
    }
}

proof fn lemma_bindings_of_cell(cells: Seq<Cell>, i: int, f: Name, p: Name)
    requires
        0 <= i < cells.len(),
        is_cell(cells[i], f, p),
        forall|a: int, b: int|
            0 <= a < cells.len() && 0 <= b < cells.len() && a != b ==> !is_cell(
                #[trigger] cells[a],
                (#[trigger] cells[b]).func@,
                cells[b].param@,
            ),
    ensures
        forall|x: TargetV| #[trigger]
            bindings(cells).contains((f, p, x)) <==> cells[i].targets.has(x),
{
    assert forall|x: TargetV| #[trigger]
        bindings(cells).contains((f, p, x)) <==> cells[i].targets.has(x) by {
        if bindings(cells).contains((f, p, x)) {
            let j = choose|j: int|
                0 <= j < cells.len() && is_cell(#[trigger] cells[j], f, p)
                    && cells[j].targets.has(x);
            if j != i {
                assert(!is_cell(cells[i], cells[j].func@, cells[j].param@));
            }
        }
    }
}

/// The bindings `b` respect the call `c` in the function `g`, where it runs `f`.
spec fn call_respected(t: TablesV, b: Bindings, g: Name, c: CallV, f: Name) -> bool {
    t.funcs.contains_key(f) && c.args.len() == t.funcs[f].params.len() && targets_under(
        t,
        b,
        g,
        c.callee,
        TargetV::Func(f),
    ) ==> args_respected(t, b, g, c, f, t.funcs[f].params.len() as int)
}

/// The bindings `b` respect the call at `s`, whichever function it runs.
spec fn site_respected(t: TablesV, b: Bindings, s: Site) -> bool {
    forall|f: Name| call_respected(t, b, s.caller@, s.call(), f)
}

/// The first `n` arguments of the call are bound to the parameters of `f`.
spec fn args_respected(t: TablesV, b: Bindings, g: Name, c: CallV, f: Name, n: int) -> bool {
    forall|i: int, x: TargetV|
        0 <= i < n && #[trigger] targets_under(t, b, g, c.args[i], x) ==> b.contains(
            (f, t.funcs[f].params[i], x),
        )
}

proof fn lemma_respected(t: TablesV, b: Bindings, sites: Seq<Site>)
    requires
        all_sites(t, sites),
        forall|j: int| 0 <= j < sites.len() ==> site_respected(t, b, #[trigger] sites[j]),
    ensures
        respected(t, b),
{
    assert forall|g: Name, k: int, i: int, f: Name, p: Name, x: TargetV|
        #[trigger] is_binding(t, g, k, i, f, p) && targets_under(
            t,
            b,
            g,
            calls_of(t.funcs[g])[k].callee,
            TargetV::Func(f),
        ) && #[trigger] targets_under(
            t,
            b,
            g,
            calls_of(t.funcs[g])[k].args[i],
            x,
        ) implies b.contains((f, p, x)) by {
        let c = calls_of(t.funcs[g])[k];
        assert(has_site(sites, g, c));
        let j = choose|j: int|
            0 <= j < sites.len() && (#[trigger] sites[j]).caller@ == g && sites[j].call() == c;
        assert(call_respected(t, b, sites[j].caller@, sites[j].call(), f));
        assert(targets_under(t, b, g, c.args[i], x));
    }
}

impl Flow {
    /// Binds the arguments of one call to the parameters of the function
    /// `tname`, which it may run.
    fn bind_args(&mut self, t: &Tables, site: &Site, tname: &str, params: &Vec<String>) -> (changed:
        bool)
        requires
            t.wf(),
            old(self).wf(t.value()),
            justified(t.value(), bindings(old(self).cells@)),
            t.value().funcs.contains_key(site.caller@),
            calls_of(t.value().funcs[site.caller@]).contains(site.call()),
            t.value().funcs.contains_key(tname@),
            t.value().funcs[tname@].params == names(params@),
            params@.len() == site.args@.len(),
            targets_under(
                t.value(),
                bindings(old(self).cells@),
                site.caller@,
                site.callee@,
                TargetV::Func(tname@),
            ),
        ensures
            final(self).wf(t.value()),
            justified(t.value(), bindings(final(self).cells@)),
            bindings(old(self).cells@).subset_of(bindings(final(self).cells@)),
            !changed ==> bindings(final(self).cells@) == bindings(old(self).cells@)
                && call_respected(
                t.value(),
                bindings(old(self).cells@),
                site.caller@,
                site.call(),
                tname@,
            ),
            forall|nf: nat, ne: nat|
                cell_room(final(self).cells@, nf, ne) <= #[trigger] cell_room(
                    old(self).cells@,
                    nf,
                    ne,
                ),
            changed ==> forall|nf: nat, ne: nat|
                cell_room(final(self).cells@, nf, ne) < #[trigger] cell_room(
                    old(self).cells@,
                    nf,
                    ne,
                ),
    {
        let ghost v = t.value();
        let ghost g = site.caller@;
        let ghost c = site.call();
        let ghost start = bindings(self.cells@);
        let ghost k = calls_of(v.funcs[g]).index_of(c);
        let mut changed: bool = false;
        let mut i: usize = 0;
        while i < params.len()
            invariant
                t.wf(),
                v == t.value(),
                g == site.caller@,
                c == site.call(),
                start == bindings(old(self).cells@),
                v.funcs.contains_key(g),
                calls_of(v.funcs[g]).contains(c),
                k == calls_of(v.funcs[g]).index_of(c),
                v.funcs.contains_key(tname@),
                v.funcs[tname@].params == names(params@),
                params@.len() == site.args@.len(),
                targets_under(v, start, g, c.callee, TargetV::Func(tname@)),
                i <= params@.len(),
                self.wf(v),
                justified(v, bindings(self.cells@)),
                start.subset_of(bindings(self.cells@)),
                !changed ==> bindings(self.cells@) == start && args_respected(
                    v,
                    start,
                    g,
                    c,
                    tname@,
                    i as int,
                ),
                forall|nf: nat, ne: nat|
                    cell_room(self.cells@, nf, ne) <= #[trigger] cell_room(
                        old(self).cells@,
                        nf,
                        ne,
                    ),
                changed ==> forall|nf: nat, ne: nat|
                    cell_room(self.cells@, nf, ne) < #[trigger] cell_room(
                        old(self).cells@,
                        nf,
                        ne,
                    ),
            decreases params@.len() - i,
        {
            let ghost before = bindings(self.cells@);
            let ghost cells0 = self.cells@;
            let p = params[i].as_str();
            let a = site.args[i].as_str();
            assert(names(params@)[i as int] == p@);
            assert(names(site.args@)[i as int] == a@);
            let ats = self.targets(t, site.caller.as_str(), a);
            assert(v.funcs[tname@].params.contains(p@));
            let ch = self.bind(t, tname, p, &ats);
            proof {
                let now = bindings(self.cells@);
                assert(calls_of(v.funcs[g])[k] == c);
                assert(is_binding(v, g, k, i as int, tname@, p@));
                assert(targets_under(v, before, g, c.callee, TargetV::Func(tname@)));
                assert forall|f: Name, q: Name, x: TargetV| #[trigger]
                    now.contains((f, q, x)) implies flows(v, f, q, x) by {
                    if !before.contains((f, q, x)) {
                        assert(ats.has(x));
                        assert(targets_under(v, before, g, a@, x));
                        lemma_binding_flows(v, before, g, k, i as int, f, q, x);
                    }
                }
                assert forall|nf: nat, ne: nat|
                    cell_room(self.cells@, nf, ne) <= #[trigger] cell_room(
                        old(self).cells@,
                        nf,
                        ne,
                    ) && (changed || ch ==> cell_room(self.cells@, nf, ne) < cell_room(
                        old(self).cells@,
                        nf,
                        ne,
                    )) by {
                    assert(cell_room(cells0, nf, ne) <= cell_room(old(self).cells@, nf, ne));
                }
                if !changed && !ch {
                    assert forall|j: int, x: TargetV|
                        0 <= j < i + 1 && #[trigger] targets_under(
                            v,
                            start,
                            g,
                            c.args[j],
                            x,
                        ) implies start.contains((tname@, v.funcs[tname@].params[j], x)) by {
                        if j == i {
                            assert(ats.has(x));
                            assert(now.contains((tname@, p@, x)));
                        }
                    }
                }
            }
            if ch {
                changed = true;
            }
            i = i + 1;
        }
        changed
    }

    /// Binds the arguments of one call to the parameters of every function that
    /// it may run.
    fn bind_call(&mut self, t: &Tables, site: &Site) -> (changed: bool)
        requires
            t.wf(),
            old(self).wf(t.value()),
            justified(t.value(), bindings(old(self).cells@)),
            t.value().funcs.contains_key(site.caller@),
            calls_of(t.value().funcs[site.caller@]).contains(site.call()),
        ensures
            final(self).wf(t.value()),
            justified(t.value(), bindings(final(self).cells@)),
            !changed ==> bindings(final(self).cells@) == bindings(old(self).cells@)
                && site_respected(t.value(), bindings(old(self).cells@), *site),
            forall|nf: nat, ne: nat|
                cell_room(final(self).cells@, nf, ne) <= #[trigger] cell_room(
                    old(self).cells@,
                    nf,
                    ne,
                ),
            changed ==> forall|nf: nat, ne: nat|
                cell_room(final(self).cells@, nf, ne) < #[trigger] cell_room(
                    old(self).cells@,
                    nf,
                    ne,
                ),
    {
        let ghost v = t.value();
        let ghost g = site.caller@;
        let ghost c = site.call();
        let ghost start = bindings(self.cells@);
        let ts = self.targets(t, site.caller.as_str(), site.callee.as_str());
        let fs = &ts.funcs.items;
        let ghost q = names(fs@);
        let mut changed: bool = false;
        let mut h: usize = 0;
        while h < fs.len()
            invariant
                t.wf(),
                v == t.value(),
                g == site.caller@,
                c == site.call(),
                start == bindings(old(self).cells@),
                v.funcs.contains_key(g),
                calls_of(v.funcs[g]).contains(c),
                fs == &ts.funcs.items,
                q == names(fs@),
                ts.known(v),
                forall|x: TargetV| ts.has(x) <==> #[trigger] targets_under(
                    v,
                    start,
                    g,
                    c.callee,
                    x,
                ),
                h <= fs@.len(),
                self.wf(v),
                justified(v, bindings(self.cells@)),
                start.subset_of(bindings(self.cells@)),
                !changed ==> bindings(self.cells@) == start && forall|j: int|
                    0 <= j < h ==> call_respected(v, start, g, c, #[trigger] q[j]),
                forall|nf: nat, ne: nat|
                    cell_room(self.cells@, nf, ne) <= #[trigger] cell_room(
                        old(self).cells@,
                        nf,
                        ne,
                    ),
                changed ==> forall|nf: nat, ne: nat|
                    cell_room(self.cells@, nf, ne) < #[trigger] cell_room(
                        old(self).cells@,
                        nf,
                        ne,
                    ),
            decreases fs@.len() - h,
        {
            let tname = fs[h].as_str();
            let ghost cells0 = self.cells@;
            assert(q[h as int] == tname@);
            assert(ts.funcs@.contains(tname@));
            assert(ts.has(TargetV::Func(tname@)));
            assert(targets_under(v, start, g, c.callee, TargetV::Func(tname@)));
            assert(targets_under(v, bindings(cells0), g, c.callee, TargetV::Func(tname@)));
            let mut ch: bool = false;
            match t.func(tname) {
                Some(f) => {
                    if f.params.len() == site.args.len() {
                        ch = self.bind_args(t, site, tname, &f.params);
                    }
                },
                None => {},
            }
            proof {
                assert forall|nf: nat, ne: nat|
                    cell_room(self.cells@, nf, ne) <= #[trigger] cell_room(
                        old(self).cells@,
                        nf,
                        ne,
                    ) && (changed || ch ==> cell_room(self.cells@, nf, ne) < cell_room(
                        old(self).cells@,
                        nf,
                        ne,
                    )) by {
                    assert(cell_room(cells0, nf, ne) <= cell_room(old(self).cells@, nf, ne));
                }
            }
            if ch {
                changed = true;
            }
            h = h + 1;
        }
        proof {
            if !changed {
                assert forall|f: Name| call_respected(v, start, g, c, f) by {
                    if targets_under(v, start, g, c.callee, TargetV::Func(f)) {
                        assert(ts.has(TargetV::Func(f)));
                        assert(q.contains(f));
                        let j = choose|j: int| 0 <= j < q.len() && q[j] == f;
                        assert(call_respected(v, start, g, c, q[j]));
                    }
                }
            }
        }
        changed
    }

    /// Nothing bound yet: one empty cell for each parameter of each function.
    fn empty(t: &Tables) -> (r: Flow)
        requires
            t.wf(),
        ensures
            r.wf(t.value()),
            bindings(r.cells@) == Set::<(Name, Name, TargetV)>::empty(),
    {
        let ghost v = t.value();
        let ghost q = t.funcs.key_seq();
        let mut flow = Flow { cells: Vec::new() };
        let mut h: usize = 0;
        while h < t.funcs.keys.len()
            invariant
                t.wf(),
                v == t.value(),
                q == t.funcs.key_seq(),
                h <= q.len(),
                flow.bare(),
                forall|a: int, p: Name|
                    0 <= a < h && #[trigger] v.funcs[q[a]].params.contains(p) ==> has_cell(
                        flow.cells@,
                        q[a],
                        p,
                    ),
            decreases q.len() - h,
        {
            let name = &t.funcs.keys[h];
            proof {
                t.funcs.lemma_at(h as int);
            }
            match t.func(name.as_str()) {
                Some(f) => {
                    let ghost ps = names(f.params@);
                    let ghost cells0 = flow.cells@;
                    let mut i: usize = 0;
                    while i < f.params.len()
                        invariant
                            ps == names(f.params@),
                            i <= f.params@.len(),
                            flow.bare(),
                            forall|a: Name, b: Name|
                                has_cell(cells0, a, b) ==> #[trigger] has_cell(flow.cells@, a, b),
                            forall|j: int| 0 <= j < i ==> has_cell(
                                flow.cells@,
                                name@,
                                #[trigger] ps[j],
                            ),
                        decreases f.params@.len() - i,
                    {
                        assert(ps[i as int] == f.params@[i as int]@);
                        flow.add_cell(name, &f.params[i]);
                        i = i + 1;
                    }
                    assert forall|a: int, p: Name|
                        0 <= a < h + 1 && #[trigger] v.funcs[q[a]].params.contains(
                            p,
                        ) implies has_cell(flow.cells@, q[a], p) by {
                        if a == h {
                            let j = choose|j: int| 0 <= j < ps.len() && ps[j] == p;
                            assert(has_cell(flow.cells@, name@, ps[j]));
                        } else {
                            assert(has_cell(cells0, q[a], p));
                        }
                    }
                },
                None => {},
            }
            h = h + 1;
        }
        proof {
            assert forall|f: Name, p: Name| #[trigger]
                v.funcs.contains_key(f) && #[trigger] v.funcs[f].params.contains(p) implies has_cell(
                flow.cells@,
                f,
                p,
            ) by {
                assert(q.contains(f));
                let a = choose|a: int| 0 <= a < q.len() && q[a] == f;
                assert(v.funcs[q[a]].params.contains(p));
            }
            assert(bindings(flow.cells@) =~= Set::empty());
        }
        flow
    }

    /// The cells hold nothing, and no two belong to the same parameter.
    spec fn bare(&self) -> bool {
        &&& forall|i: int|
            0 <= i < self.cells@.len() ==> (#[trigger] self.cells@[i]).targets.wf()
                && self.cells@[i].targets.funcs@ == Set::<Name>::empty()
                && self.cells@[i].targets.externs@ == Set::<Name>::empty()
        &&& forall|i: int, j: int|
            0 <= i < self.cells@.len() && 0 <= j < self.cells@.len() && i != j ==> !is_cell(
                #[trigger] self.cells@[i],
                (#[trigger] self.cells@[j]).func@,
                self.cells@[j].param@,
            )
    }

    fn add_cell(&mut self, f: &String, p: &String)
        requires
            old(self).bare(),
        ensures
            final(self).bare(),
            forall|a: Name, b: Name|
                has_cell(old(self).cells@, a, b) ==> #[trigger] has_cell(final(self).cells@, a, b),
            has_cell(final(self).cells@, f@, p@),
    {
        let ghost before = self.cells@;
        match self.find(f.as_str(), p.as_str()) {
            Some(i) => {
                assert(is_cell(self.cells@[i as int], f@, p@));
            },
            None => {
                let c = Cell { func: f.clone(), param: p.clone(), targets: Targets::none() };
                self.cells.push(c);
                proof {
                    let now = self.cells@;
                    assert(now[before.len() as int] == c);
                    assert forall|a: Name, b: Name| has_cell(before, a, b) implies #[trigger] has_cell(
                        now,
                        a,
                        b,
                    ) by {
                        let j = choose|j: int|
                            0 <= j < before.len() && is_cell(#[trigger] before[j], a, b);
                        assert(is_cell(now[j], a, b));
                    }
                    assert forall|i: int, j: int|
                        0 <= i < now.len() && 0 <= j < now.len() && i != j implies !is_cell(
                        #[trigger] now[i],
                        (#[trigger] now[j]).func@,
                        now[j].param@,
                    ) by {
                        if i < before.len() && j < before.len() {
                            assert(!is_cell(before[i], before[j].func@, before[j].param@));
                        } else if i < before.len() {
                            assert(!is_cell(before[i], f@, p@));
                        } else if j < before.len() {
                            assert(!is_cell(before[j], f@, p@));
                        }
                    }
                }
            },
        }
    }

    /// Everything that flows.
    pub fn compute(t: &Tables) -> (r: Flow)
        requires
            t.wf(),
        ensures
            r.wf(t.value()),
            forall|f: Name, p: Name, x: TargetV| #[trigger]
                bindings(r.cells@).contains((f, p, x)) <==> flows(t.value(), f, p, x),
    {
        let ghost v = t.value();
        let ghost fs = t.funcs.key_seq();
        let ghost es = t.externs.key_seq();
        let sites = call_sites(t);
        let mut flow = Flow::empty(t);
        loop
            invariant
                t.wf(),
                v == t.value(),
                fs == t.funcs.key_seq(),
                es == t.externs.key_seq(),
                all_sites(v, sites@),
                flow.wf(v),
                justified(v, bindings(flow.cells@)),
            decreases cell_room(flow.cells@, fs.len(), es.len()),
        {
            let ghost cells0 = flow.cells@;
            let ghost start = bindings(cells0);
            let mut changed: bool = false;
            let mut j: usize = 0;
            while j < sites.len()
                invariant
                    t.wf(),
                    v == t.value(),
                    all_sites(v, sites@),
                    j <= sites@.len(),
                    flow.wf(v),
                    justified(v, bindings(flow.cells@)),
                    start == bindings(cells0),
                    !changed ==> bindings(flow.cells@) == start && forall|k: int|
                        0 <= k < j ==> site_respected(v, start, #[trigger] sites@[k]),
                    cell_room(flow.cells@, fs.len(), es.len()) <= cell_room(
                        cells0,
                        fs.len(),
                        es.len(),
                    ),
                    changed ==> cell_room(flow.cells@, fs.len(), es.len()) < cell_room(
                        cells0,
                        fs.len(),
                        es.len(),
                    ),
                decreases sites@.len() - j,
            {
                let ghost before = flow.cells@;
                let ch = flow.bind_call(t, &sites[j]);
                assert(cell_room(flow.cells@, fs.len(), es.len()) <= cell_room(
                    before,
                    fs.len(),
                    es.len(),
                ));
                if ch {
                    changed = true;
                }
                j = j + 1;
            }
            if !changed {
                proof {
                    lemma_respected(v, bindings(flow.cells@), sites@);
                    lemma_least(v, bindings(flow.cells@));
                }
                return flow;
            }
            proof {
                assert forall|i: int| 0 <= i < flow.cells@.len() implies (
                #[trigger] flow.cells@[i]).targets.funcs@.subset_of(fs.to_set())
                    && flow.cells@[i].targets.externs@.subset_of(es.to_set()) by {
                    assert(flow.cells@[i].targets.known(v));
                }
                lemma_cell_room_bound(flow.cells@, fs, es);
            }
        }
    }
}

}
