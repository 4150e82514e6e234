//! IR optimization passes, run before register allocation.
//!
//! The passes run in a fixed order, and the order matters: no-ops are removed first, so
//! that the later passes see plain instruction chains.
//!
//! What every pass keeps is stated as [`program_kept`]: the graph keeps its nodes, each
//! node keeps its instruction (a `Mov` may become a `Noop`, a `MovKind` may get another
//! kind), and edges only move forward past transparent nodes (`Noop` and `Mov`).

use vstd::prelude::*;
use super::ir::{
    Program, Graph, Node, NodeId, Op, Condition, Function, RegId, HighlightKind, id_ok, chain_step, fresh_count,
    successors, reachable, is_path, edge, walk_from, lemma_walk_visits_reachable, edges_ok, lemma_fresh_count_all,
};
use crate::text::utf8_of;
use vstd::string::StringExecFns;
use super::index_vec::IndexType;
use crate::runtime::{Register, REGISTER_COUNT};

verus! {

/// Whether control passes through `op` to its node's `next` without branching: the
/// instructions that the passes remove.
pub open spec fn transparent(op: Op) -> bool {
    op is Noop || op is Mov
}

/// Where `k` `next` edges lead from `o`.
pub open spec fn chain_from(g: Seq<Node>, o: Option<NodeId>, k: nat) -> Option<NodeId>
    decreases k,
{
    if k == 0 {
        o
    } else {
        chain_from(g, chain_step(g, o), (k - 1) as nat)
    }
}

/// Whether the first `k` nodes of the chain from `o` exist and are transparent.
pub open spec fn passes(g: Seq<Node>, o: Option<NodeId>, k: nat) -> bool {
    forall|j: nat|
        j < k ==> match #[trigger] chain_from(g, o, j) {
            Some(x) => x.idx() < g.len() && transparent(g[x.idx() as int].instr),
            None => false,
        }
}

/// Whether `to` is reached from `from` along `next` edges, through transparent nodes only.
pub open spec fn fwd(g: Seq<Node>, from: Option<NodeId>, to: Option<NodeId>) -> bool {
    exists|k: nat| #![trigger chain_from(g, from, k)] passes(g, from, k) && chain_from(g, from, k) == to
}

/// Whether instruction `b` stands where `a` stood in `g0`: the same, a `Mov` from a
/// machine register into a virtual one turned into a `Noop`, an `If` whose `then` edge
/// moved forward, or a `MovKind` with another kind.
pub open spec fn op_kept(g0: Seq<Node>, a: Op, b: Op) -> bool {
    ||| b == a
    ||| (a matches Op::Mov { dst, src } && b is Noop && src.idx() < REGISTER_COUNT && dst.idx() >= REGISTER_COUNT)
    ||| (a matches Op::If { condition: c0, then: t0 } && b matches Op::If { condition: c1, then: t1 }
        && c1 == c0 && fwd(g0, Some(t0), Some(t1)))
    ||| (a matches Op::MovKind { dst: d0, .. } && b matches Op::MovKind { dst: d1, .. } && d1 == d0)
}

/// Whether node `b` stands where `a` stood in `g0`: a kept instruction, and a `next`
/// edge that moved forward (possibly past the end of the chain).
pub open spec fn node_kept(g0: Seq<Node>, a: Node, b: Node) -> bool {
    op_kept(g0, a.instr, b.instr) && fwd(g0, a.next, b.next)
}

/// Whether `g1` keeps every node of `g0`.
pub open spec fn graph_kept(g0: Seq<Node>, g1: Seq<Node>) -> bool {
    &&& g1.len() == g0.len()
    &&& forall|i: int| #![trigger g1[i]] 0 <= i < g0.len() ==> node_kept(g0, g0[i], g1[i])
}

/// Whether function `f1` is `f0` with its entry moved forward in `g0`.
pub open spec fn function_kept(g0: Seq<Node>, f0: Function, f1: Function) -> bool {
    &&& f1.name == f0.name
    &&& f1.attributes == f0.attributes
    &&& f1.public == f0.public
    &&& fwd(g0, Some(f0.body), Some(f1.body))
}

/// Whether `p1` is `p0` optimized: the same registers, charsets and strings, the same
/// functions with their entries moved forward, and every node kept.
pub open spec fn program_kept(p0: Program, p1: Program) -> bool {
    &&& graph_kept(p0.graph.view(), p1.graph.view())
    &&& p1.register_count == p0.register_count
    &&& p1.charsets == p0.charsets
    &&& p1.strings == p0.strings
    &&& p1.functions@.len() == p0.functions@.len()
    &&& forall|i: int|
        #![trigger p1.functions@[i]]
        0 <= i < p0.functions@.len() ==> function_kept(p0.graph.view(), p0.functions@[i], p1.functions@[i])
}

proof fn lemma_chain_add(g: Seq<Node>, o: Option<NodeId>, a: nat, b: nat)
    ensures
        chain_from(g, o, a + b) == chain_from(g, chain_from(g, o, a), b),
    decreases a,
{
    if a > 0 {
        lemma_chain_add(g, chain_step(g, o), (a - 1) as nat, b);
        assert(chain_from(g, o, a + b) == chain_from(g, chain_step(g, o), (a + b - 1) as nat));
    }
}

/// Every chain reaches itself.
pub proof fn lemma_fwd_refl(g: Seq<Node>, o: Option<NodeId>)
    ensures
        fwd(g, o, o),
{
    assert(chain_from(g, o, 0) == o);
    assert(passes(g, o, 0));
}

/// Moving forward twice is moving forward.
pub proof fn lemma_fwd_trans(g: Seq<Node>, a: Option<NodeId>, b: Option<NodeId>, c: Option<NodeId>)
    requires
        fwd(g, a, b),
        fwd(g, b, c),
    ensures
        fwd(g, a, c),
{
    let k1 = choose|k: nat| #![trigger chain_from(g, a, k)] passes(g, a, k) && chain_from(g, a, k) == b;
    let k2 = choose|k: nat| #![trigger chain_from(g, b, k)] passes(g, b, k) && chain_from(g, b, k) == c;
    lemma_chain_add(g, a, k1, k2);
    assert forall|j: nat| j < k1 + k2 implies match #[trigger] chain_from(g, a, j) {
        Some(x) => x.idx() < g.len() && transparent(g[x.idx() as int].instr),
        None => false,
    } by {
        if j >= k1 {
            lemma_chain_add(g, a, k1, (j - k1) as nat);
            assert(chain_from(g, b, (j - k1) as nat) == chain_from(g, a, j));
        }
    }
    assert(passes(g, a, k1 + k2));
    assert(chain_from(g, a, k1 + k2) == c);
}

/// A transparent node moves forward to its `next`.
pub proof fn lemma_fwd_step(g: Seq<Node>, x: NodeId)
    requires
        x.idx() < g.len(),
        transparent(g[x.idx() as int].instr),
    ensures
        fwd(g, Some(x), g[x.idx() as int].next),
{
    assert(chain_from(g, Some(x), 0) == Some(x));
    assert(chain_from(g, Some(x), 1) == chain_from(g, g[x.idx() as int].next, 0));
    assert(passes(g, Some(x), 1));
}

proof fn lemma_fwd_refine_k(g0: Seq<Node>, g1: Seq<Node>, a: Option<NodeId>, b: Option<NodeId>, k: nat)
    requires
        graph_kept(g0, g1),
        passes(g1, a, k),
        chain_from(g1, a, k) == b,
    ensures
        fwd(g0, a, b),
    decreases k,
{
    if k == 0 {
        lemma_fwd_refl(g0, a);
    } else {
        assert(chain_from(g1, a, 0) == a);
        let x = a->0;
        let i = x.idx() as int;
        let n0 = g0[i];
        let n1 = g1[i];
        assert(node_kept(g0, n0, n1));
        assert(transparent(n0.instr));
        lemma_fwd_step(g0, x);
        assert forall|j: nat| j < (k - 1) as nat implies match #[trigger] chain_from(g1, n1.next, j) {
            Some(y) => y.idx() < g1.len() && transparent(g1[y.idx() as int].instr),
            None => false,
        } by {
            assert(chain_from(g1, a, j + 1) == chain_from(g1, n1.next, j));
        }
        assert(chain_from(g1, a, k) == chain_from(g1, n1.next, (k - 1) as nat));
        lemma_fwd_refine_k(g0, g1, n1.next, b, (k - 1) as nat);
        lemma_fwd_trans(g0, a, n0.next, n1.next);
        lemma_fwd_trans(g0, a, n1.next, b);
    }
}

/// What moves forward in a graph that keeps `g0` moves forward in `g0`.
pub proof fn lemma_fwd_refine(g0: Seq<Node>, g1: Seq<Node>, a: Option<NodeId>, b: Option<NodeId>)
    requires
        graph_kept(g0, g1),
        fwd(g1, a, b),
    ensures
        fwd(g0, a, b),
{
    let k = choose|k: nat| #![trigger chain_from(g1, a, k)] passes(g1, a, k) && chain_from(g1, a, k) == b;
    lemma_fwd_refine_k(g0, g1, a, b, k);
}

/// Every graph keeps itself.
pub proof fn lemma_graph_kept_refl(g: Seq<Node>)
    ensures
        graph_kept(g, g),
{
    assert forall|i: int| #![trigger g[i]] 0 <= i < g.len() implies node_kept(g, g[i], g[i]) by {
        lemma_fwd_refl(g, g[i].next);
    }
}

/// Keeping is transitive.
pub proof fn lemma_graph_kept_trans(g0: Seq<Node>, g1: Seq<Node>, g2: Seq<Node>)
    requires
        graph_kept(g0, g1),
        graph_kept(g1, g2),
    ensures
        graph_kept(g0, g2),
{
    assert forall|i: int| #![trigger g2[i]] 0 <= i < g0.len() implies node_kept(g0, g0[i], g2[i]) by {
        let (a, b, c) = (g0[i], g1[i], g2[i]);
        assert(node_kept(g0, a, b));
        assert(node_kept(g1, b, c));
        lemma_fwd_refine(g0, g1, b.next, c.next);
        lemma_fwd_trans(g0, a.next, b.next, c.next);
        if let Op::If { then: t1, .. } = b.instr {
            if let Op::If { then: t2, .. } = c.instr {
                lemma_fwd_refl(g1, Some(t1));
                lemma_fwd_refl(g0, Some(t1));
                lemma_fwd_refine(g0, g1, Some(t1), Some(t2));
                if let Op::If { then: t0, .. } = a.instr {
                    lemma_fwd_trans(g0, Some(t0), Some(t1), Some(t2));
                }
            }
        }
    }
}

/// Keeping is transitive for whole programs.
pub proof fn lemma_program_kept_trans(p0: Program, p1: Program, p2: Program)
    requires
        program_kept(p0, p1),
        program_kept(p1, p2),
    ensures
        program_kept(p0, p2),
{
    let (g0, g1) = (p0.graph.view(), p1.graph.view());
    lemma_graph_kept_trans(g0, g1, p2.graph.view());
    assert forall|i: int| #![trigger p2.functions@[i]] 0 <= i < p0.functions@.len() implies function_kept(
        g0,
        p0.functions@[i],
        p2.functions@[i],
    ) by {
        let (f0, f1, f2) = (p0.functions@[i], p1.functions@[i], p2.functions@[i]);
        assert(function_kept(g0, f0, f1));
        assert(function_kept(g1, f1, f2));
        lemma_fwd_refine(g0, g1, Some(f1.body), Some(f2.body));
        lemma_fwd_trans(g0, Some(f0.body), Some(f1.body), Some(f2.body));
    }
}

/// Every program keeps itself.
pub proof fn lemma_program_kept_refl(p: Program)
    ensures
        program_kept(p, p),
{
    lemma_graph_kept_refl(p.graph.view());
    assert forall|i: int| #![trigger p.functions@[i]] 0 <= i < p.functions@.len() implies function_kept(
        p.graph.view(),
        p.functions@[i],
        p.functions@[i],
    ) by {
        lemma_fwd_refl(p.graph.view(), Some(p.functions@[i].body));
    }
}

/// Where following the `next` edges of no-op nodes from `a` ends, within `fuel` steps.
pub open spec fn skip_spec(g: Seq<Node>, a: NodeId, fuel: nat) -> NodeId
    decreases fuel,
{
    if fuel > 0 && a.idx() < g.len() && g[a.idx() as int].instr is Noop && g[a.idx() as int].next is Some {
        skip_spec(g, g[a.idx() as int].next->0, (fuel - 1) as nat)
    } else {
        a
    }
}

proof fn lemma_skip_fwd(g: Seq<Node>, a: NodeId, fuel: nat)
    ensures
        fwd(g, Some(a), Some(skip_spec(g, a, fuel))),
    decreases fuel,
{
    if fuel > 0 && a.idx() < g.len() && g[a.idx() as int].instr is Noop && g[a.idx() as int].next is Some {
        let n = g[a.idx() as int].next;
        lemma_fwd_step(g, a);
        lemma_skip_fwd(g, n->0, (fuel - 1) as nat);
        lemma_fwd_trans(g, Some(a), n, Some(skip_spec(g, a, fuel)));
    } else {
        lemma_fwd_refl(g, Some(a));
    }
}

proof fn lemma_skip_in_range(g: Seq<Node>, a: NodeId, fuel: nat)
    requires
        id_ok(a, g.len()),
        forall|i: int| 0 <= i < g.len() ==> ((#[trigger] g[i]).next matches Some(n) ==> id_ok(n, g.len())),
    ensures
        id_ok(skip_spec(g, a, fuel), g.len()),
    decreases fuel,
{
    if fuel > 0 && g[a.idx() as int].instr is Noop && g[a.idx() as int].next is Some {
        lemma_skip_in_range(g, g[a.idx() as int].next->0, (fuel - 1) as nat);
    }
}

/// Whether `g` has the no-op nodes of `g0`, unchanged, and no others.
spec fn same_noops(g0: Seq<Node>, g: Seq<Node>) -> bool {
    &&& g.len() == g0.len()
    &&& forall|i: int|
        #![trigger g[i]]
        0 <= i < g0.len() ==> (g0[i].instr is Noop ==> g[i] == g0[i]) && (g[i].instr is Noop ==> g0[i].instr is Noop)
}

proof fn lemma_skip_same(g0: Seq<Node>, g: Seq<Node>, a: NodeId, fuel: nat)
    requires
        same_noops(g0, g),
    ensures
        skip_spec(g, a, fuel) == skip_spec(g0, a, fuel),
    decreases fuel,
{
    if fuel > 0 && a.idx() < g.len() {
        assert(g[a.idx() as int] == g[a.idx() as int]);
        if g0[a.idx() as int].instr is Noop && g0[a.idx() as int].next is Some {
            lemma_skip_same(g0, g, g0[a.idx() as int].next->0, (fuel - 1) as nat);
        }
    }
}

/// Follows the `next` edges of no-op nodes from `target` to the first node that is not
/// one, giving up after as many steps as the graph has nodes (a chain of no-ops that
/// comes back to itself has no end).
fn skip_noops(graph: &Graph, target: NodeId) -> (r: NodeId)
    requires
        graph.wf(),
        id_ok(target, graph.view().len()),
    ensures
        r == skip_spec(graph.view(), target, graph.view().len()),
        id_ok(r, graph.view().len()),
{
    let ghost g = graph.view();
    let mut t = target;
    let mut fuel = graph.len();
    while fuel > 0
        invariant
            graph.wf(),
            g == graph.view(),
            id_ok(t, g.len()),
            skip_spec(g, t, fuel as nat) == skip_spec(g, target, g.len()),
        decreases fuel,
    {
        let node = graph.node(t);
        if let Op::Noop = node.instr {
            if let Some(next) = node.next {
                t = next;
                fuel -= 1;
                continue;
            }
        }
        return t;
    }
    t
}

/// Removes no-op instructions from the IR: function entries and the edges of every
/// node reachable from them skip over chains of no-ops.
fn optimize_noop(program: &mut Program)
    requires
        old(program).wf(),
    ensures
        final(program).wf(),
        program_kept(*old(program), *final(program)),
        same_kinds(old(program).graph.view(), final(program).graph.view()),
        final(program).highlight_kinds == old(program).highlight_kinds,
{
    let ghost p0 = *program;
    let ghost g0 = program.graph.view();
    let ghost len = g0.len();
    let n = program.functions.len();

    // Remove noops from the function entrypoint (the trunk of the tree).
    let mut fi: usize = 0;
    while fi < n
        invariant
            p0.wf(),
            g0 == p0.graph.view(),
            len == g0.len(),
            program.graph == p0.graph,
            program.register_count == p0.register_count,
            program.charsets == p0.charsets,
            program.strings == p0.strings,
            program.highlight_kinds == p0.highlight_kinds,
            program.functions@.len() == n,
            n == p0.functions@.len(),
            fi <= n,
            forall|j: int| #![trigger program.functions@[j]] 0 <= j < n ==> {
                let (f0, f) = (p0.functions@[j], program.functions@[j]);
                &&& f.name == f0.name
                &&& f.attributes == f0.attributes
                &&& f.public == f0.public
                &&& j < fi ==> f.body == skip_spec(g0, f0.body, len)
                &&& j >= fi ==> f.body == f0.body
            },
        decreases n - fi,
    {
        let b = skip_noops(&program.graph, program.functions[fi].body);
        program.functions[fi].body = b;
        fi += 1;
    }
    proof {
        assert forall|j: int| #![trigger program.functions@[j]] 0 <= j < n implies function_kept(
            g0,
            p0.functions@[j],
            program.functions@[j],
        ) && id_ok(program.functions@[j].body, len) by {
            lemma_skip_fwd(g0, p0.functions@[j].body, len);
            lemma_skip_in_range(g0, p0.functions@[j].body, len);
        }
        lemma_graph_kept_refl(g0);
    }
    let ghost p1 = *program;

    let mut fi: usize = 0;
    while fi < n
        invariant
            p1.wf(),
            program.wf(),
            g0 == p0.graph.view(),
            len == g0.len(),
            program.graph.view().len() == len,
            graph_kept(g0, program.graph.view()),
            same_kinds(g0, program.graph.view()),
            same_noops(g0, program.graph.view()),
            program.register_count == p0.register_count,
            program.charsets == p0.charsets,
            program.strings == p0.strings,
            program.highlight_kinds == p0.highlight_kinds,
            program.functions == p1.functions,
            n == p1.functions@.len(),
            fi <= n,
        decreases n - fi,
    {
        let body = program.functions[fi].body;
        let mut visitor = program.visit_nodes_from(body);
        loop
            invariant
                program.wf(),
                visitor.ok_for(len),
                g0 == p0.graph.view(),
                len == g0.len(),
                program.graph.view().len() == len,
                graph_kept(g0, program.graph.view()),
                same_kinds(g0, program.graph.view()),
                same_noops(g0, program.graph.view()),
                program.register_count == p0.register_count,
                program.charsets == p0.charsets,
                program.strings == p0.strings,
                program.highlight_kinds == p0.highlight_kinds,
                program.functions == p1.functions,
            decreases fresh_count(visitor.visited()),
        {
            let current = match visitor.next(&program.graph) {
                Some(c) => c,
                None => break,
            };
            let node = *program.graph.node(current);
            // First, filter down to nodes that are not no-ops.
            if let Op::Noop = node.instr {
                continue;
            }
            let ghost g = program.graph.view();
            let ghost i = current.idx() as int;
            let mut new_node = node;
            if let Some(next) = node.next {
                let target = skip_noops(&program.graph, next);
                proof {
                    lemma_skip_same(g0, g, next, len);
                    lemma_skip_fwd(g0, next, len);
                    assert(node_kept(g0, g0[i], g[i]));
                    lemma_fwd_trans(g0, g0[i].next, Some(next), Some(target));
                }
                new_node.next = Some(target);
            }
            // `Op::If` nodes have an additional "then" branch.
            if let Op::If { condition, then } = node.instr {
                let target = skip_noops(&program.graph, then);
                proof {
                    lemma_skip_same(g0, g, then, len);
                    lemma_skip_fwd(g0, then, len);
                    assert(node_kept(g0, g0[i], g[i]));
                    if let Op::If { then: t0, .. } = g0[i].instr {
                        lemma_fwd_refl(g0, Some(t0));
                        lemma_fwd_trans(g0, Some(t0), Some(then), Some(target));
                    }
                }
                new_node.instr = Op::If { condition, then: target };
            }
            *program.graph.node_mut(current) = new_node;
            proof {
                let g2 = program.graph.view();
                assert(node_kept(g0, g0[i], g2[i]));
                assert forall|j: int| #![trigger g2[j]] 0 <= j < len implies node_kept(g0, g0[j], g2[j]) by {
                    if j != i {
                        assert(g2[j] == g[j]);
                    }
                }
                assert forall|j: int| 0 <= j < len implies program.node_ok(#[trigger] g2[j]) by {
                    if j != i {
                        assert(g2[j] == g[j]);
                    }
                }
            }
        }
        fi += 1;
    }
    proof {
        let p2 = *program;
        assert forall|j: int| #![trigger p2.functions@[j]] 0 <= j < n implies function_kept(
            g0,
            p0.functions@[j],
            p2.functions@[j],
        ) by {
            assert(p1.functions@[j] == p2.functions@[j]);
        }
    }
}

/// Whether node `n` restores the offset register `off` from `backup`.
pub open spec fn restores(n: Node, off: RegId, backup: RegId) -> bool {
    n.instr == (Op::Mov { dst: off, src: backup })
}

/// Whether node `i` is a condition whose `next` restores `off` from `backup`.
spec fn points_to_restore(g: Seq<Node>, i: int, off: RegId, backup: RegId) -> bool {
    &&& g[i].instr is If
    &&& match g[i].next {
        Some(r) => r.idx() < g.len() && restores(g[r.idx() as int], off, backup),
        None => false,
    }
}

/// How many of the first `k` nodes are conditions followed by a restore of `off`.
spec fn restore_edges(g: Seq<Node>, k: nat, off: RegId, backup: RegId) -> nat
    decreases k,
{
    if k == 0 {
        0
    } else {
        restore_edges(g, (k - 1) as nat, off, backup) + if points_to_restore(g, k - 1, off, backup) {
            1nat
        } else {
            0nat
        }
    }
}

proof fn lemma_restore_edges_update(g: Seq<Node>, c: int, n: Node, k: nat, off: RegId, backup: RegId)
    requires
        0 <= c < g.len(),
        k <= g.len(),
        g[c].instr is If,
        n.instr is If,
        points_to_restore(g, c, off, backup),
        !points_to_restore(g.update(c, n), c, off, backup),
    ensures
        restore_edges(g.update(c, n), k, off, backup) + (if c < k { 1nat } else { 0nat }) == restore_edges(
            g,
            k,
            off,
            backup,
        ),
    decreases k,
{
    if k > 0 {
        lemma_restore_edges_update(g, c, n, (k - 1) as nat, off, backup);
        let g2 = g.update(c, n);
        let i = k - 1;
        if i != c {
            assert(g2[i] == g[i]);
            if let Some(r) = g[i].next {
                if r.idx() < g.len() {
                    if r.idx() as int != c {
                        assert(g2[r.idx() as int] == g[r.idx() as int]);
                    }
                }
            }
            assert(points_to_restore(g2, i, off, backup) == points_to_restore(g, i, off, backup));
        }
    }
}

/// Conditions in the VM advance the offset only if they match, so restoring the offset
/// after a condition that failed is pointless. The frontend emits such restores anyway.
/// This turns the chain of `next` edges
///   `Mov { backup <- off }`, `If`, `Mov { off <- backup }`, `If`, `Mov { off <- backup }`, ...
/// into
///   `Mov { backup <- off }`, `If`, `If`, ...
/// and then turns backups to virtual registers that nothing reads into no-ops.
fn optimize_redundant_offset_backup_restore(program: &mut Program)
    requires
        old(program).wf(),
    ensures
        final(program).wf(),
        program_kept(*old(program), *final(program)),
        same_kinds(old(program).graph.view(), final(program).graph.view()),
        final(program).highlight_kinds == old(program).highlight_kinds,
{
    let ghost p0 = *program;
    let ghost g0 = program.graph.view();
    let ghost len = g0.len();
    let n = program.functions.len();
    let off_reg = program.get_reg(Register::InputOffset);
    proof {
        lemma_graph_kept_refl(g0);
    }

    // Remove pointless offset restore chains.
    let mut fi: usize = 0;
    while fi < n
        invariant
            program.wf(),
            g0 == p0.graph.view(),
            len == g0.len(),
            program.graph.view().len() == len,
            graph_kept(g0, program.graph.view()),
            same_kinds(g0, program.graph.view()),
            program.register_count == p0.register_count,
            program.charsets == p0.charsets,
            program.strings == p0.strings,
            program.highlight_kinds == p0.highlight_kinds,
            program.functions == p0.functions,
            n == p0.functions@.len(),
            fi <= n,
        decreases n - fi,
    {
        let body = program.functions[fi].body;
        let mut visitor = program.visit_nodes_from(body);
        loop
            invariant
                program.wf(),
                visitor.ok_for(len),
                g0 == p0.graph.view(),
                len == g0.len(),
                program.graph.view().len() == len,
                graph_kept(g0, program.graph.view()),
                same_kinds(g0, program.graph.view()),
                program.register_count == p0.register_count,
                program.charsets == p0.charsets,
                program.strings == p0.strings,
                program.highlight_kinds == p0.highlight_kinds,
                program.functions == p0.functions,
            decreases fresh_count(visitor.visited()),
        {
            let current = match visitor.next(&program.graph) {
                Some(c) => c,
                None => break,
            };
            // First, filter down to nodes that assign the `off` to a virtual register.
            let save = *program.graph.node(current);
            if let Op::Mov { dst: backup_reg, src } = save.instr {
                if src == off_reg && !backup_reg.is_physical() {
                    let mut next_cond = save.next;
                    // Next optimize an entire chain of `if` conditions that pointlessly restore `off`.
                    loop
                        invariant
                            program.wf(),
                            g0 == p0.graph.view(),
                            len == g0.len(),
                            program.graph.view().len() == len,
                            graph_kept(g0, program.graph.view()),
                            same_kinds(g0, program.graph.view()),
                            next_cond matches Some(c) ==> id_ok(c, len),
                            program.register_count == p0.register_count,
                            program.charsets == p0.charsets,
                            program.strings == p0.strings,
                            program.highlight_kinds == p0.highlight_kinds,
                            program.functions == p0.functions,
                        decreases restore_edges(program.graph.view(), len, off_reg, backup_reg),
                    {
                        let cond_id = match next_cond {
                            Some(c) => c,
                            None => break,
                        };
                        let cond = *program.graph.node(cond_id);
                        if !matches!(cond.instr, Op::If { .. }) {
                            break;
                        }
                        let restore_id = match cond.next {
                            Some(r) => r,
                            None => break,
                        };
                        let restore = *program.graph.node(restore_id);
                        if restore.instr != (Op::Mov { dst: off_reg, src: backup_reg }) {
                            break;
                        }
                        let next = restore.next;
                        let ghost g = program.graph.view();
                        let ghost c = cond_id.idx() as int;
                        let ghost r = restore_id.idx() as int;
                        proof {
                            assert(node_kept(g0, g0[c], g[c]));
                            assert(node_kept(g0, g0[r], g[r]));
                            assert(g0[r].instr is Mov);
                            lemma_fwd_step(g0, restore_id);
                            lemma_fwd_trans(g0, Some(restore_id), g0[r].next, next);
                            lemma_fwd_trans(g0, g0[c].next, Some(restore_id), next);
                        }
                        let new_cond = Node { next, instr: cond.instr };
                        *program.graph.node_mut(cond_id) = new_cond;
                        next_cond = next;
                        proof {
                            let g2 = program.graph.view();
                            assert forall|j: int| #![trigger g2[j]] 0 <= j < len implies node_kept(g0, g0[j], g2[j]) by {
                                if j != c {
                                    assert(g2[j] == g[j]);
                                }
                            }
                            assert forall|j: int| 0 <= j < len implies program.node_ok(#[trigger] g2[j]) by {
                                if j != c {
                                    assert(g2[j] == g[j]);
                                }
                            }
                        }
                        // Only another condition can continue the chain.
                        match next {
                            Some(nid) => {
                                if !matches!(program.graph.node(nid).instr, Op::If { .. }) {
                                    break;
                                }
                            },
                            None => break,
                        }
                        proof {
                            let g2 = program.graph.view();
                            assert(g2 == g.update(c, new_cond));
                            lemma_restore_edges_update(g, c, new_cond, len, off_reg, backup_reg);
                        }
                    }
                }
            }
        }
        fi += 1;
    }

    // Remove pointless offset backups.
    // A backup is pointless if the destination vreg is never read.
    let mut fi: usize = 0;
    while fi < n
        invariant
            program.wf(),
            g0 == p0.graph.view(),
            len == g0.len(),
            program.graph.view().len() == len,
            graph_kept(g0, program.graph.view()),
            same_kinds(g0, program.graph.view()),
            program.register_count == p0.register_count,
            program.charsets == p0.charsets,
            program.strings == p0.strings,
            program.highlight_kinds == p0.highlight_kinds,
            program.functions == p0.functions,
            n == p0.functions@.len(),
            fi <= n,
        decreases n - fi,
    {
        // First, collect all vregs that are read anywhere in the function.
        let mut used_vregs = vec![false; program.register_count];
        let body = program.functions[fi].body;
        let mut visitor = program.visit_nodes_from(body);
        loop
            invariant
                program.wf(),
                visitor.ok_for(len),
                program.graph.view().len() == len,
                used_vregs@.len() == program.register_count,
            decreases fresh_count(visitor.visited()),
        {
            let current = match visitor.next(&program.graph) {
                Some(c) => c,
                None => break,
            };
            match program.graph.node(current).instr {
                Op::Mov { src, .. } => {
                    used_vregs.set(src.to_usize(), true);
                },
                Op::If { condition: Condition::Cmp { lhs, rhs, .. }, .. } => {
                    used_vregs.set(lhs.to_usize(), true);
                    used_vregs.set(rhs.to_usize(), true);
                },
                _ => {},
            }
        }

        // Now remove dead stores (assignments to vregs that are never read).
        let mut visitor = program.visit_nodes_from(body);
        loop
            invariant
                program.wf(),
                visitor.ok_for(len),
                g0 == p0.graph.view(),
                len == g0.len(),
                program.graph.view().len() == len,
                graph_kept(g0, program.graph.view()),
                same_kinds(g0, program.graph.view()),
                used_vregs@.len() == program.register_count,
                program.register_count == p0.register_count,
                program.charsets == p0.charsets,
                program.strings == p0.strings,
                program.highlight_kinds == p0.highlight_kinds,
                program.functions == p0.functions,
            decreases fresh_count(visitor.visited()),
        {
            let current = match visitor.next(&program.graph) {
                Some(c) => c,
                None => break,
            };
            let cell = *program.graph.node(current);
            // Physical registers matter to the VM, and vreg --> vreg assignments would
            // need the uses counted anew after each removal.
            if let Op::Mov { dst, src } = cell.instr {
                if src.is_physical() && !dst.is_physical() && !used_vregs[dst.to_usize()] {
                    let ghost g = program.graph.view();
                    let ghost c = current.idx() as int;
                    proof {
                        assert(node_kept(g0, g0[c], g[c]));
                    }
                    *program.graph.node_mut(current) = Node { next: cell.next, instr: Op::Noop };
                    proof {
                        let g2 = program.graph.view();
                        assert forall|j: int| #![trigger g2[j]] 0 <= j < len implies node_kept(g0, g0[j], g2[j]) by {
                            if j != c {
                                assert(g2[j] == g[j]);
                            }
                        }
                        assert forall|j: int| 0 <= j < len implies program.node_ok(#[trigger] g2[j]) by {
                            if j != c {
                                assert(g2[j] == g[j]);
                            }
                        }
                    }
                }
            }
        }
        fi += 1;
    }
    proof {
        let p1 = *program;
        assert forall|j: int| #![trigger p1.functions@[j]] 0 <= j < n implies function_kept(
            g0,
            p0.functions@[j],
            p1.functions@[j],
        ) by {
            lemma_fwd_refl(g0, Some(p0.functions@[j].body));
        }
        assert(program_kept(p0, p1));
    }
    let ghost p1 = *program;
    optimize_noop(program);
    proof {
        lemma_program_kept_trans(p0, p1, *program);
        let (g1, g2) = (p1.graph.view(), program.graph.view());
        assert forall|i: int| #![trigger g2[i]] 0 <= i < g2.len() && g2[i].instr is MovKind implies g2[i].instr == g0[i].instr by {
            assert(g2[i].instr == g1[i].instr);
        }
    }
}

/// Lexicographic "less than" on integer sequences.
pub open spec fn ints_lt(a: Seq<int>, b: Seq<int>) -> bool
    decreases a.len(),
{
    if b.len() == 0 {
        false
    } else if a.len() == 0 {
        true
    } else if a[0] != b[0] {
        a[0] < b[0]
    } else {
        ints_lt(a.drop_first(), b.drop_first())
    }
}

proof fn lemma_ints_lt_order(a: Seq<int>, b: Seq<int>, c: Seq<int>)
    ensures
        !ints_lt(a, a),
        a != b ==> (ints_lt(a, b) || ints_lt(b, a)),
        ints_lt(a, b) ==> !ints_lt(b, a),
        ints_lt(a, b) && ints_lt(b, c) ==> ints_lt(a, c),
    decreases a.len(),
{
    if a.len() > 0 && b.len() > 0 && c.len() > 0 {
        lemma_ints_lt_order(a.drop_first(), b.drop_first(), c.drop_first());
    } else if a.len() > 0 && b.len() > 0 {
        lemma_ints_lt_order(a.drop_first(), b.drop_first(), b.drop_first());
    } else if a.len() > 0 {
        lemma_ints_lt_order(a.drop_first(), a.drop_first(), a.drop_first());
    }
    if a.len() > 0 && b.len() > 0 && a[0] == b[0] && a != b {
        assert(a =~= seq![a[0]] + a.drop_first());
        assert(b =~= seq![b[0]] + b.drop_first());
    }
    if a.len() == 0 && b.len() == 0 {
        assert(a =~= b);
    }
}

proof fn lemma_ints_lt_at(a: Seq<int>, b: Seq<int>, i: int)
    requires
        0 <= i < a.len(),
        i < b.len(),
        a.subrange(0, i) == b.subrange(0, i),
        a[i] != b[i],
    ensures
        ints_lt(a, b) == (a[i] < b[i]),
    decreases i,
{
    if i > 0 {
        assert(a.subrange(0, i)[0] == a[0]);
        assert(b.subrange(0, i)[0] == b[0]);
        assert(a.drop_first().subrange(0, i - 1) =~= a.subrange(0, i).drop_first());
        assert(b.drop_first().subrange(0, i - 1) =~= b.subrange(0, i).drop_first());
        lemma_ints_lt_at(a.drop_first(), b.drop_first(), i - 1);
    }
}

proof fn lemma_ints_prefix_lt(a: Seq<int>, b: Seq<int>, i: int)
    requires
        0 <= i,
        i == a.len() || i == b.len(),
        i <= a.len(),
        i <= b.len(),
        a.subrange(0, i) == b.subrange(0, i),
    ensures
        ints_lt(a, b) == (a.len() < b.len()),
    decreases i,
{
    if i > 0 {
        assert(a.subrange(0, i)[0] == a[0]);
        assert(b.subrange(0, i)[0] == b[0]);
        assert(a.drop_first().subrange(0, i - 1) =~= a.subrange(0, i).drop_first());
        assert(b.drop_first().subrange(0, i - 1) =~= b.subrange(0, i).drop_first());
        lemma_ints_prefix_lt(a.drop_first(), b.drop_first(), i - 1);
    }
}

/// Whether an identifier names a nested highlight kind, one with a `.` in it.
pub open spec fn nested(s: Seq<u8>) -> bool {
    s.contains(46u8)
}

/// The bytes of the identifier `other`.
pub open spec fn other_id() -> Seq<u8> {
    seq![111u8, 116u8, 104u8, 101u8, 114u8]
}

/// The sort key of an identifier: `.` comes before every other byte, and the other
/// bytes keep their order. Comparing keys lexicographically compares the
/// dot-separated components of the identifiers in turn.
pub open spec fn component_key(s: Seq<u8>) -> Seq<int> {
    Seq::new(s.len(), |i: int| if s[i] == 46u8 { 0int } else { s[i] as int + 1 })
}

/// The order of highlight kinds: global identifiers (without a dot) first, among
/// them `other` first, then by dot-separated components.
pub open spec fn kind_before(a: Seq<u8>, b: Seq<u8>) -> bool {
    if nested(a) != nested(b) {
        !nested(a)
    } else if !nested(a) && a == other_id() {
        b != other_id()
    } else if !nested(a) && b == other_id() {
        false
    } else {
        ints_lt(component_key(a), component_key(b))
    }
}

proof fn lemma_component_key_injective(a: Seq<u8>, b: Seq<u8>)
    requires
        component_key(a) == component_key(b),
    ensures
        a == b,
{
    assert(component_key(a).len() == a.len());
    assert(component_key(b).len() == b.len());
    assert(a.len() == b.len());
    assert forall|i: int| 0 <= i < a.len() implies a[i] == b[i] by {
        assert(component_key(a)[i] == component_key(b)[i]);
        assert(component_key(a)[i] == if a[i] == 46u8 { 0int } else { a[i] as int + 1 });
        assert(component_key(b)[i] == if b[i] == 46u8 { 0int } else { b[i] as int + 1 });
    }
    assert(a =~= b);
}

/// `kind_before` is a strict total order.
pub proof fn lemma_kind_order(a: Seq<u8>, b: Seq<u8>, c: Seq<u8>)
    ensures
        !kind_before(a, a),
        a != b ==> (kind_before(a, b) || kind_before(b, a)),
        kind_before(a, b) ==> !kind_before(b, a),
        kind_before(a, b) && kind_before(b, c) ==> kind_before(a, c),
{
    let (ka, kb, kc) = (component_key(a), component_key(b), component_key(c));
    lemma_ints_lt_order(ka, kb, kc);
    lemma_ints_lt_order(kb, ka, kc);
    lemma_ints_lt_order(ka, kc, kb);
    if ka == kb {
        lemma_component_key_injective(a, b);
    }
}

/// Whether `s` holds a `.`.
fn contains_dot(s: &[u8]) -> (r: bool)
    ensures
        r == nested(s@),
{
    let mut i: usize = 0;
    while i < s.len()
        invariant
            i <= s.len(),
            forall|j: int| 0 <= j < i ==> s@[j] != 46u8,
        decreases s.len() - i,
    {
        if s[i] == 46u8 {
            assert(s@[i as int] == 46u8);
            return true;
        }
        i += 1;
    }
    false
}

/// Whether `s` is `other`.
fn is_other(s: &[u8]) -> (r: bool)
    ensures
        r == (s@ == other_id()),
{
    let r = s.len() == 5 && s[0] == 111u8 && s[1] == 116u8 && s[2] == 104u8 && s[3] == 101u8 && s[4] == 114u8;
    if r {
        assert(s@ =~= other_id());
    }
    r
}

/// The sort key of one byte.
fn key_byte(b: u8) -> (r: u16)
    ensures
        r == (if b == 46u8 { 0int } else { b as int + 1 }),
{
    if b == 46u8 {
        0
    } else {
        b as u16 + 1
    }
}

/// Whether the component key of `a` is before that of `b`.
fn keys_lt(a: &[u8], b: &[u8]) -> (r: bool)
    ensures
        r == ints_lt(component_key(a@), component_key(b@)),
{
    let ghost (ka, kb) = (component_key(a@), component_key(b@));
    let mut i: usize = 0;
    while i < a.len() && i < b.len()
        invariant
            i <= a.len(),
            i <= b.len(),
            ka == component_key(a@),
            kb == component_key(b@),
            ka.subrange(0, i as int) == kb.subrange(0, i as int),
        decreases a.len() - i,
    {
        let x = key_byte(a[i]);
        let y = key_byte(b[i]);
        if x != y {
            proof {
                lemma_ints_lt_at(ka, kb, i as int);
            }
            return x < y;
        }
        assert(ka.subrange(0, i + 1) =~= ka.subrange(0, i as int).push(ka[i as int]));
        assert(kb.subrange(0, i + 1) =~= kb.subrange(0, i as int).push(kb[i as int]));
        i += 1;
    }
    proof {
        lemma_ints_prefix_lt(ka, kb, i as int);
    }
    a.len() < b.len()
}

/// Whether a kind named `a` goes before one named `b`.
fn kind_is_before(a: &[u8], b: &[u8]) -> (r: bool)
    ensures
        r == kind_before(a@, b@),
{
    // Global identifiers without a dot come first.
    let nested_a = contains_dot(a);
    let nested_b = contains_dot(b);
    if nested_a != nested_b {
        return !nested_a;
    }
    // Among globals, "other" comes first.
    if !nested_a {
        if is_other(a) {
            return !is_other(b);
        }
        if is_other(b) {
            return false;
        }
    }
    // Otherwise, sort by dot-separated components.
    keys_lt(a, b)
}

/// The bytes of a highlight kind's identifier.
pub open spec fn kind_id(k: HighlightKind) -> Seq<u8> {
    utf8_of(k.identifier@)
}

/// Whether no kind in `ks` goes before one that precedes it.
pub open spec fn kinds_in_order(ks: Seq<HighlightKind>) -> bool {
    forall|i: int, j: int| 0 <= i < j < ks.len() ==> !kind_before(kind_id(#[trigger] ks[j]), kind_id(#[trigger] ks[i]))
}

/// Sorts highlight kinds into the order of [`kind_before`].
#[verifier::spinoff_prover]
#[verifier::rlimit(40)]
fn sort_kinds(v: &mut Vec<HighlightKind>)
    ensures
        final(v)@.len() == old(v)@.len(),
        final(v)@.to_multiset() == old(v)@.to_multiset(),
        final(v)@.map_values(|k: HighlightKind| k.identifier@).to_multiset() == old(v)@.map_values(
            |k: HighlightKind| k.identifier@,
        ).to_multiset(),
        kinds_in_order(final(v)@),
{
    broadcast use vstd::seq_lib::group_to_multiset_ensures;

    let n = v.len();
    if n < 2 {
        return;
    }
    let mut i: usize = 1;
    while i < n
        invariant
            1 <= i <= n,
            v@.len() == n,
            n == old(v)@.len(),
            v@.to_multiset() == old(v)@.to_multiset(),
            v@.map_values(|k: HighlightKind| k.identifier@).to_multiset() == old(v)@.map_values(
                |k: HighlightKind| k.identifier@,
            ).to_multiset(),
            forall|a: int, b: int| 0 <= a < b < i ==> !kind_before(kind_id(#[trigger] v@[b]), kind_id(#[trigger] v@[a])),
        decreases n - i,
    {
        let ghost v0 = v@;
        let x = v.remove(i);
        proof {
            let ids = |k: HighlightKind| k.identifier@;
            v0.remove_ensures(i as int);
            assert(v0.remove(i as int).map_values(ids) =~= v0.map_values(ids).remove(i as int));
            v0.map_values(ids).remove_ensures(i as int);
        }
        let xb = x.identifier.as_str().as_bytes();
        let mut j: usize = i;
        loop
            invariant
                0 <= j <= i,
                i < n,
                v0.len() == n,
                v@.len() == n - 1,
                v@ == v0.remove(i as int),
                xb@ == kind_id(x),
                forall|k: int| j <= k < i ==> kind_before(kind_id(x), kind_id(#[trigger] v@[k])),
            ensures
                0 <= j <= i,
                forall|k: int| j <= k < i ==> kind_before(kind_id(x), kind_id(#[trigger] v@[k])),
                j > 0 ==> !kind_before(kind_id(x), kind_id(v@[j - 1])),
            decreases j,
        {
            if j == 0 {
                break;
            }
            if !kind_is_before(xb, v[j - 1].identifier.as_str().as_bytes()) {
                break;
            }
            j -= 1;
        }
        let ghost v1 = v@;
        v.insert(j, x);
        proof {
            let ids = |k: HighlightKind| k.identifier@;
            v1.insert_ensures(j as int, x);
            assert(v1.insert(j as int, x).map_values(ids) =~= v1.map_values(ids).insert(j as int, x.identifier@));
            v1.map_values(ids).insert_ensures(j as int, x.identifier@);
            assert(v0[i as int] == x);
            assert(v0.contains(x));
            assert(v0.map_values(ids)[i as int] == x.identifier@);
            assert(v0.map_values(ids).contains(x.identifier@));
            v0.to_multiset_ensures();
            v0.map_values(ids).to_multiset_ensures();
            assert(v0.to_multiset().count(x) > 0);
            assert(v0.map_values(ids).to_multiset().count(x.identifier@) > 0);
            assert(v0.map_values(ids).to_multiset().remove(x.identifier@).insert(x.identifier@) =~= v0.map_values(ids).to_multiset());
            assert(v0.to_multiset().remove(x).insert(x) =~= v0.to_multiset());
            let v2 = v@;
            let kx = kind_id(x);
            assert(v2 == v1.insert(j as int, x));
            // Putting `x` back restores the multisets.
            v2.to_multiset_ensures();
            v2.map_values(ids).to_multiset_ensures();
            assert(v2.remove(j as int) =~= v1);
            assert(v2.map_values(ids).remove(j as int) =~= v1.map_values(ids));
            assert(v2.contains(x));
            assert(v2.map_values(ids)[j as int] == x.identifier@);
            assert(v2.map_values(ids).contains(x.identifier@));
            assert(v2.to_multiset() =~= v2.to_multiset().remove(x).insert(x));
            assert(v2.map_values(ids).to_multiset() =~= v2.map_values(ids).to_multiset().remove(x.identifier@).insert(
                x.identifier@,
            ));
            assert(v1.to_multiset() == v0.to_multiset().remove(x));
            assert(v1.map_values(ids).to_multiset() == v0.map_values(ids).to_multiset().remove(x.identifier@));
            assert forall|a: int, b: int| 0 <= a < b < i + 1 implies !kind_before(
                kind_id(#[trigger] v2[b]),
                kind_id(#[trigger] v2[a]),
            ) by {
                // Elements before `i` in `v1` are the sorted prefix of `v0`.
                if a == j {
                    // x before every later element.
                    let y = kind_id(v1[b - 1]);
                    assert(kind_before(kx, y));
                    lemma_kind_order(kx, y, kx);
                } else if b == j {
                    let y = kind_id(v1[a]);
                    let z = kind_id(v1[j - 1]);
                    assert(!kind_before(kx, z));
                    lemma_kind_order(kx, z, y);
                    lemma_kind_order(z, kx, y);
                    lemma_kind_order(y, z, kx);
                    if a < j - 1 {
                        assert(v1[a] == v0[a]);
                        assert(v1[j - 1] == v0[j - 1]);
                        assert(!kind_before(z, y));
                    }
                } else {
                    let a1 = if a < j { a } else { a - 1 };
                    let b1 = if b < j { b } else { b - 1 };
                    assert(v2[a] == v1[a1]);
                    assert(v2[b] == v1[b1]);
                    assert(v1[a1] == v0[a1]);
                    assert(v1[b1] == v0[b1]);
                }
            }
        }
        i += 1;
    }
}

/// The last position in the first `k` kinds of `ks` whose value is `value`, or
/// `u32::MAX` if there is none.
pub open spec fn last_with_value(ks: Seq<HighlightKind>, value: u32, k: nat) -> u32
    decreases k,
{
    if k == 0 {
        u32::MAX
    } else if ks[k - 1].value == value {
        (k - 1) as u32
    } else {
        last_with_value(ks, value, (k - 1) as nat)
    }
}

/// `k` renumbered `t` times with `sigma`.
pub open spec fn renumbered(sigma: Seq<u32>, t: nat, k: u32) -> u32
    decreases t,
{
    if t == 0 {
        k
    } else {
        let p = renumbered(sigma, (t - 1) as nat, k);
        if (p as int) < sigma.len() {
            sigma[p as int]
        } else {
            p
        }
    }
}


/// Whether `sigma` takes each old value to the position, in `k1`, of a kind with the
/// identifier that the old value named in `k0`.
pub open spec fn renumbering_ok(k0: Seq<HighlightKind>, k1: Seq<HighlightKind>, sigma: Seq<u32>) -> bool {
    &&& sigma.len() == k0.len()
    &&& forall|v: int|
        0 <= v < k0.len() ==> (#[trigger] sigma[v]) < k1.len() && exists|j: int|
            0 <= j < k0.len() && k0[j].value == v && k1[sigma[v] as int].identifier == #[trigger] k0[j].identifier
}

/// How many of the first `n` functions of `fs` reach node `x` in `g`, along `next` and
/// `then` edges.
pub open spec fn reach_count(g: Seq<Node>, fs: Seq<Function>, n: int, x: NodeId) -> nat
    decreases n,
{
    if n <= 0 || n > fs.len() {
        0
    } else {
        reach_count(g, fs, n - 1, x) + if reachable(g, fs[n - 1].body, x, true) {
            1nat
        } else {
            0nat
        }
    }
}

/// `node` with its highlight kind renumbered `t` times with `sigma`, where it is a
/// `MovKind`; any other node as it is.
pub open spec fn renumber_node(node: Node, sigma: Seq<u32>, t: nat) -> Node {
    match node.instr {
        Op::MovKind { dst, kind } => Node { next: node.next, instr: Op::MovKind { dst, kind: renumbered(sigma, t, kind) } },
        _ => node,
    }
}

/// Whether `g1` is `g0` with each `MovKind` renumbered with `sigma` once for every
/// function of `fs` that reaches it, and nothing else changed.
pub open spec fn nodes_renumbered(g0: Seq<Node>, g1: Seq<Node>, fs: Seq<Function>, sigma: Seq<u32>) -> bool {
    &&& g1.len() == g0.len()
    &&& forall|x: NodeId|
        x.idx() < g0.len() ==> #[trigger] g1[x.idx() as int] == renumber_node(
            g0[x.idx() as int],
            sigma,
            reach_count(g1, fs, fs.len() as int, x),
        )
}

/// Whether each `MovKind` of `g1` stands where `g0` had one with the same destination,
/// its kind renumbered with `sigma` once for every function of `fs` that reaches it in
/// `g1`: once where one function does, and not at all where none does.
pub open spec fn kinds_renumbered(g0: Seq<Node>, g1: Seq<Node>, fs: Seq<Function>, sigma: Seq<u32>) -> bool {
    forall|x: NodeId|
        #![trigger g1[x.idx() as int]]
        x.idx() < g1.len() ==> (g1[x.idx() as int].instr matches Op::MovKind { dst, kind } ==> (
        g0[x.idx() as int].instr matches Op::MovKind { dst: d0, kind: k0 } && d0 == dst && kind == renumbered(
            sigma,
            reach_count(g1, fs, fs.len() as int, x),
            k0,
        )))
}

/// Renumbering once maps a kind through `sigma`.
pub proof fn lemma_renumbered_once(sigma: Seq<u32>, k: u32)
    requires
        k < sigma.len(),
    ensures
        renumbered(sigma, 1, k) == sigma[k as int],
{
    assert(renumbered(sigma, 0, k) == k);
}

/// Renumbering leaves the edges that a walk follows alone.
proof fn lemma_renumber_successors(node: Node, sigma: Seq<u32>, t: nat, ft: bool)
    ensures
        successors(renumber_node(node, sigma, t), ft) == successors(node, ft),
{
}

/// Graphs whose nodes have the same successors reach the same nodes.
proof fn lemma_reachable_same(g: Seq<Node>, h: Seq<Node>, root: NodeId, x: NodeId, ft: bool)
    requires
        g.len() == h.len(),
        forall|y: NodeId| y.idx() < g.len() ==> successors(#[trigger] g[y.idx() as int], ft) == successors(
            h[y.idx() as int],
            ft,
        ),
    ensures
        reachable(g, root, x, ft) == reachable(h, root, x, ft),
{
    assert forall|path: Seq<NodeId>| #[trigger] is_path(g, path, ft) == is_path(h, path, ft) by {
        assert forall|i: int, j: int| 0 <= i && j == i + 1 && j < path.len() implies edge(g, #[trigger] path[i], #[trigger] path[j], ft)
            == edge(h, path[i], path[j], ft) by {
            if path[i].idx() < g.len() {
                assert(successors(g[path[i].idx() as int], ft) == successors(h[path[i].idx() as int], ft));
            }
        }
    }
    if reachable(g, root, x, ft) {
        let path = choose|path: Seq<NodeId>| #![trigger is_path(g, path, ft)]
            path.len() > 0 && path[0] == root && path.last() == x && is_path(g, path, ft);
        assert(is_path(h, path, ft));
    }
    if reachable(h, root, x, ft) {
        let path = choose|path: Seq<NodeId>| #![trigger is_path(h, path, ft)]
            path.len() > 0 && path[0] == root && path.last() == x && is_path(h, path, ft);
        assert(is_path(g, path, ft));
    }
}

/// Graphs whose nodes have the same successors count the same functions reaching a node.
proof fn lemma_reach_count_same(g: Seq<Node>, h: Seq<Node>, fs: Seq<Function>, n: int, x: NodeId)
    requires
        g.len() == h.len(),
        forall|y: NodeId| y.idx() < g.len() ==> successors(#[trigger] g[y.idx() as int], true) == successors(
            h[y.idx() as int],
            true,
        ),
    ensures
        reach_count(g, fs, n, x) == reach_count(h, fs, n, x),
    decreases n,
{
    if 0 < n <= fs.len() {
        lemma_reach_count_same(g, h, fs, n - 1, x);
        lemma_reachable_same(g, h, fs[n - 1].body, x, true);
    }
}

proof fn lemma_last_with_value_found(ks: Seq<HighlightKind>, value: u32, k: nat, j: int)
    requires
        k <= ks.len(),
        k <= u32::MAX + 1,
        0 <= j < k,
        ks[j].value == value,
    ensures
        last_with_value(ks, value, k) < k,
        ks[last_with_value(ks, value, k) as int].value == value,
    decreases k,
{
    if ks[k - 1].value != value {
        lemma_last_with_value_found(ks, value, (k - 1) as nat, j);
    }
}

/// Whether some kind in `ks` has value `v`.
pub open spec fn has_value(ks: Seq<HighlightKind>, v: int) -> bool {
    exists|i: int| 0 <= i < ks.len() && (#[trigger] ks[i]).value == v
}

proof fn lemma_last_with_value(ks: Seq<HighlightKind>, value: u32, k: nat, j: int)
    requires
        0 <= j < k <= ks.len(),
        ks[j].value == value,
    ensures
        last_with_value(ks, value, k) < k,
    decreases k,
{
    if ks[k - 1].value != value {
        lemma_last_with_value(ks, value, (k - 1) as nat, j);
    }
}

/// Whether a program's highlight kinds can be renumbered: their values are the
/// positions `0..n` in some order, and every `MovKind` kind is one of them.
pub open spec fn kinds_ok(p: Program) -> bool {
    let n = p.highlight_kinds@.len();
    &&& n <= u32::MAX + 1
    &&& forall|i: int| 0 <= i < n ==> (#[trigger] p.highlight_kinds@[i]).value < n
    &&& forall|v: int| 0 <= v < n ==> #[trigger] has_value(p.highlight_kinds@, v)
    &&& forall|i: int|
        0 <= i < p.graph.view().len() ==> ((#[trigger] p.graph.view()[i]).instr matches Op::MovKind { kind, .. }
            ==> kind < n)
}

/// Whether every `MovKind` of `g1` stands unchanged in `g0`.
pub open spec fn same_kinds(g0: Seq<Node>, g1: Seq<Node>) -> bool {
    forall|i: int| #![trigger g1[i]] 0 <= i < g1.len() ==> g1[i].instr is MovKind ==> g1[i].instr == g0[i].instr
}

/// This isn't an optimization for the VM, but it makes the output tidy: the
/// highlight kinds are sorted by identifier, their values renumbered to their
/// positions, and every `MovKind` reachable from a function renumbered with them.
fn optimize_highlight_kind_values(program: &mut Program)
    requires
        old(program).wf(),
        kinds_ok(*old(program)),
    ensures
        final(program).wf(),
        program_kept(*old(program), *final(program)),
        ({
            let (k0, k1) = (old(program).highlight_kinds@, final(program).highlight_kinds@);
            &&& k1.len() == k0.len()
            &&& k1.map_values(|k: HighlightKind| k.identifier@).to_multiset()
                == k0.map_values(|k: HighlightKind| k.identifier@).to_multiset()
            &&& kinds_in_order(k1)
            &&& forall|i: int| 0 <= i < k1.len() ==> (#[trigger] k1[i]).value == i
        }),
        kinds_ok(*final(program)),
        final(program).functions == old(program).functions,
        exists|sigma: Seq<u32>|
            renumbering_ok(old(program).highlight_kinds@, final(program).highlight_kinds@, sigma) && #[trigger] nodes_renumbered(
                old(program).graph.view(),
                final(program).graph.view(),
                final(program).functions@,
                sigma,
            ),
{
    let ghost p0 = *program;
    let ghost g0 = program.graph.view();
    let ghost len = g0.len();
    sort_kinds(&mut program.highlight_kinds);
    let ghost sorted = program.highlight_kinds@;
    let n = program.highlight_kinds.len();
    proof {
        broadcast use vstd::seq_lib::group_to_multiset_ensures;
        let k0 = p0.highlight_kinds@;
        assert(sorted.to_multiset() == k0.to_multiset());
        assert(sorted.len() == k0.len());
        assert forall|i: int| 0 <= i < n implies (#[trigger] sorted[i]).value < n by {
            assert(sorted.contains(sorted[i]));
            assert(sorted.to_multiset().count(sorted[i]) > 0);
            assert(k0.contains(sorted[i]));
            let j = choose|j: int| 0 <= j < k0.len() && k0[j] == sorted[i];
            assert(k0[j].value < n);
        }
        assert forall|v: int| 0 <= v < n implies #[trigger] has_value(sorted, v) by {
            assert(has_value(k0, v));
            let i = choose|i: int| 0 <= i < n && (#[trigger] k0[i]).value == v;
            assert(k0.contains(k0[i]));
            assert(sorted.to_multiset().count(k0[i]) > 0);
            assert(sorted.contains(k0[i]));
        }
    }
    let mut mapping: Vec<u32> = vec![u32::MAX; n];
    let mut idx: usize = 0;
    while idx < n
        invariant
            n == sorted.len(),
            n <= u32::MAX + 1,
            idx <= n,
            mapping@.len() == n,
            program.highlight_kinds@.len() == n,
            forall|i: int| 0 <= i < n ==> (#[trigger] sorted[i]).value < n,
            forall|i: int| #![trigger program.highlight_kinds@[i]] 0 <= i < n ==> {
                &&& program.highlight_kinds@[i].identifier == sorted[i].identifier
                &&& program.highlight_kinds@[i].value == if i < idx { i as u32 } else { sorted[i].value }
            },
            forall|v: int| 0 <= v < n ==> #[trigger] mapping@[v] == last_with_value(sorted, v as u32, idx as nat),
            program.graph == p0.graph,
            program.functions == p0.functions,
            program.register_count == p0.register_count,
            program.charsets == p0.charsets,
            program.strings == p0.strings,
        decreases n - idx,
    {
        let v = program.highlight_kinds[idx].value;
        assert(program.highlight_kinds@[idx as int].value == sorted[idx as int].value);
        mapping.set(v as usize, idx as u32);
        program.highlight_kinds[idx].value = idx as u32;
        idx += 1;
    }
    let ghost kinds = program.highlight_kinds@;
    let ghost fs = p0.functions@;
    proof {
        lemma_program_kept_refl(p0);
        assert forall|v: int| 0 <= v < n implies #[trigger] mapping@[v] < n by {
            assert(has_value(sorted, v));
            let j = choose|j: int| 0 <= j < n && (#[trigger] sorted[j]).value == v;
            lemma_last_with_value(sorted, v as u32, n as nat, j);
        }
        broadcast use vstd::seq_lib::group_to_multiset_ensures;
        let k0 = p0.highlight_kinds@;
        assert forall|v: int| 0 <= v < k0.len() implies (#[trigger] mapping@[v]) < kinds.len() && exists|j: int|
            0 <= j < k0.len() && k0[j].value == v && kinds[mapping@[v] as int].identifier == #[trigger] k0[j].identifier by {
            let w = mapping@[v] as int;
            assert(has_value(sorted, v));
            let j0 = choose|j: int| 0 <= j < n && (#[trigger] sorted[j]).value == v;
            lemma_last_with_value_found(sorted, v as u32, n as nat, j0);
            assert(sorted[w].value == v);
            assert(sorted.contains(sorted[w]));
            assert(k0.to_multiset().count(sorted[w]) > 0);
            assert(k0.contains(sorted[w]));
            let j = choose|j: int| 0 <= j < k0.len() && k0[j] == sorted[w];
            assert(kinds[w].identifier == sorted[w].identifier);
        }
        assert(renumbering_ok(k0, kinds, mapping@));
        assert forall|x: NodeId| x.idx() < len implies #[trigger] g0[x.idx() as int] == renumber_node(
            g0[x.idx() as int],
            mapping@,
            reach_count(g0, fs, 0, x),
        ) by {
            if let Op::MovKind { dst, kind } = g0[x.idx() as int].instr {
                assert(renumbered(mapping@, 0, kind) == kind);
            }
        }
    }

    let nf = program.functions.len();
    let mut fi: usize = 0;
    while fi < nf
        invariant
            program.wf(),
            p0.wf(),
            g0 == p0.graph.view(),
            len == g0.len(),
            program.graph.view().len() == len,
            graph_kept(g0, program.graph.view()),
            mapping@.len() == n,
            program.highlight_kinds@.len() == n,
            forall|i: int|
                0 <= i < len ==> ((#[trigger] program.graph.view()[i]).instr matches Op::MovKind { kind, .. }
                    ==> kind < n),
            forall|v: int| 0 <= v < n ==> #[trigger] mapping@[v] < n,
            program.highlight_kinds@ == kinds,
            program.register_count == p0.register_count,
            program.charsets == p0.charsets,
            program.strings == p0.strings,
            program.functions == p0.functions,
            fs == p0.functions@,
            nf == p0.functions@.len(),
            fi <= nf,
            forall|x: NodeId|
                x.idx() < len ==> #[trigger] program.graph.view()[x.idx() as int] == renumber_node(
                    g0[x.idx() as int],
                    mapping@,
                    reach_count(g0, fs, fi as int, x),
                ),
        decreases nf - fi,
    {
        let body = program.functions[fi].body;
        let ghost w = walk_from(g0, None, seq![body], Seq::new(len, |i: int| false), true, len + 1);
        proof {
            assert forall|i: int| 0 <= i < g0.len() implies edges_ok(#[trigger] g0[i], g0.len()) by {
                assert(p0.node_ok(g0[i]));
            }
            lemma_walk_visits_reachable(g0, body, true);
            lemma_fresh_count_all(len);
        }
        let mut visitor = program.visit_nodes_from(body);
        let ghost mut done: Seq<NodeId> = Seq::empty();
        assert(done + walk_from(g0, visitor.current(), visitor.queue(), visitor.visited(), true, fresh_count(visitor.visited()) + 1) =~= w);
        loop
            invariant
                program.wf(),
                visitor.ok_for(len),
                visitor.follows_then(),
                g0 == p0.graph.view(),
                len == g0.len(),
                program.graph.view().len() == len,
                graph_kept(g0, program.graph.view()),
                mapping@.len() == n,
                forall|i: int|
                    0 <= i < len ==> ((#[trigger] program.graph.view()[i]).instr matches Op::MovKind { kind, .. }
                        ==> kind < n),
                forall|v: int| 0 <= v < n ==> #[trigger] mapping@[v] < n,
                program.highlight_kinds@ == kinds,
                program.highlight_kinds@.len() == n,
                program.register_count == p0.register_count,
                program.charsets == p0.charsets,
                program.strings == p0.strings,
                program.functions == p0.functions,
                fs == p0.functions@,
                fi < nf,
                nf == fs.len(),
                body == fs[fi as int].body,
                w == walk_from(g0, None, seq![body], Seq::new(len, |i: int| false), true, len + 1),
                forall|i: int, j: int| 0 <= i < j < w.len() ==> w[i] != w[j],
                done + walk_from(g0, visitor.current(), visitor.queue(), visitor.visited(), true, fresh_count(
                    visitor.visited(),
                ) + 1) == w,
                forall|x: NodeId|
                    x.idx() < len ==> #[trigger] program.graph.view()[x.idx() as int] == renumber_node(
                        g0[x.idx() as int],
                        mapping@,
                        reach_count(g0, fs, fi as int, x) + if done.contains(x) {
                            1nat
                        } else {
                            0nat
                        },
                    ),
            ensures
                program.wf(),
                g0 == p0.graph.view(),
                program.graph.view().len() == len,
                graph_kept(g0, program.graph.view()),
                forall|i: int|
                    0 <= i < len ==> ((#[trigger] program.graph.view()[i]).instr matches Op::MovKind { kind, .. }
                        ==> kind < n),
                program.highlight_kinds@ == kinds,
                program.register_count == p0.register_count,
                program.charsets == p0.charsets,
                program.strings == p0.strings,
                program.functions == p0.functions,
                done == w,
                forall|x: NodeId|
                    x.idx() < len ==> #[trigger] program.graph.view()[x.idx() as int] == renumber_node(
                        g0[x.idx() as int],
                        mapping@,
                        reach_count(g0, fs, fi as int, x) + if done.contains(x) {
                            1nat
                        } else {
                            0nat
                        },
                    ),
            decreases fresh_count(visitor.visited()),
        {
            let ghost g = program.graph.view();
            let ghost rest = walk_from(g0, visitor.current(), visitor.queue(), visitor.visited(), true, fresh_count(
                visitor.visited(),
            ) + 1);
            proof {
                if let Some(c) = visitor.current() {
                    lemma_renumber_successors(g0[c.idx() as int], mapping@, reach_count(g0, fs, fi as int, c) + if done.contains(c) {
                        1nat
                    } else {
                        0nat
                    }, true);
                    assert(g[c.idx() as int] == renumber_node(g0[c.idx() as int], mapping@, reach_count(g0, fs, fi as int, c) + if done.contains(c) {
                        1nat
                    } else {
                        0nat
                    }));
                }
                assert(visitor.pending(g) == visitor.pending(g0));
            }
            let current = match visitor.next(&program.graph) {
                Some(c) => c,
                None => {
                    assert(rest =~= Seq::<NodeId>::empty());
                    assert(done =~= w);
                    assert(walk_from(g0, visitor.current(), visitor.queue(), visitor.visited(), true, fresh_count(visitor.visited()) + 1) =~= Seq::<NodeId>::empty());
                    assert(done + Seq::<NodeId>::empty() =~= done);
                    break;
                },
            };
            proof {
                let k = done.len() as int;
                assert(rest[0] == current);
                assert(w[k] == current);
                assert forall|j: int| 0 <= j < k implies w[j] == done[j] by {}
                if done.contains(current) {
                    let j = choose|j: int| 0 <= j < done.len() && done[j] == current;
                    assert(w[j] == w[k]);
                }
            }
            let ghost d0 = done;
            proof {
                done = done.push(current);
                assert(done + walk_from(g0, visitor.current(), visitor.queue(), visitor.visited(), true, fresh_count(
                    visitor.visited(),
                ) + 1) =~= d0 + rest);
            }
            let node = *program.graph.node(current);
            if let Op::MovKind { dst, kind } = node.instr {
                let new_kind = mapping[kind as usize];
                *program.graph.node_mut(current) = Node { next: node.next, instr: Op::MovKind { dst, kind: new_kind } };
                proof {
                    let g2 = program.graph.view();
                    let c = current.idx() as int;
                    assert(node_kept(g0, g0[c], g[c]));
                    assert(node_kept(g0, g0[c], g2[c]));
                    assert forall|j: int| #![trigger g2[j]] 0 <= j < len implies node_kept(g0, g0[j], g2[j]) by {
                        if j != c {
                            assert(g2[j] == g[j]);
                        }
                    }
                    assert forall|j: int| 0 <= j < len implies program.node_ok(#[trigger] g2[j]) by {
                        if j != c {
                            assert(g2[j] == g[j]);
                        }
                    }
                    assert forall|x: NodeId| x.idx() < len implies #[trigger] g2[x.idx() as int] == renumber_node(
                        g0[x.idx() as int],
                        mapping@,
                        reach_count(g0, fs, fi as int, x) + if done.contains(x) {
                            1nat
                        } else {
                            0nat
                        },
                    ) by {
                        assert(g[x.idx() as int] == renumber_node(
                            g0[x.idx() as int],
                            mapping@,
                            reach_count(g0, fs, fi as int, x) + if d0.contains(x) {
                                1nat
                            } else {
                                0nat
                            },
                        ));
                        if x == current {
                            assert(done.contains(x));
                        } else {
                            assert(x.idx() != current.idx());
                            assert(g2[x.idx() as int] == g[x.idx() as int]);
                            assert(done.contains(x) == d0.contains(x));
                        }
                    }
                }
            } else {
                proof {
                    assert forall|x: NodeId| x.idx() < len implies #[trigger] g[x.idx() as int] == renumber_node(
                        g0[x.idx() as int],
                        mapping@,
                        reach_count(g0, fs, fi as int, x) + if done.contains(x) {
                            1nat
                        } else {
                            0nat
                        },
                    ) by {
                        assert(g[x.idx() as int] == renumber_node(
                            g0[x.idx() as int],
                            mapping@,
                            reach_count(g0, fs, fi as int, x) + if d0.contains(x) {
                                1nat
                            } else {
                                0nat
                            },
                        ));
                        if x != current {
                            assert(done.contains(x) == d0.contains(x));
                        }
                    }
                }
            }
        }
        proof {
            let g = program.graph.view();
            assert forall|x: NodeId| x.idx() < len implies #[trigger] g[x.idx() as int] == renumber_node(
                g0[x.idx() as int],
                mapping@,
                reach_count(g0, fs, fi + 1, x),
            ) by {
                assert(done.contains(x) == reachable(g0, body, x, true));
            }
        }
        fi += 1;
    }
    proof {
        let p1 = *program;
        let g1 = p1.graph.view();
        let (k0, k1) = (p0.highlight_kinds@, p1.highlight_kinds@);
        let ids = |k: HighlightKind| k.identifier@;
        assert(k1.map_values(ids) =~= sorted.map_values(ids));
        assert forall|v: int| 0 <= v < n implies #[trigger] has_value(k1, v) by {
            assert(k1[v].value == v);
        }
        assert forall|x: NodeId| x.idx() < len implies successors(#[trigger] g0[x.idx() as int], true) == successors(
            g1[x.idx() as int],
            true,
        ) by {
            lemma_renumber_successors(g0[x.idx() as int], mapping@, reach_count(g0, fs, nf as int, x), true);
            assert(g1[x.idx() as int] == renumber_node(g0[x.idx() as int], mapping@, reach_count(g0, fs, nf as int, x)));
        }
        assert forall|x: NodeId| x.idx() < len implies #[trigger] g1[x.idx() as int] == renumber_node(
            g0[x.idx() as int],
            mapping@,
            reach_count(g1, fs, fs.len() as int, x),
        ) by {
            lemma_reach_count_same(g0, g1, fs, nf as int, x);
        }
        assert(nodes_renumbered(g0, g1, p1.functions@, mapping@));
    }
}

/// Optimizes the program in place. No-ops are removed first, so that analyzing
/// instruction chains becomes easier for the other passes; then pointless offset
/// backups and restores go; last, the highlight kinds are sorted and renumbered.
pub fn optimize(program: &mut Program)
    requires
        old(program).wf(),
        kinds_ok(*old(program)),
    ensures
        final(program).wf(),
        program_kept(*old(program), *final(program)),
        kinds_ok(*final(program)),
        ({
            let (k0, k1) = (old(program).highlight_kinds@, final(program).highlight_kinds@);
            &&& k1.len() == k0.len()
            &&& k1.map_values(|k: HighlightKind| k.identifier@).to_multiset()
                == k0.map_values(|k: HighlightKind| k.identifier@).to_multiset()
            &&& kinds_in_order(k1)
            &&& forall|i: int| 0 <= i < k1.len() ==> (#[trigger] k1[i]).value == i
        }),
        exists|sigma: Seq<u32>|
            renumbering_ok(old(program).highlight_kinds@, final(program).highlight_kinds@, sigma) && #[trigger] kinds_renumbered(
                old(program).graph.view(),
                final(program).graph.view(),
                final(program).functions@,
                sigma,
            ),
{
    let ghost p0 = *program;
    optimize_noop(program);
    let ghost p1 = *program;
    optimize_redundant_offset_backup_restore(program);
    let ghost p2 = *program;
    proof {
        let (g0, g1, g2) = (p0.graph.view(), p1.graph.view(), p2.graph.view());
        assert forall|i: int| 0 <= i < g2.len() implies ((#[trigger] g2[i]).instr matches Op::MovKind { kind, .. }
            ==> kind < p2.highlight_kinds@.len()) by {
            if g2[i].instr is MovKind {
                assert(g2[i].instr == g1[i].instr);
                assert(g1[i].instr == g0[i].instr);
            }
        }
        lemma_program_kept_trans(p0, p1, p2);
    }
    optimize_highlight_kind_values(program);
    proof {
        lemma_program_kept_trans(p0, p2, *program);
        let p3 = *program;
        let sigma = choose|sigma: Seq<u32>|
            renumbering_ok(p2.highlight_kinds@, p3.highlight_kinds@, sigma) && #[trigger] nodes_renumbered(
                p2.graph.view(),
                p3.graph.view(),
                p3.functions@,
                sigma,
            );
        let (g0, g1, g2, g3) = (p0.graph.view(), p1.graph.view(), p2.graph.view(), p3.graph.view());
        assert forall|x: NodeId| #![trigger g3[x.idx() as int]] x.idx() < g3.len() implies (g3[x.idx() as int].instr matches Op::MovKind { dst, kind } ==> (
            g0[x.idx() as int].instr matches Op::MovKind { dst: d0, kind: k0 } && d0 == dst && kind == renumbered(
                sigma,
                reach_count(g3, p3.functions@, p3.functions@.len() as int, x),
                k0,
            ))) by {
            let i = x.idx() as int;
            if g3[i].instr is MovKind {
                assert(g3[x.idx() as int] == renumber_node(g2[x.idx() as int], sigma, reach_count(g3, p3.functions@, p3.functions@.len() as int, x)));
                assert(g2[i].instr is MovKind);
                assert(g2[i].instr == g1[i].instr);
                assert(g1[i].instr == g0[i].instr);
            }
        }
        assert(kinds_renumbered(g0, g3, p3.functions@, sigma));
    }
}

} // verus!
