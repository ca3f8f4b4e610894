//! Provenance chains end: no local is, through any number of links, a copy
//! of itself, so following the links from a local leads to the local whose
//! value it holds.

use crate::facts::FactSet;
use crate::program::{Body, Edge, Statement, Terminator};
use crate::walk::{
    apply, apply_first, arrive, assign, detach, fits, leave_first, meet_states, refine, root,
    start, walk_block, walk_first, walked, Known, Walk,
};
use vstd::prelude::*;
use vstd::set_lib::{lemma_int_range, lemma_len_subset, set_int_range};

verus! {

/// Every link leads to a local of lower rank.
pub open spec fn ranked(origin: Seq<Option<usize>>, rank: Seq<nat>) -> bool {
    &&& rank.len() == origin.len()
    &&& forall|v: int|
        0 <= v < origin.len() ==> ((#[trigger] origin[v]) matches Some(w) ==> w < origin.len()
            && rank[w as int] < rank[v])
}

/// The links can be ranked: no chain of links comes back to where it began.
pub open spec fn acyclic(origin: Seq<Option<usize>>) -> bool {
    exists|rank: Seq<nat>| ranked(origin, rank)
}

/// The state speaks of `locals` locals and its links can be ranked.
pub open spec fn grounded(known: Known, locals: nat) -> bool {
    fits(known, locals) && acyclic(known.origin)
}

/// The locals of lower rank than `v`.
spec fn below(rank: Seq<nat>, v: int) -> Set<int> {
    Set::new(|x: int| 0 <= x < rank.len() && rank[x] < rank[v])
}

proof fn lemma_below_bounded(rank: Seq<nat>, v: int)
    requires
        0 <= v < rank.len(),
    ensures
        below(rank, v).finite(),
        below(rank, v).len() < rank.len(),
{
    let all = set_int_range(0, rank.len() as int);
    lemma_int_range(0, rank.len() as int);
    assert(below(rank, v).subset_of(all.remove(v)));
    lemma_len_subset(below(rank, v), all.remove(v));
}

proof fn lemma_below_shrinks(origin: Seq<Option<usize>>, rank: Seq<nat>, v: int, w: int)
    requires
        ranked(origin, rank),
        0 <= v < origin.len(),
        origin[v] == Some(w as usize),
        0 <= w <= usize::MAX,
    ensures
        below(rank, w).len() < below(rank, v).len(),
{
    lemma_below_bounded(rank, v);
    assert(below(rank, v).contains(w));
    assert(below(rank, w).subset_of(below(rank, v).remove(w)));
    lemma_len_subset(below(rank, w), below(rank, v).remove(w));
}

/// Following the links for as many steps as there are locals of lower rank
/// leads to a local without a link.
proof fn lemma_root_ends(origin: Seq<Option<usize>>, rank: Seq<nat>, v: int, steps: nat)
    requires
        ranked(origin, rank),
        0 <= v < origin.len(),
        below(rank, v).len() <= steps,
    ensures
        0 <= root(origin, v, steps) < origin.len(),
        origin[root(origin, v, steps)].is_none(),
    decreases steps,
{
    match origin[v] {
        Some(w) => {
            lemma_below_shrinks(origin, rank, v, w as int);
            lemma_root_ends(origin, rank, w as int, (steps - 1) as nat);
        },
        None => {},
    }
}

/// Where no chain of links comes back to where it began, following the links
/// from a local ends at a local that is a copy of nothing.
pub proof fn lemma_chains_end(origin: Seq<Option<usize>>, v: int)
    requires
        acyclic(origin),
        0 <= v < origin.len(),
    ensures
        0 <= root(origin, v, origin.len()) < origin.len(),
        origin[root(origin, v, origin.len())].is_none(),
{
    let rank = choose|rank: Seq<nat>| ranked(origin, rank);
    lemma_below_bounded(rank, v);
    lemma_root_ends(origin, rank, v, origin.len());
}

proof fn lemma_assign(known: Known, dst: int, facts: FactSet, from: Option<usize>, locals: nat)
    requires
        grounded(known, locals),
        0 <= dst < locals,
        from matches Some(s) ==> s < locals && s != dst,
    ensures
        grounded(assign(known, dst, facts, from), locals),
{
    let rank = choose|rank: Seq<nat>| ranked(known.origin, rank);
    let after = assign(known, dst, facts, from);
    let ranks = match from {
        Some(s) => rank.update(dst, rank[s as int] + 1),
        None => rank,
    };
    assert forall|v: int| 0 <= v < after.origin.len() implies ((
    #[trigger] after.origin[v]) matches Some(w) ==> w < after.origin.len() && ranks[w as int]
        < ranks[v]) by {
        if v != dst {
            assert(after.origin[v] == detach(known.origin, dst)[v]);
            if after.origin[v].is_some() {
                assert(after.origin[v] == known.origin[v]);
            }
        }
    }
    assert(ranked(after.origin, ranks));
}

proof fn lemma_apply(statement: Statement, known: Known, locals: nat, functions: nat)
    requires
        grounded(known, locals),
        statement.valid(locals, functions),
    ensures
        grounded(apply(statement, known), locals),
{
    match statement {
        Statement::Copy { dst, src } => {
            if dst != src {
                lemma_assign(known, dst as int, known.facts[src as int], Some(src), locals);
            }
        },
        Statement::Define { dst, facts } => {
            lemma_assign(known, dst as int, facts, None, locals);
        },
        Statement::FnRef { dst, function } => {
            lemma_assign(known, dst as int, FactSet::none(), None, locals);
        },
    }
}

proof fn lemma_apply_first(
    statements: Seq<Statement>,
    k: nat,
    known: Known,
    locals: nat,
    functions: nat,
)
    requires
        grounded(known, locals),
        k <= statements.len(),
        forall|i: int|
            0 <= i < statements.len() ==> (#[trigger] statements[i]).valid(locals, functions),
    ensures
        grounded(apply_first(statements, k, known), locals),
    decreases k,
{
    if k > 0 {
        lemma_apply_first(statements, (k - 1) as nat, known, locals, functions);
        lemma_apply(
            statements[k - 1],
            apply_first(statements, (k - 1) as nat, known),
            locals,
            functions,
        );
    }
}

proof fn lemma_meet(a: Known, b: Known, locals: nat)
    requires
        grounded(a, locals),
        grounded(b, locals),
    ensures
        grounded(meet_states(a, b), locals),
{
    let rank = choose|rank: Seq<nat>| ranked(a.origin, rank);
    let met = meet_states(a, b);
    assert forall|v: int| 0 <= v < met.origin.len() implies ((
    #[trigger] met.origin[v]) matches Some(w) ==> w < met.origin.len() && rank[w as int]
        < rank[v]) by {
        if met.origin[v].is_some() {
            assert(met.origin[v] == a.origin[v]);
        }
    }
    assert(ranked(met.origin, rank));
}

/// Every state of the walk speaks of `locals` locals and has links that can
/// be ranked.
pub open spec fn states_grounded(walk: Walk, blocks: nat, locals: nat) -> bool {
    &&& walk.seen.len() == blocks
    &&& walk.done.len() == blocks
    &&& walk.states.len() == blocks
    &&& forall|b: int| 0 <= b < blocks ==> grounded(#[trigger] walk.states[b], locals)
}

proof fn lemma_arrive(walk: Walk, t: int, state: Known, blocks: nat, locals: nat)
    requires
        states_grounded(walk, blocks, locals),
        grounded(state, locals),
        0 <= t < blocks,
    ensures
        states_grounded(arrive(walk, t, state), blocks, locals),
{
    let after = arrive(walk, t, state);
    lemma_meet(walk.states[t], state, locals);
    assert forall|b: int| 0 <= b < blocks implies grounded(#[trigger] after.states[b], locals) by {
        if b != t {
            assert(after.states[b] == walk.states[b]);
        }
    }
}

proof fn lemma_leave_first(
    walk: Walk,
    edges: Seq<Edge>,
    k: nat,
    state: Known,
    blocks: nat,
    locals: nat,
)
    requires
        states_grounded(walk, blocks, locals),
        grounded(state, locals),
        k <= edges.len(),
        forall|i: int| 0 <= i < edges.len() ==> (#[trigger] edges[i]).valid(locals, blocks),
    ensures
        states_grounded(leave_first(walk, edges, k, state), blocks, locals),
    decreases k,
{
    if k > 0 {
        lemma_leave_first(walk, edges, (k - 1) as nat, state, blocks, locals);
        let beyond = refine(state, edges[k - 1]);
        assert(edges[k - 1].valid(locals, blocks));
        assert(grounded(beyond, locals)) by {
            let rank = choose|rank: Seq<nat>| ranked(state.origin, rank);
            assert(ranked(beyond.origin, rank));
        }
        lemma_arrive(
            leave_first(walk, edges, (k - 1) as nat, state),
            edges[k - 1].target as int,
            beyond,
            blocks,
            locals,
        );
    }
}

proof fn lemma_walk_block(body: Body, landing: Seq<FactSet>, walk: Walk, b: int, functions: nat)
    requires
        body.valid(functions),
        states_grounded(walk, body.blocks@.len(), body.locals as nat),
        0 <= b < body.blocks@.len(),
    ensures
        states_grounded(
            walk_block(body.blocks@, landing, walk, b),
            body.blocks@.len(),
            body.locals as nat,
        ),
{
    let blocks = body.blocks@;
    let n = blocks.len();
    let locals = body.locals as nat;
    if walk.seen[b] && !walk.done[b] {
        assert(blocks[b].valid(locals, n, functions));
        let state = apply_first(blocks[b].statements@, blocks[b].statements@.len(), walk.states[b]);
        lemma_apply_first(
            blocks[b].statements@,
            blocks[b].statements@.len(),
            walk.states[b],
            locals,
            functions,
        );
        let here = Walk {
            done: walk.done.update(b, true),
            states: walk.states.update(b, state),
            ..walk
        };
        assert forall|x: int| 0 <= x < n implies grounded(#[trigger] here.states[x], locals) by {
            if x != b {
                assert(here.states[x] == walk.states[x]);
            }
        }
        match blocks[b].terminator {
            Terminator::Branch { edges } => {
                lemma_leave_first(here, edges@, edges@.len(), state, n, locals);
            },
            Terminator::Call { callee, args, dest, target } => {
                match target {
                    Some(t) => {
                        lemma_assign(state, dest as int, landing[b], None, locals);
                        lemma_arrive(
                            here,
                            t as int,
                            assign(state, dest as int, landing[b], None),
                            n,
                            locals,
                        );
                    },
                    None => {},
                }
            },
            Terminator::Return => {},
        }
    }
}

proof fn lemma_walk_first(
    body: Body,
    landing: Seq<FactSet>,
    order: Seq<usize>,
    k: nat,
    walk: Walk,
    functions: nat,
)
    requires
        body.valid(functions),
        states_grounded(walk, body.blocks@.len(), body.locals as nat),
        k <= order.len(),
        forall|i: int| 0 <= i < order.len() ==> (#[trigger] order[i]) < body.blocks@.len(),
    ensures
        states_grounded(
            walk_first(body.blocks@, landing, order, k, walk),
            body.blocks@.len(),
            body.locals as nat,
        ),
    decreases k,
{
    if k > 0 {
        lemma_walk_first(body, landing, order, (k - 1) as nat, walk, functions);
        lemma_walk_block(
            body,
            landing,
            walk_first(body.blocks@, landing, order, (k - 1) as nat, walk),
            order[k - 1] as int,
            functions,
        );
    }
}

/// In every state of a walk that begins without a link, the provenance chain
/// of every local ends: following the links from it, for as many steps as
/// there are locals, leads to a local that is a copy of nothing.
pub proof fn law_provenance_chains_end(
    body: Body,
    functions: nat,
    landing: Seq<FactSet>,
    order: Seq<usize>,
    seed: Known,
    b: int,
    v: int,
)
    requires
        body.valid(functions),
        fits(seed, body.locals as nat),
        forall|x: int| 0 <= x < seed.origin.len() ==> (#[trigger] seed.origin[x]).is_none(),
        forall|i: int| 0 <= i < order.len() ==> (#[trigger] order[i]) < body.blocks@.len(),
        0 <= b < body.blocks@.len(),
        0 <= v < body.locals,
    ensures
        fits(walked(body.blocks@, landing, order, seed).states[b], body.locals as nat),
        0 <= root(
            walked(body.blocks@, landing, order, seed).states[b].origin,
            v,
            body.locals as nat,
        ) < body.locals,
        walked(body.blocks@, landing, order, seed).states[b].origin[root(
            walked(body.blocks@, landing, order, seed).states[b].origin,
            v,
            body.locals as nat,
        )].is_none(),
{
    let first = start(body.blocks@.len(), seed);
    let rank = Seq::new(seed.origin.len(), |x: int| 0nat);
    assert(ranked(seed.origin, rank));
    assert(states_grounded(first, body.blocks@.len(), body.locals as nat));
    lemma_walk_first(body, landing, order, order.len(), first, functions);
    let state = walked(body.blocks@, landing, order, seed).states[b];
    assert(grounded(state, body.locals as nat));
    lemma_chains_end(state.origin, v);
}

} // verus!
