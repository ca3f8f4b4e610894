//! The forward walk over one body.
//!
//! The walk keeps, for every local, the set of facts established on every
//! path walked so far. Blocks are taken in the given order. A block hands its
//! state on along each outgoing edge; where several edges meet, only the facts
//! that hold on all of them survive. An edge that leads back to a block
//! already walked hands on nothing.

use crate::facts::FactSet;
use crate::program::{Block, Body, Edge, Statement, Terminator};
use vstd::prelude::*;

verus! {

/// What is known of the locals at one point of a body.
#[derive(Debug)]
pub struct AbstractState {
    /// For each local, the facts established of its value.
    pub facts: Vec<FactSet>,
    /// For each local, the local of which it is an unchanged copy, if there is
    /// one. The links form the provenance chain of a value.
    pub origin: Vec<Option<usize>>,
}

/// What an `AbstractState` says.
pub struct Known {
    pub facts: Seq<FactSet>,
    pub origin: Seq<Option<usize>>,
}

impl View for AbstractState {
    type V = Known;

    open spec fn view(&self) -> Known {
        Known { facts: self.facts@, origin: self.origin@ }
    }
}

/// The state speaks of `locals` locals, and every link leads to one of them.
pub open spec fn fits(known: Known, locals: nat) -> bool {
    &&& known.facts.len() == locals
    &&& known.origin.len() == locals
    &&& forall|v: int|
        0 <= v < locals ==> ((#[trigger] known.origin[v]) matches Some(w) ==> w < locals)
}

/// The links after `w` has been written: `w` is a copy of nothing, and
/// nothing is a copy of `w` any more.
pub open spec fn detach(origin: Seq<Option<usize>>, w: int) -> Seq<Option<usize>> {
    Seq::new(
        origin.len(),
        |v: int|
            if v == w || (origin[v] matches Some(o) && o == w) {
                None
            } else {
                origin[v]
            },
    )
}

/// The state after `dst` has been written: `facts` are known of it, and it is
/// a copy of `from`.
pub open spec fn assign(known: Known, dst: int, facts: FactSet, from: Option<usize>) -> Known {
    Known {
        facts: known.facts.update(dst, facts),
        origin: detach(known.origin, dst).update(dst, from),
    }
}

/// The state after one statement.
pub open spec fn apply(statement: Statement, known: Known) -> Known {
    match statement {
        Statement::Copy { dst, src } => if dst == src {
            known
        } else {
            assign(known, dst as int, known.facts[src as int], Some(src))
        },
        Statement::Define { dst, facts } => assign(known, dst as int, facts, None),
        Statement::FnRef { dst, function } => assign(known, dst as int, FactSet::none(), None),
    }
}

/// The state after the first `k` statements.
pub open spec fn apply_first(statements: Seq<Statement>, k: nat, known: Known) -> Known
    decreases k,
{
    if k == 0 {
        known
    } else {
        apply(statements[k - 1], apply_first(statements, (k - 1) as nat, known))
    }
}

/// The local at the end of the provenance chain of `v`, following at most
/// `steps` links.
pub open spec fn root(origin: Seq<Option<usize>>, v: int, steps: nat) -> int
    decreases steps,
{
    if steps == 0 {
        v
    } else {
        match origin[v] {
            Some(w) => root(origin, w as int, (steps - 1) as nat),
            None => v,
        }
    }
}

/// `a` and `b` hold the same value: their provenance chains, followed for as
/// many links as there are locals, end in the same local.
pub open spec fn same_value(origin: Seq<Option<usize>>, a: int, b: int) -> bool {
    root(origin, a, origin.len()) == root(origin, b, origin.len())
}

/// For each local, the facts that both states hold of it; a link where both
/// states have it.
pub open spec fn meet_states(a: Known, b: Known) -> Known {
    Known {
        facts: Seq::new(a.facts.len(), |i: int| a.facts[i].meet(b.facts[i])),
        origin: Seq::new(
            a.origin.len(),
            |i: int|
                if a.origin[i] == b.origin[i] {
                    a.origin[i]
                } else {
                    None
                },
        ),
    }
}

/// The state on the far side of an edge: the facts of the edge are
/// established of its value and of every local that holds the same value.
pub open spec fn refine(known: Known, edge: Edge) -> Known {
    Known {
        facts: Seq::new(
            known.facts.len(),
            |x: int|
                if same_value(known.origin, x, edge.value as int) {
                    known.facts[x].join(edge.facts)
                } else {
                    known.facts[x]
                },
        ),
        origin: known.origin,
    }
}

/// The state in which no fact is known of any of `locals` locals, and none is
/// a copy of another.
pub open spec fn blank(locals: nat) -> Known {
    Known {
        facts: Seq::new(locals, |i: int| FactSet::none()),
        origin: Seq::new(locals, |i: int| None::<usize>),
    }
}

/// What a walk knows.
pub struct Walk {
    /// For each block, whether a state has arrived at it.
    pub seen: Seq<bool>,
    /// For each block, whether it has been walked.
    pub done: Seq<bool>,
    /// For each block that has been walked, the state at its terminator; for
    /// each other block that was seen, the state at its entry.
    pub states: Seq<Known>,
    /// The facts that hold of the return value at every return walked so far.
    pub returned: Option<FactSet>,
}

/// The walk before its first block: `seed` has arrived at the entry block.
pub open spec fn start(blocks: nat, seed: Known) -> Walk {
    Walk {
        seen: Seq::new(blocks, |b: int| b == 0),
        done: Seq::new(blocks, |b: int| false),
        states: Seq::new(blocks, |b: int| seed),
        returned: None,
    }
}

/// `state` arrives at block `t`.
pub open spec fn arrive(walk: Walk, t: int, state: Known) -> Walk {
    if walk.done[t] {
        walk
    } else if walk.seen[t] {
        Walk { states: walk.states.update(t, meet_states(walk.states[t], state)), ..walk }
    } else {
        Walk { seen: walk.seen.update(t, true), states: walk.states.update(t, state), ..walk }
    }
}

/// `state` leaves along the first `k` edges.
pub open spec fn leave_first(walk: Walk, edges: Seq<Edge>, k: nat, state: Known) -> Walk
    decreases k,
{
    if k == 0 {
        walk
    } else {
        arrive(
            leave_first(walk, edges, (k - 1) as nat, state),
            edges[k - 1].target as int,
            refine(state, edges[k - 1]),
        )
    }
}

/// The facts common to all returns: those of the returns so far that also
/// hold of `value`.
pub open spec fn also_returned(returned: Option<FactSet>, value: FactSet) -> Option<FactSet> {
    match returned {
        None => Some(value),
        Some(r) => Some(r.meet(value)),
    }
}

/// Walks block `b`. `landing[b]` holds what is known of the value that the
/// call ending block `b` returns.
pub open spec fn walk_block(blocks: Seq<Block>, landing: Seq<FactSet>, walk: Walk, b: int) -> Walk {
    if !walk.seen[b] || walk.done[b] {
        walk
    } else {
        let state = apply_first(
            blocks[b].statements@,
            blocks[b].statements@.len(),
            walk.states[b],
        );
        let here = Walk {
            done: walk.done.update(b, true),
            states: walk.states.update(b, state),
            ..walk
        };
        match blocks[b].terminator {
            Terminator::Branch { edges } => leave_first(here, edges@, edges@.len(), state),
            Terminator::Call { callee, args, dest, target } => match target {
                Some(t) => arrive(here, t as int, assign(state, dest as int, landing[b], None)),
                None => here,
            },
            Terminator::Return => Walk {
                returned: also_returned(here.returned, state.facts[0]),
                ..here
            },
        }
    }
}

/// Walks the first `k` blocks of `order`.
pub open spec fn walk_first(
    blocks: Seq<Block>,
    landing: Seq<FactSet>,
    order: Seq<usize>,
    k: nat,
    walk: Walk,
) -> Walk
    decreases k,
{
    if k == 0 {
        walk
    } else {
        walk_block(
            blocks,
            landing,
            walk_first(blocks, landing, order, (k - 1) as nat, walk),
            order[k - 1] as int,
        )
    }
}

/// The whole walk of a body.
pub open spec fn walked(
    blocks: Seq<Block>,
    landing: Seq<FactSet>,
    order: Seq<usize>,
    seed: Known,
) -> Walk {
    walk_first(blocks, landing, order, order.len(), start(blocks.len(), seed))
}

/// The shape that a walk keeps: one entry per block, one set per local.
pub open spec fn well_shaped(walk: Walk, blocks: nat, locals: nat) -> bool {
    &&& walk.seen.len() == blocks
    &&& walk.done.len() == blocks
    &&& walk.states.len() == blocks
    &&& forall|b: int| 0 <= b < blocks ==> fits(#[trigger] walk.states[b], locals)
}

/// The states held for each block.
pub open spec fn states_view(states: Seq<AbstractState>) -> Seq<Known> {
    Seq::new(states.len(), |b: int| states[b]@)
}

/// The walk in progress.
pub struct Walker {
    seen: Vec<bool>,
    done: Vec<bool>,
    states: Vec<AbstractState>,
    returned: Option<FactSet>,
}

impl View for Walker {
    type V = Walk;

    closed spec fn view(&self) -> Walk {
        Walk {
            seen: self.seen@,
            done: self.done@,
            states: states_view(self.states@),
            returned: self.returned,
        }
    }
}

fn copy_facts(facts: &Vec<FactSet>) -> (r: Vec<FactSet>)
    ensures
        r@ == facts@,
{
    let mut r: Vec<FactSet> = Vec::new();
    let mut i: usize = 0;
    while i < facts.len()
        invariant
            i <= facts@.len(),
            r@ == facts@.subrange(0, i as int),
        decreases facts@.len() - i,
    {
        r.push(facts[i]);
        assert(facts@.subrange(0, i + 1) =~= facts@.subrange(0, i as int).push(facts@[i as int]));
        i += 1;
    }
    assert(facts@.subrange(0, i as int) =~= facts@);
    r
}

fn copy_links(origin: &Vec<Option<usize>>) -> (r: Vec<Option<usize>>)
    ensures
        r@ == origin@,
{
    let mut r: Vec<Option<usize>> = Vec::new();
    let mut i: usize = 0;
    while i < origin.len()
        invariant
            i <= origin@.len(),
            r@ == origin@.subrange(0, i as int),
        decreases origin@.len() - i,
    {
        r.push(origin[i]);
        assert(origin@.subrange(0, i + 1) =~= origin@.subrange(0, i as int).push(
            origin@[i as int],
        ));
        i += 1;
    }
    assert(origin@.subrange(0, i as int) =~= origin@);
    r
}

/// A copy of a state.
pub(crate) fn copy_state(state: &AbstractState) -> (r: AbstractState)
    ensures
        r@ == state@,
{
    AbstractState { facts: copy_facts(&state.facts), origin: copy_links(&state.origin) }
}

/// The state without any fact and without any link.
pub(crate) fn blank_state(locals: usize) -> (r: AbstractState)
    ensures
        r@ == blank(locals as nat),
        fits(r@, locals as nat),
{
    let mut facts: Vec<FactSet> = Vec::new();
    let mut origin: Vec<Option<usize>> = Vec::new();
    while facts.len() < locals
        invariant
            facts@.len() <= locals,
            origin@.len() == facts@.len(),
            forall|i: int| 0 <= i < facts@.len() ==> facts@[i] == FactSet::none(),
            forall|i: int| 0 <= i < origin@.len() ==> origin@[i] == None::<usize>,
        decreases locals - facts@.len(),
    {
        facts.push(FactSet::empty());
        origin.push(None);
    }
    let r = AbstractState { facts, origin };
    assert(r@.facts =~= blank(locals as nat).facts);
    assert(r@.origin =~= blank(locals as nat).origin);
    r
}

fn same_link(a: Option<usize>, b: Option<usize>) -> (r: bool)
    ensures
        r == (a == b),
{
    match a {
        Some(x) => match b {
            Some(y) => x == y,
            None => false,
        },
        None => match b {
            Some(y) => false,
            None => true,
        },
    }
}

fn meet_of(a: &AbstractState, b: &AbstractState, Ghost(locals): Ghost<nat>) -> (r: AbstractState)
    requires
        fits(a@, locals),
        fits(b@, locals),
    ensures
        r@ == meet_states(a@, b@),
        fits(r@, locals),
{
    let mut facts: Vec<FactSet> = Vec::new();
    let mut origin: Vec<Option<usize>> = Vec::new();
    let mut i: usize = 0;
    while i < a.facts.len()
        invariant
            fits(a@, locals),
            fits(b@, locals),
            i <= locals,
            facts@.len() == i,
            origin@.len() == i,
            forall|j: int| 0 <= j < i ==> facts@[j] == a@.facts[j].meet(b@.facts[j]),
            forall|j: int|
                0 <= j < i ==> origin@[j] == if a@.origin[j] == b@.origin[j] {
                    a@.origin[j]
                } else {
                    None
                },
        decreases locals - i,
    {
        facts.push(a.facts[i].intersection(b.facts[i]));
        let link = if same_link(a.origin[i], b.origin[i]) {
            a.origin[i]
        } else {
            None
        };
        origin.push(link);
        i += 1;
    }
    let r = AbstractState { facts, origin };
    assert(r@.facts =~= meet_states(a@, b@).facts);
    assert(r@.origin =~= meet_states(a@, b@).origin);
    r
}

/// Writes `dst`.
fn assign_to(
    state: &mut AbstractState,
    dst: usize,
    facts: FactSet,
    from: Option<usize>,
    Ghost(locals): Ghost<nat>,
)
    requires
        fits(old(state)@, locals),
        dst < locals,
        from matches Some(w) ==> w < locals,
    ensures
        final(state)@ == assign(old(state)@, dst as int, facts, from),
        fits(final(state)@, locals),
{
    let ghost before = state@;
    let n: usize = state.origin.len();
    let mut v: usize = 0;
    while v < n
        invariant
            n == locals,
            dst < locals,
            v <= n,
            state@.facts == before.facts,
            state@.origin.len() == n,
            fits(before, locals),
            forall|j: int| 0 <= j < v ==> state@.origin[j] == detach(before.origin, dst as int)[j],
            forall|j: int| v <= j < n ==> state@.origin[j] == before.origin[j],
        decreases n - v,
    {
        let cut = v == dst || match state.origin[v] {
            Some(o) => o == dst,
            None => false,
        };
        if cut {
            state.origin.set(v, None);
        }
        v += 1;
    }
    state.origin.set(dst, from);
    state.facts.set(dst, facts);
    proof {
        assert(state@.origin =~= detach(before.origin, dst as int).update(dst as int, from));
    }
}

fn apply_all(
    statements: &Vec<Statement>,
    state: &mut AbstractState,
    functions: usize,
    Ghost(locals): Ghost<nat>,
)
    requires
        fits(old(state)@, locals),
        forall|i: int|
            0 <= i < statements@.len() ==> (#[trigger] statements@[i]).valid(
                locals,
                functions as nat,
            ),
    ensures
        final(state)@ == apply_first(statements@, statements@.len(), old(state)@),
        fits(final(state)@, locals),
{
    let ghost first = state@;
    let mut k: usize = 0;
    while k < statements.len()
        invariant
            forall|i: int|
                0 <= i < statements@.len() ==> (#[trigger] statements@[i]).valid(
                    locals,
                    functions as nat,
                ),
            k <= statements@.len(),
            fits(state@, locals),
            state@ == apply_first(statements@, k as nat, first),
        decreases statements@.len() - k,
    {
        assert(statements@[k as int].valid(locals, functions as nat));
        match statements[k] {
            Statement::Copy { dst, src } => {
                if dst != src {
                    let value = state.facts[src];
                    assign_to(state, dst, value, Some(src), Ghost(locals));
                }
            },
            Statement::Define { dst, facts } => {
                assign_to(state, dst, facts, None, Ghost(locals));
            },
            Statement::FnRef { dst, function } => {
                assign_to(state, dst, FactSet::empty(), None, Ghost(locals));
            },
        }
        k += 1;
    }
}

/// The local at the end of the provenance chain of `v`.
fn root_of(origin: &Vec<Option<usize>>, v: usize, steps: usize) -> (r: usize)
    requires
        v < origin@.len(),
        forall|x: int|
            0 <= x < origin@.len() ==> ((#[trigger] origin@[x]) matches Some(w) ==> w
                < origin@.len()),
    ensures
        r == root(origin@, v as int, steps as nat),
        r < origin@.len(),
    decreases steps,
{
    if steps == 0 {
        return v;
    }
    match origin[v] {
        Some(w) => root_of(origin, w, steps - 1),
        None => v,
    }
}

/// The state on the far side of `edge`.
fn refined(state: &AbstractState, edge: Edge, Ghost(locals): Ghost<nat>) -> (r: AbstractState)
    requires
        fits(state@, locals),
        edge.value < locals,
    ensures
        r@ == refine(state@, edge),
        fits(r@, locals),
{
    let n: usize = state.facts.len();
    let end = root_of(&state.origin, edge.value, n);
    let mut facts: Vec<FactSet> = Vec::new();
    let mut x: usize = 0;
    while x < n
        invariant
            fits(state@, locals),
            n == locals,
            end == root(state@.origin, edge.value as int, n as nat),
            x <= n,
            facts@.len() == x,
            forall|j: int|
                0 <= j < x ==> facts@[j] == if same_value(state@.origin, j, edge.value as int) {
                    state@.facts[j].join(edge.facts)
                } else {
                    state@.facts[j]
                },
        decreases n - x,
    {
        let known = if root_of(&state.origin, x, n) == end {
            state.facts[x].union(edge.facts)
        } else {
            state.facts[x]
        };
        facts.push(known);
        x += 1;
    }
    let r = AbstractState { facts, origin: copy_links(&state.origin) };
    assert(r@.facts =~= refine(state@, edge).facts);
    r
}

impl Walker {
    fn new(blocks: usize, seed: &AbstractState, Ghost(locals): Ghost<nat>) -> (w: Walker)
        requires
            blocks >= 1,
            fits(seed@, locals),
        ensures
            w@ == start(blocks as nat, seed@),
            well_shaped(w@, blocks as nat, locals),
    {
        let mut seen: Vec<bool> = Vec::new();
        let mut done: Vec<bool> = Vec::new();
        let mut states: Vec<AbstractState> = Vec::new();
        while seen.len() < blocks
            invariant
                seen@.len() <= blocks,
                done@.len() == seen@.len(),
                states@.len() == seen@.len(),
                forall|b: int| 0 <= b < seen@.len() ==> seen@[b] == (b == 0),
                forall|b: int| 0 <= b < seen@.len() ==> !done@[b],
                forall|b: int| 0 <= b < seen@.len() ==> (#[trigger] states@[b])@ == seed@,
            decreases blocks - seen@.len(),
        {
            let first = seen.len() == 0;
            seen.push(first);
            done.push(false);
            states.push(copy_state(seed));
        }
        let w = Walker { seen, done, states, returned: None };
        proof {
            assert(w@.seen =~= start(blocks as nat, seed@).seen);
            assert(w@.done =~= start(blocks as nat, seed@).done);
            assert(w@.states =~= start(blocks as nat, seed@).states);
        }
        w
    }

    fn arrive(
        &mut self,
        t: usize,
        state: AbstractState,
        Ghost(blocks): Ghost<nat>,
        Ghost(locals): Ghost<nat>,
    )
        requires
            well_shaped(old(self)@, blocks, locals),
            fits(state@, locals),
            t < blocks,
        ensures
            final(self)@ == arrive(old(self)@, t as int, state@),
            well_shaped(final(self)@, blocks, locals),
    {
        let ghost before = self@;
        if self.done[t] {
            return ;
        }
        if self.seen[t] {
            assert(fits(before.states[t as int], locals));
            let met = meet_of(&self.states[t], &state, Ghost(locals));
            self.states.set(t, met);
            proof {
                assert(self@.states =~= before.states.update(
                    t as int,
                    meet_states(before.states[t as int], state@),
                ));
            }
        } else {
            self.seen.set(t, true);
            self.states.set(t, state);
            proof {
                assert(self@.states =~= before.states.update(t as int, state@));
            }
        }
    }

    fn leave(
        &mut self,
        edges: &Vec<Edge>,
        state: &AbstractState,
        Ghost(blocks): Ghost<nat>,
        Ghost(locals): Ghost<nat>,
    )
        requires
            well_shaped(old(self)@, blocks, locals),
            fits(state@, locals),
            forall|i: int| 0 <= i < edges@.len() ==> (#[trigger] edges@[i]).valid(locals, blocks),
        ensures
            final(self)@ == leave_first(old(self)@, edges@, edges@.len(), state@),
            well_shaped(final(self)@, blocks, locals),
    {
        let ghost before = self@;
        let mut i: usize = 0;
        while i < edges.len()
            invariant
                i <= edges@.len(),
                well_shaped(self@, blocks, locals),
                fits(state@, locals),
                forall|j: int|
                    0 <= j < edges@.len() ==> (#[trigger] edges@[j]).valid(locals, blocks),
                self@ == leave_first(before, edges@, i as nat, state@),
            decreases edges@.len() - i,
        {
            let edge = edges[i];
            assert(edges@[i as int].valid(locals, blocks));
            let beyond = refined(state, edge, Ghost(locals));
            self.arrive(edge.target, beyond, Ghost(blocks), Ghost(locals));
            i += 1;
        }
    }

    fn walk_block(
        &mut self,
        body: &Body,
        landing: &Vec<FactSet>,
        b: usize,
        functions: usize,
    )
        requires
            body.valid(functions as nat),
            well_shaped(old(self)@, body.blocks@.len(), body.locals as nat),
            landing@.len() == body.blocks@.len(),
            b < body.blocks@.len(),
        ensures
            final(self)@ == walk_block(body.blocks@, landing@, old(self)@, b as int),
            well_shaped(final(self)@, body.blocks@.len(), body.locals as nat),
    {
        let ghost before = self@;
        let ghost blocks = body.blocks@.len();
        let ghost locals = body.locals as nat;
        if !self.seen[b] || self.done[b] {
            return ;
        }
        let block = &body.blocks[b];
        assert(body.blocks@[b as int].valid(locals, blocks, functions as nat));
        assert(fits(before.states[b as int], locals));
        let mut state = copy_state(&self.states[b]);
        apply_all(&block.statements, &mut state, functions, Ghost(locals));
        self.done.set(b, true);
        self.states.set(b, copy_state(&state));
        proof {
            assert(self@.states =~= before.states.update(b as int, state@));
        }
        match &block.terminator {
            Terminator::Branch { edges } => {
                self.leave(edges, &state, Ghost(blocks), Ghost(locals));
            },
            Terminator::Call { callee, args, dest, target } => {
                match target {
                    Some(t) => {
                        assign_to(&mut state, *dest, landing[b], None, Ghost(locals));
                        self.arrive(*t, state, Ghost(blocks), Ghost(locals));
                    },
                    None => {},
                }
            },
            Terminator::Return => {
                let value = state.facts[0];
                let all = match self.returned {
                    None => value,
                    Some(r) => r.intersection(value),
                };
                self.returned = Some(all);
            },
        }
    }

    /// Walks `body`, its blocks in the given order, from `seed`. `landing`
    /// holds, for each block that ends in a call, what is known of the value
    /// that the call returns.
    pub(crate) fn run(
        body: &Body,
        functions: usize,
        order: &Vec<usize>,
        landing: &Vec<FactSet>,
        seed: &AbstractState,
    ) -> (w: Walker)
        requires
            body.valid(functions as nat),
            forall|i: int| 0 <= i < order@.len() ==> order@[i] < body.blocks@.len(),
            landing@.len() == body.blocks@.len(),
            fits(seed@, body.locals as nat),
        ensures
            w@ == walked(body.blocks@, landing@, order@, seed@),
            well_shaped(w@, body.blocks@.len(), body.locals as nat),
    {
        let mut w = Walker::new(body.blocks.len(), seed, Ghost(body.locals as nat));
        let ghost first = w@;
        let mut k: usize = 0;
        while k < order.len()
            invariant
                body.valid(functions as nat),
                forall|i: int| 0 <= i < order@.len() ==> order@[i] < body.blocks@.len(),
                landing@.len() == body.blocks@.len(),
                k <= order@.len(),
                well_shaped(w@, body.blocks@.len(), body.locals as nat),
                w@ == walk_first(body.blocks@, landing@, order@, k as nat, first),
            decreases order@.len() - k,
        {
            w.walk_block(body, landing, order[k], functions);
            k += 1;
        }
        w
    }

    /// Whether block `b` has been walked.
    pub fn is_done(&self, b: usize) -> (r: bool)
        ensures
            r == (b < self@.done.len() && self@.done[b as int]),
    {
        b < self.done.len() && self.done[b]
    }

    /// The state at the terminator of a block that has been walked, at the
    /// entry of a block that has only been seen.
    pub fn state(&self, b: usize) -> (r: Option<&AbstractState>)
        ensures
            r.is_some() == (b < self@.states.len()),
            r matches Some(state) ==> state@ == self@.states[b as int],
    {
        if b < self.states.len() {
            Some(&self.states[b])
        } else {
            None
        }
    }

    /// The facts that hold of the return value at every return that was
    /// walked; `None` where no return was walked.
    pub fn returned(&self) -> (r: Option<FactSet>)
        ensures
            r == self@.returned,
    {
        self.returned
    }
}

} // verus!
