//! Call resolution: which functions each call of the program may invoke.
//!
//! A call that names its callee invokes that function. A call through a local
//! invokes every function whose pointer may have been copied into the local,
//! wherever in the body the copies stand.

use crate::graph::{
    closure, edge_rel, falses, has_edge, lemma_plus_from_last, lemma_plus_last,
    lemma_reaches_agree, listed, lists_valid, reaches, reaches_plus, step,
};
use crate::program::{
    all_below, well_formed, Block, Body, Callee, FnKind, Function, Program, Statement, Terminator,
};
use vstd::prelude::*;

verus! {

/// The statements of the first `k` blocks, one block after the other.
pub open spec fn flat_statements(blocks: Seq<Block>, k: nat) -> Seq<Statement>
    decreases k,
{
    if k == 0 {
        Seq::empty()
    } else {
        flat_statements(blocks, (k - 1) as nat) + blocks[k - 1].statements@
    }
}

/// All statements of a body.
pub open spec fn statements_of(body: Body) -> Seq<Statement> {
    flat_statements(body.blocks@, body.blocks@.len())
}

/// The statement copies `w` into `v`.
pub open spec fn is_copy(statement: Statement, v: int, w: int) -> bool {
    statement matches Statement::Copy { dst, src } && dst == v && src == w
}

/// The statement stores a pointer to function `g` in `w`.
pub open spec fn is_fn_ref(statement: Statement, w: int, g: int) -> bool {
    statement matches Statement::FnRef { dst, function } && dst == w && function == g
}

/// One of the first `k` statements copies `w` into `v`.
pub open spec fn draws_within(statements: Seq<Statement>, k: int, v: int, w: int) -> bool {
    exists|i: int| 0 <= i < k && is_copy(#[trigger] statements[i], v, w)
}

/// Some statement copies `w` into `v`.
pub open spec fn draws(statements: Seq<Statement>, v: int, w: int) -> bool {
    draws_within(statements, statements.len() as int, v, w)
}

/// The relation `draws` of a list of statements.
pub open spec fn draws_rel(statements: Seq<Statement>) -> spec_fn(int, int) -> bool {
    |v: int, w: int| draws(statements, v, w)
}

/// One of the first `k` statements stores a pointer to `g` in `w`.
pub open spec fn refers_within(statements: Seq<Statement>, k: int, w: int, g: int) -> bool {
    exists|i: int| 0 <= i < k && is_fn_ref(#[trigger] statements[i], w, g)
}

/// The local `v` may hold a pointer to function `g`: a pointer to `g` is
/// stored in a local from which `v` draws, directly or through other locals.
pub open spec fn points_to(statements: Seq<Statement>, v: int, g: int) -> bool {
    exists|w: int|
        reaches(draws_rel(statements), v, w) && #[trigger] refers_within(
            statements,
            statements.len() as int,
            w,
            g,
        )
}

/// The call that ends block `b` of function `f` may invoke `g`.
pub open spec fn resolved(p: Seq<Function>, f: int, b: int, g: int) -> bool {
    &&& 0 <= f < p.len()
    &&& p[f].body matches Some(body)
    &&& 0 <= b < body.blocks@.len()
    &&& match body.blocks@[b].terminator {
        Terminator::Call { callee, .. } => match callee {
            Callee::Direct(t) => t == g,
            Callee::Indirect(v) => points_to(statements_of(body), v as int, g),
        },
        _ => false,
    }
}

/// The positions below `k` that are marked, in ascending order.
pub open spec fn indices_where(marks: Seq<bool>, k: nat) -> Seq<usize>
    decreases k,
{
    if k == 0 {
        Seq::empty()
    } else {
        let rest = indices_where(marks, (k - 1) as nat);
        if marks[k - 1] {
            rest.push((k - 1) as usize)
        } else {
            rest
        }
    }
}

/// A position is listed exactly when it is marked.
pub proof fn lemma_indices_where(marks: Seq<bool>, k: nat, g: int)
    requires
        k <= marks.len(),
        k <= usize::MAX,
    ensures
        listed(indices_where(marks, k), g) <==> 0 <= g < k && marks[g],
        forall|i: int|
            0 <= i < indices_where(marks, k).len() ==> (#[trigger] indices_where(marks, k)[i]) < k,
    decreases k,
{
    if k > 0 {
        let rest = indices_where(marks, (k - 1) as nat);
        let all = indices_where(marks, k);
        lemma_indices_where(marks, (k - 1) as nat, g);
        if marks[k - 1] {
            if listed(all, g) {
                let i = choose|i: int| 0 <= i < all.len() && #[trigger] all[i] == g;
                if i < rest.len() {
                    assert(rest[i] == g);
                }
            }
            if 0 <= g < k && marks[g] {
                if g < k - 1 {
                    let i = choose|i: int| 0 <= i < rest.len() && #[trigger] rest[i] == g;
                    assert(all[i] == g);
                } else {
                    assert(all[all.len() - 1] == g);
                }
            }
        }
    }
}

pub proof fn lemma_indices_none(marks: Seq<bool>, k: nat)
    requires
        forall|i: int| 0 <= i < k ==> !marks[i],
    ensures
        indices_where(marks, k) == Seq::<usize>::empty(),
    decreases k,
{
    if k > 0 {
        lemma_indices_none(marks, (k - 1) as nat);
    }
}

pub proof fn lemma_indices_single(marks: Seq<bool>, k: nat, t: int)
    requires
        0 <= t <= usize::MAX,
        forall|i: int| 0 <= i < k ==> marks[i] == (i == t),
    ensures
        indices_where(marks, k) == if t < k {
            seq![t as usize]
        } else {
            Seq::<usize>::empty()
        },
    decreases k,
{
    if k > 0 {
        lemma_indices_single(marks, (k - 1) as nat, t);
        if t == k - 1 {
            assert(Seq::<usize>::empty().push(t as usize) =~= seq![t as usize]);
        }
    }
}

/// The functions that the call ending block `b` of function `f` may invoke,
/// in ascending order. A block that ends otherwise has none.
pub open spec fn targets_of(p: Seq<Function>, f: int, b: int) -> Seq<usize> {
    indices_where(Seq::new(p.len(), |g: int| resolved(p, f, b, g)), p.len())
}

/// The number of blocks of function `f`; zero where it has no body.
pub open spec fn block_count(p: Seq<Function>, f: int) -> nat {
    match p[f].body {
        Some(body) => body.blocks@.len(),
        None => 0,
    }
}

/// The targets of every call of the program.
pub open spec fn all_targets(p: Seq<Function>) -> Seq<Seq<Seq<usize>>> {
    Seq::new(p.len(), |f: int| Seq::new(block_count(p, f), |b: int| targets_of(p, f, b)))
}

/// The marked positions, in ascending order.
pub fn indices_of(marks: &Vec<bool>) -> (list: Vec<usize>)
    ensures
        list@ == indices_where(marks@, marks@.len()),
{
    let n: usize = marks.len();
    let mut list: Vec<usize> = Vec::new();
    let mut k: usize = 0;
    while k < n
        invariant
            n == marks@.len(),
            k <= n,
            list@ == indices_where(marks@, k as nat),
        decreases n - k,
    {
        if marks[k] {
            list.push(k);
        }
        k += 1;
    }
    list
}

/// All statements of a body, one block after the other.
fn flatten(body: &Body, functions: usize) -> (out: Vec<Statement>)
    requires
        body.valid(functions as nat),
    ensures
        out@ == statements_of(*body),
        forall|i: int|
            0 <= i < out@.len() ==> (#[trigger] out@[i]).valid(
                body.locals as nat,
                functions as nat,
            ),
{
    let mut out: Vec<Statement> = Vec::new();
    let mut b: usize = 0;
    while b < body.blocks.len()
        invariant
            body.valid(functions as nat),
            b <= body.blocks@.len(),
            out@ == flat_statements(body.blocks@, b as nat),
            forall|i: int|
                0 <= i < out@.len() ==> (#[trigger] out@[i]).valid(
                    body.locals as nat,
                    functions as nat,
                ),
        decreases body.blocks@.len() - b,
    {
        let block = &body.blocks[b];
        let ghost base = out@;
        let mut s: usize = 0;
        assert(body.blocks@[b as int].valid(
            body.locals as nat,
            body.blocks@.len(),
            functions as nat,
        ));
        while s < block.statements.len()
            invariant
                block.valid(body.locals as nat, body.blocks@.len(), functions as nat),
                s <= block.statements@.len(),
                out@ == base + block.statements@.subrange(0, s as int),
                forall|i: int|
                    0 <= i < out@.len() ==> (#[trigger] out@[i]).valid(
                        body.locals as nat,
                        functions as nat,
                    ),
            decreases block.statements@.len() - s,
        {
            out.push(block.statements[s]);
            assert(block.statements@.subrange(0, s + 1) =~= block.statements@.subrange(
                0,
                s as int,
            ).push(block.statements@[s as int]));
            assert(block.statements@[s as int].valid(body.locals as nat, functions as nat));
            s += 1;
        }
        assert(block.statements@.subrange(0, s as int) =~= block.statements@);
        b += 1;
    }
    out
}

/// The locals from which `v` draws in one step.
fn sources_of(statements: &Vec<Statement>, v: usize, locals: usize, functions: usize) -> (list:
    Vec<usize>)
    requires
        forall|i: int|
            0 <= i < statements@.len() ==> (#[trigger] statements@[i]).valid(
                locals as nat,
                functions as nat,
            ),
    ensures
        forall|i: int| 0 <= i < list@.len() ==> list@[i] < locals,
        forall|w: int| #[trigger] listed(list@, w) <==> draws(statements@, v as int, w),
{
    let mut list: Vec<usize> = Vec::new();
    let mut k: usize = 0;
    while k < statements.len()
        invariant
            forall|i: int|
                0 <= i < statements@.len() ==> (#[trigger] statements@[i]).valid(
                    locals as nat,
                    functions as nat,
                ),
            k <= statements@.len(),
            forall|i: int| 0 <= i < list@.len() ==> list@[i] < locals,
            forall|w: int|
                #[trigger] listed(list@, w) <==> draws_within(statements@, k as int, v as int, w),
        decreases statements@.len() - k,
    {
        let ghost prior = list@;
        let mut added: bool = false;
        match statements[k] {
            Statement::Copy { dst, src } => {
                if dst == v {
                    assert(statements@[k as int].valid(locals as nat, functions as nat));
                    list.push(src);
                    added = true;
                    assert(list@[list@.len() - 1] == src);
                }
            },
            _ => {},
        }
        proof {
            assert forall|w: int| #[trigger]
                listed(list@, w) <==> draws_within(statements@, k + 1, v as int, w) by {
                if listed(list@, w) {
                    let i = choose|i: int| 0 <= i < list@.len() && #[trigger] list@[i] == w;
                    if i < prior.len() {
                        assert(prior[i] == w);
                        assert(listed(prior, w));
                        let j = choose|j: int|
                            0 <= j < k && is_copy(#[trigger] statements@[j], v as int, w);
                        assert(0 <= j < k + 1);
                    } else {
                        assert(is_copy(statements@[k as int], v as int, w));
                    }
                }
                if draws_within(statements@, k + 1, v as int, w) {
                    let j = choose|j: int|
                        0 <= j < k + 1 && is_copy(#[trigger] statements@[j], v as int, w);
                    if j < k {
                        assert(draws_within(statements@, k as int, v as int, w));
                        assert(listed(prior, w));
                        let i = choose|i: int| 0 <= i < prior.len() && #[trigger] prior[i] == w;
                        assert(list@[i] == w);
                    } else {
                        assert(added);
                        assert(list@[list@.len() - 1] == w);
                    }
                }
            }
        }
        k += 1;
    }
    list
}

/// The graph of `draws`, as adjacency lists over the locals.
fn draw_lists(statements: &Vec<Statement>, locals: usize, functions: usize) -> (adj: Vec<
    Vec<usize>,
>)
    requires
        forall|i: int|
            0 <= i < statements@.len() ==> (#[trigger] statements@[i]).valid(
                locals as nat,
                functions as nat,
            ),
    ensures
        adj@.len() == locals,
        lists_valid(adj@),
        forall|v: int, w: int|
            #![trigger has_edge(adj@, v, w)]
            0 <= v < locals ==> (has_edge(adj@, v, w) <==> draws(statements@, v, w)),
{
    let mut adj: Vec<Vec<usize>> = Vec::new();
    while adj.len() < locals
        invariant
            forall|i: int|
                0 <= i < statements@.len() ==> (#[trigger] statements@[i]).valid(
                    locals as nat,
                    functions as nat,
                ),
            adj@.len() <= locals,
            forall|a: int, i: int|
                0 <= a < adj@.len() && 0 <= i < adj@[a]@.len() ==> (#[trigger] adj@[a]@[i])
                    < locals,
            forall|v: int, w: int|
                #![trigger has_edge(adj@, v, w)]
                0 <= v < adj@.len() ==> (has_edge(adj@, v, w) <==> draws(statements@, v, w)),
        decreases locals - adj@.len(),
    {
        let ghost prior = adj@;
        let v: usize = adj.len();
        let list = sources_of(statements, v, locals, functions);
        adj.push(list);
        proof {
            assert forall|a: int, i: int|
                0 <= a < adj@.len() && 0 <= i < adj@[a]@.len() implies (#[trigger] adj@[a]@[i])
                < locals by {
                if a < prior.len() {
                    assert(adj@[a] == prior[a]);
                }
            }
            assert forall|x: int, w: int|
                #![trigger has_edge(adj@, x, w)]
                0 <= x < adj@.len() implies (has_edge(adj@, x, w) <==> draws(
                statements@,
                x,
                w,
            )) by {
                if x < prior.len() {
                    assert(adj@[x] == prior[x]);
                    assert(has_edge(adj@, x, w) == has_edge(prior, x, w));
                }
            }
        }
    }
    adj
}

/// For each function, whether `v` may hold a pointer to it.
fn pointees(
    statements: &Vec<Statement>,
    adj: &Vec<Vec<usize>>,
    v: usize,
    locals: usize,
    functions: usize,
) -> (marks: Vec<bool>)
    requires
        v < locals,
        forall|i: int|
            0 <= i < statements@.len() ==> (#[trigger] statements@[i]).valid(
                locals as nat,
                functions as nat,
            ),
        adj@.len() == locals,
        lists_valid(adj@),
        forall|a: int, w: int|
            #![trigger has_edge(adj@, a, w)]
            0 <= a < locals ==> (has_edge(adj@, a, w) <==> draws(statements@, a, w)),
    ensures
        marks@.len() == functions,
        forall|g: int| 0 <= g < functions ==> marks@[g] == points_to(statements@, v as int, g),
{
    let ghost rel = draws_rel(statements@);
    let reached = closure(adj, v);
    proof {
        assert forall|x: int, y: int| #[trigger]
            step(edge_rel(adj@), x, y) == step(rel, x, y) by {
            if !(0 <= x < locals) {
                if draws(statements@, x, y) {
                    let i = choose|i: int|
                        0 <= i < statements@.len() && is_copy(#[trigger] statements@[i], x, y);
                    assert(statements@[i].valid(locals as nat, functions as nat));
                }
            }
        }
        assert forall|w: int| reaches(edge_rel(adj@), v as int, w) == reaches(
            rel,
            v as int,
            w,
        ) by {
            lemma_reaches_agree(edge_rel(adj@), rel, v as int, w);
        }
    }
    let mut marks = falses(functions);
    let mut k: usize = 0;
    while k < statements.len()
        invariant
            rel == draws_rel(statements@),
            forall|i: int|
                0 <= i < statements@.len() ==> (#[trigger] statements@[i]).valid(
                    locals as nat,
                    functions as nat,
                ),
            k <= statements@.len(),
            reached@.len() == locals,
            marks@.len() == functions,
            forall|w: int| 0 <= w < locals ==> reached@[w] == reaches(rel, v as int, w),
            forall|g: int|
                0 <= g < functions ==> #[trigger] marks@[g] == found_within(
                    statements@,
                    k as int,
                    v as int,
                    g,
                ),
        decreases statements@.len() - k,
    {
        let ghost prior = marks@;
        let mut hit: Option<usize> = None;
        match statements[k] {
            Statement::FnRef { dst, function } => {
                assert(statements@[k as int].valid(locals as nat, functions as nat));
                if reached[dst] {
                    marks.set(function, true);
                    hit = Some(function);
                }
            },
            _ => {},
        }
        proof {
            assert forall|g: int| 0 <= g < functions implies #[trigger] marks@[g] == found_within(
                statements@,
                k + 1,
                v as int,
                g,
            ) by {
                assert(prior[g] == found_within(statements@, k as int, v as int, g));
                if found_within(statements@, k + 1, v as int, g) {
                    let i = choose|i: int|
                        0 <= i < k + 1 && #[trigger] found_at(statements@, i, v as int, g);
                    if i < k {
                        assert(found_within(statements@, k as int, v as int, g));
                    } else {
                        assert(hit == Some(g as usize));
                    }
                }
                if found_within(statements@, k as int, v as int, g) {
                    let i = choose|i: int|
                        0 <= i < k && #[trigger] found_at(statements@, i, v as int, g);
                    assert(0 <= i < k + 1);
                }
                if hit == Some(g as usize) {
                    assert(found_at(statements@, k as int, v as int, g));
                }
            }
        }
        k += 1;
    }
    proof {
        assert forall|g: int| 0 <= g < functions implies marks@[g] == points_to(
            statements@,
            v as int,
            g,
        ) by {
            let n = statements@.len() as int;
            if found_within(statements@, n, v as int, g) {
                let i = choose|i: int|
                    0 <= i < n && #[trigger] found_at(statements@, i, v as int, g);
                let w = statements@[i]->FnRef_dst as int;
                assert(is_fn_ref(statements@[i], w, g));
                assert(refers_within(statements@, n, w, g));
            }
            if points_to(statements@, v as int, g) {
                let w = choose|w: int|
                    reaches(rel, v as int, w) && #[trigger] refers_within(statements@, n, w, g);
                let i = choose|i: int| 0 <= i < n && is_fn_ref(#[trigger] statements@[i], w, g);
                assert(statements@[i].valid(locals as nat, functions as nat));
                assert(found_at(statements@, i, v as int, g));
            }
        }
    }
    marks
}

/// Statement `i` stores a pointer to `g` in a local from which `v` draws.
spec fn found_at(statements: Seq<Statement>, i: int, v: int, g: int) -> bool {
    statements[i] matches Statement::FnRef { dst, function } && function == g && reaches(
        draws_rel(statements),
        v,
        dst as int,
    )
}

/// One of the first `k` statements stores a pointer to `g` in a local from
/// which `v` draws.
spec fn found_within(statements: Seq<Statement>, k: int, v: int, g: int) -> bool {
    exists|i: int| 0 <= i < k && #[trigger] found_at(statements, i, v, g)
}

/// Function `c` is a constructor of the type that method `f` belongs to.
pub open spec fn is_constructor(p: Seq<Function>, f: int, c: int) -> bool {
    &&& 0 <= f < p.len()
    &&& p[f].kind matches FnKind::Method { constructors }
    &&& listed(constructors@, c)
}

/// Some call of `f` may invoke `t`.
pub open spec fn calls(targets: Seq<Seq<Seq<usize>>>, f: int, t: int) -> bool {
    0 <= f < targets.len() && exists|b: int|
        0 <= b < targets[f].len() && listed(#[trigger] targets[f][b], t)
}

/// What is known of `f` rests on what is known of `t`: `f` may call `t`, or
/// `t` constructs the type whose method `f` is.
pub open spec fn depends(p: Seq<Function>, targets: Seq<Seq<Seq<usize>>>, f: int, t: int) -> bool {
    calls(targets, f, t) || is_constructor(p, f, t)
}

/// The relation `depends` of a program.
pub open spec fn depends_rel(p: Seq<Function>, targets: Seq<Seq<Seq<usize>>>) -> spec_fn(
    int,
    int,
) -> bool {
    |f: int, t: int| depends(p, targets, f, t)
}

/// `g` depends on itself, directly or through other functions.
pub open spec fn recursive(p: Seq<Function>, targets: Seq<Seq<Seq<usize>>>, g: int) -> bool {
    reaches_plus(depends_rel(p, targets), g, g)
}

/// What call resolution finds out about a program.
pub struct Resolution {
    /// For each function and each of its blocks, the functions that the call
    /// ending the block may invoke, in ascending order.
    pub targets: Seq<Seq<Seq<usize>>>,
    /// For each function, whether it depends on itself.
    pub recursive: Seq<bool>,
}

/// The call resolution of a program.
pub open spec fn resolution(p: Seq<Function>) -> Resolution {
    Resolution {
        targets: all_targets(p),
        recursive: Seq::new(p.len(), |g: int| recursive(p, all_targets(p), g)),
    }
}

/// The whole-program table of resolved calls.
#[derive(Debug)]
pub struct FnMap {
    targets: Vec<Vec<Vec<usize>>>,
    recursive: Vec<bool>,
}

/// The lists of one function.
pub open spec fn row_view(row: Seq<Vec<usize>>) -> Seq<Seq<usize>> {
    Seq::new(row.len(), |b: int| row[b]@)
}

/// The lists of all functions.
pub open spec fn table_view(table: Seq<Vec<Vec<usize>>>) -> Seq<Seq<Seq<usize>>> {
    Seq::new(table.len(), |f: int| row_view(table[f]@))
}

/// The first `k` lists, one after the other.
pub open spec fn concat_lists(row: Seq<Seq<usize>>, k: nat) -> Seq<usize>
    decreases k,
{
    if k == 0 {
        Seq::empty()
    } else {
        concat_lists(row, (k - 1) as nat) + row[k - 1]
    }
}

proof fn lemma_listed_concat(row: Seq<Seq<usize>>, k: nat, t: int)
    requires
        k <= row.len(),
    ensures
        listed(concat_lists(row, k), t) <==> exists|b: int|
            0 <= b < k && listed(#[trigger] row[b], t),
    decreases k,
{
    if k > 0 {
        let rest = concat_lists(row, (k - 1) as nat);
        let all = concat_lists(row, k);
        lemma_listed_concat(row, (k - 1) as nat, t);
        if listed(all, t) {
            let i = choose|i: int| 0 <= i < all.len() && #[trigger] all[i] == t;
            if i < rest.len() {
                assert(rest[i] == t);
                assert(listed(rest, t));
                let b = choose|b: int| 0 <= b < k - 1 && listed(#[trigger] row[b], t);
                assert(0 <= b < k);
            } else {
                assert(row[k - 1][i - rest.len()] == t);
                assert(listed(row[k - 1], t));
            }
        }
        if exists|b: int| 0 <= b < k && listed(#[trigger] row[b], t) {
            let b = choose|b: int| 0 <= b < k && listed(#[trigger] row[b], t);
            if b < k - 1 {
                assert(listed(rest, t));
                let i = choose|i: int| 0 <= i < rest.len() && #[trigger] rest[i] == t;
                assert(all[i] == t);
            } else {
                let j = choose|j: int| 0 <= j < row[b].len() && #[trigger] row[b][j] == t;
                assert(all[rest.len() + j] == t);
            }
        }
    }
}

fn append_all(dst: &mut Vec<usize>, src: &Vec<usize>)
    ensures
        final(dst)@ == old(dst)@ + src@,
{
    let ghost start = dst@;
    let mut i: usize = 0;
    while i < src.len()
        invariant
            i <= src@.len(),
            dst@ == start + src@.subrange(0, i as int),
        decreases src@.len() - i,
    {
        dst.push(src[i]);
        assert(src@.subrange(0, i + 1) =~= src@.subrange(0, i as int).push(src@[i as int]));
        i += 1;
    }
    assert(src@.subrange(0, i as int) =~= src@);
}

fn holds(list: &Vec<usize>, x: usize) -> (r: bool)
    ensures
        r == listed(list@, x as int),
{
    let mut i: usize = 0;
    while i < list.len()
        invariant
            i <= list@.len(),
            forall|j: int| 0 <= j < i ==> list@[j] != x,
        decreases list@.len() - i,
    {
        if list[i] == x {
            return true;
        }
        i += 1;
    }
    false
}

/// The targets of the call that ends block `b` of function `f`.
fn resolve_block(
    program: &Program,
    f: usize,
    body: &Body,
    b: usize,
    statements: &Vec<Statement>,
    adj: &Vec<Vec<usize>>,
) -> (list: Vec<usize>)
    requires
        well_formed(program@),
        f < program@.len(),
        program@[f as int].body == Some(*body),
        b < body.blocks@.len(),
        statements@ == statements_of(*body),
        forall|i: int|
            0 <= i < statements@.len() ==> (#[trigger] statements@[i]).valid(
                body.locals as nat,
                program@.len(),
            ),
        adj@.len() == body.locals,
        lists_valid(adj@),
        forall|a: int, w: int|
            #![trigger has_edge(adj@, a, w)]
            0 <= a < body.locals ==> (has_edge(adj@, a, w) <==> draws(statements@, a, w)),
    ensures
        list@ == targets_of(program@, f as int, b as int),
{
    let ghost p = program@;
    let n: usize = program.len();
    let ghost wanted = Seq::new(p.len(), |g: int| resolved(p, f as int, b as int, g));
    assert(p[f as int].valid(p.len()));
    assert(body.blocks@[b as int].valid(body.locals as nat, body.blocks@.len(), p.len()));
    match &body.blocks[b].terminator {
        Terminator::Call { callee, .. } => match callee {
            Callee::Direct(t) => {
                let mut list: Vec<usize> = Vec::new();
                list.push(*t);
                proof {
                    lemma_indices_single(wanted, p.len(), *t as int);
                    assert(list@ =~= seq![*t]);
                }
                list
            },
            Callee::Indirect(v) => {
                let marks = pointees(statements, adj, *v, body.locals, n);
                proof {
                    assert(marks@ =~= wanted);
                }
                indices_of(&marks)
            },
        },
        _ => {
            proof {
                lemma_indices_none(wanted, p.len());
            }
            Vec::new()
        },
    }
}

/// The targets of every call of function `f`.
fn resolve_function(program: &Program, f: usize) -> (row: Vec<Vec<usize>>)
    requires
        f < program@.len(),
    ensures
        row_view(row@) == all_targets(program@)[f as int],
{
    let ghost p = program@;
    let function = program.function(f);
    let mut row: Vec<Vec<usize>> = Vec::new();
    match &function.body {
        None => {
            assert(row_view(row@) =~= all_targets(p)[f as int]);
        },
        Some(body) => {
            assert(p[f as int].valid(p.len()));
            let statements = flatten(body, program.len());
            let adj = draw_lists(&statements, body.locals, program.len());
            let mut b: usize = 0;
            while b < body.blocks.len()
                invariant
                    p == program@,
                    well_formed(p),
                    f < p.len(),
                    p[f as int].body == Some(*body),
                    b <= body.blocks@.len(),
                    row@.len() == b,
                    statements@ == statements_of(*body),
                    forall|i: int|
                        0 <= i < statements@.len() ==> (#[trigger] statements@[i]).valid(
                            body.locals as nat,
                            p.len(),
                        ),
                    adj@.len() == body.locals,
                    lists_valid(adj@),
                    forall|a: int, w: int|
                        #![trigger has_edge(adj@, a, w)]
                        0 <= a < body.locals ==> (has_edge(adj@, a, w) <==> draws(
                            statements@,
                            a,
                            w,
                        )),
                    forall|y: int|
                        0 <= y < b ==> (#[trigger] row@[y])@ == targets_of(p, f as int, y),
                decreases body.blocks@.len() - b,
            {
                let list = resolve_block(program, f, body, b, &statements, &adj);
                row.push(list);
                b += 1;
            }
            assert(row_view(row@) =~= all_targets(p)[f as int]);
        },
    }
    row
}

/// The functions on which `f` depends in one step.
fn dependencies_of(program: &Program, row: &Vec<Vec<usize>>, f: usize) -> (list: Vec<usize>)
    requires
        f < program@.len(),
        row_view(row@) == all_targets(program@)[f as int],
    ensures
        forall|t: int|
            #[trigger] listed(list@, t) <==> depends(program@, all_targets(program@), f as int, t),
        forall|i: int| 0 <= i < list@.len() ==> list@[i] < program@.len(),
{
    let ghost p = program@;
    let ghost targets = all_targets(p);
    let ghost lists = row_view(row@);
    let n: usize = program.len();
    let mut list: Vec<usize> = Vec::new();
    let mut b: usize = 0;
    while b < row.len()
        invariant
            b <= row@.len(),
            lists == row_view(row@),
            list@ == concat_lists(lists, b as nat),
        decreases row@.len() - b,
    {
        append_all(&mut list, &row[b]);
        b += 1;
    }
    let ghost called = list@;
    let function = program.function(f);
    match &function.kind {
        FnKind::Plain => {},
        FnKind::Method { constructors } => {
            append_all(&mut list, constructors);
        },
    }
    proof {
        assert(p[f as int].valid(p.len()));
        assert forall|t: int| #[trigger] listed(list@, t) <==> depends(p, targets, f as int, t) by {
            lemma_listed_concat(lists, lists.len(), t);
            assert(listed(called, t) <==> calls(targets, f as int, t));
            match function.kind {
                FnKind::Plain => {},
                FnKind::Method { constructors } => {
                    if listed(list@, t) {
                        let i = choose|i: int| 0 <= i < list@.len() && #[trigger] list@[i] == t;
                        if i < called.len() {
                            assert(called[i] == t);
                            assert(listed(called, t));
                        } else {
                            assert(constructors@[i - called.len()] == t);
                            assert(listed(constructors@, t));
                        }
                    }
                    if listed(called, t) {
                        let i = choose|i: int| 0 <= i < called.len() && #[trigger] called[i] == t;
                        assert(list@[i] == t);
                    }
                    if listed(constructors@, t) {
                        let j = choose|j: int|
                            0 <= j < constructors@.len() && #[trigger] constructors@[j] == t;
                        assert(list@[called.len() + j] == t);
                    }
                },
            }
        }
        assert forall|i: int| 0 <= i < list@.len() implies list@[i] < p.len() by {
            let t = list@[i] as int;
            assert(listed(list@, t));
            if calls(targets, f as int, t) {
                let b = choose|b: int|
                    0 <= b < targets[f as int].len() && listed(#[trigger] targets[f as int][b], t);
                lemma_indices_where(
                    Seq::new(p.len(), |g: int| resolved(p, f as int, b, g)),
                    p.len(),
                    t,
                );
            } else {
                let ctors = p[f as int].kind->Method_constructors;
                let j = choose|j: int| 0 <= j < ctors@.len() && #[trigger] ctors@[j] == t;
                assert(all_below(ctors@, p.len()));
            }
        }
    }
    list
}

/// Whether `f` depends on itself.
fn depends_on_itself(program: &Program, deps: &Vec<Vec<usize>>, f: usize) -> (r: bool)
    requires
        f < program@.len(),
        deps@.len() == program@.len(),
        lists_valid(deps@),
        forall|a: int, t: int|
            #![trigger has_edge(deps@, a, t)]
            has_edge(deps@, a, t) <==> depends(program@, all_targets(program@), a, t),
    ensures
        r == recursive(program@, all_targets(program@), f as int),
{
    let ghost p = program@;
    let ghost rel = depends_rel(p, all_targets(p));
    let n: usize = deps.len();
    let marks = closure(deps, f);
    proof {
        assert forall|x: int, y: int| #[trigger]
            step(edge_rel(deps@), x, y) == step(rel, x, y) by {
            assert(has_edge(deps@, x, y) <==> depends(p, all_targets(p), x, y));
        }
        assert forall|w: int| reaches(edge_rel(deps@), f as int, w) == reaches(
            rel,
            f as int,
            w,
        ) by {
            lemma_reaches_agree(edge_rel(deps@), rel, f as int, w);
        }
    }
    let mut m: usize = 0;
    while m < n
        invariant
            n == deps@.len(),
            marks@.len() == n,
            m <= n,
            p == program@,
            rel == depends_rel(p, all_targets(p)),
            forall|a: int, t: int|
                #![trigger has_edge(deps@, a, t)]
                has_edge(deps@, a, t) <==> depends(p, all_targets(p), a, t),
            forall|w: int| 0 <= w < n ==> marks@[w] == reaches(rel, f as int, w),
            forall|w: int| 0 <= w < m ==> !(marks@[w] && has_edge(deps@, w, f as int)),
        decreases n - m,
    {
        if marks[m] && holds(&deps[m], f) {
            proof {
                assert(has_edge(deps@, m as int, f as int));
                assert(rel(m as int, f as int));
                lemma_plus_from_last(rel, f as int, m as int, f as int);
            }
            return true;
        }
        m += 1;
    }
    proof {
        if reaches_plus(rel, f as int, f as int) {
            lemma_plus_last(rel, f as int, f as int);
            let w = choose|w: int| reaches(rel, f as int, w) && #[trigger] step(rel, w, f as int);
            assert(reaches(edge_rel(deps@), f as int, w));
            assert(0 <= w < n);
            assert(has_edge(deps@, w, f as int));
        }
    }
    false
}

impl View for FnMap {
    type V = Resolution;

    closed spec fn view(&self) -> Resolution {
        Resolution { targets: table_view(self.targets@), recursive: self.recursive@ }
    }
}

impl FnMap {
    /// The functions that the call ending block `block` of `function` may
    /// invoke; `None` where there is no such block.
    pub fn targets(&self, function: usize, block: usize) -> (r: Option<&Vec<usize>>)
        ensures
            r.is_some() == (function < self@.targets.len() && block
                < self@.targets[function as int].len()),
            r matches Some(list) ==> list@ == self@.targets[function as int][block as int],
    {
        if function < self.targets.len() {
            if block < self.targets[function].len() {
                return Some(&self.targets[function][block]);
            }
        }
        None
    }

    /// The number of blocks of `function`; zero for a function that the
    /// table does not know.
    pub fn blocks(&self, function: usize) -> (r: usize)
        ensures
            r == if function < self@.targets.len() {
                self@.targets[function as int].len()
            } else {
                0
            },
    {
        if function < self.targets.len() {
            self.targets[function].len()
        } else {
            0
        }
    }

    /// Whether `function` depends on itself; `false` for a function that the
    /// table does not know.
    pub fn is_recursive(&self, function: usize) -> (r: bool)
        ensures
            r == (function < self@.recursive.len() && self@.recursive[function as int]),
    {
        function < self.recursive.len() && self.recursive[function]
    }
}

/// Resolves every call of the program.
pub fn resolve(program: &Program) -> (map: FnMap)
    ensures
        map@ == resolution(program@),
{
    let ghost p = program@;
    let n: usize = program.len();
    let mut targets: Vec<Vec<Vec<usize>>> = Vec::new();
    let mut deps: Vec<Vec<usize>> = Vec::new();
    while targets.len() < n
        invariant
            p == program@,
            n == p.len(),
            targets@.len() <= n,
            deps@.len() == targets@.len(),
            forall|f: int|
                0 <= f < targets@.len() ==> row_view((#[trigger] targets@[f])@) == all_targets(
                    p,
                )[f],
            forall|a: int, i: int|
                0 <= a < deps@.len() && 0 <= i < deps@[a]@.len() ==> (#[trigger] deps@[a]@[i]) < n,
            forall|a: int, t: int|
                #![trigger has_edge(deps@, a, t)]
                0 <= a < deps@.len() ==> (has_edge(deps@, a, t) <==> depends(
                    p,
                    all_targets(p),
                    a,
                    t,
                )),
        decreases n - targets@.len(),
    {
        let ghost prior = deps@;
        let f: usize = targets.len();
        let row = resolve_function(program, f);
        let list = dependencies_of(program, &row, f);
        targets.push(row);
        deps.push(list);
        proof {
            assert forall|a: int, i: int|
                0 <= a < deps@.len() && 0 <= i < deps@[a]@.len() implies (#[trigger] deps@[a]@[i])
                < n by {
                if a < prior.len() {
                    assert(deps@[a] == prior[a]);
                }
            }
            assert forall|a: int, t: int|
                #![trigger has_edge(deps@, a, t)]
                0 <= a < deps@.len() implies (has_edge(deps@, a, t) <==> depends(
                p,
                all_targets(p),
                a,
                t,
            )) by {
                if a < prior.len() {
                    assert(deps@[a] == prior[a]);
                    assert(has_edge(deps@, a, t) == has_edge(prior, a, t));
                }
            }
        }
    }
    proof {
        assert(table_view(targets@) =~= all_targets(p));
        assert forall|a: int, t: int|
            #![trigger has_edge(deps@, a, t)]
            has_edge(deps@, a, t) <==> depends(p, all_targets(p), a, t) by {
            if !(0 <= a < n) {
                assert(!calls(all_targets(p), a, t));
            }
        }
    }
    let mut flags: Vec<bool> = Vec::new();
    while flags.len() < n
        invariant
            p == program@,
            n == p.len(),
            flags@.len() <= n,
            deps@.len() == n,
            lists_valid(deps@),
            forall|a: int, t: int|
                #![trigger has_edge(deps@, a, t)]
                has_edge(deps@, a, t) <==> depends(p, all_targets(p), a, t),
            forall|g: int|
                0 <= g < flags@.len() ==> flags@[g] == recursive(p, all_targets(p), g),
        decreases n - flags@.len(),
    {
        let g: usize = flags.len();
        let flag = depends_on_itself(program, &deps, g);
        flags.push(flag);
    }
    let map = FnMap { targets, recursive: flags };
    proof {
        assert(map@.recursive =~= resolution(p).recursive);
    }
    map
}

} // verus!
