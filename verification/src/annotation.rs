//! Which safety contracts the call chain of a function exercises.
//!
//! A call to an API that declares contracts contributes those contracts. A
//! call to anything else is looked into: what that function's own calls
//! exercise is exercised by the caller too.

use crate::catalog::{
    declares, declares_any, names_contract, requirements_of, requirements_valid, ApiEntry, Catalog,
    SafetyContract,
};
use crate::graph::{
    closure, edge_rel, falses, has_edge, lemma_reaches_agree, listed, lists_valid, reach_in,
    reaches, step,
};
use crate::program::{well_formed, Block, Callee, Function, Program, Terminator};
use vstd::prelude::*;

verus! {

/// The function that a block calls by name, if it ends in such a call.
pub open spec fn direct_callee(block: Block) -> Option<usize> {
    match block.terminator {
        Terminator::Call { callee: Callee::Direct(g), .. } => Some(g),
        _ => None,
    }
}

/// The function that block `b` of function `f` calls by name.
pub open spec fn callee_at(p: Seq<Function>, f: int, b: int) -> Option<usize> {
    if 0 <= f < p.len() && p[f].body.is_some() && 0 <= b < p[f].body.unwrap().blocks@.len() {
        direct_callee(p[f].body.unwrap().blocks@[b])
    } else {
        None
    }
}

/// Block `b` of `f` calls `g` by name.
pub open spec fn calls_at(p: Seq<Function>, f: int, b: int, g: int) -> bool {
    callee_at(p, f, b) matches Some(t) && t == g
}

/// Some block of `f` calls `g` by name.
pub open spec fn calls_direct(p: Seq<Function>, f: int, g: int) -> bool {
    exists|b: int| calls_at(p, f, b, g)
}

/// `f` calls `g`, and `g` declares no contract of its own: what `g` exercises
/// counts for `f`.
pub open spec fn expands(p: Seq<Function>, entries: Seq<ApiEntry>, f: int, g: int) -> bool {
    calls_direct(p, f, g) && !declares_any(entries, g)
}

/// The relation `expands` of a program.
pub open spec fn expand_rel(p: Seq<Function>, entries: Seq<ApiEntry>) -> spec_fn(int, int) -> bool {
    |f: int, g: int| expands(p, entries, f, g)
}

/// Block `b` of `h` calls an API that declares contract `c`.
pub open spec fn exercises_at(
    p: Seq<Function>,
    entries: Seq<ApiEntry>,
    h: int,
    b: int,
    c: int,
) -> bool {
    callee_at(p, h, b) matches Some(t) && declares(entries, t as int, c)
}

/// Some block of `h` calls an API that declares contract `c`.
pub open spec fn exercises_directly(
    p: Seq<Function>,
    entries: Seq<ApiEntry>,
    h: int,
    c: int,
) -> bool {
    exists|b: int| exercises_at(p, entries, h, b, c)
}

/// The call chain of `f` exercises contract `c`.
pub open spec fn exercises(p: Seq<Function>, entries: Seq<ApiEntry>, f: int, c: int) -> bool {
    exists|h: int|
        reaches(expand_rel(p, entries), f, h) && #[trigger] exercises_directly(p, entries, h, c)
}

/// For each contract of the catalog, whether the call chain of `f` exercises
/// it.
pub open spec fn exercised(p: Seq<Function>, entries: Seq<ApiEntry>, f: int, contracts: nat) -> Seq<
    bool,
> {
    Seq::new(contracts, |c: int| exercises(p, entries, f, c))
}

/// The names of the first `k` contracts that are picked, in catalog order.
pub open spec fn picked_names(contracts: Seq<SafetyContract>, picked: Seq<bool>, k: nat) -> Seq<
    Seq<char>,
>
    decreases k,
{
    if k == 0 {
        Seq::empty()
    } else {
        let rest = picked_names(contracts, picked, (k - 1) as nat);
        if picked[k - 1] {
            rest.push(contracts[k - 1].name@)
        } else {
            rest
        }
    }
}

/// The names of the contracts that the call chain of `f` exercises, in
/// catalog order.
pub open spec fn annotation_names(
    p: Seq<Function>,
    contracts: Seq<SafetyContract>,
    entries: Seq<ApiEntry>,
    f: int,
) -> Seq<Seq<char>> {
    picked_names(contracts, exercised(p, entries, f, contracts.len()), contracts.len())
}

/// What each string holds.
pub open spec fn texts(v: Seq<String>) -> Seq<Seq<char>> {
    v.map_values(|s: String| s@)
}

/// A name is picked exactly when a picked contract bears it.
pub proof fn lemma_picked_names(
    contracts: Seq<SafetyContract>,
    picked: Seq<bool>,
    k: nat,
    name: Seq<char>,
)
    requires
        k <= contracts.len(),
        k <= picked.len(),
    ensures
        picked_names(contracts, picked, k).contains(name) <==> exists|c: int|
            0 <= c < k && picked[c] && (#[trigger] contracts[c]).name@ == name,
    decreases k,
{
    if k > 0 {
        let rest = picked_names(contracts, picked, (k - 1) as nat);
        lemma_picked_names(contracts, picked, (k - 1) as nat, name);
        let all = picked_names(contracts, picked, k);
        if picked[k - 1] {
            assert(all == rest.push(contracts[k - 1].name@));
            if all.contains(name) {
                let i = choose|i: int| 0 <= i < all.len() && all[i] == name;
                if i < rest.len() {
                    assert(rest[i] == name);
                    assert(rest.contains(name));
                } else {
                    assert(contracts[k - 1].name@ == name);
                }
            }
            if exists|c: int| 0 <= c < k && picked[c] && (#[trigger] contracts[c]).name@ == name {
                let c = choose|c: int|
                    0 <= c < k && picked[c] && (#[trigger] contracts[c]).name@ == name;
                if c < k - 1 {
                    assert(rest.contains(name));
                    let i = choose|i: int| 0 <= i < rest.len() && rest[i] == name;
                    assert(all[i] == name);
                } else {
                    assert(all[all.len() - 1] == name);
                }
            }
        }
    }
}

/// A function that calls nothing by name reaches only itself.
proof fn lemma_no_calls_reaches_self(
    p: Seq<Function>,
    entries: Seq<ApiEntry>,
    f: int,
    h: int,
    k: nat,
)
    requires
        forall|g: int| !calls_direct(p, f, g),
        reach_in(expand_rel(p, entries), f, h, k),
    ensures
        h == f,
    decreases k,
{
    if k > 0 {
        let rel = expand_rel(p, entries);
        let m = choose|m: int| reach_in(rel, f, m, (k - 1) as nat) && #[trigger] step(rel, m, h);
        lemma_no_calls_reaches_self(p, entries, f, m, (k - 1) as nat);
        assert(expands(p, entries, f, h));
    }
}

fn direct_callee_of(block: &Block) -> (r: Option<usize>)
    ensures
        r == direct_callee(*block),
{
    match &block.terminator {
        Terminator::Call { callee, .. } => match callee {
            Callee::Direct(g) => Some(*g),
            Callee::Indirect(_) => None,
        },
        _ => None,
    }
}

/// One of the first `b` blocks of `f` calls `g` by name, and `g` declares no
/// contract.
spec fn expands_before(p: Seq<Function>, entries: Seq<ApiEntry>, f: int, b: int, g: int) -> bool {
    !declares_any(entries, g) && exists|c: int| 0 <= c < b && #[trigger] calls_at(p, f, c, g)
}

/// The functions that `f` calls by name and that declare no contract.
fn expansions_of(program: &Program, catalog: &Catalog, f: usize) -> (list: Vec<usize>)
    requires
        f < program@.len(),
    ensures
        forall|i: int| 0 <= i < list@.len() ==> list@[i] < program@.len(),
        forall|g: int|
            #[trigger] listed(list@, g) <==> expands(program@, catalog.entries(), f as int, g),
{
    let ghost p = program@;
    let ghost entries = catalog.entries();
    let mut list: Vec<usize> = Vec::new();
    let function = program.function(f);
    match &function.body {
        None => {
            proof {
                assert forall|g: int| !expands(p, entries, f as int, g) by {
                    assert(forall|b: int| !calls_at(p, f as int, b, g));
                }
            }
        },
        Some(body) => {
            let mut b: usize = 0;
            while b < body.blocks.len()
                invariant
                    p == program@,
                    entries == catalog.entries(),
                    well_formed(p),
                    f < p.len(),
                    p[f as int].body == Some(*body),
                    b <= body.blocks@.len(),
                    forall|i: int| 0 <= i < list@.len() ==> list@[i] < p.len(),
                    forall|g: int|
                        #[trigger] listed(list@, g) <==> expands_before(
                            p,
                            entries,
                            f as int,
                            b as int,
                            g,
                        ),
                decreases body.blocks@.len() - b,
            {
                let ghost prior = list@;
                let found = direct_callee_of(&body.blocks[b]);
                let mut added: bool = false;
                match found {
                    Some(g) => {
                        assert(p[f as int].valid(p.len()));
                        assert(body.blocks@[b as int].valid(
                            body.locals as nat,
                            body.blocks@.len(),
                            p.len(),
                        ));
                        assert(g < p.len());
                        if catalog.lookup(g).len() == 0 {
                            list.push(g);
                            added = true;
                            assert(list@[list@.len() - 1] == g);
                        }
                    },
                    None => {},
                }
                proof {
                    assert forall|x: int| #[trigger]
                        listed(list@, x) <==> expands_before(
                            p,
                            entries,
                            f as int,
                            b + 1,
                            x,
                        ) by {
                        if listed(list@, x) {
                            let i = choose|i: int| 0 <= i < list@.len() && #[trigger] list@[i] == x;
                            if i < prior.len() {
                                assert(prior[i] == x);
                                assert(listed(prior, x));
                                assert(expands_before(p, entries, f as int, b as int, x));
                                let c = choose|c: int|
                                    0 <= c < b && #[trigger] calls_at(p, f as int, c, x);
                                assert(0 <= c < b + 1);
                            } else {
                                assert(calls_at(p, f as int, b as int, x));
                            }
                        }
                        if expands_before(p, entries, f as int, b + 1, x) {
                            let c = choose|c: int|
                                0 <= c < b + 1 && #[trigger] calls_at(p, f as int, c, x);
                            if c < b {
                                assert(expands_before(p, entries, f as int, b as int, x));
                                assert(listed(prior, x));
                                let i = choose|i: int|
                                    0 <= i < prior.len() && #[trigger] prior[i] == x;
                                assert(list@[i] == x);
                            } else {
                                assert(added);
                                assert(list@[list@.len() - 1] == x);
                            }
                        }
                    }
                }
                b += 1;
            }
            proof {
                assert forall|g: int| #[trigger]
                    listed(list@, g) <==> expands(p, entries, f as int, g) by {
                    if expands(p, entries, f as int, g) {
                        let c = choose|c: int| calls_at(p, f as int, c, g);
                        assert(0 <= c < b);
                        assert(expands_before(p, entries, f as int, b as int, g));
                    }
                    if listed(list@, g) {
                        assert(expands_before(p, entries, f as int, b as int, g));
                    }
                }
            }
        },
    }
    list
}

/// The graph of `expands`, as adjacency lists.
fn expansion_lists(program: &Program, catalog: &Catalog) -> (adj: Vec<Vec<usize>>)
    ensures
        adj@.len() == program@.len(),
        lists_valid(adj@),
        forall|f: int, g: int|
            #![trigger has_edge(adj@, f, g)]
            has_edge(adj@, f, g) <==> expands(program@, catalog.entries(), f, g),
{
    let ghost p = program@;
    let ghost entries = catalog.entries();
    let n: usize = program.len();
    let mut adj: Vec<Vec<usize>> = Vec::new();
    while adj.len() < n
        invariant
            p == program@,
            entries == catalog.entries(),
            n == p.len(),
            adj@.len() <= n,
            forall|a: int, i: int|
                0 <= a < adj@.len() && 0 <= i < adj@[a]@.len() ==> (#[trigger] adj@[a]@[i]) < n,
            forall|f: int, g: int|
                #![trigger has_edge(adj@, f, g)]
                0 <= f < adj@.len() ==> (has_edge(adj@, f, g) <==> expands(p, entries, f, g)),
        decreases n - adj@.len(),
    {
        let ghost prior = adj@;
        let f: usize = adj.len();
        let list = expansions_of(program, catalog, f);
        adj.push(list);
        proof {
            assert forall|a: int, i: int|
                0 <= a < adj@.len() && 0 <= i < adj@[a]@.len() implies (#[trigger] adj@[a]@[i])
                < n by {
                if a < prior.len() {
                    assert(adj@[a] == prior[a]);
                }
            }
            assert forall|x: int, g: int|
                #![trigger has_edge(adj@, x, g)]
                0 <= x < adj@.len() implies (has_edge(adj@, x, g) <==> expands(
                p,
                entries,
                x,
                g,
            )) by {
                if x < prior.len() {
                    assert(adj@[x] == prior[x]);
                    assert(has_edge(adj@, x, g) == has_edge(prior, x, g));
                }
            }
        }
    }
    proof {
        assert forall|f: int, g: int|
            #![trigger has_edge(adj@, f, g)]
            has_edge(adj@, f, g) <==> expands(p, entries, f, g) by {
            if !(0 <= f < n) {
                assert(forall|b: int| !calls_at(p, f, b, g));
            }
        }
    }
    adj
}

/// Adds the contracts that `api` declares.
fn mark_declared(catalog: &Catalog, api: usize, held: &mut Vec<bool>)
    requires
        old(held)@.len() == catalog.contracts().len(),
    ensures
        final(held)@.len() == old(held)@.len(),
        forall|c: int|
            0 <= c < old(held)@.len() ==> #[trigger] final(held)@[c] == (old(held)@[c] || declares(
                catalog.entries(),
                api as int,
                c,
            )),
{
    let ghost start = held@;
    let ghost entries = catalog.entries();
    let requirements = catalog.lookup(api);
    let mut i: usize = 0;
    while i < requirements.len()
        invariant
            requirements@ == requirements_of(entries, api as int),
            requirements_valid(requirements@, start.len()),
            i <= requirements@.len(),
            held@.len() == start.len(),
            forall|c: int|
                0 <= c < start.len() ==> #[trigger] held@[c] == (start[c] || names_contract(
                    requirements@,
                    i as int,
                    c,
                )),
        decreases requirements@.len() - i,
    {
        let ghost prior = held@;
        let c: usize = requirements[i].contract;
        held.set(c, true);
        proof {
            assert forall|x: int| 0 <= x < start.len() implies #[trigger] held@[x] == (start[x]
                || names_contract(requirements@, i + 1, x)) by {
                assert(prior[x] == (start[x] || names_contract(requirements@, i as int, x)));
                if names_contract(requirements@, i + 1, x) {
                    let j = choose|j: int|
                        0 <= j < i + 1 && (#[trigger] requirements@[j]).contract == x;
                    if j < i {
                        assert(names_contract(requirements@, i as int, x));
                    }
                }
                if names_contract(requirements@, i as int, x) {
                    let j = choose|j: int|
                        0 <= j < i && (#[trigger] requirements@[j]).contract == x;
                    assert(0 <= j < i + 1);
                }
                if x == c {
                    assert(requirements@[i as int].contract == x);
                }
            }
        }
        i += 1;
    }
}

/// One of the first `b` blocks of `h` calls an API that declares `c`.
spec fn exercises_before(p: Seq<Function>, entries: Seq<ApiEntry>, h: int, b: int, c: int) -> bool {
    exists|j: int| 0 <= j < b && #[trigger] exercises_at(p, entries, h, j, c)
}

/// Adds the contracts declared by the APIs that `h` calls by name.
fn mark_exercised(program: &Program, catalog: &Catalog, h: usize, held: &mut Vec<bool>)
    requires
        h < program@.len(),
        old(held)@.len() == catalog.contracts().len(),
    ensures
        final(held)@.len() == old(held)@.len(),
        forall|c: int|
            0 <= c < old(held)@.len() ==> #[trigger] final(held)@[c] == (old(held)@[c]
                || exercises_directly(program@, catalog.entries(), h as int, c)),
{
    let ghost start = held@;
    let ghost p = program@;
    let ghost entries = catalog.entries();
    let function = program.function(h);
    match &function.body {
        None => {
            proof {
                assert forall|c: int| !exercises_directly(p, entries, h as int, c) by {
                    assert(forall|b: int| !exercises_at(p, entries, h as int, b, c));
                }
            }
        },
        Some(body) => {
            let mut b: usize = 0;
            while b < body.blocks.len()
                invariant
                    p == program@,
                    entries == catalog.entries(),
                    h < p.len(),
                    p[h as int].body == Some(*body),
                    b <= body.blocks@.len(),
                    held@.len() == start.len(),
                    start.len() == catalog.contracts().len(),
                    forall|c: int|
                        0 <= c < start.len() ==> #[trigger] held@[c] == (start[c]
                            || exercises_before(p, entries, h as int, b as int, c)),
                decreases body.blocks@.len() - b,
            {
                let ghost prior = held@;
                let found = direct_callee_of(&body.blocks[b]);
                match found {
                    Some(t) => {
                        mark_declared(catalog, t, held);
                    },
                    None => {},
                }
                proof {
                    assert forall|c: int| 0 <= c < start.len() implies #[trigger] held@[c] == (
                    start[c] || exercises_before(p, entries, h as int, b + 1, c)) by {
                        assert(prior[c] == (start[c] || exercises_before(
                            p,
                            entries,
                            h as int,
                            b as int,
                            c,
                        )));
                        assert(callee_at(p, h as int, b as int) == found);
                        assert(held@[c] == (prior[c] || exercises_at(
                            p,
                            entries,
                            h as int,
                            b as int,
                            c,
                        )));
                        if exercises_before(p, entries, h as int, b + 1, c) {
                            let j = choose|j: int|
                                0 <= j < b + 1 && #[trigger] exercises_at(
                                    p,
                                    entries,
                                    h as int,
                                    j,
                                    c,
                                );
                            if j < b {
                                assert(exercises_before(p, entries, h as int, b as int, c));
                            }
                        }
                        if exercises_before(p, entries, h as int, b as int, c) {
                            let j = choose|j: int|
                                0 <= j < b && #[trigger] exercises_at(p, entries, h as int, j, c);
                            assert(0 <= j < b + 1);
                        }
                    }
                }
                b += 1;
            }
            proof {
                assert forall|c: int| 0 <= c < start.len() implies #[trigger] held@[c] == (start[c]
                    || exercises_directly(p, entries, h as int, c)) by {
                    if exercises_directly(p, entries, h as int, c) {
                        let j = choose|j: int| exercises_at(p, entries, h as int, j, c);
                        assert(0 <= j < b);
                        assert(exercises_before(p, entries, h as int, b as int, c));
                    }
                    if exercises_before(p, entries, h as int, b as int, c) {
                        let j = choose|j: int|
                            0 <= j < b && #[trigger] exercises_at(p, entries, h as int, j, c);
                    }
                }
            }
        },
    }
}

/// The names of the picked contracts, in catalog order.
pub(crate) fn names_of(catalog: &Catalog, picked: &Vec<bool>) -> (names: Vec<String>)
    requires
        picked@.len() == catalog.contracts().len(),
    ensures
        texts(names@) == picked_names(catalog.contracts(), picked@, picked@.len()),
{
    let n: usize = picked.len();
    let mut names: Vec<String> = Vec::new();
    let mut c: usize = 0;
    assert(texts(names@) =~= Seq::<Seq<char>>::empty());
    while c < n
        invariant
            n == picked@.len(),
            n == catalog.contracts().len(),
            c <= n,
            texts(names@) == picked_names(catalog.contracts(), picked@, c as nat),
        decreases n - c,
    {
        if picked[c] {
            let ghost prior = names@;
            match catalog.contract(c) {
                Some(contract) => {
                    let name = contract.name.clone();
                    names.push(name);
                    assert(texts(names@) =~= texts(prior).push(contract.name@));
                },
                None => {},
            }
        }
        c += 1;
    }
    names
}

/// For each contract of the catalog, whether the call chain of `function`
/// exercises it.
pub fn exercised_contracts(program: &Program, catalog: &Catalog, function: usize) -> (held: Vec<
    bool,
>)
    ensures
        held@ == exercised(
            program@,
            catalog.entries(),
            function as int,
            catalog.contracts().len(),
        ),
{
    let ghost p = program@;
    let ghost entries = catalog.entries();
    let ghost rel = expand_rel(p, entries);
    let m: usize = catalog.contract_count();
    let mut held = falses(m);
    let n: usize = program.len();
    if function >= n {
        proof {
            assert forall|c: int| !exercises(p, entries, function as int, c) by {
                if exercises(p, entries, function as int, c) {
                    let h = choose|h: int|
                        reaches(rel, function as int, h) && #[trigger] exercises_directly(
                            p,
                            entries,
                            h,
                            c,
                        );
                    let k = choose|k: nat| reach_in(rel, function as int, h, k);
                    assert forall|g: int| !calls_direct(p, function as int, g) by {
                        assert(forall|b: int| !calls_at(p, function as int, b, g));
                    }
                    lemma_no_calls_reaches_self(p, entries, function as int, h, k);
                    assert(forall|b: int| !exercises_at(p, entries, h, b, c));
                }
            }
            assert(held@ =~= exercised(p, entries, function as int, m as nat));
        }
        return held;
    }
    let adj = expansion_lists(program, catalog);
    let marks = closure(&adj, function);
    proof {
        assert forall|v: int| 0 <= v < n implies marks@[v] == reaches(rel, function as int, v) by {
            assert forall|x: int, y: int| #[trigger]
                step(edge_rel(adj@), x, y) == step(rel, x, y) by {
                assert(has_edge(adj@, x, y) <==> expands(p, entries, x, y));
            }
            lemma_reaches_agree(edge_rel(adj@), rel, function as int, v);
        }
    }
    let mut h: usize = 0;
    while h < n
        invariant
            p == program@,
            entries == catalog.entries(),
            rel == expand_rel(p, entries),
            n == p.len(),
            m == catalog.contracts().len(),
            h <= n,
            marks@.len() == n,
            held@.len() == m,
            forall|v: int| 0 <= v < n ==> marks@[v] == reaches(rel, function as int, v),
            forall|c: int|
                0 <= c < m ==> held@[c] == (exists|v: int|
                    0 <= v < h && marks@[v] && #[trigger] exercises_directly(p, entries, v, c)),
        decreases n - h,
    {
        let ghost prior = held@;
        if marks[h] {
            mark_exercised(program, catalog, h, &mut held);
        }
        proof {
            assert forall|c: int| 0 <= c < m implies held@[c] == (exists|v: int|
                0 <= v < h + 1 && marks@[v] && #[trigger] exercises_directly(p, entries, v, c)) by {
                if exists|v: int|
                    0 <= v < h + 1 && marks@[v] && #[trigger] exercises_directly(p, entries, v, c) {
                    let v = choose|v: int|
                        0 <= v < h + 1 && marks@[v] && #[trigger] exercises_directly(
                            p,
                            entries,
                            v,
                            c,
                        );
                    if v < h {
                        assert(prior[c]);
                    }
                }
                if prior[c] {
                    let v = choose|v: int|
                        0 <= v < h && marks@[v] && #[trigger] exercises_directly(p, entries, v, c);
                    assert(0 <= v < h + 1);
                }
            }
        }
        h += 1;
    }
    proof {
        assert forall|c: int| 0 <= c < m implies held@[c] == exercises(
            p,
            entries,
            function as int,
            c,
        ) by {
            if exercises(p, entries, function as int, c) {
                let v = choose|v: int|
                    reaches(rel, function as int, v) && #[trigger] exercises_directly(
                        p,
                        entries,
                        v,
                        c,
                    );
                assert(exists|b: int| exercises_at(p, entries, v, b, c));
                assert(0 <= v < n);
            }
        }
        assert(held@ =~= exercised(p, entries, function as int, m as nat));
    }
    held
}

/// The names of the safety contracts that `function` exercises, itself or
/// through the functions it calls, in catalog order.
pub fn collect(program: &Program, catalog: &Catalog, function: usize) -> (names: Vec<String>)
    ensures
        texts(names@) == annotation_names(
            program@,
            catalog.contracts(),
            catalog.entries(),
            function as int,
        ),
{
    let held = exercised_contracts(program, catalog, function);
    names_of(catalog, &held)
}

} // verus!
