//! Holding the guarded calls of a walked body against the contracts that the
//! called APIs declare.

use crate::annotation::texts;
use crate::catalog::{
    names_distinct, requirements_of, requirements_valid, ApiEntry, Catalog, Requirement,
    SafetyContract,
};
use crate::facts::FactSet;
use crate::program::{all_below, Block, Function, Program, Terminator};
use crate::resolver::{all_targets, lemma_indices_where, resolution, resolved, FnMap};
use crate::walk::{fits, well_shaped, Walk, Walker};
use vstd::prelude::*;

verus! {

/// The outcome of one guarded call: the API that is called and, for each
/// argument with a contract that its state does not meet, the position of the
/// argument and the names of those contracts.
#[derive(Debug, PartialEq, Eq)]
pub struct CheckResult {
    pub func_name: String,
    pub failed_contracts: Vec<(usize, Vec<String>)>,
}

/// What a `CheckResult` says.
pub struct Finding {
    pub name: Seq<char>,
    pub failed: Seq<(usize, Seq<Seq<char>>)>,
}

/// What a list of failed contracts says.
pub open spec fn failed_view(v: Seq<(usize, Vec<String>)>) -> Seq<(usize, Seq<Seq<char>>)> {
    v.map_values(|e: (usize, Vec<String>)| (e.0, texts(e.1@)))
}

impl View for CheckResult {
    type V = Finding;

    open spec fn view(&self) -> Finding {
        Finding { name: self.func_name@, failed: failed_view(self.failed_contracts@) }
    }
}

/// What a list of results says.
pub open spec fn results_view(v: Seq<CheckResult>) -> Seq<Finding> {
    v.map_values(|r: CheckResult| r@)
}

/// Requirement `r` speaks of the argument at `param`, and `facts` do not meet
/// its contract.
pub open spec fn fails(
    contracts: Seq<SafetyContract>,
    r: Requirement,
    param: int,
    facts: FactSet,
) -> bool {
    r.param == param && !contracts[r.contract as int].matcher.holds(facts)
}

/// The names of the contracts among the first `k` requirements that the
/// argument at `param`, of which `facts` are known, does not meet.
pub open spec fn failed_names(
    contracts: Seq<SafetyContract>,
    requirements: Seq<Requirement>,
    k: nat,
    param: int,
    facts: FactSet,
) -> Seq<Seq<char>>
    decreases k,
{
    if k == 0 {
        Seq::empty()
    } else {
        let rest = failed_names(contracts, requirements, (k - 1) as nat, param, facts);
        if fails(contracts, requirements[k - 1], param, facts) {
            rest.push(contracts[requirements[k - 1].contract as int].name@)
        } else {
            rest
        }
    }
}

/// For each of the first `k` arguments that fails a contract, its position and
/// the names of the contracts it fails.
pub open spec fn failed_args(
    contracts: Seq<SafetyContract>,
    requirements: Seq<Requirement>,
    args: Seq<usize>,
    k: nat,
    state: Seq<FactSet>,
) -> Seq<(usize, Seq<Seq<char>>)>
    decreases k,
{
    if k == 0 {
        Seq::empty()
    } else {
        let rest = failed_args(contracts, requirements, args, (k - 1) as nat, state);
        let names = failed_names(
            contracts,
            requirements,
            requirements.len(),
            k - 1,
            state[args[k - 1] as int],
        );
        if names.len() > 0 {
            rest.push(((k - 1) as usize, names))
        } else {
            rest
        }
    }
}

/// The outcome of a call to the guarded API `t` with `args` in `state`.
pub open spec fn check_call(
    p: Seq<Function>,
    contracts: Seq<SafetyContract>,
    entries: Seq<ApiEntry>,
    t: int,
    args: Seq<usize>,
    state: Seq<FactSet>,
) -> Finding {
    Finding {
        name: p[t].name@,
        failed: failed_args(contracts, requirements_of(entries, t), args, args.len(), state),
    }
}

/// The outcomes for the guarded APIs among the first `k` targets of a call.
pub open spec fn call_findings(
    p: Seq<Function>,
    contracts: Seq<SafetyContract>,
    entries: Seq<ApiEntry>,
    list: Seq<usize>,
    k: nat,
    args: Seq<usize>,
    state: Seq<FactSet>,
) -> Seq<Finding>
    decreases k,
{
    if k == 0 {
        Seq::empty()
    } else {
        let rest = call_findings(p, contracts, entries, list, (k - 1) as nat, args, state);
        if p[list[k - 1] as int].guarded_api {
            rest.push(check_call(p, contracts, entries, list[k - 1] as int, args, state))
        } else {
            rest
        }
    }
}

/// The outcomes of the call that ends `block`, if it ends in one, with
/// `state` at its terminator and `list` as the targets of the call.
pub open spec fn block_findings(
    p: Seq<Function>,
    contracts: Seq<SafetyContract>,
    entries: Seq<ApiEntry>,
    list: Seq<usize>,
    block: Block,
    state: Seq<FactSet>,
) -> Seq<Finding> {
    match block.terminator {
        Terminator::Call { callee, args, dest, target } => call_findings(
            p,
            contracts,
            entries,
            list,
            list.len(),
            args@,
            state,
        ),
        _ => Seq::empty(),
    }
}

/// The outcomes of the guarded calls in the first `k` blocks of `order` that
/// were walked.
pub open spec fn findings_first(
    p: Seq<Function>,
    contracts: Seq<SafetyContract>,
    entries: Seq<ApiEntry>,
    lists: Seq<Seq<usize>>,
    blocks: Seq<Block>,
    order: Seq<usize>,
    k: nat,
    walk: Walk,
) -> Seq<Finding>
    decreases k,
{
    if k == 0 {
        Seq::empty()
    } else {
        let rest = findings_first(
            p,
            contracts,
            entries,
            lists,
            blocks,
            order,
            (k - 1) as nat,
            walk,
        );
        let b = order[k - 1] as int;
        if walk.done[b] {
            rest + block_findings(p, contracts, entries, lists[b], blocks[b], walk.states[b].facts)
        } else {
            rest
        }
    }
}

/// `block` was walked and ends in a call for which no target is known.
pub open spec fn is_unresolved(
    lists: Seq<Seq<usize>>,
    blocks: Seq<Block>,
    walk: Walk,
    b: int,
) -> bool {
    walk.done[b] && blocks[b].terminator is Call && lists[b].len() == 0
}

/// The blocks among the first `k` of `order` that were walked and end in a
/// call for which no target is known.
pub open spec fn unresolved_first(
    lists: Seq<Seq<usize>>,
    blocks: Seq<Block>,
    order: Seq<usize>,
    k: nat,
    walk: Walk,
) -> Seq<usize>
    decreases k,
{
    if k == 0 {
        Seq::empty()
    } else {
        let rest = unresolved_first(lists, blocks, order, (k - 1) as nat, walk);
        if is_unresolved(lists, blocks, walk, order[k - 1] as int) {
            rest.push(order[k - 1])
        } else {
            rest
        }
    }
}

/// A contract that the facts meet is not among the failed ones.
pub proof fn lemma_met_not_failed(
    contracts: Seq<SafetyContract>,
    requirements: Seq<Requirement>,
    k: nat,
    param: int,
    facts: FactSet,
    c: int,
)
    requires
        names_distinct(contracts),
        requirements_valid(requirements, contracts.len()),
        k <= requirements.len(),
        0 <= c < contracts.len(),
        contracts[c].matcher.holds(facts),
    ensures
        !failed_names(contracts, requirements, k, param, facts).contains(contracts[c].name@),
    decreases k,
{
    if k > 0 {
        let rest = failed_names(contracts, requirements, (k - 1) as nat, param, facts);
        let all = failed_names(contracts, requirements, k, param, facts);
        lemma_met_not_failed(contracts, requirements, (k - 1) as nat, param, facts, c);
        if all.contains(contracts[c].name@) {
            let i = choose|i: int| 0 <= i < all.len() && all[i] == contracts[c].name@;
            if i < rest.len() {
                assert(rest[i] == contracts[c].name@);
                assert(rest.contains(contracts[c].name@));
            } else {
                let d = requirements[k - 1].contract as int;
                assert(contracts[d].name@ == contracts[c].name@);
                if d < c {
                    assert(contracts[d].name@ != contracts[c].name@);
                } else if c < d {
                    assert(contracts[c].name@ != contracts[d].name@);
                }
            }
        }
    }
}

fn failed_names_of(
    catalog: &Catalog,
    requirements: &Vec<Requirement>,
    param: usize,
    facts: FactSet,
) -> (names: Vec<String>)
    requires
        requirements_valid(requirements@, catalog.contracts().len()),
    ensures
        texts(names@) == failed_names(
            catalog.contracts(),
            requirements@,
            requirements@.len(),
            param as int,
            facts,
        ),
{
    let ghost contracts = catalog.contracts();
    let mut names: Vec<String> = Vec::new();
    let mut k: usize = 0;
    assert(texts(names@) =~= Seq::<Seq<char>>::empty());
    while k < requirements.len()
        invariant
            contracts == catalog.contracts(),
            requirements_valid(requirements@, contracts.len()),
            k <= requirements@.len(),
            texts(names@) == failed_names(contracts, requirements@, k as nat, param as int, facts),
        decreases requirements@.len() - k,
    {
        let r = requirements[k];
        if r.param == param {
            match catalog.contract(r.contract) {
                Some(contract) => {
                    if !contract.matches(facts) {
                        let ghost prior = names@;
                        names.push(contract.name.clone());
                        assert(texts(names@) =~= texts(prior).push(contract.name@));
                    }
                },
                None => {},
            }
        }
        k += 1;
    }
    names
}

fn check_call_of(
    program: &Program,
    catalog: &Catalog,
    t: usize,
    args: &Vec<usize>,
    state: &Vec<FactSet>,
) -> (r: CheckResult)
    requires
        t < program@.len(),
        all_below(args@, state@.len()),
    ensures
        r@ == check_call(
            program@,
            catalog.contracts(),
            catalog.entries(),
            t as int,
            args@,
            state@,
        ),
{
    let ghost contracts = catalog.contracts();
    let requirements = catalog.lookup(t);
    let mut failed: Vec<(usize, Vec<String>)> = Vec::new();
    let mut a: usize = 0;
    assert(failed_view(failed@) =~= Seq::<(usize, Seq<Seq<char>>)>::empty());
    while a < args.len()
        invariant
            contracts == catalog.contracts(),
            requirements_valid(requirements@, contracts.len()),
            all_below(args@, state@.len()),
            a <= args@.len(),
            failed_view(failed@) == failed_args(contracts, requirements@, args@, a as nat, state@),
        decreases args@.len() - a,
    {
        let names = failed_names_of(catalog, requirements, a, state[args[a]]);
        if names.len() > 0 {
            let ghost prior = failed@;
            let ghost said = texts(names@);
            failed.push((a, names));
            assert(failed_view(failed@) =~= failed_view(prior).push((a, said)));
        }
        a += 1;
    }
    CheckResult { func_name: program.function(t).name.clone(), failed_contracts: failed }
}

/// Holds the guarded calls of the walked body of `function` against the
/// catalog. Returns the outcomes, in the order of the walk, and the blocks
/// that end in a call for which no target is known.
pub(crate) fn evaluate(
    program: &Program,
    catalog: &Catalog,
    map: &FnMap,
    function: usize,
    order: &Vec<usize>,
    walker: &Walker,
) -> (r: (Vec<CheckResult>, Vec<usize>))
    requires
        map@ == resolution(program@),
        function < program@.len(),
        program@[function as int].body.is_some(),
        forall|i: int|
            0 <= i < order@.len() ==> order@[i]
                < program@[function as int].body.unwrap().blocks@.len(),
        well_shaped(
            walker@,
            program@[function as int].body.unwrap().blocks@.len(),
            program@[function as int].body.unwrap().locals as nat,
        ),
    ensures
        results_view(r.0@) == findings_first(
            program@,
            catalog.contracts(),
            catalog.entries(),
            all_targets(program@)[function as int],
            program@[function as int].body.unwrap().blocks@,
            order@,
            order@.len(),
            walker@,
        ),
        r.1@ == unresolved_first(
            all_targets(program@)[function as int],
            program@[function as int].body.unwrap().blocks@,
            order@,
            order@.len(),
            walker@,
        ),
{
    let ghost p = program@;
    let ghost contracts = catalog.contracts();
    let ghost entries = catalog.entries();
    let ghost lists = all_targets(p)[function as int];
    let mut results: Vec<CheckResult> = Vec::new();
    let mut unresolved: Vec<usize> = Vec::new();
    let n: usize = program.len();
    let owner = program.function(function);
    assert(results_view(results@) =~= Seq::<Finding>::empty());
    match &owner.body {
        None => {},
        Some(body) => {
            let ghost blocks = body.blocks@;
            assert(p[function as int].valid(p.len()));
            let mut k: usize = 0;
            while k < order.len()
                invariant
                    p == program@,
                    contracts == catalog.contracts(),
                    entries == catalog.entries(),
                    map@ == resolution(p),
                    lists == all_targets(p)[function as int],
                    n == p.len(),
                    function < p.len(),
                    p[function as int].body == Some(*body),
                    body.valid(p.len()),
                    blocks == body.blocks@,
                    forall|i: int| 0 <= i < order@.len() ==> order@[i] < blocks.len(),
                    well_shaped(walker@, blocks.len(), body.locals as nat),
                    k <= order@.len(),
                    results_view(results@) == findings_first(
                        p,
                        contracts,
                        entries,
                        lists,
                        blocks,
                        order@,
                        k as nat,
                        walker@,
                    ),
                    unresolved@ == unresolved_first(lists, blocks, order@, k as nat, walker@),
                decreases order@.len() - k,
            {
                let b: usize = order[k];
                let ghost base = results_view(results@);
                if walker.is_done(b) {
                    let block = &body.blocks[b];
                    assert(blocks[b as int].valid(body.locals as nat, blocks.len(), p.len()));
                    match &block.terminator {
                        Terminator::Call { callee, args, dest, target } => {
                            assert(fits(walker@.states[b as int], body.locals as nat));
                            let state = &walker.state(b).unwrap().facts;
                            let list = map.targets(function, b).unwrap();
                            assert(list@ == lists[b as int]);
                            if list.len() == 0 {
                                unresolved.push(b);
                            }
                            let mut i: usize = 0;
                            assert(results_view(results@) =~= base + Seq::<Finding>::empty());
                            while i < list.len()
                                invariant
                                    p == program@,
                                    contracts == catalog.contracts(),
                                    entries == catalog.entries(),
                                    n == p.len(),
                                    list@ == lists[b as int],
                                    lists == all_targets(p)[function as int],
                                    function < p.len(),
                                    b < all_targets(p)[function as int].len(),
                                    all_below(args@, state@.len()),
                                    i <= list@.len(),
                                    results_view(results@) == base + call_findings(
                                        p,
                                        contracts,
                                        entries,
                                        list@,
                                        i as nat,
                                        args@,
                                        state@,
                                    ),
                                decreases list@.len() - i,
                            {
                                let t: usize = list[i];
                                proof {
                                    lemma_indices_where(
                                        Seq::new(
                                            p.len(),
                                            |x: int| resolved(p, function as int, b as int, x),
                                        ),
                                        p.len(),
                                        t as int,
                                    );
                                }
                                if program.function(t).guarded_api {
                                    let ghost prior = results@;
                                    let result = check_call_of(program, catalog, t, args, state);
                                    let ghost said = result@;
                                    results.push(result);
                                    assert(results_view(results@) =~= results_view(prior).push(
                                        said,
                                    ));
                                    assert(base + call_findings(
                                        p,
                                        contracts,
                                        entries,
                                        list@,
                                        i as nat,
                                        args@,
                                        state@,
                                    ).push(said) =~= (base + call_findings(
                                        p,
                                        contracts,
                                        entries,
                                        list@,
                                        i as nat,
                                        args@,
                                        state@,
                                    )).push(said));
                                }
                                i += 1;
                            }
                        },
                        _ => {
                            assert(results_view(results@) =~= base + Seq::<Finding>::empty());
                        },
                    }
                }
                k += 1;
            }
        },
    }
    (results, unresolved)
}

} // verus!
