//! What holds of every run.

use crate::annotation::{
    annotation_names, calls_at, calls_direct, exercised, exercises, exercises_at,
    exercises_directly, expand_rel, expands, lemma_picked_names, picked_names,
};
use crate::catalog::{
    catalog_valid, declares, declares_any, requirements_of, requirements_valid, ApiEntry,
    Requirement, SafetyContract,
};
use crate::driver::{
    lintable, reaches_guarded, report_for, run_first, verifiable, CheckLevel, Reported,
};
use crate::facts::FactSet;
use crate::graph::{listed, reach_in, reaches, step};
use crate::inter_record::Slot;
use crate::order::{lemma_depth_suffices, postorder, unsearched, visit};
use crate::program::{Block, Function, Terminator};
use crate::resolver::{
    all_targets, lemma_indices_none, lemma_indices_single, lemma_indices_where, resolved,
    targets_of,
};
use crate::summary::{contribution, records_valid};
use crate::visitor::{check_call, failed_args, failed_names, lemma_met_not_failed};
use crate::walk::{meet_states, Known};
use vstd::prelude::*;

verus! {

/// Every report of a run is the report of the function it is about.
pub proof fn lemma_run_first(
    p: Seq<Function>,
    contracts: Seq<SafetyContract>,
    entries: Seq<ApiEntry>,
    merge: bool,
    level: CheckLevel,
    is_verify: bool,
    k: nat,
    i: int,
)
    requires
        k <= p.len() <= usize::MAX,
        0 <= i < run_first(p, contracts, entries, merge, level, is_verify, k).len(),
    ensures
        run_first(p, contracts, entries, merge, level, is_verify, k)[i].subject() < k,
        report_for(
            p,
            contracts,
            entries,
            merge,
            level,
            is_verify,
            run_first(p, contracts, entries, merge, level, is_verify, k)[i].subject() as int,
        ) == Some(run_first(p, contracts, entries, merge, level, is_verify, k)[i]),
    decreases k,
{
    if k > 0 {
        let rest = run_first(p, contracts, entries, merge, level, is_verify, (k - 1) as nat);
        if i < rest.len() {
            lemma_run_first(p, contracts, entries, merge, level, is_verify, (k - 1) as nat, i);
        }
    }
}

/// A run reports of a function exactly what `report_for` says of it.
pub proof fn lemma_run_holds(
    p: Seq<Function>,
    contracts: Seq<SafetyContract>,
    entries: Seq<ApiEntry>,
    merge: bool,
    level: CheckLevel,
    is_verify: bool,
    k: nat,
    r: Reported,
)
    requires
        k <= p.len() <= usize::MAX,
    ensures
        run_first(p, contracts, entries, merge, level, is_verify, k).contains(r) <==> exists|
            f: int,
        |
            0 <= f < k && #[trigger] report_for(p, contracts, entries, merge, level, is_verify, f)
                == Some(r),
    decreases k,
{
    let all = run_first(p, contracts, entries, merge, level, is_verify, k);
    if all.contains(r) {
        let i = choose|i: int| 0 <= i < all.len() && all[i] == r;
        lemma_run_first(p, contracts, entries, merge, level, is_verify, k, i);
        let f = r.subject() as int;
        assert(report_for(p, contracts, entries, merge, level, is_verify, f) == Some(r));
    }
    if k > 0 {
        let rest = run_first(p, contracts, entries, merge, level, is_verify, (k - 1) as nat);
        lemma_run_holds(p, contracts, entries, merge, level, is_verify, (k - 1) as nat, r);
        if exists|f: int|
            0 <= f < k && #[trigger] report_for(p, contracts, entries, merge, level, is_verify, f)
                == Some(r) {
            let f = choose|f: int|
                0 <= f < k && #[trigger] report_for(
                    p,
                    contracts,
                    entries,
                    merge,
                    level,
                    is_verify,
                    f,
                ) == Some(r);
            if f < k - 1 {
                assert(rest.contains(r));
                let i = choose|i: int| 0 <= i < rest.len() && rest[i] == r;
                assert(all[i] == r);
            } else {
                assert(all[all.len() - 1] == r);
            }
        }
    }
}

/// A function none of whose calls may invoke a guarded API is not reported,
/// at any level and in either mode.
pub proof fn law_no_guarded_call_no_report(
    p: Seq<Function>,
    contracts: Seq<SafetyContract>,
    entries: Seq<ApiEntry>,
    merge: bool,
    level: CheckLevel,
    is_verify: bool,
    f: int,
)
    requires
        p.len() <= usize::MAX,
        !reaches_guarded(p, all_targets(p), f),
    ensures
        report_for(p, contracts, entries, merge, level, is_verify, f).is_none(),
        forall|i: int|
            0 <= i < run_first(p, contracts, entries, merge, level, is_verify, p.len()).len()
                ==> (#[trigger] run_first(
                p,
                contracts,
                entries,
                merge,
                level,
                is_verify,
                p.len(),
            )[i]).subject() != f,
{
    let all = run_first(p, contracts, entries, merge, level, is_verify, p.len());
    assert forall|i: int| 0 <= i < all.len() implies (#[trigger] all[i]).subject() != f by {
        lemma_run_first(p, contracts, entries, merge, level, is_verify, p.len(), i);
    }
}

/// At the strictest level every reported function is visible from outside.
pub proof fn law_high_reports_public(
    p: Seq<Function>,
    contracts: Seq<SafetyContract>,
    entries: Seq<ApiEntry>,
    merge: bool,
    is_verify: bool,
    i: int,
)
    requires
        p.len() <= usize::MAX,
        0 <= i < run_first(
            p,
            contracts,
            entries,
            merge,
            CheckLevel::High,
            is_verify,
            p.len(),
        ).len(),
    ensures
        p[run_first(
            p,
            contracts,
            entries,
            merge,
            CheckLevel::High,
            is_verify,
            p.len(),
        )[i].subject() as int].public,
{
    lemma_run_first(p, contracts, entries, merge, CheckLevel::High, is_verify, p.len(), i);
}

/// The reports of a run that takes the functions in the order `order`.
pub open spec fn run_over(
    p: Seq<Function>,
    contracts: Seq<SafetyContract>,
    entries: Seq<ApiEntry>,
    merge: bool,
    level: CheckLevel,
    is_verify: bool,
    order: Seq<usize>,
    k: nat,
) -> Seq<Reported>
    decreases k,
{
    if k == 0 {
        Seq::empty()
    } else {
        let rest = run_over(p, contracts, entries, merge, level, is_verify, order, (k - 1) as nat);
        match report_for(p, contracts, entries, merge, level, is_verify, order[k - 1] as int) {
            Some(report) => rest.push(report),
            None => rest,
        }
    }
}

proof fn lemma_run_over(
    p: Seq<Function>,
    contracts: Seq<SafetyContract>,
    entries: Seq<ApiEntry>,
    merge: bool,
    level: CheckLevel,
    is_verify: bool,
    order: Seq<usize>,
    k: nat,
    r: Reported,
)
    requires
        k <= order.len(),
    ensures
        run_over(p, contracts, entries, merge, level, is_verify, order, k).contains(r) <==> exists|
            i: int,
        |
            0 <= i < k && report_for(
                p,
                contracts,
                entries,
                merge,
                level,
                is_verify,
                #[trigger] order[i] as int,
            ) == Some(r),
    decreases k,
{
    if k > 0 {
        let rest = run_over(p, contracts, entries, merge, level, is_verify, order, (k - 1) as nat);
        let all = run_over(p, contracts, entries, merge, level, is_verify, order, k);
        lemma_run_over(p, contracts, entries, merge, level, is_verify, order, (k - 1) as nat, r);
        if all.contains(r) {
            let j = choose|j: int| 0 <= j < all.len() && all[j] == r;
            if j < rest.len() {
                assert(rest[j] == r);
                assert(rest.contains(r));
                let i = choose|i: int|
                    0 <= i < k - 1 && report_for(
                        p,
                        contracts,
                        entries,
                        merge,
                        level,
                        is_verify,
                        #[trigger] order[i] as int,
                    ) == Some(r);
                assert(0 <= i < k);
            } else {
                assert(report_for(
                    p,
                    contracts,
                    entries,
                    merge,
                    level,
                    is_verify,
                    order[k - 1] as int,
                ) == Some(r));
            }
        }
        if exists|i: int|
            0 <= i < k && report_for(
                p,
                contracts,
                entries,
                merge,
                level,
                is_verify,
                #[trigger] order[i] as int,
            ) == Some(r) {
            let i = choose|i: int|
                0 <= i < k && report_for(
                    p,
                    contracts,
                    entries,
                    merge,
                    level,
                    is_verify,
                    #[trigger] order[i] as int,
                ) == Some(r);
            if i < k - 1 {
                assert(rest.contains(r));
                let j = choose|j: int| 0 <= j < rest.len() && rest[j] == r;
                assert(all[j] == r);
            } else {
                assert(all[all.len() - 1] == r);
            }
        }
    }
}

/// The order in which a run takes the functions does not matter: a run that
/// takes every function of the program at least once, in whatever order,
/// reports what the run in table order reports.
pub proof fn law_order_is_immaterial(
    p: Seq<Function>,
    contracts: Seq<SafetyContract>,
    entries: Seq<ApiEntry>,
    merge: bool,
    level: CheckLevel,
    is_verify: bool,
    order: Seq<usize>,
    r: Reported,
)
    requires
        p.len() <= usize::MAX,
        forall|i: int| 0 <= i < order.len() ==> (#[trigger] order[i]) < p.len(),
        forall|f: int| 0 <= f < p.len() ==> #[trigger] listed(order, f),
    ensures
        run_over(p, contracts, entries, merge, level, is_verify, order, order.len()).contains(r)
            <==> run_first(p, contracts, entries, merge, level, is_verify, p.len()).contains(r),
{
    lemma_run_over(p, contracts, entries, merge, level, is_verify, order, order.len(), r);
    lemma_run_holds(p, contracts, entries, merge, level, is_verify, p.len(), r);
    if run_first(p, contracts, entries, merge, level, is_verify, p.len()).contains(r) {
        let f = choose|f: int|
            0 <= f < p.len() && #[trigger] report_for(
                p,
                contracts,
                entries,
                merge,
                level,
                is_verify,
                f,
            ) == Some(r);
        assert(listed(order, f));
        let i = choose|i: int| 0 <= i < order.len() && #[trigger] order[i] == f;
        assert(report_for(p, contracts, entries, merge, level, is_verify, order[i] as int) == Some(
            r,
        ));
    }
    if run_over(p, contracts, entries, merge, level, is_verify, order, order.len()).contains(r) {
        let i = choose|i: int|
            0 <= i < order.len() && report_for(
                p,
                contracts,
                entries,
                merge,
                level,
                is_verify,
                #[trigger] order[i] as int,
            ) == Some(r);
        let f = order[i] as int;
        assert(report_for(p, contracts, entries, merge, level, is_verify, f) == Some(r));
    }
}

/// The cache changes nothing but the time a run takes: whatever a cache in
/// good order has recorded of a function is what analysing the function anew
/// gives.
pub proof fn law_cache_is_transparent(
    p: Seq<Function>,
    merge: bool,
    slots: Seq<Slot>,
    g: int,
)
    requires
        records_valid(slots, p, all_targets(p), merge),
        0 <= g < slots.len(),
        slots[g] is Settled,
    ensures
        slots[g]->Settled_0.returned == contribution(p, all_targets(p), merge, g),
{
}

/// The bound on the nesting of the search that orders the walk is immaterial:
/// every bound from the number of blocks on gives the same order.
pub proof fn law_walk_order_unbounded(blocks: Seq<Block>, depth: nat)
    requires
        depth >= blocks.len(),
    ensures
        visit(blocks, 0, unsearched(blocks.len()), depth).left == postorder(blocks),
{
    let first = unsearched(blocks.len());
    crate::graph::lemma_count_false_all(first.entered);
    lemma_depth_suffices(blocks, 0, first, depth, blocks.len());
}

/// Every entry of the list of failed arguments names an argument of the call
/// and the contracts which that argument fails.
pub proof fn lemma_failed_args(
    contracts: Seq<SafetyContract>,
    requirements: Seq<Requirement>,
    args: Seq<usize>,
    k: nat,
    state: Seq<FactSet>,
    i: int,
)
    requires
        k <= args.len() <= usize::MAX,
        0 <= i < failed_args(contracts, requirements, args, k, state).len(),
    ensures
        failed_args(contracts, requirements, args, k, state)[i].0 < k,
        failed_args(contracts, requirements, args, k, state)[i].1 == failed_names(
            contracts,
            requirements,
            requirements.len(),
            failed_args(contracts, requirements, args, k, state)[i].0 as int,
            state[args[failed_args(contracts, requirements, args, k, state)[i].0 as int] as int],
        ),
        failed_args(contracts, requirements, args, k, state)[i].1.len() > 0,
    decreases k,
{
    if k > 0 {
        let rest = failed_args(contracts, requirements, args, (k - 1) as nat, state);
        if i < rest.len() {
            lemma_failed_args(contracts, requirements, args, (k - 1) as nat, state, i);
        }
    }
}

/// A contract whose matcher holds of the state of an argument is not among
/// the failed contracts of that argument.
pub proof fn law_matcher_soundness(
    p: Seq<Function>,
    contracts: Seq<SafetyContract>,
    entries: Seq<ApiEntry>,
    t: int,
    args: Seq<usize>,
    state: Seq<FactSet>,
    c: int,
    i: int,
)
    requires
        catalog_valid(contracts, entries),
        args.len() <= usize::MAX,
        0 <= c < contracts.len(),
        0 <= i < check_call(p, contracts, entries, t, args, state).failed.len(),
        contracts[c].matcher.holds(
            state[args[check_call(p, contracts, entries, t, args, state).failed[i].0 as int]
                as int],
        ),
    ensures
        !check_call(p, contracts, entries, t, args, state).failed[i].1.contains(contracts[c].name@),
{
    let requirements = requirements_of(entries, t);
    assert(requirements_valid(requirements, contracts.len())) by {
        if exists|e: int| crate::catalog::lists(entries, e, t) {
            let e = choose|e: int| crate::catalog::lists(entries, e, t);
            assert(requirements_valid(entries[e].requirements@, contracts.len()));
        }
    }
    lemma_failed_args(contracts, requirements, args, args.len(), state, i);
    let a = failed_args(contracts, requirements, args, args.len(), state)[i].0 as int;
    lemma_met_not_failed(contracts, requirements, requirements.len(), a, state[args[a] as int], c);
}

/// Obligations are inherited through functions that declare none: where `a`
/// calls `b`, `b` declares no contract and calls `c`, and `c` declares the
/// contract `x`, the annotations of `a` include the name of `x`.
pub proof fn law_annotations_propagate(
    p: Seq<Function>,
    contracts: Seq<SafetyContract>,
    entries: Seq<ApiEntry>,
    a: int,
    b: int,
    c: int,
    x: int,
)
    requires
        calls_direct(p, a, b),
        !declares_any(entries, b),
        calls_direct(p, b, c),
        declares(entries, c, x),
        0 <= x < contracts.len(),
    ensures
        exercises(p, entries, a, x),
        annotation_names(p, contracts, entries, a).contains(contracts[x].name@),
{
    let rel = expand_rel(p, entries);
    assert(expands(p, entries, a, b));
    assert(reach_in(rel, a, a, 0));
    assert(step(rel, a, b));
    assert(reach_in(rel, a, b, 1));
    assert(reaches(rel, a, b));
    let block = choose|block: int| calls_at(p, b, block, c);
    assert(exercises_at(p, entries, b, block, x));
    assert(exercises_directly(p, entries, b, x));
    let picked = exercised(p, entries, a, contracts.len());
    assert(picked[x]);
    lemma_picked_names(contracts, picked, contracts.len(), contracts[x].name@);
}

/// Where none is picked, no name is listed.
proof fn lemma_none_picked(contracts: Seq<SafetyContract>, picked: Seq<bool>, k: nat)
    requires
        forall|c: int| 0 <= c < k ==> !picked[c],
    ensures
        picked_names(contracts, picked, k).len() == 0,
    decreases k,
{
    if k > 0 {
        lemma_none_picked(contracts, picked, (k - 1) as nat);
    }
}

/// The annotations of a function are bounded by the catalog, and there are
/// none where no API in reach declares a contract, however the functions in
/// reach call each other.
pub proof fn law_annotations_bounded(
    p: Seq<Function>,
    contracts: Seq<SafetyContract>,
    entries: Seq<ApiEntry>,
    f: int,
)
    ensures
        annotation_names(p, contracts, entries, f).len() <= contracts.len(),
        (forall|h: int, t: int|
            reaches(expand_rel(p, entries), f, h) && #[trigger] calls_direct(p, h, t)
                ==> !declares_any(entries, t)) ==> annotation_names(p, contracts, entries, f).len()
            == 0,
{
    let picked = exercised(p, entries, f, contracts.len());
    lemma_names_bounded(contracts, picked, contracts.len());
    if forall|h: int, t: int|
        reaches(expand_rel(p, entries), f, h) && #[trigger] calls_direct(p, h, t) ==> !declares_any(
            entries,
            t,
        ) {
        assert forall|c: int| 0 <= c < contracts.len() implies !picked[c] by {
            if exercises(p, entries, f, c) {
                let h = choose|h: int|
                    reaches(expand_rel(p, entries), f, h) && #[trigger] exercises_directly(
                        p,
                        entries,
                        h,
                        c,
                    );
                let b = choose|b: int| exercises_at(p, entries, h, b, c);
                let t = crate::annotation::callee_at(p, h, b).unwrap() as int;
                assert(calls_at(p, h, b, t));
                assert(calls_direct(p, h, t));
                assert(declares_any(entries, t));
            }
        }
        lemma_none_picked(contracts, picked, contracts.len());
    }
}

proof fn lemma_names_bounded(contracts: Seq<SafetyContract>, picked: Seq<bool>, k: nat)
    ensures
        picked_names(contracts, picked, k).len() <= k,
    decreases k,
{
    if k > 0 {
        lemma_names_bounded(contracts, picked, (k - 1) as nat);
    }
}

/// The targets of a call are the functions of the program that the call may
/// invoke.
pub proof fn law_targets_are_what_is_resolved(p: Seq<Function>, f: int, b: int, g: int)
    requires
        p.len() <= usize::MAX,
    ensures
        listed(targets_of(p, f, b), g) <==> 0 <= g < p.len() && resolved(p, f, b, g),
{
    let marks = Seq::new(p.len(), |x: int| resolved(p, f, b, x));
    lemma_indices_where(marks, p.len(), g);
}

/// A call that names its callee has that callee as its only target.
pub proof fn law_named_callee_is_the_target(p: Seq<Function>, f: int, b: int)
    requires
        p.len() <= usize::MAX,
        0 <= f < p.len(),
        p[f].body.is_some(),
        0 <= b < p[f].body.unwrap().blocks@.len(),
        p[f].body.unwrap().blocks@[b].terminator matches Terminator::Call { callee, .. }
            && callee is Direct && callee->Direct_0 < p.len(),
    ensures
        targets_of(p, f, b) == seq![
            p[f].body.unwrap().blocks@[b].terminator->Call_callee->Direct_0,
        ],
{
    let t = p[f].body.unwrap().blocks@[b].terminator->Call_callee->Direct_0;
    let marks = Seq::new(p.len(), |x: int| resolved(p, f, b, x));
    lemma_indices_single(marks, p.len(), t as int);
}

/// A block that does not end in a call has no target.
pub proof fn law_only_calls_have_targets(p: Seq<Function>, f: int, b: int)
    requires
        0 <= f < p.len(),
        p[f].body.is_some(),
        0 <= b < p[f].body.unwrap().blocks@.len(),
        !(p[f].body.unwrap().blocks@[b].terminator is Call),
    ensures
        targets_of(p, f, b).len() == 0,
{
    let marks = Seq::new(p.len(), |x: int| resolved(p, f, b, x));
    lemma_indices_none(marks, p.len());
}

/// Where two paths meet, a fact is known of a local exactly if it is known
/// on both paths.
pub proof fn law_join_is_intersection(a: Known, b: Known, v: int)
    requires
        0 <= v < a.facts.len(),
    ensures
        meet_states(a, b).facts[v]@ == a.facts[v]@.intersect(b.facts[v]@),
{
    a.facts[v].lemma_meet(b.facts[v]);
}

/// No function is both verified and linted: the two modes exclude each
/// other, and a run reports of a function only in its own mode.
pub proof fn law_modes_are_exclusive(
    p: Seq<Function>,
    contracts: Seq<SafetyContract>,
    entries: Seq<ApiEntry>,
    merge: bool,
    level: CheckLevel,
    is_verify: bool,
    f: int,
)
    ensures
        !(verifiable(p, all_targets(p), f) && lintable(p, all_targets(p), f)),
        report_for(p, contracts, entries, merge, level, is_verify, f) matches Some(r) ==> (
        is_verify ==> r is Soundness && verifiable(p, all_targets(p), f)) && (!is_verify
            ==> r is Annotation && lintable(p, all_targets(p), f)),
{
}

/// Every name among the failed contracts is the name of a contract that one
/// of the requirements names.
proof fn lemma_failed_are_named(
    contracts: Seq<SafetyContract>,
    requirements: Seq<Requirement>,
    k: nat,
    param: int,
    facts: FactSet,
    j: int,
)
    requires
        k <= requirements.len(),
        0 <= j < failed_names(contracts, requirements, k, param, facts).len(),
    ensures
        exists|i: int|
            0 <= i < k && contracts[(#[trigger] requirements[i]).contract as int].name@
                == failed_names(contracts, requirements, k, param, facts)[j],
    decreases k,
{
    if k > 0 {
        let rest = failed_names(contracts, requirements, (k - 1) as nat, param, facts);
        if j < rest.len() {
            lemma_failed_are_named(contracts, requirements, (k - 1) as nat, param, facts, j);
            let i = choose|i: int|
                0 <= i < k - 1 && contracts[(#[trigger] requirements[i]).contract as int].name@
                    == rest[j];
            assert(0 <= i < k);
        } else {
            assert(contracts[requirements[k - 1].contract as int].name@ == failed_names(
                contracts,
                requirements,
                k,
                param,
                facts,
            )[j]);
        }
    }
}

/// Every contract that a result names is a contract of the catalog.
pub proof fn law_failed_contracts_are_catalogued(
    p: Seq<Function>,
    contracts: Seq<SafetyContract>,
    entries: Seq<ApiEntry>,
    t: int,
    args: Seq<usize>,
    state: Seq<FactSet>,
    i: int,
    j: int,
)
    requires
        catalog_valid(contracts, entries),
        args.len() <= usize::MAX,
        0 <= i < check_call(p, contracts, entries, t, args, state).failed.len(),
        0 <= j < check_call(p, contracts, entries, t, args, state).failed[i].1.len(),
    ensures
        exists|c: int|
            0 <= c < contracts.len() && (#[trigger] contracts[c]).name@ == check_call(
                p,
                contracts,
                entries,
                t,
                args,
                state,
            ).failed[i].1[j],
{
    let requirements = requirements_of(entries, t);
    assert(requirements_valid(requirements, contracts.len())) by {
        if exists|e: int| crate::catalog::lists(entries, e, t) {
            let e = choose|e: int| crate::catalog::lists(entries, e, t);
            assert(requirements_valid(entries[e].requirements@, contracts.len()));
        }
    }
    lemma_failed_args(contracts, requirements, args, args.len(), state, i);
    let a = failed_args(contracts, requirements, args, args.len(), state)[i].0 as int;
    lemma_failed_are_named(
        contracts,
        requirements,
        requirements.len(),
        a,
        state[args[a] as int],
        j,
    );
    let r = choose|r: int|
        0 <= r < requirements.len() && contracts[(#[trigger] requirements[r]).contract as int].name@
            == failed_names(
            contracts,
            requirements,
            requirements.len(),
            a,
            state[args[a] as int],
        )[j];
    let c = requirements[r].contract as int;
    assert(contracts[c].name@ == check_call(p, contracts, entries, t, args, state).failed[i].1[j]);
}

} // verus!
