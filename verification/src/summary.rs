//! What a call contributes to its caller.
//!
//! A program-defined callee contributes the facts that hold of its return
//! value at every return of its own walk. A guarded API, a function without a
//! body and a function that depends on itself contribute no fact.

use crate::facts::FactSet;
use crate::graph::{
    lemma_plus_from_last, lemma_plus_last, lemma_reach_in_join, lemma_reaches_self,
    lemma_reaches_step, listed, reach_in, reaches, reaches_plus, step,
};
use crate::inter_record::{
    busy, idle, keeps, lemma_keeps_trans, same_busy, settled, InterAnalysisRecord, Lookup,
    Recorder, Slot,
};
use crate::order::{reverse_postorder, walk_order};
use crate::program::{all_below, FnKind, Function, Program};
use crate::resolver::{
    all_targets, calls, depends, depends_rel, is_constructor, lemma_indices_where, recursive,
    resolution, resolved, FnMap,
};
use crate::walk::{blank, blank_state, fits, walked, well_shaped, Known, Walk, Walker};
use vstd::prelude::*;
use vstd::set_lib::{lemma_int_range, lemma_len_subset, set_int_range};

verus! {

/// The functions on which `g` depends, directly or through others.
pub open spec fn descendants(p: Seq<Function>, targets: Seq<Seq<Seq<usize>>>, g: int) -> Set<int> {
    Set::new(|h: int| 0 <= h < p.len() && reaches_plus(depends_rel(p, targets), g, h))
}

/// The number of functions on which `g` depends.
pub open spec fn rank(p: Seq<Function>, targets: Seq<Seq<Seq<usize>>>, g: int) -> nat {
    descendants(p, targets, g).len()
}

/// A function that does not depend on itself has fewer dependencies than a
/// function that depends on it.
pub proof fn lemma_rank_decreases(p: Seq<Function>, targets: Seq<Seq<Seq<usize>>>, g: int, t: int)
    requires
        depends(p, targets, g, t),
        0 <= t < p.len(),
        !recursive(p, targets, t),
    ensures
        rank(p, targets, t) < rank(p, targets, g),
{
    let rel = depends_rel(p, targets);
    let dg = descendants(p, targets, g);
    let dt = descendants(p, targets, t);
    let all = set_int_range(0, p.len() as int);
    lemma_int_range(0, p.len() as int);
    assert(dg.subset_of(all));
    lemma_len_subset(dg, all);
    assert(step(rel, g, t));
    lemma_reaches_self(rel, t);
    assert(dg.contains(t));
    assert(!dt.contains(t));
    assert forall|h: int| dt.contains(h) implies dg.remove(t).contains(h) by {
        let m = choose|m: int| #[trigger] step(rel, t, m) && reaches(rel, m, h);
        let k = choose|k: nat| reach_in(rel, m, h, k);
        assert(reach_in(rel, t, t, 0));
        assert(reach_in(rel, t, m, 1));
        lemma_reach_in_join(rel, t, m, h, 1, k);
        assert(reaches(rel, t, h));
    }
    assert(dt.subset_of(dg.remove(t)));
    lemma_len_subset(dt, dg.remove(t));
}

/// What is known of the value that a call from `g` to `t` returns.
pub open spec fn callee_facts(
    p: Seq<Function>,
    targets: Seq<Seq<Seq<usize>>>,
    merge: bool,
    g: int,
    t: int,
) -> FactSet
    decreases rank(p, targets, g), 0nat, 0nat,
{
    if 0 <= t < p.len() && depends(p, targets, g, t) && !p[t].guarded_api && !recursive(
        p,
        targets,
        t,
    ) {
        proof {
            lemma_rank_decreases(p, targets, g, t);
        }
        summary(p, targets, merge, t)
    } else {
        FactSet::none()
    }
}

/// The facts that every one of the first `k` functions of `list`, called from
/// `g`, establishes of its return value. `k` is at least one.
pub open spec fn common_facts(
    p: Seq<Function>,
    targets: Seq<Seq<Seq<usize>>>,
    merge: bool,
    g: int,
    list: Seq<usize>,
    k: nat,
) -> FactSet
    decreases rank(p, targets, g), 1nat, k,
{
    if k <= 1 {
        callee_facts(p, targets, merge, g, list[0] as int)
    } else {
        common_facts(p, targets, merge, g, list, (k - 1) as nat).meet(
            callee_facts(p, targets, merge, g, list[k - 1] as int),
        )
    }
}

/// What is known of the value that the call ending block `b` of `g` returns:
/// what all of its targets establish, and nothing where it has no target.
pub open spec fn landing_at(
    p: Seq<Function>,
    targets: Seq<Seq<Seq<usize>>>,
    merge: bool,
    g: int,
    b: int,
) -> FactSet
    decreases rank(p, targets, g), 1nat, targets[g][b].len() + 1,
{
    if targets[g][b].len() == 0 {
        FactSet::none()
    } else {
        common_facts(p, targets, merge, g, targets[g][b], targets[g][b].len())
    }
}

/// `landing_at` for the first `k` blocks of `g`.
pub open spec fn landings(
    p: Seq<Function>,
    targets: Seq<Seq<Seq<usize>>>,
    merge: bool,
    g: int,
    k: nat,
) -> Seq<FactSet>
    decreases rank(p, targets, g), 2nat, k,
{
    if k == 0 {
        Seq::empty()
    } else {
        landings(p, targets, merge, g, (k - 1) as nat).push(
            landing_at(p, targets, merge, g, k - 1),
        )
    }
}

/// What the constructors establish of the value on which method `g` is
/// called. One constructor speaks for itself. Of several, what all of them
/// establish counts where `merge` is set, and nothing counts where it is not.
pub open spec fn receiver_facts(
    p: Seq<Function>,
    targets: Seq<Seq<Seq<usize>>>,
    merge: bool,
    g: int,
) -> FactSet
    decreases rank(p, targets, g), 2nat, 0nat,
{
    match p[g].kind {
        FnKind::Plain => FactSet::none(),
        FnKind::Method { constructors } => {
            if constructors@.len() == 0 || (constructors@.len() > 1 && !merge) {
                FactSet::none()
            } else {
                common_facts(p, targets, merge, g, constructors@, constructors@.len())
            }
        },
    }
}

/// The facts that hold of the return value of `t` at every return of its walk.
pub open spec fn summary(
    p: Seq<Function>,
    targets: Seq<Seq<Seq<usize>>>,
    merge: bool,
    t: int,
) -> FactSet
    decreases rank(p, targets, t), 3nat, 0nat,
{
    match p[t].body {
        None => FactSet::none(),
        Some(body) => {
            let walk = walked(
                body.blocks@,
                landings(p, targets, merge, t, body.blocks@.len()),
                walk_order(body.blocks@),
                seeded(body.locals as nat, receiver_facts(p, targets, merge, t)),
            );
            match walk.returned {
                Some(facts) => facts,
                None => FactSet::none(),
            }
        },
    }
}

/// The state at the entry of a function: nothing is known of any local but
/// the receiver, which is local 1.
pub open spec fn seeded(locals: nat, receiver: FactSet) -> Known {
    if locals > 1 {
        Known { facts: blank(locals).facts.update(1, receiver), origin: blank(locals).origin }
    } else {
        blank(locals)
    }
}

/// The walk of function `f`, which has a body.
pub open spec fn function_walk(
    p: Seq<Function>,
    targets: Seq<Seq<Seq<usize>>>,
    merge: bool,
    f: int,
) -> Walk {
    let body = p[f].body.unwrap();
    walked(
        body.blocks@,
        landings(p, targets, merge, f, body.blocks@.len()),
        walk_order(body.blocks@),
        seeded(body.locals as nat, receiver_facts(p, targets, merge, f)),
    )
}

/// What a call to `t` contributes to any caller.
pub open spec fn contribution(
    p: Seq<Function>,
    targets: Seq<Seq<Seq<usize>>>,
    merge: bool,
    t: int,
) -> FactSet {
    if 0 <= t < p.len() && !p[t].guarded_api && !recursive(p, targets, t) {
        summary(p, targets, merge, t)
    } else {
        FactSet::none()
    }
}

/// Every record of the cache is what its function contributes.
pub open spec fn records_valid(
    slots: Seq<Slot>,
    p: Seq<Function>,
    targets: Seq<Seq<Seq<usize>>>,
    merge: bool,
) -> bool {
    forall|g: int|
        0 <= g < slots.len() ==> ((#[trigger] slots[g]) matches Slot::Settled(record)
            ==> record.returned == contribution(p, targets, merge, g))
}

/// Every function that is being analysed depends on `f`, or is `f`.
pub open spec fn busy_above(
    slots: Seq<Slot>,
    p: Seq<Function>,
    targets: Seq<Seq<Seq<usize>>>,
    f: int,
) -> bool {
    forall|g: int| #[trigger] busy(slots, g) ==> reaches(depends_rel(p, targets), g, f)
}

/// What the call from `g` to `t` contributes.
fn callee_facts_of(
    program: &Program,
    map: &FnMap,
    merge: bool,
    recorder: &mut Recorder,
    g: usize,
    t: usize,
) -> (r: FactSet)
    requires
        map@ == resolution(program@),
        g < program@.len(),
        t < program@.len(),
        depends(program@, all_targets(program@), g as int, t as int),
        old(recorder)@.len() == program@.len(),
        records_valid(old(recorder)@, program@, all_targets(program@), merge),
        busy_above(old(recorder)@, program@, all_targets(program@), g as int),
    ensures
        r == callee_facts(program@, all_targets(program@), merge, g as int, t as int),
        records_valid(final(recorder)@, program@, all_targets(program@), merge),
        same_busy(old(recorder)@, final(recorder)@),
        keeps(old(recorder)@, final(recorder)@),
    decreases rank(program@, all_targets(program@), g as int), 1nat,
{
    let ghost p = program@;
    let ghost targets = all_targets(p);
    let ghost rel = depends_rel(p, targets);
    let function = program.function(t);
    if function.guarded_api || map.is_recursive(t) {
        return FactSet::empty();
    }
    proof {
        lemma_rank_decreases(p, targets, g as int, t as int);
        assert forall|h: int| #[trigger] busy(recorder@, h) implies reaches_plus(
            rel,
            h,
            t as int,
        ) by {
            lemma_plus_from_last(rel, h, g as int, t as int);
        }
    }
    summarize(program, map, merge, recorder, t)
}

/// The summary of `t`, from the cache where it is there.
fn summarize(program: &Program, map: &FnMap, merge: bool, recorder: &mut Recorder, t: usize) -> (r:
    FactSet)
    requires
        map@ == resolution(program@),
        t < program@.len(),
        !program@[t as int].guarded_api,
        !recursive(program@, all_targets(program@), t as int),
        old(recorder)@.len() == program@.len(),
        records_valid(old(recorder)@, program@, all_targets(program@), merge),
        forall|h: int| #[trigger]
            busy(old(recorder)@, h) ==> reaches_plus(
                depends_rel(program@, all_targets(program@)),
                h,
                t as int,
            ),
    ensures
        r == summary(program@, all_targets(program@), merge, t as int),
        records_valid(final(recorder)@, program@, all_targets(program@), merge),
        same_busy(old(recorder)@, final(recorder)@),
        keeps(old(recorder)@, final(recorder)@),
        settled(final(recorder)@, t as int),
    decreases rank(program@, all_targets(program@), t as int), 4nat,
{
    let ghost p = program@;
    let ghost targets = all_targets(p);
    let ghost rel = depends_rel(p, targets);
    let ghost before = recorder@;
    match recorder.begin(t) {
        Lookup::Hit(record) => {
            assert(before[t as int] is Settled);
            record.returned
        },
        Lookup::Busy => {
            // The request comes from inside the analysis of `t` itself: `t`
            // would depend on itself.
            assert(busy(before, t as int));
            assert(reaches_plus(rel, t as int, t as int));
            FactSet::empty()
        },
        Lookup::Miss => {
            let ghost marked = recorder@;
            proof {
                assert forall|h: int| #[trigger] busy(marked, h) implies reaches(
                    rel,
                    h,
                    t as int,
                ) by {
                    if h == t {
                        lemma_reaches_self(rel, t as int);
                    } else {
                        assert(busy(before, h));
                        lemma_plus_last(rel, h, t as int);
                        let m = choose|m: int|
                            reaches(rel, h, m) && #[trigger] step(rel, m, t as int);
                        lemma_reaches_step(rel, h, m, t as int);
                    }
                }
                assert forall|h: int| 0 <= h < marked.len() implies ((
                #[trigger] marked[h]) matches Slot::Settled(record) ==> record.returned
                    == contribution(p, targets, merge, h)) by {
                    if h != t {
                        assert(marked[h] == before[h]);
                    }
                }
            }
            let walker = walk_function(program, map, merge, recorder, t);
            let facts = match walker {
                Some(w) => match w.returned() {
                    Some(facts) => facts,
                    None => FactSet::empty(),
                },
                None => FactSet::empty(),
            };
            let ghost walked_slots = recorder@;
            recorder.settle(t, InterAnalysisRecord { returned: facts });
            proof {
                assert forall|h: int| #[trigger] settled(before, h) implies recorder@[h]
                    == before[h] by {
                    assert(h != t);
                    assert(marked[h] == before[h]);
                    assert(settled(marked, h));
                    assert(walked_slots[h] == marked[h]);
                }
                assert(facts == summary(p, targets, merge, t as int));
                assert forall|h: int| 0 <= h < recorder@.len() implies ((
                #[trigger] recorder@[h]) matches Slot::Settled(record) ==> record.returned
                    == contribution(p, targets, merge, h)) by {
                    if h != t {
                        assert(recorder@[h] == walked_slots[h]);
                    }
                }
                assert forall|h: int| #[trigger] busy(before, h) == busy(recorder@, h) by {
                    if 0 <= h < before.len() {
                        if h != t {
                            assert(recorder@[h] == walked_slots[h]);
                            assert(marked[h] == before[h]);
                            assert(busy(marked, h) == busy(walked_slots, h));
                        } else {
                            assert(before[h] is Absent);
                        }
                    }
                }
            }
            facts
        },
    }
}

/// What all functions of `list`, called from `g`, establish of their return
/// values.
fn common_facts_of(
    program: &Program,
    map: &FnMap,
    merge: bool,
    recorder: &mut Recorder,
    g: usize,
    list: &Vec<usize>,
) -> (r: FactSet)
    requires
        map@ == resolution(program@),
        g < program@.len(),
        list@.len() >= 1,
        forall|i: int|
            0 <= i < list@.len() ==> (#[trigger] list@[i]) < program@.len() && depends(
                program@,
                all_targets(program@),
                g as int,
                list@[i] as int,
            ),
        old(recorder)@.len() == program@.len(),
        records_valid(old(recorder)@, program@, all_targets(program@), merge),
        busy_above(old(recorder)@, program@, all_targets(program@), g as int),
    ensures
        r == common_facts(program@, all_targets(program@), merge, g as int, list@, list@.len()),
        records_valid(final(recorder)@, program@, all_targets(program@), merge),
        same_busy(old(recorder)@, final(recorder)@),
        keeps(old(recorder)@, final(recorder)@),
    decreases rank(program@, all_targets(program@), g as int), 2nat,
{
    let ghost p = program@;
    let ghost targets = all_targets(p);
    let ghost before = recorder@;
    let mut all = callee_facts_of(program, map, merge, recorder, g, list[0]);
    proof {
        lemma_busy_kept(before, recorder@, p, targets, g as int);
    }
    let mut k: usize = 1;
    while k < list.len()
        invariant
            p == program@,
            targets == all_targets(p),
            map@ == resolution(p),
            g < p.len(),
            1 <= k <= list@.len(),
            forall|i: int|
                0 <= i < list@.len() ==> (#[trigger] list@[i]) < p.len() && depends(
                    p,
                    targets,
                    g as int,
                    list@[i] as int,
                ),
            recorder@.len() == p.len(),
            records_valid(recorder@, p, targets, merge),
            busy_above(recorder@, p, targets, g as int),
            same_busy(before, recorder@),
            keeps(before, recorder@),
            all == common_facts(p, targets, merge, g as int, list@, k as nat),
        decreases list@.len() - k,
    {
        let ghost mid = recorder@;
        let next = callee_facts_of(program, map, merge, recorder, g, list[k]);
        all = all.intersection(next);
        proof {
            lemma_busy_kept(mid, recorder@, p, targets, g as int);
            lemma_keeps_trans(before, mid, recorder@);
        }
        k += 1;
    }
    all
}

/// While the same functions are being analysed, they stay above `f`.
proof fn lemma_busy_kept(
    a: Seq<Slot>,
    b: Seq<Slot>,
    p: Seq<Function>,
    targets: Seq<Seq<Seq<usize>>>,
    f: int,
)
    requires
        same_busy(a, b),
        busy_above(a, p, targets, f),
    ensures
        busy_above(b, p, targets, f),
{
    assert forall|g: int| #[trigger] busy(b, g) implies reaches(depends_rel(p, targets), g, f) by {
        assert(busy(a, g));
    }
}

/// Walks the body of `f`; `None` where it has none.
fn walk_function(
    program: &Program,
    map: &FnMap,
    merge: bool,
    recorder: &mut Recorder,
    f: usize,
) -> (w: Option<Walker>)
    requires
        map@ == resolution(program@),
        f < program@.len(),
        old(recorder)@.len() == program@.len(),
        records_valid(old(recorder)@, program@, all_targets(program@), merge),
        busy_above(old(recorder)@, program@, all_targets(program@), f as int),
    ensures
        w.is_some() == program@[f as int].body.is_some(),
        w matches Some(walker) ==> walker@ == function_walk(
            program@,
            all_targets(program@),
            merge,
            f as int,
        ) && well_shaped(walker@,
            program@[f as int].body.unwrap().blocks@.len(),
            program@[f as int].body.unwrap().locals as nat,
        ),
        records_valid(final(recorder)@, program@, all_targets(program@), merge),
        same_busy(old(recorder)@, final(recorder)@),
        keeps(old(recorder)@, final(recorder)@),
    decreases rank(program@, all_targets(program@), f as int), 3nat,
{
    let ghost p = program@;
    let ghost targets = all_targets(p);
    let ghost before = recorder@;
    let n: usize = program.len();
    let function = program.function(f);
    match &function.body {
        None => None,
        Some(body) => {
            assert(p[f as int].valid(p.len()));
            let receiver = match &function.kind {
                FnKind::Plain => FactSet::empty(),
                FnKind::Method { constructors } => {
                    if constructors.len() == 0 || (constructors.len() > 1 && !merge) {
                        FactSet::empty()
                    } else {
                        proof {
                            assert forall|i: int| 0 <= i < constructors@.len() implies (
                            #[trigger] constructors@[i]) < p.len() && depends(
                                p,
                                targets,
                                f as int,
                                constructors@[i] as int,
                            ) by {
                                assert(all_below(constructors@, p.len()));
                                assert(listed(constructors@, constructors@[i] as int));
                                assert(is_constructor(p, f as int, constructors@[i] as int));
                            }
                        }
                        common_facts_of(program, map, merge, recorder, f, constructors)
                    }
                },
            };
            let mut seed = blank_state(body.locals);
            if body.locals > 1 {
                seed.facts.set(1, receiver);
            }
            let ghost seeded_slots = recorder@;
            proof {
                lemma_busy_kept(before, seeded_slots, p, targets, f as int);
            }
            let mut landing: Vec<FactSet> = Vec::new();
            let mut b: usize = 0;
            while b < body.blocks.len()
                invariant
                    p == program@,
                    targets == all_targets(p),
                    map@ == resolution(p),
                    n == p.len(),
                    f < p.len(),
                    p[f as int].body == Some(*body),
                    b <= body.blocks@.len(),
                    recorder@.len() == p.len(),
                    records_valid(recorder@, p, targets, merge),
                    busy_above(recorder@, p, targets, f as int),
                    same_busy(before, recorder@),
                    keeps(before, recorder@),
                    landing@ == landings(p, targets, merge, f as int, b as nat),
                    landing@.len() == b,
                decreases body.blocks@.len() - b,
            {
                let ghost mid = recorder@;
                let facts = match map.targets(f, b) {
                    None => FactSet::empty(),
                    Some(list) => {
                        if list.len() == 0 {
                            FactSet::empty()
                        } else {
                            proof {
                                assert(list@ == targets[f as int][b as int]);
                                assert forall|i: int| 0 <= i < list@.len() implies (
                                #[trigger] list@[i]) < p.len() && depends(
                                    p,
                                    targets,
                                    f as int,
                                    list@[i] as int,
                                ) by {
                                    lemma_indices_where(
                                        Seq::new(
                                            p.len(),
                                            |x: int| resolved(p, f as int, b as int, x),
                                        ),
                                        p.len(),
                                        list@[i] as int,
                                    );
                                    assert(listed(targets[f as int][b as int], list@[i] as int));
                                    assert(calls(targets, f as int, list@[i] as int));
                                }
                            }
                            common_facts_of(program, map, merge, recorder, f, list)
                        }
                    },
                };
                proof {
                    lemma_busy_kept(mid, recorder@, p, targets, f as int);
                    lemma_keeps_trans(before, mid, recorder@);
                    assert(targets[f as int].len() == body.blocks@.len());
                    assert(facts == landing_at(p, targets, merge, f as int, b as int));
                }
                landing.push(facts);
                b += 1;
            }
            let order = reverse_postorder(body, n);
            proof {
                let wanted = seeded(
                    body.locals as nat,
                    receiver_facts(p, targets, merge, f as int),
                );
                assert(seed@.facts =~= wanted.facts);
                assert(seed@.origin =~= wanted.origin);
                assert(fits(seed@, body.locals as nat));
            }
            let walker = Walker::run(body, n, &order, &landing, &seed);
            Some(walker)
        },
    }
}

/// What a call to `t` contributes to its caller. The answer comes from the
/// cache where the cache has it, and is stored there where it has not.
pub fn get_or_compute(
    program: &Program,
    map: &FnMap,
    merge: bool,
    recorder: &mut Recorder,
    t: usize,
) -> (r: InterAnalysisRecord)
    requires
        map@ == resolution(program@),
        old(recorder)@.len() == program@.len(),
        records_valid(old(recorder)@, program@, all_targets(program@), merge),
        idle(old(recorder)@),
    ensures
        r.returned == contribution(program@, all_targets(program@), merge, t as int),
        final(recorder)@.len() == program@.len(),
        records_valid(final(recorder)@, program@, all_targets(program@), merge),
        idle(final(recorder)@),
        keeps(old(recorder)@, final(recorder)@),
        t < program@.len() && !program@[t as int].guarded_api && !recursive(
            program@,
            all_targets(program@),
            t as int,
        ) ==> final(recorder)@[t as int] == Slot::Settled(r),
{
    if t >= program.len() {
        return InterAnalysisRecord { returned: FactSet::empty() };
    }
    let function = program.function(t);
    if function.guarded_api || map.is_recursive(t) {
        return InterAnalysisRecord { returned: FactSet::empty() };
    }
    let ghost before = recorder@;
    assert(forall|h: int| !#[trigger] busy(before, h));
    let facts = summarize(program, map, merge, recorder, t);
    assert forall|h: int| !#[trigger] busy(recorder@, h) by {
        assert(busy(before, h) == busy(recorder@, h));
    }
    InterAnalysisRecord { returned: facts }
}

/// Walks the body of `function`; `None` where it has none. What the calls
/// contribute is taken from the cache or stored in it.
pub(crate) fn path_forward(
    program: &Program,
    map: &FnMap,
    merge: bool,
    recorder: &mut Recorder,
    function: usize,
) -> (w: Option<Walker>)
    requires
        map@ == resolution(program@),
        old(recorder)@.len() == program@.len(),
        records_valid(old(recorder)@, program@, all_targets(program@), merge),
        idle(old(recorder)@),
    ensures
        w.is_some() == (function < program@.len() && program@[function as int].body.is_some()),
        w matches Some(walker) ==> walker@ == function_walk(
            program@,
            all_targets(program@),
            merge,
            function as int,
        ) && well_shaped(walker@,
            program@[function as int].body.unwrap().blocks@.len(),
            program@[function as int].body.unwrap().locals as nat,
        ),
        final(recorder)@.len() == program@.len(),
        records_valid(final(recorder)@, program@, all_targets(program@), merge),
        idle(final(recorder)@),
        keeps(old(recorder)@, final(recorder)@),
{
    if function >= program.len() {
        return None;
    }
    let ghost before = recorder@;
    assert(forall|h: int| !#[trigger] busy(before, h));
    let walker = walk_function(program, map, merge, recorder, function);
    assert forall|h: int| !#[trigger] busy(recorder@, h) by {
        assert(busy(before, h) == busy(recorder@, h));
    }
    walker
}

} // verus!
