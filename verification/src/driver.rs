//! The driver: which functions are looked at, in which mode, and what is
//! reported of them.

use crate::annotation::{annotation_names, collect, texts};
use crate::catalog::{ApiEntry, Catalog, SafetyContract};
use crate::graph::listed;
use crate::inter_record::{idle, Recorder, Slot};
use crate::order::{reverse_postorder, walk_order};
use crate::program::{well_formed, FnKind, Function, Program, Unsafety};
use crate::report::{
    annotation_lines, annotation_report, check_lines, check_report, lines_view, ReportLine,
};
use crate::resolver::{
    all_targets, calls, lemma_indices_where, resolution, resolve, resolved, FnMap,
};
use crate::summary::{function_walk, path_forward, records_valid};
use crate::visitor::{
    evaluate, findings_first, results_view, unresolved_first, CheckResult, Finding,
};
use vstd::prelude::*;

verus! {

/// How strict a run is about which functions it looks at.
#[derive(Clone, Copy, Debug, PartialEq, Eq)]
pub enum CheckLevel {
    /// Only functions that are visible from outside.
    High,
    /// All functions.
    Medium,
    /// All functions.
    Low,
}

/// How the facts of several constructors are brought together.
#[derive(Clone, Copy, Debug, PartialEq, Eq)]
pub enum FieldStateMerger {
    /// What every constructor establishes counts.
    Intersection,
}

/// What is reported of one function.
#[derive(Debug, PartialEq, Eq)]
pub enum Report {
    /// The guarded calls of a safe function that wraps unsafe code.
    Soundness { function: usize, results: Vec<CheckResult> },
    /// The contracts that an unsafe function exercises.
    Annotation { function: usize, missing: Vec<String> },
}

/// What a `Report` says.
pub enum Reported {
    Soundness { function: usize, results: Seq<Finding> },
    Annotation { function: usize, missing: Seq<Seq<char>> },
}

impl View for Report {
    type V = Reported;

    open spec fn view(&self) -> Reported {
        match *self {
            Report::Soundness { function, results } => Reported::Soundness {
                function,
                results: results_view(results@),
            },
            Report::Annotation { function, missing } => Reported::Annotation {
                function,
                missing: texts(missing@),
            },
        }
    }
}

impl Reported {
    /// The function that the report is about.
    pub open spec fn subject(self) -> usize {
        match self {
            Reported::Soundness { function, .. } => function,
            Reported::Annotation { function, .. } => function,
        }
    }
}

/// What a report says, where there is one.
pub open spec fn report_view(r: Option<Report>) -> Option<Reported> {
    match r {
        Some(report) => Some(report@),
        None => None,
    }
}

/// What a list of reports says.
pub open spec fn reports_view(v: Seq<Report>) -> Seq<Reported> {
    v.map_values(|r: Report| r@)
}

/// What the walk of one body found.
#[derive(Debug, PartialEq, Eq)]
pub struct BodyAnalysis {
    /// The outcome of each guarded call, in the order of the walk.
    pub check_results: Vec<CheckResult>,
    /// The blocks that end in a call of which no target is known. Nothing is
    /// said of such a call: no contract counts as met, none as failed.
    pub unresolved_calls: Vec<usize>,
}

/// Whether a run at `level` looks at function `f`.
pub open spec fn passes_level(p: Seq<Function>, level: CheckLevel, f: int) -> bool {
    match level {
        CheckLevel::High => 0 <= f < p.len() && p[f].public,
        _ => true,
    }
}

/// `t` is a guarded API that a call of `f` may invoke.
pub open spec fn guarded_target(
    p: Seq<Function>,
    targets: Seq<Seq<Seq<usize>>>,
    f: int,
    t: int,
) -> bool {
    calls(targets, f, t) && 0 <= t < p.len() && p[t].guarded_api
}

/// Some call of `f` may invoke a guarded API.
pub open spec fn reaches_guarded(p: Seq<Function>, targets: Seq<Seq<Seq<usize>>>, f: int) -> bool {
    exists|t: int| guarded_target(p, targets, f, t)
}

/// The outcomes of the guarded calls of `f`, in the order of the walk. A
/// function without a body has none.
pub open spec fn check_results(
    p: Seq<Function>,
    contracts: Seq<SafetyContract>,
    entries: Seq<ApiEntry>,
    merge: bool,
    f: int,
) -> Seq<Finding> {
    if 0 <= f < p.len() && p[f].body.is_some() {
        let blocks = p[f].body.unwrap().blocks@;
        findings_first(
            p,
            contracts,
            entries,
            all_targets(p)[f],
            blocks,
            walk_order(blocks),
            walk_order(blocks).len(),
            function_walk(p, all_targets(p), merge, f),
        )
    } else {
        Seq::empty()
    }
}

/// The blocks of `f` that end in a call of which no target is known, in the
/// order of the walk.
pub open spec fn unresolved_calls(p: Seq<Function>, merge: bool, f: int) -> Seq<usize> {
    if 0 <= f < p.len() && p[f].body.is_some() {
        let blocks = p[f].body.unwrap().blocks@;
        unresolved_first(
            all_targets(p)[f],
            blocks,
            walk_order(blocks),
            walk_order(blocks).len(),
            function_walk(p, all_targets(p), merge, f),
        )
    } else {
        Seq::empty()
    }
}

/// The report of the verification of `f`: its guarded calls, if it has any.
pub open spec fn soundness_report(
    p: Seq<Function>,
    contracts: Seq<SafetyContract>,
    entries: Seq<ApiEntry>,
    merge: bool,
    f: int,
) -> Option<Reported> {
    let results = check_results(p, contracts, entries, merge, f);
    if results.len() > 0 {
        Some(Reported::Soundness { function: f as usize, results })
    } else {
        None
    }
}

/// The report of the lint of `f`: the contracts it exercises, if there are
/// any.
pub open spec fn annotation_report_of(
    p: Seq<Function>,
    contracts: Seq<SafetyContract>,
    entries: Seq<ApiEntry>,
    f: int,
) -> Option<Reported> {
    let missing = annotation_names(p, contracts, entries, f);
    if missing.len() > 0 {
        Some(Reported::Annotation { function: f as usize, missing })
    } else {
        None
    }
}

/// `f` can be verified: it is safe by declaration, wraps at least one unsafe
/// block, and one of its calls may invoke a guarded API.
pub open spec fn verifiable(p: Seq<Function>, targets: Seq<Seq<Seq<usize>>>, f: int) -> bool {
    0 <= f < p.len() && p[f].unsafety is ContainsUnsafeBlock && reaches_guarded(p, targets, f)
}

/// `f` can be linted: it is unsafe by declaration, and one of its calls may
/// invoke a guarded API.
pub open spec fn lintable(p: Seq<Function>, targets: Seq<Seq<Seq<usize>>>, f: int) -> bool {
    0 <= f < p.len() && p[f].unsafety is FullyUnsafe && reaches_guarded(p, targets, f)
}

/// What a run reports of `f`: in verification mode the guarded calls of a
/// function that can be verified, in lint mode the contracts that a function
/// which can be linted exercises; in both modes nothing of a function that the
/// level leaves out.
pub open spec fn report_for(
    p: Seq<Function>,
    contracts: Seq<SafetyContract>,
    entries: Seq<ApiEntry>,
    merge: bool,
    level: CheckLevel,
    is_verify: bool,
    f: int,
) -> Option<Reported> {
    if !passes_level(p, level, f) {
        None
    } else if is_verify {
        if verifiable(p, all_targets(p), f) {
            soundness_report(p, contracts, entries, merge, f)
        } else {
            None
        }
    } else {
        if lintable(p, all_targets(p), f) {
            annotation_report_of(p, contracts, entries, f)
        } else {
            None
        }
    }
}

/// What a run reports of the first `k` functions.
pub open spec fn run_first(
    p: Seq<Function>,
    contracts: Seq<SafetyContract>,
    entries: Seq<ApiEntry>,
    merge: bool,
    level: CheckLevel,
    is_verify: bool,
    k: nat,
) -> Seq<Reported>
    decreases k,
{
    if k == 0 {
        Seq::empty()
    } else {
        let rest = run_first(p, contracts, entries, merge, level, is_verify, (k - 1) as nat);
        match report_for(p, contracts, entries, merge, level, is_verify, k - 1) {
            Some(report) => rest.push(report),
            None => rest,
        }
    }
}

/// The reports that pass the obligations of method `f` on to the first `k`
/// of its constructors: one for each constructor that is unsafe as a whole.
pub open spec fn upheld_first(
    p: Seq<Function>,
    constructors: Seq<usize>,
    missing: Seq<Seq<char>>,
    k: nat,
) -> Seq<Reported>
    decreases k,
{
    if k == 0 {
        Seq::empty()
    } else {
        let rest = upheld_first(p, constructors, missing, (k - 1) as nat);
        if p[constructors[k - 1] as int].unsafety is FullyUnsafe {
            rest.push(Reported::Annotation { function: constructors[k - 1], missing })
        } else {
            rest
        }
    }
}

/// The reports that pass the obligations of `f` on to its unsafe
/// constructors. Only a method that exercises a contract has any.
pub open spec fn upheld_reports(
    p: Seq<Function>,
    contracts: Seq<SafetyContract>,
    entries: Seq<ApiEntry>,
    f: int,
) -> Seq<Reported> {
    let missing = annotation_names(p, contracts, entries, f);
    if 0 <= f < p.len() && missing.len() > 0 {
        match p[f].kind {
            FnKind::Method { constructors } => upheld_first(
                p,
                constructors@,
                missing,
                constructors@.len(),
            ),
            FnKind::Plain => Seq::empty(),
        }
    } else {
        Seq::empty()
    }
}

/// The name of function `f`; empty for a function that is not there.
pub open spec fn name_of(p: Seq<Function>, f: int) -> Seq<char> {
    if 0 <= f < p.len() {
        p[f].name@
    } else {
        Seq::empty()
    }
}

/// Whether some call of `f` may invoke a guarded API.
fn has_guarded_callee(program: &Program, map: &FnMap, f: usize) -> (r: bool)
    requires
        map@ == resolution(program@),
        f < program@.len(),
    ensures
        r == reaches_guarded(program@, all_targets(program@), f as int),
{
    let ghost p = program@;
    let ghost targets = all_targets(p);
    let count: usize = map.blocks(f);
    let n: usize = program.len();
    let mut b: usize = 0;
    while b < count
        invariant
            p == program@,
            targets == all_targets(p),
            map@ == resolution(p),
            n == p.len(),
            f < p.len(),
            count == targets[f as int].len(),
            b <= count,
            forall|c: int, t: int|
                0 <= c < b && 0 <= t < p.len() && listed(#[trigger] targets[f as int][c], t)
                    ==> !(#[trigger] p[t]).guarded_api,
        decreases count - b,
    {
        let list = map.targets(f, b).unwrap();
        let mut i: usize = 0;
        while i < list.len()
            invariant
                p == program@,
                targets == all_targets(p),
                n == p.len(),
                f < p.len(),
                b < targets[f as int].len(),
                list@ == targets[f as int][b as int],
                i <= list@.len(),
                forall|j: int| 0 <= j < i ==> !p[list@[j] as int].guarded_api,
            decreases list@.len() - i,
        {
            let t: usize = list[i];
            proof {
                lemma_indices_where(
                    Seq::new(p.len(), |x: int| resolved(p, f as int, b as int, x)),
                    p.len(),
                    t as int,
                );
            }
            if program.function(t).guarded_api {
                proof {
                    assert(listed(targets[f as int][b as int], t as int));
                    assert(calls(targets, f as int, t as int));
                    assert(guarded_target(p, targets, f as int, t as int));
                }
                return true;
            }
            i += 1;
        }
        proof {
            assert forall|t: int|
                0 <= t < p.len() && listed(targets[f as int][b as int], t) implies !(
            #[trigger] p[t]).guarded_api by {
                let j = choose|j: int| 0 <= j < list@.len() && #[trigger] list@[j] == t;
            }
        }
        b += 1;
    }
    proof {
        if reaches_guarded(p, targets, f as int) {
            let t = choose|t: int| guarded_target(p, targets, f as int, t);
            let c = choose|c: int|
                0 <= c < targets[f as int].len() && listed(#[trigger] targets[f as int][c], t);
            assert(!p[t].guarded_api);
        }
    }
    false
}

/// The soundness check of one program.
#[derive(Debug)]
pub struct SenryxCheck {
    program: Program,
    catalog: Catalog,
    threshhold: usize,
    merger: Option<FieldStateMerger>,
    caching: bool,
    global_recorder: Recorder,
}

impl SenryxCheck {
    /// The cache fits the program: it has room for every function, no
    /// function counts as being analysed, and every record is what its
    /// function contributes to a caller.
    pub closed spec fn wf(&self) -> bool {
        &&& self.global_recorder@.len() == self.program@.len()
        &&& records_valid(
            self.global_recorder@,
            self.program@,
            all_targets(self.program@),
            self.merger.is_some(),
        )
        &&& idle(self.global_recorder@)
    }

    /// The functions of the program that is checked.
    pub closed spec fn functions(&self) -> Seq<Function> {
        self.program@
    }

    /// The contracts of the catalog.
    pub closed spec fn contracts(&self) -> Seq<SafetyContract> {
        self.catalog.contracts()
    }

    /// The entries of the catalog.
    pub closed spec fn entries(&self) -> Seq<ApiEntry> {
        self.catalog.entries()
    }

    /// Whether the facts of several constructors are brought together.
    pub closed spec fn merges(&self) -> bool {
        self.merger.is_some()
    }

    /// The threshold that the check was made with.
    pub closed spec fn limit(&self) -> usize {
        self.threshhold
    }

    /// What the cache holds.
    pub closed spec fn recorded(&self) -> Seq<Slot> {
        self.global_recorder@
    }

    /// Whether the cache is used.
    pub closed spec fn caches(&self) -> bool {
        self.caching
    }

    /// Program, catalog, merger and threshold are those of `other`.
    pub open spec fn set_up_as(&self, other: &SenryxCheck) -> bool {
        &&& self.functions() == other.functions()
        &&& self.contracts() == other.contracts()
        &&& self.entries() == other.entries()
        &&& self.merges() == other.merges()
        &&& self.limit() == other.limit()
    }

    /// A check of `program` against `catalog`, with a cache that knows
    /// nothing and without a merger for the facts of several constructors.
    pub fn new(program: Program, catalog: Catalog, threshhold: usize) -> (r: SenryxCheck)
        ensures
            r.functions() == program@,
            r.contracts() == catalog.contracts(),
            r.entries() == catalog.entries(),
            !r.merges(),
            r.limit() == threshhold,
            r.wf(),
            r.caches(),
            r.recorded().len() == program@.len(),
            forall|g: int| 0 <= g < r.recorded().len() ==> (#[trigger] r.recorded()[g]) is Absent,
    {
        let global_recorder = Recorder::new(program.len());
        SenryxCheck { program, catalog, threshhold, merger: None, caching: true, global_recorder }
    }

    /// A check like that of `new`, with a merger.
    pub fn with_merger(
        program: Program,
        catalog: Catalog,
        threshhold: usize,
        merger: FieldStateMerger,
    ) -> (r: SenryxCheck)
        ensures
            r.functions() == program@,
            r.contracts() == catalog.contracts(),
            r.entries() == catalog.entries(),
            r.merges(),
            r.limit() == threshhold,
            r.wf(),
            r.caches(),
            r.recorded().len() == program@.len(),
            forall|g: int| 0 <= g < r.recorded().len() ==> (#[trigger] r.recorded()[g]) is Absent,
    {
        let global_recorder = Recorder::new(program.len());
        SenryxCheck {
            program,
            catalog,
            threshhold,
            merger: Some(merger),
            caching: true,
            global_recorder,
        }
    }

    /// Turns the cache on or off. With the cache off every request analyses
    /// the callees anew and nothing is recorded; what is found is the same.
    pub fn set_caching(&mut self, on: bool)
        requires
            old(self).wf(),
        ensures
            final(self).wf(),
            final(self).set_up_as(old(self)),
            final(self).caches() == on,
            final(self).recorded() == old(self).recorded(),
    {
        self.caching = on;
    }

    /// Whether the cache is used.
    pub fn caching(&self) -> (r: bool)
        ensures
            r == self.caches(),
    {
        self.caching
    }

    /// The program.
    pub fn program(&self) -> (r: &Program)
        ensures
            r@ == self.functions(),
    {
        &self.program
    }

    /// The catalog.
    pub fn catalog(&self) -> (r: &Catalog)
        ensures
            r.contracts() == self.contracts(),
            r.entries() == self.entries(),
    {
        &self.catalog
    }

    /// The threshold.
    pub fn threshhold(&self) -> (r: usize)
        ensures
            r == self.limit(),
    {
        self.threshhold
    }

    /// The merger, if there is one.
    pub fn merger(&self) -> (r: Option<FieldStateMerger>)
        ensures
            r.is_some() == self.merges(),
    {
        self.merger
    }

    /// The cache.
    pub fn global_recorder(&self) -> (r: &Recorder)
        ensures
            r@ == self.recorded(),
    {
        &self.global_recorder
    }

    /// Whether a run at `check_level` looks at `def_id`: at the strictest
    /// level only at functions that are visible from outside.
    pub fn filter_by_check_level(program: &Program, check_level: &CheckLevel, def_id: usize) -> (r:
        bool)
        ensures
            r == passes_level(program@, *check_level, def_id as int),
    {
        match check_level {
            CheckLevel::High => match program.get(def_id) {
                Some(function) => function.public,
                None => false,
            },
            _ => true,
        }
    }

    /// Whether `def_id` can be verified.
    pub fn eligible_for_verification(&self, def_id: usize, fn_map: &FnMap) -> (r: bool)
        requires
            fn_map@ == resolution(self.functions()),
        ensures
            r == verifiable(self.functions(), all_targets(self.functions()), def_id as int),
    {
        match self.program.get(def_id) {
            Some(function) => match function.unsafety {
                Unsafety::ContainsUnsafeBlock => has_guarded_callee(&self.program, fn_map, def_id),
                _ => false,
            },
            None => false,
        }
    }

    /// Whether `def_id` can be linted.
    pub fn eligible_for_lint(&self, def_id: usize, fn_map: &FnMap) -> (r: bool)
        requires
            fn_map@ == resolution(self.functions()),
        ensures
            r == lintable(self.functions(), all_targets(self.functions()), def_id as int),
    {
        match self.program.get(def_id) {
            Some(function) => match function.unsafety {
                Unsafety::FullyUnsafe => has_guarded_callee(&self.program, fn_map, def_id),
                _ => false,
            },
            None => false,
        }
    }

    /// Walks the body of `def_id` and holds its guarded calls against the
    /// catalog.
    pub fn path_forward_check(&mut self, def_id: usize, fn_map: &FnMap) -> (r: BodyAnalysis)
        requires
            old(self).wf(),
            fn_map@ == resolution(old(self).functions()),
        ensures
            final(self).wf(),
            final(self).set_up_as(old(self)),
            final(self).caches() == old(self).caches(),
            !old(self).caches() ==> final(self).recorded() == old(self).recorded(),
            results_view(r.check_results@) == check_results(
                old(self).functions(),
                old(self).contracts(),
                old(self).entries(),
                old(self).merges(),
                def_id as int,
            ),
            r.unresolved_calls@ == unresolved_calls(
                old(self).functions(),
                old(self).merges(),
                def_id as int,
            ),
    {
        let merge = self.merger.is_some();
        let walker = if self.caching {
            path_forward(&self.program, fn_map, merge, &mut self.global_recorder, def_id)
        } else {
            let mut scratch = Recorder::new(self.program.len());
            path_forward(&self.program, fn_map, merge, &mut scratch, def_id)
        };
        match walker {
            None => {
                let check_results: Vec<CheckResult> = Vec::new();
                assert(results_view(check_results@) =~= Seq::<Finding>::empty());
                BodyAnalysis { check_results, unresolved_calls: Vec::new() }
            },
            Some(w) => {
                let function = self.program.function(def_id);
                match &function.body {
                    None => BodyAnalysis {
                        check_results: Vec::new(),
                        unresolved_calls: Vec::new(),
                    },
                    Some(body) => {
                        assert(self.program@[def_id as int].valid(self.program@.len()));
                        let order = reverse_postorder(body, self.program.len());
                        let (check_results, unresolved_calls) = evaluate(
                            &self.program,
                            &self.catalog,
                            fn_map,
                            def_id,
                            &order,
                            &w,
                        );
                        BodyAnalysis { check_results, unresolved_calls }
                    },
                }
            },
        }
    }

    /// The outcomes of the guarded calls of `def_id`. For a method the
    /// constructors are walked first; what they establish of the value they
    /// return is known of the receiver when the walk of the method begins.
    pub fn body_visit_and_check(&mut self, def_id: usize, fn_map: &FnMap) -> (r: Vec<CheckResult>)
        requires
            old(self).wf(),
            fn_map@ == resolution(old(self).functions()),
        ensures
            final(self).wf(),
            final(self).set_up_as(old(self)),
            final(self).caches() == old(self).caches(),
            !old(self).caches() ==> final(self).recorded() == old(self).recorded(),
            results_view(r@) == check_results(
                old(self).functions(),
                old(self).contracts(),
                old(self).entries(),
                old(self).merges(),
                def_id as int,
            ),
    {
        self.path_forward_check(def_id, fn_map).check_results
    }

    /// Verifies `def_id`. There is a report where the function has guarded
    /// calls.
    pub fn check_soundness(&mut self, def_id: usize, fn_map: &FnMap) -> (r: Option<Report>)
        requires
            old(self).wf(),
            fn_map@ == resolution(old(self).functions()),
        ensures
            final(self).wf(),
            final(self).set_up_as(old(self)),
            final(self).caches() == old(self).caches(),
            !old(self).caches() ==> final(self).recorded() == old(self).recorded(),
            report_view(r) == soundness_report(
                old(self).functions(),
                old(self).contracts(),
                old(self).entries(),
                old(self).merges(),
                def_id as int,
            ),
    {
        let check_results = self.body_visit_and_check(def_id, fn_map);
        if check_results.len() > 0 {
            Some(Report::Soundness { function: def_id, results: check_results })
        } else {
            None
        }
    }

    /// The names of the contracts that the call chain of `def_id` exercises,
    /// in catalog order.
    pub fn get_annotation(&self, def_id: usize) -> (r: Vec<String>)
        ensures
            texts(r@) == annotation_names(
                self.functions(),
                self.contracts(),
                self.entries(),
                def_id as int,
            ),
    {
        collect(&self.program, &self.catalog, def_id)
    }

    /// Lints `def_id`. There is a report where its call chain exercises a
    /// contract.
    pub fn annotate_safety(&self, def_id: usize) -> (r: Option<Report>)
        ensures
            report_view(r) == annotation_report_of(
                self.functions(),
                self.contracts(),
                self.entries(),
                def_id as int,
            ),
    {
        let annotation_results = self.get_annotation(def_id);
        if annotation_results.len() == 0 {
            return None;
        }
        Some(Report::Annotation { function: def_id, missing: annotation_results })
    }

    /// Passes the obligations of the method `def_id` on to the constructors
    /// that are unsafe as a whole: each of them is reported with the contracts
    /// that the method exercises.
    pub fn body_visit_and_check_uig(&self, def_id: usize) -> (r: Vec<Report>)
        ensures
            reports_view(r@) == upheld_reports(
                self.functions(),
                self.contracts(),
                self.entries(),
                def_id as int,
            ),
    {
        let ghost p = self.functions();
        let mut reports: Vec<Report> = Vec::new();
        assert(reports_view(reports@) =~= Seq::<Reported>::empty());
        if def_id >= self.program.len() {
            return reports;
        }
        let function = self.program.function(def_id);
        match &function.kind {
            FnKind::Plain => {},
            FnKind::Method { constructors } => {
                let annotation_results = self.get_annotation(def_id);
                if annotation_results.len() > 0 {
                    let ghost missing = texts(annotation_results@);
                    assert(p[def_id as int].valid(p.len()));
                    let mut k: usize = 0;
                    while k < constructors.len()
                        invariant
                            p == self.functions(),
                            p == self.program@,
                            well_formed(p),
                            crate::program::all_below(constructors@, p.len()),
                            missing == texts(annotation_results@),
                            k <= constructors@.len(),
                            reports_view(reports@) == upheld_first(
                                p,
                                constructors@,
                                missing,
                                k as nat,
                            ),
                        decreases constructors@.len() - k,
                    {
                        let c: usize = constructors[k];
                        match self.program.function(c).unsafety {
                            Unsafety::FullyUnsafe => {
                                let ghost prior = reports@;
                                let names = crate::report::copy_names(&annotation_results);
                                reports.push(Report::Annotation { function: c, missing: names });
                                assert(reports_view(reports@) =~= reports_view(prior).push(
                                    Reported::Annotation { function: c, missing },
                                ));
                            },
                            _ => {},
                        }
                        k += 1;
                    }
                }
            },
        }
        reports
    }

    /// The lines that report these results for the safe function `def_id`.
    pub fn show_check_results(
        program: &Program,
        def_id: usize,
        check_results: Vec<CheckResult>,
    ) -> (r: Vec<ReportLine>)
        ensures
            lines_view(r@) == check_lines(
                name_of(program@, def_id as int),
                results_view(check_results@),
            ),
    {
        match program.get(def_id) {
            Some(function) => check_report(&function.name, &check_results),
            None => check_report(&String::new(), &check_results),
        }
    }

    /// The lines that report these missing annotations for the unsafe
    /// function `def_id`.
    pub fn show_annotate_results(
        program: &Program,
        def_id: usize,
        annotation_results: Vec<String>,
    ) -> (r: Vec<ReportLine>)
        ensures
            lines_view(r@) == annotation_lines(
                name_of(program@, def_id as int),
                texts(annotation_results@),
            ),
    {
        match program.get(def_id) {
            Some(function) => annotation_report(&function.name, &annotation_results),
            None => annotation_report(&String::new(), &annotation_results),
        }
    }

    /// Runs over the whole program, in the order of the function table.
    /// With `is_verify` the functions that wrap unsafe blocks are verified,
    /// without it the functions that are unsafe as a whole are linted; in
    /// both cases only those that pass `check_level` and have a call that may
    /// invoke a guarded API.
    pub fn start(&mut self, check_level: CheckLevel, is_verify: bool) -> (r: Vec<Report>)
        requires
            old(self).wf(),
        ensures
            final(self).wf(),
            final(self).set_up_as(old(self)),
            final(self).caches() == old(self).caches(),
            reports_view(r@) == run_first(
                old(self).functions(),
                old(self).contracts(),
                old(self).entries(),
                old(self).merges(),
                check_level,
                is_verify,
                old(self).functions().len(),
            ),
    {
        let ghost p = self.functions();
        let ghost contracts = self.contracts();
        let ghost entries = self.entries();
        let ghost merge = self.merges();
        let ghost first = *self;
        let fn_map = resolve(&self.program);
        let n: usize = self.program.len();
        let mut reports: Vec<Report> = Vec::new();
        assert(reports_view(reports@) =~= Seq::<Reported>::empty());
        let mut f: usize = 0;
        while f < n
            invariant
                self.wf(),
                self.set_up_as(&first),
                self.caches() == first.caches(),
                p == first.functions(),
                contracts == first.contracts(),
                entries == first.entries(),
                merge == first.merges(),
                fn_map@ == resolution(p),
                n == p.len(),
                f <= n,
                reports_view(reports@) == run_first(
                    p,
                    contracts,
                    entries,
                    merge,
                    check_level,
                    is_verify,
                    f as nat,
                ),
            decreases n - f,
        {
            let ghost prior = reports@;
            let mut found: Option<Report> = None;
            if Self::filter_by_check_level(&self.program, &check_level, f) {
                if is_verify {
                    if self.eligible_for_verification(f, &fn_map) {
                        found = self.check_soundness(f, &fn_map);
                    }
                } else {
                    if self.eligible_for_lint(f, &fn_map) {
                        found = self.annotate_safety(f);
                    }
                }
            }
            match found {
                Some(report) => {
                    let ghost said = report@;
                    reports.push(report);
                    assert(reports_view(reports@) =~= reports_view(prior).push(said));
                },
                None => {},
            }
            f += 1;
        }
        reports
    }
}

impl Report {
    /// The function that the report is about.
    pub fn function(&self) -> (r: usize)
        ensures
            r == self@.subject(),
    {
        match self {
            Report::Soundness { function, .. } => *function,
            Report::Annotation { function, .. } => *function,
        }
    }

    /// The lines of the report.
    pub fn lines(&self, program: &Program) -> (r: Vec<ReportLine>)
        ensures
            lines_view(r@) == match self@ {
                Reported::Soundness { function, results } => check_lines(
                    name_of(program@, function as int),
                    results,
                ),
                Reported::Annotation { function, missing } => annotation_lines(
                    name_of(program@, function as int),
                    missing,
                ),
            },
    {
        match self {
            Report::Soundness { function, results } => match program.get(*function) {
                Some(owner) => check_report(&owner.name, results),
                None => check_report(&String::new(), results),
            },
            Report::Annotation { function, missing } => match program.get(*function) {
                Some(owner) => annotation_report(&owner.name, missing),
                None => annotation_report(&String::new(), missing),
            },
        }
    }
}

} // verus!
