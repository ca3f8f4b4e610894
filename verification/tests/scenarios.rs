use senryx::catalog::{ApiEntry, Catalog, Matcher, Requirement, SafetyContract};
use senryx::driver::{FieldStateMerger, Report};
use senryx::facts::FactSet;
use senryx::program::{
    Block, Body, Callee, Edge, FnKind, Function, Program, Statement, Terminator, Unsafety,
};
use senryx::report::{Level, Message, ReportLine};
use senryx::resolver::resolve;
use senryx::visitor::CheckResult;
use senryx::{CheckLevel, SenryxCheck};

const NON_NULL: u8 = 0;
const LEN_LE_CAPACITY: u8 = 1;

fn fact(n: u8) -> FactSet {
    FactSet::empty().insert(n).unwrap()
}

fn api(name: &str) -> Function {
    Function {
        name: String::from(name),
        public: true,
        unsafety: Unsafety::FullyUnsafe,
        kind: FnKind::Plain,
        guarded_api: true,
        body: None,
    }
}

fn function(name: &str, public: bool, unsafety: Unsafety, locals: usize, blocks: Vec<Block>) -> Function {
    Function {
        name: String::from(name),
        public,
        unsafety,
        kind: FnKind::Plain,
        guarded_api: false,
        body: Some(Body { locals, blocks }),
    }
}

fn call(callee: usize, args: Vec<usize>, dest: usize, target: Option<usize>) -> Block {
    Block {
        statements: vec![],
        terminator: Terminator::Call { callee: Callee::Direct(callee), args, dest, target },
    }
}

fn ret() -> Block {
    Block { statements: vec![], terminator: Terminator::Return }
}

fn branch(edges: Vec<Edge>) -> Block {
    Block { statements: vec![], terminator: Terminator::Branch { edges } }
}

fn plain(target: usize) -> Edge {
    Edge { target, value: 0, facts: FactSet::empty() }
}

fn contract(name: &str, needed: u8) -> SafetyContract {
    SafetyContract { name: String::from(name), matcher: Matcher::All(fact(needed)) }
}

fn names(list: &[&str]) -> Vec<String> {
    list.iter().map(|s| String::from(*s)).collect()
}

/// Function 0 is `f`, unsafe as a whole, and calls `setLen` (function 1).
fn set_len_program() -> (Program, Catalog) {
    let f = function(
        "f",
        true,
        Unsafety::FullyUnsafe,
        3,
        vec![call(1, vec![1, 2], 0, Some(1)), ret()],
    );
    let program = Program::new(vec![f, api("setLen")]).unwrap();
    let catalog = Catalog::new(
        vec![contract("len<=capacity", LEN_LE_CAPACITY)],
        vec![ApiEntry { api: 1, requirements: vec![Requirement { param: 1, contract: 0 }] }],
    )
    .unwrap();
    (program, catalog)
}

/// Function 0 is `g`, a safe wrapper around a call of `fromRawParts`
/// (function 1) with the pointer in local 1 and the length in local 2.
fn from_raw_parts_program(checked: bool) -> (Program, Catalog) {
    let blocks = if checked {
        vec![
            branch(vec![Edge { target: 1, value: 1, facts: fact(NON_NULL) }, plain(3)]),
            branch(vec![Edge { target: 2, value: 2, facts: fact(LEN_LE_CAPACITY) }, plain(3)]),
            call(1, vec![1, 2], 0, Some(3)),
            ret(),
        ]
    } else {
        vec![branch(vec![plain(1)]), branch(vec![plain(2)]), call(1, vec![1, 2], 0, Some(3)), ret()]
    };
    let g = function("g", true, Unsafety::ContainsUnsafeBlock, 4, blocks);
    let program = Program::new(vec![g, api("fromRawParts")]).unwrap();
    let catalog = Catalog::new(
        vec![contract("len<=capacity", LEN_LE_CAPACITY)],
        vec![ApiEntry { api: 1, requirements: vec![Requirement { param: 1, contract: 0 }] }],
    )
    .unwrap();
    (program, catalog)
}

#[test]
fn lint_reports_the_contract_that_set_len_declares() {
    let (program, catalog) = set_len_program();
    let mut check = SenryxCheck::new(program, catalog, 2);
    let reports = check.start(CheckLevel::Low, false);
    assert_eq!(
        reports,
        vec![Report::Annotation { function: 0, missing: names(&["len<=capacity"]) }]
    );
}

#[test]
fn lint_says_nothing_in_verification_mode() {
    let (program, catalog) = set_len_program();
    let mut check = SenryxCheck::new(program, catalog, 2);
    assert_eq!(check.start(CheckLevel::Low, true), vec![]);
}

#[test]
fn checked_wrapper_has_no_failed_contract() {
    let (program, catalog) = from_raw_parts_program(true);
    let mut check = SenryxCheck::new(program, catalog, 2);
    let reports = check.start(CheckLevel::Medium, true);
    assert_eq!(
        reports,
        vec![Report::Soundness {
            function: 0,
            results: vec![CheckResult {
                func_name: String::from("fromRawParts"),
                failed_contracts: vec![],
            }],
        }]
    );
}

#[test]
fn unchecked_wrapper_fails_len_capacity_on_the_second_argument() {
    let (program, catalog) = from_raw_parts_program(false);
    let mut check = SenryxCheck::new(program, catalog, 2);
    let reports = check.start(CheckLevel::Medium, true);
    assert_eq!(
        reports,
        vec![Report::Soundness {
            function: 0,
            results: vec![CheckResult {
                func_name: String::from("fromRawParts"),
                failed_contracts: vec![(1, names(&["len<=capacity"]))],
            }],
        }]
    );
}

#[test]
fn wrapper_is_not_linted() {
    let (program, catalog) = from_raw_parts_program(false);
    let mut check = SenryxCheck::new(program, catalog, 2);
    assert_eq!(check.start(CheckLevel::Medium, false), vec![]);
}

#[test]
fn body_visit_and_check_agrees_with_the_run() {
    let (program, catalog) = from_raw_parts_program(false);
    let mut check = SenryxCheck::new(program, catalog, 2);
    let fn_map = resolve(check.program());
    let results = check.body_visit_and_check(0, &fn_map);
    assert_eq!(
        results,
        vec![CheckResult {
            func_name: String::from("fromRawParts"),
            failed_contracts: vec![(1, names(&["len<=capacity"]))],
        }]
    );
    let report = check.check_soundness(0, &fn_map);
    assert_eq!(report, Some(Report::Soundness { function: 0, results }));
}

#[test]
fn function_without_body_has_no_results() {
    let (program, catalog) = from_raw_parts_program(false);
    let mut check = SenryxCheck::new(program, catalog, 2);
    let fn_map = resolve(check.program());
    assert_eq!(check.body_visit_and_check(1, &fn_map), vec![]);
    assert_eq!(check.check_soundness(1, &fn_map), None);
    assert_eq!(check.body_visit_and_check(7, &fn_map), vec![]);
}

#[test]
fn function_without_guarded_call_is_not_reported() {
    let helper = function("helper", true, Unsafety::ContainsUnsafeBlock, 1, vec![ret()]);
    let caller = function(
        "caller",
        true,
        Unsafety::ContainsUnsafeBlock,
        1,
        vec![call(0, vec![], 0, Some(1)), ret()],
    );
    let lonely = function("lonely", true, Unsafety::FullyUnsafe, 1, vec![ret()]);
    let program = Program::new(vec![helper, caller, lonely]).unwrap();
    let catalog = Catalog::new(vec![], vec![]).unwrap();
    let mut check = SenryxCheck::new(program, catalog, 0);
    assert_eq!(check.start(CheckLevel::Low, true), vec![]);
    assert_eq!(check.start(CheckLevel::Low, false), vec![]);
}

#[test]
fn strictest_level_skips_functions_that_are_not_public() {
    let hidden = function(
        "hidden",
        false,
        Unsafety::ContainsUnsafeBlock,
        3,
        vec![call(2, vec![1, 2], 0, Some(1)), ret()],
    );
    let shown = function(
        "shown",
        true,
        Unsafety::ContainsUnsafeBlock,
        3,
        vec![call(2, vec![1, 2], 0, Some(1)), ret()],
    );
    let program = Program::new(vec![hidden, shown, api("setLen")]).unwrap();
    let catalog = Catalog::new(
        vec![contract("len<=capacity", LEN_LE_CAPACITY)],
        vec![ApiEntry { api: 2, requirements: vec![Requirement { param: 1, contract: 0 }] }],
    )
    .unwrap();
    let mut check = SenryxCheck::new(program, catalog, 0);
    let high = check.start(CheckLevel::High, true);
    assert_eq!(high.len(), 1);
    assert_eq!(high[0].function(), 1);
    let medium = check.start(CheckLevel::Medium, true);
    assert_eq!(medium.len(), 2);
    assert_eq!(medium[0].function(), 0);
    assert_eq!(medium[1].function(), 1);
    let low = check.start(CheckLevel::Low, true);
    assert_eq!(low, medium);
}

#[test]
fn filter_by_check_level_looks_at_visibility_only_when_high() {
    let hidden = function("hidden", false, Unsafety::Safe, 1, vec![ret()]);
    let shown = function("shown", true, Unsafety::Safe, 1, vec![ret()]);
    let program = Program::new(vec![hidden, shown]).unwrap();
    assert!(!SenryxCheck::filter_by_check_level(&program, &CheckLevel::High, 0));
    assert!(SenryxCheck::filter_by_check_level(&program, &CheckLevel::High, 1));
    assert!(!SenryxCheck::filter_by_check_level(&program, &CheckLevel::High, 2));
    assert!(SenryxCheck::filter_by_check_level(&program, &CheckLevel::Medium, 0));
    assert!(SenryxCheck::filter_by_check_level(&program, &CheckLevel::Low, 0));
    assert!(SenryxCheck::filter_by_check_level(&program, &CheckLevel::Low, 2));
}

/// `a` calls `b`, `b` calls `c`, and `c` is an API that declares `P`.
fn chain_program() -> (Program, Catalog) {
    let a = function("a", true, Unsafety::FullyUnsafe, 1, vec![call(1, vec![], 0, Some(1)), ret()]);
    let b = function("b", true, Unsafety::FullyUnsafe, 2, vec![call(2, vec![1], 0, Some(1)), ret()]);
    let program = Program::new(vec![a, b, api("c")]).unwrap();
    let catalog = Catalog::new(
        vec![contract("P", 5)],
        vec![ApiEntry { api: 2, requirements: vec![Requirement { param: 0, contract: 0 }] }],
    )
    .unwrap();
    (program, catalog)
}

#[test]
fn annotations_are_inherited_through_a_function_without_contracts() {
    let (program, catalog) = chain_program();
    let check = SenryxCheck::new(program, catalog, 0);
    assert_eq!(check.get_annotation(0), names(&["P"]));
    assert_eq!(check.get_annotation(1), names(&["P"]));
    assert_eq!(check.get_annotation(2), names(&[]));
    assert_eq!(check.get_annotation(9), names(&[]));
}

#[test]
fn annotate_safety_reports_only_where_something_is_missing() {
    let (program, catalog) = chain_program();
    let check = SenryxCheck::new(program, catalog, 0);
    assert_eq!(
        check.annotate_safety(0),
        Some(Report::Annotation { function: 0, missing: names(&["P"]) })
    );
    assert_eq!(check.annotate_safety(2), None);
}

#[test]
fn a_callee_with_contracts_of_its_own_is_not_looked_into() {
    // `outer` calls `wrapper`, for which the catalog has an entry; what
    // `wrapper` calls itself does not count for `outer`.
    let outer = function("outer", true, Unsafety::FullyUnsafe, 1, vec![call(1, vec![], 0, Some(1)), ret()]);
    let wrapper = function("wrapper", true, Unsafety::FullyUnsafe, 2, vec![call(2, vec![1], 0, Some(1)), ret()]);
    let program = Program::new(vec![outer, wrapper, api("inner")]).unwrap();
    let catalog = Catalog::new(
        vec![contract("Outer", 1), contract("Inner", 2)],
        vec![
            ApiEntry { api: 1, requirements: vec![Requirement { param: 0, contract: 0 }] },
            ApiEntry { api: 2, requirements: vec![Requirement { param: 0, contract: 1 }] },
        ],
    )
    .unwrap();
    let check = SenryxCheck::new(program, catalog, 0);
    assert_eq!(check.get_annotation(0), names(&["Outer"]));
    assert_eq!(check.get_annotation(1), names(&["Inner"]));
}

#[test]
fn recursion_without_contracts_gives_no_annotation() {
    let this = function("this", true, Unsafety::FullyUnsafe, 1, vec![call(0, vec![], 0, Some(1)), ret()]);
    let ping = function("ping", true, Unsafety::FullyUnsafe, 1, vec![call(2, vec![], 0, Some(1)), ret()]);
    let pong = function("pong", true, Unsafety::FullyUnsafe, 1, vec![call(1, vec![], 0, Some(1)), ret()]);
    let program = Program::new(vec![this, ping, pong]).unwrap();
    let catalog = Catalog::new(vec![contract("P", 0)], vec![]).unwrap();
    let mut check = SenryxCheck::new(program, catalog, 0);
    assert_eq!(check.get_annotation(0), names(&[]));
    assert_eq!(check.get_annotation(1), names(&[]));
    assert_eq!(check.get_annotation(2), names(&[]));
    assert_eq!(check.start(CheckLevel::Low, false), vec![]);
}

#[test]
fn recursion_around_a_contract_finds_it_from_everywhere() {
    let ping = function(
        "ping",
        true,
        Unsafety::FullyUnsafe,
        2,
        vec![call(1, vec![], 0, Some(1)), call(2, vec![1], 0, Some(2)), ret()],
    );
    let pong = function("pong", true, Unsafety::FullyUnsafe, 1, vec![call(0, vec![], 0, Some(1)), ret()]);
    let program = Program::new(vec![ping, pong, api("deref")]).unwrap();
    let catalog = Catalog::new(
        vec![contract("Aligned", 3), contract("NonNull", 0)],
        vec![ApiEntry {
            api: 2,
            requirements: vec![
                Requirement { param: 0, contract: 1 },
                Requirement { param: 0, contract: 0 },
            ],
        }],
    )
    .unwrap();
    let check = SenryxCheck::new(program, catalog, 0);
    assert_eq!(check.get_annotation(0), names(&["Aligned", "NonNull"]));
    assert_eq!(check.get_annotation(1), names(&["Aligned", "NonNull"]));
}

#[test]
fn obligations_are_passed_on_to_unsafe_constructors() {
    let mut method = function(
        "Buffer::set_len",
        true,
        Unsafety::FullyUnsafe,
        3,
        vec![call(3, vec![1, 2], 0, Some(1)), ret()],
    );
    method.kind = FnKind::Method { constructors: vec![1, 2] };
    let raw = function("Buffer::from_raw", true, Unsafety::FullyUnsafe, 1, vec![ret()]);
    let new = function("Buffer::new", true, Unsafety::Safe, 1, vec![ret()]);
    let program = Program::new(vec![method, raw, new, api("setLen")]).unwrap();
    let catalog = Catalog::new(
        vec![contract("len<=capacity", LEN_LE_CAPACITY)],
        vec![ApiEntry { api: 3, requirements: vec![Requirement { param: 1, contract: 0 }] }],
    )
    .unwrap();
    let check = SenryxCheck::new(program, catalog, 0);
    assert_eq!(
        check.body_visit_and_check_uig(0),
        vec![Report::Annotation { function: 1, missing: names(&["len<=capacity"]) }]
    );
    assert_eq!(check.body_visit_and_check_uig(1), vec![]);
    assert_eq!(check.body_visit_and_check_uig(3), vec![]);
    assert_eq!(check.body_visit_and_check_uig(11), vec![]);
}

#[test]
fn results_do_not_depend_on_the_order_of_requests_or_on_the_cache() {
    // `top` passes what `make` returns on to the API; `make` establishes the
    // fact that the API asks for.
    let build = || {
        let top = function(
            "top",
            true,
            Unsafety::ContainsUnsafeBlock,
            2,
            vec![call(1, vec![], 1, Some(1)), call(3, vec![1], 0, Some(2)), ret()],
        );
        let make = Function {
            name: String::from("make"),
            public: false,
            unsafety: Unsafety::Safe,
            kind: FnKind::Plain,
            guarded_api: false,
            body: Some(Body {
                locals: 1,
                blocks: vec![Block {
                    statements: vec![Statement::Define { dst: 0, facts: fact(NON_NULL) }],
                    terminator: Terminator::Return,
                }],
            }),
        };
        let other = function(
            "other",
            true,
            Unsafety::ContainsUnsafeBlock,
            2,
            vec![call(1, vec![], 1, Some(1)), call(3, vec![0], 0, Some(2)), ret()],
        );
        let program = Program::new(vec![top, make, other, api("deref")]).unwrap();
        let catalog = Catalog::new(
            vec![contract("NonNull", NON_NULL)],
            vec![ApiEntry { api: 3, requirements: vec![Requirement { param: 0, contract: 0 }] }],
        )
        .unwrap();
        SenryxCheck::new(program, catalog, 0)
    };
    let mut forward = build();
    let map = resolve(forward.program());
    let top_first = forward.body_visit_and_check(0, &map);
    let other_second = forward.body_visit_and_check(2, &map);
    let mut backward = build();
    let other_first = backward.body_visit_and_check(2, &map);
    let top_second = backward.body_visit_and_check(0, &map);
    assert_eq!(top_first, top_second);
    assert_eq!(other_first, other_second);
    // the cache is warm now
    assert!(forward.global_recorder().get(1).is_some());
    assert_eq!(forward.body_visit_and_check(0, &map), top_first);
    assert_eq!(forward.body_visit_and_check(2, &map), other_first);
    assert_eq!(
        top_first,
        vec![CheckResult { func_name: String::from("deref"), failed_contracts: vec![] }]
    );
    assert_eq!(
        other_first,
        vec![CheckResult {
            func_name: String::from("deref"),
            failed_contracts: vec![(0, names(&["NonNull"]))],
        }]
    );
    let first_run = forward.start(CheckLevel::Low, true);
    let second_run = forward.start(CheckLevel::Low, true);
    let cold_run = build().start(CheckLevel::Low, true);
    assert_eq!(first_run, second_run);
    assert_eq!(first_run, cold_run);
}

#[test]
fn new_keeps_what_it_is_given() {
    let (program, catalog) = set_len_program();
    let check = SenryxCheck::new(program, catalog, 7);
    assert_eq!(check.threshhold(), 7);
    assert_eq!(check.program().len(), 2);
    assert_eq!(check.catalog().contract_count(), 1);
    assert_eq!(check.merger(), None);
    assert_eq!(check.global_recorder().len(), 2);
    assert_eq!(check.global_recorder().get(0), None);
    let (program, catalog) = set_len_program();
    let merging = SenryxCheck::with_merger(program, catalog, 7, FieldStateMerger::Intersection);
    assert_eq!(merging.merger(), Some(FieldStateMerger::Intersection));
}

#[test]
fn show_check_results_raises_the_channel_only_for_failures() {
    let (program, _) = from_raw_parts_program(false);
    let results = vec![
        CheckResult { func_name: String::from("fromRawParts"), failed_contracts: vec![] },
        CheckResult {
            func_name: String::from("setLen"),
            failed_contracts: vec![(1, names(&["len<=capacity"])), (0, names(&["A", "B"]))],
        },
    ];
    let lines = SenryxCheck::show_check_results(&program, 0, results);
    assert_eq!(
        lines,
        vec![
            ReportLine { level: Level::Info, message: Message::SafeFunction { name: String::from("g") } },
            ReportLine {
                level: Level::Info,
                message: Message::UnsafeApi { name: String::from("fromRawParts") },
            },
            ReportLine { level: Level::Warn, message: Message::UnsafeApi { name: String::from("setLen") } },
            ReportLine {
                level: Level::Warn,
                message: Message::FailedArgument { index: 1, contracts: names(&["len<=capacity"]) },
            },
            ReportLine {
                level: Level::Warn,
                message: Message::FailedArgument { index: 0, contracts: names(&["A", "B"]) },
            },
        ]
    );
}

#[test]
fn show_annotate_results_names_the_function_then_what_it_lacks() {
    let (program, _) = set_len_program();
    let lines = SenryxCheck::show_annotate_results(&program, 0, names(&["len<=capacity"]));
    assert_eq!(
        lines,
        vec![
            ReportLine { level: Level::Info, message: Message::UnsafeFunction { name: String::from("f") } },
            ReportLine {
                level: Level::Warn,
                message: Message::MissingAnnotations { contracts: names(&["len<=capacity"]) },
            },
        ]
    );
    let unknown = SenryxCheck::show_annotate_results(&program, 5, names(&[]));
    assert_eq!(
        unknown[0],
        ReportLine { level: Level::Info, message: Message::UnsafeFunction { name: String::new() } }
    );
}

#[test]
fn a_report_renders_itself() {
    let (program, catalog) = set_len_program();
    let mut check = SenryxCheck::new(program, catalog, 2);
    let reports = check.start(CheckLevel::High, false);
    assert_eq!(reports.len(), 1);
    let lines = reports[0].lines(check.program());
    assert_eq!(
        lines,
        SenryxCheck::show_annotate_results(check.program(), 0, names(&["len<=capacity"]))
    );
}

#[test]
fn a_contract_that_matches_is_never_among_the_failed_ones() {
    // the second argument carries fact 1 only
    let g = function(
        "g",
        true,
        Unsafety::ContainsUnsafeBlock,
        3,
        vec![
            branch(vec![Edge { target: 1, value: 2, facts: fact(LEN_LE_CAPACITY) }]),
            call(1, vec![1, 2], 0, Some(2)),
            ret(),
        ],
    );
    let program = Program::new(vec![g, api("fromRawParts")]).unwrap();
    let contracts = vec![
        contract("NonNull", NON_NULL),
        contract("len<=capacity", LEN_LE_CAPACITY),
        SafetyContract { name: String::from("Either"), matcher: Matcher::Any(fact(0).union(fact(1))) },
        SafetyContract { name: String::from("Both"), matcher: Matcher::All(fact(0).union(fact(1))) },
    ];
    let requirements = (0..4).map(|c| Requirement { param: 1, contract: c }).collect();
    let catalog = Catalog::new(contracts, vec![ApiEntry { api: 1, requirements }]).unwrap();
    let mut check = SenryxCheck::new(program, catalog, 0);
    let map = resolve(check.program());
    let results = check.body_visit_and_check(0, &map);
    assert_eq!(results.len(), 1);
    assert_eq!(results[0].failed_contracts, vec![(1, names(&["NonNull", "Both"]))]);
    let known = fact(LEN_LE_CAPACITY);
    for id in 0..4 {
        let contract = check.catalog().contract(id).unwrap();
        let failed = results[0].failed_contracts[0].1.contains(&contract.name);
        assert_eq!(failed, !contract.matches(known));
    }
}

#[test]
fn the_two_modes_have_their_own_conditions() {
    let wrapper_fn = function(
        "wrapper",
        true,
        Unsafety::ContainsUnsafeBlock,
        2,
        vec![call(3, vec![1], 0, Some(1)), ret()],
    );
    let unsafe_fn = function(
        "raw",
        true,
        Unsafety::FullyUnsafe,
        2,
        vec![call(3, vec![1], 0, Some(1)), ret()],
    );
    let safe_fn = function("safe", true, Unsafety::Safe, 2, vec![call(3, vec![1], 0, Some(1)), ret()]);
    let idle = function("idle", true, Unsafety::ContainsUnsafeBlock, 1, vec![ret()]);
    let program =
        Program::new(vec![wrapper_fn, unsafe_fn, safe_fn, api("deref"), idle]).unwrap();
    let catalog = Catalog::new(vec![], vec![]).unwrap();
    let check = SenryxCheck::new(program, catalog, 0);
    let map = resolve(check.program());
    let verifiable: Vec<bool> = (0..6).map(|f| check.eligible_for_verification(f, &map)).collect();
    let lintable: Vec<bool> = (0..6).map(|f| check.eligible_for_lint(f, &map)).collect();
    assert_eq!(verifiable, vec![true, false, false, false, false, false]);
    assert_eq!(lintable, vec![false, true, false, false, false, false]);
}

#[test]
fn a_guarded_call_through_a_pointer_makes_a_function_eligible() {
    let f = Function {
        name: String::from("f"),
        public: true,
        unsafety: Unsafety::ContainsUnsafeBlock,
        kind: FnKind::Plain,
        guarded_api: false,
        body: Some(Body {
            locals: 3,
            blocks: vec![
                Block {
                    statements: vec![Statement::FnRef { dst: 2, function: 1 }],
                    terminator: Terminator::Call {
                        callee: Callee::Indirect(2),
                        args: vec![1],
                        dest: 0,
                        target: Some(1),
                    },
                },
                ret(),
            ],
        }),
    };
    let program = Program::new(vec![f, api("deref")]).unwrap();
    let catalog = Catalog::new(
        vec![contract("NonNull", NON_NULL)],
        vec![ApiEntry { api: 1, requirements: vec![Requirement { param: 0, contract: 0 }] }],
    )
    .unwrap();
    let mut check = SenryxCheck::new(program, catalog, 0);
    let reports = check.start(CheckLevel::High, true);
    assert_eq!(
        reports,
        vec![Report::Soundness {
            function: 0,
            results: vec![CheckResult {
                func_name: String::from("deref"),
                failed_contracts: vec![(0, names(&["NonNull"]))],
            }],
        }]
    );
}

#[test]
fn turning_the_cache_off_changes_nothing_but_what_is_recorded() {
    let build = || {
        let top = function(
            "top",
            true,
            Unsafety::ContainsUnsafeBlock,
            2,
            vec![call(1, vec![], 1, Some(1)), call(2, vec![1], 0, Some(2)), ret()],
        );
        let make = Function {
            name: String::from("make"),
            public: false,
            unsafety: Unsafety::Safe,
            kind: FnKind::Plain,
            guarded_api: false,
            body: Some(Body {
                locals: 1,
                blocks: vec![Block {
                    statements: vec![Statement::Define { dst: 0, facts: fact(NON_NULL) }],
                    terminator: Terminator::Return,
                }],
            }),
        };
        let program = Program::new(vec![top, make, api("deref")]).unwrap();
        let catalog = Catalog::new(
            vec![contract("NonNull", NON_NULL), contract("Aligned", 9)],
            vec![ApiEntry {
                api: 2,
                requirements: vec![
                    Requirement { param: 0, contract: 0 },
                    Requirement { param: 0, contract: 1 },
                ],
            }],
        )
        .unwrap();
        SenryxCheck::new(program, catalog, 0)
    };
    let mut cached = build();
    assert!(cached.caching());
    let mut uncached = build();
    uncached.set_caching(false);
    assert!(!uncached.caching());
    let map = resolve(cached.program());
    let with = cached.body_visit_and_check(0, &map);
    let without = uncached.body_visit_and_check(0, &map);
    assert_eq!(with, without);
    assert_eq!(
        with,
        vec![CheckResult {
            func_name: String::from("deref"),
            failed_contracts: vec![(0, names(&["Aligned"]))],
        }]
    );
    assert!(cached.global_recorder().get(1).is_some());
    assert!(uncached.global_recorder().get(1).is_none());
    assert_eq!(cached.start(CheckLevel::Low, true), uncached.start(CheckLevel::Low, true));
    assert!(uncached.global_recorder().get(1).is_none());
}
