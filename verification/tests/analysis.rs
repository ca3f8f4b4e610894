use senryx::catalog::{ApiEntry, Catalog, Matcher, Requirement, SafetyContract};
use senryx::driver::{BodyAnalysis, FieldStateMerger, SenryxCheck};
use senryx::facts::FactSet;
use senryx::inter_record::{InterAnalysisRecord, Lookup, Recorder};
use senryx::order::walk_order_of;
use senryx::program::{
    Block, Body, Callee, Edge, FnKind, Function, Program, Statement, Terminator, Unsafety,
};
use senryx::resolver::resolve;
use senryx::summary::get_or_compute;
use senryx::visitor::CheckResult;

fn bit(n: u8) -> FactSet {
    FactSet::empty().insert(n).unwrap()
}

fn guarded(name: &str) -> Function {
    Function {
        name: String::from(name),
        public: true,
        unsafety: Unsafety::FullyUnsafe,
        kind: FnKind::Plain,
        guarded_api: true,
        body: None,
    }
}

fn wrapper(name: &str, locals: usize, blocks: Vec<Block>) -> Function {
    Function {
        name: String::from(name),
        public: true,
        unsafety: Unsafety::ContainsUnsafeBlock,
        kind: FnKind::Plain,
        guarded_api: false,
        body: Some(Body { locals, blocks }),
    }
}

fn block(statements: Vec<Statement>, terminator: Terminator) -> Block {
    Block { statements, terminator }
}

fn direct(callee: usize, args: Vec<usize>, dest: usize, target: Option<usize>) -> Terminator {
    Terminator::Call { callee: Callee::Direct(callee), args, dest, target }
}

fn through(local: usize, args: Vec<usize>, dest: usize, target: Option<usize>) -> Terminator {
    Terminator::Call { callee: Callee::Indirect(local), args, dest, target }
}

fn jump(targets: &[usize]) -> Terminator {
    Terminator::Branch {
        edges: targets
            .iter()
            .map(|t| Edge { target: *t, value: 0, facts: FactSet::empty() })
            .collect(),
    }
}

fn learn(target: usize, value: usize, facts: FactSet) -> Edge {
    Edge { target, value, facts }
}

fn all_of(name: &str, facts: FactSet) -> SafetyContract {
    SafetyContract { name: String::from(name), matcher: Matcher::All(facts) }
}

fn any_of(name: &str, facts: FactSet) -> SafetyContract {
    SafetyContract { name: String::from(name), matcher: Matcher::Any(facts) }
}

fn on(param: usize, contract: usize) -> Requirement {
    Requirement { param, contract }
}

fn strings(list: &[&str]) -> Vec<String> {
    list.iter().map(|s| String::from(*s)).collect()
}

fn result(name: &str, failed: Vec<(usize, Vec<String>)>) -> CheckResult {
    CheckResult { func_name: String::from(name), failed_contracts: failed }
}

fn analyse(functions: Vec<Function>, catalog: Catalog, f: usize) -> BodyAnalysis {
    let mut check = SenryxCheck::new(Program::new(functions).unwrap(), catalog, 0);
    let map = resolve(check.program());
    check.path_forward_check(f, &map)
}

/// A catalog in which API `api` asks for fact 0 of its first argument.
fn non_null_on(api: usize) -> Catalog {
    Catalog::new(
        vec![all_of("NonNull", bit(0))],
        vec![ApiEntry { api, requirements: vec![on(0, 0)] }],
    )
    .unwrap()
}

#[test]
fn a_named_callee_is_the_only_target() {
    let f = wrapper(
        "f",
        2,
        vec![block(vec![], direct(1, vec![1], 0, Some(1))), block(vec![], Terminator::Return)],
    );
    let program = Program::new(vec![f, guarded("api")]).unwrap();
    let map = resolve(&program);
    assert_eq!(map.targets(0, 0), Some(&vec![1]));
    assert_eq!(map.targets(0, 1), Some(&vec![]));
    assert_eq!(map.targets(0, 2), None);
    assert_eq!(map.targets(1, 0), None);
    assert_eq!(map.targets(2, 0), None);
    assert_eq!(map.blocks(0), 2);
    assert_eq!(map.blocks(1), 0);
    assert_eq!(map.blocks(5), 0);
}

#[test]
fn a_call_through_a_local_follows_the_copies_back() {
    // locals 1 and 3 hold function pointers, local 2 is copied from both
    let f = wrapper(
        "f",
        5,
        vec![
            block(
                vec![
                    Statement::FnRef { dst: 1, function: 2 },
                    Statement::FnRef { dst: 3, function: 1 },
                    Statement::Copy { dst: 2, src: 1 },
                ],
                through(2, vec![], 0, Some(1)),
            ),
            block(vec![Statement::Copy { dst: 2, src: 3 }], through(1, vec![], 0, Some(2))),
            block(vec![], through(4, vec![], 0, Some(3))),
            block(vec![], Terminator::Return),
        ],
    );
    let program = Program::new(vec![f, guarded("one"), guarded("two")]).unwrap();
    let map = resolve(&program);
    // copies count wherever they stand in the body
    assert_eq!(map.targets(0, 0), Some(&vec![1, 2]));
    assert_eq!(map.targets(0, 1), Some(&vec![2]));
    // nothing is ever stored in local 4
    assert_eq!(map.targets(0, 2), Some(&vec![]));
}

#[test]
fn copies_do_not_flow_against_their_direction() {
    let f = wrapper(
        "f",
        3,
        vec![
            block(
                vec![Statement::FnRef { dst: 2, function: 1 }, Statement::Copy { dst: 2, src: 1 }],
                through(1, vec![], 0, Some(1)),
            ),
            block(vec![], Terminator::Return),
        ],
    );
    let program = Program::new(vec![f, guarded("one")]).unwrap();
    let map = resolve(&program);
    assert_eq!(map.targets(0, 0), Some(&vec![]));
}

#[test]
fn functions_that_depend_on_themselves_are_flagged() {
    let this = wrapper(
        "this",
        1,
        vec![block(vec![], direct(0, vec![], 0, Some(1))), block(vec![], Terminator::Return)],
    );
    let ping = wrapper(
        "ping",
        1,
        vec![block(vec![], direct(2, vec![], 0, Some(1))), block(vec![], Terminator::Return)],
    );
    let pong = wrapper(
        "pong",
        1,
        vec![block(vec![], direct(1, vec![], 0, Some(1))), block(vec![], Terminator::Return)],
    );
    let above = wrapper(
        "above",
        1,
        vec![block(vec![], direct(1, vec![], 0, Some(1))), block(vec![], Terminator::Return)],
    );
    let leaf = wrapper("leaf", 1, vec![block(vec![], Terminator::Return)]);
    let program = Program::new(vec![this, ping, pong, above, leaf, guarded("api")]).unwrap();
    let map = resolve(&program);
    assert!(map.is_recursive(0));
    assert!(map.is_recursive(1));
    assert!(map.is_recursive(2));
    assert!(!map.is_recursive(3));
    assert!(!map.is_recursive(4));
    assert!(!map.is_recursive(5));
    assert!(!map.is_recursive(6));
}

#[test]
fn a_constructor_that_calls_the_method_makes_both_depend_on_themselves() {
    let mut method = wrapper("T::get", 2, vec![block(vec![], Terminator::Return)]);
    method.kind = FnKind::Method { constructors: vec![1] };
    let ctor = wrapper(
        "T::new",
        2,
        vec![block(vec![], direct(0, vec![1], 0, Some(1))), block(vec![], Terminator::Return)],
    );
    let program = Program::new(vec![method, ctor]).unwrap();
    let map = resolve(&program);
    assert!(map.is_recursive(0));
    assert!(map.is_recursive(1));
}

#[test]
fn the_walk_takes_a_diamond_in_reverse_postorder() {
    let f = wrapper(
        "f",
        1,
        vec![
            block(vec![], jump(&[1, 2])),
            block(vec![], jump(&[3])),
            block(vec![], jump(&[3])),
            block(vec![], Terminator::Return),
        ],
    );
    let program = Program::new(vec![f]).unwrap();
    assert_eq!(walk_order_of(&program, 0), vec![0, 2, 1, 3]);
}

#[test]
fn the_walk_takes_a_loop_header_before_its_body() {
    let f = wrapper(
        "f",
        1,
        vec![
            block(vec![], jump(&[1])),
            block(vec![], jump(&[2, 3])),
            block(vec![], jump(&[1])),
            block(vec![], Terminator::Return),
        ],
    );
    let program = Program::new(vec![f]).unwrap();
    assert_eq!(walk_order_of(&program, 0), vec![0, 1, 3, 2]);
}

#[test]
fn the_walk_leaves_out_blocks_that_cannot_be_reached() {
    let f = wrapper(
        "f",
        1,
        vec![block(vec![], Terminator::Return), block(vec![], Terminator::Return)],
    );
    let program = Program::new(vec![f, guarded("api")]).unwrap();
    assert_eq!(walk_order_of(&program, 0), vec![0]);
    assert_eq!(walk_order_of(&program, 1), vec![]);
    assert_eq!(walk_order_of(&program, 2), vec![]);
}

#[test]
fn the_walk_follows_a_call_to_its_continuation() {
    let f = wrapper(
        "f",
        1,
        vec![
            block(vec![], direct(1, vec![], 0, Some(2))),
            block(vec![], Terminator::Return),
            block(vec![], direct(1, vec![], 0, None)),
        ],
    );
    let program = Program::new(vec![f, guarded("api")]).unwrap();
    assert_eq!(walk_order_of(&program, 0), vec![0, 2]);
}

fn diamond(left: FactSet, right: FactSet) -> Vec<Function> {
    vec![
        wrapper(
            "g",
            2,
            vec![
                block(
                    vec![],
                    Terminator::Branch { edges: vec![learn(1, 1, left), learn(2, 1, right)] },
                ),
                block(vec![], jump(&[3])),
                block(vec![], jump(&[3])),
                block(vec![], direct(1, vec![1], 0, Some(4))),
                block(vec![], Terminator::Return),
            ],
        ),
        guarded("deref"),
    ]
}

#[test]
fn a_fact_survives_a_join_only_if_it_holds_on_every_path() {
    let one_side = analyse(diamond(bit(0), FactSet::empty()), non_null_on(1), 0);
    assert_eq!(one_side.check_results, vec![result("deref", vec![(0, strings(&["NonNull"]))])]);
    let other_side = analyse(diamond(FactSet::empty(), bit(0)), non_null_on(1), 0);
    assert_eq!(other_side.check_results, vec![result("deref", vec![(0, strings(&["NonNull"]))])]);
    let both = analyse(diamond(bit(0), bit(0).union(bit(3))), non_null_on(1), 0);
    assert_eq!(both.check_results, vec![result("deref", vec![])]);
    let different = analyse(diamond(bit(1), bit(0)), non_null_on(1), 0);
    assert_eq!(different.check_results, vec![result("deref", vec![(0, strings(&["NonNull"]))])]);
}

#[test]
fn an_edge_back_to_a_walked_block_hands_on_nothing() {
    let f = wrapper(
        "f",
        2,
        vec![
            block(vec![], Terminator::Branch { edges: vec![learn(1, 1, bit(0))] }),
            block(vec![], direct(1, vec![1], 0, Some(2))),
            block(
                vec![Statement::Define { dst: 1, facts: FactSet::empty() }],
                jump(&[1, 3]),
            ),
            block(vec![], Terminator::Return),
        ],
    );
    let analysis = analyse(vec![f, guarded("deref")], non_null_on(1), 0);
    assert_eq!(analysis.check_results, vec![result("deref", vec![])]);
}

#[test]
fn statements_move_set_and_clear_facts() {
    let build = |statements: Vec<Statement>| {
        vec![
            wrapper(
                "f",
                4,
                vec![
                    block(vec![], Terminator::Branch { edges: vec![learn(1, 1, bit(0))] }),
                    block(statements, direct(1, vec![2], 0, Some(2))),
                    block(vec![], Terminator::Return),
                ],
            ),
            guarded("deref"),
        ]
    };
    let ok = result("deref", vec![]);
    let failed = result("deref", vec![(0, strings(&["NonNull"]))]);
    // local 2 is never written
    assert_eq!(analyse(build(vec![]), non_null_on(1), 0).check_results, vec![failed]);
    // a copy hands the facts on
    let copied = build(vec![Statement::Copy { dst: 2, src: 1 }]);
    assert_eq!(analyse(copied, non_null_on(1), 0).check_results, vec![ok]);
    // a copy of a copy too
    let twice = build(vec![Statement::Copy { dst: 3, src: 1 }, Statement::Copy { dst: 2, src: 3 }]);
    assert_eq!(
        analyse(twice, non_null_on(1), 0).check_results,
        vec![result("deref", vec![])]
    );
    // a later definition replaces what was known
    let redefined = build(vec![
        Statement::Copy { dst: 2, src: 1 },
        Statement::Define { dst: 2, facts: bit(5) },
    ]);
    assert_eq!(
        analyse(redefined, non_null_on(1), 0).check_results,
        vec![result("deref", vec![(0, strings(&["NonNull"]))])]
    );
    // a definition can establish the fact
    let defined = build(vec![Statement::Define { dst: 2, facts: bit(0) }]);
    assert_eq!(
        analyse(defined, non_null_on(1), 0).check_results,
        vec![result("deref", vec![])]
    );
    // of a function pointer nothing is known
    let pointer = build(vec![
        Statement::Copy { dst: 2, src: 1 },
        Statement::FnRef { dst: 2, function: 1 },
    ]);
    assert_eq!(
        analyse(pointer, non_null_on(1), 0).check_results,
        vec![result("deref", vec![(0, strings(&["NonNull"]))])]
    );
    // the copy is taken when the statement is reached: a later change of the
    // source does not reach it
    let stale = build(vec![
        Statement::Copy { dst: 2, src: 1 },
        Statement::Define { dst: 1, facts: FactSet::empty() },
    ]);
    assert_eq!(
        analyse(stale, non_null_on(1), 0).check_results,
        vec![result("deref", vec![])]
    );
}

#[test]
fn an_api_without_an_entry_has_no_failed_contract() {
    let f = wrapper(
        "f",
        2,
        vec![block(vec![], direct(1, vec![1], 0, Some(1))), block(vec![], Terminator::Return)],
    );
    let catalog = Catalog::new(vec![all_of("NonNull", bit(0))], vec![]).unwrap();
    let analysis = analyse(vec![f, guarded("mystery")], catalog, 0);
    assert_eq!(analysis.check_results, vec![result("mystery", vec![])]);
    assert_eq!(analysis.unresolved_calls, vec![]);
}

#[test]
fn failed_contracts_are_listed_by_argument_then_in_the_order_of_the_entry() {
    let f = wrapper(
        "f",
        4,
        vec![
            block(
                vec![],
                Terminator::Branch { edges: vec![learn(1, 2, bit(1)), learn(1, 3, bit(7))] },
            ),
            block(vec![], direct(1, vec![1, 2, 3], 0, Some(2))),
            block(vec![], Terminator::Return),
        ],
    );
    let catalog = Catalog::new(
        vec![
            all_of("NonNull", bit(0)),
            all_of("Aligned", bit(1)),
            all_of("Init", bit(2)),
            any_of("Bounded", bit(7).union(bit(8))),
            any_of("Never", FactSet::empty()),
            all_of("Always", FactSet::empty()),
        ],
        vec![ApiEntry {
            api: 1,
            requirements: vec![
                on(2, 3),
                on(0, 2),
                on(1, 1),
                on(0, 0),
                on(1, 0),
                on(2, 4),
                on(1, 5),
                on(9, 0),
                on(2, 2),
            ],
        }],
    )
    .unwrap();
    let analysis = analyse(vec![f, guarded("copy")], catalog, 0);
    // only the first of the two edges to block 1 is taken into the state of
    // block 1 together with the second: local 2 holds fact 1 on one edge only
    assert_eq!(
        analysis.check_results,
        vec![result(
            "copy",
            vec![
                (0, strings(&["Init", "NonNull"])),
                (1, strings(&["Aligned", "NonNull"])),
                (2, strings(&["Bounded", "Never", "Init"])),
            ]
        )]
    );
}

#[test]
fn any_of_is_met_by_one_of_its_facts() {
    let f = wrapper(
        "f",
        3,
        vec![
            block(vec![], Terminator::Branch { edges: vec![learn(1, 1, bit(8))] }),
            block(vec![], direct(1, vec![1, 2], 0, Some(2))),
            block(vec![], Terminator::Return),
        ],
    );
    let catalog = Catalog::new(
        vec![any_of("Bounded", bit(7).union(bit(8)))],
        vec![ApiEntry { api: 1, requirements: vec![on(0, 0), on(1, 0)] }],
    )
    .unwrap();
    let analysis = analyse(vec![f, guarded("index")], catalog, 0);
    assert_eq!(analysis.check_results, vec![result("index", vec![(1, strings(&["Bounded"]))])]);
}

#[test]
fn a_call_without_a_known_target_is_recorded_and_nothing_is_said_of_it() {
    let f = wrapper(
        "f",
        3,
        vec![
            block(vec![], through(1, vec![2], 0, Some(1))),
            block(vec![], direct(1, vec![2], 0, Some(2))),
            block(vec![], through(2, vec![], 0, None)),
        ],
    );
    let analysis = analyse(vec![f, guarded("deref")], non_null_on(1), 0);
    assert_eq!(analysis.check_results, vec![result("deref", vec![(0, strings(&["NonNull"]))])]);
    assert_eq!(analysis.unresolved_calls, vec![0, 2]);
}

#[test]
fn every_guarded_target_of_a_call_is_checked() {
    let f = wrapper(
        "f",
        3,
        vec![
            block(
                vec![
                    Statement::FnRef { dst: 1, function: 3 },
                    Statement::FnRef { dst: 1, function: 1 },
                    Statement::FnRef { dst: 1, function: 2 },
                ],
                through(1, vec![2], 0, Some(1)),
            ),
            block(vec![], Terminator::Return),
        ],
    );
    let helper = wrapper("helper", 1, vec![block(vec![], Terminator::Return)]);
    let catalog = Catalog::new(
        vec![all_of("NonNull", bit(0)), all_of("Aligned", bit(1))],
        vec![
            ApiEntry { api: 3, requirements: vec![on(0, 1)] },
            ApiEntry { api: 1, requirements: vec![on(0, 0)] },
        ],
    )
    .unwrap();
    let analysis = analyse(vec![f, guarded("first"), helper, guarded("third")], catalog, 0);
    assert_eq!(
        analysis.check_results,
        vec![
            result("first", vec![(0, strings(&["NonNull"]))]),
            result("third", vec![(0, strings(&["Aligned"]))]),
        ]
    );
    assert_eq!(analysis.unresolved_calls, vec![]);
}

#[test]
fn guarded_calls_are_reported_in_the_order_of_the_walk() {
    let f = wrapper(
        "f",
        2,
        vec![
            block(vec![], jump(&[1, 2])),
            block(vec![], direct(1, vec![1], 0, Some(3))),
            block(vec![], direct(2, vec![1], 0, Some(3))),
            block(vec![], Terminator::Return),
        ],
    );
    let catalog = Catalog::new(vec![], vec![]).unwrap();
    let analysis = analyse(vec![f, guarded("left"), guarded("right")], catalog, 0);
    assert_eq!(analysis.check_results, vec![result("right", vec![]), result("left", vec![])]);
}

/// `top` hands what `make` returns to `deref`.
fn caller_of(make: Function) -> Vec<Function> {
    vec![
        wrapper(
            "top",
            2,
            vec![
                block(vec![], direct(1, vec![], 1, Some(1))),
                block(vec![], direct(2, vec![1], 0, Some(2))),
                block(vec![], Terminator::Return),
            ],
        ),
        make,
        guarded("deref"),
    ]
}

#[test]
fn a_callee_contributes_what_holds_at_every_return() {
    let always = wrapper(
        "make",
        2,
        vec![
            block(vec![], jump(&[1, 2])),
            block(vec![Statement::Define { dst: 0, facts: bit(0) }], Terminator::Return),
            block(
                vec![Statement::Define { dst: 0, facts: bit(0).union(bit(4)) }],
                Terminator::Return,
            ),
        ],
    );
    assert_eq!(
        analyse(caller_of(always), non_null_on(2), 0).check_results,
        vec![result("deref", vec![])]
    );
    let sometimes = wrapper(
        "make",
        2,
        vec![
            block(vec![], jump(&[1, 2])),
            block(vec![Statement::Define { dst: 0, facts: bit(0) }], Terminator::Return),
            block(vec![Statement::Define { dst: 0, facts: bit(4) }], Terminator::Return),
        ],
    );
    assert_eq!(
        analyse(caller_of(sometimes), non_null_on(2), 0).check_results,
        vec![result("deref", vec![(0, strings(&["NonNull"]))])]
    );
    let never_returns = wrapper("make", 1, vec![block(vec![], jump(&[0]))]);
    assert_eq!(
        analyse(caller_of(never_returns), non_null_on(2), 0).check_results,
        vec![result("deref", vec![(0, strings(&["NonNull"]))])]
    );
}

#[test]
fn a_call_overwrites_what_was_known_of_its_destination() {
    let silent = wrapper("make", 1, vec![block(vec![], Terminator::Return)]);
    let mut functions = caller_of(silent);
    functions[0] = wrapper(
        "top",
        2,
        vec![
            block(vec![Statement::Define { dst: 1, facts: bit(0) }], direct(1, vec![], 1, Some(1))),
            block(vec![], direct(2, vec![1], 0, Some(2))),
            block(vec![], Terminator::Return),
        ],
    );
    assert_eq!(
        analyse(functions, non_null_on(2), 0).check_results,
        vec![result("deref", vec![(0, strings(&["NonNull"]))])]
    );
}

#[test]
fn a_callee_that_depends_on_itself_contributes_nothing() {
    let looping = wrapper(
        "make",
        1,
        vec![
            block(vec![], jump(&[1, 2])),
            block(vec![], direct(1, vec![], 0, Some(2))),
            block(vec![Statement::Define { dst: 0, facts: bit(0) }], Terminator::Return),
        ],
    );
    assert_eq!(
        analyse(caller_of(looping), non_null_on(2), 0).check_results,
        vec![result("deref", vec![(0, strings(&["NonNull"]))])]
    );
}

#[test]
fn a_function_that_depends_on_itself_is_still_walked() {
    // `make` calls itself and hands the result to `deref`: the call to itself
    // contributes nothing, whichever function is asked for first
    let make = wrapper(
        "make",
        2,
        vec![
            block(vec![], direct(0, vec![], 1, Some(1))),
            block(vec![Statement::Define { dst: 0, facts: bit(0) }], direct(1, vec![1], 0, Some(2))),
            block(vec![], Terminator::Return),
        ],
    );
    let analysis = analyse(vec![make, guarded("deref")], non_null_on(1), 0);
    assert_eq!(analysis.check_results, vec![result("deref", vec![(0, strings(&["NonNull"]))])]);
}

#[test]
fn a_guarded_api_contributes_nothing_even_with_a_body() {
    let mut open = wrapper(
        "make",
        1,
        vec![block(vec![Statement::Define { dst: 0, facts: bit(0) }], Terminator::Return)],
    );
    open.guarded_api = true;
    let analysis = analyse(caller_of(open), non_null_on(2), 0);
    assert_eq!(
        analysis.check_results,
        vec![result("make", vec![]), result("deref", vec![(0, strings(&["NonNull"]))])]
    );
}

#[test]
fn several_targets_contribute_what_all_of_them_establish() {
    let build = |second: FactSet| {
        vec![
            wrapper(
                "top",
                3,
                vec![
                    block(
                        vec![
                            Statement::FnRef { dst: 2, function: 1 },
                            Statement::FnRef { dst: 2, function: 2 },
                        ],
                        through(2, vec![], 1, Some(1)),
                    ),
                    block(vec![], direct(3, vec![1], 0, Some(2))),
                    block(vec![], Terminator::Return),
                ],
            ),
            wrapper(
                "one",
                1,
                vec![block(
                    vec![Statement::Define { dst: 0, facts: bit(0).union(bit(1)) }],
                    Terminator::Return,
                )],
            ),
            wrapper(
                "two",
                1,
                vec![block(vec![Statement::Define { dst: 0, facts: second }], Terminator::Return)],
            ),
            guarded("deref"),
        ]
    };
    assert_eq!(
        analyse(build(bit(0)), non_null_on(3), 0).check_results,
        vec![result("deref", vec![])]
    );
    assert_eq!(
        analyse(build(bit(1)), non_null_on(3), 0).check_results,
        vec![result("deref", vec![(0, strings(&["NonNull"]))])]
    );
}

fn method_with(constructors: Vec<usize>) -> Vec<Function> {
    let mut method = wrapper(
        "Buf::first",
        2,
        vec![block(vec![], direct(3, vec![1], 0, Some(1))), block(vec![], Terminator::Return)],
    );
    method.kind = FnKind::Method { constructors };
    vec![
        method,
        wrapper(
            "Buf::new",
            1,
            vec![block(
                vec![Statement::Define { dst: 0, facts: bit(0).union(bit(2)) }],
                Terminator::Return,
            )],
        ),
        wrapper(
            "Buf::with_capacity",
            1,
            vec![block(vec![Statement::Define { dst: 0, facts: bit(0) }], Terminator::Return)],
        ),
        guarded("deref"),
        wrapper("Buf::unknown", 1, vec![block(vec![], Terminator::Return)]),
    ]
}

fn check_method(constructors: Vec<usize>, merger: Option<FieldStateMerger>) -> Vec<CheckResult> {
    let program = Program::new(method_with(constructors)).unwrap();
    let mut check = match merger {
        Some(m) => SenryxCheck::with_merger(program, non_null_on(3), 0, m),
        None => SenryxCheck::new(program, non_null_on(3), 0),
    };
    let map = resolve(check.program());
    check.body_visit_and_check(0, &map)
}

#[test]
fn a_single_constructor_seeds_the_receiver() {
    assert_eq!(check_method(vec![1], None), vec![result("deref", vec![])]);
    assert_eq!(
        check_method(vec![4], None),
        vec![result("deref", vec![(0, strings(&["NonNull"]))])]
    );
    assert_eq!(
        check_method(vec![], None),
        vec![result("deref", vec![(0, strings(&["NonNull"]))])]
    );
}

#[test]
fn several_constructors_seed_nothing_without_a_merger() {
    assert_eq!(
        check_method(vec![1, 2], None),
        vec![result("deref", vec![(0, strings(&["NonNull"]))])]
    );
}

#[test]
fn a_merger_keeps_what_every_constructor_establishes() {
    let merger = Some(FieldStateMerger::Intersection);
    assert_eq!(check_method(vec![1, 2], merger), vec![result("deref", vec![])]);
    assert_eq!(
        check_method(vec![1, 2, 4], merger),
        vec![result("deref", vec![(0, strings(&["NonNull"]))])]
    );
    assert_eq!(check_method(vec![2], merger), vec![result("deref", vec![])]);
}

#[test]
fn the_cache_goes_from_miss_to_busy_to_hit() {
    let mut recorder = Recorder::new(3);
    assert_eq!(recorder.len(), 3);
    assert_eq!(recorder.get(1), None);
    assert_eq!(recorder.begin(1), Lookup::Miss);
    assert_eq!(recorder.begin(1), Lookup::Busy);
    assert_eq!(recorder.get(1), None);
    let record = InterAnalysisRecord { returned: bit(3) };
    recorder.settle(1, record);
    assert_eq!(recorder.begin(1), Lookup::Hit(record));
    assert_eq!(recorder.get(1), Some(record));
    assert_eq!(recorder.get(0), None);
    assert_eq!(recorder.begin(0), Lookup::Miss);
}

#[test]
fn the_cache_never_marks_a_function_it_has_no_room_for() {
    let mut recorder = Recorder::new(1);
    assert_eq!(recorder.begin(1), Lookup::Miss);
    assert_eq!(recorder.begin(1), Lookup::Miss);
    recorder.settle(1, InterAnalysisRecord { returned: bit(0) });
    assert_eq!(recorder.get(1), None);
    assert_eq!(recorder.begin(4), Lookup::Miss);
}

#[test]
fn get_or_compute_stores_what_it_finds() {
    let make = wrapper(
        "make",
        1,
        vec![block(vec![Statement::Define { dst: 0, facts: bit(0) }], Terminator::Return)],
    );
    let program = Program::new(caller_of(make)).unwrap();
    let map = resolve(&program);
    let mut recorder = Recorder::new(program.len());
    let record = get_or_compute(&program, &map, false, &mut recorder, 1);
    assert_eq!(record, InterAnalysisRecord { returned: bit(0) });
    assert_eq!(recorder.get(1), Some(record));
    assert_eq!(recorder.get(0), None);
    // a second request is answered from the cache
    assert_eq!(get_or_compute(&program, &map, false, &mut recorder, 1), record);
    // a caller's record rests on those of its callees
    let top = get_or_compute(&program, &map, false, &mut recorder, 0);
    assert_eq!(top, InterAnalysisRecord { returned: FactSet::empty() });
    assert_eq!(recorder.get(0), Some(top));
    // nothing is stored for a guarded API or for a function that is not there
    let api = get_or_compute(&program, &map, false, &mut recorder, 2);
    assert_eq!(api, InterAnalysisRecord { returned: FactSet::empty() });
    assert_eq!(recorder.get(2), None);
    let nowhere = get_or_compute(&program, &map, false, &mut recorder, 3);
    assert_eq!(nowhere, InterAnalysisRecord { returned: FactSet::empty() });
}

#[test]
fn get_or_compute_gives_nothing_for_a_function_that_depends_on_itself() {
    let ping = wrapper(
        "ping",
        1,
        vec![
            block(vec![Statement::Define { dst: 0, facts: bit(0) }], direct(1, vec![], 0, Some(1))),
            block(vec![Statement::Define { dst: 0, facts: bit(0) }], Terminator::Return),
        ],
    );
    let pong = wrapper(
        "pong",
        1,
        vec![
            block(vec![], direct(0, vec![], 0, Some(1))),
            block(vec![Statement::Define { dst: 0, facts: bit(0) }], Terminator::Return),
        ],
    );
    let program = Program::new(vec![ping, pong]).unwrap();
    let map = resolve(&program);
    let mut recorder = Recorder::new(2);
    let nothing = InterAnalysisRecord { returned: FactSet::empty() };
    assert_eq!(get_or_compute(&program, &map, false, &mut recorder, 1), nothing);
    assert_eq!(get_or_compute(&program, &map, false, &mut recorder, 0), nothing);
    assert_eq!(recorder.get(0), None);
    assert_eq!(recorder.get(1), None);
}

/// Block 0 holds `statements`; on the way to the call in block 1 the facts of
/// `checked` are established of local `on`; the call hands local `arg` to the
/// API.
fn checked_after(statements: Vec<Statement>, on: usize, arg: usize) -> Vec<CheckResult> {
    let f = wrapper(
        "f",
        4,
        vec![
            block(statements, Terminator::Branch { edges: vec![learn(1, on, bit(0))] }),
            block(vec![], direct(1, vec![arg], 0, Some(2))),
            block(vec![], Terminator::Return),
        ],
    );
    analyse(vec![f, guarded("deref")], non_null_on(1), 0).check_results
}

#[test]
fn a_check_speaks_of_every_local_that_holds_the_same_value() {
    let ok = vec![result("deref", vec![])];
    let failed = vec![result("deref", vec![(0, strings(&["NonNull"]))])];
    // without a copy the locals have nothing to do with each other
    assert_eq!(checked_after(vec![], 1, 2), failed);
    assert_eq!(checked_after(vec![], 1, 1), ok);
    // the source is checked after the copy was taken
    assert_eq!(checked_after(vec![Statement::Copy { dst: 2, src: 1 }], 1, 2), ok);
    // the copy is checked, the source is used
    assert_eq!(checked_after(vec![Statement::Copy { dst: 2, src: 1 }], 2, 1), ok);
    // two copies of one source
    let siblings = vec![Statement::Copy { dst: 2, src: 1 }, Statement::Copy { dst: 3, src: 1 }];
    assert_eq!(checked_after(siblings, 2, 3), ok);
    // a copy of a copy
    let chain = vec![Statement::Copy { dst: 2, src: 1 }, Statement::Copy { dst: 3, src: 2 }];
    assert_eq!(checked_after(chain, 1, 3), ok);
    let chain = vec![Statement::Copy { dst: 2, src: 1 }, Statement::Copy { dst: 3, src: 2 }];
    assert_eq!(checked_after(chain, 3, 1), ok);
    // a copy of itself changes nothing
    let own = vec![Statement::Copy { dst: 2, src: 1 }, Statement::Copy { dst: 2, src: 2 }];
    assert_eq!(checked_after(own, 1, 2), ok);
}

#[test]
fn writing_a_local_ends_what_it_had_in_common_with_others() {
    let failed = vec![result("deref", vec![(0, strings(&["NonNull"]))])];
    let ok = vec![result("deref", vec![])];
    // the source is written after the copy was taken
    let source_written = vec![
        Statement::Copy { dst: 2, src: 1 },
        Statement::Define { dst: 1, facts: FactSet::empty() },
    ];
    assert_eq!(checked_after(source_written, 1, 2), failed);
    // the copy is written
    let copy_written = vec![
        Statement::Copy { dst: 2, src: 1 },
        Statement::FnRef { dst: 2, function: 1 },
    ];
    assert_eq!(checked_after(copy_written, 1, 2), failed);
    // the middle of a chain is written: its two ends part
    let middle_written = vec![
        Statement::Copy { dst: 2, src: 1 },
        Statement::Copy { dst: 3, src: 2 },
        Statement::Define { dst: 2, facts: FactSet::empty() },
    ];
    assert_eq!(checked_after(middle_written, 1, 3), failed);
    // the copy is taken anew from another source
    let retaken = vec![
        Statement::Copy { dst: 2, src: 1 },
        Statement::Copy { dst: 2, src: 3 },
    ];
    assert_eq!(checked_after(retaken, 1, 2), failed);
    let retaken = vec![
        Statement::Copy { dst: 2, src: 1 },
        Statement::Copy { dst: 2, src: 3 },
    ];
    assert_eq!(checked_after(retaken, 3, 2), ok);
}

#[test]
fn a_call_writes_its_destination() {
    let f = wrapper(
        "f",
        3,
        vec![
            block(vec![Statement::Copy { dst: 2, src: 1 }], direct(2, vec![], 1, Some(1))),
            block(vec![], Terminator::Branch { edges: vec![learn(2, 1, bit(0))] }),
            block(vec![], direct(1, vec![2], 0, Some(3))),
            block(vec![], Terminator::Return),
        ],
    );
    let helper = wrapper("helper", 1, vec![block(vec![], Terminator::Return)]);
    let analysis = analyse(vec![f, guarded("deref"), helper], non_null_on(1), 0);
    assert_eq!(analysis.check_results, vec![result("deref", vec![(0, strings(&["NonNull"]))])]);
}

#[test]
fn a_link_survives_a_join_only_if_it_holds_on_every_path() {
    let build = |left: Vec<Statement>, right: Vec<Statement>| {
        vec![
            wrapper(
                "g",
                4,
                vec![
                    block(vec![], jump(&[1, 2])),
                    block(left, jump(&[3])),
                    block(right, jump(&[3])),
                    block(vec![], Terminator::Branch { edges: vec![learn(4, 1, bit(0))] }),
                    block(vec![], direct(1, vec![2], 0, Some(5))),
                    block(vec![], Terminator::Return),
                ],
            ),
            guarded("deref"),
        ]
    };
    let copy = || vec![Statement::Copy { dst: 2, src: 1 }];
    let other = || vec![Statement::Copy { dst: 2, src: 3 }];
    let ok = vec![result("deref", vec![])];
    let failed = vec![result("deref", vec![(0, strings(&["NonNull"]))])];
    assert_eq!(analyse(build(copy(), copy()), non_null_on(1), 0).check_results, ok);
    assert_eq!(analyse(build(copy(), vec![]), non_null_on(1), 0).check_results, failed);
    assert_eq!(analyse(build(vec![], copy()), non_null_on(1), 0).check_results, failed);
    assert_eq!(analyse(build(copy(), other()), non_null_on(1), 0).check_results, failed);
}
