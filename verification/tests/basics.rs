use senryx::annotation::{collect, exercised_contracts};
use senryx::catalog::{ApiEntry, Catalog, Matcher, Requirement, SafetyContract};
use senryx::facts::{FactSet, FACT_LIMIT};
use senryx::program::{
    Block, Body, Callee, Edge, FnKind, Function, Program, Statement, Terminator, Unsafety,
};
use senryx::report::{
    annotation_report, check_report, copy_names, decimal, Level, Message, ReportLine,
};
use senryx::resolver::indices_of;
use senryx::visitor::CheckResult;
use senryx::walk::AbstractState;

fn set(facts: &[u8]) -> FactSet {
    let mut s = FactSet::empty();
    for f in facts {
        s = s.insert(*f).unwrap();
    }
    s
}

fn body_of(locals: usize, blocks: Vec<Block>) -> Function {
    Function {
        name: String::from("f"),
        public: true,
        unsafety: Unsafety::Safe,
        kind: FnKind::Plain,
        guarded_api: false,
        body: Some(Body { locals, blocks }),
    }
}

fn returning() -> Block {
    Block { statements: vec![], terminator: Terminator::Return }
}

fn ending(terminator: Terminator) -> Block {
    Block { statements: vec![], terminator }
}

fn holding(statement: Statement) -> Block {
    Block { statements: vec![statement], terminator: Terminator::Return }
}

fn accepted(function: Function) -> bool {
    Program::new(vec![function]).is_some()
}

fn named(name: &str) -> SafetyContract {
    SafetyContract { name: String::from(name), matcher: Matcher::All(FactSet::empty()) }
}

#[test]
fn the_empty_set_holds_nothing() {
    let empty = FactSet::empty();
    assert!(empty.is_empty());
    assert_eq!(empty.bits(), 0);
    assert!(!empty.contains(0));
    assert!(!empty.contains(63));
    assert!(!empty.contains(64));
    assert!(!empty.contains(255));
}

#[test]
fn insert_adds_one_fact_below_the_limit() {
    assert_eq!(FACT_LIMIT, 64);
    let s = FactSet::empty().insert(3).unwrap();
    assert_eq!(s.bits(), 8);
    assert!(s.contains(3));
    assert!(!s.contains(2));
    assert!(!s.is_empty());
    let t = s.insert(63).unwrap();
    assert_eq!(t.bits(), 8 | (1u64 << 63));
    assert!(t.contains(63));
    assert_eq!(t.insert(3), Some(t));
    assert_eq!(s.insert(64), None);
    assert_eq!(s.insert(200), None);
}

#[test]
fn from_bits_and_bits_are_inverse() {
    assert_eq!(FactSet::from_bits(0), FactSet::empty());
    assert_eq!(FactSet::from_bits(0b1010).bits(), 0b1010);
    assert_eq!(FactSet::from_bits(0b1010), set(&[1, 3]));
    assert_eq!(FactSet::from_bits(u64::MAX).bits(), u64::MAX);
    assert!(FactSet::from_bits(u64::MAX).contains(63));
}

#[test]
fn union_and_intersection_are_those_of_sets() {
    let a = set(&[0, 1, 5]);
    let b = set(&[1, 5, 9]);
    assert_eq!(a.union(b), set(&[0, 1, 5, 9]));
    assert_eq!(a.intersection(b), set(&[1, 5]));
    assert_eq!(a.intersection(set(&[2, 3])), FactSet::empty());
    assert_eq!(a.union(FactSet::empty()), a);
    assert_eq!(a.intersection(FactSet::empty()), FactSet::empty());
    assert_eq!(a.intersection(a), a);
}

#[test]
fn subset_and_overlap_are_those_of_sets() {
    let a = set(&[1, 5]);
    let b = set(&[0, 1, 5]);
    assert!(a.is_subset_of(&b));
    assert!(!b.is_subset_of(&a));
    assert!(a.is_subset_of(&a));
    assert!(FactSet::empty().is_subset_of(&a));
    assert!(FactSet::empty().is_subset_of(&FactSet::empty()));
    assert!(a.intersects(&b));
    assert!(!a.intersects(&set(&[0, 2])));
    assert!(!a.intersects(&FactSet::empty()));
    assert!(!FactSet::empty().intersects(&FactSet::empty()));
}

#[test]
fn all_asks_for_every_fact_and_any_for_one() {
    let all = Matcher::All(set(&[1, 2]));
    assert!(all.matches(set(&[1, 2, 3])));
    assert!(all.matches(set(&[1, 2])));
    assert!(!all.matches(set(&[1, 3])));
    assert!(!all.matches(FactSet::empty()));
    assert!(Matcher::All(FactSet::empty()).matches(FactSet::empty()));
    let any = Matcher::Any(set(&[1, 2]));
    assert!(any.matches(set(&[2, 9])));
    assert!(any.matches(set(&[1])));
    assert!(!any.matches(set(&[3, 9])));
    assert!(!any.matches(FactSet::empty()));
    assert!(!Matcher::Any(FactSet::empty()).matches(set(&[1])));
    let contract = SafetyContract { name: String::from("c"), matcher: any };
    assert!(contract.matches(set(&[1])));
    assert!(!contract.matches(set(&[4])));
}

#[test]
fn a_program_without_functions_is_well_formed() {
    let program = Program::new(vec![]).unwrap();
    assert_eq!(program.len(), 0);
    assert!(program.get(0).is_none());
}

#[test]
fn a_program_keeps_its_functions() {
    let program = Program::new(vec![body_of(1, vec![returning()]), body_of(2, vec![returning()])])
        .unwrap();
    assert_eq!(program.len(), 2);
    assert_eq!(program.get(1).unwrap().body.as_ref().unwrap().locals, 2);
    assert!(program.get(2).is_none());
}

#[test]
fn a_body_needs_an_entry_block_and_a_return_place() {
    assert!(accepted(body_of(1, vec![returning()])));
    assert!(!accepted(body_of(1, vec![])));
    assert!(!accepted(body_of(0, vec![returning()])));
}

#[test]
fn statements_must_name_locals_and_functions_that_are_there() {
    assert!(accepted(body_of(2, vec![holding(Statement::Copy { dst: 1, src: 0 })])));
    assert!(!accepted(body_of(2, vec![holding(Statement::Copy { dst: 2, src: 0 })])));
    assert!(!accepted(body_of(2, vec![holding(Statement::Copy { dst: 0, src: 2 })])));
    assert!(accepted(body_of(
        2,
        vec![holding(Statement::Define { dst: 1, facts: FactSet::empty() })]
    )));
    assert!(!accepted(body_of(
        2,
        vec![holding(Statement::Define { dst: 2, facts: FactSet::empty() })]
    )));
    assert!(accepted(body_of(2, vec![holding(Statement::FnRef { dst: 1, function: 0 })])));
    assert!(!accepted(body_of(2, vec![holding(Statement::FnRef { dst: 2, function: 0 })])));
    assert!(!accepted(body_of(2, vec![holding(Statement::FnRef { dst: 1, function: 1 })])));
    // a later statement is looked at too
    assert!(!accepted(body_of(
        2,
        vec![Block {
            statements: vec![
                Statement::Copy { dst: 1, src: 0 },
                Statement::Copy { dst: 1, src: 5 },
            ],
            terminator: Terminator::Return,
        }]
    )));
}

#[test]
fn edges_must_lead_to_blocks_and_speak_of_locals_that_are_there() {
    let edge = |target: usize, value: usize| {
        ending(Terminator::Branch { edges: vec![Edge { target, value, facts: FactSet::empty() }] })
    };
    assert!(accepted(body_of(1, vec![edge(0, 0)])));
    assert!(accepted(body_of(1, vec![ending(Terminator::Branch { edges: vec![] })])));
    assert!(!accepted(body_of(1, vec![edge(1, 0)])));
    assert!(!accepted(body_of(1, vec![edge(0, 1)])));
    assert!(!accepted(body_of(1, vec![returning(), edge(2, 0)])));
}

#[test]
fn calls_must_name_what_is_there() {
    let call = |callee: Callee, args: Vec<usize>, dest: usize, target: Option<usize>| {
        ending(Terminator::Call { callee, args, dest, target })
    };
    assert!(accepted(body_of(2, vec![call(Callee::Direct(0), vec![1, 0], 1, Some(0))])));
    assert!(accepted(body_of(2, vec![call(Callee::Indirect(1), vec![], 0, None)])));
    assert!(!accepted(body_of(2, vec![call(Callee::Direct(1), vec![], 0, None)])));
    assert!(!accepted(body_of(2, vec![call(Callee::Indirect(2), vec![], 0, None)])));
    assert!(!accepted(body_of(2, vec![call(Callee::Direct(0), vec![0, 2], 0, None)])));
    assert!(!accepted(body_of(2, vec![call(Callee::Direct(0), vec![], 2, None)])));
    assert!(!accepted(body_of(2, vec![call(Callee::Direct(0), vec![], 0, Some(1))])));
}

#[test]
fn constructors_must_be_functions_of_the_program() {
    let mut method = body_of(1, vec![returning()]);
    method.kind = FnKind::Method { constructors: vec![0] };
    assert!(accepted(method));
    let mut dangling = body_of(1, vec![returning()]);
    dangling.kind = FnKind::Method { constructors: vec![0, 1] };
    assert!(!accepted(dangling));
    let mut bodyless = body_of(1, vec![returning()]);
    bodyless.body = None;
    bodyless.kind = FnKind::Method { constructors: vec![3] };
    assert!(!accepted(bodyless));
}

#[test]
fn one_bad_function_spoils_the_program() {
    let good = body_of(1, vec![returning()]);
    let bad = body_of(1, vec![holding(Statement::Copy { dst: 0, src: 1 })]);
    assert!(Program::new(vec![good, bad]).is_none());
}

#[test]
fn a_catalog_refuses_two_contracts_of_one_name() {
    assert!(Catalog::new(vec![named("a"), named("b")], vec![]).is_some());
    assert!(Catalog::new(vec![named("a"), named("b"), named("a")], vec![]).is_none());
    assert!(Catalog::new(vec![named(""), named("")], vec![]).is_none());
}

#[test]
fn a_catalog_refuses_two_entries_for_one_api() {
    let entry = |api: usize| ApiEntry { api, requirements: vec![] };
    assert!(Catalog::new(vec![], vec![entry(1), entry(2)]).is_some());
    assert!(Catalog::new(vec![], vec![entry(1), entry(2), entry(1)]).is_none());
}

#[test]
fn a_catalog_refuses_requirements_that_dangle_or_repeat() {
    let entry = |requirements: Vec<Requirement>| vec![ApiEntry { api: 0, requirements }];
    let r = |param: usize, contract: usize| Requirement { param, contract };
    assert!(Catalog::new(vec![named("a")], entry(vec![r(0, 0), r(1, 0)])).is_some());
    assert!(Catalog::new(vec![named("a")], entry(vec![r(0, 1)])).is_none());
    assert!(Catalog::new(vec![named("a")], entry(vec![r(0, 0), r(1, 0), r(0, 0)])).is_none());
    assert!(Catalog::new(vec![], entry(vec![r(0, 0)])).is_none());
    // the second entry is looked at too
    let two = vec![
        ApiEntry { api: 0, requirements: vec![r(0, 0)] },
        ApiEntry { api: 1, requirements: vec![r(0, 2)] },
    ];
    assert!(Catalog::new(vec![named("a"), named("b")], two).is_none());
}

#[test]
fn lookup_finds_the_entry_of_an_api_and_nothing_for_any_other() {
    let catalog = Catalog::new(
        vec![named("a"), named("b")],
        vec![
            ApiEntry { api: 7, requirements: vec![Requirement { param: 1, contract: 1 }] },
            ApiEntry {
                api: 3,
                requirements: vec![
                    Requirement { param: 0, contract: 0 },
                    Requirement { param: 0, contract: 1 },
                ],
            },
        ],
    )
    .unwrap();
    assert_eq!(catalog.lookup(3).len(), 2);
    assert_eq!(catalog.lookup(3)[1].contract, 1);
    assert_eq!(catalog.lookup(7).len(), 1);
    assert_eq!(catalog.lookup(7)[0].param, 1);
    assert_eq!(catalog.lookup(0).len(), 0);
    assert_eq!(catalog.lookup(8).len(), 0);
    assert_eq!(catalog.contract_count(), 2);
    assert_eq!(catalog.contract(1).unwrap().name, "b");
    assert!(catalog.contract(2).is_none());
}

#[test]
fn indices_of_lists_the_marked_positions_in_ascending_order() {
    assert_eq!(indices_of(&vec![]), vec![]);
    assert_eq!(indices_of(&vec![false, false]), vec![]);
    assert_eq!(indices_of(&vec![true, false, true, true]), vec![0, 2, 3]);
}

#[test]
fn exercised_contracts_marks_what_the_call_chain_reaches() {
    let call = |callee: usize, next: usize| {
        ending(Terminator::Call {
            callee: Callee::Direct(callee),
            args: vec![],
            dest: 0,
            target: Some(next),
        })
    };
    let api = |name: &str| Function {
        name: String::from(name),
        public: true,
        unsafety: Unsafety::FullyUnsafe,
        kind: FnKind::Plain,
        guarded_api: true,
        body: None,
    };
    let program = Program::new(vec![
        body_of(1, vec![call(1, 1), call(3, 2), returning()]),
        body_of(1, vec![call(2, 1), returning()]),
        api("two"),
        api("three"),
        body_of(1, vec![call(4, 1), call(5, 2), returning()]),
        api("five"),
    ])
    .unwrap();
    let catalog = Catalog::new(
        vec![named("zero"), named("one"), named("two"), named("three")],
        vec![
            ApiEntry { api: 2, requirements: vec![Requirement { param: 0, contract: 3 }] },
            ApiEntry {
                api: 3,
                requirements: vec![
                    Requirement { param: 2, contract: 1 },
                    Requirement { param: 0, contract: 3 },
                ],
            },
            ApiEntry { api: 5, requirements: vec![Requirement { param: 0, contract: 0 }] },
        ],
    )
    .unwrap();
    assert_eq!(exercised_contracts(&program, &catalog, 0), vec![false, true, false, true]);
    assert_eq!(exercised_contracts(&program, &catalog, 1), vec![false, false, false, true]);
    assert_eq!(exercised_contracts(&program, &catalog, 2), vec![false, false, false, false]);
    assert_eq!(exercised_contracts(&program, &catalog, 4), vec![true, false, false, false]);
    assert_eq!(exercised_contracts(&program, &catalog, 6), vec![false, false, false, false]);
    assert_eq!(collect(&program, &catalog, 0), vec![String::from("one"), String::from("three")]);
    assert_eq!(collect(&program, &catalog, 4), vec![String::from("zero")]);
    assert_eq!(collect(&program, &catalog, 3), Vec::<String>::new());
}

#[test]
fn check_report_opens_with_the_function() {
    let lines = check_report(&String::from("wrapper"), &vec![]);
    assert_eq!(
        lines,
        vec![ReportLine {
            level: Level::Info,
            message: Message::SafeFunction { name: String::from("wrapper") },
        }]
    );
}

#[test]
fn check_report_lists_each_call_and_each_failed_argument() {
    let results = vec![CheckResult {
        func_name: String::from("api"),
        failed_contracts: vec![(2, vec![String::from("Init")])],
    }];
    let lines = check_report(&String::from("w"), &results);
    assert_eq!(lines.len(), 3);
    assert_eq!(lines[1].level, Level::Warn);
    assert_eq!(lines[1].message, Message::UnsafeApi { name: String::from("api") });
    assert_eq!(
        lines[2],
        ReportLine {
            level: Level::Warn,
            message: Message::FailedArgument { index: 2, contracts: vec![String::from("Init")] },
        }
    );
}

#[test]
fn annotation_report_has_two_lines() {
    let lines = annotation_report(&String::from("u"), &vec![String::from("a"), String::from("b")]);
    assert_eq!(
        lines,
        vec![
            ReportLine {
                level: Level::Info,
                message: Message::UnsafeFunction { name: String::from("u") },
            },
            ReportLine {
                level: Level::Warn,
                message: Message::MissingAnnotations {
                    contracts: vec![String::from("a"), String::from("b")],
                },
            },
        ]
    );
}

#[test]
fn copy_names_copies() {
    let names = vec![String::from("a"), String::new(), String::from("len<=capacity")];
    assert_eq!(copy_names(&names), names);
    assert_eq!(copy_names(&vec![]), Vec::<String>::new());
}

#[test]
fn decimal_writes_the_digits_without_leading_zeros() {
    assert_eq!(decimal(0), "0");
    assert_eq!(decimal(7), "7");
    assert_eq!(decimal(9), "9");
    assert_eq!(decimal(10), "10");
    assert_eq!(decimal(101), "101");
    assert_eq!(decimal(1234567890), "1234567890");
    assert_eq!(decimal(usize::MAX), format!("{}", usize::MAX));
}

#[test]
fn a_function_is_named_between_quotes() {
    let safe = Message::SafeFunction { name: String::from("g") };
    assert_eq!(safe.text(), "--------In safe function \"g\"---------");
    let unsafe_fn = Message::UnsafeFunction { name: String::from("Vec::set_len") };
    assert_eq!(unsafe_fn.text(), "--------In unsafe function \"Vec::set_len\"---------");
    let api = Message::UnsafeApi { name: String::from("setLen") };
    assert_eq!(api.text(), "  Use unsafe api \"setLen\".");
    let odd = Message::UnsafeApi { name: String::from("a\"b\\c") };
    assert_eq!(odd.text(), "  Use unsafe api \"a\\\"b\\\\c\".");
    let empty = Message::SafeFunction { name: String::new() };
    assert_eq!(empty.text(), "--------In safe function \"\"---------");
}

#[test]
fn failed_contracts_are_listed_between_brackets() {
    let one = Message::FailedArgument { index: 1, contracts: vec![String::from("len<=capacity")] };
    assert_eq!(one.text(), "      Argument 1's failed Sps: [\"len<=capacity\"]");
    let two = Message::FailedArgument {
        index: 12,
        contracts: vec![String::from("len<=capacity"), String::from("NonNull")],
    };
    assert_eq!(two.text(), "      Argument 12's failed Sps: [\"len<=capacity\", \"NonNull\"]");
    let none = Message::FailedArgument { index: 0, contracts: vec![] };
    assert_eq!(none.text(), "      Argument 0's failed Sps: []");
}

#[test]
fn missing_annotations_are_listed_between_braces() {
    let one = Message::MissingAnnotations { contracts: vec![String::from("len<=capacity")] };
    assert_eq!(one.text(), "Lack safety annotations: {\"len<=capacity\"}.");
    let three = Message::MissingAnnotations {
        contracts: vec![String::from("a"), String::from("b"), String::from("c")],
    };
    assert_eq!(three.text(), "Lack safety annotations: {\"a\", \"b\", \"c\"}.");
    let none = Message::MissingAnnotations { contracts: vec![] };
    assert_eq!(none.text(), "Lack safety annotations: {}.");
}

#[test]
fn the_catalog_judges_an_argument_by_the_facts_of_its_local() {
    let catalog = Catalog::new(
        vec![
            SafetyContract { name: String::from("NonNull"), matcher: Matcher::All(set(&[0])) },
            SafetyContract { name: String::from("Bounded"), matcher: Matcher::Any(set(&[1, 2])) },
        ],
        vec![],
    )
    .unwrap();
    let state = AbstractState {
        facts: vec![FactSet::empty(), set(&[0]), set(&[2]), set(&[0, 1])],
        origin: vec![None, None, None, None],
    };
    let args = vec![3, 1, 2];
    assert!(catalog.matches(0, &state, &args, 0));
    assert!(catalog.matches(0, &state, &args, 1));
    assert!(!catalog.matches(0, &state, &args, 2));
    assert!(catalog.matches(1, &state, &args, 0));
    assert!(!catalog.matches(1, &state, &args, 1));
    assert!(catalog.matches(1, &state, &args, 2));
    // what is not there is not met
    assert!(!catalog.matches(2, &state, &args, 0));
    assert!(!catalog.matches(0, &state, &args, 3));
    assert!(!catalog.matches(0, &state, &vec![4], 0));
}
