//! The analysed program: functions, their control-flow graphs and their
//! classification.
//!
//! Functions, blocks and locals are named by their index. A `Program` can only
//! be had from `Program::new`, which refuses tables with dangling indices.

use crate::facts::FactSet;
use vstd::prelude::*;

verus! {

/// How much of a function is allowed to bypass the safety guarantees.
#[derive(Clone, Copy, Debug)]
pub enum Unsafety {
    /// Unsafe by declaration.
    FullyUnsafe,
    /// Safe by declaration, with at least one unsafe block inside.
    ContainsUnsafeBlock,
    /// No unsafe code at all.
    Safe,
}

/// What sort of function this is.
#[derive(Debug)]
pub enum FnKind {
    /// A free function.
    Plain,
    /// A method, with the constructors of the type it belongs to.
    Method { constructors: Vec<usize> },
}

/// The operand of a call.
#[derive(Clone, Copy, Debug)]
pub enum Callee {
    /// A function named in the call itself.
    Direct(usize),
    /// A function pointer held in a local.
    Indirect(usize),
}

/// An outgoing edge of a branch. Taking it establishes `facts` about `value`.
#[derive(Clone, Copy, Debug)]
pub struct Edge {
    pub target: usize,
    pub value: usize,
    pub facts: FactSet,
}

/// A statement inside a block.
#[derive(Clone, Copy, Debug)]
pub enum Statement {
    /// `dst` becomes a copy of `src` and inherits what is known of it.
    Copy { dst: usize, src: usize },
    /// `dst` receives a fresh value of which exactly `facts` are known.
    Define { dst: usize, facts: FactSet },
    /// `dst` receives a pointer to `function`.
    FnRef { dst: usize, function: usize },
}

/// How a block ends.
#[derive(Debug)]
pub enum Terminator {
    /// Control moves along one of the edges.
    Branch { edges: Vec<Edge> },
    /// A call; control continues at `target` unless the call diverges.
    Call { callee: Callee, args: Vec<usize>, dest: usize, target: Option<usize> },
    /// The function returns the value of local 0.
    Return,
}

/// A basic block.
#[derive(Debug)]
pub struct Block {
    pub statements: Vec<Statement>,
    pub terminator: Terminator,
}

/// A control-flow graph. Block 0 is the entry, local 0 the return place.
#[derive(Debug)]
pub struct Body {
    pub locals: usize,
    pub blocks: Vec<Block>,
}

/// One function of the program, or a library operation it calls.
#[derive(Debug)]
pub struct Function {
    pub name: String,
    pub public: bool,
    pub unsafety: Unsafety,
    pub kind: FnKind,
    /// The function is a guarded API: a library operation that bypasses the
    /// ordinary safety guarantees.
    pub guarded_api: bool,
    /// The control-flow graph, where one can be retrieved.
    pub body: Option<Body>,
}

/// A whole program.
#[derive(Debug)]
pub struct Program {
    functions: Vec<Function>,
}

impl Edge {
    pub open spec fn valid(self, locals: nat, blocks: nat) -> bool {
        self.target < blocks && self.value < locals
    }
}

impl Statement {
    pub open spec fn valid(self, locals: nat, functions: nat) -> bool {
        match self {
            Statement::Copy { dst, src } => dst < locals && src < locals,
            Statement::Define { dst, facts } => dst < locals,
            Statement::FnRef { dst, function } => dst < locals && function < functions,
        }
    }
}

impl Callee {
    pub open spec fn valid(self, locals: nat, functions: nat) -> bool {
        match self {
            Callee::Direct(function) => function < functions,
            Callee::Indirect(value) => value < locals,
        }
    }
}

/// Every entry of `v` is below `bound`.
pub open spec fn all_below(v: Seq<usize>, bound: nat) -> bool {
    forall|i: int| 0 <= i < v.len() ==> v[i] < bound
}

impl Terminator {
    pub open spec fn valid(self, locals: nat, blocks: nat, functions: nat) -> bool {
        match self {
            Terminator::Branch { edges } => forall|i: int|
                0 <= i < edges@.len() ==> (#[trigger] edges@[i]).valid(locals, blocks),
            Terminator::Call { callee, args, dest, target } => {
                &&& callee.valid(locals, functions)
                &&& all_below(args@, locals)
                &&& dest < locals
                &&& target matches Some(t) ==> t < blocks
            },
            Terminator::Return => true,
        }
    }
}

impl Block {
    pub open spec fn valid(self, locals: nat, blocks: nat, functions: nat) -> bool {
        &&& forall|i: int|
            0 <= i < self.statements@.len() ==> (#[trigger] self.statements@[i]).valid(
                locals,
                functions,
            )
        &&& self.terminator.valid(locals, blocks, functions)
    }
}

impl Body {
    pub open spec fn valid(self, functions: nat) -> bool {
        &&& self.locals >= 1
        &&& self.blocks@.len() >= 1
        &&& forall|b: int|
            0 <= b < self.blocks@.len() ==> (#[trigger] self.blocks@[b]).valid(
                self.locals as nat,
                self.blocks@.len(),
                functions,
            )
    }
}

impl FnKind {
    pub open spec fn valid(self, functions: nat) -> bool {
        match self {
            FnKind::Plain => true,
            FnKind::Method { constructors } => all_below(constructors@, functions),
        }
    }
}

impl Function {
    pub open spec fn valid(self, functions: nat) -> bool {
        &&& self.kind.valid(functions)
        &&& self.body matches Some(body) ==> body.valid(functions)
    }
}

/// No function of the table names a function, block or local that is not
/// there, and every body has an entry block and a return place.
pub open spec fn well_formed(functions: Seq<Function>) -> bool {
    forall|f: int| 0 <= f < functions.len() ==> (#[trigger] functions[f]).valid(functions.len())
}

fn indices_below(v: &Vec<usize>, bound: usize) -> (r: bool)
    ensures
        r == all_below(v@, bound as nat),
{
    let mut i: usize = 0;
    while i < v.len()
        invariant
            i <= v@.len(),
            forall|j: int| 0 <= j < i ==> v@[j] < bound,
        decreases v@.len() - i,
    {
        if v[i] >= bound {
            return false;
        }
        i += 1;
    }
    true
}

fn edges_valid(edges: &Vec<Edge>, locals: usize, blocks: usize) -> (r: bool)
    ensures
        r == (forall|i: int|
            0 <= i < edges@.len() ==> (#[trigger] edges@[i]).valid(locals as nat, blocks as nat)),
{
    let mut i: usize = 0;
    while i < edges.len()
        invariant
            i <= edges@.len(),
            forall|j: int|
                0 <= j < i ==> (#[trigger] edges@[j]).valid(locals as nat, blocks as nat),
        decreases edges@.len() - i,
    {
        if edges[i].target >= blocks || edges[i].value >= locals {
            assert(!edges@[i as int].valid(locals as nat, blocks as nat));
            return false;
        }
        i += 1;
    }
    true
}

fn statement_valid(statement: &Statement, locals: usize, functions: usize) -> (r: bool)
    ensures
        r == statement.valid(locals as nat, functions as nat),
{
    match statement {
        Statement::Copy { dst, src } => *dst < locals && *src < locals,
        Statement::Define { dst, facts } => *dst < locals,
        Statement::FnRef { dst, function } => *dst < locals && *function < functions,
    }
}

fn terminator_valid(terminator: &Terminator, locals: usize, blocks: usize, functions: usize) -> (r:
    bool)
    ensures
        r == terminator.valid(locals as nat, blocks as nat, functions as nat),
{
    match terminator {
        Terminator::Branch { edges } => edges_valid(edges, locals, blocks),
        Terminator::Call { callee, args, dest, target } => {
            let callee_ok = match callee {
                Callee::Direct(function) => *function < functions,
                Callee::Indirect(value) => *value < locals,
            };
            let target_ok = match target {
                Some(t) => *t < blocks,
                None => true,
            };
            callee_ok && indices_below(args, locals) && *dest < locals && target_ok
        },
        Terminator::Return => true,
    }
}

fn block_valid(block: &Block, locals: usize, blocks: usize, functions: usize) -> (r: bool)
    ensures
        r == block.valid(locals as nat, blocks as nat, functions as nat),
{
    let mut i: usize = 0;
    while i < block.statements.len()
        invariant
            i <= block.statements@.len(),
            forall|j: int|
                0 <= j < i ==> (#[trigger] block.statements@[j]).valid(
                    locals as nat,
                    functions as nat,
                ),
        decreases block.statements@.len() - i,
    {
        if !statement_valid(&block.statements[i], locals, functions) {
            return false;
        }
        i += 1;
    }
    terminator_valid(&block.terminator, locals, blocks, functions)
}

fn body_valid(body: &Body, functions: usize) -> (r: bool)
    ensures
        r == body.valid(functions as nat),
{
    if body.locals < 1 || body.blocks.len() < 1 {
        return false;
    }
    let mut b: usize = 0;
    while b < body.blocks.len()
        invariant
            b <= body.blocks@.len(),
            forall|j: int|
                0 <= j < b ==> (#[trigger] body.blocks@[j]).valid(
                    body.locals as nat,
                    body.blocks@.len(),
                    functions as nat,
                ),
        decreases body.blocks@.len() - b,
    {
        if !block_valid(&body.blocks[b], body.locals, body.blocks.len(), functions) {
            return false;
        }
        b += 1;
    }
    true
}

fn function_valid(function: &Function, functions: usize) -> (r: bool)
    ensures
        r == function.valid(functions as nat),
{
    let kind_ok = match &function.kind {
        FnKind::Plain => true,
        FnKind::Method { constructors } => indices_below(constructors, functions),
    };
    let body_ok = match &function.body {
        Some(body) => body_valid(body, functions),
        None => true,
    };
    kind_ok && body_ok
}

impl View for Program {
    type V = Seq<Function>;

    closed spec fn view(&self) -> Seq<Function> {
        self.functions@
    }
}

impl Program {
    #[verifier::type_invariant]
    spec fn inv(self) -> bool {
        well_formed(self.functions@)
    }

    /// Takes a table of functions; `None` where the table is not well formed.
    pub fn new(functions: Vec<Function>) -> (r: Option<Program>)
        ensures
            r.is_some() == well_formed(functions@),
            r matches Some(program) ==> program@ == functions@,
    {
        let n: usize = functions.len();
        let mut f: usize = 0;
        while f < n
            invariant
                n == functions@.len(),
                f <= n,
                forall|j: int| 0 <= j < f ==> (#[trigger] functions@[j]).valid(n as nat),
            decreases n - f,
        {
            if !function_valid(&functions[f], n) {
                return None;
            }
            f += 1;
        }
        Some(Program { functions })
    }

    /// The number of functions.
    pub fn len(&self) -> (r: usize)
        ensures
            r == self@.len(),
    {
        self.functions.len()
    }

    /// The function with the identifier `id`, if there is one.
    pub fn get(&self, id: usize) -> (r: Option<&Function>)
        ensures
            well_formed(self@),
            id < self@.len() ==> r == Some(&self@[id as int]),
            id >= self@.len() ==> r.is_none(),
    {
        proof {
            use_type_invariant(self);
        }
        if id < self.functions.len() {
            Some(&self.functions[id])
        } else {
            None
        }
    }

    /// The function with the identifier `id`.
    pub(crate) fn function(&self, id: usize) -> (r: &Function)
        requires
            id < self@.len(),
        ensures
            well_formed(self@),
            *r == self@[id as int],
            r.valid(self@.len()),
    {
        proof {
            use_type_invariant(self);
        }
        &self.functions[id]
    }
}

} // verus!
