//! The catalog of safety contracts that guarded APIs declare.

use crate::facts::FactSet;
use crate::walk::{AbstractState, Known};
use vstd::prelude::*;

verus! {

/// The predicate of a contract over what is known of an argument.
#[derive(Clone, Copy, Debug)]
pub enum Matcher {
    /// Every one of these facts has to be established.
    All(FactSet),
    /// At least one of these facts has to be established.
    Any(FactSet),
}

/// A named safety precondition.
#[derive(Debug)]
pub struct SafetyContract {
    pub name: String,
    pub matcher: Matcher,
}

/// One precondition of a guarded API: the contract `contract` has to hold of
/// the argument at position `param`.
#[derive(Clone, Copy, Debug)]
pub struct Requirement {
    pub param: usize,
    pub contract: usize,
}

/// What one guarded API declares.
#[derive(Debug)]
pub struct ApiEntry {
    pub api: usize,
    pub requirements: Vec<Requirement>,
}

/// The registry of contracts and of the APIs that declare them.
#[derive(Debug)]
pub struct Catalog {
    contracts: Vec<SafetyContract>,
    entries: Vec<ApiEntry>,
    nothing: Vec<Requirement>,
}

impl Matcher {
    /// Whether the predicate holds of an argument with these facts.
    pub open spec fn holds(self, facts: FactSet) -> bool {
        match self {
            Matcher::All(needed) => needed.within(facts),
            Matcher::Any(needed) => needed.overlaps(facts),
        }
    }

    /// Evaluates the predicate.
    pub fn matches(&self, facts: FactSet) -> (r: bool)
        ensures
            r == self.holds(facts),
    {
        match self {
            Matcher::All(needed) => needed.is_subset_of(&facts),
            Matcher::Any(needed) => needed.intersects(&facts),
        }
    }
}

impl SafetyContract {
    /// Evaluates the contract's predicate on the facts known of an argument.
    pub fn matches(&self, facts: FactSet) -> (r: bool)
        ensures
            r == self.matcher.holds(facts),
    {
        self.matcher.matches(facts)
    }
}

/// No two contracts share a name.
pub open spec fn names_distinct(contracts: Seq<SafetyContract>) -> bool {
    forall|i: int, j: int|
        0 <= i < j < contracts.len() ==> (#[trigger] contracts[i]).name@ != (
        #[trigger] contracts[j]).name@
}

/// No two entries speak of the same API.
pub open spec fn apis_distinct(entries: Seq<ApiEntry>) -> bool {
    forall|i: int, j: int|
        0 <= i < j < entries.len() ==> (#[trigger] entries[i]).api != (#[trigger] entries[j]).api
}

/// The requirements name contracts of the catalog, none of them twice for one
/// parameter.
pub open spec fn requirements_valid(requirements: Seq<Requirement>, contracts: nat) -> bool {
    &&& forall|i: int|
        0 <= i < requirements.len() ==> (#[trigger] requirements[i]).contract < contracts
    &&& forall|i: int, j: int|
        0 <= i < j < requirements.len() ==> !((#[trigger] requirements[i]).param == (
        #[trigger] requirements[j]).param && requirements[i].contract == requirements[j].contract)
}

/// What `Catalog::new` asks of its arguments.
pub open spec fn catalog_valid(contracts: Seq<SafetyContract>, entries: Seq<ApiEntry>) -> bool {
    &&& names_distinct(contracts)
    &&& apis_distinct(entries)
    &&& forall|e: int|
        0 <= e < entries.len() ==> requirements_valid(
            (#[trigger] entries[e]).requirements@,
            contracts.len(),
        )
}

/// Entry `e` is the entry of `api`.
pub open spec fn lists(entries: Seq<ApiEntry>, e: int, api: int) -> bool {
    0 <= e < entries.len() && entries[e].api == api
}

/// The requirements that `api` declares; none where the catalog has no entry
/// for it.
pub open spec fn requirements_of(entries: Seq<ApiEntry>, api: int) -> Seq<Requirement> {
    if exists|e: int| lists(entries, e, api) {
        entries[choose|e: int| lists(entries, e, api)].requirements@
    } else {
        Seq::empty()
    }
}

/// Whether `api` declares at least one contract.
pub open spec fn declares_any(entries: Seq<ApiEntry>, api: int) -> bool {
    requirements_of(entries, api).len() > 0
}

/// Whether one of the first `k` requirements names `contract`.
pub open spec fn names_contract(requirements: Seq<Requirement>, k: int, contract: int) -> bool {
    exists|i: int| 0 <= i < k && (#[trigger] requirements[i]).contract == contract
}

/// Whether `api` declares the contract `contract`.
pub open spec fn declares(entries: Seq<ApiEntry>, api: int, contract: int) -> bool {
    names_contract(
        requirements_of(entries, api),
        requirements_of(entries, api).len() as int,
        contract,
    )
}

/// The argument at `argument_index` of a call with the arguments `args` meets
/// the contract `contract` in the state `known`. A contract or an argument
/// that is not there is not met.
pub open spec fn meets(
    contracts: Seq<SafetyContract>,
    contract: int,
    known: Known,
    args: Seq<usize>,
    argument_index: int,
) -> bool {
    &&& 0 <= contract < contracts.len()
    &&& 0 <= argument_index < args.len()
    &&& args[argument_index] < known.facts.len()
    &&& contracts[contract].matcher.holds(known.facts[args[argument_index] as int])
}

fn names_are_distinct(contracts: &Vec<SafetyContract>) -> (r: bool)
    ensures
        r == names_distinct(contracts@),
{
    let n: usize = contracts.len();
    let mut j: usize = 0;
    while j < n
        invariant
            n == contracts@.len(),
            j <= n,
            forall|a: int, b: int|
                0 <= a < b < j ==> (#[trigger] contracts@[a]).name@ != (
                #[trigger] contracts@[b]).name@,
        decreases n - j,
    {
        let mut i: usize = 0;
        while i < j
            invariant
                n == contracts@.len(),
                i <= j < n,
                forall|a: int|
                    0 <= a < i ==> (#[trigger] contracts@[a]).name@ != contracts@[j as int].name@,
            decreases j - i,
        {
            if contracts[i].name == contracts[j].name {
                return false;
            }
            i += 1;
        }
        j += 1;
    }
    true
}

fn apis_are_distinct(entries: &Vec<ApiEntry>) -> (r: bool)
    ensures
        r == apis_distinct(entries@),
{
    let n: usize = entries.len();
    let mut j: usize = 0;
    while j < n
        invariant
            n == entries@.len(),
            j <= n,
            forall|a: int, b: int|
                0 <= a < b < j ==> (#[trigger] entries@[a]).api != (#[trigger] entries@[b]).api,
        decreases n - j,
    {
        let mut i: usize = 0;
        while i < j
            invariant
                n == entries@.len(),
                i <= j < n,
                forall|a: int|
                    0 <= a < i ==> (#[trigger] entries@[a]).api != entries@[j as int].api,
            decreases j - i,
        {
            if entries[i].api == entries[j].api {
                return false;
            }
            i += 1;
        }
        j += 1;
    }
    true
}

fn requirements_are_valid(requirements: &Vec<Requirement>, contracts: usize) -> (r: bool)
    ensures
        r == requirements_valid(requirements@, contracts as nat),
{
    let n: usize = requirements.len();
    let mut j: usize = 0;
    while j < n
        invariant
            n == requirements@.len(),
            j <= n,
            forall|a: int| 0 <= a < j ==> (#[trigger] requirements@[a]).contract < contracts,
            forall|a: int, b: int|
                0 <= a < b < j ==> !((#[trigger] requirements@[a]).param == (
                #[trigger] requirements@[b]).param && requirements@[a].contract
                    == requirements@[b].contract),
        decreases n - j,
    {
        if requirements[j].contract >= contracts {
            return false;
        }
        let mut i: usize = 0;
        while i < j
            invariant
                n == requirements@.len(),
                i <= j < n,
                forall|a: int|
                    0 <= a < i ==> !((#[trigger] requirements@[a]).param
                        == requirements@[j as int].param && requirements@[a].contract
                        == requirements@[j as int].contract),
            decreases j - i,
        {
            if requirements[i].param == requirements[j].param && requirements[i].contract
                == requirements[j].contract {
                return false;
            }
            i += 1;
        }
        j += 1;
    }
    true
}

impl Catalog {
    #[verifier::type_invariant]
    spec fn inv(self) -> bool {
        catalog_valid(self.contracts@, self.entries@) && self.nothing@.len() == 0
    }

    /// The contracts of the catalog; a contract is named by its position.
    pub closed spec fn contracts(&self) -> Seq<SafetyContract> {
        self.contracts@
    }

    /// The entries of the catalog.
    pub closed spec fn entries(&self) -> Seq<ApiEntry> {
        self.entries@
    }

    /// Builds a catalog; `None` where two contracts share a name, two entries
    /// speak of one API, or an entry names a contract that is not there or
    /// names one twice for the same parameter.
    pub fn new(contracts: Vec<SafetyContract>, entries: Vec<ApiEntry>) -> (r: Option<Catalog>)
        ensures
            r.is_some() == catalog_valid(contracts@, entries@),
            r matches Some(catalog) ==> catalog.contracts() == contracts@ && catalog.entries()
                == entries@,
    {
        if !names_are_distinct(&contracts) || !apis_are_distinct(&entries) {
            return None;
        }
        let n: usize = entries.len();
        let mut e: usize = 0;
        while e < n
            invariant
                n == entries@.len(),
                e <= n,
                forall|j: int|
                    0 <= j < e ==> requirements_valid(
                        (#[trigger] entries@[j]).requirements@,
                        contracts@.len(),
                    ),
            decreases n - e,
        {
            if !requirements_are_valid(&entries[e].requirements, contracts.len()) {
                return None;
            }
            e += 1;
        }
        Some(Catalog { contracts, entries, nothing: Vec::new() })
    }

    /// The number of contracts.
    pub fn contract_count(&self) -> (r: usize)
        ensures
            r == self.contracts().len(),
    {
        self.contracts.len()
    }

    /// The contract with the identifier `id`, if there is one.
    pub fn contract(&self, id: usize) -> (r: Option<&SafetyContract>)
        ensures
            id < self.contracts().len() ==> r == Some(&self.contracts()[id as int]),
            id >= self.contracts().len() ==> r.is_none(),
    {
        if id < self.contracts.len() {
            Some(&self.contracts[id])
        } else {
            None
        }
    }

    /// Whether the argument at `argument_index` of a call with the arguments
    /// `args` meets the contract `contract` in `state`.
    pub fn matches(
        &self,
        contract: usize,
        state: &AbstractState,
        args: &Vec<usize>,
        argument_index: usize,
    ) -> (r: bool)
        ensures
            r == meets(self.contracts(), contract as int, state@, args@, argument_index as int),
    {
        if contract >= self.contracts.len() || argument_index >= args.len() {
            return false;
        }
        let value: usize = args[argument_index];
        if value >= state.facts.len() {
            return false;
        }
        self.contracts[contract].matches(state.facts[value])
    }

    /// The requirements that `api` declares. An API without an entry declares
    /// none.
    pub fn lookup(&self, api: usize) -> (r: &Vec<Requirement>)
        ensures
            catalog_valid(self.contracts(), self.entries()),
            r@ == requirements_of(self.entries(), api as int),
            requirements_valid(r@, self.contracts().len()),
    {
        proof {
            use_type_invariant(self);
        }
        let n: usize = self.entries.len();
        let mut e: usize = 0;
        while e < n
            invariant
                n == self.entries@.len(),
                e <= n,
                catalog_valid(self.contracts@, self.entries@),
                self.nothing@.len() == 0,
                forall|j: int| 0 <= j < e ==> !lists(self.entries@, j, api as int),
            decreases n - e,
        {
            if self.entries[e].api == api {
                proof {
                    assert(lists(self.entries@, e as int, api as int));
                    let c = choose|c: int| lists(self.entries@, c, api as int);
                    assert(c == e) by {
                        if c < e {
                            assert(self.entries@[c].api != self.entries@[e as int].api);
                        } else if e < c {
                            assert(self.entries@[e as int].api != self.entries@[c].api);
                        }
                    }
                }
                return &self.entries[e].requirements;
            }
            e += 1;
        }
        proof {
            assert(self.nothing@ =~= Seq::<Requirement>::empty());
        }
        &self.nothing
    }
}

} // verus!
