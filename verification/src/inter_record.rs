//! The interprocedural cache: what was found out about each function, kept
//! for the length of a run.

use crate::facts::FactSet;
use vstd::prelude::*;

verus! {

/// The outcome of analysing one function as a callee.
#[derive(Clone, Copy, Debug, PartialEq, Eq)]
pub struct InterAnalysisRecord {
    /// The facts that hold of the function's return value at every return.
    pub returned: FactSet,
}

/// What the cache holds for one function.
#[derive(Clone, Copy, Debug, PartialEq, Eq)]
pub enum Slot {
    /// Nothing yet.
    Absent,
    /// The function is being analysed.
    InProgress,
    /// The analysis is over.
    Settled(InterAnalysisRecord),
}

/// The answer to a request.
#[derive(Clone, Copy, Debug, PartialEq, Eq)]
pub enum Lookup {
    /// The function was analysed before; this is what was found.
    Hit(InterAnalysisRecord),
    /// The function is being analysed: the request comes from inside its own
    /// analysis.
    Busy,
    /// Nothing is known. The function now counts as being analysed, and the
    /// one who asked owes the cache a record.
    Miss,
}

/// The cache, keyed by function identifier.
#[derive(Debug)]
pub struct Recorder {
    slots: Vec<Slot>,
}

impl View for Recorder {
    type V = Seq<Slot>;

    closed spec fn view(&self) -> Seq<Slot> {
        self.slots@
    }
}

/// Function `g` is being analysed.
pub open spec fn busy(slots: Seq<Slot>, g: int) -> bool {
    0 <= g < slots.len() && slots[g] is InProgress
}

/// No function is being analysed.
pub open spec fn idle(slots: Seq<Slot>) -> bool {
    forall|g: int| !#[trigger] busy(slots, g)
}

/// The analysis of function `g` is over.
pub open spec fn settled(slots: Seq<Slot>, g: int) -> bool {
    0 <= g < slots.len() && slots[g] is Settled
}

/// Whatever `a` has on record, `b` has on record too.
pub open spec fn keeps(a: Seq<Slot>, b: Seq<Slot>) -> bool {
    &&& a.len() == b.len()
    &&& forall|g: int| #[trigger] settled(a, g) ==> b[g] == a[g]
}

/// Records are kept over any number of steps.
pub proof fn lemma_keeps_trans(a: Seq<Slot>, b: Seq<Slot>, c: Seq<Slot>)
    requires
        keeps(a, b),
        keeps(b, c),
    ensures
        keeps(a, c),
{
    assert forall|g: int| #[trigger] settled(a, g) implies c[g] == a[g] by {
        assert(b[g] == a[g]);
        assert(settled(b, g));
    }
}

/// The same functions are being analysed in both.
pub open spec fn same_busy(a: Seq<Slot>, b: Seq<Slot>) -> bool {
    &&& a.len() == b.len()
    &&& forall|g: int| #[trigger] busy(a, g) == busy(b, g)
}

impl Recorder {
    /// A cache for `functions` functions that knows nothing.
    pub fn new(functions: usize) -> (r: Recorder)
        ensures
            r@.len() == functions,
            forall|g: int| 0 <= g < functions ==> (#[trigger] r@[g]) is Absent,
    {
        let mut slots: Vec<Slot> = Vec::new();
        while slots.len() < functions
            invariant
                slots@.len() <= functions,
                forall|g: int| 0 <= g < slots@.len() ==> (#[trigger] slots@[g]) is Absent,
            decreases functions - slots@.len(),
        {
            slots.push(Slot::Absent);
        }
        Recorder { slots }
    }

    /// The number of functions that the cache has room for.
    pub fn len(&self) -> (r: usize)
        ensures
            r == self@.len(),
    {
        self.slots.len()
    }

    /// The record of `function`, if its analysis is over.
    pub fn get(&self, function: usize) -> (r: Option<InterAnalysisRecord>)
        ensures
            r == if function < self@.len() && self@[function as int] is Settled {
                Some(self@[function as int]->Settled_0)
            } else {
                None
            },
    {
        if function < self.slots.len() {
            match self.slots[function] {
                Slot::Settled(record) => Some(record),
                _ => None,
            }
        } else {
            None
        }
    }

    /// Asks for the record of `function`. Where nothing is known of it, the
    /// function is marked as being analysed. A function for which the cache
    /// has no room is never marked.
    pub fn begin(&mut self, function: usize) -> (r: Lookup)
        ensures
            function >= old(self)@.len() ==> r is Miss && final(self)@ == old(self)@,
            function < old(self)@.len() ==> match old(self)@[function as int] {
                Slot::Settled(record) => r == Lookup::Hit(record) && final(self)@ == old(self)@,
                Slot::InProgress => r is Busy && final(self)@ == old(self)@,
                Slot::Absent => r is Miss && final(self)@ == old(self)@.update(
                    function as int,
                    Slot::InProgress,
                ),
            },
    {
        if function >= self.slots.len() {
            return Lookup::Miss;
        }
        match self.slots[function] {
            Slot::Settled(record) => Lookup::Hit(record),
            Slot::InProgress => Lookup::Busy,
            Slot::Absent => {
                self.slots.set(function, Slot::InProgress);
                Lookup::Miss
            },
        }
    }

    /// Stores the record of `function`; its analysis is over.
    pub fn settle(&mut self, function: usize, record: InterAnalysisRecord)
        ensures
            function >= old(self)@.len() ==> final(self)@ == old(self)@,
            function < old(self)@.len() ==> final(self)@ == old(self)@.update(
                function as int,
                Slot::Settled(record),
            ),
    {
        if function < self.slots.len() {
            self.slots.set(function, Slot::Settled(record));
        }
    }
}

} // verus!
