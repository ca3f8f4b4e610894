//! Finite sets of validation facts, kept as bit masks.

use vstd::prelude::*;

verus! {

/// Facts are numbered from zero; a set can hold the facts below this limit.
pub const FACT_LIMIT: u8 = 64;

/// A set of established facts about one value.
#[derive(Clone, Copy, Debug, PartialEq, Eq)]
pub struct FactSet {
    bits: u64,
}

impl View for FactSet {
    type V = Set<nat>;

    open spec fn view(&self) -> Set<nat> {
        Set::new(|fact: nat| self.has(fact))
    }
}

/// Bit `f` of `x` is set.
spec fn bit_at(x: u64, f: nat) -> bool {
    (x >> (f as u64)) & 1 == 1
}

/// All bits of `x` below `k` are clear.
spec fn low_clear(x: u64, k: nat) -> bool {
    forall|f: nat| f < k ==> !#[trigger] bit_at(x, f)
}

proof fn lemma_low_clear_shift(x: u64, k: nat)
    requires
        k <= 63,
        low_clear(x, k),
    ensures
        x == (x >> (k as u64)) << (k as u64),
    decreases k,
{
    if k == 0 {
        assert(x == (x >> 0u64) << 0u64) by (bit_vector);
    } else {
        let j: u64 = (k - 1) as u64;
        let kk: u64 = k as u64;
        lemma_low_clear_shift(x, (k - 1) as nat);
        assert(!bit_at(x, (k - 1) as nat));
        assert((x >> j) & 1 != 1);
        assert(x == (x >> j) << j && (x >> j) & 1 != 1 && j < 63 && kk == j + 1 ==> x == (x >> kk)
            << kk) by (bit_vector);
    }
}

/// A mask without any set bit is zero.
proof fn lemma_all_clear_is_zero(x: u64)
    requires
        low_clear(x, 64),
    ensures
        x == 0,
{
    lemma_low_clear_shift(x, 63);
    assert(!bit_at(x, 63));
    assert((x >> 63u64) & 1 != 1);
    assert(x == (x >> 63u64) << 63u64 && (x >> 63u64) & 1 != 1 ==> x == 0) by (bit_vector);
}

impl FactSet {
    /// Whether `fact` is in the set.
    pub closed spec fn has(self, fact: nat) -> bool {
        fact < 64 && bit_at(self.bits, fact)
    }

    /// The mask behind the set: bit `i` is set exactly when fact `i` is held.
    pub closed spec fn mask(self) -> u64 {
        self.bits
    }

    /// The facts held by both sets.
    pub closed spec fn meet(self, other: FactSet) -> FactSet {
        FactSet { bits: self.bits & other.bits }
    }

    /// The facts held by either set.
    pub closed spec fn join(self, other: FactSet) -> FactSet {
        FactSet { bits: self.bits | other.bits }
    }

    /// The set without any fact.
    pub closed spec fn none() -> FactSet {
        FactSet { bits: 0 }
    }

    /// Every fact of `self` is a fact of `other`.
    pub open spec fn within(self, other: FactSet) -> bool {
        forall|fact: nat| self.has(fact) ==> other.has(fact)
    }

    /// Some fact is held by both sets.
    pub open spec fn overlaps(self, other: FactSet) -> bool {
        exists|fact: nat| self.has(fact) && other.has(fact)
    }

    /// Two sets with the same facts are the same set.
    pub proof fn lemma_extensional(self, other: FactSet)
        requires
            self@ == other@,
        ensures
            self == other,
    {
        let x: u64 = self.bits ^ other.bits;
        assert forall|f: nat| f < 64 implies !#[trigger] bit_at(x, f) by {
            let a: u64 = self.bits;
            let b: u64 = other.bits;
            let i: u64 = f as u64;
            assert(self@.contains(f) <==> self.has(f));
            assert(other@.contains(f) <==> other.has(f));
            assert(self.has(f) == other.has(f));
            assert(i < 64 && (((a >> i) & 1 == 1) == ((b >> i) & 1 == 1)) ==> ((a ^ b) >> i) & 1
                != 1) by (bit_vector);
        }
        lemma_all_clear_is_zero(x);
        let a: u64 = self.bits;
        let b: u64 = other.bits;
        assert(a ^ b == 0 ==> a == b) by (bit_vector);
    }

    /// `meet` is intersection.
    pub proof fn lemma_meet(self, other: FactSet)
        ensures
            self.meet(other)@ == self@.intersect(other@),
            forall|fact: nat|
                #![trigger self.meet(other).has(fact)]
                self.meet(other).has(fact) <==> self.has(fact) && other.has(fact),
    {
        assert forall|fact: nat|
            #![trigger self.meet(other).has(fact)]
            self.meet(other).has(fact) <==> self.has(fact) && other.has(fact) by {
            if fact < 64 {
                let a: u64 = self.bits;
                let b: u64 = other.bits;
                let i: u64 = fact as u64;
                assert(i < 64 ==> ((((a & b) >> i) & 1 == 1) <==> ((a >> i) & 1 == 1 && (b >> i) & 1
                    == 1))) by (bit_vector);
            }
        }
        assert(self.meet(other)@ =~= self@.intersect(other@));
    }

    /// `join` is union.
    pub proof fn lemma_join(self, other: FactSet)
        ensures
            self.join(other)@ == self@.union(other@),
            forall|fact: nat|
                #![trigger self.join(other).has(fact)]
                self.join(other).has(fact) <==> self.has(fact) || other.has(fact),
    {
        assert forall|fact: nat|
            #![trigger self.join(other).has(fact)]
            self.join(other).has(fact) <==> self.has(fact) || other.has(fact) by {
            if fact < 64 {
                let a: u64 = self.bits;
                let b: u64 = other.bits;
                let i: u64 = fact as u64;
                assert(i < 64 ==> ((((a | b) >> i) & 1 == 1) <==> ((a >> i) & 1 == 1 || (b >> i) & 1
                    == 1))) by (bit_vector);
            }
        }
        assert(self.join(other)@ =~= self@.union(other@));
    }

    /// `none` holds nothing.
    pub proof fn lemma_none()
        ensures
            FactSet::none()@ == Set::<nat>::empty(),
            forall|fact: nat| !(#[trigger] FactSet::none().has(fact)),
    {
        assert forall|fact: nat| !(#[trigger] FactSet::none().has(fact)) by {
            if fact < 64 {
                let i: u64 = fact as u64;
                assert(i < 64 ==> (0u64 >> i) & 1 != 1) by (bit_vector);
            }
        }
        assert(FactSet::none()@ =~= Set::<nat>::empty());
    }

    /// The empty set.
    pub fn empty() -> (r: FactSet)
        ensures
            r == FactSet::none(),
            r@ == Set::<nat>::empty(),
    {
        proof {
            FactSet::lemma_none();
        }
        FactSet { bits: 0 }
    }

    /// The set whose mask is `bits`.
    pub fn from_bits(bits: u64) -> (r: FactSet)
        ensures
            r.mask() == bits,
    {
        FactSet { bits }
    }

    /// The mask of the set.
    pub fn bits(&self) -> (r: u64)
        ensures
            r == self.mask(),
    {
        self.bits
    }

    /// The set with `fact` added, or `None` where `fact` is not below the
    /// limit.
    pub fn insert(self, fact: u8) -> (r: Option<FactSet>)
        ensures
            fact >= FACT_LIMIT ==> r.is_none(),
            fact < FACT_LIMIT ==> r.is_some() && r.unwrap()@ == self@.insert(fact as nat),
    {
        if fact >= FACT_LIMIT {
            return None;
        }
        let bit: u64 = 1u64 << (fact as u64);
        let out = FactSet { bits: self.bits | bit };
        proof {
            let a: u64 = self.bits;
            let g: u64 = fact as u64;
            assert forall|f: nat| out.has(f) <==> (self.has(f) || f == fact as nat) by {
                if f < 64 {
                    let i: u64 = f as u64;
                    assert(i < 64 && g < 64 ==> ((((a | (1u64 << g)) >> i) & 1 == 1) <==> ((a >> i)
                        & 1 == 1 || i == g))) by (bit_vector);
                }
            }
            assert(out@ =~= self@.insert(fact as nat));
        }
        Some(out)
    }

    /// Whether `fact` is held.
    pub fn contains(&self, fact: u8) -> (r: bool)
        ensures
            r == self@.contains(fact as nat),
    {
        if fact >= FACT_LIMIT {
            return false;
        }
        (self.bits >> (fact as u64)) & 1 == 1
    }

    /// Whether no fact is held.
    pub fn is_empty(&self) -> (r: bool)
        ensures
            r == (self@ == Set::<nat>::empty()),
            r == (*self == FactSet::none()),
    {
        proof {
            FactSet::lemma_none();
            if self.bits != 0 {
                if self@ == Set::<nat>::empty() {
                    self.lemma_extensional(FactSet::none());
                }
            }
        }
        self.bits == 0
    }

    /// The facts held by both.
    pub fn intersection(self, other: FactSet) -> (r: FactSet)
        ensures
            r == self.meet(other),
            r@ == self@.intersect(other@),
    {
        proof {
            self.lemma_meet(other);
        }
        FactSet { bits: self.bits & other.bits }
    }

    /// The facts held by either.
    pub fn union(self, other: FactSet) -> (r: FactSet)
        ensures
            r == self.join(other),
            r@ == self@.union(other@),
    {
        proof {
            self.lemma_join(other);
        }
        FactSet { bits: self.bits | other.bits }
    }

    /// Whether every fact of `self` is held by `other`.
    pub fn is_subset_of(&self, other: &FactSet) -> (r: bool)
        ensures
            r == self.within(*other),
            r == self@.subset_of(other@),
    {
        let both = self.intersection(*other);
        proof {
            self.lemma_meet(*other);
            if self@.subset_of(other@) {
                assert forall|fact: nat| self.has(fact) implies other.has(fact) by {
                    assert(self@.contains(fact));
                    assert(other@.contains(fact));
                }
            }
            if self.within(*other) {
                assert(both@ =~= self@);
                both.lemma_extensional(*self);
                assert(self@.subset_of(other@));
            }
            if both.bits == self.bits {
                assert(both == *self);
            }
        }
        both.bits == self.bits
    }

    /// Whether the two sets share a fact.
    pub fn intersects(&self, other: &FactSet) -> (r: bool)
        ensures
            r == self.overlaps(*other),
            r == !self@.disjoint(other@),
    {
        let both = self.intersection(*other);
        proof {
            self.lemma_meet(*other);
            FactSet::lemma_none();
            if both.bits == 0 {
                assert(both == FactSet::none());
                assert forall|fact: nat| !(self.has(fact) && other.has(fact)) by {
                    assert(!both.has(fact));
                }
            } else {
                if !self.overlaps(*other) {
                    assert(both@ =~= FactSet::none()@);
                    both.lemma_extensional(FactSet::none());
                }
                let w = choose|fact: nat| self.has(fact) && other.has(fact);
                assert(self@.contains(w) && other@.contains(w));
            }
        }
        both.bits != 0
    }
}

} // verus!
