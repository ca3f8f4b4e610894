//! Reachability in finite graphs whose nodes are numbered from zero.

use vstd::prelude::*;

verus! {

/// `rel` relates `a` to `b`.
pub open spec fn step(rel: spec_fn(int, int) -> bool, a: int, b: int) -> bool {
    rel(a, b)
}

/// `b` can be reached from `a` in exactly `k` steps of `rel`.
pub open spec fn reach_in(rel: spec_fn(int, int) -> bool, a: int, b: int, k: nat) -> bool
    decreases k,
{
    if k == 0 {
        a == b
    } else {
        exists|m: int| reach_in(rel, a, m, (k - 1) as nat) && #[trigger] step(rel, m, b)
    }
}

/// `b` can be reached from `a` in any number of steps, none included.
pub open spec fn reaches(rel: spec_fn(int, int) -> bool, a: int, b: int) -> bool {
    exists|k: nat| reach_in(rel, a, b, k)
}

/// `b` can be reached from `a` in at least one step.
pub open spec fn reaches_plus(rel: spec_fn(int, int) -> bool, a: int, b: int) -> bool {
    exists|m: int| #[trigger] step(rel, a, m) && reaches(rel, m, b)
}

/// The list holds `b`.
pub open spec fn listed(list: Seq<usize>, b: int) -> bool {
    exists|i: int| 0 <= i < list.len() && #[trigger] list[i] == b
}

/// The list of `a` holds `b`.
pub open spec fn has_edge(adj: Seq<Vec<usize>>, a: int, b: int) -> bool {
    0 <= a < adj.len() && listed(adj[a]@, b)
}

/// The relation that adjacency lists stand for.
pub open spec fn edge_rel(adj: Seq<Vec<usize>>) -> spec_fn(int, int) -> bool {
    |a: int, b: int| has_edge(adj, a, b)
}

/// Every listed node is a node of the graph.
pub open spec fn lists_valid(adj: Seq<Vec<usize>>) -> bool {
    forall|a: int, i: int|
        0 <= a < adj.len() && 0 <= i < adj[a]@.len() ==> (#[trigger] adj[a]@[i]) < adj.len()
}

/// A path can be extended by one step at its end.
pub proof fn lemma_reaches_step(rel: spec_fn(int, int) -> bool, a: int, m: int, b: int)
    requires
        reaches(rel, a, m),
        rel(m, b),
    ensures
        reaches(rel, a, b),
{
    let k = choose|k: nat| reach_in(rel, a, m, k);
    assert(step(rel, m, b));
    assert(reach_in(rel, a, b, k + 1));
}

/// Every node reaches itself.
pub proof fn lemma_reaches_self(rel: spec_fn(int, int) -> bool, a: int)
    ensures
        reaches(rel, a, a),
{
    assert(reach_in(rel, a, a, 0));
}

/// Paths can be joined.
pub proof fn lemma_reach_in_join(
    rel: spec_fn(int, int) -> bool,
    a: int,
    m: int,
    b: int,
    j: nat,
    k: nat,
)
    requires
        reach_in(rel, a, m, j),
        reach_in(rel, m, b, k),
    ensures
        reach_in(rel, a, b, j + k),
    decreases k,
{
    if k > 0 {
        let x = choose|x: int| reach_in(rel, m, x, (k - 1) as nat) && #[trigger] step(rel, x, b);
        lemma_reach_in_join(rel, a, m, x, j, (k - 1) as nat);
        assert(reach_in(rel, a, x, (j + k - 1) as nat));
        assert(step(rel, x, b));
    }
}

/// A path of at least one step has a last step.
pub proof fn lemma_plus_last(rel: spec_fn(int, int) -> bool, a: int, b: int)
    requires
        reaches_plus(rel, a, b),
    ensures
        exists|m: int| reaches(rel, a, m) && #[trigger] step(rel, m, b),
{
    let x = choose|x: int| #[trigger] step(rel, a, x) && reaches(rel, x, b);
    let k = choose|k: nat| reach_in(rel, x, b, k);
    assert(reach_in(rel, a, a, 0));
    assert(reach_in(rel, a, x, 1));
    lemma_reach_in_join(rel, a, x, b, 1, k);
    assert(reach_in(rel, a, b, 1 + k));
    let m = choose|m: int| reach_in(rel, a, m, k) && #[trigger] step(rel, m, b);
    assert(reaches(rel, a, m));
}

/// A path that ends in a step is a path of at least one step.
pub proof fn lemma_plus_from_last(rel: spec_fn(int, int) -> bool, a: int, m: int, b: int)
    requires
        reaches(rel, a, m),
        rel(m, b),
    ensures
        reaches_plus(rel, a, b),
{
    let k = choose|k: nat| reach_in(rel, a, m, k);
    lemma_first_step(rel, a, m, b, k);
}

proof fn lemma_first_step(rel: spec_fn(int, int) -> bool, a: int, m: int, b: int, k: nat)
    requires
        reach_in(rel, a, m, k),
        rel(m, b),
    ensures
        reaches_plus(rel, a, b),
    decreases k,
{
    if k == 0 {
        assert(step(rel, a, b));
        lemma_reaches_self(rel, b);
    } else {
        let x = choose|x: int| reach_in(rel, a, x, (k - 1) as nat) && #[trigger] step(rel, x, m);
        lemma_first_step(rel, a, x, m, (k - 1) as nat);
        let y = choose|y: int| #[trigger] step(rel, a, y) && reaches(rel, y, m);
        lemma_reaches_step(rel, y, m, b);
    }
}

/// Relations that agree on every pair have the same paths.
pub proof fn lemma_reach_in_agree(
    r1: spec_fn(int, int) -> bool,
    r2: spec_fn(int, int) -> bool,
    a: int,
    b: int,
    k: nat,
)
    requires
        forall|x: int, y: int| #[trigger] step(r1, x, y) == step(r2, x, y),
        reach_in(r1, a, b, k),
    ensures
        reach_in(r2, a, b, k),
    decreases k,
{
    if k > 0 {
        let m = choose|m: int| reach_in(r1, a, m, (k - 1) as nat) && #[trigger] step(r1, m, b);
        lemma_reach_in_agree(r1, r2, a, m, (k - 1) as nat);
        assert(step(r2, m, b));
    }
}

/// Relations that agree on every pair reach the same nodes.
pub proof fn lemma_reaches_agree(
    r1: spec_fn(int, int) -> bool,
    r2: spec_fn(int, int) -> bool,
    a: int,
    b: int,
)
    requires
        forall|x: int, y: int| #[trigger] step(r1, x, y) == step(r2, x, y),
    ensures
        reaches(r1, a, b) == reaches(r2, a, b),
        reaches_plus(r1, a, b) == reaches_plus(r2, a, b),
{
    if reaches(r1, a, b) {
        let k = choose|k: nat| reach_in(r1, a, b, k);
        lemma_reach_in_agree(r1, r2, a, b, k);
    }
    if reaches(r2, a, b) {
        let k = choose|k: nat| reach_in(r2, a, b, k);
        lemma_reach_in_agree(r2, r1, a, b, k);
    }
    if reaches_plus(r1, a, b) {
        let m = choose|m: int| #[trigger] step(r1, a, m) && reaches(r1, m, b);
        let k = choose|k: nat| reach_in(r1, m, b, k);
        lemma_reach_in_agree(r1, r2, m, b, k);
        assert(step(r2, a, m));
    }
    if reaches_plus(r2, a, b) {
        let m = choose|m: int| #[trigger] step(r2, a, m) && reaches(r2, m, b);
        let k = choose|k: nat| reach_in(r2, m, b, k);
        lemma_reach_in_agree(r2, r1, m, b, k);
        assert(step(r1, a, m));
    }
}

/// The number of `false` entries.
pub open spec fn count_false(s: Seq<bool>) -> nat
    decreases s.len(),
{
    if s.len() == 0 {
        0
    } else {
        count_false(s.drop_last()) + if s.last() {
            0nat
        } else {
            1nat
        }
    }
}

/// Marking an unmarked entry leaves one unmarked entry less.
pub proof fn lemma_count_false_update(s: Seq<bool>, i: int)
    requires
        0 <= i < s.len(),
        !s[i],
    ensures
        count_false(s.update(i, true)) + 1 == count_false(s),
    decreases s.len(),
{
    let t = s.update(i, true);
    if i == s.len() - 1 {
        assert(t.drop_last() =~= s.drop_last());
    } else {
        lemma_count_false_update(s.drop_last(), i);
        assert(t.drop_last() =~= s.drop_last().update(i, true));
    }
}

/// Where no entry is unmarked, every entry is marked.
pub proof fn lemma_count_false_zero(s: Seq<bool>, i: int)
    requires
        count_false(s) == 0,
        0 <= i < s.len(),
    ensures
        s[i],
    decreases s.len(),
{
    if i < s.len() - 1 {
        lemma_count_false_zero(s.drop_last(), i);
    }
}

/// Where every entry is unmarked, there are as many unmarked entries as
/// entries.
pub proof fn lemma_count_false_all(s: Seq<bool>)
    requires
        forall|i: int| 0 <= i < s.len() ==> !s[i],
    ensures
        count_false(s) == s.len(),
    decreases s.len(),
{
    if s.len() > 0 {
        lemma_count_false_all(s.drop_last());
    }
}

/// Every marked node outside of `work` has only marked successors.
spec fn closed_but(adj: Seq<Vec<usize>>, marks: Seq<bool>, work: Seq<usize>) -> bool {
    forall|v: int, i: int|
        #![trigger adj[v]@[i]]
        0 <= v < adj.len() && marks[v] && !work.contains(v as usize) && 0 <= i < adj[v]@.len()
            ==> marks[adj[v]@[i] as int]
}

proof fn lemma_closed_holds_all(adj: Seq<Vec<usize>>, marks: Seq<bool>, root: int, b: int, k: nat)
    requires
        lists_valid(adj),
        marks.len() == adj.len(),
        0 <= root < adj.len(),
        marks[root],
        closed_but(adj, marks, Seq::empty()),
        reach_in(edge_rel(adj), root, b, k),
    ensures
        0 <= b < adj.len(),
        marks[b],
    decreases k,
{
    if k > 0 {
        let rel = edge_rel(adj);
        let m = choose|m: int| reach_in(rel, root, m, (k - 1) as nat) && #[trigger] step(rel, m, b);
        lemma_closed_holds_all(adj, marks, root, m, (k - 1) as nat);
        assert(has_edge(adj, m, b));
        let i = choose|i: int| 0 <= i < adj[m]@.len() && #[trigger] adj[m]@[i] == b;
        assert(!Seq::<usize>::empty().contains(m as usize));
        assert(marks[adj[m]@[i] as int]);
    }
}

/// `n` entries, all `false`.
pub(crate) fn falses(n: usize) -> (v: Vec<bool>)
    ensures
        v@.len() == n,
        forall|i: int| 0 <= i < n ==> !v@[i],
{
    let mut v: Vec<bool> = Vec::new();
    while v.len() < n
        invariant
            v@.len() <= n,
            forall|i: int| 0 <= i < v@.len() ==> !v@[i],
        decreases n - v@.len(),
    {
        v.push(false);
    }
    v
}

/// Marks the nodes that can be reached from `root`.
pub(crate) fn closure(adj: &Vec<Vec<usize>>, root: usize) -> (marks: Vec<bool>)
    requires
        lists_valid(adj@),
        root < adj@.len(),
    ensures
        marks@.len() == adj@.len(),
        forall|v: int| 0 <= v < adj@.len() ==> marks@[v] == reaches(edge_rel(adj@), root as int, v),
        forall|v: int| reaches(edge_rel(adj@), root as int, v) ==> 0 <= v < adj@.len(),
{
    let n: usize = adj.len();
    let ghost rel = edge_rel(adj@);
    let mut marks = falses(n);
    let mut work: Vec<usize> = Vec::new();
    marks.set(root, true);
    work.push(root);
    proof {
        lemma_reaches_self(rel, root as int);
        assert(work@.contains(root)) by {
            assert(work@[0] == root);
        }
        assert forall|v: int, i: int|
            #![trigger adj@[v]@[i]]
            0 <= v < adj@.len() && marks@[v] && !work@.contains(v as usize) && 0 <= i
                < adj@[v]@.len() implies marks@[adj@[v]@[i] as int] by {
            assert(v == root);
        }
    }
    while work.len() > 0
        invariant
            n == adj@.len(),
            lists_valid(adj@),
            rel == edge_rel(adj@),
            root < n,
            marks@.len() == n,
            marks@[root as int],
            forall|i: int| 0 <= i < work@.len() ==> work@[i] < n && marks@[work@[i] as int],
            forall|v: int| 0 <= v < n && marks@[v] ==> reaches(rel, root as int, v),
            closed_but(adj@, marks@, work@),
        decreases count_false(marks@) + work@.len(),
    {
        let ghost before = work@;
        let v: usize = work.pop().unwrap();
        let ghost base = work@;
        let ghost entry_marks = marks@;
        let ghost measure = count_false(marks@) + work@.len();
        let list = &adj[v];
        let mut j: usize = 0;
        while j < list.len()
            invariant
                n == adj@.len(),
                lists_valid(adj@),
                rel == edge_rel(adj@),
                root < n,
                v < n,
                list == &adj@[v as int],
                j <= list@.len(),
                marks@.len() == n,
                marks@[root as int],
                base.len() <= work@.len(),
                work@.subrange(0, base.len() as int) == base,
                before == base.push(v),
                forall|i: int| 0 <= i < work@.len() ==> work@[i] < n && marks@[work@[i] as int],
                forall|u: int| 0 <= u < n && entry_marks[u] ==> marks@[u],
                forall|u: int|
                    0 <= u < n && marks@[u] && !entry_marks[u] ==> work@.contains(u as usize),
                forall|u: int| 0 <= u < n && marks@[u] ==> reaches(rel, root as int, u),
                reaches(rel, root as int, v as int),
                forall|i: int| 0 <= i < j ==> marks@[list@[i] as int],
                closed_but(adj@, entry_marks, before),
                entry_marks.len() == n,
                count_false(marks@) + work@.len() == measure,
            decreases list@.len() - j,
        {
            let t: usize = list[j];
            assert(t < n);
            if !marks[t] {
                proof {
                    lemma_count_false_update(marks@, t as int);
                    assert(has_edge(adj@, v as int, t as int));
                    assert(rel(v as int, t as int));
                    lemma_reaches_step(rel, root as int, v as int, t as int);
                }
                let ghost prior = work@;
                marks.set(t, true);
                work.push(t);
                proof {
                    assert(work@.subrange(0, base.len() as int) =~= prior.subrange(
                        0,
                        base.len() as int,
                    ));
                    assert forall|u: int|
                        0 <= u < n && marks@[u] && !entry_marks[u] implies work@.contains(
                        u as usize,
                    ) by {
                        if u == t {
                            assert(work@[work@.len() - 1] == t);
                        } else {
                            let i = choose|i: int| 0 <= i < prior.len() && prior[i] == u as usize;
                            assert(work@[i] == u as usize);
                        }
                    }
                }
            }
            j += 1;
        }
        proof {
            assert forall|u: int, i: int|
                #![trigger adj@[u]@[i]]
                0 <= u < adj@.len() && marks@[u] && !work@.contains(u as usize) && 0 <= i
                    < adj@[u]@.len() implies marks@[adj@[u]@[i] as int] by {
                if u == v {
                    assert(marks@[list@[i] as int]);
                } else {
                    assert(entry_marks[u]);
                    if before.contains(u as usize) {
                        let x = choose|x: int| 0 <= x < before.len() && before[x] == u as usize;
                        assert(x < base.len());
                        assert(work@.subrange(0, base.len() as int)[x] == base[x]);
                        assert(work@[x] == u as usize);
                    }
                    assert(!before.contains(u as usize));
                    assert(entry_marks[adj@[u]@[i] as int]);
                }
            }
        }
    }
    proof {
        assert(work@ =~= Seq::<usize>::empty());
        assert forall|v: int| 0 <= v < adj@.len() implies marks@[v] == reaches(
            rel,
            root as int,
            v,
        ) by {
            if reaches(rel, root as int, v) {
                let k = choose|k: nat| reach_in(rel, root as int, v, k);
                lemma_closed_holds_all(adj@, marks@, root as int, v, k);
            }
        }
        assert forall|v: int| reaches(rel, root as int, v) implies 0 <= v < adj@.len() by {
            let k = choose|k: nat| reach_in(rel, root as int, v, k);
            lemma_closed_holds_all(adj@, marks@, root as int, v, k);
        }
    }
    marks
}

} // verus!
