//! Nothing in reach is passed over: the order of the walk holds every block
//! that can be reached from the entry block, each after a block that leads to
//! it, and the walk walks every one of them.

use crate::catalog::{ApiEntry, SafetyContract};
use crate::driver::check_results;
use crate::facts::FactSet;
use crate::graph::{
    count_false, lemma_count_false_all, lemma_count_false_update, lemma_count_false_zero, listed,
    reach_in, reaches, step,
};
use crate::order::{
    lemma_depth_suffices, lemma_successors_valid, postorder, successors, unsearched, visit,
    visit_first, walk_order, Search,
};
use crate::program::{well_formed, Block, Edge, Function, Terminator};
use crate::resolver::all_targets;
use crate::summary::function_walk;
use crate::visitor::{block_findings, call_findings, check_call, findings_first, Finding};
use crate::walk::{arrive, leave_first, start, walk_block, walk_first, walked, Known, Walk};
use vstd::prelude::*;

verus! {

/// Control may move from block `a` to block `b`.
pub open spec fn leads_to(blocks: Seq<Block>, a: int, b: int) -> bool {
    0 <= a < blocks.len() && listed(successors(blocks[a]), b)
}

/// The relation `leads_to` of a body.
pub open spec fn flow_rel(blocks: Seq<Block>) -> spec_fn(int, int) -> bool {
    |a: int, b: int| leads_to(blocks, a, b)
}

/// Control only moves to blocks of the body.
pub open spec fn flows_inside(blocks: Seq<Block>) -> bool {
    forall|x: int, i: int|
        #![trigger successors(blocks[x])[i]]
        0 <= x < blocks.len() && 0 <= i < successors(blocks[x]).len() ==> successors(
            blocks[x],
        )[i] < blocks.len()
}

/// Every block to which control may move from `x` has been entered.
pub open spec fn successors_entered(blocks: Seq<Block>, entered: Seq<bool>, x: int) -> bool {
    forall|j: int|
        0 <= j < successors(blocks[x]).len() ==> entered[(#[trigger] successors(
            blocks[x],
        )[j]) as int]
}

/// `x` has been entered in `after` and had not been entered in `before`.
pub open spec fn fresh(before: Search, after: Search, x: int) -> bool {
    0 <= x < after.entered.len() && after.entered[x] && !before.entered[x]
}

/// `x` was left at or after position `from`.
pub open spec fn left_from(left: Seq<usize>, from: int, x: int) -> bool {
    exists|i: int| from <= i < left.len() && #[trigger] left[i] == x
}

/// A block that leads to the block at position `i` was left later.
pub open spec fn has_parent_later(blocks: Seq<Block>, left: Seq<usize>, i: int) -> bool {
    exists|j: int| i < j < left.len() && leads_to(blocks, #[trigger] left[j] as int, left[i] as int)
}

/// `x` is one of the first `k` of `roots`.
pub open spec fn among_first(roots: Seq<usize>, k: int, x: int) -> bool {
    exists|j: int| 0 <= j < k && #[trigger] roots[j] == x
}

/// The block at position `i` is one of the roots of the search or was entered
/// from a block that was left later.
pub open spec fn accounted(
    blocks: Seq<Block>,
    left: Seq<usize>,
    i: int,
    roots: Seq<usize>,
    k: int,
) -> bool {
    among_first(roots, k, left[i] as int) || has_parent_later(blocks, left, i)
}

/// What a search does to its state: blocks are entered and never un-entered,
/// every block that is entered is left, and every block that is left has all
/// its successors entered.
pub open spec fn searched(blocks: Seq<Block>, before: Search, after: Search) -> bool {
    &&& after.entered.len() == before.entered.len()
    &&& before.left.len() <= after.left.len()
    &&& after.left.subrange(0, before.left.len() as int) == before.left
    &&& forall|v: int|
        0 <= v < before.entered.len() && #[trigger] before.entered[v] ==> after.entered[v]
    &&& forall|i: int|
        before.left.len() <= i < after.left.len() ==> fresh(
            before,
            after,
            (#[trigger] after.left[i]) as int,
        )
    &&& forall|v: int| #[trigger]
        fresh(before, after, v) ==> left_from(after.left, before.left.len() as int, v)
    &&& forall|i: int|
        before.left.len() <= i < after.left.len() ==> successors_entered(
            blocks,
            after.entered,
            (#[trigger] after.left[i]) as int,
        )
}

proof fn lemma_successors_stay_entered(blocks: Seq<Block>, a: Seq<bool>, b: Seq<bool>, x: int)
    requires
        flows_inside(blocks),
        0 <= x < blocks.len(),
        a.len() == blocks.len(),
        b.len() == a.len(),
        forall|v: int| 0 <= v < a.len() && #[trigger] a[v] ==> b[v],
        successors_entered(blocks, a, x),
    ensures
        successors_entered(blocks, b, x),
{
    assert forall|j: int| 0 <= j < successors(blocks[x]).len() implies b[(#[trigger] successors(
        blocks[x],
    )[j]) as int] by {
        let s = successors(blocks[x])[j] as int;
        assert(a[s]);
    }
}

/// Two searches, one after the other, are a search.
proof fn lemma_searched_twice(blocks: Seq<Block>, a: Search, b: Search, c: Search)
    requires
        flows_inside(blocks),
        a.entered.len() == blocks.len(),
        searched(blocks, a, b),
        searched(blocks, b, c),
    ensures
        searched(blocks, a, c),
{
    assert(c.left.subrange(0, a.left.len() as int) =~= a.left) by {
        assert forall|i: int| 0 <= i < a.left.len() implies c.left[i] == a.left[i] by {
            assert(c.left.subrange(0, b.left.len() as int)[i] == b.left[i]);
            assert(b.left.subrange(0, a.left.len() as int)[i] == a.left[i]);
        }
    }
    assert forall|i: int| a.left.len() <= i < c.left.len() implies fresh(
        a,
        c,
        (#[trigger] c.left[i]) as int,
    ) && successors_entered(blocks, c.entered, c.left[i] as int) by {
        if i < b.left.len() {
            assert(c.left.subrange(0, b.left.len() as int)[i] == b.left[i]);
            let x = b.left[i] as int;
            assert(fresh(a, b, x));
            assert(b.entered[x]);
            assert(successors_entered(blocks, b.entered, x));
            lemma_successors_stay_entered(blocks, b.entered, c.entered, x);
        } else {
            let x = c.left[i] as int;
            assert(fresh(b, c, x));
            if a.entered[x] {
                assert(b.entered[x]);
            }
        }
    }
    assert forall|v: int| #[trigger] fresh(a, c, v) implies left_from(
        c.left,
        a.left.len() as int,
        v,
    ) by {
        if b.entered[v] {
            assert(fresh(a, b, v));
            let i = choose|i: int| a.left.len() <= i < b.left.len() && #[trigger] b.left[i] == v;
            assert(c.left.subrange(0, b.left.len() as int)[i] == b.left[i]);
            assert(c.left[i] == v);
        } else {
            assert(fresh(b, c, v));
            let i = choose|i: int| b.left.len() <= i < c.left.len() && #[trigger] c.left[i] == v;
            assert(a.left.len() <= i);
        }
    }
}

/// What a search from one block does.
pub proof fn lemma_visit(blocks: Seq<Block>, b: int, search: Search, depth: nat)
    requires
        flows_inside(blocks),
        search.entered.len() == blocks.len(),
        0 <= b < blocks.len(),
        blocks.len() <= usize::MAX,
        count_false(search.entered) <= depth,
    ensures
        searched(blocks, search, visit(blocks, b, search, depth)),
        visit(blocks, b, search, depth).entered[b],
        count_false(visit(blocks, b, search, depth).entered) <= count_false(search.entered),
        forall|i: int|
            search.left.len() <= i < visit(blocks, b, search, depth).left.len()
                ==> #[trigger] accounted(
                blocks,
                visit(blocks, b, search, depth).left,
                i,
                seq![b as usize],
                1,
            ),
        !search.entered[b] ==> visit(blocks, b, search, depth).left.len() > search.left.len()
            && visit(blocks, b, search, depth).left.last() == b,
    decreases depth, 0nat,
{
    let after = visit(blocks, b, search, depth);
    lemma_depth_suffices(blocks, b, search, depth, depth);
    if search.entered[b] {
        assert(after == search);
        assert(after.left.subrange(0, search.left.len() as int) =~= search.left);
    } else {
        if depth == 0 {
            lemma_count_false_zero(search.entered, b);
        }
        let inside = Search { entered: search.entered.update(b, true), left: search.left };
        lemma_count_false_update(search.entered, b);
        let next = successors(blocks[b]);
        let mid = visit_first(blocks, next, next.len(), inside, (depth - 1) as nat);
        assert forall|j: int| 0 <= j < next.len() implies (#[trigger] next[j]) < blocks.len() by {
            assert(successors(blocks[b])[j] < blocks.len());
        }
        lemma_visit_first(blocks, next, next.len(), inside, (depth - 1) as nat);
        assert(after.entered == mid.entered);
        assert(after.left == mid.left.push(b as usize));
        let last = after.left.len() - 1;
        assert(after.left[last] == b);
        assert(after.left.subrange(0, search.left.len() as int) =~= search.left) by {
            assert forall|i: int| 0 <= i < search.left.len() implies after.left[i]
                == search.left[i] by {
                assert(mid.left.subrange(0, inside.left.len() as int)[i] == inside.left[i]);
            }
        }
        assert(mid.entered[b]) by {
            assert(inside.entered[b]);
        }
        assert forall|v: int|
            0 <= v < search.entered.len() && #[trigger] search.entered[v] implies after.entered[v]
        by {
            assert(inside.entered[v]);
        }
        assert forall|i: int| search.left.len() <= i < after.left.len() implies fresh(
            search,
            after,
            (#[trigger] after.left[i]) as int,
        ) && successors_entered(blocks, after.entered, after.left[i] as int) && accounted(
            blocks,
            after.left,
            i,
            seq![b as usize],
            1,
        ) by {
            if i < mid.left.len() {
                let x = mid.left[i] as int;
                assert(after.left[i] == mid.left[i]);
                assert(fresh(inside, mid, x));
                assert(successors_entered(blocks, mid.entered, x));
                assert(accounted(blocks, mid.left, i, next, next.len() as int));
                if among_first(next, next.len() as int, x) {
                    let j = choose|j: int| 0 <= j < next.len() && #[trigger] next[j] == x;
                    assert(listed(next, x));
                    assert(leads_to(blocks, after.left[last] as int, after.left[i] as int));
                    assert(has_parent_later(blocks, after.left, i));
                } else {
                    let j = choose|j: int|
                        i < j < mid.left.len() && leads_to(
                            blocks,
                            #[trigger] mid.left[j] as int,
                            mid.left[i] as int,
                        );
                    assert(after.left[j] == mid.left[j]);
                    assert(has_parent_later(blocks, after.left, i));
                }
            } else {
                assert(after.left[i] == b);
                assert(fresh(search, after, b));
                assert forall|j: int| 0 <= j < next.len() implies mid.entered[(
                #[trigger] next[j]) as int] by {
                    assert(among_first(next, next.len() as int, next[j] as int));
                }
                assert(seq![b as usize][0] == b);
                assert(among_first(seq![b as usize], 1, b));
            }
        }
        assert forall|v: int| #[trigger] fresh(search, after, v) implies left_from(
            after.left,
            search.left.len() as int,
            v,
        ) by {
            if v == b {
                assert(after.left[last] == v);
            } else {
                assert(fresh(inside, mid, v));
                let i = choose|i: int|
                    inside.left.len() <= i < mid.left.len() && #[trigger] mid.left[i] == v;
                assert(after.left[i] == v);
            }
        }
    }
}

/// What a search from several blocks does.
pub proof fn lemma_visit_first(
    blocks: Seq<Block>,
    next: Seq<usize>,
    k: nat,
    search: Search,
    depth: nat,
)
    requires
        flows_inside(blocks),
        search.entered.len() == blocks.len(),
        blocks.len() <= usize::MAX,
        k <= next.len(),
        forall|j: int| 0 <= j < next.len() ==> (#[trigger] next[j]) < blocks.len(),
        count_false(search.entered) <= depth,
    ensures
        searched(blocks, search, visit_first(blocks, next, k, search, depth)),
        count_false(visit_first(blocks, next, k, search, depth).entered) <= count_false(
            search.entered,
        ),
        forall|x: int| #[trigger]
            among_first(next, k as int, x) ==> visit_first(
                blocks,
                next,
                k,
                search,
                depth,
            ).entered[x],
        forall|i: int|
            search.left.len() <= i < visit_first(blocks, next, k, search, depth).left.len()
                ==> #[trigger] accounted(
                blocks,
                visit_first(blocks, next, k, search, depth).left,
                i,
                next,
                k as int,
            ),
    decreases depth, k,
{
    let after = visit_first(blocks, next, k, search, depth);
    if k == 0 {
        assert(after.left.subrange(0, search.left.len() as int) =~= search.left);
    } else {
        let mid = visit_first(blocks, next, (k - 1) as nat, search, depth);
        let b = next[k - 1] as int;
        lemma_visit_first(blocks, next, (k - 1) as nat, search, depth);
        lemma_visit(blocks, b, mid, depth);
        lemma_searched_twice(blocks, search, mid, after);
        assert forall|x: int| #[trigger]
            among_first(next, k as int, x) implies after.entered[x] by {
            let j = choose|j: int| 0 <= j < k && #[trigger] next[j] == x;
            if j < k - 1 {
                assert(among_first(next, k - 1, x));
                assert(mid.entered[x]);
            }
        }
        assert forall|i: int|
            search.left.len() <= i < after.left.len() implies #[trigger] accounted(
            blocks,
            after.left,
            i,
            next,
            k as int,
        ) by {
            if i < mid.left.len() {
                assert(after.left.subrange(0, mid.left.len() as int)[i] == mid.left[i]);
                assert(accounted(blocks, mid.left, i, next, k - 1));
                if among_first(next, k - 1, mid.left[i] as int) {
                    let j = choose|j: int| 0 <= j < k - 1 && #[trigger] next[j] == mid.left[i];
                    assert(among_first(next, k as int, after.left[i] as int));
                } else {
                    let j = choose|j: int|
                        i < j < mid.left.len() && leads_to(
                            blocks,
                            #[trigger] mid.left[j] as int,
                            mid.left[i] as int,
                        );
                    assert(after.left.subrange(0, mid.left.len() as int)[j] == mid.left[j]);
                    assert(has_parent_later(blocks, after.left, i));
                }
            } else {
                assert(accounted(blocks, after.left, i, seq![b as usize], 1));
                if among_first(seq![b as usize], 1, after.left[i] as int) {
                    assert(next[k - 1] == after.left[i]);
                    assert(among_first(next, k as int, after.left[i] as int));
                }
            }
        }
    }
}

/// Every block in reach of an entered block whose successors are all entered
/// is entered.
proof fn lemma_entered_is_closed(blocks: Seq<Block>, entered: Seq<bool>, b: int, k: nat)
    requires
        flows_inside(blocks),
        entered.len() == blocks.len(),
        blocks.len() >= 1,
        entered[0],
        forall|v: int|
            0 <= v < entered.len() && #[trigger] entered[v] ==> successors_entered(
                blocks,
                entered,
                v,
            ),
        reach_in(flow_rel(blocks), 0, b, k),
    ensures
        0 <= b < blocks.len(),
        entered[b],
    decreases k,
{
    if k > 0 {
        let rel = flow_rel(blocks);
        let m = choose|m: int| reach_in(rel, 0, m, (k - 1) as nat) && #[trigger] step(rel, m, b);
        lemma_entered_is_closed(blocks, entered, m, (k - 1) as nat);
        assert(leads_to(blocks, m, b));
        let j = choose|j: int|
            0 <= j < successors(blocks[m]).len() && #[trigger] successors(blocks[m])[j] == b;
        assert(successors_entered(blocks, entered, m));
        assert(entered[successors(blocks[m])[j] as int]);
    }
}

/// The search from the entry block leaves every block in reach, and leaves
/// every block but the entry block before a block that leads to it.
pub proof fn lemma_postorder(blocks: Seq<Block>)
    requires
        flows_inside(blocks),
        1 <= blocks.len() <= usize::MAX,
    ensures
        forall|i: int|
            0 <= i < postorder(blocks).len() ==> (#[trigger] postorder(blocks)[i]) < blocks.len(),
        forall|b: int| reaches(flow_rel(blocks), 0, b) ==> #[trigger] listed(postorder(blocks), b),
        forall|i: int|
            #![trigger postorder(blocks)[i]]
            0 <= i < postorder(blocks).len() ==> postorder(blocks)[i] == 0 || has_parent_later(
                blocks,
                postorder(blocks),
                i,
            ),
{
    let first = unsearched(blocks.len());
    let after = visit(blocks, 0, first, blocks.len());
    let left = postorder(blocks);
    lemma_count_false_all(first.entered);
    lemma_visit(blocks, 0, first, blocks.len());
    assert forall|i: int| 0 <= i < left.len() implies (#[trigger] left[i]) < blocks.len() by {
        assert(fresh(first, after, left[i] as int));
    }
    assert forall|v: int|
        0 <= v < after.entered.len() && #[trigger] after.entered[v] implies successors_entered(
        blocks,
        after.entered,
        v,
    ) by {
        assert(fresh(first, after, v));
        let i = choose|i: int| 0 <= i < left.len() && #[trigger] left[i] == v;
        assert(successors_entered(blocks, after.entered, left[i] as int));
    }
    assert forall|b: int| reaches(flow_rel(blocks), 0, b) implies #[trigger] listed(left, b) by {
        let k = choose|k: nat| reach_in(flow_rel(blocks), 0, b, k);
        lemma_entered_is_closed(blocks, after.entered, b, k);
        assert(fresh(first, after, b));
        let i = choose|i: int| 0 <= i < left.len() && #[trigger] left[i] == b;
    }
    assert forall|i: int|
        #![trigger left[i]]
        0 <= i < left.len() implies left[i] == 0 || has_parent_later(blocks, left, i) by {
        assert(accounted(blocks, left, i, seq![0usize], 1));
        if among_first(seq![0usize], 1, left[i] as int) {
            let j = choose|j: int| 0 <= j < 1 && #[trigger] seq![0usize][j] == left[i];
        }
    }
}

/// A block that leads to the block at position `i` stands earlier.
pub open spec fn has_parent_earlier(blocks: Seq<Block>, order: Seq<usize>, i: int) -> bool {
    exists|j: int| 0 <= j < i && leads_to(blocks, #[trigger] order[j] as int, order[i] as int)
}

/// The order of the walk holds every block in reach of the entry block, and
/// every block in it but the entry block stands after a block that leads to
/// it.
pub proof fn law_walk_order_covers(blocks: Seq<Block>)
    requires
        flows_inside(blocks),
        1 <= blocks.len() <= usize::MAX,
    ensures
        forall|i: int|
            0 <= i < walk_order(blocks).len() ==> (#[trigger] walk_order(blocks)[i])
                < blocks.len(),
        forall|b: int| reaches(flow_rel(blocks), 0, b) ==> #[trigger] listed(walk_order(blocks), b),
        forall|i: int|
            #![trigger walk_order(blocks)[i]]
            0 <= i < walk_order(blocks).len() ==> walk_order(blocks)[i] == 0 || has_parent_earlier(
                blocks,
                walk_order(blocks),
                i,
            ),
{
    let left = postorder(blocks);
    let order = walk_order(blocks);
    let n = left.len() as int;
    lemma_postorder(blocks);
    assert forall|b: int| reaches(flow_rel(blocks), 0, b) implies #[trigger] listed(order, b) by {
        assert(listed(left, b));
        let i = choose|i: int| 0 <= i < left.len() && #[trigger] left[i] == b;
        assert(order[n - 1 - i] == b);
    }
    assert forall|i: int|
        #![trigger order[i]]
        0 <= i < order.len() implies order[i] == 0 || has_parent_earlier(blocks, order, i) by {
        let at = n - 1 - i;
        assert(order[i] == left[at]);
        if left[at] != 0 {
            assert(has_parent_later(blocks, left, at));
            let j = choose|j: int|
                at < j < left.len() && leads_to(blocks, #[trigger] left[j] as int, left[at] as int);
            assert(order[n - 1 - j] == left[j]);
            assert(leads_to(blocks, order[n - 1 - j] as int, order[i] as int));
        }
    }
}

/// A state has arrived at every block to which control may move from `v`.
pub open spec fn successors_seen(blocks: Seq<Block>, seen: Seq<bool>, v: int) -> bool {
    forall|j: int|
        0 <= j < successors(blocks[v]).len() ==> seen[(#[trigger] successors(blocks[v])[j]) as int]
}

/// The marks of a walk are in order: a state has arrived at the entry block,
/// at every block that has been walked, and at every block to which control
/// may move from a block that has been walked.
pub open spec fn marks_in_order(blocks: Seq<Block>, walk: Walk) -> bool {
    &&& walk.seen.len() == blocks.len()
    &&& walk.done.len() == blocks.len()
    &&& blocks.len() >= 1
    &&& walk.seen[0]
    &&& forall|v: int|
        0 <= v < blocks.len() && #[trigger] walk.done[v] ==> walk.seen[v] && successors_seen(
            blocks,
            walk.seen,
            v,
        )
}

/// No mark of `a` is missing in `b`.
pub open spec fn marks_kept(a: Walk, b: Walk) -> bool {
    &&& a.seen.len() == b.seen.len()
    &&& a.done.len() == b.done.len()
    &&& forall|v: int| 0 <= v < a.seen.len() && #[trigger] a.seen[v] ==> b.seen[v]
    &&& forall|v: int| 0 <= v < a.done.len() && #[trigger] a.done[v] ==> b.done[v]
}

proof fn lemma_arrive(walk: Walk, t: int, state: Known)
    requires
        walk.seen.len() == walk.done.len(),
        0 <= t < walk.seen.len(),
        walk.done[t] ==> walk.seen[t],
    ensures
        arrive(walk, t, state).done == walk.done,
        arrive(walk, t, state).seen.len() == walk.seen.len(),
        arrive(walk, t, state).seen[t],
        forall|v: int|
            0 <= v < walk.seen.len() && #[trigger] walk.seen[v] ==> arrive(walk, t, state).seen[v],
{
}

proof fn lemma_leave_first(walk: Walk, edges: Seq<Edge>, k: nat, state: Known)
    requires
        walk.seen.len() == walk.done.len(),
        k <= edges.len(),
        forall|j: int| 0 <= j < edges.len() ==> (#[trigger] edges[j]).target < walk.seen.len(),
        forall|v: int| 0 <= v < walk.done.len() && #[trigger] walk.done[v] ==> walk.seen[v],
    ensures
        leave_first(walk, edges, k, state).done == walk.done,
        leave_first(walk, edges, k, state).seen.len() == walk.seen.len(),
        forall|j: int|
            0 <= j < k ==> leave_first(walk, edges, k, state).seen[(
            #[trigger] edges[j]).target as int],
        forall|v: int|
            0 <= v < walk.seen.len() && #[trigger] walk.seen[v] ==> leave_first(
                walk,
                edges,
                k,
                state,
            ).seen[v],
    decreases k,
{
    if k > 0 {
        let mid = leave_first(walk, edges, (k - 1) as nat, state);
        lemma_leave_first(walk, edges, (k - 1) as nat, state);
        let t = edges[k - 1].target as int;
        if mid.done[t] {
            assert(walk.done[t]);
            assert(walk.seen[t]);
        }
        lemma_arrive(mid, t, crate::walk::refine(state, edges[k - 1]));
        let after = leave_first(walk, edges, k, state);
        assert forall|j: int| 0 <= j < k implies after.seen[(
        #[trigger] edges[j]).target as int] by {
            if j < k - 1 {
                assert(mid.seen[edges[j].target as int]);
            }
        }
        assert forall|v: int|
            0 <= v < walk.seen.len() && #[trigger] walk.seen[v] implies after.seen[v] by {
            assert(mid.seen[v]);
        }
    }
}

proof fn lemma_walk_block(blocks: Seq<Block>, landing: Seq<FactSet>, walk: Walk, b: int)
    requires
        flows_inside(blocks),
        marks_in_order(blocks, walk),
        0 <= b < blocks.len(),
    ensures
        marks_in_order(blocks, walk_block(blocks, landing, walk, b)),
        marks_kept(walk, walk_block(blocks, landing, walk, b)),
        walk.seen[b] ==> walk_block(blocks, landing, walk, b).done[b],
{
    let after = walk_block(blocks, landing, walk, b);
    if walk.seen[b] && !walk.done[b] {
        let state = crate::walk::apply_first(
            blocks[b].statements@,
            blocks[b].statements@.len(),
            walk.states[b],
        );
        let here = Walk {
            done: walk.done.update(b, true),
            states: walk.states.update(b, state),
            ..walk
        };
        let next = successors(blocks[b]);
        assert forall|j: int| 0 <= j < next.len() implies (#[trigger] next[j]) < blocks.len() by {
            assert(successors(blocks[b])[j] < blocks.len());
        }
        assert forall|v: int|
            0 <= v < here.done.len() && #[trigger] here.done[v] implies here.seen[v] by {
            if v != b {
                assert(walk.done[v]);
            }
        }
        match blocks[b].terminator {
            Terminator::Branch { edges } => {
                assert forall|j: int| 0 <= j < edges@.len() implies (#[trigger] edges@[j]).target
                    < here.seen.len() by {
                    assert(next[j] == edges@[j].target);
                }
                lemma_leave_first(here, edges@, edges@.len(), state);
                assert(successors_seen(blocks, after.seen, b)) by {
                    assert forall|j: int| 0 <= j < next.len() implies after.seen[(
                    #[trigger] next[j]) as int] by {
                        assert(next[j] == edges@[j].target);
                    }
                }
            },
            Terminator::Call { callee, args, dest, target } => {
                match target {
                    Some(t) => {
                        assert(next[0] == t);
                        lemma_arrive(
                            here,
                            t as int,
                            crate::walk::assign(state, dest as int, landing[b], None),
                        );
                    },
                    None => {},
                }
            },
            Terminator::Return => {},
        }
        assert forall|v: int|
            0 <= v < walk.seen.len() && #[trigger] walk.seen[v] implies after.seen[v] by {
            assert(here.seen[v]);
        }
        assert forall|v: int|
            0 <= v < blocks.len() && #[trigger] after.done[v] implies after.seen[v]
            && successors_seen(blocks, after.seen, v) by {
            if v != b {
                assert(walk.done[v]);
                assert(successors_seen(blocks, walk.seen, v));
                assert forall|j: int| 0 <= j < successors(blocks[v]).len() implies after.seen[(
                #[trigger] successors(blocks[v])[j]) as int] by {
                    let s = successors(blocks[v])[j] as int;
                    assert(walk.seen[s]);
                }
            }
        }
    }
}

proof fn lemma_walk_first(
    blocks: Seq<Block>,
    landing: Seq<FactSet>,
    order: Seq<usize>,
    k: nat,
    walk: Walk,
)
    requires
        flows_inside(blocks),
        marks_in_order(blocks, walk),
        k <= order.len(),
        forall|i: int| 0 <= i < order.len() ==> (#[trigger] order[i]) < blocks.len(),
        forall|i: int|
            #![trigger order[i]]
            0 <= i < order.len() ==> order[i] == 0 || has_parent_earlier(blocks, order, i),
    ensures
        marks_in_order(blocks, walk_first(blocks, landing, order, k, walk)),
        marks_kept(walk, walk_first(blocks, landing, order, k, walk)),
        forall|j: int|
            0 <= j < k ==> walk_first(blocks, landing, order, k, walk).done[(
            #[trigger] order[j]) as int],
    decreases k,
{
    if k > 0 {
        let mid = walk_first(blocks, landing, order, (k - 1) as nat, walk);
        let after = walk_first(blocks, landing, order, k, walk);
        let b = order[k - 1] as int;
        lemma_walk_first(blocks, landing, order, (k - 1) as nat, walk);
        lemma_walk_block(blocks, landing, mid, b);
        assert(mid.seen[b]) by {
            if b != 0 {
                assert(has_parent_earlier(blocks, order, k - 1));
                let j = choose|j: int|
                    0 <= j < k - 1 && leads_to(
                        blocks,
                        #[trigger] order[j] as int,
                        order[k - 1] as int,
                    );
                let parent = order[j] as int;
                assert(mid.done[parent]);
                assert(successors_seen(blocks, mid.seen, parent));
                let at = choose|at: int|
                    0 <= at < successors(blocks[parent]).len() && #[trigger] successors(
                        blocks[parent],
                    )[at] == b;
                assert(mid.seen[successors(blocks[parent])[at] as int]);
            }
        }
        assert forall|j: int| 0 <= j < k implies after.done[(#[trigger] order[j]) as int] by {
            if j < k - 1 {
                assert(mid.done[order[j] as int]);
            }
        }
        assert forall|v: int|
            0 <= v < walk.seen.len() && #[trigger] walk.seen[v] implies after.seen[v] by {
            assert(mid.seen[v]);
        }
        assert forall|v: int|
            0 <= v < walk.done.len() && #[trigger] walk.done[v] implies after.done[v] by {
            assert(mid.done[v]);
        }
    }
}

/// Every block that can be reached from the entry block is walked, whatever
/// the calls contribute and whatever is known at the entry.
pub proof fn law_reachable_blocks_are_walked(
    blocks: Seq<Block>,
    landing: Seq<FactSet>,
    seed: Known,
    b: int,
)
    requires
        flows_inside(blocks),
        1 <= blocks.len() <= usize::MAX,
        reaches(flow_rel(blocks), 0, b),
    ensures
        0 <= b < blocks.len(),
        walked(blocks, landing, walk_order(blocks), seed).done[b],
{
    let order = walk_order(blocks);
    law_walk_order_covers(blocks);
    let first = start(blocks.len(), seed);
    assert(marks_in_order(blocks, first));
    lemma_walk_first(blocks, landing, order, order.len(), first);
    assert(listed(order, b));
    let i = choose|i: int| 0 <= i < order.len() && #[trigger] order[i] == b;
    assert(walked(blocks, landing, order, seed).done[order[i] as int]);
}

proof fn lemma_call_findings(
    p: Seq<Function>,
    contracts: Seq<SafetyContract>,
    entries: Seq<ApiEntry>,
    list: Seq<usize>,
    k: nat,
    args: Seq<usize>,
    state: Seq<FactSet>,
    i: int,
)
    requires
        0 <= i < k <= list.len(),
        p[list[i] as int].guarded_api,
    ensures
        call_findings(p, contracts, entries, list, k, args, state).contains(
            check_call(p, contracts, entries, list[i] as int, args, state),
        ),
    decreases k,
{
    let all = call_findings(p, contracts, entries, list, k, args, state);
    let rest = call_findings(p, contracts, entries, list, (k - 1) as nat, args, state);
    let wanted = check_call(p, contracts, entries, list[i] as int, args, state);
    if i < k - 1 {
        lemma_call_findings(p, contracts, entries, list, (k - 1) as nat, args, state, i);
        let j = choose|j: int| 0 <= j < rest.len() && rest[j] == wanted;
        assert(all[j] == wanted);
    } else {
        assert(all[all.len() - 1] == wanted);
    }
}

proof fn lemma_findings_first(
    p: Seq<Function>,
    contracts: Seq<SafetyContract>,
    entries: Seq<ApiEntry>,
    lists: Seq<Seq<usize>>,
    blocks: Seq<Block>,
    order: Seq<usize>,
    k: nat,
    walk: Walk,
    i: int,
    wanted: Finding,
)
    requires
        0 <= i < k <= order.len(),
        walk.done[order[i] as int],
        block_findings(
            p,
            contracts,
            entries,
            lists[order[i] as int],
            blocks[order[i] as int],
            walk.states[order[i] as int].facts,
        ).contains(wanted),
    ensures
        findings_first(p, contracts, entries, lists, blocks, order, k, walk).contains(wanted),
    decreases k,
{
    let all = findings_first(p, contracts, entries, lists, blocks, order, k, walk);
    let rest = findings_first(p, contracts, entries, lists, blocks, order, (k - 1) as nat, walk);
    if i < k - 1 {
        lemma_findings_first(
            p,
            contracts,
            entries,
            lists,
            blocks,
            order,
            (k - 1) as nat,
            walk,
            i,
            wanted,
        );
        let j = choose|j: int| 0 <= j < rest.len() && rest[j] == wanted;
        assert(all[j] == wanted);
    } else {
        let b = order[i] as int;
        let here = block_findings(p, contracts, entries, lists[b], blocks[b], walk.states[b].facts);
        let j = choose|j: int| 0 <= j < here.len() && here[j] == wanted;
        assert(all[rest.len() + j] == wanted);
    }
}

/// No guarded call in reach is passed over: where a block that can be reached
/// from the entry block of `f` ends in a call that may invoke the guarded API
/// `t`, the results of `f` hold the outcome of that call, judged by the state
/// at that block.
pub proof fn law_guarded_calls_are_checked(
    p: Seq<Function>,
    contracts: Seq<SafetyContract>,
    entries: Seq<ApiEntry>,
    merge: bool,
    f: int,
    b: int,
    t: int,
)
    requires
        well_formed(p),
        p.len() <= usize::MAX,
        0 <= f < p.len(),
        p[f].body.is_some(),
        p[f].body.unwrap().blocks@.len() <= usize::MAX,
        reaches(flow_rel(p[f].body.unwrap().blocks@), 0, b),
        p[f].body.unwrap().blocks@[b].terminator is Call,
        listed(all_targets(p)[f][b], t),
        p[t].guarded_api,
    ensures
        check_results(p, contracts, entries, merge, f).contains(
            check_call(
                p,
                contracts,
                entries,
                t,
                p[f].body.unwrap().blocks@[b].terminator->Call_args@,
                function_walk(p, all_targets(p), merge, f).states[b].facts,
            ),
        ),
{
    let body = p[f].body.unwrap();
    let blocks = body.blocks@;
    let order = walk_order(blocks);
    let walk = function_walk(p, all_targets(p), merge, f);
    let lists = all_targets(p)[f];
    assert(p[f].valid(p.len()));
    lemma_successors_valid(body, p.len());
    law_walk_order_covers(blocks);
    let landing = crate::summary::landings(p, all_targets(p), merge, f, blocks.len());
    let seed = crate::summary::seeded(
        body.locals as nat,
        crate::summary::receiver_facts(p, all_targets(p), merge, f),
    );
    law_reachable_blocks_are_walked(blocks, landing, seed, b);
    assert(listed(order, b));
    let i = choose|i: int| 0 <= i < order.len() && #[trigger] order[i] == b;
    let list = lists[b];
    let at = choose|at: int| 0 <= at < list.len() && #[trigger] list[at] == t;
    let args = blocks[b].terminator->Call_args@;
    let state = walk.states[b].facts;
    lemma_call_findings(p, contracts, entries, list, list.len(), args, state, at);
    let wanted = check_call(p, contracts, entries, t, args, state);
    assert(block_findings(p, contracts, entries, list, blocks[b], state).contains(wanted));
    lemma_findings_first(p, contracts, entries, lists, blocks, order, order.len(), walk, i, wanted);
}

} // verus!
