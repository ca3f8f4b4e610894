//! The order in which the blocks of a body are walked: reverse postorder of a
//! depth-first search from the entry block, successors taken in the order in
//! which the terminator lists them.

use crate::graph::{count_false, lemma_count_false_update, lemma_count_false_zero};
use crate::program::{Block, Body, Function, Program, Terminator};
use vstd::prelude::*;

verus! {

/// The blocks to which control may move from `block`.
pub open spec fn successors(block: Block) -> Seq<usize> {
    match block.terminator {
        Terminator::Branch { edges } => Seq::new(edges@.len(), |i: int| edges@[i].target),
        Terminator::Call { target, .. } => match target {
            Some(t) => seq![t],
            None => Seq::empty(),
        },
        Terminator::Return => Seq::empty(),
    }
}

/// The state of a depth-first search: the blocks entered so far and the blocks
/// left so far, in the order in which they were left.
pub struct Search {
    pub entered: Seq<bool>,
    pub left: Seq<usize>,
}

/// Enters block `b`, unless it was entered before, searches from its
/// successors and leaves it. `depth` bounds the nesting of the search.
pub open spec fn visit(blocks: Seq<Block>, b: int, search: Search, depth: nat) -> Search
    decreases depth, 0nat,
{
    if depth == 0 || !(0 <= b < search.entered.len()) || search.entered[b] {
        search
    } else {
        let inside = Search { entered: search.entered.update(b, true), left: search.left };
        let after = visit_first(
            blocks,
            successors(blocks[b]),
            successors(blocks[b]).len(),
            inside,
            (depth - 1) as nat,
        );
        Search { entered: after.entered, left: after.left.push(b as usize) }
    }
}

/// Searches from the first `k` blocks of `next`, one after the other.
pub open spec fn visit_first(
    blocks: Seq<Block>,
    next: Seq<usize>,
    k: nat,
    search: Search,
    depth: nat,
) -> Search
    decreases depth, k,
{
    if k == 0 {
        search
    } else {
        visit(
            blocks,
            next[k - 1] as int,
            visit_first(blocks, next, (k - 1) as nat, search, depth),
            depth,
        )
    }
}

/// The search before it begins: no block of `blocks` blocks has been entered.
pub open spec fn unsearched(blocks: nat) -> Search {
    Search { entered: Seq::new(blocks, |i: int| false), left: Seq::empty() }
}

/// The blocks in the order in which a search from the entry block leaves
/// them.
pub open spec fn postorder(blocks: Seq<Block>) -> Seq<usize> {
    visit(blocks, 0, unsearched(blocks.len()), blocks.len()).left
}

/// `s` back to front.
pub open spec fn reversed(s: Seq<usize>) -> Seq<usize> {
    Seq::new(s.len(), |i: int| s[s.len() - 1 - i])
}

/// The order of the walk.
pub open spec fn walk_order(blocks: Seq<Block>) -> Seq<usize> {
    reversed(postorder(blocks))
}

/// The bound on the nesting never cuts a search short: with any bound that is
/// at least the number of blocks not yet entered, the search is the same, and
/// it un-enters no block.
pub proof fn lemma_depth_suffices(blocks: Seq<Block>, b: int, search: Search, d1: nat, d2: nat)
    requires
        count_false(search.entered) <= d1,
        count_false(search.entered) <= d2,
    ensures
        visit(blocks, b, search, d1) == visit(blocks, b, search, d2),
        visit(blocks, b, search, d1).entered.len() == search.entered.len(),
        count_false(visit(blocks, b, search, d1).entered) <= count_false(search.entered),
    decreases d1, 0nat,
{
    if !(0 <= b < search.entered.len()) || search.entered[b] {
    } else {
        if d1 == 0 || d2 == 0 {
            lemma_count_false_zero(search.entered, b);
        }
        let inside = Search { entered: search.entered.update(b, true), left: search.left };
        lemma_count_false_update(search.entered, b);
        let next = successors(blocks[b]);
        lemma_depth_suffices_first(
            blocks,
            next,
            next.len(),
            inside,
            (d1 - 1) as nat,
            (d2 - 1) as nat,
        );
    }
}

/// `lemma_depth_suffices` for the search from several blocks.
pub proof fn lemma_depth_suffices_first(
    blocks: Seq<Block>,
    next: Seq<usize>,
    k: nat,
    search: Search,
    d1: nat,
    d2: nat,
)
    requires
        count_false(search.entered) <= d1,
        count_false(search.entered) <= d2,
    ensures
        visit_first(blocks, next, k, search, d1) == visit_first(blocks, next, k, search, d2),
        visit_first(blocks, next, k, search, d1).entered.len() == search.entered.len(),
        count_false(visit_first(blocks, next, k, search, d1).entered) <= count_false(
            search.entered,
        ),
    decreases d1, k,
{
    if k > 0 {
        lemma_depth_suffices_first(blocks, next, (k - 1) as nat, search, d1, d2);
        let mid = visit_first(blocks, next, (k - 1) as nat, search, d1);
        lemma_depth_suffices(blocks, next[k - 1] as int, mid, d1, d2);
    }
}

fn search_from(body: &Body, b: usize, entered: &mut Vec<bool>, left: &mut Vec<usize>, depth: usize)
    requires
        b < body.blocks@.len(),
        old(entered)@.len() == body.blocks@.len(),
        forall|x: int, i: int|
            #![trigger successors(body.blocks@[x])[i]]
            0 <= x < body.blocks@.len() && 0 <= i < successors(body.blocks@[x]).len()
                ==> successors(body.blocks@[x])[i] < body.blocks@.len(),
        forall|i: int| 0 <= i < old(left)@.len() ==> old(left)@[i] < body.blocks@.len(),
    ensures
        (Search { entered: final(entered)@, left: final(left)@ }) == visit(
            body.blocks@,
            b as int,
            Search { entered: old(entered)@, left: old(left)@ },
            depth as nat,
        ),
        final(entered)@.len() == body.blocks@.len(),
        forall|i: int| 0 <= i < final(left)@.len() ==> final(left)@[i] < body.blocks@.len(),
    decreases depth,
{
    if depth == 0 || entered[b] {
        return ;
    }
    let ghost blocks = body.blocks@;
    let ghost next = successors(blocks[b as int]);
    entered.set(b, true);
    let ghost inside = Search { entered: entered@, left: left@ };
    match &body.blocks[b].terminator {
        Terminator::Branch { edges } => {
            let mut i: usize = 0;
            while i < edges.len()
                invariant
                    blocks == body.blocks@,
                    b < blocks.len(),
                    depth > 0,
                    next == successors(blocks[b as int]),
                    next.len() == edges@.len(),
                    forall|j: int| 0 <= j < edges@.len() ==> next[j] == edges@[j].target,
                    i <= edges@.len(),
                    entered@.len() == blocks.len(),
                    forall|x: int, j: int|
                        #![trigger successors(blocks[x])[j]]
                        0 <= x < blocks.len() && 0 <= j < successors(blocks[x]).len()
                            ==> successors(blocks[x])[j] < blocks.len(),
                    forall|j: int| 0 <= j < left@.len() ==> left@[j] < blocks.len(),
                    (Search { entered: entered@, left: left@ }) == visit_first(
                        blocks,
                        next,
                        i as nat,
                        inside,
                        (depth - 1) as nat,
                    ),
                decreases edges@.len() - i,
            {
                let t: usize = edges[i].target;
                assert(successors(blocks[b as int])[i as int] < blocks.len());
                search_from(body, t, entered, left, depth - 1);
                i += 1;
            }
        },
        Terminator::Call { target, .. } => {
            match target {
                Some(t) => {
                    assert(successors(blocks[b as int])[0] < blocks.len());
                    assert(visit_first(blocks, next, 0, inside, (depth - 1) as nat) == inside);
                    search_from(body, *t, entered, left, depth - 1);
                },
                None => {},
            }
        },
        Terminator::Return => {},
    }
    left.push(b);
}

/// The valid blocks of a body only lead to blocks of the body.
pub proof fn lemma_successors_valid(body: Body, functions: nat)
    requires
        body.valid(functions),
    ensures
        forall|x: int, i: int|
            #![trigger successors(body.blocks@[x])[i]]
            0 <= x < body.blocks@.len() && 0 <= i < successors(body.blocks@[x]).len()
                ==> successors(body.blocks@[x])[i] < body.blocks@.len(),
{
    assert forall|x: int, i: int|
        #![trigger successors(body.blocks@[x])[i]]
        0 <= x < body.blocks@.len() && 0 <= i < successors(
            body.blocks@[x],
        ).len() implies successors(body.blocks@[x])[i] < body.blocks@.len() by {
        let block = body.blocks@[x];
        assert(block.valid(body.locals as nat, body.blocks@.len(), functions));
        match block.terminator {
            Terminator::Branch { edges } => {
                assert(edges@[i].valid(body.locals as nat, body.blocks@.len()));
            },
            _ => {},
        }
    }
}

/// The blocks of `body` in the order of the walk. The entry block comes
/// first; a block that cannot be reached from it does not occur.
pub(crate) fn reverse_postorder(body: &Body, functions: usize) -> (order: Vec<usize>)
    requires
        body.valid(functions as nat),
    ensures
        order@ == walk_order(body.blocks@),
        forall|i: int| 0 <= i < order@.len() ==> order@[i] < body.blocks@.len(),
        order@.len() >= 1,
        order@[0] == 0,
{
    let n: usize = body.blocks.len();
    let mut entered: Vec<bool> = Vec::new();
    while entered.len() < n
        invariant
            entered@.len() <= n,
            forall|i: int| 0 <= i < entered@.len() ==> !entered@[i],
        decreases n - entered@.len(),
    {
        entered.push(false);
    }
    assert(entered@ =~= Seq::new(body.blocks@.len(), |i: int| false));
    let mut left: Vec<usize> = Vec::new();
    proof {
        lemma_successors_valid(*body, functions as nat);
    }
    search_from(body, 0, &mut entered, &mut left, n);
    let m: usize = left.len();
    let mut order: Vec<usize> = Vec::new();
    let mut i: usize = 0;
    while i < m
        invariant
            m == left@.len(),
            i <= m,
            order@.len() == i,
            forall|j: int| 0 <= j < i ==> order@[j] == left@[m - 1 - j],
            forall|j: int| 0 <= j < left@.len() ==> left@[j] < body.blocks@.len(),
        decreases m - i,
    {
        order.push(left[m - 1 - i]);
        i += 1;
    }
    assert(order@ =~= reversed(left@));
    order
}

/// The order in which the blocks of `f` are walked; empty where `f` has no
/// body.
pub open spec fn block_order(p: Seq<Function>, f: int) -> Seq<usize> {
    if 0 <= f < p.len() && p[f].body.is_some() {
        walk_order(p[f].body.unwrap().blocks@)
    } else {
        Seq::empty()
    }
}

/// The blocks of `function` in the order of the walk: reverse postorder from
/// the entry block. A function without a body has no blocks.
pub fn walk_order_of(program: &Program, function: usize) -> (order: Vec<usize>)
    ensures
        order@ == block_order(program@, function as int),
{
    match program.get(function) {
        Some(owner) => match &owner.body {
            Some(body) => {
                assert(program@[function as int].valid(program@.len()));
                reverse_postorder(body, program.len())
            },
            None => Vec::new(),
        },
        None => Vec::new(),
    }
}

} // verus!
