//! The caller side of the engine: build every ordering of the board, pair
//! each with an empty path, run the search, and select the first solution
//! of globally minimum length.

use vstd::prelude::*;

use crate::ops::Step;
use crate::perms::{build_permutations_r, copy_vec, lemma_perms_with_last, orders_view, perms_of};
use crate::search::{
    explore, items_view, lemma_item_solutions_included, lemma_no_reach_no_solutions,
    lemma_reachable_finds_solution, lemma_solutions_sound, paths_view, reaches, solutions_of,
    solve,
};

verus! {

/// Each ordering paired with an empty path: the initial work items of the
/// engine.
pub open spec fn with_empty_paths(perms: Seq<Seq<u32>>) -> Seq<(Seq<u32>, Seq<Step>)> {
    perms.map_values(|p: Seq<u32>| (p, Seq::<Step>::empty()))
}

/// Every solution the engine discovers for a board and a target, in
/// discovery order: the work stack starts from every ordering of the
/// board, each with an empty path.
pub open spec fn board_solutions(board: Seq<u32>, target: u32) -> Seq<Seq<Step>> {
    solutions_of(with_empty_paths(perms_of(board)), target)
}

/// Whether index `i` points at the first path of globally minimum length:
/// no path is shorter, and every earlier one is strictly longer.
pub open spec fn is_first_min(paths: Seq<Seq<Step>>, i: int) -> bool {
    &&& 0 <= i < paths.len()
    &&& forall|j: int| 0 <= j < paths.len() ==> paths[i].len() <= (#[trigger] paths[j]).len()
    &&& forall|j: int| 0 <= j < i ==> paths[i].len() < (#[trigger] paths[j]).len()
}

/// Law: every solution of the full pipeline replays on some ordering of
/// the board, in order, and reaches the target as its final value; with
/// it, replaying also certifies that every recorded step obeyed its
/// applicability rule.
pub proof fn lemma_board_solutions_sound(board: Seq<u32>, target: u32, k: int)
    requires
        0 <= k < board_solutions(board, target).len(),
    ensures
        exists|j: int|
            0 <= j < perms_of(board).len() && #[trigger] reaches(
                perms_of(board)[j],
                board_solutions(board, target)[k],
                target,
            ),
{
    let items = with_empty_paths(perms_of(board));
    lemma_solutions_sound(items, target, k);
    let (j, ext) = choose|j: int, ext: Seq<Step>|
        0 <= j < items.len() && solutions_of(items, target)[k] == items[j].1 + ext
            && #[trigger] reaches(items[j].0, ext, target);
    assert(items[j].1 + ext =~= ext);
    assert(board_solutions(board, target)[k] == ext);
    assert(reaches(perms_of(board)[j], board_solutions(board, target)[k], target));
}

/// Law: when the target equals one of the source numbers, the engine
/// discovers at least one zero-step solution.
pub proof fn lemma_zero_step_solution(board: Seq<u32>, target: u32)
    requires
        board.contains(target),
    ensures
        exists|k: int|
            0 <= k < board_solutions(board, target).len() && (#[trigger] board_solutions(
                board,
                target,
            )[k]).len() == 0,
{
    lemma_perms_with_last(board, target);
    let p = choose|p: Seq<u32>|
        #[trigger] perms_of(board).contains(p) && p.len() == board.len() && p.last() == target;
    let j = choose|j: int| 0 <= j < perms_of(board).len() && #[trigger] perms_of(board)[j] == p;
    let items = with_empty_paths(perms_of(board));
    assert(items[j].0 == p && items[j].1 == Seq::<Step>::empty());
    assert(explore(p, Seq::<Step>::empty(), target) == seq![Seq::<Step>::empty()]);
    lemma_item_solutions_included(items, target, j, 0);
    let sols = board_solutions(board, target);
    assert(sols.contains(Seq::<Step>::empty()));
    let k = choose|k: int| 0 <= k < sols.len() && #[trigger] sols[k] == Seq::<Step>::empty();
    assert((board_solutions(board, target)[k]).len() == 0);
}

/// Law: when no sequence of steps replays on any ordering of the board to
/// reach the target, the engine returns the empty solution set.
pub proof fn lemma_unreachable_no_solutions(board: Seq<u32>, target: u32)
    requires
        forall|j: int, ext: Seq<Step>|
            0 <= j < perms_of(board).len() ==> !#[trigger] reaches(perms_of(board)[j], ext, target),
    ensures
        board_solutions(board, target).len() == 0,
{
    let items = with_empty_paths(perms_of(board));
    assert forall|j: int, ext: Seq<Step>| 0 <= j < items.len() implies !#[trigger] reaches(
        items[j].0,
        ext,
        target,
    ) by {
        assert(items[j].0 == perms_of(board)[j]);
    }
    lemma_no_reach_no_solutions(items, target);
}

/// Law: the converse of the emptiness guarantee. Whenever some sequence of
/// steps replays on some ordering of the board and reaches the target, the
/// engine returns at least one solution: an empty result set means the
/// target is unreachable by any left-to-right fold of any ordering.
pub proof fn lemma_reachable_board_has_solution(
    board: Seq<u32>,
    target: u32,
    j: int,
    ext: Seq<Step>,
)
    requires
        0 <= j < perms_of(board).len(),
        reaches(perms_of(board)[j], ext, target),
    ensures
        board_solutions(board, target).len() > 0,
{
    let items = with_empty_paths(perms_of(board));
    assert(items[j].0 == perms_of(board)[j]);
    assert(items[j].1 == Seq::<Step>::empty());
    lemma_reachable_finds_solution(items[j].0, items[j].1, ext, target);
    lemma_item_solutions_included(items, target, j, 0);
}

/// Selects the first solution of globally minimum step count, preserving
/// the engine's discovery order as the documented, deterministic
/// tie-break; `None` exactly when there is no solution at all.
pub fn shortest_solution(solutions: &Vec<Vec<Step>>) -> (r: Option<Vec<Step>>)
    ensures
        r is None <==> solutions@.len() == 0,
        r matches Some(best) ==> exists|i: int|
            #[trigger] is_first_min(paths_view(solutions@), i) && best@ == paths_view(
                solutions@,
            )[i],
{
    if solutions.len() == 0 {
        return None;
    }
    let mut best_idx: usize = 0;
    for i in 1..solutions.len()
        invariant
            0 <= best_idx < i <= solutions@.len(),
            forall|j: int|
                0 <= j < i ==> solutions@[best_idx as int]@.len() <= (#[trigger] solutions@[j]@).len(),
            forall|j: int|
                0 <= j < best_idx ==> solutions@[best_idx as int]@.len() < (#[trigger] solutions@[j]@).len(),
    {
        if solutions[i].len() < solutions[best_idx].len() {
            best_idx = i;
        }
    }
    let best = copy_vec(&solutions[best_idx]);
    proof {
        assert(is_first_min(paths_view(solutions@), best_idx as int));
    }
    Some(best)
}

/// Solves the board: builds every ordering, explores each, and returns
/// the first discovered solution of minimum length, or `None` exactly
/// when the target is unreachable.
pub fn solve_board(board: &Vec<u32>, expected: u32) -> (r: Option<Vec<Step>>)
    ensures
        r is None <==> board_solutions(board@, expected).len() == 0,
        r matches Some(best) ==> exists|i: int|
            #[trigger] is_first_min(board_solutions(board@, expected), i) && best@
                == board_solutions(board@, expected)[i],
{
    let perms = build_permutations_r(board);
    let mut items: Vec<(Vec<u32>, Vec<Step>)> = Vec::new();
    proof {
        assert(items_view(items@) =~~= with_empty_paths(orders_view(perms@)).take(0));
    }
    for i in 0..perms.len()
        invariant
            orders_view(perms@) == perms_of(board@),
            items@.len() == i as int,
            items_view(items@) == with_empty_paths(orders_view(perms@)).take(i as int),
    {
        let p = copy_vec(&perms[i]);
        let fresh: Vec<Step> = Vec::new();
        items.push((p, fresh));
        proof {
            assert(items@[i as int].1@ == Seq::<Step>::empty());
            assert(items_view(items@) =~= with_empty_paths(orders_view(perms@)).take(i + 1));
        }
    }
    proof {
        assert(with_empty_paths(orders_view(perms@)).take(perms@.len() as int) =~~= with_empty_paths(
            perms_of(board@),
        ));
    }
    let solutions = solve(items, expected);
    proof {
        assert(paths_view(solutions@) == board_solutions(board@, expected));
    }
    shortest_solution(&solutions)
}

} // verus!
