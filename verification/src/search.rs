//! The fold search engine: a work-stack backtracking exploration that
//! repeatedly combines the two most recently available values of an
//! ordering with one of the four operations, and collects every path of
//! steps whose running value reaches the target.

use vstd::prelude::*;

use crate::ops::{apply_op, op_result, Operation, Step};
use crate::perms::copy_vec;

verus! {

/// The value one step produces, or `None` when its operation is not
/// applicable to its recorded operands.
pub open spec fn step_result(s: Step) -> Option<u32> {
    op_result(s.operation, s.op1, s.op2)
}

/// The working sequence left after replaying every step of `path`, in
/// order, on `ord`: each step must find its first operand last in the
/// working sequence and its second operand just before that, removes both,
/// and appends the operation's value at the end. `None` when some step does
/// not fit the working sequence or its operation is inapplicable.
pub open spec fn apply_steps(ord: Seq<u32>, path: Seq<Step>) -> Option<Seq<u32>>
    decreases path.len(),
{
    if path.len() == 0 {
        Some(ord)
    } else {
        let s = path[0];
        if ord.len() >= 2 && ord[ord.len() - 1] == s.op1 && ord[ord.len() - 2] == s.op2 {
            match step_result(s) {
                Some(r) => apply_steps(ord.take(ord.len() - 2).push(r), path.drop_first()),
                None => None,
            }
        } else {
            None
        }
    }
}

/// Whether replaying `path` on `ord` succeeds and leaves `target` as the
/// most recently produced value; values left unconsumed below it are
/// intentionally disregarded, as the puzzle does not demand that every
/// source number be used.
pub open spec fn reaches(ord: Seq<u32>, path: Seq<Step>, target: u32) -> bool {
    match apply_steps(ord, path) {
        Some(fin) => fin.len() > 0 && fin.last() == target,
        None => false,
    }
}

/// The solutions contributed by one operation branch: none when the
/// operation is inapplicable to `(a, b)`, and otherwise every solution
/// found below the work item whose ordering is `rest` with the operation's
/// value appended and whose path records the new step.
pub open spec fn branch_sols(
    rest: Seq<u32>,
    path: Seq<Step>,
    target: u32,
    a: u32,
    b: u32,
    op: Operation,
) -> Seq<Seq<Step>>
    decreases rest.len() + 2, 0nat,
{
    match op_result(op, a, b) {
        Some(r) => explore(
            rest.push(r),
            path.push((Step { op1: a, op2: b, operation: op })),
            target,
        ),
        None => Seq::empty(),
    }
}

/// Every solution path the engine discovers under one work item, in
/// discovery order. The last value of the ordering is taken; if it equals
/// the target the path so far is the one solution and nothing below is
/// explored; with fewer than two values the item is a dead end; otherwise
/// the four operations fork the item, and the subtraction branch is
/// explored first, the division branch last.
pub open spec fn explore(ord: Seq<u32>, path: Seq<Step>, target: u32) -> Seq<Seq<Step>>
    decreases ord.len(), 1nat,
{
    if ord.len() == 0 {
        Seq::empty()
    } else if ord.last() == target {
        seq![path]
    } else if ord.len() == 1 {
        Seq::empty()
    } else {
        let a = ord.last();
        let b = ord[ord.len() - 2];
        let rest = ord.take(ord.len() - 2);
        branch_sols(rest, path, target, a, b, Operation::Subtract) + branch_sols(
            rest,
            path,
            target,
            a,
            b,
            Operation::Add,
        ) + branch_sols(rest, path, target, a, b, Operation::Multiply) + branch_sols(
            rest,
            path,
            target,
            a,
            b,
            Operation::Divide,
        )
    }
}

/// Every solution the engine discovers over a stack of work items, in
/// discovery order: the topmost (last) item is explored first.
pub open spec fn solutions_of(items: Seq<(Seq<u32>, Seq<Step>)>, target: u32) -> Seq<Seq<Step>>
    decreases items.len(),
{
    if items.len() == 0 {
        Seq::empty()
    } else {
        explore(items.last().0, items.last().1, target) + solutions_of(items.drop_last(), target)
    }
}

/// The mathematical work items behind a vector of (ordering, path) pairs.
pub open spec fn items_view(v: Seq<(Vec<u32>, Vec<Step>)>) -> Seq<(Seq<u32>, Seq<Step>)> {
    v.map_values(|it: (Vec<u32>, Vec<Step>)| (it.0@, it.1@))
}

/// The mathematical paths behind a vector of step vectors.
pub open spec fn paths_view(v: Seq<Vec<Step>>) -> Seq<Seq<Step>> {
    v.map_values(|p: Vec<Step>| p@)
}

/// Attempts to combine `(op1, op2)` under `operation`: exactly when the
/// operation is applicable, a fresh work item is produced whose ordering is
/// `old_permutation` with the combined value appended and whose path is
/// `old_path` with the new step appended.
pub fn try_solve(
    op1: u32,
    op2: u32,
    operation: Operation,
    old_permutation: &Vec<u32>,
    old_path: &Vec<Step>,
) -> (r: Option<(Vec<u32>, Vec<Step>)>)
    ensures
        op_result(operation, op1, op2) is None ==> r is None,
        op_result(operation, op1, op2) matches Some(res) ==> r matches Some(it) && it.0@
            == old_permutation@.push(res) && it.1@ == old_path@.push(
            (Step { op1, op2, operation }),
        ),
{
    let result = apply_op(operation, op1, op2);
    if let Some(r) = result {
        let mut new_permutation = copy_vec(old_permutation);
        new_permutation.push(r);

        let mut path = copy_vec(old_path);
        path.push(Step { op1, op2, operation });

        Some((new_permutation, path))
    } else {
        None
    }
}

/// Law: every solution an exploration discovers extends the work item's
/// path with steps that replay on the item's ordering and reach the
/// target. Since replaying works on unsigned values, every intermediate
/// value is a non-negative integer.
pub proof fn lemma_explore_sound(ord: Seq<u32>, path: Seq<Step>, target: u32, k: int)
    requires
        0 <= k < explore(ord, path, target).len(),
    ensures
        exists|ext: Seq<Step>|
            explore(ord, path, target)[k] == path + ext && #[trigger] reaches(ord, ext, target),
    decreases ord.len(), 1nat,
{
    if ord.len() == 0 {
    } else if ord.last() == target {
        let ext = Seq::<Step>::empty();
        assert(path + ext =~= path);
        assert(apply_steps(ord, ext) == Some(ord));
        assert(reaches(ord, ext, target));
        assert(explore(ord, path, target)[k] == path + ext);
    } else if ord.len() == 1 {
    } else {
        let a = ord.last();
        let b = ord[ord.len() - 2];
        let rest = ord.take(ord.len() - 2);
        let bs = branch_sols(rest, path, target, a, b, Operation::Subtract);
        let ba = branch_sols(rest, path, target, a, b, Operation::Add);
        let bm = branch_sols(rest, path, target, a, b, Operation::Multiply);
        let bd = branch_sols(rest, path, target, a, b, Operation::Divide);
        if k < bs.len() {
            lemma_branch_sound(ord, path, target, Operation::Subtract, k);
            assert(explore(ord, path, target)[k] == bs[k]);
        } else if k < bs.len() + ba.len() {
            lemma_branch_sound(ord, path, target, Operation::Add, k - bs.len());
            assert(explore(ord, path, target)[k] == ba[k - bs.len()]);
        } else if k < bs.len() + ba.len() + bm.len() {
            lemma_branch_sound(ord, path, target, Operation::Multiply, k - bs.len() - ba.len());
            assert(explore(ord, path, target)[k] == bm[k - bs.len() - ba.len()]);
        } else {
            lemma_branch_sound(
                ord,
                path,
                target,
                Operation::Divide,
                k - bs.len() - ba.len() - bm.len(),
            );
            assert(explore(ord, path, target)[k] == bd[k - bs.len() - ba.len() - bm.len()]);
        }
    }
}

proof fn lemma_branch_sound(ord: Seq<u32>, path: Seq<Step>, target: u32, op: Operation, j: int)
    requires
        ord.len() >= 2,
        ord.last() != target,
        0 <= j < branch_sols(
            ord.take(ord.len() - 2),
            path,
            target,
            ord.last(),
            ord[ord.len() - 2],
            op,
        ).len(),
    ensures
        exists|ext: Seq<Step>|
            branch_sols(ord.take(ord.len() - 2), path, target, ord.last(), ord[ord.len() - 2], op)[j]
                == path + ext && #[trigger] reaches(ord, ext, target),
    decreases ord.len(), 0nat,
{
    let a = ord.last();
    let b = ord[ord.len() - 2];
    let rest = ord.take(ord.len() - 2);
    let r = op_result(op, a, b)->Some_0;
    let step = Step { op1: a, op2: b, operation: op };
    let child_ord = rest.push(r);
    let child_path = path.push(step);
    assert(branch_sols(rest, path, target, a, b, op) == explore(child_ord, child_path, target));
    lemma_explore_sound(child_ord, child_path, target, j);
    let ext0 = choose|ext0: Seq<Step>|
        explore(child_ord, child_path, target)[j] == child_path + ext0 && #[trigger] reaches(
            child_ord,
            ext0,
            target,
        );
    let ext = seq![step] + ext0;
    assert(child_path + ext0 =~= path + ext);
    assert(ext[0] == step);
    assert(ext.drop_first() =~= ext0);
    assert(apply_steps(ord, ext) == apply_steps(child_ord, ext0));
    assert(reaches(ord, ext, target));
}

/// Law: whenever a path replays successfully on some ordering, every one
/// of its steps satisfied its operation's applicability rule: no
/// subtraction below zero, no division by zero or with a remainder, no
/// overflowing sum or product.
pub proof fn lemma_path_steps_applicable(ord: Seq<u32>, path: Seq<Step>)
    requires
        apply_steps(ord, path) is Some,
    ensures
        forall|i: int| 0 <= i < path.len() ==> #[trigger] step_result(path[i]) is Some,
    decreases path.len(),
{
    if path.len() > 0 {
        let s = path[0];
        let r = step_result(s)->Some_0;
        lemma_path_steps_applicable(ord.take(ord.len() - 2).push(r), path.drop_first());
        assert forall|i: int| 0 <= i < path.len() implies #[trigger] step_result(path[i])
            is Some by {
            if i > 0 {
                assert(path[i] == path.drop_first()[i - 1]);
            }
        }
    }
}

/// Law: every solution the work stack yields extends the path of one of
/// its items with steps that replay on that item's ordering and reach the
/// target; there are no false positives.
pub proof fn lemma_solutions_sound(items: Seq<(Seq<u32>, Seq<Step>)>, target: u32, k: int)
    requires
        0 <= k < solutions_of(items, target).len(),
    ensures
        exists|j: int, ext: Seq<Step>|
            0 <= j < items.len() && solutions_of(items, target)[k] == items[j].1 + ext
                && #[trigger] reaches(items[j].0, ext, target),
    decreases items.len(),
{
    let e = explore(items.last().0, items.last().1, target);
    if k < e.len() {
        lemma_explore_sound(items.last().0, items.last().1, target, k);
        let ext = choose|ext: Seq<Step>|
            e[k] == items.last().1 + ext && #[trigger] reaches(items.last().0, ext, target);
        let j = items.len() - 1;
        assert(solutions_of(items, target)[k] == items[j].1 + ext && reaches(
            items[j].0,
            ext,
            target,
        ));
    } else {
        lemma_solutions_sound(items.drop_last(), target, k - e.len());
        let (j, ext) = choose|j: int, ext: Seq<Step>|
            0 <= j < items.drop_last().len() && solutions_of(items.drop_last(), target)[k - e.len()]
                == items.drop_last()[j].1 + ext && #[trigger] reaches(
                items.drop_last()[j].0,
                ext,
                target,
            );
        assert(items.drop_last()[j] == items[j]);
        assert(solutions_of(items, target)[k] == items[j].1 + ext && reaches(
            items[j].0,
            ext,
            target,
        ));
    }
}

/// Law: when no extension of any work item's path can reach the target,
/// the engine owes no solution at all: the result set is empty.
pub proof fn lemma_no_reach_no_solutions(items: Seq<(Seq<u32>, Seq<Step>)>, target: u32)
    requires
        forall|j: int, ext: Seq<Step>|
            0 <= j < items.len() ==> !#[trigger] reaches(items[j].0, ext, target),
    ensures
        solutions_of(items, target).len() == 0,
{
    if solutions_of(items, target).len() > 0 {
        lemma_solutions_sound(items, target, 0);
        assert(false);
    }
}

/// Law: every solution an item's own exploration yields is among the
/// solutions of any stack that holds the item.
pub proof fn lemma_item_solutions_included(
    items: Seq<(Seq<u32>, Seq<Step>)>,
    target: u32,
    j: int,
    k: int,
)
    requires
        0 <= j < items.len(),
        0 <= k < explore(items[j].0, items[j].1, target).len(),
    ensures
        solutions_of(items, target).contains(explore(items[j].0, items[j].1, target)[k]),
    decreases items.len(),
{
    let sols = solutions_of(items, target);
    let e = explore(items.last().0, items.last().1, target);
    let x = explore(items[j].0, items[j].1, target)[k];
    if j == items.len() - 1 {
        assert(sols[k] == x);
    } else {
        assert(items.drop_last()[j] == items[j]);
        lemma_item_solutions_included(items.drop_last(), target, j, k);
        let i = choose|i: int|
            0 <= i < solutions_of(items.drop_last(), target).len() && #[trigger] solutions_of(
                items.drop_last(),
                target,
            )[i] == x;
        assert(sols[e.len() + i] == x);
    }
}

/// Law: the engine misses nothing it can reach. Whenever some sequence of
/// steps replays on an ordering and reaches the target, the exploration of
/// that ordering discovers at least one solution, whatever path prefix the
/// work item already carries.
pub proof fn lemma_reachable_finds_solution(
    ord: Seq<u32>,
    path: Seq<Step>,
    ext: Seq<Step>,
    target: u32,
)
    requires
        reaches(ord, ext, target),
    ensures
        explore(ord, path, target).len() > 0,
    decreases ext.len(),
{
    if ord.len() == 0 {
        assert(false);
    } else if ord.last() == target {
        assert(explore(ord, path, target) == seq![path]);
    } else {
        if ext.len() == 0 {
            assert(apply_steps(ord, ext) == Some(ord));
            assert(false);
        } else {
            let s = ext[0];
            assert(ord.len() >= 2);
            let a = ord.last();
            let b = ord[ord.len() - 2];
            assert(s.op1 == a && s.op2 == b);
            let r = step_result(s)->Some_0;
            let rest = ord.take(ord.len() - 2);
            assert(apply_steps(rest.push(r), ext.drop_first()) == apply_steps(ord, ext));
            assert(reaches(rest.push(r), ext.drop_first(), target));
            assert(s == (Step { op1: a, op2: b, operation: s.operation }));
            lemma_reachable_finds_solution(rest.push(r), path.push(s), ext.drop_first(), target);
            assert(branch_sols(rest, path, target, a, b, s.operation) == explore(
                rest.push(r),
                path.push(s),
                target,
            ));
            assert(explore(ord, path, target).len() >= branch_sols(
                rest,
                path,
                target,
                a,
                b,
                s.operation,
            ).len());
        }
    }
}

/// Replays `path` on a copy of `ord`, step by step: returns the final
/// working sequence exactly when every step finds its operands as the two
/// most recent values and its operation applies, and `None` otherwise.
pub fn replay(ord: &Vec<u32>, path: &Vec<Step>) -> (r: Option<Vec<u32>>)
    ensures
        apply_steps(ord@, path@) is None ==> r is None,
        apply_steps(ord@, path@) matches Some(fin) ==> r matches Some(v) && v@ == fin,
{
    let mut work = copy_vec(ord);
    proof {
        assert(path@.skip(0) =~= path@);
    }
    for i in 0..path.len()
        invariant
            apply_steps(ord@, path@) == apply_steps(work@, path@.skip(i as int)),
    {
        let s = path[i];
        let n = work.len();
        proof {
            assert(path@.skip(i as int)[0] == s);
            assert(path@.skip(i as int).drop_first() =~= path@.skip(i + 1));
        }
        if n < 2 {
            return None;
        }
        if !(work[n - 1] == s.op1 && work[n - 2] == s.op2) {
            return None;
        }
        let combined = apply_op(s.operation, s.op1, s.op2);
        match combined {
            Some(r) => {
                let ghost w_before = work@;
                work.truncate(n - 2);
                work.push(r);
                proof {
                    assert(work@ =~= w_before.take(w_before.len() - 2).push(r));
                    assert(apply_steps(w_before, path@.skip(i as int)) == apply_steps(
                        work@,
                        path@.skip(i + 1),
                    ));
                }
            },
            None => {
                return None;
            },
        }
    }
    proof {
        assert(path@.skip(path@.len() as int) =~= Seq::<Step>::empty());
    }
    Some(work)
}

/// Five to the `n`th power: a bound on how many work items the exploration
/// of an ordering of length `n` can ever spawn, used as the loop's
/// termination measure.
pub open spec fn pow5(n: nat) -> nat
    decreases n,
{
    if n == 0 {
        1
    } else {
        5 * pow5((n - 1) as nat)
    }
}

/// The termination measure of the work stack: the sum of `pow5` of each
/// item's remaining ordering length.
pub open spec fn work_measure(items: Seq<(Seq<u32>, Seq<Step>)>) -> nat
    decreases items.len(),
{
    if items.len() == 0 {
        0
    } else {
        work_measure(items.drop_last()) + pow5(items.last().0.len())
    }
}

proof fn lemma_pow5_pos(n: nat)
    ensures
        pow5(n) >= 1,
    decreases n,
{
    if n > 0 {
        lemma_pow5_pos((n - 1) as nat);
    }
}

/// Attempts one operation branch for the operands `(a, b)` over the
/// remaining values `rest`, pushing the forked work item onto the stack
/// exactly when the operation applies. The solutions the stack owes grow
/// by exactly that branch's solutions, and the work measure by at most
/// `pow5` of the forked ordering's length.
fn push_branch(
    work: &mut Vec<(Vec<u32>, Vec<Step>)>,
    a: u32,
    b: u32,
    op: Operation,
    rest: &Vec<u32>,
    path: &Vec<Step>,
    Ghost(target): Ghost<u32>,
)
    ensures
        solutions_of(items_view(final(work)@), target) == branch_sols(
            rest@,
            path@,
            target,
            a,
            b,
            op,
        ) + solutions_of(items_view(old(work)@), target),
        work_measure(items_view(final(work)@)) <= work_measure(items_view(old(work)@)) + pow5(
            (rest@.len() + 1) as nat,
        ),
{
    let attempt = try_solve(a, b, op, rest, path);
    match attempt {
        Some(x) => {
            let ghost before = items_view(work@);
            let ghost xv = (x.0@, x.1@);
            work.push(x);
            proof {
                assert(items_view(work@) =~= before.push(xv));
                assert(before.push(xv).drop_last() =~= before);
                assert(solutions_of(items_view(work@), target) == explore(xv.0, xv.1, target)
                    + solutions_of(before, target));
                assert(work_measure(items_view(work@)) == work_measure(before) + pow5(xv.0.len()));
            }
        },
        None => {
            proof {
                assert(branch_sols(rest@, path@, target, a, b, op) + solutions_of(
                    items_view(work@),
                    target,
                ) =~= solutions_of(items_view(work@), target));
            }
        },
    }
}

proof fn lemma_empty_prepend<A>(zs: Seq<A>)
    ensures
        Seq::<A>::empty() + zs == zs,
{
    assert(Seq::<A>::empty() + zs =~= zs);
}

proof fn lemma_push_prepend<A>(xs: Seq<A>, y: A, zs: Seq<A>)
    ensures
        xs.push(y) + zs == xs + (seq![y] + zs),
{
    assert(xs.push(y) + zs =~= xs + (seq![y] + zs));
}

proof fn lemma_regroup_four<A>(a: Seq<A>, b: Seq<A>, c: Seq<A>, d: Seq<A>, r: Seq<A>)
    ensures
        a + (b + (c + (d + r))) == a + b + c + d + r,
{
    assert(a + (b + (c + (d + r))) =~= a + b + c + d + r);
}

proof fn lemma_paths_view_push(v: Seq<Vec<Step>>, x: Vec<Step>)
    ensures
        paths_view(v.push(x)) == paths_view(v).push(x@),
{
    assert(paths_view(v.push(x)) =~= paths_view(v).push(x@));
}

proof fn lemma_pop_two(s: Seq<u32>)
    requires
        s.len() >= 2,
    ensures
        s.subrange(0, s.len() - 1).subrange(0, s.len() - 2) == s.take(s.len() - 2),
{
    assert(s.subrange(0, s.len() - 1).subrange(0, s.len() - 2) =~= s.take(s.len() - 2));
}

proof fn lemma_stack_pop(v: Seq<(Vec<u32>, Vec<Step>)>, target: u32)
    requires
        v.len() > 0,
    ensures
        items_view(v).len() == v.len(),
        items_view(v.subrange(0, v.len() - 1)) == items_view(v).drop_last(),
        items_view(v).last() == (v.last().0@, v.last().1@),
        solutions_of(items_view(v), target) == explore(v.last().0@, v.last().1@, target)
            + solutions_of(items_view(v.subrange(0, v.len() - 1)), target),
        work_measure(items_view(v)) == work_measure(items_view(v.subrange(0, v.len() - 1))) + pow5(
            v.last().0@.len(),
        ),
        pow5(v.last().0@.len()) >= 1,
{
    assert(items_view(v.subrange(0, v.len() - 1)) =~= items_view(v).drop_last());
    lemma_pow5_pos(v.last().0@.len());
}

proof fn lemma_explore_hit(ord: Seq<u32>, path: Seq<Step>, target: u32)
    requires
        ord.len() > 0,
        ord.last() == target,
    ensures
        explore(ord, path, target) == seq![path],
{
}

proof fn lemma_explore_dead_end(ord: Seq<u32>, path: Seq<Step>, target: u32)
    requires
        ord.len() == 0 || (ord.len() == 1 && ord.last() != target),
    ensures
        explore(ord, path, target) == Seq::<Seq<Step>>::empty(),
{
}

proof fn lemma_explore_fork(ord: Seq<u32>, path: Seq<Step>, target: u32)
    requires
        ord.len() >= 2,
        ord.last() != target,
    ensures
        explore(ord, path, target) == branch_sols(
            ord.take(ord.len() - 2),
            path,
            target,
            ord.last(),
            ord[ord.len() - 2],
            Operation::Subtract,
        ) + branch_sols(
            ord.take(ord.len() - 2),
            path,
            target,
            ord.last(),
            ord[ord.len() - 2],
            Operation::Add,
        ) + branch_sols(
            ord.take(ord.len() - 2),
            path,
            target,
            ord.last(),
            ord[ord.len() - 2],
            Operation::Multiply,
        ) + branch_sols(
            ord.take(ord.len() - 2),
            path,
            target,
            ord.last(),
            ord[ord.len() - 2],
            Operation::Divide,
        ),
{
}

proof fn lemma_pow5_step(n: nat)
    requires
        n >= 1,
    ensures
        pow5(n) == 5 * pow5((n - 1) as nat),
        pow5((n - 1) as nat) >= 1,
{
    lemma_pow5_pos((n - 1) as nat);
}

/// Runs the work-stack exploration to exhaustion and returns every
/// discovered solution path, in discovery order: exactly the paths that
/// `solutions_of` lists for the initial stack of work items.
pub fn solve(permutations: Vec<(Vec<u32>, Vec<Step>)>, expected: u32) -> (solutions: Vec<
    Vec<Step>,
>)
    ensures
        paths_view(solutions@) == solutions_of(items_view(permutations@), expected),
{
    let ghost initial = items_view(permutations@);
    let mut permutations = permutations;
    let mut solutions: Vec<Vec<Step>> = Vec::new();
    proof {
        lemma_empty_prepend(solutions_of(initial, expected));
        assert(paths_view(solutions@) =~= Seq::<Seq<Step>>::empty());
    }
    while permutations.len() > 0
        invariant
            paths_view(solutions@) + solutions_of(items_view(permutations@), expected)
                == solutions_of(initial, expected),
        decreases work_measure(items_view(permutations@)),
    {
        let ghost vprev = permutations@;
        let ghost sols_prev = paths_view(solutions@);
        proof {
            lemma_stack_pop(vprev, expected);
        }
        let popped = permutations.pop();
        let pair = popped.unwrap();
        let mut permutation = pair.0;
        let path = pair.1;
        let ghost ord0 = permutation@;
        let ghost path0 = path@;
        let ghost rest_sols = solutions_of(items_view(permutations@), expected);

        let last = match permutation.pop() {
            Some(l) => {
                if l == expected {
                    let ghost svprev = solutions@;
                    solutions.push(path);
                    proof {
                        lemma_explore_hit(ord0, path0, expected);
                        lemma_paths_view_push(svprev, path);
                        lemma_push_prepend(sols_prev, path0, rest_sols);
                    }
                    continue ;
                }
                l
            },
            None => {
                proof {
                    lemma_explore_dead_end(ord0, path0, expected);
                    lemma_empty_prepend(rest_sols);
                }
                continue ;
            },
        };

        let second_last = match permutation.pop() {
            Some(s) => s,
            None => {
                proof {
                    lemma_explore_dead_end(ord0, path0, expected);
                    lemma_empty_prepend(rest_sols);
                }
                continue ;
            },
        };

        proof {
            lemma_pop_two(ord0);
            lemma_explore_fork(ord0, path0, expected);
        }
        let ghost b_div = branch_sols(
            permutation@,
            path0,
            expected,
            last,
            second_last,
            Operation::Divide,
        );
        let ghost b_mul = branch_sols(
            permutation@,
            path0,
            expected,
            last,
            second_last,
            Operation::Multiply,
        );
        let ghost b_add = branch_sols(
            permutation@,
            path0,
            expected,
            last,
            second_last,
            Operation::Add,
        );
        let ghost b_sub = branch_sols(
            permutation@,
            path0,
            expected,
            last,
            second_last,
            Operation::Subtract,
        );

        push_branch(&mut permutations, last, second_last, Operation::Divide, &permutation, &path, Ghost(expected));
        push_branch(&mut permutations, last, second_last, Operation::Multiply, &permutation, &path, Ghost(expected));
        push_branch(&mut permutations, last, second_last, Operation::Add, &permutation, &path, Ghost(expected));
        push_branch(&mut permutations, last, second_last, Operation::Subtract, &permutation, &path, Ghost(expected));

        proof {
            lemma_regroup_four(b_sub, b_add, b_mul, b_div, rest_sols);
            lemma_pow5_step(ord0.len());
        }
    }
    proof {
        assert(items_view(permutations@) =~= Seq::<(Seq<u32>, Seq<Step>)>::empty());
        lemma_empty_prepend(Seq::<Seq<Step>>::empty());
        assert(paths_view(solutions@) + solutions_of(items_view(permutations@), expected)
            =~= paths_view(solutions@));
    }
    solutions
}

} // verus!
