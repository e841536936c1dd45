//! Crate stack simulator: the input is a fixed-width diagram of up to nine
//! stacks of single-character crates, a stack-label line, and then move
//! instructions `move N from S to T` (1-based). Two simulations run over the
//! same instructions from the same initial configuration: single-crate
//! semantics moves crates one at a time (reversing them), multi-crate
//! semantics moves them together (preserving order). A step naming a stack
//! out of range or moving more crates than present is fatal: the ship's state
//! would no longer be well defined.

use vstd::prelude::*;

use crate::text::{is_u64_number, digits_value, parse_u64, puzzle_lines, split_bytes, split_lines,
    split_seq};

verus! {

/// The number of stacks on the ship.
pub const STACK_COUNT: usize = 9;

/// Whether a diagram line holds at least one crate (a `[` byte).
pub open spec fn has_crate(l: Seq<u8>) -> bool {
    exists|k: int| 0 <= k < l.len() && l[k] == 91
}

/// Number of leading lines that belong to the crate diagram.
pub open spec fn diagram_count(lines: Seq<Seq<u8>>) -> int
    decreases lines.len(),
{
    if lines.len() == 0 || !has_crate(lines[0]) {
        0
    } else {
        1 + diagram_count(lines.skip(1))
    }
}

/// The crate that a diagram row shows for stack `j`, if any: the label sits
/// in the second column of the stack's 4-column field.
pub open spec fn row_cell(row: Seq<u8>, j: int) -> Seq<u8> {
    if 4 * j + 1 < row.len() && row[4 * j] == 91 {
        seq![row[4 * j + 1]]
    } else {
        Seq::empty()
    }
}

/// The initial contents of stack `j`, bottom first: diagram rows are read
/// top-down, so the last row contributes the bottom crate.
pub open spec fn initial_stack(rows: Seq<Seq<u8>>, j: int) -> Seq<u8>
    decreases rows.len(),
{
    if rows.len() == 0 {
        Seq::empty()
    } else {
        row_cell(rows.last(), j) + initial_stack(rows.drop_last(), j)
    }
}

/// The ship's nine initial stacks.
pub open spec fn initial_stacks(rows: Seq<Seq<u8>>) -> Seq<Seq<u8>> {
    Seq::new(STACK_COUNT as nat, |j: int| initial_stack(rows, j))
}

/// The lines after the diagram and the stack-label line that follows it.
pub open spec fn step_lines(lines: Seq<Seq<u8>>) -> Seq<Seq<u8>> {
    let start = diagram_count(lines) + 1;
    if start <= lines.len() {
        lines.skip(start)
    } else {
        Seq::empty()
    }
}

/// Parse a step line `move N from S to T` into `(N, S, T)`.
pub open spec fn parse_step(l: Seq<u8>) -> Option<(int, int, int)> {
    let toks = split_seq(l, 32);
    if toks.len() == 6 && toks[0] == seq![109u8, 111u8, 118u8, 101u8] && toks[2] == seq![
        102u8,
        114u8,
        111u8,
        109u8,
    ] && toks[4] == seq![116u8, 111u8] && is_u64_number(toks[1]) && is_u64_number(toks[3])
        && is_u64_number(toks[5]) {
        Some((digits_value(toks[1]), digits_value(toks[3]), digits_value(toks[5])))
    } else {
        None
    }
}

/// The parsed steps of the step lines, in order.
pub open spec fn steps_list(ls: Seq<Seq<u8>>) -> Seq<(int, int, int)>
    decreases ls.len(),
{
    if ls.len() == 0 {
        Seq::empty()
    } else {
        steps_list(ls.drop_last()) + match parse_step(ls.last()) {
            Some(st) => seq![st],
            None => Seq::empty(),
        }
    }
}

/// Number of non-blank step lines that could not be parsed (skipped).
pub open spec fn skipped_steps(ls: Seq<Seq<u8>>) -> int
    decreases ls.len(),
{
    if ls.len() == 0 {
        0
    } else {
        skipped_steps(ls.drop_last()) + if parse_step(ls.last()) is None && ls.last().len() > 0 {
            1int
        } else {
            0int
        }
    }
}

/// A step may be applied when both stack indices are on the ship and the
/// source stack holds enough crates.
pub open spec fn step_valid(stacks: Seq<Seq<u8>>, n: int, s: int, t: int) -> bool {
    &&& 1 <= s <= STACK_COUNT
    &&& 1 <= t <= STACK_COUNT
    &&& 0 <= n <= stacks[s - 1].len()
}

/// The ship after one step: the top `n` crates leave stack `s` and land on
/// stack `t`, reversed under single-crate semantics and in order under
/// multi-crate semantics.
pub open spec fn apply_step(stacks: Seq<Seq<u8>>, n: int, s: int, t: int, single: bool) -> Seq<
    Seq<u8>,
> {
    let from = stacks[s - 1];
    let moved = from.skip(from.len() - n);
    let mid = stacks.update(s - 1, from.take(from.len() - n));
    mid.update(t - 1, mid[t - 1] + if single {
        moved.reverse()
    } else {
        moved
    })
}

/// The ship after a whole step list, or nothing once a step is invalid.
pub open spec fn run_steps(
    stacks: Seq<Seq<u8>>,
    steps: Seq<(int, int, int)>,
    single: bool,
) -> Option<Seq<Seq<u8>>>
    decreases steps.len(),
{
    if steps.len() == 0 {
        Some(stacks)
    } else {
        let (n, s, t) = steps[0];
        if step_valid(stacks, n, s, t) {
            run_steps(apply_step(stacks, n, s, t, single), steps.skip(1), single)
        } else {
            None
        }
    }
}

/// The top crate of every non-empty stack, in stack order.
pub open spec fn tops_of(stacks: Seq<Seq<u8>>) -> Seq<u8>
    decreases stacks.len(),
{
    if stacks.len() == 0 {
        Seq::empty()
    } else {
        tops_of(stacks.drop_last()) + if stacks.last().len() > 0 {
            seq![stacks.last().last()]
        } else {
            Seq::empty()
        }
    }
}

/// Total number of crates on the ship.
pub open spec fn total_crates(stacks: Seq<Seq<u8>>) -> int
    decreases stacks.len(),
{
    if stacks.len() == 0 {
        0
    } else {
        total_crates(stacks.drop_last()) + stacks.last().len()
    }
}

/// The stack heights, which evolve identically under both semantics.
pub open spec fn stack_lens(stacks: Seq<Seq<u8>>) -> Seq<int> {
    stacks.map_values(|s: Seq<u8>| s.len() as int)
}

/// The result of simulating one ship.
#[derive(Debug, PartialEq, Eq)]
pub struct ShipTops {
    /// Top crates after the single-crate simulation, in stack order.
    pub single_tops: Vec<u8>,
    /// Top crates after the multi-crate simulation, in stack order.
    pub multi_tops: Vec<u8>,
    /// Number of steps applied.
    pub steps_applied: usize,
    /// Number of non-blank instruction lines that could not be parsed.
    pub skipped_lines: usize,
}

/// A step that cannot be applied invalidates the whole simulation.
#[derive(Clone, Copy, Debug, PartialEq, Eq, Structural)]
pub enum StackError {
    /// The step names a stack outside 1 through 9; `step` is its index in
    /// the parsed step list.
    StackOutOfRange { step: usize },
    /// The step asks for more crates than its source stack holds.
    TooFewCrates { step: usize },
}

/// Everything the simulator promises of its result.
pub open spec fn simulate_post(input: Seq<u8>, r: Result<ShipTops, StackError>) -> bool {
    let lines = puzzle_lines(input);
    let rows = lines.take(diagram_count(lines));
    let init = initial_stacks(rows);
    let steps = steps_list(step_lines(lines));
    &&& (r is Ok <==> run_steps(init, steps, true) is Some)
    &&& (r matches Ok(tops) ==> {
        &&& run_steps(init, steps, false) is Some
        &&& tops.single_tops@ == tops_of(run_steps(init, steps, true)->Some_0)
        &&& tops.multi_tops@ == tops_of(run_steps(init, steps, false)->Some_0)
        &&& tops.steps_applied == steps.len()
        &&& tops.skipped_lines == skipped_steps(step_lines(lines))
    })
    &&& (r matches Err(e) ==> {
        let k = match e {
            StackError::StackOutOfRange { step } => step as int,
            StackError::TooFewCrates { step } => step as int,
        };
        &&& 0 <= k < steps.len()
        &&& run_steps(init, steps.take(k), true) is Some
        &&& {
            let st = run_steps(init, steps.take(k), true)->Some_0;
            let (n, s, t) = steps[k];
            &&& !step_valid(st, n, s, t)
            &&& (e is StackOutOfRange <==> !(1 <= s <= STACK_COUNT && 1 <= t <= STACK_COUNT))
        }
    })
}

/// Law (idempotence): the simulator's contract pins its result down
/// completely, so re-running it on the same input yields an identical result.
pub proof fn lemma_simulate_deterministic(
    input: Seq<u8>,
    r1: Result<ShipTops, StackError>,
    r2: Result<ShipTops, StackError>,
)
    requires
        simulate_post(input, r1),
        simulate_post(input, r2),
    ensures
        r1 == r2 || (r1 matches Ok(a) && r2 matches Ok(b) && a.single_tops@ == b.single_tops@
            && a.multi_tops@ == b.multi_tops@ && a.steps_applied == b.steps_applied
            && a.skipped_lines == b.skipped_lines),
{
    let lines = puzzle_lines(input);
    let rows = lines.take(diagram_count(lines));
    let init = initial_stacks(rows);
    let steps = steps_list(step_lines(lines));
    if r1 is Err && r2 is Err {
        let e1 = r1->Err_0;
        let e2 = r2->Err_0;
        let k1 = match e1 {
            StackError::StackOutOfRange { step } => step as int,
            StackError::TooFewCrates { step } => step as int,
        };
        let k2 = match e2 {
            StackError::StackOutOfRange { step } => step as int,
            StackError::TooFewCrates { step } => step as int,
        };
        if k1 < k2 {
            lemma_run_prefix_some(init, steps, k2, k1, true);
        } else if k2 < k1 {
            lemma_run_prefix_some(init, steps, k1, k2, true);
        }
    }
}

/// If a run of the first `a` steps succeeds, so does any shorter prefix, and
/// the shorter run's result is what the longer run went through.
proof fn lemma_run_prefix_some(init: Seq<Seq<u8>>, steps: Seq<(int, int, int)>, a: int, b: int,
    single: bool)
    requires
        0 <= b <= a <= steps.len(),
        run_steps(init, steps.take(a), single) is Some,
    ensures
        run_steps(init, steps.take(b), single) is Some,
        ({
            let st = run_steps(init, steps.take(b), single)->Some_0;
            let (n, s, t) = steps[b];
            b < a ==> step_valid(st, n, s, t)
        }),
{
    lemma_run_append(init, steps.take(b), steps.subrange(b, a), single);
    assert(steps.take(b) + steps.subrange(b, a) =~= steps.take(a));
    if b < a {
        let st = run_steps(init, steps.take(b), single)->Some_0;
        assert(steps.subrange(b, a)[0] == steps[b]);
    }
}

/// Running a concatenation of step lists runs them in order.
proof fn lemma_run_append(init: Seq<Seq<u8>>, a: Seq<(int, int, int)>, b: Seq<(int, int, int)>,
    single: bool)
    ensures
        run_steps(init, a + b, single) == (match run_steps(init, a, single) {
            Some(mid) => run_steps(mid, b, single),
            None => None::<Seq<Seq<u8>>>,
        }),
    decreases a.len(),
{
    if a.len() == 0 {
        assert(a + b =~= b);
    } else {
        let (n, s, t) = a[0];
        assert((a + b)[0] == a[0]);
        if step_valid(init, n, s, t) {
            lemma_run_append(apply_step(init, n, s, t, single), a.skip(1), b, single);
            assert((a + b).skip(1) =~= a.skip(1) + b);
        }
    }
}

/// Sum of a sequence of stack heights.
spec fn lens_sum(ls: Seq<int>) -> int
    decreases ls.len(),
{
    if ls.len() == 0 {
        0
    } else {
        lens_sum(ls.drop_last()) + ls.last()
    }
}

proof fn lemma_total_is_lens_sum(stacks: Seq<Seq<u8>>)
    ensures
        total_crates(stacks) == lens_sum(stack_lens(stacks)),
    decreases stacks.len(),
{
    if stacks.len() > 0 {
        lemma_total_is_lens_sum(stacks.drop_last());
        assert(stack_lens(stacks).drop_last() =~= stack_lens(stacks.drop_last()));
        assert(stack_lens(stacks).last() == stacks.last().len());
    }
}

proof fn lemma_lens_sum_update(ls: Seq<int>, i: int, v: int)
    requires
        0 <= i < ls.len(),
    ensures
        lens_sum(ls.update(i, v)) == lens_sum(ls) - ls[i] + v,
    decreases ls.len(),
{
    if i == ls.len() - 1 {
        assert(ls.update(i, v).drop_last() =~= ls.drop_last());
        assert(ls.update(i, v).last() == v);
    } else {
        lemma_lens_sum_update(ls.drop_last(), i, v);
        assert(ls.update(i, v).drop_last() =~= ls.drop_last().update(i, v));
        assert(ls.update(i, v).last() == ls.last());
    }
}

/// One valid step conserves the total crate count, under either semantics.
pub proof fn lemma_step_conserves(stacks: Seq<Seq<u8>>, n: int, s: int, t: int, single: bool)
    requires
        step_valid(stacks, n, s, t),
        stacks.len() == STACK_COUNT,
    ensures
        total_crates(apply_step(stacks, n, s, t, single)) == total_crates(stacks),
        apply_step(stacks, n, s, t, single).len() == STACK_COUNT,
{
    let from = stacks[s - 1];
    let keep = from.take(from.len() - n);
    let moved = from.skip(from.len() - n);
    let mid = stacks.update(s - 1, keep);
    let landed = mid[t - 1] + if single {
        moved.reverse()
    } else {
        moved
    };
    let end = mid.update(t - 1, landed);
    lemma_total_is_lens_sum(stacks);
    lemma_total_is_lens_sum(mid);
    lemma_total_is_lens_sum(end);
    assert(stack_lens(mid) =~= stack_lens(stacks).update(s - 1, keep.len() as int));
    assert(stack_lens(end) =~= stack_lens(mid).update(t - 1, landed.len() as int));
    lemma_lens_sum_update(stack_lens(stacks), s - 1, keep.len() as int);
    lemma_lens_sum_update(stack_lens(mid), t - 1, landed.len() as int);
}

/// Law (conservation): a run that applies every step keeps the total crate
/// count unchanged, under both single-crate and multi-crate semantics.
pub proof fn lemma_run_conserves(stacks: Seq<Seq<u8>>, steps: Seq<(int, int, int)>, single: bool)
    requires
        stacks.len() == STACK_COUNT,
        run_steps(stacks, steps, single) is Some,
    ensures
        total_crates(run_steps(stacks, steps, single)->Some_0) == total_crates(stacks),
        run_steps(stacks, steps, single)->Some_0.len() == STACK_COUNT,
    decreases steps.len(),
{
    if steps.len() > 0 {
        let (n, s, t) = steps[0];
        lemma_step_conserves(stacks, n, s, t, single);
        lemma_run_conserves(apply_step(stacks, n, s, t, single), steps.skip(1), single);
    }
}

/// The two semantics agree on stack heights at every point, so a step list
/// runs to completion under one exactly when it does under the other.
pub proof fn lemma_runs_agree(a: Seq<Seq<u8>>, b: Seq<Seq<u8>>, steps: Seq<(int, int, int)>)
    requires
        a.len() == STACK_COUNT,
        b.len() == STACK_COUNT,
        stack_lens(a) == stack_lens(b),
    ensures
        run_steps(a, steps, true) is Some <==> run_steps(b, steps, false) is Some,
        (run_steps(a, steps, true) is Some && run_steps(b, steps, false) is Some) ==> stack_lens(
            run_steps(a, steps, true)->Some_0,
        ) == stack_lens(run_steps(b, steps, false)->Some_0),
    decreases steps.len(),
{
    if steps.len() > 0 {
        let (n, s, t) = steps[0];
        if 1 <= s <= STACK_COUNT {
            assert(stack_lens(a)[s - 1] == a[s - 1].len() as int);
            assert(stack_lens(b)[s - 1] == b[s - 1].len() as int);
        }
        if step_valid(a, n, s, t) {
            assert(step_valid(b, n, s, t));
            let a2 = apply_step(a, n, s, t, true);
            let b2 = apply_step(b, n, s, t, false);
            let moved_a = a[s - 1].skip(a[s - 1].len() - n);
            let moved_b = b[s - 1].skip(b[s - 1].len() - n);
            assert(moved_a.reverse().len() == moved_a.len());
            assert(stack_lens(a2) =~= stack_lens(b2)) by {
                assert forall|j: int| 0 <= j < STACK_COUNT implies #[trigger] stack_lens(a2)[j]
                    == stack_lens(b2)[j] by {
                    assert(stack_lens(a2)[j] == a2[j].len() as int);
                    assert(stack_lens(b2)[j] == b2[j].len() as int);
                    if j == t - 1 {
                        assert(stack_lens(a)[t - 1] == a[t - 1].len() as int);
                        assert(stack_lens(b)[t - 1] == b[t - 1].len() as int);
                        assert(moved_a.len() == n && moved_b.len() == n);
                        assert(a2[j].len() == b2[j].len());
                    } else if j == s - 1 {
                        assert(a2[j].len() == b2[j].len());
                    } else {
                        assert(a2[j] == a[j] && b2[j] == b[j]);
                        assert(stack_lens(a)[j] == a[j].len() as int);
                        assert(stack_lens(b)[j] == b[j].len() as int);
                    }
                }
            }
            assert(a2.len() == STACK_COUNT && b2.len() == STACK_COUNT);
            lemma_runs_agree(a2, b2, steps.skip(1));
        } else {
            assert(!step_valid(b, n, s, t));
        }
    }
}

/// Law (conservation, end to end): a successful simulation ends both runs
/// with exactly as many crates as the diagram supplied.
pub proof fn lemma_simulate_conserves(input: Seq<u8>, tops: ShipTops)
    requires
        simulate_post(input, Ok(tops)),
    ensures
        ({
            let lines = puzzle_lines(input);
            let init = initial_stacks(lines.take(diagram_count(lines)));
            let steps = steps_list(step_lines(lines));
            &&& total_crates(run_steps(init, steps, true)->Some_0) == total_crates(init)
            &&& total_crates(run_steps(init, steps, false)->Some_0) == total_crates(init)
        }),
{
    let lines = puzzle_lines(input);
    let init = initial_stacks(lines.take(diagram_count(lines)));
    let steps = steps_list(step_lines(lines));
    lemma_runs_agree(init, init, steps);
    lemma_run_conserves(init, steps, true);
    lemma_run_conserves(init, steps, false);
}

/// The parsed steps a vector of machine words stands for.
pub open spec fn steps_view(v: Seq<(u64, u64, u64)>) -> Seq<(int, int, int)> {
    v.map_values(|p: (u64, u64, u64)| (p.0 as int, p.1 as int, p.2 as int))
}

/// Whether a line holds a crate bracket.
fn line_has_crate(l: &[u8]) -> (r: bool)
    ensures
        r == has_crate(l@),
{
    let n = l.len();
    let mut k: usize = 0;
    while k < n
        invariant
            0 <= k <= n,
            n == l@.len(),
            forall|p: int| 0 <= p < k ==> l@[p] != 91,
        decreases n - k,
    {
        if l[k] == 91 {
            proof {
                assert(0 <= k < l@.len() && l@[k as int] == 91);
            }
            return true;
        }
        k = k + 1;
    }
    proof {
        assert(!has_crate(l@)) by {
            if has_crate(l@) {
                let p = choose|p: int| 0 <= p < l@.len() && l@[p] == 91;
                assert(l@[p] != 91);
            }
        }
    }
    false
}

/// Parse one instruction line.
fn parse_step_line(l: &[u8]) -> (r: Option<(u64, u64, u64)>)
    ensures
        r is Some <==> parse_step(l@) is Some,
        r matches Some(v) ==> parse_step(l@) == Some((v.0 as int, v.1 as int, v.2 as int)),
{
    let toks = split_bytes(l, 32);
    proof {
        assert(forall|k: int|
            0 <= k < toks@.len() ==> toks@[k]@ =~= #[trigger] toks.deep_view()[k]);
    }
    if toks.len() != 6 {
        return None;
    }
    let t0 = &toks[0];
    if !(t0.len() == 4 && t0[0] == 109 && t0[1] == 111 && t0[2] == 118 && t0[3] == 101) {
        proof {
            assert(toks.deep_view()[0] != seq![109u8, 111u8, 118u8, 101u8]) by {
                if toks.deep_view()[0] == seq![109u8, 111u8, 118u8, 101u8] {
                    assert(t0@.len() == 4);
                    assert(t0@[0] == 109 && t0@[1] == 111 && t0@[2] == 118 && t0@[3] == 101);
                }
            }
        }
        return None;
    }
    let t2 = &toks[2];
    if !(t2.len() == 4 && t2[0] == 102 && t2[1] == 114 && t2[2] == 111 && t2[3] == 109) {
        proof {
            assert(toks.deep_view()[2] != seq![102u8, 114u8, 111u8, 109u8]) by {
                if toks.deep_view()[2] == seq![102u8, 114u8, 111u8, 109u8] {
                    assert(t2@.len() == 4);
                    assert(t2@[0] == 102 && t2@[1] == 114 && t2@[2] == 111 && t2@[3] == 109);
                }
            }
        }
        return None;
    }
    let t4 = &toks[4];
    if !(t4.len() == 2 && t4[0] == 116 && t4[1] == 111) {
        proof {
            assert(toks.deep_view()[4] != seq![116u8, 111u8]) by {
                if toks.deep_view()[4] == seq![116u8, 111u8] {
                    assert(t4@.len() == 2);
                    assert(t4@[0] == 116 && t4@[1] == 111);
                }
            }
        }
        return None;
    }
    proof {
        assert(toks.deep_view()[0] =~= seq![109u8, 111u8, 118u8, 101u8]);
        assert(toks.deep_view()[2] =~= seq![102u8, 114u8, 111u8, 109u8]);
        assert(toks.deep_view()[4] =~= seq![116u8, 111u8]);
    }
    let n = match parse_u64(toks[1].as_slice()) {
        Some(v) => v,
        None => {
            return None;
        },
    };
    let s = match parse_u64(toks[3].as_slice()) {
        Some(v) => v,
        None => {
            return None;
        },
    };
    let t = match parse_u64(toks[5].as_slice()) {
        Some(v) => v,
        None => {
            return None;
        },
    };
    Some((n, s, t))
}

/// Read the initial stacks off the diagram rows (the first `d` lines).
fn build_initial_stacks(lines: &Vec<Vec<u8>>, d: usize) -> (stacks: Vec<Vec<u8>>)
    requires
        d <= lines@.len(),
    ensures
        stacks.deep_view() == initial_stacks(lines.deep_view().take(d as int)),
        stacks@.len() == STACK_COUNT,
{
    let ghost rows = lines.deep_view().take(d as int);
    let mut stacks: Vec<Vec<u8>> = Vec::new();
    let mut j: usize = 0;
    while j < STACK_COUNT
        invariant
            0 <= j <= STACK_COUNT,
            d <= lines@.len(),
            rows == lines.deep_view().take(d as int),
            stacks@.len() == j,
            forall|jj: int|
                0 <= jj < j ==> stacks.deep_view()[jj] == initial_stack(rows, jj),
        decreases STACK_COUNT - j,
    {
        let mut st: Vec<u8> = Vec::new();
        let mut r: usize = d;
        while r > 0
            invariant
                0 <= r <= d <= lines@.len(),
                rows == lines.deep_view().take(d as int),
                st@ == initial_stack(rows.skip(r as int), j as int),
                j < STACK_COUNT,
            decreases r,
        {
            r = r - 1;
            let row = &lines[r];
            proof {
                assert(row@ =~= lines.deep_view()[r as int]);
                assert(rows[r as int] == lines.deep_view()[r as int]);
                lemma_initial_prepend(rows[r as int], rows.skip(r as int + 1), j as int);
                assert(seq![rows[r as int]] + rows.skip(r as int + 1) =~= rows.skip(r as int));
            }
            if 4 * j + 1 < row.len() && row[4 * j] == 91 {
                st.push(row[4 * j + 1]);
                proof {
                    assert(row_cell(rows[r as int], j as int) =~= seq![row@[4 * j as int + 1]]);
                    assert(st@ =~= initial_stack(rows.skip(r as int + 1), j as int) + row_cell(
                        rows[r as int],
                        j as int,
                    ));
                }
            } else {
                proof {
                    assert(row_cell(rows[r as int], j as int) =~= Seq::<u8>::empty());
                    assert(st@ =~= initial_stack(rows.skip(r as int + 1), j as int) + row_cell(
                        rows[r as int],
                        j as int,
                    ));
                }
            }
        }
        proof {
            assert(rows.skip(0) =~= rows);
        }
        let ghost prev = stacks.deep_view();
        stacks.push(st);
        proof {
            assert(stacks.deep_view() =~~= prev.push(st@));
        }
        j = j + 1;
    }
    proof {
        assert(stacks.deep_view() =~~= initial_stacks(rows));
    }
    stacks
}

/// Prepending one more diagram row on top stacks its crate, if any, above
/// that of the rows below.
proof fn lemma_initial_prepend(row: Seq<u8>, rest: Seq<Seq<u8>>, j: int)
    ensures
        initial_stack(seq![row] + rest, j) == initial_stack(rest, j) + row_cell(row, j),
    decreases rest.len(),
{
    let s = seq![row] + rest;
    if rest.len() == 0 {
        assert(s =~= seq![row]);
        assert(s.drop_last() =~= Seq::<Seq<u8>>::empty());
        assert(initial_stack(Seq::<Seq<u8>>::empty(), j) == Seq::<u8>::empty());
        assert(initial_stack(s, j) == row_cell(row, j) + Seq::<u8>::empty());
        assert(row_cell(row, j) + Seq::<u8>::empty() =~= Seq::<u8>::empty() + row_cell(row, j));
    } else {
        assert(s.last() == rest.last());
        assert(s.drop_last() =~= seq![row] + rest.drop_last());
        lemma_initial_prepend(row, rest.drop_last(), j);
        assert(initial_stack(s, j) == row_cell(rest.last(), j) + (initial_stack(
            rest.drop_last(),
            j,
        ) + row_cell(row, j)));
        assert(row_cell(rest.last(), j) + (initial_stack(rest.drop_last(), j) + row_cell(row, j))
            =~= (row_cell(rest.last(), j) + initial_stack(rest.drop_last(), j)) + row_cell(
            row,
            j,
        ));
    }
}

/// Apply one valid step to the ship in place.
fn apply_one(stacks: &mut Vec<Vec<u8>>, n: usize, s: usize, t: usize, single: bool)
    requires
        old(stacks)@.len() == STACK_COUNT,
        step_valid(old(stacks).deep_view(), n as int, s as int, t as int),
    ensures
        final(stacks)@.len() == STACK_COUNT,
        final(stacks).deep_view() == apply_step(old(stacks).deep_view(), n as int, s as int,
            t as int, single),
{
    let ghost g0 = stacks.deep_view();
    let ghost from0 = g0[s as int - 1];
    let ghost moved = from0.skip(from0.len() - n as int);
    let mut from = stacks[s - 1].clone();
    proof {
        assert(from@ =~= from0);
    }
    let mut temp: Vec<u8> = Vec::new();
    let mut k: usize = 0;
    while k < n
        invariant
            0 <= k <= n,
            from0.len() >= n,
            from@ == from0.take(from0.len() - k as int),
            temp@.len() == k,
            forall|p: int| 0 <= p < k ==> temp@[p] == from0[from0.len() - 1 - p],
        decreases n - k,
    {
        let ghost before = from@;
        // The source stack is proven long enough, so the pop cannot miss.
        let top = match from.pop() {
            Some(c) => c,
            None => {
                proof {
                    assert(false);
                }
                return ;
            },
        };
        proof {
            assert(from@ =~= before.drop_last());
            assert(from@ =~= from0.take(from0.len() - (k as int + 1)));
            assert(top == from0[from0.len() - 1 - k as int]);
        }
        temp.push(top);
        k = k + 1;
    }
    proof {
        assert(temp@ =~= moved.reverse());
    }
    stacks.set(s - 1, from);
    let ghost mid = stacks.deep_view();
    proof {
        assert(mid =~~= g0.update(s as int - 1, from0.take(from0.len() - n as int)));
    }
    let mut dest = stacks[t - 1].clone();
    let ghost dest0 = mid[t as int - 1];
    proof {
        assert(dest@ =~= dest0);
    }
    if single {
        // Crates land one at a time, in the order they were lifted.
        let mut k: usize = 0;
        while k < temp.len()
            invariant
                0 <= k <= temp@.len(),
                temp@ == moved.reverse(),
                dest@ == dest0 + temp@.take(k as int),
            decreases temp@.len() - k,
        {
            let c = temp[k];
            dest.push(c);
            proof {
                assert(dest0 + temp@.take(k as int + 1) =~= (dest0 + temp@.take(k as int)).push(
                    temp@[k as int],
                ));
            }
            k = k + 1;
        }
        proof {
            assert(temp@.take(temp@.len() as int) =~= temp@);
            assert(dest@ =~= dest0 + moved.reverse());
        }
    } else {
        // Crates land together: unwinding the lift restores their order.
        let mut k: usize = temp.len();
        while k > 0
            invariant
                0 <= k <= temp@.len(),
                temp@ == moved.reverse(),
                moved.len() == temp@.len(),
                dest@ == dest0 + moved.take(moved.len() - k as int),
            decreases k,
        {
            k = k - 1;
            let c = temp[k];
            dest.push(c);
            proof {
                assert(temp@[k as int] == moved[moved.len() - 1 - k as int]);
                assert(dest0 + moved.take(moved.len() - k as int) =~= (dest0 + moved.take(
                    moved.len() - (k as int + 1),
                )).push(moved[moved.len() - 1 - k as int]));
            }
        }
        proof {
            assert(moved.take(moved.len() as int) =~= moved);
            assert(dest@ =~= dest0 + moved);
        }
    }
    stacks.set(t - 1, dest);
    proof {
        assert(stacks.deep_view() =~~= apply_step(g0, n as int, s as int, t as int, single));
    }
}

/// The top crate of every non-empty stack, in stack order.
fn collect_tops(stacks: &Vec<Vec<u8>>) -> (tops: Vec<u8>)
    ensures
        tops@ == tops_of(stacks.deep_view()),
{
    let ghost g = stacks.deep_view();
    let mut tops: Vec<u8> = Vec::new();
    let mut j: usize = 0;
    while j < stacks.len()
        invariant
            0 <= j <= stacks@.len(),
            g == stacks.deep_view(),
            tops@ == tops_of(g.take(j as int)),
        decreases stacks@.len() - j,
    {
        proof {
            assert(stacks@[j as int]@ =~= g[j as int]);
            assert(g.take(j as int + 1).drop_last() =~= g.take(j as int));
            assert(g.take(j as int + 1).last() == g[j as int]);
        }
        let row = &stacks[j];
        if row.len() > 0 {
            let c = row[row.len() - 1];
            tops.push(c);
        }
        j = j + 1;
    }
    proof {
        assert(g.take(g.len() as int) =~= g);
    }
    tops
}

/// Run one simulation over the parsed steps. Returns the final ship, or the
/// index and kind of the first step that could not be applied.
fn run_sim(init: Vec<Vec<u8>>, steps: &Vec<(u64, u64, u64)>, single: bool) -> (r: Result<
    Vec<Vec<u8>>,
    StackError,
>)
    requires
        init@.len() == STACK_COUNT,
    ensures
        r is Ok <==> run_steps(init.deep_view(), steps_view(steps@), single) is Some,
        r matches Ok(fin) ==> fin.deep_view() == run_steps(
            init.deep_view(),
            steps_view(steps@),
            single,
        )->Some_0,
        r matches Err(e) ==> {
            let sv = steps_view(steps@);
            let k = match e {
                StackError::StackOutOfRange { step } => step as int,
                StackError::TooFewCrates { step } => step as int,
            };
            &&& 0 <= k < sv.len()
            &&& run_steps(init.deep_view(), sv.take(k), single) is Some
            &&& {
                let st = run_steps(init.deep_view(), sv.take(k), single)->Some_0;
                let (n, s, t) = sv[k];
                &&& !step_valid(st, n, s, t)
                &&& (e is StackOutOfRange <==> !(1 <= s <= STACK_COUNT && 1 <= t
                    <= STACK_COUNT))
            }
        },
{
    let ghost g0 = init.deep_view();
    let ghost sv = steps_view(steps@);
    let mut stacks = init;
    let m = steps.len();
    let mut k: usize = 0;
    while k < m
        invariant
            0 <= k <= m,
            g0 == init.deep_view(),
            g0.len() == STACK_COUNT,
            m == sv.len(),
            sv == steps_view(steps@),
            stacks@.len() == STACK_COUNT,
            run_steps(g0, sv.take(k as int), single) == Some(stacks.deep_view()),
        decreases m - k,
    {
        let (n64, s64, t64) = steps[k];
        proof {
            assert(sv[k as int] == (n64 as int, s64 as int, t64 as int));
            lemma_run_append(g0, sv.take(k as int), seq![sv[k as int]], single);
            assert(sv.take(k as int) + seq![sv[k as int]] =~= sv.take(k as int + 1));
        }
        if s64 < 1 || s64 > 9 || t64 < 1 || t64 > 9 {
            proof {
                assert(!step_valid(stacks.deep_view(), n64 as int, s64 as int, t64 as int));
                assert(run_steps(stacks.deep_view(), seq![sv[k as int]], single) is None);
                assert(run_steps(g0, sv.take(k as int + 1), single) is None);
                lemma_run_append(g0, sv.take(k as int + 1), sv.skip(k as int + 1), single);
                assert(sv.take(k as int + 1) + sv.skip(k as int + 1) =~= sv);
            }
            return Err(StackError::StackOutOfRange { step: k });
        }
        let s = s64 as usize;
        let t = t64 as usize;
        proof {
            assert(stacks@[s as int - 1]@ =~= stacks.deep_view()[s as int - 1]);
        }
        if (n64 as u128) > (stacks[s - 1].len() as u128) {
            proof {
                assert(!step_valid(stacks.deep_view(), n64 as int, s as int, t as int));
                assert(run_steps(stacks.deep_view(), seq![sv[k as int]], single) is None);
                assert(run_steps(g0, sv.take(k as int + 1), single) is None);
                lemma_run_append(g0, sv.take(k as int + 1), sv.skip(k as int + 1), single);
                assert(sv.take(k as int + 1) + sv.skip(k as int + 1) =~= sv);
            }
            return Err(StackError::TooFewCrates { step: k });
        }
        let n = n64 as usize;
        let ghost pre = stacks.deep_view();
        proof {
            assert(step_valid(pre, n as int, s as int, t as int));
            assert(seq![sv[k as int]].skip(1) =~= Seq::<(int, int, int)>::empty());
        }
        apply_one(&mut stacks, n, s, t, single);
        proof {
            let after = apply_step(pre, n as int, s as int, t as int, single);
            assert(run_steps(after, Seq::<(int, int, int)>::empty(), single) == Some(after));
            assert(run_steps(pre, seq![sv[k as int]], single) == Some(stacks.deep_view()));
            assert(run_steps(g0, sv.take(k as int + 1), single) == Some(stacks.deep_view()));
        }
        k = k + 1;
    }
    proof {
        assert(sv.take(m as int) =~= sv);
        lemma_run_some(g0, sv, single, stacks.deep_view());
    }
    Ok(stacks)
}

proof fn lemma_run_some(g0: Seq<Seq<u8>>, sv: Seq<(int, int, int)>, single: bool, fin: Seq<Seq<u8>>)
    requires
        run_steps(g0, sv, single) == Some(fin),
    ensures
        run_steps(g0, sv, single) is Some,
        run_steps(g0, sv, single)->Some_0 == fin,
{
}

/// Simulate the ship: parse the diagram and the instructions, run both
/// semantics over the same initial stacks, and report the top crates of each.
/// Fails on the first step that names a stack out of range or lifts more
/// crates than its source holds.
pub fn simulate(input: &[u8]) -> (r: Result<ShipTops, StackError>)
    ensures
        simulate_post(input@, r),
{
    let lines = split_lines(input);
    let ghost all = puzzle_lines(input@);
    let n = lines.len();
    // Measure the diagram: the leading lines that show crates.
    proof {
        assert(all.skip(0) =~= all);
    }
    let mut d: usize = 0;
    while d < n && line_has_crate(lines[d].as_slice())
        invariant
            0 <= d <= n,
            all == puzzle_lines(input@),
            n == all.len(),
            lines.deep_view() == all,
            diagram_count(all) == d + diagram_count(all.skip(d as int)),
            forall|p: int| 0 <= p < d ==> has_crate(#[trigger] all[p]),
        decreases n - d,
    {
        proof {
            assert(lines@[d as int]@ =~= all[d as int]);
            assert(all.skip(d as int)[0] == all[d as int]);
            assert(all.skip(d as int).skip(1) =~= all.skip(d as int + 1));
        }
        d = d + 1;
    }
    proof {
        if d < n {
            assert(lines@[d as int]@ =~= all[d as int]);
            assert(all.skip(d as int)[0] == all[d as int]);
            assert(diagram_count(all.skip(d as int)) == 0);
        } else {
            assert(all.skip(d as int) =~= Seq::<Seq<u8>>::empty());
        }
        assert(diagram_count(all) == d);
    }
    let stacks0 = build_initial_stacks(&lines, d);
    let ghost init = initial_stacks(all.take(d as int));
    // Parse the instructions, which follow the diagram and its label line.
    let ghost sl = step_lines(all);
    let mut steps: Vec<(u64, u64, u64)> = Vec::new();
    let mut skipped: usize = 0;
    let start = if d < n {
        d + 1
    } else {
        n
    };
    proof {
        if d + 1 <= n {
            assert(sl =~= all.skip(d as int + 1));
        } else {
            assert(sl =~= Seq::<Seq<u8>>::empty());
            assert(all.skip(start as int) =~= Seq::<Seq<u8>>::empty());
        }
    }
    let mut i: usize = start;
    while i < n
        invariant
            start <= i <= n,
            all == puzzle_lines(input@),
            n == all.len(),
            lines.deep_view() == all,
            sl == step_lines(all),
            sl =~= all.skip(start as int),
            steps_view(steps@) == steps_list(sl.take(i - start)),
            skipped == skipped_steps(sl.take(i - start)),
            skipped <= i,
        decreases n - i,
    {
        proof {
            assert(lines@[i as int]@ =~= all[i as int]);
            assert(sl[i - start] == all[i as int]);
            assert(sl.take(i - start + 1).drop_last() =~= sl.take(i - start));
            assert(sl.take(i - start + 1).last() == sl[i - start]);
        }
        match parse_step_line(lines[i].as_slice()) {
            Some(st) => {
                let ghost prev = steps@;
                steps.push(st);
                proof {
                    assert(steps_view(steps@) =~= steps_view(prev).push(
                        (st.0 as int, st.1 as int, st.2 as int),
                    ));
                    assert(steps_list(sl.take(i - start + 1)) =~= steps_list(sl.take(i - start))
                        + seq![(st.0 as int, st.1 as int, st.2 as int)]);
                    assert(steps_view(prev).push((st.0 as int, st.1 as int, st.2 as int))
                        =~= steps_view(prev) + seq![(st.0 as int, st.1 as int, st.2 as int)]);
                }
            },
            None => {
                if lines[i].len() > 0 {
                    skipped = skipped + 1;
                }
            },
        }
        i = i + 1;
    }
    proof {
        assert(sl.take(n - start) =~= sl);
        assert(all.take(d as int) =~= lines.deep_view().take(d as int));
    }
    // Two simulations from the same initial configuration.
    let stacks1 = clone_stacks(&stacks0);
    let fin_single = match run_sim(stacks0, &steps, true) {
        Ok(f) => f,
        Err(e) => {
            return Err(e);
        },
    };
    proof {
        assert(stack_lens(init) == stack_lens(init));
        lemma_runs_agree(init, init, steps_view(steps@));
    }
    // The two semantics agree on stack heights throughout, so the second run
    // cannot fail once the first succeeded.
    let fin_multi = match run_sim(stacks1, &steps, false) {
        Ok(f) => f,
        Err(e) => {
            proof {
                assert(false);
            }
            return Err(e);
        },
    };
    let single_tops = collect_tops(&fin_single);
    let multi_tops = collect_tops(&fin_multi);
    Ok(ShipTops { single_tops, multi_tops, steps_applied: steps.len(), skipped_lines: skipped })
}

/// An independent copy of the ship, stack by stack.
fn clone_stacks(stacks: &Vec<Vec<u8>>) -> (r: Vec<Vec<u8>>)
    ensures
        r.deep_view() == stacks.deep_view(),
        r@.len() == stacks@.len(),
{
    let mut r: Vec<Vec<u8>> = Vec::new();
    let mut j: usize = 0;
    while j < stacks.len()
        invariant
            0 <= j <= stacks@.len(),
            r.deep_view() == stacks.deep_view().take(j as int),
        decreases stacks@.len() - j,
    {
        let ghost prev = r.deep_view();
        r.push(stacks[j].clone());
        proof {
            assert(stacks@[j as int]@ =~= stacks.deep_view()[j as int]);
            assert(r.deep_view() =~~= prev.push(stacks.deep_view()[j as int]));
            assert(r.deep_view() =~~= stacks.deep_view().take(j as int + 1));
        }
        j = j + 1;
    }
    proof {
        assert(stacks.deep_view().take(stacks@.len() as int) =~= stacks.deep_view());
    }
    r
}

} // verus!
