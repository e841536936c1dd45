//! Ration summarizer: the input is one non-negative integer per line, with
//! blank lines separating groups. The solver reports how many groups there
//! are and the three largest group totals together with their sum, computed
//! in one pass without sorting.

use vstd::prelude::*;

use crate::text::{
    all_digits, digits_value, is_u64_number, parse_u64, puzzle_lines, split_lines,
};

verus! {

/// The totals of the groups of `lines`: blank lines close the group before
/// them, and the end of input closes the final group, so there is always one
/// group more than there are blank lines.
pub open spec fn group_totals(lines: Seq<Seq<u8>>) -> Seq<int>
    decreases lines.len(),
{
    if lines.len() == 0 {
        seq![0]
    } else if lines[0].len() == 0 {
        seq![0int] + group_totals(lines.skip(1))
    } else {
        let rest = group_totals(lines.skip(1));
        seq![digits_value(lines[0]) + rest[0]] + rest.skip(1)
    }
}

/// A line is acceptable when it is blank or denotes a `u64` number.
pub open spec fn ration_line_ok(l: Seq<u8>) -> bool {
    l.len() == 0 || is_u64_number(l)
}

/// The running three maxima after one more group total `t` arrives. A total
/// equal to an existing maximum is treated as not greater, so earlier groups
/// retain priority at equal value.
pub open spec fn top3_insert(b: (int, int, int), t: int) -> (int, int, int) {
    if t > b.0 {
        (t, b.0, b.1)
    } else if t > b.1 {
        (b.0, t, b.1)
    } else if t > b.2 {
        (b.0, b.1, t)
    } else {
        b
    }
}

/// The three largest values of `totals` in decreasing order, padded with
/// zeroes when there are fewer than three, as computed by a single pass.
pub open spec fn top3_of(totals: Seq<int>) -> (int, int, int)
    decreases totals.len(),
{
    if totals.len() == 0 {
        (0, 0, 0)
    } else {
        top3_insert(top3_of(totals.drop_last()), totals.last())
    }
}

/// Sum of a sequence of integers.
pub open spec fn seq_sum(s: Seq<int>) -> int
    decreases s.len(),
{
    if s.len() == 0 {
        0
    } else {
        seq_sum(s.drop_last()) + s.last()
    }
}

/// Descending order.
pub open spec fn sorted_desc(s: Seq<int>) -> bool {
    forall|i: int, j: int| 0 <= i < j < s.len() ==> s[i] >= s[j]
}

/// Insert `x` into a descending-sorted sequence, after any equal values.
pub open spec fn insert_desc(s: Seq<int>, x: int) -> Seq<int>
    decreases s.len(),
{
    if s.len() == 0 {
        seq![x]
    } else if x > s[0] {
        seq![x] + s
    } else {
        seq![s[0]] + insert_desc(s.skip(1), x)
    }
}

/// Insertion sort into descending order: the independent full sort against
/// which the one-pass maxima are measured.
pub open spec fn sort_desc(s: Seq<int>) -> Seq<int>
    decreases s.len(),
{
    if s.len() == 0 {
        Seq::empty()
    } else {
        insert_desc(sort_desc(s.drop_last()), s.last())
    }
}

/// `s[k]`, reading positions past the end as zero (the padding value of the
/// running maxima).
pub open spec fn get_or_zero(s: Seq<int>, k: int) -> int {
    if 0 <= k < s.len() {
        s[k]
    } else {
        0
    }
}

proof fn lemma_insert_desc_ensures(s: Seq<int>, x: int)
    requires
        sorted_desc(s),
    ensures
        sorted_desc(insert_desc(s, x)),
        insert_desc(s, x).len() == s.len() + 1,
        forall|k: int|
            0 <= k < s.len() + 1 ==> (#[trigger] insert_desc(s, x)[k] == x
                || s.contains(insert_desc(s, x)[k])),
    decreases s.len(),
{
    let r = insert_desc(s, x);
    if s.len() == 0 {
    } else if x > s[0] {
        assert(forall|k: int| 1 <= k < r.len() ==> r[k] == s[k - 1]);
        assert(forall|k: int| 1 <= k < r.len() ==> s.contains(r[k]));
    } else {
        let tail = s.skip(1);
        assert(sorted_desc(tail)) by {
            assert(forall|k: int| 0 <= k < tail.len() ==> tail[k] == s[k + 1]);
        }
        lemma_insert_desc_ensures(tail, x);
        let rt = insert_desc(tail, x);
        assert(r == seq![s[0]] + rt);
        assert(forall|k: int| 1 <= k < r.len() ==> r[k] == rt[k - 1]);
        assert(forall|e: int| tail.contains(e) ==> s.contains(e)) by {
            assert(forall|k: int| 0 <= k < tail.len() ==> tail[k] == s[k + 1]);
        }
        // Every later entry is x or an element of s, both bounded by s[0].
        assert(forall|k: int| 1 <= k < r.len() ==> r[k] <= s[0]) by {
            assert(forall|e: int| s.contains(e) ==> e <= s[0]);
        }
        assert(sorted_desc(r));
    }
}

proof fn lemma_sort_desc_ensures(s: Seq<int>)
    ensures
        sorted_desc(sort_desc(s)),
        sort_desc(s).len() == s.len(),
        forall|k: int|
            0 <= k < s.len() ==> s.contains(#[trigger] sort_desc(s)[k]),
    decreases s.len(),
{
    if s.len() > 0 {
        let head = s.drop_last();
        lemma_sort_desc_ensures(head);
        lemma_insert_desc_ensures(sort_desc(head), s.last());
        assert(forall|e: int| head.contains(e) ==> s.contains(e)) by {
            assert(forall|k: int| 0 <= k < head.len() ==> head[k] == s[k]);
        }
        assert(s.contains(s.last()));
        assert(forall|k: int| 0 <= k < s.len() ==> s.contains(#[trigger] sort_desc(s)[k])) by {
            assert(forall|k: int|
                0 <= k < s.len() ==> sort_desc(s)[k] == s.last()
                    || sort_desc(head).contains(sort_desc(s)[k]));
            assert(forall|e: int| sort_desc(head).contains(e) ==> head.contains(e));
        }
    }
}

proof fn lemma_top3_vs_insert(s: Seq<int>, x: int)
    requires
        sorted_desc(s),
        x >= 0,
        forall|i: int| 0 <= i < s.len() ==> s[i] >= 0,
    ensures
        ({
            let r = insert_desc(s, x);
            let b = top3_insert((get_or_zero(s, 0), get_or_zero(s, 1), get_or_zero(s, 2)), x);
            get_or_zero(r, 0) == b.0 && get_or_zero(r, 1) == b.1 && get_or_zero(r, 2) == b.2
        }),
{
    let r = insert_desc(s, x);
    if s.len() == 0 {
        assert(r == seq![x]);
    } else if x > s[0] {
        assert(r == seq![x] + s);
    } else {
        let t1 = s.skip(1);
        assert(sorted_desc(t1));
        let r1 = insert_desc(t1, x);
        assert(r == seq![s[0]] + r1);
        if t1.len() == 0 {
            assert(r1 == seq![x]);
            assert(r == seq![s[0], x]);
        } else if x > t1[0] {
            assert(r1 == seq![x] + t1);
            assert(t1[0] == s[1]);
            assert(r[1] == x && r[2] == s[1]);
        } else {
            let t2 = t1.skip(1);
            assert(sorted_desc(t2)) by {
                assert(forall|k: int| 0 <= k < t2.len() ==> t2[k] == s[k + 2]);
            }
            let r2 = insert_desc(t2, x);
            assert(r1 == seq![t1[0]] + r2);
            assert(t1[0] == s[1]);
            if t2.len() == 0 {
                assert(r2 == seq![x]);
                assert(r == seq![s[0], s[1], x]);
            } else if x > t2[0] {
                assert(r2 == seq![x] + t2);
                assert(t2[0] == s[2]);
                assert(r[2] == x);
            } else {
                assert(r2 == seq![t2[0]] + insert_desc(t2.skip(1), x));
                assert(t2[0] == s[2]);
                assert(r[0] == s[0] && r[1] == s[1] && r[2] == s[2]);
            }
        }
    }
}

/// Law: the running three maxima agree with an independent full sort. For any
/// sequence of non-negative group totals, the one-pass `top3_of` yields
/// exactly the first three entries of the descending-sorted totals (read as
/// zero past the end), so `best1 >= best2 >= best3` and `best1 + best2 +
/// best3` is the sum of the three greatest totals.
pub proof fn lemma_top3_matches_sort(totals: Seq<int>)
    requires
        forall|i: int| 0 <= i < totals.len() ==> totals[i] >= 0,
    ensures
        top3_of(totals).0 == get_or_zero(sort_desc(totals), 0),
        top3_of(totals).1 == get_or_zero(sort_desc(totals), 1),
        top3_of(totals).2 == get_or_zero(sort_desc(totals), 2),
    decreases totals.len(),
{
    if totals.len() > 0 {
        let head = totals.drop_last();
        assert(forall|i: int| 0 <= i < head.len() ==> head[i] == totals[i]);
        lemma_top3_matches_sort(head);
        lemma_sort_desc_ensures(head);
        assert(forall|i: int| 0 <= i < sort_desc(head).len() ==> sort_desc(head)[i] >= 0) by {
            assert(forall|e: int| head.contains(e) ==> e >= 0);
        }
        lemma_top3_vs_insert(sort_desc(head), totals.last());
    }
}

/// Law: a summary's three maxima agree with an independent full sort of the
/// group totals: they are the three greatest totals in decreasing order, and
/// their reported sum is the sum of those three.
pub proof fn lemma_summary_matches_sort(input: Seq<u8>, s: RationSummary)
    requires
        summarize_post(input, Ok(s)),
    ensures
        s.best1 >= s.best2 >= s.best3,
        ({
            let sorted = sort_desc(group_totals(puzzle_lines(input)));
            &&& s.best1 == get_or_zero(sorted, 0)
            &&& s.best2 == get_or_zero(sorted, 1)
            &&& s.best3 == get_or_zero(sorted, 2)
            &&& s.top3_sum == get_or_zero(sorted, 0) + get_or_zero(sorted, 1) + get_or_zero(
                sorted,
                2,
            )
        }),
{
    let lines = puzzle_lines(input);
    let totals = group_totals(lines);
    lemma_group_totals_nonneg(lines);
    lemma_top3_sorted(totals);
    lemma_top3_matches_sort(totals);
}

/// The result of summarizing one ration list.
#[derive(Clone, Copy, Debug, PartialEq, Eq, Structural)]
pub struct RationSummary {
    /// Number of groups in the input (one more than the blank-line count).
    pub group_count: u128,
    /// Largest group total.
    pub best1: u128,
    /// Second-largest group total.
    pub best2: u128,
    /// Third-largest group total.
    pub best3: u128,
    /// `best1 + best2 + best3`.
    pub top3_sum: u128,
}

/// A non-blank line that does not denote a `u64` number is fatal for the
/// whole summary: corrupt numeric data must not be skipped silently.
#[derive(Clone, Copy, Debug, PartialEq, Eq, Structural)]
pub struct RationError {
    /// Index of the first offending line.
    pub line: usize,
}

/// The three running maxima are sorted and non-negative.
pub proof fn lemma_top3_sorted(totals: Seq<int>)
    ensures
        top3_of(totals).0 >= top3_of(totals).1 >= top3_of(totals).2 >= 0,
    decreases totals.len(),
{
    if totals.len() > 0 {
        lemma_top3_sorted(totals.drop_last());
    }
}

/// When every total is non-negative, the three maxima together never exceed
/// the grand total.
pub proof fn lemma_top3_sum_le(totals: Seq<int>)
    requires
        forall|i: int| 0 <= i < totals.len() ==> totals[i] >= 0,
    ensures
        top3_of(totals).0 + top3_of(totals).1 + top3_of(totals).2 <= seq_sum(totals),
    decreases totals.len(),
{
    if totals.len() > 0 {
        assert(forall|i: int| 0 <= i < totals.len() - 1 ==> totals.drop_last()[i] == totals[i]);
        lemma_top3_sum_le(totals.drop_last());
        lemma_top3_sorted(totals.drop_last());
    }
}

/// A sum of non-negative values is non-negative.
pub proof fn lemma_seq_sum_nonneg(s: Seq<int>)
    requires
        forall|i: int| 0 <= i < s.len() ==> s[i] >= 0,
    ensures
        seq_sum(s) >= 0,
    decreases s.len(),
{
    if s.len() > 0 {
        assert(forall|i: int| 0 <= i < s.len() - 1 ==> s.drop_last()[i] == s[i]);
        lemma_seq_sum_nonneg(s.drop_last());
    }
}

/// `group_totals` always yields at least one group.
pub proof fn lemma_group_totals_len(lines: Seq<Seq<u8>>)
    ensures
        group_totals(lines).len() >= 1,
    decreases lines.len(),
{
    if lines.len() > 0 && lines[0].len() != 0 {
        lemma_group_totals_len(lines.skip(1));
    }
}

/// Every group total of acceptable lines is non-negative.
pub proof fn lemma_group_totals_nonneg(lines: Seq<Seq<u8>>)
    requires
        forall|i: int| 0 <= i < lines.len() ==> ration_line_ok(#[trigger] lines[i]),
    ensures
        forall|g: int|
            0 <= g < group_totals(lines).len() ==> #[trigger] group_totals(lines)[g] >= 0,
    decreases lines.len(),
{
    if lines.len() == 0 {
    } else {
        assert(forall|i: int| 0 <= i < lines.len() - 1 ==> lines.skip(1)[i] == lines[i + 1]);
        lemma_group_totals_nonneg(lines.skip(1));
        lemma_group_totals_len(lines.skip(1));
        if lines[0].len() != 0 {
            crate::text::lemma_digits_value_nonneg(lines[0]);
        }
    }
}

/// The group totals of `lines` when the (still open) group before them has
/// already accumulated `cur`.
pub open spec fn totals_with_open(cur: int, lines: Seq<Seq<u8>>) -> Seq<int> {
    let rest = group_totals(lines);
    seq![cur + rest[0]] + rest.skip(1)
}

proof fn lemma_totals_with_open_zero(lines: Seq<Seq<u8>>)
    ensures
        totals_with_open(0, lines) == group_totals(lines),
{
    lemma_group_totals_len(lines);
    let rest = group_totals(lines);
    assert(seq![0 + rest[0]] + rest.skip(1) =~= rest);
}

proof fn lemma_totals_with_open_step(cur: int, lines: Seq<Seq<u8>>)
    requires
        lines.len() > 0,
    ensures
        lines[0].len() == 0 ==> totals_with_open(cur, lines)
            == seq![cur] + group_totals(lines.skip(1)),
        lines[0].len() != 0 ==> totals_with_open(cur, lines)
            == totals_with_open(cur + digits_value(lines[0]), lines.skip(1)),
{
    lemma_group_totals_len(lines.skip(1));
    let rest = group_totals(lines.skip(1));
    if lines[0].len() == 0 {
        assert(group_totals(lines) == seq![0int] + rest);
        assert(cur + (seq![0int] + rest)[0] == cur);
        assert((seq![0int] + rest).skip(1) =~= rest);
        assert(totals_with_open(cur, lines) =~= seq![cur] + rest);
    } else {
        let full = group_totals(lines);
        assert(full == seq![digits_value(lines[0]) + rest[0]] + rest.skip(1));
        assert(full[0] == digits_value(lines[0]) + rest[0]);
        assert(full.skip(1) =~= rest.skip(1));
        assert(totals_with_open(cur, lines)
            =~= seq![cur + digits_value(lines[0]) + rest[0]] + rest.skip(1));
        assert(totals_with_open(cur + digits_value(lines[0]), lines.skip(1))
            =~= seq![cur + digits_value(lines[0]) + rest[0]] + rest.skip(1));
    }
}

/// Everything the summarizer promises of its result: success exactly on
/// acceptable inputs, exact totals on success, and the first offending line
/// on failure.
pub open spec fn summarize_post(input: Seq<u8>, r: Result<RationSummary, RationError>) -> bool {
    &&& (r is Ok <==> (forall|i: int|
        0 <= i < puzzle_lines(input).len() ==> ration_line_ok(#[trigger] puzzle_lines(input)[i])))
    &&& (r matches Ok(s) ==> {
        let totals = group_totals(puzzle_lines(input));
        &&& s.group_count == totals.len()
        &&& s.best1 == top3_of(totals).0
        &&& s.best2 == top3_of(totals).1
        &&& s.best3 == top3_of(totals).2
        &&& s.top3_sum == top3_of(totals).0 + top3_of(totals).1 + top3_of(totals).2
    })
    &&& (r matches Err(e) ==> {
        &&& 0 <= e.line < puzzle_lines(input).len()
        &&& !ration_line_ok(puzzle_lines(input)[e.line as int])
        &&& forall|j: int| 0 <= j < e.line ==> ration_line_ok(#[trigger] puzzle_lines(input)[j])
    })
}

/// Law (idempotence): the summarizer's contract pins its result down
/// completely, so re-running it on the same input yields an identical result.
pub proof fn lemma_summarize_deterministic(
    input: Seq<u8>,
    r1: Result<RationSummary, RationError>,
    r2: Result<RationSummary, RationError>,
)
    requires
        summarize_post(input, r1),
        summarize_post(input, r2),
    ensures
        r1 == r2,
{
    if r1 is Err && r2 is Err {
        let e1 = r1->Err_0;
        let e2 = r2->Err_0;
        assert(e1.line == e2.line);
    }
}

/// Summarize a ration list: group count, the three largest group totals and
/// their sum. Fails exactly when some non-blank line is not a `u64` number,
/// naming the first such line.
pub fn summarize(input: &[u8]) -> (r: Result<RationSummary, RationError>)
    ensures
        summarize_post(input@, r),
{
    let lines = split_lines(input);
    let ghost all = puzzle_lines(input@);
    let n = lines.len();
    let mut i: usize = 0;
    let mut cur: u128 = 0;
    let mut b1: u128 = 0;
    let mut b2: u128 = 0;
    let mut b3: u128 = 0;
    let mut closed: u128 = 0;
    let ghost mut closed_totals: Seq<int> = Seq::empty();
    let ghost umax: int = u64::MAX as int;
    proof {
        lemma_totals_with_open_zero(all);
        assert(all.skip(0) =~= all);
    }
    while i < n
        invariant
            0 <= i <= n,
            all == puzzle_lines(input@),
            n == all.len(),
            lines.deep_view() == all,
            n <= usize::MAX,
            forall|j: int| 0 <= j < i ==> ration_line_ok(#[trigger] all[j]),
            group_totals(all) == closed_totals + totals_with_open(cur as int, all.skip(i as int)),
            closed == closed_totals.len(),
            closed <= i,
            (b1 as int, b2 as int, b3 as int) == top3_of(closed_totals),
            forall|g: int| 0 <= g < closed_totals.len() ==> #[trigger] closed_totals[g] >= 0,
            b1 + b2 + b3 <= seq_sum(closed_totals),
            seq_sum(closed_totals) + cur <= i * umax,
            umax == u64::MAX as int,
        decreases n - i,
    {
        proof {
            assert(all.skip(i as int)[0] == all[i as int]);
            assert(lines.deep_view()[i as int] == lines@[i as int]@);
            lemma_totals_with_open_step(cur as int, all.skip(i as int));
            assert(all.skip(i as int).skip(1) =~= all.skip(i as int + 1));
            lemma_seq_sum_nonneg(closed_totals);
            vstd::arithmetic::mul::lemma_mul_upper_bound(i as int, umax, umax, umax);
            assert((i as int) * umax + umax == (i as int + 1) * umax) by (nonlinear_arith);
        }
        let line = &lines[i];
        if line.len() == 0 {
            // Blank line: close the current group.
            let ghost prev_totals = closed_totals;
            proof {
                closed_totals = closed_totals.push(cur as int);
                assert(closed_totals.drop_last() =~= prev_totals);
            }
            let t = cur;
            cur = 0;
            if t > b1 {
                b3 = b2;
                b2 = b1;
                b1 = t;
            } else if t > b2 {
                b3 = b2;
                b2 = t;
            } else if t > b3 {
                b3 = t;
            }
            closed = closed + 1;
            proof {
                lemma_totals_with_open_zero(all.skip(i as int + 1));
                assert(group_totals(all) =~= (prev_totals + seq![t as int])
                    + totals_with_open(0, all.skip(i as int + 1)));
                assert(closed_totals =~= prev_totals + seq![t as int]);
                assert(seq_sum(closed_totals) == seq_sum(prev_totals) + t);
                assert((b1 as int, b2 as int, b3 as int) == top3_of(closed_totals));
                lemma_top3_sum_le(closed_totals);
            }
        } else {
            let v = match parse_u64(line.as_slice()) {
                Some(v) => v,
                None => {
                    proof {
                        assert(lines@[i as int]@ =~= lines.deep_view()[i as int]);
                        assert(!ration_line_ok(all[i as int]));
                    }
                    return Err(RationError { line: i });
                },
            };
            cur = cur + (v as u128);
        }
        i = i + 1;
    }
    // End of input closes the final group.
    proof {
        assert(all.skip(n as int) =~= Seq::<Seq<u8>>::empty());
        assert(group_totals(Seq::<Seq<u8>>::empty()) == seq![0int]);
        assert(totals_with_open(cur as int, Seq::<Seq<u8>>::empty()) =~= seq![cur as int]);
        vstd::arithmetic::mul::lemma_mul_upper_bound(n as int, umax, umax, umax);
        lemma_seq_sum_nonneg(closed_totals);
    }
    let ghost prev_totals = closed_totals;
    proof {
        closed_totals = closed_totals.push(cur as int);
        assert(closed_totals.drop_last() =~= prev_totals);
        assert(group_totals(all) =~= closed_totals);
        assert(seq_sum(closed_totals) == seq_sum(prev_totals) + cur);
    }
    let t = cur;
    if t > b1 {
        b3 = b2;
        b2 = b1;
        b1 = t;
    } else if t > b2 {
        b3 = b2;
        b2 = t;
    } else if t > b3 {
        b3 = t;
    }
    proof {
        assert((b1 as int, b2 as int, b3 as int) == top3_of(closed_totals));
        lemma_top3_sum_le(closed_totals);
        lemma_top3_sorted(closed_totals);
    }
    Ok(RationSummary {
        group_count: closed + 1,
        best1: b1,
        best2: b2,
        best3: b3,
        top3_sum: b1 + b2 + b3,
    })
}

} // verus!
