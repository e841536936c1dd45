//! Range overlap counter: each line holds two closed integer intervals in the
//! form `a-b,c-d`. The solver counts the pairs where one range fully contains
//! the other and the pairs that share at least one integer. Malformed lines
//! are skipped and counted.

use vstd::prelude::*;

use crate::text::{digits_value, is_u64_number, parse_u64, puzzle_lines, split_bytes, split_lines,
    split_seq};

verus! {

/// The comma separating the two ranges.
pub const COMMA: u8 = 44;

/// The dash separating a range's bounds.
pub const DASH: u8 = 45;

/// A valid pair line: two comma-separated ranges, each two dash-separated
/// `u64` numbers.
pub open spec fn range_line_ok(l: Seq<u8>) -> bool {
    let parts = split_seq(l, COMMA);
    &&& parts.len() == 2
    &&& {
        let r0 = split_seq(parts[0], DASH);
        let r1 = split_seq(parts[1], DASH);
        &&& r0.len() == 2
        &&& r1.len() == 2
        &&& is_u64_number(r0[0])
        &&& is_u64_number(r0[1])
        &&& is_u64_number(r1[0])
        &&& is_u64_number(r1[1])
    }
}

/// The four bounds of a valid pair line: `(a, b, c, d)` for `a-b,c-d`.
pub open spec fn pair_bounds(l: Seq<u8>) -> (int, int, int, int) {
    let parts = split_seq(l, COMMA);
    let r0 = split_seq(parts[0], DASH);
    let r1 = split_seq(parts[1], DASH);
    (digits_value(r0[0]), digits_value(r0[1]), digits_value(r1[0]), digits_value(r1[1]))
}

/// One of the two ranges fully contains the other.
pub open spec fn fully_contained(a: int, b: int, c: int, d: int) -> bool {
    (a <= c && d <= b) || (c <= a && b <= d)
}

/// The two ranges share at least one integer.
pub open spec fn overlaps(a: int, b: int, c: int, d: int) -> bool {
    c <= b && a <= d
}

/// Number of valid pairs where one range fully contains the other.
pub open spec fn contained_count(lines: Seq<Seq<u8>>) -> int
    decreases lines.len(),
{
    if lines.len() == 0 {
        0
    } else {
        contained_count(lines.drop_last()) + if range_line_ok(lines.last()) && {
            let (a, b, c, d) = pair_bounds(lines.last());
            fully_contained(a, b, c, d)
        } {
            1int
        } else {
            0int
        }
    }
}

/// Number of valid pairs whose ranges share at least one integer.
pub open spec fn overlap_count(lines: Seq<Seq<u8>>) -> int
    decreases lines.len(),
{
    if lines.len() == 0 {
        0
    } else {
        overlap_count(lines.drop_last()) + if range_line_ok(lines.last()) && {
            let (a, b, c, d) = pair_bounds(lines.last());
            overlaps(a, b, c, d)
        } {
            1int
        } else {
            0int
        }
    }
}

/// Number of valid pair lines.
pub open spec fn pair_count(lines: Seq<Seq<u8>>) -> int
    decreases lines.len(),
{
    if lines.len() == 0 {
        0
    } else {
        pair_count(lines.drop_last()) + if range_line_ok(lines.last()) {
            1int
        } else {
            0int
        }
    }
}

/// Number of non-blank lines that were rejected and skipped.
pub open spec fn bad_line_count(lines: Seq<Seq<u8>>) -> int
    decreases lines.len(),
{
    if lines.len() == 0 {
        0
    } else {
        bad_line_count(lines.drop_last()) + if !range_line_ok(lines.last()) && lines.last().len()
            > 0 {
            1int
        } else {
            0int
        }
    }
}

/// The result of comparing all range pairs.
#[derive(Clone, Copy, Debug, PartialEq, Eq, Structural)]
pub struct RangeReport {
    /// Pairs where one range fully contains the other (either direction).
    pub contained: usize,
    /// Pairs whose ranges share at least one integer.
    pub overlapping: usize,
    /// Valid pairs examined.
    pub pairs: usize,
    /// Non-blank lines that were not valid pairs (skipped).
    pub skipped: usize,
}

/// Everything the range counter promises of its result.
pub open spec fn compare_post(input: Seq<u8>, r: RangeReport) -> bool {
    let lines = puzzle_lines(input);
    &&& r.contained == contained_count(lines)
    &&& r.overlapping == overlap_count(lines)
    &&& r.pairs == pair_count(lines)
    &&& r.skipped == bad_line_count(lines)
}

/// Law (idempotence): the counter's contract pins its result down completely,
/// so re-running it on the same input yields an identical result.
pub proof fn lemma_compare_deterministic(input: Seq<u8>, r1: RangeReport, r2: RangeReport)
    requires
        compare_post(input, r1),
        compare_post(input, r2),
    ensures
        r1 == r2,
{
}

/// Parse one `a-b` fragment.
fn parse_range(frag: &[u8]) -> (r: Option<(u64, u64)>)
    ensures
        r is Some <==> {
            let bounds = split_seq(frag@, DASH);
            bounds.len() == 2 && is_u64_number(bounds[0]) && is_u64_number(bounds[1])
        },
        r matches Some(v) ==> {
            let bounds = split_seq(frag@, DASH);
            v.0 == digits_value(bounds[0]) && v.1 == digits_value(bounds[1])
        },
{
    let bounds = split_bytes(frag, DASH);
    if bounds.len() != 2 {
        return None;
    }
    proof {
        assert(bounds@[0]@ =~= bounds.deep_view()[0]);
        assert(bounds@[1]@ =~= bounds.deep_view()[1]);
    }
    let lo = match parse_u64(bounds[0].as_slice()) {
        Some(v) => v,
        None => {
            return None;
        },
    };
    let hi = match parse_u64(bounds[1].as_slice()) {
        Some(v) => v,
        None => {
            return None;
        },
    };
    Some((lo, hi))
}

/// Compare all range pairs: how many pairs have one range fully inside the
/// other, and how many have any overlap at all.
pub fn compare(input: &[u8]) -> (r: RangeReport)
    ensures
        compare_post(input@, r),
{
    let lines = split_lines(input);
    let ghost all = puzzle_lines(input@);
    let n = lines.len();
    let mut contained: usize = 0;
    let mut overlapping: usize = 0;
    let mut pairs: usize = 0;
    let mut skipped: usize = 0;
    let mut i: usize = 0;
    while i < n
        invariant
            0 <= i <= n,
            all == puzzle_lines(input@),
            n == all.len(),
            lines.deep_view() == all,
            contained == contained_count(all.take(i as int)),
            overlapping == overlap_count(all.take(i as int)),
            pairs == pair_count(all.take(i as int)),
            skipped == bad_line_count(all.take(i as int)),
            contained <= i,
            overlapping <= i,
            pairs <= i,
            skipped <= i,
        decreases n - i,
    {
        proof {
            assert(lines@[i as int]@ =~= lines.deep_view()[i as int]);
            assert(all.take(i as int + 1).drop_last() =~= all.take(i as int));
            assert(all.take(i as int + 1).last() == all[i as int]);
        }
        let line = &lines[i];
        let parts = split_bytes(line.as_slice(), COMMA);
        let mut ok = false;
        if parts.len() == 2 {
            proof {
                assert(parts@[0]@ =~= parts.deep_view()[0]);
                assert(parts@[1]@ =~= parts.deep_view()[1]);
            }
            if let Some((a, b)) = parse_range(parts[0].as_slice()) {
                if let Some((c, d)) = parse_range(parts[1].as_slice()) {
                    ok = true;
                    pairs = pairs + 1;
                    if (a <= c && d <= b) || (c <= a && b <= d) {
                        contained = contained + 1;
                    }
                    if c <= b && a <= d {
                        overlapping = overlapping + 1;
                    }
                    proof {
                        assert(range_line_ok(all[i as int]));
                        assert(pair_bounds(all[i as int]) == (a as int, b as int, c as int, d as int));
                    }
                }
            }
        }
        if !ok {
            proof {
                assert(!range_line_ok(all[i as int]));
            }
            if line.len() > 0 {
                skipped = skipped + 1;
            }
        }
        i = i + 1;
    }
    proof {
        assert(all.take(n as int) =~= all);
    }
    RangeReport { contained, overlapping, pairs, skipped }
}

} // verus!
