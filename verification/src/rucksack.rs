//! Rucksack analyzer: each line is one rucksack whose first half is
//! compartment one and whose second half is compartment two. Symbols `a`-`z`
//! map to priorities 1-26 and `A`-`Z` to 27-52; anything else is ignored.
//! Per line, the first second-half symbol already present in the first
//! compartment is the line's duplicate (at most one is reported). Lines are
//! then grouped into consecutive triples, and a triple sharing exactly one
//! symbol contributes that badge priority; any other triple is a
//! data-integrity error and is counted instead.

use vstd::prelude::*;

use crate::text::{puzzle_lines, split_lines};

verus! {

/// A byte that denotes an item symbol: an ASCII letter.
pub open spec fn is_item(b: u8) -> bool {
    (97 <= b <= 122) || (65 <= b <= 90)
}

/// Symbol index of an item byte: lowercase 0-25, uppercase 26-51. Its
/// priority is the index plus one.
pub open spec fn sym(b: u8) -> int {
    if 97 <= b <= 122 {
        b - 97
    } else {
        b - 65 + 26
    }
}

/// Whether symbol `s` occurs among the items of `l[lo..hi]`.
pub open spec fn has_sym_range(l: Seq<u8>, lo: int, hi: int, s: int) -> bool {
    exists|k: int| lo <= k < hi && k < l.len() && is_item(#[trigger] l[k]) && sym(l[k]) == s
}

/// Whether symbol `s` occurs anywhere on the line.
pub open spec fn has_sym(l: Seq<u8>, s: int) -> bool {
    has_sym_range(l, 0, l.len() as int, s)
}

/// Whether symbol `s` occurs in the first compartment (the first half).
pub open spec fn in_first_half(l: Seq<u8>, s: int) -> bool {
    has_sym_range(l, 0, l.len() as int / 2, s)
}

/// The duplicate priority found scanning the second compartment from index
/// `i` on: the first item already present in the first compartment. Zero
/// when there is none.
pub open spec fn dup_from(l: Seq<u8>, i: int) -> int
    decreases l.len() - i,
{
    if i < 0 || i >= l.len() {
        0
    } else if is_item(l[i]) && in_first_half(l, sym(l[i])) {
        sym(l[i]) + 1
    } else {
        dup_from(l, i + 1)
    }
}

/// The duplicate priority of a line: at most one duplicate is reported per
/// line, the first one encountered in the second compartment.
pub open spec fn dup_priority(l: Seq<u8>) -> int {
    dup_from(l, l.len() as int / 2)
}

/// Sum of the duplicate priorities of all lines.
pub open spec fn dup_sum(lines: Seq<Seq<u8>>) -> int
    decreases lines.len(),
{
    if lines.len() == 0 {
        0
    } else {
        dup_sum(lines.drop_last()) + dup_priority(lines.last())
    }
}

/// Whether symbol `s` occurs in all three rucksacks of a triple.
pub open spec fn tri_common(a: Seq<u8>, b: Seq<u8>, c: Seq<u8>, s: int) -> bool {
    has_sym(a, s) && has_sym(b, s) && has_sym(c, s)
}

/// How many of the symbols `s..52` are common to all three rucksacks.
pub open spec fn common_count_from(a: Seq<u8>, b: Seq<u8>, c: Seq<u8>, s: int) -> int
    decreases 52 - s,
{
    if s < 0 || s >= 52 {
        0
    } else {
        (if tri_common(a, b, c, s) {
            1int
        } else {
            0int
        }) + common_count_from(a, b, c, s + 1)
    }
}

/// The priority of the first symbol at or above `s` common to all three
/// rucksacks; zero when there is none.
pub open spec fn first_common_from(a: Seq<u8>, b: Seq<u8>, c: Seq<u8>, s: int) -> int
    decreases 52 - s,
{
    if s < 0 || s >= 52 {
        0
    } else if tri_common(a, b, c, s) {
        s + 1
    } else {
        first_common_from(a, b, c, s + 1)
    }
}

/// A well-formed triple has exactly one symbol common to all three rucksacks.
pub open spec fn triple_ok(a: Seq<u8>, b: Seq<u8>, c: Seq<u8>) -> bool {
    common_count_from(a, b, c, 0) == 1
}

/// The badge priority a triple contributes: its unique common symbol's
/// priority when well formed, and nothing otherwise.
pub open spec fn badge_priority(a: Seq<u8>, b: Seq<u8>, c: Seq<u8>) -> int {
    if triple_ok(a, b, c) {
        first_common_from(a, b, c, 0)
    } else {
        0
    }
}

/// Sum of the badge priorities of the first `t` triples.
pub open spec fn badge_sum_upto(lines: Seq<Seq<u8>>, t: int) -> int
    decreases t,
{
    if t <= 0 {
        0
    } else {
        badge_sum_upto(lines, t - 1) + badge_priority(
            lines[3 * (t - 1)],
            lines[3 * (t - 1) + 1],
            lines[3 * (t - 1) + 2],
        )
    }
}

/// Number of ill-formed triples among the first `t`.
pub open spec fn bad_triples_upto(lines: Seq<Seq<u8>>, t: int) -> int
    decreases t,
{
    if t <= 0 {
        0
    } else {
        bad_triples_upto(lines, t - 1) + (if triple_ok(
            lines[3 * (t - 1)],
            lines[3 * (t - 1) + 1],
            lines[3 * (t - 1) + 2],
        ) {
            0int
        } else {
            1int
        })
    }
}

/// Whether bit `s` of `m` is set.
pub open spec fn has_bit(m: u64, s: u64) -> bool {
    (m >> s) & 1 == 1
}

proof fn lemma_bit_or_set()
    by (bit_vector)
    ensures
        forall|m: u64, t: u64, s: u64|
            t < 64 && s < 64 ==> (#[trigger] has_bit(m | (1u64 << t), s) <==> (has_bit(m, s) || s
                == t)),
{
}

proof fn lemma_bit_and()
    by (bit_vector)
    ensures
        forall|x: u64, y: u64, s: u64|
            s < 64 ==> (#[trigger] has_bit(x & y, s) <==> (has_bit(x, s) && has_bit(y, s))),
        forall|x: u64, y: u64, s: u64|
            s < 64 ==> (#[trigger] has_bit(x | y, s) <==> (has_bit(x, s) || has_bit(y, s))),
        forall|s: u64| s < 64 ==> !#[trigger] has_bit(0u64, s),
{
}

/// Extending the scanned range by one position adds exactly that position's
/// symbol, if it is an item.
proof fn lemma_has_sym_step(l: Seq<u8>, lo: int, j: int)
    requires
        0 <= lo <= j < l.len(),
    ensures
        forall|s: int|
            #[trigger] has_sym_range(l, lo, j + 1, s) <==> (has_sym_range(l, lo, j, s) || (is_item(
                l[j],
            ) && sym(l[j]) == s)),
{
    assert forall|s: int|
        #[trigger] has_sym_range(l, lo, j + 1, s) <==> (has_sym_range(l, lo, j, s) || (is_item(l[j])
            && sym(l[j]) == s)) by {
        if has_sym_range(l, lo, j + 1, s) {
            let k = choose|k: int|
                lo <= k < j + 1 && k < l.len() && is_item(#[trigger] l[k]) && sym(l[k]) == s;
            if k < j {
                assert(has_sym_range(l, lo, j, s));
            }
        }
        if has_sym_range(l, lo, j, s) {
            assert(has_sym_range(l, lo, j + 1, s));
        }
        if is_item(l[j]) && sym(l[j]) == s {
            assert(lo <= j < j + 1 && j < l.len() && is_item(l[j]) && sym(l[j]) == s);
            assert(has_sym_range(l, lo, j + 1, s));
        }
    }
}

/// A whole line's symbols are those of its two compartments.
proof fn lemma_has_sym_split(l: Seq<u8>)
    ensures
        forall|s: int|
            #[trigger] has_sym(l, s) <==> (has_sym_range(l, 0, l.len() as int / 2, s)
                || has_sym_range(l, l.len() as int / 2, l.len() as int, s)),
{
    let half = l.len() as int / 2;
    assert forall|s: int|
        #[trigger] has_sym(l, s) <==> (has_sym_range(l, 0, half, s) || has_sym_range(
            l,
            half,
            l.len() as int,
            s,
        )) by {
        if has_sym(l, s) {
            let k = choose|k: int|
                0 <= k < l.len() && k < l.len() && is_item(#[trigger] l[k]) && sym(l[k]) == s;
            if k < half {
                assert(has_sym_range(l, 0, half, s));
            } else {
                assert(has_sym_range(l, half, l.len() as int, s));
            }
        }
    }
}

/// The result of analyzing one rucksack list.
#[derive(Clone, Copy, Debug, PartialEq, Eq, Structural)]
pub struct RucksackReport {
    /// Sum of the duplicate priorities over all lines.
    pub dup_sum: u128,
    /// Sum of the badge priorities over all well-formed triples.
    pub badge_sum: u128,
    /// Number of complete triples in the input.
    pub triples: usize,
    /// Number of triples with no unique common symbol (skipped).
    pub bad_triples: usize,
}

/// Everything the analyzer promises of its result.
pub open spec fn analyze_post(input: Seq<u8>, r: RucksackReport) -> bool {
    let lines = puzzle_lines(input);
    &&& r.dup_sum == dup_sum(lines)
    &&& r.badge_sum == badge_sum_upto(lines, lines.len() as int / 3)
    &&& r.triples == lines.len() as int / 3
    &&& r.bad_triples == bad_triples_upto(lines, lines.len() as int / 3)
}

/// Law (idempotence): the analyzer's contract pins its result down
/// completely, so re-running it on the same input yields an identical result.
pub proof fn lemma_analyze_deterministic(input: Seq<u8>, r1: RucksackReport, r2: RucksackReport)
    requires
        analyze_post(input, r1),
        analyze_post(input, r2),
    ensures
        r1 == r2,
{
}

/// Law: each line contributes at most one duplicate priority, a value between
/// 1 and 52 (or nothing at all).
pub proof fn lemma_dup_priority_range(l: Seq<u8>)
    ensures
        dup_priority(l) == 0 || (1 <= dup_priority(l) <= 52),
{
    lemma_dup_from_range(l, l.len() as int / 2);
}

proof fn lemma_dup_from_range(l: Seq<u8>, i: int)
    ensures
        dup_from(l, i) == 0 || (1 <= dup_from(l, i) <= 52),
    decreases l.len() - i,
{
    if 0 <= i < l.len() {
        lemma_dup_from_range(l, i + 1);
    }
}

/// Law: a well-formed triple contributes exactly one badge priority, a value
/// between 1 and 52; an ill-formed triple contributes none.
pub proof fn lemma_badge_priority_range(a: Seq<u8>, b: Seq<u8>, c: Seq<u8>)
    ensures
        triple_ok(a, b, c) ==> 1 <= badge_priority(a, b, c) <= 52,
        !triple_ok(a, b, c) ==> badge_priority(a, b, c) == 0,
{
    if triple_ok(a, b, c) {
        lemma_first_common_range(a, b, c, 0);
    }
}

proof fn lemma_first_common_range(a: Seq<u8>, b: Seq<u8>, c: Seq<u8>, s: int)
    requires
        common_count_from(a, b, c, s) >= 1,
    ensures
        1 <= first_common_from(a, b, c, s) <= 52,
    decreases 52 - s,
{
    if 0 <= s < 52 {
        if !tri_common(a, b, c, s) {
            lemma_first_common_range(a, b, c, s + 1);
        }
    }
}

/// The total duplicate priority never exceeds 52 per line.
pub proof fn lemma_dup_sum_bounded(lines: Seq<Seq<u8>>)
    ensures
        0 <= dup_sum(lines) <= 52 * lines.len(),
    decreases lines.len(),
{
    if lines.len() > 0 {
        lemma_dup_sum_bounded(lines.drop_last());
        lemma_dup_priority_range(lines.last());
    }
}

/// Law: the reported duplicate total never exceeds one priority (at most 52)
/// per line, and the badge total never exceeds one priority per triple.
pub proof fn lemma_report_bounded(input: Seq<u8>, r: RucksackReport)
    requires
        analyze_post(input, r),
    ensures
        0 <= r.dup_sum <= 52 * puzzle_lines(input).len(),
        0 <= r.badge_sum <= 52 * r.triples,
{
    let lines = puzzle_lines(input);
    lemma_dup_sum_bounded(lines);
    lemma_badge_sum_bounded(lines, lines.len() as int / 3);
}

proof fn lemma_badge_sum_bounded(lines: Seq<Seq<u8>>, t: int)
    requires
        0 <= t,
    ensures
        0 <= badge_sum_upto(lines, t) <= 52 * t,
    decreases t,
{
    if t > 0 {
        lemma_badge_sum_bounded(lines, t - 1);
        lemma_badge_priority_range(
            lines[3 * (t - 1)],
            lines[3 * (t - 1) + 1],
            lines[3 * (t - 1) + 2],
        );
    }
}

/// The compartment masks and duplicate priority of one line.
fn analyze_line(line: &[u8]) -> (r: (u64, u64))
    ensures
        forall|s: u64| s < 64 ==> (#[trigger] has_bit(r.0, s) <==> (s < 52 && has_sym(line@, s as int))),
        r.1 == dup_priority(line@),
{
    proof {
        lemma_bit_or_set();
        lemma_bit_and();
    }
    let n = line.len();
    let half = n / 2;
    let mut p1: u64 = 0;
    let mut j: usize = 0;
    while j < half
        invariant
            0 <= j <= half,
            half == n / 2,
            n == line@.len(),
            forall|s: u64|
                s < 64 ==> (#[trigger] has_bit(p1, s) <==> (s < 52 && has_sym_range(
                    line@,
                    0,
                    j as int,
                    s as int,
                ))),
        decreases half - j,
    {
        proof {
            lemma_bit_or_set();
            lemma_has_sym_step(line@, 0, j as int);
        }
        let b = line[j];
        if (97 <= b && b <= 122) || (65 <= b && b <= 90) {
            let t: u64 = if b >= 97 {
                (b - 97) as u64
            } else {
                (b - 65 + 26) as u64
            };
            p1 = p1 | (1u64 << t);
        }
        j = j + 1;
    }
    let mut p2: u64 = 0;
    let mut dup: u64 = 0;
    let mut found = false;
    let mut j: usize = half;
    while j < n
        invariant
            half <= j <= n,
            half == n / 2,
            n == line@.len(),
            forall|s: u64|
                s < 64 ==> (#[trigger] has_bit(p1, s) <==> (s < 52 && has_sym_range(
                    line@,
                    0,
                    half as int,
                    s as int,
                ))),
            forall|s: u64|
                s < 64 ==> (#[trigger] has_bit(p2, s) <==> (s < 52 && has_sym_range(
                    line@,
                    half as int,
                    j as int,
                    s as int,
                ))),
            !found ==> dup == 0 && dup_priority(line@) == dup_from(line@, j as int),
            found ==> dup == dup_priority(line@),
        decreases n - j,
    {
        proof {
            lemma_bit_or_set();
            lemma_has_sym_step(line@, half as int, j as int);
        }
        let b = line[j];
        if (97 <= b && b <= 122) || (65 <= b && b <= 90) {
            let t: u64 = if b >= 97 {
                (b - 97) as u64
            } else {
                (b - 65 + 26) as u64
            };
            if !found && (p1 >> t) & 1 == 1 {
                dup = t + 1;
                found = true;
                proof {
                    assert(has_bit(p1, t));
                    assert(in_first_half(line@, t as int));
                }
            } else {
                proof {
                    if !found {
                        assert(!has_bit(p1, t));
                        assert(!in_first_half(line@, t as int));
                    }
                }
            }
            p2 = p2 | (1u64 << t);
        }
        j = j + 1;
    }
    let content = p1 | p2;
    proof {
        lemma_bit_and();
        lemma_has_sym_split(line@);
    }
    (content, dup)
}

/// Analyze a rucksack list: the duplicate-priority total across all lines and
/// the badge-priority total across all well-formed consecutive triples.
pub fn analyze(input: &[u8]) -> (r: RucksackReport)
    ensures
        analyze_post(input@, r),
{
    let lines = split_lines(input);
    let ghost all = puzzle_lines(input@);
    let n = lines.len();
    let mut contents: Vec<u64> = Vec::new();
    let mut dups: u128 = 0;
    let mut i: usize = 0;
    while i < n
        invariant
            0 <= i <= n,
            all == puzzle_lines(input@),
            n == all.len(),
            lines.deep_view() == all,
            contents.len() == i,
            forall|k: int, s: u64|
                0 <= k < i && s < 64 ==> (#[trigger] has_bit(contents@[k], s) <==> (s < 52
                    && has_sym(all[k], s as int))),
            dups == dup_sum(all.take(i as int)),
            dups <= 52 * i,
        decreases n - i,
    {
        proof {
            assert(lines@[i as int]@ =~= lines.deep_view()[i as int]);
            assert(all.take(i as int + 1).drop_last() =~= all.take(i as int));
            assert(all.take(i as int + 1).last() == all[i as int]);
            lemma_dup_priority_range(all[i as int]);
        }
        let (content, dup) = analyze_line(lines[i].as_slice());
        contents.push(content);
        dups = dups + (dup as u128);
        i = i + 1;
    }
    proof {
        assert(all.take(n as int) =~= all);
    }
    let triples = n / 3;
    let mut badges: u128 = 0;
    let mut bad: usize = 0;
    let mut t: usize = 0;
    while t < triples
        invariant
            0 <= t <= triples,
            triples == n / 3,
            all == puzzle_lines(input@),
            n == all.len(),
            contents.len() == n,
            forall|k: int, s: u64|
                0 <= k < n && s < 64 ==> (#[trigger] has_bit(contents@[k], s) <==> (s < 52
                    && has_sym(all[k], s as int))),
            badges == badge_sum_upto(all, t as int),
            bad == bad_triples_upto(all, t as int),
            badges <= 52 * t,
            bad <= t,
        decreases triples - t,
    {
        proof {
            lemma_bit_and();
        }
        let a = contents[3 * t];
        let b = contents[3 * t + 1];
        let c = contents[3 * t + 2];
        let m = a & (b & c);
        let ghost la = all[3 * t as int];
        let ghost lb = all[3 * t as int + 1];
        let ghost lc = all[3 * t as int + 2];
        proof {
            assert(forall|s: u64|
                s < 64 ==> (#[trigger] has_bit(m, s) <==> (s < 52 && tri_common(
                    la,
                    lb,
                    lc,
                    s as int,
                ))));
        }
        let mut cnt: usize = 0;
        let mut first: u64 = 0;
        let mut s: u64 = 0;
        while s < 52
            invariant
                0 <= s <= 52,
                forall|q: u64|
                    q < 64 ==> (#[trigger] has_bit(m, q) <==> (q < 52 && tri_common(
                        la,
                        lb,
                        lc,
                        q as int,
                    ))),
                cnt + common_count_from(la, lb, lc, s as int) == common_count_from(la, lb, lc, 0),
                cnt <= s,
                first == 0 ==> first_common_from(la, lb, lc, 0) == first_common_from(
                    la,
                    lb,
                    lc,
                    s as int,
                ),
                first != 0 ==> first == first_common_from(la, lb, lc, 0),
            decreases 52 - s,
        {
            if (m >> s) & 1 == 1 {
                proof {
                    assert(has_bit(m, s));
                }
                cnt = cnt + 1;
                if first == 0 {
                    first = s + 1;
                }
            } else {
                proof {
                    assert(!has_bit(m, s));
                }
            }
            s = s + 1;
        }
        if cnt == 1 {
            proof {
                assert(triple_ok(la, lb, lc));
                lemma_badge_priority_range(la, lb, lc);
            }
            badges = badges + (first as u128);
        } else {
            proof {
                assert(!triple_ok(la, lb, lc));
            }
            bad = bad + 1;
        }
        t = t + 1;
    }
    RucksackReport { dup_sum: dups, badge_sum: badges, triples, bad_triples: bad }
}

} // verus!
