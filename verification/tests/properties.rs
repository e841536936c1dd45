use puzzle_engine::forest;
use puzzle_engine::fstree;
use puzzle_engine::ranges;
use puzzle_engine::rations;
use puzzle_engine::rucksack;
use puzzle_engine::signal;
use puzzle_engine::stacks;
use puzzle_engine::strategy;

// Re-running any solver on the same input yields identical results.
#[test]
fn solvers_are_deterministic() {
    let a = b"1000\n2000\n\n3000";
    assert_eq!(rations::summarize(a), rations::summarize(a));
    let b = b"A Y\nB X\nC Z\nbad";
    assert_eq!(strategy::score(b), strategy::score(b));
    let c = b"vJrwpWtwJgWrhcsFMMfFFhFp\nab\ncd";
    assert_eq!(rucksack::analyze(c), rucksack::analyze(c));
    let d = b"2-4,6-8\n2-8,3-7";
    assert_eq!(ranges::compare(d), ranges::compare(d));
    let e = b"[A] [B]\n 1   2 \n\nmove 1 from 1 to 2";
    assert_eq!(stacks::simulate(e), stacks::simulate(e));
    let f = b"mjqjpqmgbljsphdztnvjfqwrcgsmlb";
    assert_eq!(signal::scan(f), signal::scan(f));
    let g = b"$ ls\ndir a\n100 b\n$ cd a\n$ ls\n7 c";
    let r1 = fstree::size(g);
    let r2 = fstree::size(g);
    assert_eq!(r1, r2);
    let h = b"30373\n25512\n65332\n33549\n35390";
    assert_eq!(forest::analyze(h), forest::analyze(h));
}

// The three maxima come out sorted and match an independent full sort.
#[test]
fn rations_top3_matches_a_full_sort() {
    let input = b"8\n\n3\n\n10\n\n7\n\n10\n\n1";
    let r = rations::summarize(input).unwrap();
    assert!(r.best1 >= r.best2 && r.best2 >= r.best3);
    let mut totals = vec![8u128, 3, 10, 7, 10, 1];
    totals.sort();
    totals.reverse();
    assert_eq!((r.best1, r.best2, r.best3), (totals[0], totals[1], totals[2]));
    assert_eq!(r.top3_sum, totals[0] + totals[1] + totals[2]);
}

// Each mode's total stays within 9 points per round, and every round scores
// one of the nine valid sums.
#[test]
fn strategy_totals_stay_within_nine_per_round() {
    let input = b"A X\nA Y\nA Z\nB X\nB Y\nB Z\nC X\nC Y\nC Z";
    let r = strategy::score(input);
    assert!(r.literal_total <= 9 * r.rounds as u128);
    assert!(r.outcome_total <= 9 * r.rounds as u128);
    for line in [b"A X", b"B Z", b"C Y"] {
        let one = strategy::score(line);
        assert!(1 <= one.literal_total && one.literal_total <= 9);
        assert!(1 <= one.outcome_total && one.outcome_total <= 9);
    }
}

// Each line contributes at most one duplicate priority, and each well-formed
// triple exactly one badge priority.
#[test]
fn rucksack_contributions_are_bounded() {
    // Both lines hold several candidate duplicates; only the first duplicate
    // of each line counts, so the total stays within 52 per line.
    let input = b"aabbaabb\nccddccdd";
    let r = rucksack::analyze(input);
    assert!(r.dup_sum <= 52 * 2);
    assert_eq!(r.dup_sum, 1 + 3);
    let triple = b"abz\ncdz\nefz";
    let t = rucksack::analyze(triple);
    assert_eq!(t.bad_triples, 0);
    assert_eq!(t.badge_sum, 26);
}

// The total crate count is conserved: after piling everything onto one
// stack, exactly that many crates can leave it, and one more cannot.
#[test]
fn stacks_conserve_crates_under_both_semantics() {
    let diagram = b"[A] [B] [C]\n 1   2   3 \n\n";
    let mut ok = Vec::new();
    ok.extend_from_slice(diagram);
    ok.extend_from_slice(b"move 1 from 2 to 1\nmove 1 from 3 to 1\nmove 3 from 1 to 2");
    let r = stacks::simulate(&ok).unwrap();
    assert_eq!(r.steps_applied, 3);
    let mut too_many = Vec::new();
    too_many.extend_from_slice(diagram);
    too_many.extend_from_slice(b"move 1 from 2 to 1\nmove 1 from 3 to 1\nmove 4 from 1 to 2");
    let e = stacks::simulate(&too_many).unwrap_err();
    assert_eq!(e, stacks::StackError::TooFewCrates { step: 2 });
}

// Every tree on the boundary is visible, and a taller interior tree is too.
#[test]
fn forest_boundary_is_always_visible() {
    let r = forest::analyze(b"111\n191\n111").unwrap();
    assert_eq!(r.visible, 9);
    assert_eq!(r.max_scenic, 1);
    assert_eq!((r.best_x, r.best_y), (1, 1));
    // Shorter interior tree: only the boundary is visible.
    let r = forest::analyze(b"222\n212\n222").unwrap();
    assert_eq!(r.visible, 8);
}
