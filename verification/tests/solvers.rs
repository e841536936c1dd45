use puzzle_engine::forest;
use puzzle_engine::fstree;
use puzzle_engine::pixel;
use puzzle_engine::ranges;
use puzzle_engine::rations;
use puzzle_engine::rucksack;
use puzzle_engine::signal;
use puzzle_engine::stacks;
use puzzle_engine::strategy;

#[test]
fn rations_classic_sample() {
    let input = b"1000\n2000\n3000\n\n4000\n\n5000\n6000\n\n7000\n8000\n9000\n\n10000";
    let r = rations::summarize(input).unwrap();
    assert_eq!(r.group_count, 5);
    assert_eq!(r.best1, 24000);
    assert_eq!(r.best2, 11000);
    assert_eq!(r.best3, 10000);
    assert_eq!(r.top3_sum, 45000);
}

#[test]
fn rations_trailing_newline_keeps_group_count() {
    let r = rations::summarize(b"1\n2\n\n3\n").unwrap();
    assert_eq!(r.group_count, 2);
    assert_eq!(r.best1, 3);
    assert_eq!(r.best2, 3);
    assert_eq!(r.best3, 0);
}

#[test]
fn rations_empty_input_is_one_empty_group() {
    let r = rations::summarize(b"").unwrap();
    assert_eq!(r.group_count, 1);
    assert_eq!(r.best1, 0);
    assert_eq!(r.top3_sum, 0);
}

#[test]
fn rations_ties_keep_sorted_maxima() {
    let r = rations::summarize(b"5\n\n5\n\n5\n\n2").unwrap();
    assert_eq!((r.best1, r.best2, r.best3), (5, 5, 5));
    assert_eq!(r.top3_sum, 15);
}

#[test]
fn rations_bad_line_is_fatal_and_named() {
    let e = rations::summarize(b"100\n\n12x4\n7").unwrap_err();
    assert_eq!(e.line, 2);
}

#[test]
fn strategy_classic_sample() {
    let r = strategy::score(b"A Y\nB X\nC Z");
    assert_eq!(r.literal_total, 15);
    assert_eq!(r.outcome_total, 12);
    assert_eq!(r.rounds, 3);
    assert_eq!(r.skipped, 0);
}

#[test]
fn strategy_bad_lines_are_skipped_and_counted() {
    let r = strategy::score(b"A Y\nQ Z\nB W\n\nB X");
    assert_eq!(r.rounds, 2);
    assert_eq!(r.skipped, 2);
    assert_eq!(r.literal_total, 8 + 1);
}

#[test]
fn strategy_every_round_mode_pair() {
    // Draws in literal mode: X vs A, Y vs B, Z vs C.
    let r = strategy::score(b"A X\nB Y\nC Z");
    assert_eq!(r.literal_total, (1 + 3) + (2 + 3) + (3 + 3));
    // Outcome mode: lose to A (scissors), draw B (paper), win C (rock).
    assert_eq!(r.outcome_total, (3 + 0) + (2 + 3) + (1 + 6));
}

#[test]
fn rucksack_single_line_duplicate() {
    let r = rucksack::analyze(b"vJrwpWtwJgWrhcsFMMfFFhFp");
    assert_eq!(r.dup_sum, 16);
    assert_eq!(r.triples, 0);
    assert_eq!(r.badge_sum, 0);
}

#[test]
fn rucksack_sample_triple_badge() {
    let input = b"vJrwpWtwJgWrhcsFMMfFFhFp\njqHRNqRjqzjGDLGLrsFMfFZSrLrFZsSL\nPmmdzqPrVvPwwTWBwg";
    let r = rucksack::analyze(input);
    assert_eq!(r.triples, 1);
    assert_eq!(r.badge_sum, 18);
    assert_eq!(r.bad_triples, 0);
}

#[test]
fn rucksack_classic_sample_totals() {
    let input = b"vJrwpWtwJgWrhcsFMMfFFhFp\n\
jqHRNqRjqzjGDLGLrsFMfFZSrLrFZsSL\n\
PmmdzqPrVvPwwTWBwg\n\
wMqvLMZHhHMvwLHjbvcjnnSBnvTQFn\n\
ttgJtRGJQctTZtZT\n\
CrZsJsPPZsGzwwsLwLmpwMDw";
    let r = rucksack::analyze(input);
    assert_eq!(r.dup_sum, 157);
    assert_eq!(r.badge_sum, 70);
    assert_eq!(r.triples, 2);
    assert_eq!(r.bad_triples, 0);
}

#[test]
fn rucksack_triple_without_common_symbol_is_counted() {
    let r = rucksack::analyze(b"ab\ncd\nef");
    assert_eq!(r.badge_sum, 0);
    assert_eq!(r.bad_triples, 1);
}

#[test]
fn ranges_classic_sample() {
    let input = b"2-4,6-8\n2-3,4-5\n5-7,7-9\n2-8,3-7\n6-6,4-6\n2-6,4-8";
    let r = ranges::compare(input);
    assert_eq!(r.contained, 2);
    assert_eq!(r.overlapping, 4);
    assert_eq!(r.pairs, 6);
    assert_eq!(r.skipped, 0);
}

#[test]
fn ranges_malformed_lines_are_skipped() {
    let r = ranges::compare(b"1-2,3-4\nnope\n5,6\n7-8,9-x\n\n1-10,2-3");
    assert_eq!(r.pairs, 2);
    assert_eq!(r.skipped, 3);
    assert_eq!(r.contained, 1);
    assert_eq!(r.overlapping, 1);
}

#[test]
fn stacks_classic_sample() {
    let input = b"    [D]    \n\
[N] [C]    \n\
[Z] [M] [P]\n 1   2   3 \n\n\
move 1 from 2 to 1\n\
move 3 from 1 to 3\n\
move 2 from 2 to 1\n\
move 1 from 1 to 2";
    let r = stacks::simulate(input).unwrap();
    assert_eq!(r.single_tops, b"CMZ".to_vec());
    assert_eq!(r.multi_tops, b"MCD".to_vec());
    assert_eq!(r.steps_applied, 4);
    assert_eq!(r.skipped_lines, 0);
}

#[test]
fn stacks_overdraw_is_fatal() {
    let input = b"[A] [B]    \n 1   2 \n\nmove 2 from 1 to 2";
    let e = stacks::simulate(input).unwrap_err();
    assert_eq!(e, stacks::StackError::TooFewCrates { step: 0 });
}

#[test]
fn stacks_out_of_range_stack_is_fatal() {
    let input = b"[A]    \n 1 \n\nmove 1 from 1 to 3\nmove 1 from 1 to 10";
    // Stack 3 exists on the nine-stack ship; stack 10 does not.
    let e = stacks::simulate(input).unwrap_err();
    assert_eq!(e, stacks::StackError::StackOutOfRange { step: 1 });
}

#[test]
fn stacks_move_to_same_stack_conserves_crates() {
    let input = b"[A]    \n[B] [C]\n 1   2 \n\nmove 2 from 1 to 1";
    let r = stacks::simulate(input).unwrap();
    // Single-crate semantics reverses the moved crates in place.
    assert_eq!(r.single_tops, b"BC".to_vec());
    // Multi-crate semantics puts them back unchanged.
    assert_eq!(r.multi_tops, b"AC".to_vec());
}

#[test]
fn stacks_unparseable_instruction_is_skipped() {
    let input = b"[A] [B]\n 1   2 \n\nshove 1 from 1 to 2\nmove 1 from 1 to 2";
    let r = stacks::simulate(input).unwrap();
    assert_eq!(r.skipped_lines, 1);
    assert_eq!(r.steps_applied, 1);
    assert_eq!(r.single_tops, b"A".to_vec());
}

#[test]
fn signal_classic_sample() {
    let r = signal::scan(b"mjqjpqmgbljsphdztnvjfqwrcgsmlb").unwrap();
    assert_eq!(r.packet_end, 7);
    assert_eq!(r.message_end, 19);
}

#[test]
fn signal_more_samples() {
    let r = signal::scan(b"bvwbjplbgvbhsrlpgdmjqwftvncz").unwrap();
    assert_eq!(r.packet_end, 5);
    assert_eq!(r.message_end, 23);
    let r = signal::scan(b"zcfzfwzzqfrljwzlrfnpqdbhtmscgvjw").unwrap();
    assert_eq!(r.packet_end, 11);
    assert_eq!(r.message_end, 26);
}

#[test]
fn signal_missing_packet_marker_is_fatal() {
    assert_eq!(signal::scan(b"aaaaaaaaaa").unwrap_err(), signal::SignalError::NoPacketMarker);
    assert_eq!(signal::scan(b"abc").unwrap_err(), signal::SignalError::NoPacketMarker);
}

#[test]
fn signal_missing_message_marker_is_fatal() {
    assert_eq!(
        signal::scan(b"abcdabcdabcdabcd").unwrap_err(),
        signal::SignalError::NoMessageMarker
    );
}

#[test]
fn fstree_classic_sample() {
    let input = b"$ cd /\n\
$ ls\n\
dir a\n\
14848514 b.txt\n\
8504156 c.dat\n\
dir d\n\
$ cd a\n\
$ ls\n\
dir e\n\
29116 f\n\
2557 g\n\
62596 h.lst\n\
$ cd e\n\
$ ls\n\
584 i\n\
$ cd ..\n\
$ cd ..\n\
$ cd d\n\
$ ls\n\
4060174 j\n\
8033020 d.log\n\
5626152 d.ext\n\
7214296 k";
    let r = fstree::size(input);
    assert_eq!(r.small_dir_total, 95437);
    assert_eq!(r.root_size, 48381165);
    assert_eq!(r.delete_size, 24933642);
    assert_eq!(r.delete_name, b"d".to_vec());
    assert_eq!(r.skipped, 0);
    // The thirteen declared entries plus the root.
    assert_eq!(r.node_count, 14);
}

#[test]
fn fstree_unknown_cd_target_is_skipped() {
    let r = fstree::size(b"$ cd /\n$ cd nowhere\n$ ls\n100 f");
    assert_eq!(r.skipped, 1);
    assert_eq!(r.root_size, 100);
}

#[test]
fn fstree_kind_collision_is_skipped() {
    let r = fstree::size(b"$ ls\ndir x\n100 x\n5 y");
    assert_eq!(r.skipped, 1);
    assert_eq!(r.root_size, 5);
}

#[test]
fn fstree_listing_line_outside_ls_is_skipped() {
    let r = fstree::size(b"100 f\n$ ls\n100 f");
    assert_eq!(r.skipped, 1);
    assert_eq!(r.root_size, 100);
}

#[test]
fn forest_classic_sample() {
    let r = forest::analyze(b"30373\n25512\n65332\n33549\n35390").unwrap();
    assert_eq!(r.width, 5);
    assert_eq!(r.height, 5);
    assert_eq!(r.visible, 21);
    assert_eq!(r.max_scenic, 8);
    assert_eq!((r.best_x, r.best_y), (2, 3));
}

#[test]
fn forest_single_row_has_zero_scenic_score() {
    let r = forest::analyze(b"12321").unwrap();
    assert_eq!(r.max_scenic, 0);
    assert_eq!(r.visible, 5);
}

#[test]
fn forest_ragged_grid_is_fatal() {
    assert_eq!(forest::analyze(b"123\n12").unwrap_err(), forest::ForestError::RaggedGrid);
}

#[test]
fn forest_non_digit_height_is_fatal() {
    assert_eq!(forest::analyze(b"123\n1x3").unwrap_err(), forest::ForestError::InvalidHeight);
}

#[test]
fn forest_empty_input_is_an_empty_grid() {
    let r = forest::analyze(b"").unwrap();
    assert_eq!(r.width, 0);
    assert_eq!(r.height, 0);
    assert_eq!(r.visible, 0);
    assert_eq!(r.max_scenic, 0);
}

#[test]
fn fill_writes_one_opaque_pixel() {
    let mut buf = vec![1u8; 12];
    pixel::fill(&mut buf, 4, [10, 20, 30]);
    assert_eq!(buf, vec![1, 1, 1, 1, 10, 20, 30, 255, 1, 1, 1, 1]);
}

#[test]
fn recolor_maps_keys_and_copies_the_rest() {
    let p1 = pixel::ColorPair { light: [1, 2, 3], dark: [4, 5, 6] };
    let p2 = pixel::ColorPair { light: [7, 8, 9], dark: [10, 11, 12] };
    let p3 = pixel::ColorPair { light: [13, 14, 15], dark: [16, 17, 18] };
    let buf = vec![
        255, 0, 0, 255, // key 1 light
        255, 255, 0, 255, // key 1 dark
        0, 255, 255, 255, // key 2 light
        0, 255, 0, 255, // key 2 dark
        255, 255, 255, 255, // key 3 light
        255, 0, 255, 255, // key 3 dark
        9, 9, 9, 9, // not a key: copied
    ];
    let out = pixel::recolor(&buf, p1, p2, p3);
    assert_eq!(
        out,
        vec![
            1, 2, 3, 255, 4, 5, 6, 255, 7, 8, 9, 255, 10, 11, 12, 255, 13, 14, 15, 255, 16, 17,
            18, 255, 9, 9, 9, 9,
        ]
    );
}

#[test]
fn lines_with_carriage_returns_read_the_same() {
    let unix = strategy::score(b"A Y\nB X\nC Z");
    let windows = strategy::score(b"A Y\r\nB X\r\nC Z\r\n");
    assert_eq!(unix, windows);
}

#[test]
fn rations_accept_leading_zeros() {
    let r = rations::summarize(b"007\n\n0003").unwrap();
    assert_eq!(r.best1, 7);
    assert_eq!(r.best2, 3);
}

#[test]
fn rations_reject_numbers_too_large_for_a_machine_word() {
    // One digit beyond u64::MAX.
    let e = rations::summarize(b"99999999999999999999999").unwrap_err();
    assert_eq!(e.line, 0);
}

#[test]
fn fstree_cd_above_root_stays_at_root() {
    let r = fstree::size(b"$ cd ..\n$ ls\n5 f");
    assert_eq!(r.skipped, 0);
    assert_eq!(r.root_size, 5);
}

#[test]
fn fstree_cd_into_a_file_is_skipped() {
    let r = fstree::size(b"$ ls\n5 f\n$ cd f\n$ ls\n7 g");
    assert_eq!(r.skipped, 1);
    // The listing still lands in the root, where the cursor stayed.
    assert_eq!(r.root_size, 12);
}
