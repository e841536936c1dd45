//! Shared text handling: every solver sees its input as an immutable sequence
//! of lines (trailing whitespace trimmed per line), and several solvers parse
//! unsigned decimal numbers from line fragments.

use vstd::prelude::*;

verus! {

/// The line-break byte.
pub const NEWLINE: u8 = 10;

/// Whitespace that is trimmed from the end of every line: space, tab and
/// carriage return (so that inputs with Windows line endings read the same).
pub open spec fn is_trailing_space(b: u8) -> bool {
    b == 32 || b == 9 || b == 13
}

/// The segments of `s` lying between occurrences of the separator byte `sep`.
/// There is always at least one segment; a separator at the very end yields a
/// trailing empty segment.
pub open spec fn split_seq(s: Seq<u8>, sep: u8) -> Seq<Seq<u8>>
    decreases s.len(),
{
    if s.len() == 0 {
        seq![Seq::<u8>::empty()]
    } else if s[0] == sep {
        seq![Seq::<u8>::empty()] + split_seq(s.skip(1), sep)
    } else {
        let rest = split_seq(s.skip(1), sep);
        seq![seq![s[0]] + rest[0]] + rest.skip(1)
    }
}

/// `l` with all trailing whitespace removed.
pub open spec fn trim_end(l: Seq<u8>) -> Seq<u8>
    decreases l.len(),
{
    if l.len() > 0 && is_trailing_space(l[l.len() - 1]) {
        trim_end(l.drop_last())
    } else {
        l
    }
}

/// The raw lines of a puzzle input: the newline-separated segments, except
/// that an empty input has no lines and a final newline terminates the last
/// line rather than opening an empty one.
pub open spec fn raw_lines(s: Seq<u8>) -> Seq<Seq<u8>> {
    let segs = split_seq(s, NEWLINE);
    if s.len() == 0 {
        Seq::empty()
    } else if s.last() == NEWLINE {
        segs.drop_last()
    } else {
        segs
    }
}

/// The lines of a puzzle input: the raw lines, each with trailing whitespace
/// trimmed.
pub open spec fn puzzle_lines(s: Seq<u8>) -> Seq<Seq<u8>> {
    raw_lines(s).map_values(|l: Seq<u8>| trim_end(l))
}

/// A nonempty input that ends in a newline splits into one segment more than
/// it has lines, and that extra segment is empty.
proof fn lemma_split_seq_trailing_newline(s: Seq<u8>)
    requires
        s.len() > 0,
        s.last() == NEWLINE,
    ensures
        split_seq(s, NEWLINE).len() >= 2,
        split_seq(s, NEWLINE).last() =~= Seq::<u8>::empty(),
    decreases s.len(),
{
    if s.len() == 1 {
        assert(s[0] == NEWLINE);
        assert(s.skip(1) =~= Seq::<u8>::empty());
        assert(split_seq(s.skip(1), NEWLINE) == seq![Seq::<u8>::empty()]);
        assert(split_seq(s, NEWLINE) == seq![Seq::<u8>::empty()] + seq![Seq::<u8>::empty()]);
        assert(split_seq(s, NEWLINE).len() == 2);
        assert(split_seq(s, NEWLINE).last() =~= Seq::<u8>::empty());
    } else {
        let rest = s.skip(1);
        assert(rest.last() == s.last());
        lemma_split_seq_trailing_newline(rest);
        let r = split_seq(rest, NEWLINE);
        if s[0] == NEWLINE {
            assert(split_seq(s, NEWLINE) == seq![Seq::<u8>::empty()] + r);
            assert((seq![Seq::<u8>::empty()] + r).last() == r.last());
            assert((seq![Seq::<u8>::empty()] + r).len() == 1 + r.len());
        } else {
            assert(split_seq(s, NEWLINE) == seq![seq![s[0]] + r[0]] + r.skip(1));
            assert(r.skip(1).len() == r.len() - 1 >= 1);
            assert(r.skip(1).last() == r.last());
            assert((seq![seq![s[0]] + r[0]] + r.skip(1)).last() == r.skip(1).last());
        }
    }
}

/// A split always produces at least one segment.
pub proof fn lemma_split_seq_len(s: Seq<u8>, sep: u8)
    ensures
        split_seq(s, sep).len() >= 1,
    decreases s.len(),
{
    if s.len() == 0 {
    } else if s[0] == sep {
    } else {
        lemma_split_seq_len(s.skip(1), sep);
    }
}

/// The partially assembled split of `pre + s`, where `pre` is the prefix of
/// the current segment read so far.
spec fn split_with_prefix(pre: Seq<u8>, s: Seq<u8>, sep: u8) -> Seq<Seq<u8>> {
    let rest = split_seq(s, sep);
    seq![pre + rest[0]] + rest.skip(1)
}

proof fn lemma_split_with_prefix_empty(s: Seq<u8>, sep: u8)
    ensures
        split_with_prefix(Seq::<u8>::empty(), s, sep) == split_seq(s, sep),
{
    lemma_split_seq_len(s, sep);
    let rest = split_seq(s, sep);
    assert(Seq::<u8>::empty() + rest[0] =~= rest[0]);
    assert(seq![rest[0]] + rest.skip(1) =~= rest);
}

proof fn lemma_split_with_prefix_step(pre: Seq<u8>, s: Seq<u8>, sep: u8)
    requires
        s.len() > 0,
    ensures
        s[0] == sep ==> split_with_prefix(pre, s, sep)
            == seq![pre] + split_seq(s.skip(1), sep),
        s[0] != sep ==> split_with_prefix(pre, s, sep)
            == split_with_prefix(pre.push(s[0]), s.skip(1), sep),
{
    let rest = split_seq(s.skip(1), sep);
    lemma_split_seq_len(s.skip(1), sep);
    if s[0] == sep {
        assert(split_seq(s, sep) == seq![Seq::<u8>::empty()] + rest);
        assert(pre + (seq![Seq::<u8>::empty()] + rest)[0] =~= pre);
        assert((seq![Seq::<u8>::empty()] + rest).skip(1) =~= rest);
    } else {
        let full = split_seq(s, sep);
        assert(full == seq![seq![s[0]] + rest[0]] + rest.skip(1));
        assert(full[0] =~= seq![s[0]] + rest[0]);
        assert(pre + full[0] =~= pre.push(s[0]) + rest[0]);
        assert(full.skip(1) =~= rest.skip(1));
    }
}

/// Split `input` at every occurrence of `sep`.
pub fn split_bytes(input: &[u8], sep: u8) -> (segs: Vec<Vec<u8>>)
    ensures
        segs.deep_view() == split_seq(input@, sep),
        segs.len() >= 1,
{
    let n = input.len();
    let mut segs: Vec<Vec<u8>> = Vec::new();
    let mut cur: Vec<u8> = Vec::new();
    let mut i: usize = 0;
    proof {
        assert(input@.skip(0) =~= input@);
    }
    while i < n
        invariant
            0 <= i <= n,
            n == input@.len(),
            split_seq(input@, sep) == segs.deep_view() + split_with_prefix(cur@, input@.skip(i as int), sep),
        decreases n - i,
    {
        let b = input[i];
        proof {
            assert(input@.skip(i as int)[0] == input@[i as int]);
            lemma_split_with_prefix_step(cur@, input@.skip(i as int), sep);
            assert(input@.skip(i as int).skip(1) =~= input@.skip(i as int + 1));
        }
        if b == sep {
            let done = cur;
            cur = Vec::new();
            let ghost prev = segs.deep_view();
            segs.push(done);
            proof {
                lemma_split_with_prefix_empty(input@.skip(i as int + 1), sep);
                assert(segs.deep_view() =~~= prev.push(done@));
                assert(prev.push(done@) + split_seq(input@.skip(i as int + 1), sep)
                    =~~= prev + (seq![done@] + split_seq(input@.skip(i as int + 1), sep)));
            }
        } else {
            cur.push(b);
        }
        i = i + 1;
    }
    proof {
        assert(input@.skip(n as int) =~= Seq::<u8>::empty());
        assert(split_with_prefix(cur@, Seq::<u8>::empty(), sep) =~= seq![cur@ + Seq::<u8>::empty()]);
        assert(cur@ + Seq::<u8>::empty() =~= cur@);
    }
    let ghost prev = segs.deep_view();
    let ghost last = cur@;
    segs.push(cur);
    proof {
        assert(segs.deep_view() =~~= prev.push(last));
        assert(prev.push(last) =~~= prev + seq![last]);
        assert(segs.deep_view() =~~= split_seq(input@, sep));
    }
    segs
}

/// Remove trailing whitespace from one line.
pub fn trim_line(line: Vec<u8>) -> (r: Vec<u8>)
    ensures
        r@ == trim_end(line@),
{
    let mut l = line;
    while l.len() > 0 && (l[l.len() - 1] == 32 || l[l.len() - 1] == 9 || l[l.len() - 1] == 13)
        invariant
            trim_end(l@) == trim_end(line@),
        decreases l.len(),
    {
        let ghost before = l@;
        l.pop();
        proof {
            assert(l@ =~= before.drop_last());
            assert(trim_end(before) == trim_end(before.drop_last()));
        }
    }
    l
}

/// Split a puzzle input into its lines, trimming trailing whitespace.
pub fn split_lines(input: &[u8]) -> (lines: Vec<Vec<u8>>)
    ensures
        lines.deep_view() == puzzle_lines(input@),
{
    if input.len() == 0 {
        let lines: Vec<Vec<u8>> = Vec::new();
        proof {
            assert(lines.deep_view() =~~= puzzle_lines(input@));
        }
        return lines;
    }
    let mut raw = split_bytes(input, NEWLINE);
    if input[input.len() - 1] == NEWLINE {
        proof {
            lemma_split_seq_trailing_newline(input@);
            assert(raw@.len() >= 2);
        }
        let ghost whole = raw.deep_view();
        raw.pop();
        proof {
            assert(raw.deep_view() =~~= whole.drop_last());
        }
    }
    proof {
        assert(raw.deep_view() =~~= raw_lines(input@));
    }
    let mut lines: Vec<Vec<u8>> = Vec::new();
    let mut i: usize = 0;
    while i < raw.len()
        invariant
            0 <= i <= raw.len(),
            raw.deep_view() == raw_lines(input@),
            lines.deep_view() == puzzle_lines(input@).take(i as int),
        decreases raw.len() - i,
    {
        let t = trim_line(raw[i].clone());
        let ghost prev = lines.deep_view();
        lines.push(t);
        proof {
            assert(raw@[i as int]@ =~= raw.deep_view()[i as int]);
            assert(lines.deep_view() =~~= prev.push(trim_end(raw.deep_view()[i as int])));
            assert(puzzle_lines(input@)[i as int] == trim_end(raw_lines(input@)[i as int]));
            assert(lines.deep_view() =~~= puzzle_lines(input@).take(i as int + 1));
        }
        i = i + 1;
    }
    proof {
        assert(puzzle_lines(input@).take(raw.len() as int) =~~= puzzle_lines(input@));
    }
    lines
}

/// The combined length of a sequence of lines.
pub open spec fn total_len(ls: Seq<Seq<u8>>) -> int
    decreases ls.len(),
{
    if ls.len() == 0 {
        0
    } else {
        total_len(ls.drop_last()) + ls.last().len()
    }
}

proof fn lemma_total_len_prepend(a: Seq<u8>, rest: Seq<Seq<u8>>)
    ensures
        total_len(seq![a] + rest) == a.len() + total_len(rest),
    decreases rest.len(),
{
    if rest.len() == 0 {
        assert(seq![a] + rest =~= seq![a]);
        assert(seq![a].drop_last() =~= Seq::<Seq<u8>>::empty());
        assert(total_len(Seq::<Seq<u8>>::empty()) == 0);
        assert(total_len(seq![a]) == a.len());
    } else {
        assert((seq![a] + rest).drop_last() =~= seq![a] + rest.drop_last());
        assert((seq![a] + rest).last() == rest.last());
        lemma_total_len_prepend(a, rest.drop_last());
    }
}

/// The segments of a split never hold more bytes than the split input.
pub proof fn lemma_split_seq_total_len(s: Seq<u8>, sep: u8)
    ensures
        total_len(split_seq(s, sep)) <= s.len(),
    decreases s.len(),
{
    if s.len() == 0 {
        assert(split_seq(s, sep) =~= seq![Seq::<u8>::empty()]);
        assert(seq![Seq::<u8>::empty()].drop_last() =~= Seq::<Seq<u8>>::empty());
        assert(total_len(Seq::<Seq<u8>>::empty()) == 0);
        assert(total_len(seq![Seq::<u8>::empty()]) == 0);
    } else {
        lemma_split_seq_total_len(s.skip(1), sep);
        lemma_split_seq_len(s.skip(1), sep);
        let r = split_seq(s.skip(1), sep);
        if s[0] == sep {
            assert(split_seq(s, sep) == seq![Seq::<u8>::empty()] + r);
            lemma_total_len_prepend(Seq::<u8>::empty(), r);
            assert(total_len(split_seq(s, sep)) == total_len(r));
        } else {
            assert(split_seq(s, sep) == seq![seq![s[0]] + r[0]] + r.skip(1));
            assert(r =~= seq![r[0]] + r.skip(1));
            lemma_total_len_prepend(r[0], r.skip(1));
            assert(total_len(r) == r[0].len() + total_len(r.skip(1)));
            lemma_total_len_prepend(seq![s[0]] + r[0], r.skip(1));
            assert(total_len(split_seq(s, sep)) == 1 + r[0].len() + total_len(r.skip(1)));
        }
    }
}

/// Trimming only shrinks a line.
proof fn lemma_trim_end_len(l: Seq<u8>)
    ensures
        trim_end(l).len() <= l.len(),
    decreases l.len(),
{
    if l.len() > 0 && is_trailing_space(l[l.len() - 1]) {
        lemma_trim_end_len(l.drop_last());
    }
}

proof fn lemma_total_len_map_trim(ls: Seq<Seq<u8>>)
    ensures
        total_len(ls.map_values(|l: Seq<u8>| trim_end(l))) <= total_len(ls),
    decreases ls.len(),
{
    if ls.len() > 0 {
        let m = ls.map_values(|l: Seq<u8>| trim_end(l));
        assert(m.drop_last() =~= ls.drop_last().map_values(|l: Seq<u8>| trim_end(l)));
        assert(m.last() == trim_end(ls.last()));
        lemma_total_len_map_trim(ls.drop_last());
        lemma_trim_end_len(ls.last());
    }
}

/// The lines of a puzzle input never hold more bytes than the input itself.
pub proof fn lemma_puzzle_lines_total_len(s: Seq<u8>)
    ensures
        total_len(puzzle_lines(s)) <= s.len(),
{
    lemma_split_seq_total_len(s, NEWLINE);
    let segs = split_seq(s, NEWLINE);
    if s.len() == 0 {
        assert(raw_lines(s) =~= Seq::<Seq<u8>>::empty());
        assert(puzzle_lines(s) =~= Seq::<Seq<u8>>::empty());
    } else if s.last() == NEWLINE {
        assert(total_len(segs) == total_len(segs.drop_last()) + segs.last().len());
        lemma_split_seq_len(s, NEWLINE);
    }
    lemma_total_len_map_trim(raw_lines(s));
}

/// Whether two byte fragments hold the same bytes.
pub fn bytes_equal(a: &[u8], b: &[u8]) -> (r: bool)
    ensures
        r == (a@ == b@),
{
    let n = a.len();
    if n != b.len() {
        return false;
    }
    let mut i: usize = 0;
    while i < n
        invariant
            0 <= i <= n,
            n == a@.len() == b@.len(),
            forall|k: int| 0 <= k < i ==> a@[k] == b@[k],
        decreases n - i,
    {
        if a[i] != b[i] {
            proof {
                assert(a@ != b@) by {
                    if a@ == b@ {
                        assert(a@[i as int] == b@[i as int]);
                    }
                }
            }
            return false;
        }
        i = i + 1;
    }
    proof {
        assert(a@ =~= b@);
    }
    true
}

/// Decimal digits.
pub open spec fn is_digit(b: u8) -> bool {
    48 <= b <= 57
}

/// Whether every byte of `l` is a decimal digit.
pub open spec fn all_digits(l: Seq<u8>) -> bool {
    forall|i: int| 0 <= i < l.len() ==> is_digit(#[trigger] l[i])
}

/// The number denoted by a sequence of decimal digits (most significant
/// first). Unspecified bytes outside the digit range contribute garbage; the
/// contracts below pair this with `all_digits`.
pub open spec fn digits_value(l: Seq<u8>) -> int
    decreases l.len(),
{
    if l.len() == 0 {
        0
    } else {
        digits_value(l.drop_last()) * 10 + (l.last() - 48)
    }
}

/// A line fragment that denotes a number representable as a `u64`: nonempty,
/// all digits, value within range.
pub open spec fn is_u64_number(l: Seq<u8>) -> bool {
    l.len() >= 1 && all_digits(l) && digits_value(l) <= u64::MAX
}

/// A digit string has a nonnegative value.
pub proof fn lemma_digits_value_nonneg(l: Seq<u8>)
    requires
        all_digits(l),
    ensures
        digits_value(l) >= 0,
    decreases l.len(),
{
    if l.len() > 0 {
        assert(all_digits(l.drop_last())) by {
            assert(forall|i: int| 0 <= i < l.len() - 1 ==> l.drop_last()[i] == l[i]);
        }
        lemma_digits_value_nonneg(l.drop_last());
    }
}

/// Extending a digit string never decreases its value.
proof fn lemma_digits_value_prefix_le(l: Seq<u8>, j: int)
    requires
        all_digits(l),
        0 <= j <= l.len(),
    ensures
        digits_value(l.take(j)) <= digits_value(l),
    decreases l.len() - j,
{
    if j < l.len() {
        lemma_digits_value_prefix_le(l, j + 1);
        assert(all_digits(l.take(j))) by {
            assert(forall|i: int| 0 <= i < j ==> l.take(j)[i] == l[i]);
        }
        lemma_digits_value_nonneg(l.take(j));
        assert(l.take(j + 1).drop_last() =~= l.take(j));
        assert(l.take(j + 1).last() == l[j]);
        assert(digits_value(l.take(j + 1)) == digits_value(l.take(j)) * 10 + (l[j] - 48));
    } else {
        assert(l.take(j) =~= l);
    }
}

/// Parse an unsigned decimal number. Returns `Some` exactly when the whole
/// fragment is a nonempty digit string whose value fits in a `u64`.
pub fn parse_u64(l: &[u8]) -> (r: Option<u64>)
    ensures
        r is Some <==> is_u64_number(l@),
        r matches Some(v) ==> v == digits_value(l@),
{
    let n = l.len();
    if n == 0 {
        return None;
    }
    let mut acc: u64 = 0;
    let mut i: usize = 0;
    while i < n
        invariant
            0 <= i <= n,
            n == l@.len(),
            all_digits(l@.take(i as int)),
            acc == digits_value(l@.take(i as int)),
        decreases n - i,
    {
        let b = l[i];
        if b < 48 || b > 57 {
            return None;
        }
        let d: u64 = (b - 48) as u64;
        proof {
            assert(l@.take(i as int + 1).drop_last() =~= l@.take(i as int));
            assert(l@.take(i as int + 1).last() == l@[i as int]);
            assert(forall|k: int| 0 <= k < i + 1 ==> l@.take(i as int + 1)[k] == l@[k]);
        }
        let m = match acc.checked_mul(10) {
            Some(m) => m,
            None => {
                proof {
                    lemma_digits_value_prefix_le(l@.take(i as int + 1), i as int);
                    assert(digits_value(l@.take(i as int + 1)) > u64::MAX);
                    lemma_too_big(l@, i as int + 1);
                }
                return None;
            },
        };
        let next = match m.checked_add(d) {
            Some(next) => next,
            None => {
                proof {
                    assert(digits_value(l@.take(i as int + 1)) > u64::MAX);
                    lemma_too_big(l@, i as int + 1);
                }
                return None;
            },
        };
        acc = next;
        i = i + 1;
    }
    proof {
        assert(l@.take(n as int) =~= l@);
    }
    Some(acc)
}

/// If some prefix of a digit string already exceeds `u64::MAX`, so does the
/// whole string (it cannot be a `u64` number, whatever its remaining bytes).
proof fn lemma_too_big(l: Seq<u8>, j: int)
    requires
        0 <= j <= l.len(),
        all_digits(l.take(j)),
        digits_value(l.take(j)) > u64::MAX,
    ensures
        !is_u64_number(l),
{
    if all_digits(l) {
        lemma_digits_value_prefix_le(l, j);
    }
}

} // verus!
