//! Signal scanner: the input's first line is a stream of characters, and a
//! marker is the first window of a given width whose characters are all
//! distinct. The start-of-packet marker uses width 4 and the start-of-message
//! marker width 14; each is reported as the 1-based position of the window's
//! last character. A missing marker is fatal: the input is presumed corrupt.

use vstd::prelude::*;

use crate::text::{puzzle_lines, split_lines};

verus! {

/// Whether the `w` characters ending at 1-based position `e` are all
/// distinct.
pub open spec fn distinct_window(l: Seq<u8>, e: int, w: int) -> bool {
    forall|i: int, j: int| e - w <= i < j < e ==> l[i] != l[j]
}

/// The first end position at or after `e` of a width-`w` window of distinct
/// characters; zero when no such window exists by the end of the line.
pub open spec fn first_marker_from(l: Seq<u8>, w: int, e: int) -> int
    decreases l.len() + 1 - e,
{
    if e < w || e > l.len() {
        0
    } else if distinct_window(l, e, w) {
        e
    } else {
        first_marker_from(l, w, e + 1)
    }
}

/// The end position of the first width-`w` window of distinct characters;
/// zero when there is none.
pub open spec fn first_marker(l: Seq<u8>, w: int) -> int {
    first_marker_from(l, w, w)
}

/// The two markers of a signal.
#[derive(Clone, Copy, Debug, PartialEq, Eq, Structural)]
pub struct SignalMarkers {
    /// 1-based end position of the first window of 4 distinct characters.
    pub packet_end: usize,
    /// 1-based end position of the first window of 14 distinct characters.
    pub message_end: usize,
}

/// A marker that never appears before the end of input indicates truncated or
/// corrupt data and aborts the scan.
#[derive(Clone, Copy, Debug, PartialEq, Eq, Structural)]
pub enum SignalError {
    /// No window of 4 distinct characters exists.
    NoPacketMarker,
    /// No window of 14 distinct characters exists.
    NoMessageMarker,
}

/// The signal itself: the first line of the input (an input without lines is
/// an empty signal).
pub open spec fn signal_line(input: Seq<u8>) -> Seq<u8> {
    if puzzle_lines(input).len() == 0 {
        Seq::empty()
    } else {
        puzzle_lines(input)[0]
    }
}

/// Everything the scanner promises of its result.
pub open spec fn scan_post(input: Seq<u8>, r: Result<SignalMarkers, SignalError>) -> bool {
    let line = signal_line(input);
    &&& (r matches Ok(m) ==> {
        &&& m.packet_end == first_marker(line, 4)
        &&& m.message_end == first_marker(line, 14)
    })
    &&& (r is Ok <==> (first_marker(line, 4) != 0 && first_marker(line, 14) != 0))
    &&& (r == Err::<SignalMarkers, SignalError>(SignalError::NoPacketMarker) <==> first_marker(
        line,
        4,
    ) == 0)
    &&& (r == Err::<SignalMarkers, SignalError>(SignalError::NoMessageMarker) <==> (first_marker(
        line,
        4,
    ) != 0 && first_marker(line, 14) == 0))
}

/// Law (idempotence): the scanner's contract pins its result down completely,
/// so re-running it on the same input yields an identical result.
pub proof fn lemma_scan_deterministic(
    input: Seq<u8>,
    r1: Result<SignalMarkers, SignalError>,
    r2: Result<SignalMarkers, SignalError>,
)
    requires
        scan_post(input, r1),
        scan_post(input, r2),
    ensures
        r1 == r2,
{
}

/// Whether the `w` bytes of `l` ending at position `e` are all distinct.
fn window_distinct(l: &[u8], e: usize, w: usize) -> (b: bool)
    requires
        w <= e <= l@.len(),
    ensures
        b == distinct_window(l@, e as int, w as int),
{
    let start = e - w;
    let mut i: usize = start;
    while i < e
        invariant
            start <= i <= e <= l@.len(),
            start == e - w,
            forall|p: int, q: int| start <= p < q < e && p < i ==> l@[p] != l@[q],
        decreases e - i,
    {
        let mut j: usize = i + 1;
        while j < e
            invariant
                start <= i < j <= e <= l@.len(),
                start == e - w,
                forall|q: int| i < q < j ==> l@[i as int] != l@[q],
            decreases e - j,
        {
            if l[i] == l[j] {
                proof {
                    assert(!distinct_window(l@, e as int, w as int)) by {
                        if distinct_window(l@, e as int, w as int) {
                            assert(e - w <= i < j < e);
                            assert(l@[i as int] != l@[j as int]);
                        }
                    }
                }
                return false;
            }
            j = j + 1;
        }
        i = i + 1;
    }
    true
}

/// Find the first marker of width `w` in the line: the least end position
/// whose trailing window is all distinct, or zero when none exists.
fn find_marker(l: &[u8], w: usize) -> (e: usize)
    requires
        1 <= w,
    ensures
        e == first_marker(l@, w as int),
{
    let n = l.len();
    if n < w {
        return 0;
    }
    let mut s: usize = 0;
    while s <= n - w
        invariant
            w <= n == l@.len(),
            0 <= s <= n - w + 1,
            first_marker(l@, w as int) == first_marker_from(l@, w as int, s as int + w as int),
        decreases n - s,
    {
        let e = s + w;
        if window_distinct(l, e, w) {
            return e;
        }
        s = s + 1;
    }
    0
}

/// Scan a signal for its start-of-packet (width 4) and start-of-message
/// (width 14) markers. Fails when either marker is missing, naming the first
/// one that is.
pub fn scan(input: &[u8]) -> (r: Result<SignalMarkers, SignalError>)
    ensures
        scan_post(input@, r),
{
    let lines = split_lines(input);
    let empty: Vec<u8> = Vec::new();
    let line = if lines.len() == 0 {
        proof {
            assert(empty@ =~= signal_line(input@));
        }
        empty.as_slice()
    } else {
        proof {
            assert(lines@[0]@ =~= lines.deep_view()[0]);
        }
        lines[0].as_slice()
    };
    let packet = find_marker(line, 4);
    if packet == 0 {
        return Err(SignalError::NoPacketMarker);
    }
    let message = find_marker(line, 14);
    if message == 0 {
        return Err(SignalError::NoMessageMarker);
    }
    Ok(SignalMarkers { packet_end: packet, message_end: message })
}

} // verus!
