//! RGBA pixel-buffer recoloring: sprite templates mark regions with six fixed
//! key colors, and a recolored copy replaces each key with a palette color
//! (three light/dark pairs), forcing the pixel opaque. All other pixels are
//! copied unchanged. This is the pure byte transformation; reading and
//! writing image files is the caller's concern.

use vstd::prelude::*;

verus! {

/// A light/dark pair of RGB palette colors.
#[derive(Clone, Copy, Debug, PartialEq, Eq)]
pub struct ColorPair {
    /// RGB of the lighter shade.
    pub light: [u8; 3],
    /// RGB of the darker shade.
    pub dark: [u8; 3],
}

/// `buf` with the three bytes of `with` written at `index` and an opaque
/// alpha byte after them.
pub open spec fn filled(buf: Seq<u8>, index: int, with: Seq<u8>) -> Seq<u8> {
    buf.update(index, with[0]).update(index + 1, with[1]).update(index + 2, with[2]).update(
        index + 3,
        255u8,
    )
}

/// Write one opaque RGBA pixel into the buffer.
pub fn fill(fill: &mut Vec<u8>, index: usize, with: [u8; 3])
    requires
        index + 4 <= old(fill)@.len(),
    ensures
        final(fill)@ == filled(old(fill)@, index as int, with@),
{
    let n = fill.len();
    proof {
        assert(index + 4 <= n);
    }
    let r = with[0];
    let g = with[1];
    let b = with[2];
    fill.set(index, r);
    fill.set(index + 1, g);
    fill.set(index + 2, b);
    fill.set(index + 3, 255);
}

/// The recolored RGBA quad starting at `i`: each of the six key colors maps
/// to a palette shade (made opaque); any other quad is copied unchanged.
pub open spec fn recolored_quad(
    b: Seq<u8>,
    i: int,
    p1: ColorPair,
    p2: ColorPair,
    p3: ColorPair,
) -> Seq<u8> {
    let q = seq![b[i], b[i + 1], b[i + 2], b[i + 3]];
    if q == seq![255u8, 0u8, 0u8, 255u8] {
        p1.light@ + seq![255u8]
    } else if q == seq![255u8, 255u8, 0u8, 255u8] {
        p1.dark@ + seq![255u8]
    } else if q == seq![0u8, 255u8, 255u8, 255u8] {
        p2.light@ + seq![255u8]
    } else if q == seq![0u8, 255u8, 0u8, 255u8] {
        p2.dark@ + seq![255u8]
    } else if q == seq![255u8, 255u8, 255u8, 255u8] {
        p3.light@ + seq![255u8]
    } else if q == seq![255u8, 0u8, 255u8, 255u8] {
        p3.dark@ + seq![255u8]
    } else {
        q
    }
}

/// Recolor a template buffer of whole RGBA pixels against three palette
/// pairs.
pub fn recolor(buf: &Vec<u8>, p1: ColorPair, p2: ColorPair, p3: ColorPair) -> (out: Vec<u8>)
    requires
        buf@.len() % 4 == 0,
    ensures
        out@.len() == buf@.len(),
        forall|q: int|
            0 <= q < buf@.len() && q % 4 == 0 ==> out@.subrange(q, q + 4) == recolored_quad(
                buf@,
                q,
                p1,
                p2,
                p3,
            ),
{
    let n = buf.len();
    let mut out: Vec<u8> = Vec::new();
    let mut i: usize = 0;
    while i < n
        invariant
            0 <= i <= n,
            n == buf@.len(),
            n % 4 == 0,
            i % 4 == 0,
            out@.len() == i,
            forall|q: int|
                0 <= q < i && q % 4 == 0 ==> out@.subrange(q, q + 4) == recolored_quad(
                    buf@,
                    q,
                    p1,
                    p2,
                    p3,
                ),
        decreases n - i,
    {
        proof {
            assert(i + 4 <= n) by {
                assert(i < n && i % 4 == 0 && n % 4 == 0);
                assert(n - i >= 4) by (nonlinear_arith)
                    requires
                        i < n && i % 4 == 0 && n % 4 == 0 && 0 <= i && 0 <= n,
                ;
            }
        }
        let ghost before = out@;
        let b0 = buf[i];
        let b1 = buf[i + 1];
        let b2 = buf[i + 2];
        let b3 = buf[i + 3];
        if b0 == 255 && b1 == 0 && b2 == 0 && b3 == 255 {
            out.push(p1.light[0]);
            out.push(p1.light[1]);
            out.push(p1.light[2]);
            out.push(255);
        } else if b0 == 255 && b1 == 255 && b2 == 0 && b3 == 255 {
            out.push(p1.dark[0]);
            out.push(p1.dark[1]);
            out.push(p1.dark[2]);
            out.push(255);
        } else if b0 == 0 && b1 == 255 && b2 == 255 && b3 == 255 {
            out.push(p2.light[0]);
            out.push(p2.light[1]);
            out.push(p2.light[2]);
            out.push(255);
        } else if b0 == 0 && b1 == 255 && b2 == 0 && b3 == 255 {
            out.push(p2.dark[0]);
            out.push(p2.dark[1]);
            out.push(p2.dark[2]);
            out.push(255);
        } else if b0 == 255 && b1 == 255 && b2 == 255 && b3 == 255 {
            out.push(p3.light[0]);
            out.push(p3.light[1]);
            out.push(p3.light[2]);
            out.push(255);
        } else if b0 == 255 && b1 == 0 && b2 == 255 && b3 == 255 {
            out.push(p3.dark[0]);
            out.push(p3.dark[1]);
            out.push(p3.dark[2]);
            out.push(255);
        } else {
            out.push(b0);
            out.push(b1);
            out.push(b2);
            out.push(b3);
        }
        proof {
            assert(out@.subrange(i as int, i as int + 4) =~= recolored_quad(buf@, i as int, p1, p2,
                p3));
            assert(forall|q: int|
                0 <= q < i && q % 4 == 0 ==> #[trigger] out@.subrange(q, q + 4) =~= before.subrange(
                    q,
                    q + 4,
                ));
            assert((i + 4) % 4 == 0) by (nonlinear_arith)
                requires
                    i % 4 == 0 && 0 <= i,
            ;
        }
        i = i + 4;
    }
    out
}

} // verus!
