//! The star map around the scene: a cube map stored as one image with its six
//! faces side by side, rearranged into the six layers of a cube texture.

use vstd::prelude::*;

verus! {

/// Where pixel `(x, y)` of face `z` lies in the strip of six faces, each
/// `face_width` wide.
pub open spec fn strip_index(face_width: int, z: int, y: int, x: int) -> int {
    x + z * face_width + y * 6 * face_width
}

/// Where pixel `(x, y)` of face `z` lies in the layers, face after face, row
/// after row.
pub open spec fn layer_index(face_width: int, height: int, z: int, y: int, x: int) -> int {
    (z * height + y) * face_width + x
}

/// `(z2, y2, x2)` comes before `(z, y, x)`, face first, then row, then column.
spec fn comes_before(z: int, y: int, x: int, z2: int, y2: int, x2: int) -> bool {
    z2 < z || (z2 == z && y2 < y) || (z2 == z && y2 == y && x2 < x)
}

/// A pixel that comes before another lies before it in the layers.
proof fn lemma_layer_index_order(w: int, h: int, z: int, y: int, x: int, z2: int, y2: int, x2: int)
    requires
        0 <= z2,
        0 <= y2 < h,
        0 <= x2 < w,
        0 <= y <= h,
        0 <= x <= w,
        comes_before(z, y, x, z2, y2, x2),
    ensures
        0 <= layer_index(w, h, z2, y2, x2) < layer_index(w, h, z, y, x),
{
    if z2 < z {
        assert(0 <= (z2 * h + y2) * w + x2 < (z * h + y) * w + x) by (nonlinear_arith)
            requires
                0 <= z2 < z,
                0 <= y2 < h,
                0 <= x2 < w,
                0 <= y,
                0 <= x,
        {
            assert(z2 * h + y2 + 1 <= z * h) by {
                assert(z2 * h + h <= z * h);
            }
            assert((z2 * h + y2) * w + w <= (z * h) * w);
            assert((z * h) * w <= (z * h + y) * w);
        }
    } else if y2 < y {
        assert(0 <= (z2 * h + y2) * w + x2 < (z * h + y) * w + x) by (nonlinear_arith)
            requires
                0 <= z2 == z,
                0 <= y2 < y,
                0 <= x2 < w,
                0 <= x,
                0 <= h,
        {
            assert((z * h + y2) * w + w <= (z * h + y) * w);
        }
    } else {
        assert(0 <= (z2 * h + y2) * w + x2) by (nonlinear_arith)
            requires
                0 <= z2,
                0 <= y2,
                0 <= x2,
                0 <= h,
                0 <= w,
        ;
    }
}

/// Rearranges a strip of six cube faces, each `face_width` by `height`
/// pixels and side by side, into the six layers of a cube texture: face after
/// face, each row after row.
pub fn strip_to_layers<T: Copy>(strip: &[T], face_width: u32, height: u32) -> (r: Vec<T>)
    requires
        24 * face_width * height <= u32::MAX,
        6 * face_width * height <= strip@.len(),
    ensures
        r@.len() == 6 * face_width * height,
        forall|z: int, y: int, x: int|
            0 <= z < 6 && 0 <= y < height && 0 <= x < face_width ==> r@[#[trigger] layer_index(
                face_width as int,
                height as int,
                z,
                y,
                x,
            )] == strip@[strip_index(face_width as int, z, y, x)],
{
    let ghost w = face_width as int;
    let ghost h = height as int;
    let mut out: Vec<T> = Vec::new();
    proof {
        assert(layer_index(w, h, 0, 0, 0) == 0) by (nonlinear_arith);
    }
    let mut z: u32 = 0;
    while z < 6
        invariant
            w == face_width,
            h == height,
            24 * face_width * height <= u32::MAX,
            6 * face_width * height <= strip@.len(),
            z <= 6,
            out@.len() == layer_index(w, h, z as int, 0, 0),
            forall|z2: int, y2: int, x2: int|
                0 <= z2 && 0 <= y2 < h && 0 <= x2 < w && comes_before(z as int, 0, 0, z2, y2, x2) ==> out@[#[trigger] layer_index(
                    w,
                    h,
                    z2,
                    y2,
                    x2,
                )] == strip@[strip_index(w, z2, y2, x2)],
        decreases 6 - z,
    {
        let mut y: u32 = 0;
        while y < height
            invariant
                w == face_width,
                h == height,
                24 * face_width * height <= u32::MAX,
                6 * face_width * height <= strip@.len(),
                z < 6,
                y <= height,
                out@.len() == layer_index(w, h, z as int, y as int, 0),
                forall|z2: int, y2: int, x2: int|
                    0 <= z2 && 0 <= y2 < h && 0 <= x2 < w && comes_before(z as int, y as int, 0, z2, y2, x2) ==> out@[#[trigger] layer_index(
                        w,
                        h,
                        z2,
                        y2,
                        x2,
                    )] == strip@[strip_index(w, z2, y2, x2)],
            decreases height - y,
        {
            let mut x: u32 = 0;
            while x < face_width
                invariant
                    w == face_width,
                    h == height,
                    24 * face_width * height <= u32::MAX,
                    6 * face_width * height <= strip@.len(),
                    z < 6,
                    y < height,
                    x <= face_width,
                    out@.len() == layer_index(w, h, z as int, y as int, x as int),
                    forall|z2: int, y2: int, x2: int|
                        0 <= z2 && 0 <= y2 < h && 0 <= x2 < w && comes_before(z as int, y as int, x as int, z2, y2, x2) ==> out@[#[trigger] layer_index(
                            w,
                            h,
                            z2,
                            y2,
                            x2,
                        )] == strip@[strip_index(w, z2, y2, x2)],
                decreases face_width - x,
            {
                proof {
                    assert(x + z * w + y * 6 * w < 6 * w * h) by (nonlinear_arith)
                        requires
                            0 <= x < w,
                            0 <= z < 6,
                            0 <= y < h,
                    {
                        assert(x + z * w < 6 * w);
                        assert(y * 6 * w + 6 * w <= 6 * w * h);
                    }
                    assert(6 * w * h <= 24 * w * h) by (nonlinear_arith)
                        requires 0 <= w, 0 <= h;
                    assert(y * 6 <= 6 * w * h && y * 6 * w <= 6 * w * h && z * w <= 6 * w * h) by (nonlinear_arith)
                        requires
                            0 <= x < w,
                            0 <= z < 6,
                            0 <= y < h,
                    {
                        assert(y * 6 * w <= 6 * w * h);
                        assert(y * 6 <= y * 6 * w);
                    }
                }
                let pos = x + z * face_width + y * 6 * face_width;
                let pixel = strip[pos as usize];
                let ghost before = out@;
                out.push(pixel);
                proof {
                    assert(pos as int == strip_index(w, z as int, y as int, x as int));
                    assert forall|z2: int, y2: int, x2: int|
                        0 <= z2 && 0 <= y2 < h && 0 <= x2 < w && comes_before(z as int, y as int, x + 1, z2, y2, x2) implies out@[#[trigger] layer_index(
                            w,
                            h,
                            z2,
                            y2,
                            x2,
                        )] == strip@[strip_index(w, z2, y2, x2)] by {
                        if z2 == z && y2 == y && x2 == x {
                        } else {
                            lemma_layer_index_order(w, h, z as int, y as int, x as int, z2, y2, x2);
                            assert(out@[layer_index(w, h, z2, y2, x2)] == before[layer_index(w, h, z2, y2, x2)]);
                        }
                    }
                    assert(layer_index(w, h, z as int, y as int, x + 1) == layer_index(w, h, z as int, y as int, x as int) + 1) by (nonlinear_arith);
                }
                x += 1;
            }
            proof {
                assert(layer_index(w, h, z as int, y as int, w) == layer_index(w, h, z as int, y + 1, 0)) by (nonlinear_arith);
                assert forall|z2: int, y2: int, x2: int|
                    0 <= z2 && 0 <= y2 < h && 0 <= x2 < w && comes_before(z as int, y + 1, 0, z2, y2, x2) implies comes_before(
                        z as int,
                        y as int,
                        w,
                        z2,
                        y2,
                        x2,
                    ) by {}
            }
            y += 1;
        }
        proof {
            assert(layer_index(w, h, z as int, h, 0) == layer_index(w, h, z + 1, 0, 0)) by (nonlinear_arith);
        }
        z += 1;
    }
    proof {
        assert(layer_index(w, h, 6, 0, 0) == 6 * w * h) by (nonlinear_arith);
    }
    out
}

} // verus!
