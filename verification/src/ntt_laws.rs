//! What holds of the transform as a whole: the inverse transform undoes the
//! forward transform, and the zero polynomial is a fixed point.

use crate::algebraic::{
    is_layer, ntt_inv_layer, ntt_inv_layers, ntt_inv_spec, ntt_layer, ntt_layers, ntt_spec,
};
use crate::auxiliary::{lemma_zeta_partner, zeta};
use crate::polynomial::{is_canonical_seq, remainders, ring_scaled};
use vstd::arithmetic::div_mod::{
    lemma_fundamental_div_mod, lemma_fundamental_div_mod_converse, lemma_mod_multiples_vanish,
    lemma_mod_pos_bound, lemma_mul_mod_noop_general,
};
use vstd::prelude::*;

verus! {

/// Two numbers that differ by a multiple of 3329 have the same residue.
proof fn lemma_congruent_by_multiple(x: int, y: int, m: int)
    requires
        x == y + 3329 * m,
    ensures
        x % 3329 == y % 3329,
{
    lemma_mod_multiples_vanish(m, y, 3329);
}

/// One inverse butterfly applied to `c` times the output of one forward
/// butterfly gives `2 * c` times the input, when the two roots multiply to
/// minus one.
proof fn lemma_pair_inverts(
    a: int,
    b: int,
    z: int,
    zi: int,
    c: int,
    la: int,
    lb: int,
    ga: int,
    gb: int,
)
    requires
        la == (a + z * b) % 3329,
        lb == (a - z * b) % 3329,
        ga % 3329 == (c * la) % 3329,
        gb % 3329 == (c * lb) % 3329,
        (z * zi) % 3329 == 3328,
    ensures
        (ga + gb) % 3329 == (2 * c * a) % 3329,
        (zi * (gb - ga)) % 3329 == (2 * c * b) % 3329,
{
    let k1 = (a + z * b) / 3329;
    let k2 = (a - z * b) / 3329;
    lemma_fundamental_div_mod(a + z * b, 3329);
    lemma_fundamental_div_mod(a - z * b, 3329);
    assert(la == a + z * b - 3329 * k1);
    assert(lb == a - z * b - 3329 * k2);
    let k3 = ga / 3329 - (c * la) / 3329;
    let k4 = gb / 3329 - (c * lb) / 3329;
    lemma_fundamental_div_mod(ga, 3329);
    lemma_fundamental_div_mod(c * la, 3329);
    lemma_fundamental_div_mod(gb, 3329);
    lemma_fundamental_div_mod(c * lb, 3329);
    assert(ga == c * la + 3329 * k3);
    assert(gb == c * lb + 3329 * k4);
    let k5 = (z * zi) / 3329 + 1;
    lemma_fundamental_div_mod(z * zi, 3329);
    assert(z * zi == 3329 * k5 - 1);
    let m1 = k3 + k4 - c * (k1 + k2);
    assert(ga + gb == 2 * c * a + 3329 * m1) by (nonlinear_arith)
        requires
            la == a + z * b - 3329 * k1,
            lb == a - z * b - 3329 * k2,
            ga == c * la + 3329 * k3,
            gb == c * lb + 3329 * k4,
            m1 == k3 + k4 - c * (k1 + k2),
    ;
    lemma_congruent_by_multiple(ga + gb, 2 * c * a, m1);
    let zb = z * b;
    let zz = z * zi;
    let w = c * (k1 - k2) + (k4 - k3);
    assert(gb - ga == 3329 * w - 2 * c * zb) by (nonlinear_arith)
        requires
            la == a + zb - 3329 * k1,
            lb == a - zb - 3329 * k2,
            ga == c * la + 3329 * k3,
            gb == c * lb + 3329 * k4,
            w == c * (k1 - k2) + (k4 - k3),
    ;
    assert(zi * (gb - ga) == 3329 * (zi * w) - 2 * c * b * zz) by (nonlinear_arith)
        requires
            gb - ga == 3329 * w - 2 * c * zb,
            zb == z * b,
            zz == z * zi,
    ;
    assert(2 * c * b * zz == 3329 * (2 * c * b * k5) - 2 * c * b) by (nonlinear_arith)
        requires
            zz == 3329 * k5 - 1,
    ;
    let m2 = zi * w - 2 * c * b * k5;
    assert(3329 * m2 == 3329 * (zi * w) - 3329 * (2 * c * b * k5)) by (nonlinear_arith)
        requires
            m2 == zi * w - 2 * c * b * k5,
    ;
    lemma_congruent_by_multiple(zi * (gb - ga), 2 * c * b, m2);
}

/// Where position `j` lies in a layer of span `len`: its block, and whether
/// it is in the lower or the upper half of it.
proof fn lemma_position(j: int, len: int, base: int)
    requires
        is_layer(len, base),
        0 <= j < 256,
    ensures
        0 <= j / (2 * len) < base,
        j == (j / (2 * len)) * (2 * len) + j % (2 * len),
        0 <= j % (2 * len) < 2 * len,
        128int / len == base,
        256int / len == 2 * base,
        j % (2 * len) < len ==> j + len < 256,
        j % (2 * len) >= len ==> j - len >= 0,
{
    let blk = j / (2 * len);
    let off = j % (2 * len);
    lemma_fundamental_div_mod(j, 2 * len);
    lemma_mod_pos_bound(j, 2 * len);
    assert(base * len == 128);
    assert((2 * base) * len == 256);
    lemma_fundamental_div_mod_converse(128, len, base, 0);
    lemma_fundamental_div_mod_converse(256, len, 2 * base, 0);
    assert(0 <= blk < base && j == blk * (2 * len) + off && (off < len ==> j + len < 256)) by (
    nonlinear_arith)
        requires
            j == (2 * len) * blk + off,
            0 <= off < 2 * len,
            0 <= j < 256,
            base * len == 128,
            len >= 2,
    ;
}

/// One inverse layer applied to `c` times the output of the forward layer of
/// the same span gives `2 * c` times the input.
proof fn lemma_layer_inverts(f: Seq<int>, g: Seq<int>, len: int, base: int, c: int)
    requires
        is_layer(len, base),
        f.len() == 256,
        g.len() == 256,
        forall|j: int| 0 <= j < 256 ==> #[trigger] g[j] % 3329 == (c * ntt_layer(f, len)[j]) % 3329,
    ensures
        forall|j: int| 0 <= j < 256 ==> #[trigger] ntt_inv_layer(g, len)[j] == (2 * c * f[j]) % 3329,
{
    let l = ntt_layer(f, len);
    assert forall|j: int| 0 <= j < 256 implies #[trigger] ntt_inv_layer(g, len)[j] == (2 * c
        * f[j]) % 3329 by {
        lemma_position(j, len, base);
        let blk = j / (2 * len);
        let z = zeta((base + blk) as nat);
        let zi = zeta((2 * base - 1 - blk) as nat);
        lemma_zeta_partner(base as nat, blk as nat);
        if j % (2 * len) < len {
            let hi = j + len;
            lemma_position(hi, len, base);
            assert(hi / (2 * len) == blk && hi % (2 * len) == j % (2 * len) + len) by {
                lemma_fundamental_div_mod_converse(hi, 2 * len, blk, j % (2 * len) + len);
            }
            assert(g[j] % 3329 == (c * l[j]) % 3329);
            assert(g[hi] % 3329 == (c * l[hi]) % 3329);
            lemma_pair_inverts(f[j], f[hi], z, zi, c, l[j], l[hi], g[j], g[hi]);
        } else {
            let lo = j - len;
            lemma_position(lo, len, base);
            assert(lo / (2 * len) == blk && lo % (2 * len) == j % (2 * len) - len) by {
                lemma_fundamental_div_mod_converse(lo, 2 * len, blk, j % (2 * len) - len);
            }
            assert(g[j] % 3329 == (c * l[j]) % 3329);
            assert(g[lo] % 3329 == (c * l[lo]) % 3329);
            lemma_pair_inverts(f[lo], f[j], z, zi, c, l[lo], l[j], g[lo], g[j]);
        }
    }
}

/// `g` is `c` times `f`, coefficient by coefficient, in the ring.
#[verifier::opaque]
spec fn is_scaled(g: Seq<int>, c: int, f: Seq<int>) -> bool {
    &&& g.len() == 256
    &&& f.len() == 256
    &&& forall|j: int| 0 <= j < 256 ==> #[trigger] g[j] == (c * f[j]) % 3329
}

/// The output of a forward layer is once itself.
proof fn lemma_layer_output_scaled(f: Seq<int>, len: int)
    ensures
        is_scaled(ntt_layer(f, len), 1, ntt_layer(f, len)),
{
    reveal(is_scaled);
}

/// One step of the way back: an inverse layer takes `c` times the output of
/// the forward layer of the same span to `2 * c` times its input.
proof fn lemma_layer_step(f: Seq<int>, g: Seq<int>, len: int, base: int, c: int)
    requires
        is_layer(len, base),
        f.len() == 256,
        is_scaled(g, c, ntt_layer(f, len)),
    ensures
        is_scaled(ntt_inv_layer(g, len), 2 * c, f),
{
    reveal(is_scaled);
    assert forall|j: int| 0 <= j < 256 implies #[trigger] g[j] % 3329 == (c * ntt_layer(f, len)[j])
        % 3329 by {
        assert(g[j] == (c * ntt_layer(f, len)[j]) % 3329);
    }
    lemma_layer_inverts(f, g, len, base, c);
}

/// 3303 is the inverse of 128 modulo 3329.
proof fn lemma_scale_back(x: int)
    ensures
        (((128 * x) % 3329) * 3303) % 3329 == x % 3329,
{
    lemma_mul_mod_noop_general(128 * x, 3303, 3329);
    assert((128 * x) * 3303 == x + 3329 * (127 * x));
    lemma_congruent_by_multiple((128 * x) * 3303, x, 127 * x);
}

/// After all seven steps, scaling by 3303 leaves the residues of `f`.
proof fn lemma_final_scaling(f: Seq<int>, g: Seq<int>)
    requires
        is_scaled(g, 128, f),
    ensures
        ring_scaled(g, 3303) == remainders(f, 3329),
{
    reveal(is_scaled);
    assert forall|j: int| 0 <= j < 256 implies #[trigger] ring_scaled(g, 3303)[j] == f[j]
        % 3329 by {
        assert(g[j] == (128 * f[j]) % 3329);
        lemma_scale_back(f[j]);
    }
    assert(ring_scaled(g, 3303) =~= remainders(f, 3329));
}

/// The inverse transform of the forward transform of `f` is `f` with every
/// coefficient reduced modulo 3329.
pub proof fn lemma_ntt_inv_of_ntt_reduces(f: Seq<int>)
    requires
        f.len() == 256,
    ensures
        ntt_inv_spec(ntt_spec(f)) == remainders(f, 3329),
{
    let f1 = ntt_layer(f, 128);
    let f2 = ntt_layer(f1, 64);
    let f3 = ntt_layer(f2, 32);
    let f4 = ntt_layer(f3, 16);
    let f5 = ntt_layer(f4, 8);
    let f6 = ntt_layer(f5, 4);
    let f7 = ntt_layer(f6, 2);
    assert(ntt_spec(f) == f7) by {
        reveal_with_fuel(ntt_layers, 9);
    }
    let g1 = ntt_inv_layer(f7, 2);
    let g2 = ntt_inv_layer(g1, 4);
    let g3 = ntt_inv_layer(g2, 8);
    let g4 = ntt_inv_layer(g3, 16);
    let g5 = ntt_inv_layer(g4, 32);
    let g6 = ntt_inv_layer(g5, 64);
    let g7 = ntt_inv_layer(g6, 128);
    assert(ntt_inv_layers(f7, 2) == g7) by {
        reveal_with_fuel(ntt_inv_layers, 9);
    }
    lemma_layer_output_scaled(f6, 2);
    lemma_layer_step(f6, f7, 2, 64, 1);
    lemma_layer_step(f5, g1, 4, 32, 2);
    lemma_layer_step(f4, g2, 8, 16, 4);
    lemma_layer_step(f3, g3, 16, 8, 8);
    lemma_layer_step(f2, g4, 32, 4, 16);
    lemma_layer_step(f1, g5, 64, 2, 32);
    lemma_layer_step(f, g6, 128, 1, 64);
    lemma_final_scaling(f, g7);
}

/// The inverse transform undoes the forward transform on every canonical
/// polynomial.
pub proof fn lemma_ntt_inv_of_ntt(f: Seq<int>)
    requires
        is_canonical_seq(f),
    ensures
        ntt_inv_spec(ntt_spec(f)) == f,
{
    lemma_ntt_inv_of_ntt_reduces(f);
    assert(remainders(f, 3329) =~= f);
}

/// One forward butterfly applied to `c` times the output of one inverse
/// butterfly gives `2 * c` times the input, when the two roots multiply to
/// minus one.
proof fn lemma_pair_transforms(
    a: int,
    b: int,
    z: int,
    zi: int,
    c: int,
    ia: int,
    ib: int,
    ga: int,
    gb: int,
)
    requires
        ia == (a + b) % 3329,
        ib == (zi * (b - a)) % 3329,
        ga % 3329 == (c * ia) % 3329,
        gb % 3329 == (c * ib) % 3329,
        (z * zi) % 3329 == 3328,
    ensures
        (ga + z * gb) % 3329 == (2 * c * a) % 3329,
        (ga - z * gb) % 3329 == (2 * c * b) % 3329,
{
    let k1 = (a + b) / 3329;
    let k2 = (zi * (b - a)) / 3329;
    lemma_fundamental_div_mod(a + b, 3329);
    lemma_fundamental_div_mod(zi * (b - a), 3329);
    let k3 = ga / 3329 - (c * ia) / 3329;
    let k4 = gb / 3329 - (c * ib) / 3329;
    lemma_fundamental_div_mod(ga, 3329);
    lemma_fundamental_div_mod(c * ia, 3329);
    lemma_fundamental_div_mod(gb, 3329);
    lemma_fundamental_div_mod(c * ib, 3329);
    let k5 = (z * zi) / 3329 + 1;
    lemma_fundamental_div_mod(z * zi, 3329);
    let zz = z * zi;
    let d = b - a;
    let u = k4 - c * k2;
    let cd = c * d;
    assert(gb == cd * zi + 3329 * u) by (nonlinear_arith)
        requires
            ib == zi * d - 3329 * k2,
            gb == c * ib + 3329 * k4,
            u == k4 - c * k2,
            cd == c * d,
    ;
    assert(z * gb == cd * zz + 3329 * (z * u)) by (nonlinear_arith)
        requires
            gb == cd * zi + 3329 * u,
            zz == z * zi,
    ;
    assert(cd * zz == 3329 * (cd * k5) - cd) by (nonlinear_arith)
        requires
            zz == 3329 * k5 - 1,
    ;
    let w = cd * k5 + z * u;
    assert(3329 * w == 3329 * (cd * k5) + 3329 * (z * u)) by (nonlinear_arith)
        requires
            w == cd * k5 + z * u,
    ;
    assert(z * gb == 3329 * w - c * d);
    assert(ga == c * (a + b) + 3329 * (k3 - c * k1)) by (nonlinear_arith)
        requires
            ia == a + b - 3329 * k1,
            ga == c * ia + 3329 * k3,
    ;
    let m1 = (k3 - c * k1) + w;
    assert(ga + z * gb == 2 * c * a + 3329 * m1) by (nonlinear_arith)
        requires
            z * gb == 3329 * w - c * d,
            ga == c * (a + b) + 3329 * (k3 - c * k1),
            d == b - a,
            m1 == (k3 - c * k1) + w,
    ;
    lemma_congruent_by_multiple(ga + z * gb, 2 * c * a, m1);
    let m2 = (k3 - c * k1) - w;
    assert(ga - z * gb == 2 * c * b + 3329 * m2) by (nonlinear_arith)
        requires
            z * gb == 3329 * w - c * d,
            ga == c * (a + b) + 3329 * (k3 - c * k1),
            d == b - a,
            m2 == (k3 - c * k1) - w,
    ;
    lemma_congruent_by_multiple(ga - z * gb, 2 * c * b, m2);
}

/// One forward layer applied to `c` times the output of the inverse layer of
/// the same span gives `2 * c` times the input.
proof fn lemma_layer_transforms(f: Seq<int>, g: Seq<int>, len: int, base: int, c: int)
    requires
        is_layer(len, base),
        f.len() == 256,
        g.len() == 256,
        forall|j: int|
            0 <= j < 256 ==> #[trigger] g[j] % 3329 == (c * ntt_inv_layer(f, len)[j]) % 3329,
    ensures
        forall|j: int| 0 <= j < 256 ==> #[trigger] ntt_layer(g, len)[j] == (2 * c * f[j]) % 3329,
{
    let l = ntt_inv_layer(f, len);
    assert forall|j: int| 0 <= j < 256 implies #[trigger] ntt_layer(g, len)[j] == (2 * c * f[j])
        % 3329 by {
        lemma_position(j, len, base);
        let blk = j / (2 * len);
        let z = zeta((base + blk) as nat);
        let zi = zeta((2 * base - 1 - blk) as nat);
        lemma_zeta_partner(base as nat, blk as nat);
        if j % (2 * len) < len {
            let hi = j + len;
            lemma_position(hi, len, base);
            assert(hi / (2 * len) == blk && hi % (2 * len) == j % (2 * len) + len) by {
                lemma_fundamental_div_mod_converse(hi, 2 * len, blk, j % (2 * len) + len);
            }
            assert(g[j] % 3329 == (c * l[j]) % 3329);
            assert(g[hi] % 3329 == (c * l[hi]) % 3329);
            lemma_pair_transforms(f[j], f[hi], z, zi, c, l[j], l[hi], g[j], g[hi]);
        } else {
            let lo = j - len;
            lemma_position(lo, len, base);
            assert(lo / (2 * len) == blk && lo % (2 * len) == j % (2 * len) - len) by {
                lemma_fundamental_div_mod_converse(lo, 2 * len, blk, j % (2 * len) - len);
            }
            assert(g[j] % 3329 == (c * l[j]) % 3329);
            assert(g[lo] % 3329 == (c * l[lo]) % 3329);
            lemma_pair_transforms(f[lo], f[j], z, zi, c, l[lo], l[j], g[lo], g[j]);
        }
    }
}

/// One step of the way forth: a forward layer takes `c` times the output of
/// the inverse layer of the same span to `2 * c` times its input.
proof fn lemma_layer_step_forth(f: Seq<int>, g: Seq<int>, len: int, base: int, c: int)
    requires
        is_layer(len, base),
        f.len() == 256,
        is_scaled(g, c, ntt_inv_layer(f, len)),
    ensures
        is_scaled(ntt_layer(g, len), 2 * c, f),
{
    reveal(is_scaled);
    assert forall|j: int| 0 <= j < 256 implies #[trigger] g[j] % 3329 == (c * ntt_inv_layer(
        f,
        len,
    )[j]) % 3329 by {
        assert(g[j] == (c * ntt_inv_layer(f, len)[j]) % 3329);
    }
    lemma_layer_transforms(f, g, len, base, c);
}

/// The scaling that ends the inverse transform gives 3303 times the output
/// of its last layer.
proof fn lemma_scaling_is_scaled(g: Seq<int>)
    requires
        g.len() == 256,
    ensures
        is_scaled(ring_scaled(g, 3303), 3303, g),
{
    reveal(is_scaled);
}

/// 128 times 3303 times a polynomial is its residues.
proof fn lemma_scaled_back(f: Seq<int>, g: Seq<int>)
    requires
        is_scaled(g, 422784, f),
    ensures
        g == remainders(f, 3329),
{
    reveal(is_scaled);
    assert forall|j: int| 0 <= j < 256 implies #[trigger] g[j] == f[j] % 3329 by {
        assert(g[j] == (422784 * f[j]) % 3329);
        lemma_congruent_by_multiple(422784 * f[j], f[j], 127 * f[j]);
    }
    assert(g =~= remainders(f, 3329));
}

/// The forward transform of the inverse transform of `g` is `g` with every
/// coefficient reduced modulo 3329.
pub proof fn lemma_ntt_of_ntt_inv_reduces(g: Seq<int>)
    requires
        g.len() == 256,
    ensures
        ntt_spec(ntt_inv_spec(g)) == remainders(g, 3329),
{
    let g1 = ntt_inv_layer(g, 2);
    let g2 = ntt_inv_layer(g1, 4);
    let g3 = ntt_inv_layer(g2, 8);
    let g4 = ntt_inv_layer(g3, 16);
    let g5 = ntt_inv_layer(g4, 32);
    let g6 = ntt_inv_layer(g5, 64);
    let g7 = ntt_inv_layer(g6, 128);
    assert(ntt_inv_layers(g, 2) == g7) by {
        reveal_with_fuel(ntt_inv_layers, 9);
    }
    let s = ring_scaled(g7, 3303);
    let f1 = ntt_layer(s, 128);
    let f2 = ntt_layer(f1, 64);
    let f3 = ntt_layer(f2, 32);
    let f4 = ntt_layer(f3, 16);
    let f5 = ntt_layer(f4, 8);
    let f6 = ntt_layer(f5, 4);
    let f7 = ntt_layer(f6, 2);
    assert(ntt_spec(s) == f7) by {
        reveal_with_fuel(ntt_layers, 9);
    }
    lemma_scaling_is_scaled(g7);
    lemma_layer_step_forth(g6, s, 128, 1, 3303);
    lemma_layer_step_forth(g5, f1, 64, 2, 6606);
    lemma_layer_step_forth(g4, f2, 32, 4, 13212);
    lemma_layer_step_forth(g3, f3, 16, 8, 26424);
    lemma_layer_step_forth(g2, f4, 8, 16, 52848);
    lemma_layer_step_forth(g1, f5, 4, 32, 105696);
    lemma_layer_step_forth(g, f6, 2, 64, 211392);
    lemma_scaled_back(g, f7);
}

/// The forward transform undoes the inverse transform on every canonical
/// polynomial: the two are bijections of the ring, inverse to each other.
pub proof fn lemma_ntt_of_ntt_inv(g: Seq<int>)
    requires
        is_canonical_seq(g),
    ensures
        ntt_spec(ntt_inv_spec(g)) == g,
{
    lemma_ntt_of_ntt_inv_reduces(g);
    assert(remainders(g, 3329) =~= g);
}

/// A layer of the forward transform maps the zero polynomial to itself.
proof fn lemma_ntt_layer_of_zero(len: int, base: int)
    requires
        is_layer(len, base),
    ensures
        ntt_layer(Seq::new(256, |i: int| 0int), len) == Seq::new(256, |i: int| 0int),
{
    let zero = Seq::new(256, |i: int| 0int);
    assert forall|j: int| 0 <= j < 256 implies #[trigger] ntt_layer(zero, len)[j] == 0 by {
        lemma_position(j, len, base);
        let z = zeta((128int / len + j / (2 * len)) as nat);
        if j % (2 * len) < len {
            assert(zero[j] == 0 && zero[j + len] == 0);
            assert(z * 0 == 0);
        } else {
            assert(zero[j] == 0 && zero[j - len] == 0);
            assert(z * 0 == 0);
        }
    }
    assert(ntt_layer(zero, len) =~= zero);
}

/// The forward transform maps the zero polynomial to itself.
pub proof fn lemma_ntt_of_zero()
    ensures
        ntt_spec(Seq::new(256, |i: int| 0int)) == Seq::new(256, |i: int| 0int),
{
    reveal_with_fuel(ntt_layers, 9);
    lemma_ntt_layer_of_zero(128, 1);
    lemma_ntt_layer_of_zero(64, 2);
    lemma_ntt_layer_of_zero(32, 4);
    lemma_ntt_layer_of_zero(16, 8);
    lemma_ntt_layer_of_zero(8, 16);
    lemma_ntt_layer_of_zero(4, 32);
    lemma_ntt_layer_of_zero(2, 64);
}

} // verus!
