//! Claw machines: the presses of buttons A and B that land exactly on the prize.
use vstd::prelude::*;

verus! {

/// Two buttons, each moving the claw by a fixed offset, and the prize position.
#[derive(Debug)]
pub struct Machine {
    pub button_a: (i64, i64),
    pub button_b: (i64, i64),
    pub prize: (i64, i64),
}

/// `a` presses of A and `b` presses of B land exactly on the prize.
pub open spec fn lands(m: &Machine, a: int, b: int) -> bool {
    a * m.button_a.0 + b * m.button_b.0 == m.prize.0 && a * m.button_a.1 + b * m.button_b.1 == m.prize.1
}

/// Tokens for `a` presses of A (three each) and `b` presses of B (one each).
pub open spec fn tokens(a: int, b: int) -> int {
    3 * a + b
}

pub open spec fn fits_i64(v: int) -> bool {
    i64::MIN <= v <= i64::MAX
}

/// With non-parallel buttons at most one pair of press counts lands on the prize.
pub proof fn lemma_landing_unique(m: &Machine, a1: int, b1: int, a2: int, b2: int)
    requires
        m.button_a.0 != 0,
        m.button_b.0 * m.button_a.1 - m.button_a.0 * m.button_b.1 != 0,
        lands(m, a1, b1),
        lands(m, a2, b2),
    ensures
        a1 == a2 && b1 == b2,
{
    let (ax, ay) = (m.button_a.0 as int, m.button_a.1 as int);
    let (bx, by) = (m.button_b.0 as int, m.button_b.1 as int);
    assert((a1 - a2) * ax + (b1 - b2) * bx == 0 && (a1 - a2) * ay + (b1 - b2) * by == 0) by (nonlinear_arith)
        requires
            a1 * ax + b1 * bx == m.prize.0,
            a1 * ay + b1 * by == m.prize.1,
            a2 * ax + b2 * bx == m.prize.0,
            a2 * ay + b2 * by == m.prize.1,
    ;
    assert((b1 - b2) * (bx * ay - ax * by) == 0) by (nonlinear_arith)
        requires
            (a1 - a2) * ax + (b1 - b2) * bx == 0,
            (a1 - a2) * ay + (b1 - b2) * by == 0,
    ;
    assert(b1 - b2 == 0) by (nonlinear_arith)
        requires
            (b1 - b2) * (bx * ay - ax * by) == 0,
            bx * ay - ax * by != 0,
    ;
    assert(a1 - a2 == 0) by (nonlinear_arith)
        requires
            (a1 - a2) * ax == 0,
            ax != 0,
    ;
}

impl Machine {
    /// Offsets below 2^20 and a non-negative prize, button A moving right, and the buttons
    /// not parallel: enough for exact arithmetic in 128 bits.
    pub open spec fn solvable_input(&self) -> bool {
        &&& 0 < self.button_a.0 < 0x10_0000
        &&& 0 <= self.button_a.1 < 0x10_0000
        &&& 0 <= self.button_b.0 < 0x10_0000
        &&& 0 <= self.button_b.1 < 0x10_0000
        &&& 0 <= self.prize.0
        &&& 0 <= self.prize.1
        &&& self.button_b.0 * self.button_a.1 - self.button_a.0 * self.button_b.1 != 0
    }

    /// Tokens for the presses that land on the prize, or zero when no whole numbers of
    /// presses do (or their token count does not fit an `i64`).
    pub fn min_tokens_to_win(&self) -> (r: i64)
        requires
            self.solvable_input(),
        ensures
            forall|a: int, b: int| #[trigger] lands(self, a, b) ==> r == if fits_i64(tokens(a, b)) {
                tokens(a, b)
            } else {
                0
            },
            !(exists|a: int, b: int| #[trigger] lands(self, a, b)) ==> r == 0,
    {
        let ax = self.button_a.0 as i128;
        let ay = self.button_a.1 as i128;
        let bx = self.button_b.0 as i128;
        let by = self.button_b.1 as i128;
        let zx = self.prize.0 as i128;
        let zy = self.prize.1 as i128;
        let ghost big: int = 0x10_0000int * 0x8000_0000_0000_0000int;
        proof {
            assert(0 <= ay * zx <= big) by (nonlinear_arith)
                requires
                    0 <= ay < 0x10_0000,
                    0 <= zx < 0x8000_0000_0000_0000,
                    big == 0x10_0000 * 0x8000_0000_0000_0000,
            ;
            assert(0 <= ax * zy <= big) by (nonlinear_arith)
                requires
                    0 <= ax < 0x10_0000,
                    0 <= zy < 0x8000_0000_0000_0000,
                    big == 0x10_0000 * 0x8000_0000_0000_0000,
            ;
            assert(0 <= bx * ay < 0x10_0000 * 0x10_0000) by (nonlinear_arith)
                requires
                    0 <= ay < 0x10_0000,
                    0 <= bx < 0x10_0000,
            ;
            assert(0 <= ax * by < 0x10_0000 * 0x10_0000) by (nonlinear_arith)
                requires
                    0 <= ax < 0x10_0000,
                    0 <= by < 0x10_0000,
            ;
        }
        let num = ay * zx - ax * zy;
        let det = bx * ay - ax * by;
        let n_abs: u128 = if num < 0 {
            (-num) as u128
        } else {
            num as u128
        };
        let d_abs: u128 = if det < 0 {
            (-det) as u128
        } else {
            det as u128
        };
        if n_abs % d_abs != 0 {
            proof {
                if exists|a: int, b: int| #[trigger] lands(self, a, b) {
                    let (a, b) = choose|a: int, b: int| #[trigger] lands(self, a, b);
                    lemma_exact(self, a, b, num as int, det as int);
                    let k = if (num < 0) == (det < 0) { abs(b) } else { -abs(b) };
                    assert(n_abs == abs(b) * d_abs) by (nonlinear_arith)
                        requires
                            num == b * det,
                            n_abs == abs(num as int),
                            d_abs == abs(det as int),
                    ;
                    lemma_divides(n_abs as int, d_abs as int, abs(b));
                }
            }
            return 0;
        }
        let q = n_abs / d_abs;
        proof {
            lemma_quotient(n_abs as int, d_abs as int);
            assert(q <= n_abs) by (nonlinear_arith)
                requires
                    q * d_abs == n_abs,
                    d_abs >= 1,
            ;
        }
        let b_presses: i128 = if (num < 0) != (det < 0) {
            -(q as i128)
        } else {
            q as i128
        };
        proof {
            assert(b_presses * det == num) by (nonlinear_arith)
                requires
                    q * d_abs == n_abs,
                    n_abs == abs(num as int),
                    d_abs == abs(det as int),
                    b_presses == if (num < 0) != (det < 0) { -q } else { q as int },
            ;
            assert(-big * 0x10_0000 <= bx * b_presses <= big * 0x10_0000) by (nonlinear_arith)
                requires
                    0 <= bx < 0x10_0000,
                    -big <= b_presses <= big,
            ;
        }
        let rest = zx - bx * b_presses;
        let r_abs: u128 = if rest < 0 {
            (-rest) as u128
        } else {
            rest as u128
        };
        let ax_u = ax as u128;
        if r_abs % ax_u != 0 {
            proof {
                if exists|a: int, b: int| #[trigger] lands(self, a, b) {
                    let (a, b) = choose|a: int, b: int| #[trigger] lands(self, a, b);
                    lemma_exact(self, a, b, num as int, det as int);
                    lemma_same_b(b, b_presses as int, det as int, num as int);
                    assert(r_abs == abs(a) * ax_u) by (nonlinear_arith)
                        requires
                            rest == a * ax,
                            r_abs == abs(rest as int),
                            ax_u == ax,
                            ax > 0,
                    ;
                    lemma_divides(r_abs as int, ax_u as int, abs(a));
                }
            }
            return 0;
        }
        let qa = r_abs / ax_u;
        proof {
            lemma_quotient(r_abs as int, ax_u as int);
            assert(qa <= r_abs) by (nonlinear_arith)
                requires
                    qa * ax_u == r_abs,
                    ax_u >= 1,
            ;
        }
        let a_presses: i128 = if rest < 0 {
            -(qa as i128)
        } else {
            qa as i128
        };
        proof {
            assert(a_presses * ax == rest) by (nonlinear_arith)
                requires
                    qa * ax_u == r_abs,
                    r_abs == abs(rest as int),
                    ax_u == ax,
                    a_presses == if rest < 0 { -qa } else { qa as int },
            ;
            assert(-big * 0x10_0000 * 0x10_0000 <= a_presses * ay <= big * 0x10_0000 * 0x10_0000) by (nonlinear_arith)
                requires
                    0 <= ay < 0x10_0000,
                    -big * 0x10_0000 - big <= a_presses <= big * 0x10_0000 + big,
            ;
            assert(-big * 0x10_0000 <= b_presses * by <= big * 0x10_0000) by (nonlinear_arith)
                requires
                    0 <= by < 0x10_0000,
                    -big <= b_presses <= big,
            ;
        }
        let ry = a_presses * ay + b_presses * by;
        let landed = ry == zy;
        proof {
            if landed {
                assert(a_presses * ax + b_presses * bx == zx) by (nonlinear_arith)
                    requires
                        a_presses * ax == rest,
                        rest == zx - bx * b_presses,
                ;
                assert(lands(self, a_presses as int, b_presses as int));
                assert forall|a: int, b: int| #[trigger] lands(self, a, b) implies a == a_presses && b == b_presses by {
                    lemma_landing_unique(self, a, b, a_presses as int, b_presses as int);
                }
            } else {
                if exists|a: int, b: int| #[trigger] lands(self, a, b) {
                    let (a, b) = choose|a: int, b: int| #[trigger] lands(self, a, b);
                    lemma_exact(self, a, b, num as int, det as int);
                    lemma_same_b(b, b_presses as int, det as int, num as int);
                    assert(a == a_presses) by (nonlinear_arith)
                        requires
                            a * ax == rest,
                            a_presses * ax == rest,
                            ax > 0,
                    ;
                }
            }
        }
        if !landed {
            return 0;
        }
        let t = a_presses * 3 + b_presses;
        if t > 0x7fff_ffff_ffff_ffff || t < -0x8000_0000_0000_0000 {
            return 0;
        }
        t as i64
    }
}

pub open spec fn abs(x: int) -> int {
    if x < 0 {
        -x
    } else {
        x
    }
}

/// Two multipliers of the same non-zero determinant that give the same product agree.
proof fn lemma_same_b(b1: int, b2: int, det: int, num: int)
    requires
        det != 0,
        num == b1 * det,
        b2 * det == num,
    ensures
        b1 == b2,
{
    assert((b1 - b2) * det == 0) by (nonlinear_arith)
        requires
            num == b1 * det,
            b2 * det == num,
    ;
    assert(b1 - b2 == 0) by (nonlinear_arith)
        requires
            (b1 - b2) * det == 0,
            det != 0,
    ;
}

/// For a landing pair, `b` times the determinant is `num`.
proof fn lemma_exact(m: &Machine, a: int, b: int, num: int, det: int)
    requires
        lands(m, a, b),
        num == m.button_a.1 * m.prize.0 - m.button_a.0 * m.prize.1,
        det == m.button_b.0 * m.button_a.1 - m.button_a.0 * m.button_b.1,
    ensures
        num == b * det,
        m.prize.0 - m.button_b.0 * b == a * m.button_a.0,
{
    let (ax, ay) = (m.button_a.0 as int, m.button_a.1 as int);
    let (bx, by) = (m.button_b.0 as int, m.button_b.1 as int);
    let (zx, zy) = (m.prize.0 as int, m.prize.1 as int);
    assert(ay * zx - ax * zy == b * (bx * ay - ax * by)) by (nonlinear_arith)
        requires
            a * ax + b * bx == zx,
            a * ay + b * by == zy,
    ;
}

/// The quotient of an exact division times the divisor gives back the dividend.
proof fn lemma_quotient(x: int, d: int)
    requires
        x >= 0,
        d > 0,
        x % d == 0,
    ensures
        (x / d) * d == x,
        x / d >= 0,
{
    vstd::arithmetic::div_mod::lemma_fundamental_div_mod(x, d);
    assert(d * (x / d) == (x / d) * d) by (nonlinear_arith);
    vstd::arithmetic::div_mod::lemma_div_pos_is_pos(x, d);
}

/// A multiple of `d` leaves no remainder.
proof fn lemma_divides(x: int, d: int, k: int)
    requires
        d > 0,
        x == k * d,
    ensures
        x % d == 0,
{
    vstd::arithmetic::div_mod::lemma_fundamental_div_mod_converse(x, d, k, 0);
}

} // verus!
