//! Area ratios and reflection coefficients: (1 + k) / (1 - k) undoes
//! (p - 1) / (p + 1).
use crate::binary32::Binary32;
use crate::lpc10::quant;
use crate::math;
use crate::order;
use crate::reals;
use crate::rounding;
use vstd::arithmetic::power2::*;
use vstd::prelude::*;

verus! {

/// A quotient of at most one in size, of either sign.
proof fn lemma_signed_share(a: Binary32, b: Binary32)
    requires
        a.finite(),
        b.finite(),
        a.div(b).finite(),
        b.value() > 0,
        a.size() <= b.size(),
    ensures
        reals::num(b) > 0 as real,
        reals::near(
            reals::num(a.div(b)),
            reals::num(a) / reals::num(b),
            reals::eps() + reals::ratio(1, 0x1_0000_0000_0000),
        ),
{
    reals::lemma_eps();
    reals::lemma_num(a);
    reals::lemma_num(b);
    reals::lemma_num(a.div(b));
    let x = reals::num(a);
    let y = reals::num(b);
    let u = pow2(149) as real;
    reals::lemma_unit();
    let m = a.neg();
    order::lemma_neg(a);
    reals::lemma_num(m);
    assert(reals::num(m) == -x) by (nonlinear_arith)
        requires
            reals::num(m) * u == -(x * u),
            u > 0 as real,
    ;
    assert(y > 0 as real && x <= y && -x <= y) by (nonlinear_arith)
        requires
            y * u > 0 as real,
            x * u <= y * u,
            -(x * u) <= y * u,
            u > 0 as real,
    ;
    let t = x / y;
    assert(t * y == x) by (nonlinear_arith)
        requires
            t == x / y,
            y > 0 as real,
    ;
    assert(-(1 as real) <= t <= 1 as real) by (nonlinear_arith)
        requires
            t * y == x,
            x <= y,
            -x <= y,
            y > 0 as real,
    ;
    reals::lemma_eps_of(t);
    if a.value() >= 0 {
        reals::lemma_num_div(a, b);
    } else {
        reveal(Binary32::spec_div);
        rounding::lemma_magnitude_zero();
        let bits = rounding::round_ratio(a.size() * pow2(149), b.size());
        order::lemma_rounded(true, a.size() * pow2(149), b.size(), a);
        order::lemma_rounded(false, a.size() * pow2(149), b.size(), a);
        rounding::lemma_round_ratio_bound(a.size() * pow2(149), b.size(), a.pattern());
        order::lemma_signed(true, bits);
        order::lemma_signed(false, bits);
        assert(m.div(b).value() == -a.div(b).value());
        reals::lemma_num_div(m, b);
        reals::lemma_num(m.div(b));
        let g = reals::num(m.div(b));
        let h = reals::num(a.div(b));
        assert(g == -h) by (nonlinear_arith)
            requires
                g * u == -(h * u),
                u > 0 as real,
        ;
        let nt = -x / y;
        assert(nt == -t) by (nonlinear_arith)
            requires
                nt == -x / y,
                t == x / y,
                y > 0 as real,
        ;
        reals::lemma_eps_of(-t);
        assert(reals::num(m) / y == nt);
    }
}

/// The ratio of a coefficient, where 1 - k or 1 + k may be small.
proof fn lemma_returned(big: real, k: real, x: real, y: real, q: real, e: real)
    requires
        0x100_0000 as real * e == 1 as real,
        1 as real / 256 as real <= big <= 257 as real,
        k * (big + 1 as real) == big - 1 as real,
        reals::near(x, 1 as real + k, 4 as real * e + e * (1 as real + k)),
        reals::near(y, 1 as real - k, 4 as real * e + e * (1 as real - k)),
        q * y == x,
        x > 0 as real,
        y > 0 as real,
    ensures
        reals::near(q * 25_000 as real, big * 25_000 as real, big),
{
    let up = 1 as real + k;
    let down = 1 as real - k;
    let n = big + 1 as real;
    assert(up * n == 2 as real * big && down * n == 2 as real) by (nonlinear_arith)
        requires
            k * n == big - 1 as real,
            up == 1 as real + k,
            down == 1 as real - k,
            n == big + 1 as real,
    ;
    assert(up == big * down) by (nonlinear_arith)
        requires
            up * n == 2 as real * big,
            down * n == 2 as real,
            n > 0 as real,
    ;
    assert(down * 129 as real >= 1 as real && down <= 2 as real) by (nonlinear_arith)
        requires
            down * n == 2 as real,
            1 as real <= n <= 258 as real,
    ;
    assert(up + down == 2 as real);
    // How far off each is, in parts of itself.
    let dx = x - up;
    let dy = y - down;
    // (q - big) y = dx - big dy
    let off = q - big;
    assert(off * y == dx - big * dy) by (nonlinear_arith)
        requires
            off == q - big,
            q * y == x,
            dx == x - up,
            dy == y - down,
            up == big * down,
    ;
    let a = 4 as real * e;
    assert(e * up == e * (big * down) && e * up >= 0 as real && e * down >= 0 as real)
        by (nonlinear_arith)
        requires
            up == big * down,
            e > 0 as real,
            big > 0 as real,
            down > 0 as real,
    ;
    let ed = e * down;
    assert(-(big * (a + ed)) <= big * dy <= big * (a + ed)) by (nonlinear_arith)
        requires
            -(a + ed) <= dy <= a + ed,
            big > 0 as real,
    ;
    let bd = big * down;
    assert(big * (a + ed) == a * big + e * bd) by (nonlinear_arith)
        requires
            ed == e * down,
            bd == big * down,
    ;
    // Together at most a (1 + big) + 2 e up, and 1 + big is 2 / down.
    let total = a * n + 2 as real * (e * bd);
    assert(-total <= off * y <= total) by (nonlinear_arith)
        requires
            off * y == dx - big * dy,
            -(a + e * bd) <= dx <= a + e * bd,
            -(a * big + e * bd) <= big * dy <= a * big + e * bd,
            total == a * n + 2 as real * (e * bd),
            n == big + 1 as real,
    ;
    // Times n, where n y is all but two and n n at most 260 big.
    assert((big - 257 as real) * (256 as real * big - 1 as real) <= 0 as real) by (nonlinear_arith)
        requires
            256 as real * big >= 1 as real,
            big <= 257 as real,
    ;
    let n2 = n * n;
    assert(n2 <= 260 as real * big) by (nonlinear_arith)
        requires
            n2 == n * n,
            n == big + 1 as real,
            (big - 257 as real) * (256 as real * big - 1 as real) <= 0 as real,
            256 as real * big >= 1 as real,
    ;
    let eb = e * big;
    assert(bd * n == 2 as real * big);
    assert(total * n == a * n2 + 2 as real * (e * (bd * n))) by (nonlinear_arith)
        requires
            total == a * n + 2 as real * (e * bd),
            n2 == n * n,
    ;
    assert(e * (bd * n) == 2 as real * eb) by (nonlinear_arith)
        requires
            bd * n == 2 as real * big,
            eb == e * big,
    ;
    assert(a * n2 <= 1040 as real * eb) by (nonlinear_arith)
        requires
            a == 4 as real * e,
            n2 <= 260 as real * big,
            eb == e * big,
            e > 0 as real,
    ;
    let ny = n * y;
    assert(ny >= 2 as real - a * n - e * (2 as real)) by (nonlinear_arith)
        requires
            ny == n * y,
            y >= down - a - e * down,
            down * n == 2 as real,
            n > 0 as real,
    ;
    assert(a * n <= 1040 as real * e) by (nonlinear_arith)
        requires
            a == 4 as real * e,
            n <= 260 as real,
            e > 0 as real,
    ;
    let c = big / 25_000 as real;
    assert(c * ny >= 199 as real / 100 as real * c) by (nonlinear_arith)
        requires
            ny >= 199 as real / 100 as real,
            c > 0 as real,
    ;
    assert(0x100_0000 as real * eb == big) by (nonlinear_arith)
        requires
            eb == e * big,
            0x100_0000 as real * e == 1 as real,
    ;
    assert((c * y) * n == c * ny) by (nonlinear_arith)
        requires
            ny == n * y,
    ;
    assert(total <= c * y) by (nonlinear_arith)
        requires
            total * n <= (c * y) * n,
            n > 0 as real,
    ;
    assert(off <= c) by (nonlinear_arith)
        requires
            off * y <= c * y,
            y > 0 as real,
    ;
    assert(-off <= c) by (nonlinear_arith)
        requires
            -(off * y) <= c * y,
            y > 0 as real,
    ;
}

/// The ratio of the coefficient of a ratio is that ratio, to one part in
/// 24000, and the clamp does not touch it.
pub proof fn lemma_ratio_returns(p: Binary32)
    requires
        p.finite(),
        pow2(141) <= p.value() <= 257 * pow2(149),
    ensures
        ({
            let one = Binary32::from_bits(math::ONE);
            let k = p.sub(one).div(p.add(one));
            let r = one.add(k).div(one.sub(k));
            &&& k.clamp(
                Binary32::from_bits(quant::MINUS_LAR_CLAMP),
                Binary32::from_bits(quant::LAR_CLAMP),
            ) == k
            &&& r.finite()
            &&& r.value() >= pow2(140)
            &&& -p.value() <= 24_000 * (r.value() - p.value()) <= p.value()
        }),
{
    let one = Binary32::from_bits(math::ONE);
    let unit = pow2(149);
    let a = p.sub(one);
    let b = p.add(one);
    let k = a.div(b);
    let e = reals::eps();
    reals::lemma_eps();
    reals::lemma_unit();
    lemma2_to64();
    lemma_pow2_adds(141, 8);
    lemma_pow2_adds(149, 10);
    lemma_pow2_unfold(141);
    lemma_pow2_pos(141);
    lemma_pow2_pos(140);
    order::lemma_power(149);
    order::lemma_neg(one);
    quant::lemma_from_lar(p);
    order::lemma_within_weaken(one, 149, 159);
    order::lemma_within_add(p, one, 159);
    order::lemma_within_add(p, one.neg(), 159);
    order::lemma_add_error(p, one);
    order::lemma_add_error(p, one.neg());
    reals::lemma_num_order(one, 1);
    reals::lemma_num_order(one.neg(), -1);
    let big = reals::num(p);
    reals::lemma_num(p);
    reals::lemma_num_order(p, 257);
    let u = unit as real;
    assert(256 as real * big >= 1 as real) by (nonlinear_arith)
        requires
            256 as real * (big * u) >= u,
            u > 0 as real,
    ;
    reals::lemma_num_add(p, one.neg());
    reals::lemma_num_add(p, one);
    reals::lemma_eps_of(big - 1 as real);
    reals::lemma_eps_of(big + 1 as real);
    lemma_signed_share(a, b);
    let x = reals::num(a);
    let y = reals::num(b);
    let n = big + 1 as real;
    let kr = (big - 1 as real) / n;
    assert(kr * n == big - 1 as real) by (nonlinear_arith)
        requires
            kr == (big - 1 as real) / n,
            n > 0 as real,
    ;
    let q = x / y;
    assert(q * y == x) by (nonlinear_arith)
        requires
            q == x / y,
            y > 0 as real,
    ;
    // q - kr, times y.
    let off = q - kr;
    let dx = x - (big - 1 as real);
    let dy = y - n;
    assert(off * y == dx - kr * dy) by (nonlinear_arith)
        requires
            off == q - kr,
            q * y == x,
            kr * n == big - 1 as real,
            dx == x - (big - 1 as real),
            dy == y - n,
    ;
    assert(-(1 as real) <= kr <= 1 as real) by (nonlinear_arith)
        requires
            kr * n == big - 1 as real,
            n == big + 1 as real,
            big > 0 as real,
    ;
    let en = e * n;
    assert(-en <= dy <= en);
    assert(-en <= kr * dy <= en) by (nonlinear_arith)
        requires
            -(1 as real) <= kr <= 1 as real,
            -en <= dy <= en,
    ;
    assert(-en <= dx <= en) by {
        assert(e * (big - 1 as real) <= en && -(e * (big - 1 as real)) <= en) by (nonlinear_arith)
            requires
                en == e * n,
                n == big + 1 as real,
                e > 0 as real,
                big > 0 as real,
        ;
    }
    let ey = e * y;
    reals::lemma_eps_of(y);
    assert(2 as real * en <= 5 as real / 2 as real * ey) by {
        assert(8 as real * n <= 9 as real * y);
        reals::lemma_eps_of(n);
    }
    let lim = 5 as real / 2 as real * e;
    assert(lim * y == 5 as real / 2 as real * ey) by (nonlinear_arith)
        requires
            lim == 5 as real / 2 as real * e,
            ey == e * y,
    ;
    assert(off <= lim && -off <= lim) by (nonlinear_arith)
        requires
            off * y <= lim * y,
            -(off * y) <= lim * y,
            y > 0 as real,
    ;
    let kn = reals::num(k);
    assert(reals::near(kn, kr, 4 as real * e));
    // The clamp.
    assert(1000 as real * kr <= 993 as real && -(1000 as real * kr) <= 993 as real)
        by (nonlinear_arith)
        requires
            kr * n == big - 1 as real,
            n == big + 1 as real,
            256 as real * big >= 1 as real,
            big <= 257 as real,
    ;
    reals::lemma_num(k);
    assert(1000 as real * (kn * u) <= 998 as real * u && -(1000 as real * (kn * u)) <= 998 as real * u)
        by (nonlinear_arith)
        requires
            1000 as real * kn <= 998 as real,
            -(1000 as real * kn) <= 998 as real,
            u > 0 as real,
    ;
    lemma_clamp(k);
    // One plus, one minus.
    let up = one.add(k);
    let down = one.sub(k);
    order::lemma_neg(k);
    lemma_pow2_pos(139);
    lemma_pow2_unfold(150);
    order::lemma_within_add(one, k, 149);
    order::lemma_within_add(one, k.neg(), 149);
    reals::lemma_num(k);
    reals::lemma_num(k.neg());
    assert(reals::num(k.neg()) == -kn) by (nonlinear_arith)
        requires
            reals::num(k.neg()) * u == -(kn * u),
            u > 0 as real,
    ;
    reals::lemma_num_add(one, k);
    reals::lemma_num_add(one, k.neg());
    reals::lemma_eps_of(1 as real + kn);
    reals::lemma_eps_of(1 as real - kn);
    reals::lemma_eps_of(1 as real + kr);
    reals::lemma_eps_of(1 as real - kr);
    order::lemma_add_error(one, k);
    order::lemma_add_error(one, k.neg());
    reals::lemma_num(up);
    reals::lemma_num(down);
    let ux = reals::num(up);
    let uy = reals::num(down);
    assert(ux > 0 as real) by (nonlinear_arith)
        requires
            ux * u > 0 as real,
            u > 0 as real,
    ;
    assert(uy > 0 as real) by (nonlinear_arith)
        requires
            uy * u > 0 as real,
            u > 0 as real,
    ;
    let ratio = ux / uy;
    assert(ratio * uy == ux) by (nonlinear_arith)
        requires
            ratio == ux / uy,
            uy > 0 as real,
    ;
    lemma_rounded_sum(kn, kr, ux, e);
    lemma_rounded_sum(-kn, -kr, uy, e);
    lemma_returned(big, kr, ux, uy, ratio, e);
    // The quotient, rounded.
    let r = up.div(down);
    order::lemma_power(139);
    order::lemma_sub(one, k, order::power(139));
    order::lemma_within_div(up, down, 150, 139);
    reals::lemma_num_div(up, down);
    reals::lemma_eps_of(ratio);
    let rn = reals::num(r);
    reals::lemma_num(r);
    let d = 24_000 as real * (rn - big);
    assert(-big <= d <= big);
    assert(d * u == 24_000 as real * (rn * u - big * u)) by (nonlinear_arith)
        requires
            d == 24_000 as real * (rn - big),
    ;
    assert(-(big * u) <= d * u <= big * u) by (nonlinear_arith)
        requires
            -big <= d <= big,
            u > 0 as real,
    ;
}

/// One plus a number, with its error in terms of the exact one.
proof fn lemma_rounded_sum(kn: real, kr: real, x: real, e: real)
    requires
        0x100_0000 as real * e == 1 as real,
        e == reals::eps(),
        reals::near(kn, kr, 7 as real / 2 as real * e + reals::ratio(1, 0x1_0000_0000_0000)),
        reals::near(x, 1 as real + kn, e * (1 as real + kn)),
    ensures
        reals::near(x, 1 as real + kr, 4 as real * e + e * (1 as real + kr)),
{
    reals::lemma_eps();
    reals::lemma_eps_of(1 as real + kn);
    reals::lemma_eps_of(1 as real + kr);
}

/// The clamp of the log area ratios leaves what lies two thousandths inside.
proof fn lemma_clamp(k: Binary32)
    requires
        k.finite(),
        1000 * k.size() <= 998 * pow2(149),
    ensures
        k.clamp(
            Binary32::from_bits(quant::MINUS_LAR_CLAMP),
            Binary32::from_bits(quant::LAR_CLAMP),
        ) == k,
{
    let high = Binary32::from_bits(quant::LAR_CLAMP);
    let low = Binary32::from_bits(quant::MINUS_LAR_CLAMP);
    lemma2_to64();
    Binary32::lemma_value_of(high, 126, 0x7f_be77);
    Binary32::lemma_value_of(low, 126, 0x7f_be77);
    lemma_pow2_adds(125, 24);
    lemma_pow2_pos(125);
    assert(1000 * high.size() >= 998 * pow2(149)) by (nonlinear_arith)
        requires
            high.size() == (0x80_0000 + 0x7f_be77) * pow2(125),
            pow2(149) == pow2(125) * 0x100_0000,
    ;
}

} // verus!
