//! Bounds on the polynomials of the exponential and the logarithm.
//!
//! Each is a statement about one real variable on a short interval, with the
//! coefficients written out.
use vstd::prelude::*;

verus! {

/// The exponential undoes the logarithm, from below.
pub proof fn lemma_exp_log_low(z: real)
    by (nonlinear_arith)
    requires
        0 as real <= z <= 1 as real / 3 as real,
    ensures
        ({
            let a = z * (1 as real + z * z * (1 as real / 3 as real + z * z * (1 as real / 5 as real
                + z * z * (1 as real / 7 as real))));
            let t = 2 as real * a;
            let e = 1 as real + t * (1 as real + t / 2 as real * (1 as real + t / 3 as real * (
            1 as real + t / 4 as real * (1 as real + t / 5 as real * (1 as real + t
                / 6 as real)))));
            e * (1 as real - z) >= (1 as real + z) * (1 as real - 1 as real / 10000 as real)
        }),
{
}

/// The exponential undoes the logarithm, from above.
pub proof fn lemma_exp_log_high(z: real)
    by (nonlinear_arith)
    requires
        0 as real <= z <= 1 as real / 3 as real,
    ensures
        ({
            let a = z * (1 as real + z * z * (1 as real / 3 as real + z * z * (1 as real / 5 as real
                + z * z * (1 as real / 7 as real))));
            let t = 2 as real * a;
            let e = 1 as real + t * (1 as real + t / 2 as real * (1 as real + t / 3 as real * (
            1 as real + t / 4 as real * (1 as real + t / 5 as real * (1 as real + t
                / 6 as real)))));
            e * (1 as real - z) <= (1 as real + z) * (1 as real + 1 as real / 10000 as real)
        }),
{
}

} // verus!
