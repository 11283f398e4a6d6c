//! Integer rules of the variance-reduction estimators.

use vstd::prelude::*;

verus! {

/// Samples given to each stratum when `total_samples` are shared among
/// `n_strata` strata: an even share, and at least one.
pub open spec fn stratum_share(total_samples: nat, n_strata: nat) -> nat {
    if total_samples / n_strata >= 1 {
        total_samples / n_strata
    } else {
        1
    }
}

/// The share is the largest per-stratum count that fits the total when the
/// total covers every stratum once, and one otherwise.
pub proof fn lemma_stratum_share_fits(total_samples: nat, n_strata: nat)
    requires
        n_strata > 0,
    ensures
        total_samples >= n_strata ==> stratum_share(total_samples, n_strata) * n_strata <= total_samples,
        total_samples >= n_strata ==> total_samples < (stratum_share(total_samples, n_strata) + 1) * n_strata,
        total_samples < n_strata ==> stratum_share(total_samples, n_strata) == 1,
{
    let q = total_samples / n_strata;
    vstd::arithmetic::div_mod::lemma_fundamental_div_mod(total_samples as int, n_strata as int);
    vstd::arithmetic::div_mod::lemma_mod_pos_bound(total_samples as int, n_strata as int);
    assert(q * n_strata == n_strata * q) by (nonlinear_arith);
    assert((q + 1) * n_strata == n_strata * q + n_strata) by (nonlinear_arith);
    if total_samples >= n_strata {
        vstd::arithmetic::div_mod::lemma_div_non_zero(total_samples as int, n_strata as int);
    } else {
        vstd::arithmetic::div_mod::lemma_basic_div(total_samples as int, n_strata as int);
    }
}

/// Number of samples each stratum gets when `total_samples` are split over
/// `n_strata` strata (at least one each).
pub fn samples_per_stratum(total_samples: usize, n_strata: usize) -> (r: usize)
    requires
        n_strata > 0,
    ensures
        r == stratum_share(total_samples as nat, n_strata as nat),
        r >= 1,
        total_samples >= n_strata ==> r * n_strata <= total_samples,
        total_samples >= n_strata ==> total_samples < (r + 1) * n_strata,
        total_samples < n_strata ==> r == 1,
{
    proof {
        lemma_stratum_share_fits(total_samples as nat, n_strata as nat);
    }
    let share = total_samples / n_strata;
    proof {
        vstd::arithmetic::div_mod::lemma_fundamental_div_mod(total_samples as int, n_strata as int);
        vstd::arithmetic::div_mod::lemma_mod_pos_bound(total_samples as int, n_strata as int);
        assert(share * n_strata == n_strata * share) by (nonlinear_arith);
        if total_samples >= n_strata {
            vstd::arithmetic::div_mod::lemma_div_non_zero(total_samples as int, n_strata as int);
        }
    }
    if share >= 1 {
        share
    } else {
        1
    }
}

} // verus!
