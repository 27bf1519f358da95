use vstd::prelude::*;

verus! {

/// Decides whether a new reservation of `declared_size` bytes fits under the
/// storage quota: the measured on-disk usage plus the in-flight reserved
/// total plus the declared size must be strictly below the configured
/// maximum. A request that would exactly fill the quota is rejected.
pub fn fits_quota(
    data_dir_size: u64,
    in_flight: usize,
    declared_size: usize,
    max_total: usize,
) -> (r: bool)
    ensures
        r == (data_dir_size + in_flight + declared_size < max_total),
{
    (data_dir_size as u128) + (in_flight as u128) + (declared_size as u128) < (max_total as u128)
}

} // verus!
