//! Analysis of equal-division musical tunings: enumeration of the
//! lowest-complexity coprime frequency ratios for a given base, ranked by a
//! least-common-multiple complexity key, and a continuous variant ranked by
//! the reciprocal weight. The floating-point scale construction and scoring
//! that consume these ratios live outside the verified core.

pub mod arith;
pub mod continuous;
pub mod ratios;
