//! Fixed-width unsigned integers whose width is any positive multiple of eight
//! bits, stored as a most-significant-first sequence of native-word limbs.
//!
//! Arithmetic on the operator traits is strict: verified callers must show that
//! `+`, `-` and `*` do not overflow and that `/` and `%` do not divide by zero.
//! Unverified callers that break this get the wrapped result of the
//! `overflowing_*` methods for `+`, `-` and `*`; `checked_div` and `checked_rem`
//! reject a zero divisor at run time.
pub mod bytes;
pub mod limbs;
pub mod plan;
pub mod uint;

pub use plan::{checked_limb_plan, limb_plan};
pub use uint::{
    u1024, u2048, u24, u256, u4096, u48, u512, u80, BitUint, W1024, W2048, W24, W256, W4096, W48,
    W512, W80, Width,
};
