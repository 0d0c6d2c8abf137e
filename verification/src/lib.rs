//! Arbitrary-precision signed integers in a sign-magnitude representation.
//!
//! A value is a vector of base-`B` limbs (least significant first, each limb
//! in `[0, B)` with `B = 2^62`) together with a sign in `{-1, 0, +1}`.  Every
//! public operation returns a freshly normalized value and carries a contract
//! that pins its mathematical result down exactly.

pub mod bigint;
pub mod arith;
pub mod bits;
pub mod bitwise;
pub mod digits;
pub mod divmod;
pub mod laws;
pub mod magops;
pub mod mul;
pub mod normal;
pub mod shift;
pub mod text;

pub use arith::add;
pub use arith::addsub;
pub use arith::sub;
pub use bigint::BigInt;
pub use bigint::MpError;
pub use bigint::neg;
pub use bitwise::bitand;
pub use bitwise::bitor;
pub use bitwise::bitxor;
pub use digits::B;
pub use divmod::divmod;
pub use mul::mul;
pub use shift::shl;
pub use shift::shr;
pub use shift::SHL_MAX;
pub use text::build_bigint;
pub use text::build_bigint_bin;
