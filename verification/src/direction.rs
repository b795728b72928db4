//! Direction of an intercepted call. Plain constants: every bit pattern that the
//! kernel could write is a valid value.

use vstd::prelude::*;

verus! {

/// Plaintext handed to `SSL_write`.
pub const WRITE: u8 = 0;

/// Plaintext produced by `SSL_read`.
pub const READ: u8 = 1;

} // verus!
