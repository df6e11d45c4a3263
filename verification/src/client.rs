//! Clients and their running positions.

use vstd::prelude::*;

verus! {

/// A client identifier.
pub type Client = u16;

/// Monetary amounts are fixed-point numbers held in ten-thousandths, i.e. an
/// `i64` value of `x` stands for the decimal amount `x / 10_000`, which keeps
/// four decimal digits of precision exactly.
pub const AMOUNT_LIMIT: i64 = 1_000_000_000_000_000_000;

/// True when `a` is a representable amount: bounded so that the handful of
/// additions a single transaction performs can never leave the `i64` range.
pub open spec fn amount_in_range(a: int) -> bool {
    -AMOUNT_LIMIT <= a <= AMOUNT_LIMIT
}

/// A client's running position. All monetary fields are fixed-point
/// ten-thousandths; a well-formed stored position always satisfies
/// `total == available + held`.
#[derive(Debug, Clone, Copy, PartialEq, Eq, Structural)]
pub struct ClientPosition {
    pub client: Client,
    pub total: i64,
    pub available: i64,
    pub held: i64,
    pub locked: bool,
}

impl Default for ClientPosition {
    /// The zero position of client 0.
    fn default() -> (r: Self)
        ensures
            r == (ClientPosition { client: 0, total: 0, available: 0, held: 0, locked: false }),
    {
        ClientPosition { client: 0, total: 0, available: 0, held: 0, locked: false }
    }
}

} // verus!
