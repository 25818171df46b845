//! The result of querying one DNS server: either a list of IPv4 addresses or
//! a classified error. Addresses are carried as `u32` values (the four octets
//! packed big-endian), so that contracts can speak of them as plain integers.

use vstd::prelude::*;

verus! {

/// Why a per-server query failed. The three classes are reported separately:
/// a timeout, an actively refused connection, and everything else (malformed
/// response, network unreachable, ...).
#[derive(Clone, Copy, Debug, PartialEq, Eq, Structural)]
pub enum ErrorKind {
    Timeout,
    ConnectionRefused,
    Other,
}

/// What one dispatched query produced: the addresses a server answered with,
/// or a classified error. Exactly one of these exists per queried server.
#[derive(Clone, Debug)]
pub enum QueryOutcome {
    Success(Vec<u32>),
    Failure(ErrorKind),
}

/// The four buckets a completed query falls into for the summary counters.
#[derive(Clone, Copy, Debug, PartialEq, Eq, Structural)]
pub enum OutcomeClass {
    Response,
    Timeout,
    Refused,
    Other,
}

/// The bucket a given outcome lands in: every outcome lands in exactly one.
pub open spec fn class_of(o: QueryOutcome) -> OutcomeClass {
    match o {
        QueryOutcome::Success(_) => OutcomeClass::Response,
        QueryOutcome::Failure(ErrorKind::Timeout) => OutcomeClass::Timeout,
        QueryOutcome::Failure(ErrorKind::ConnectionRefused) => OutcomeClass::Refused,
        QueryOutcome::Failure(ErrorKind::Other) => OutcomeClass::Other,
    }
}

/// The addresses an outcome contributes to the aggregate: a success
/// contributes its list, an error contributes nothing.
pub open spec fn addresses_of(o: QueryOutcome) -> Seq<u32> {
    match o {
        QueryOutcome::Success(v) => v@,
        QueryOutcome::Failure(_) => Seq::<u32>::empty(),
    }
}

/// An IPv4 address `a.b.c.d` as the packed integer
/// `a * 2^24 + b * 2^16 + c * 2^8 + d`.
pub open spec fn ipv4_of(a: u8, b: u8, c: u8, d: u8) -> int {
    (a as int) * 0x1000000 + (b as int) * 0x10000 + (c as int) * 0x100 + (d as int)
}

/// Packs four dotted-quad octets into the `u32` form the engine works on.
pub fn ipv4_value(a: u8, b: u8, c: u8, d: u8) -> (r: u32)
    ensures
        r == ipv4_of(a, b, c, d),
{
    (a as u32) * 0x1000000 + (b as u32) * 0x10000 + (c as u32) * 0x100 + (d as u32)
}

} // verus!
