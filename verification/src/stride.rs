//! The static division of the port space among workers.
//!
//! Worker `i` of `n` owns the ports `i`, `i + n`, `i + 2n`, ... below
//! [`PORT_LIMIT`]. Ownership is fixed before a scan starts and never
//! changes; no worker touches a port of another.

use vstd::arithmetic::div_mod::{
    lemma_fundamental_div_mod,
    lemma_fundamental_div_mod_converse,
    lemma_mod_bound,
    lemma_mod_multiples_vanish,
};
use vstd::prelude::*;

verus! {

/// The highest port number.
pub const MAX_PORT: u16 = 65535;

/// One past the highest port number: the number of ports.
pub const PORT_LIMIT: u32 = 65536;

/// Whether `port` lies on the stride that begins at `start` and advances
/// by `step`.
pub open spec fn in_stride(start: int, step: int, port: int) -> bool {
    &&& 0 <= start <= port < PORT_LIMIT
    &&& (port - start) % step == 0
}

/// The port that follows `port` on a stride of width `step`, if the stride
/// has not run out of the port space.
pub open spec fn successor(port: int, step: int) -> Option<u16> {
    if port + step < PORT_LIMIT {
        Some((port + step) as u16)
    } else {
        None
    }
}

/// Computes the port after `port` on a stride of width `step`.
pub fn next_port(port: u16, step: u16) -> (next: Option<u16>)
    ensures
        next == successor(port as int, step as int),
{
    port.checked_add(step)
}

/// With `workers` workers, every port belongs to exactly one stride: that
/// of the worker whose index is the port's remainder modulo `workers`.
/// Together the strides cover the whole port space, and no two of them
/// share a port.
pub proof fn lemma_stride_partition(workers: int, port: int)
    requires
        1 <= workers,
        0 <= port < PORT_LIMIT,
    ensures
        0 <= port % workers < workers,
        in_stride(port % workers, workers, port),
        forall|i: int| 0 <= i < workers && in_stride(i, workers, port) ==> i == port % workers,
{
    lemma_mod_bound(port, workers);
    lemma_fundamental_div_mod(port, workers);
    lemma_mod_multiples_vanish(port / workers, 0, workers);
    assert forall|i: int| 0 <= i < workers && in_stride(i, workers, port) implies i == port
        % workers by {
        lemma_stride_owner(workers, i, port);
    }
}

/// A port on the stride of worker `index` leaves the remainder `index`
/// when divided by the number of workers.
pub proof fn lemma_stride_owner(workers: int, index: int, port: int)
    requires
        0 <= index < workers,
        in_stride(index, workers, port),
    ensures
        port % workers == index,
{
    let q = (port - index) / workers;
    lemma_fundamental_div_mod(port - index, workers);
    assert(workers * q == q * workers) by (nonlinear_arith);
    lemma_fundamental_div_mod_converse(port, workers, q, index);
}

/// The port after one on a stride lies on the same stride, and the stride
/// has nothing in between.
pub proof fn lemma_successor_in_stride(start: int, step: int, port: int)
    requires
        1 <= step,
        in_stride(start, step, port),
    ensures
        successor(port, step) matches Some(next) ==> in_stride(start, step, next as int),
        forall|other: int|
            port < other < port + step ==> !in_stride(start, step, other),
{
    lemma_mod_multiples_vanish(1, port - start, step);
    assert(step * 1 + (port - start) == port + step - start);
    assert forall|other: int| port < other < port + step implies !in_stride(
        start,
        step,
        other,
    ) by {
        if in_stride(start, step, other) {
            let q = (port - start) / step;
            lemma_fundamental_div_mod(port - start, step);
            assert(step * q == q * step) by (nonlinear_arith);
            lemma_fundamental_div_mod_converse(other - start, step, q, other - port);
        }
    }
}

} // verus!
