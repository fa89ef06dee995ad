//! The settings one socket is opened with.
use vstd::prelude::*;

verus! {

/// The settings of one socket: those of its XDP socket (`X`), of how it polls
/// (`P`), and how it handles a full transmit ring (`S`).
#[derive(Debug)]
pub struct SocketConfig<X, P, S> {
    pub xsk: X,
    pub poll: P,
    pub pollout_status: S,
}

impl<X, P, S> SocketConfig<X, P, S> {
    /// Groups the three settings of a socket.
    pub fn new(xsk: X, poll: P, pollout_status: S) -> (r: Self)
        ensures
            r.xsk == xsk,
            r.poll == poll,
            r.pollout_status == pollout_status,
    {
        SocketConfig { xsk, poll, pollout_status }
    }
}

} // verus!
