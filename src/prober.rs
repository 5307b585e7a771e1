//! One worker's walk along its progression: which port to try next, and
//! whether a port is reported after a connection attempt.

use crate::ports::{
    first_port, next_port, progression, progression_len, valid_worker, MAX_PORT,
};
use vstd::prelude::*;

verus! {

/// One worker of a scan. It tries the ports of its progression one after
/// another, and reports a port exactly when the connection to it succeeded.
/// A failed connection is an expected outcome, never an error: the port is
/// closed or filtered, and the walk goes on.
pub struct Prober {
    stride: u16,
    next: Option<u16>,
    offset: Ghost<int>,
    attempts: Ghost<nat>,
}

impl Prober {
    /// The worker's offset among all workers.
    pub closed spec fn offset(&self) -> int {
        self.offset@
    }

    /// The worker count, which is also the distance between two probed ports.
    pub closed spec fn stride(&self) -> int {
        self.stride as int
    }

    /// How many ports have been tried so far.
    pub closed spec fn attempts(&self) -> nat {
        self.attempts@
    }

    /// The ports that this worker tries, in order.
    pub open spec fn ports(&self) -> Seq<int> {
        progression(self.offset(), self.stride())
    }

    /// The worker is valid, has tried at most its whole progression, and
    /// holds the next port of it until the whole progression was tried.
    pub closed spec fn wf(&self) -> bool {
        &&& valid_worker(self.offset@, self.stride as int)
        &&& self.attempts@ <= progression_len(self.offset@, self.stride as int)
        &&& match self.next {
            Some(p) => self.attempts@ < progression_len(self.offset@, self.stride as int)
                && p as int == progression(self.offset@, self.stride as int)[self.attempts@ as int],
            None => self.attempts@ == progression_len(self.offset@, self.stride as int),
        }
    }

    /// The worker at `offset` out of `worker_count`, before its first attempt.
    pub fn new(offset: u16, worker_count: u16) -> (r: Prober)
        requires
            valid_worker(offset as int, worker_count as int),
        ensures
            r.wf(),
            r.offset() == offset as int,
            r.stride() == worker_count as int,
            r.attempts() == 0,
    {
        let p = first_port(offset, worker_count);
        Prober {
            stride: worker_count,
            next: Some(p),
            offset: Ghost(offset as int),
            attempts: Ghost(0),
        }
    }

    /// The port to try next, or `None` once the whole progression was tried.
    pub fn current(&self) -> (r: Option<u16>)
        requires
            self.wf(),
        ensures
            r.is_some() <==> self.attempts() < self.ports().len(),
            r.is_some() ==> r.unwrap() as int == self.ports()[self.attempts() as int],
    {
        self.next
    }

    /// Records the outcome of the attempt on the current port and moves to
    /// the next one. Returns the port when the connection succeeded, which is
    /// then to be reported; `None` when it failed.
    pub fn record(&mut self, connected: bool) -> (r: Option<u16>)
        requires
            old(self).wf(),
            old(self).attempts() < old(self).ports().len(),
        ensures
            final(self).wf(),
            final(self).offset() == old(self).offset(),
            final(self).stride() == old(self).stride(),
            final(self).attempts() == old(self).attempts() + 1,
            connected ==> r == Some(old(self).ports()[old(self).attempts() as int] as u16),
            !connected ==> r.is_none(),
    {
        let port = self.next.unwrap();
        let k = self.stride;
        let ghost n = self.attempts@ as int;
        let ghost off = self.offset@;
        proof {
            self.attempts = Ghost((n + 1) as nat);
        }
        self.next = next_port(port, k);
        proof {
            // the same step that `worker_ports` takes along the progression
            lemma_step(off, k as int, n);
        }
        if connected {
            Some(port)
        } else {
            None
        }
    }
}

/// Stepping from the port at index `n` of a progression: the next port exists
/// exactly when index `n + 1` is in range, and it is the port there.
proof fn lemma_step(offset: int, k: int, n: int)
    requires
        valid_worker(offset, k),
        0 <= n < progression_len(offset, k),
    ensures
        (MAX_PORT as int - progression(offset, k)[n] < k) <==> n + 1 == progression_len(
            offset,
            k,
        ),
        n + 1 < progression_len(offset, k) ==> progression(offset, k)[n + 1]
            == progression(offset, k)[n] + k,
{
    let x = MAX_PORT as int - offset - 1;
    assert(n * k + k == (n + 1) * k) by (nonlinear_arith);
    vstd::arithmetic::div_mod::lemma_fundamental_div_mod(x, k);
    vstd::arithmetic::div_mod::lemma_mod_pos_bound(x, k);
    assert(x / k * k == k * (x / k)) by (nonlinear_arith);
    if n + 1 == progression_len(offset, k) {
        assert(n == x / k);
    } else {
        vstd::arithmetic::mul::lemma_mul_inequality(n + 1, x / k, k);
    }
    if MAX_PORT as int - progression(offset, k)[n] < k && n + 1 < progression_len(offset, k) {
        vstd::arithmetic::mul::lemma_mul_inequality(n + 1, x / k, k);
    }
}

} // verus!
