//! The port space and its partition among workers.

use vstd::arithmetic::div_mod::{
    lemma_div_pos_is_pos, lemma_fundamental_div_mod, lemma_fundamental_div_mod_converse,
    lemma_mod_pos_bound,
};
use vstd::arithmetic::mul::lemma_mul_inequality;
use vstd::prelude::*;

verus! {

/// The highest TCP port number.
pub const MAX_PORT: u16 = 65535;

/// `p` is a TCP port number: 1 through `MAX_PORT`.
pub open spec fn is_port(p: int) -> bool {
    1 <= p <= MAX_PORT as int
}

/// How many ports the worker at `offset` probes when there are `k` workers.
pub open spec fn progression_len(offset: int, k: int) -> int {
    if offset + 1 > MAX_PORT as int {
        0
    } else {
        (MAX_PORT as int - offset - 1) / k + 1
    }
}

/// The ports that the worker at `offset` probes when there are `k` workers, in
/// the order it probes them: `offset + 1`, `offset + 1 + k`, `offset + 1 + 2k`,
/// and so on while the port stays within `MAX_PORT`.
pub open spec fn progression(offset: int, k: int) -> Seq<int> {
    Seq::new(progression_len(offset, k) as nat, |j: int| offset + 1 + j * k)
}

/// The worker, out of `k`, whose progression holds port `p`.
pub open spec fn owner(p: int, k: int) -> int {
    (p - 1) % k
}

/// A worker count and an offset that a scan can hand to a worker.
pub open spec fn valid_worker(offset: int, k: int) -> bool {
    1 <= k <= MAX_PORT as int && 0 <= offset < k
}

/// A port lies in a worker's progression exactly when it is a port number
/// whose owner is that worker.
pub proof fn lemma_progression_contains(offset: int, k: int, p: int)
    requires
        valid_worker(offset, k),
    ensures
        progression(offset, k).contains(p) <==> (is_port(p) && owner(p, k) == offset),
{
    let s = progression(offset, k);
    let x = MAX_PORT as int - offset - 1;
    lemma_fundamental_div_mod(x, k);
    lemma_mod_pos_bound(x, k);
    if s.contains(p) {
        let j = choose|j: int| 0 <= j < s.len() && s[j] == p;
        lemma_fundamental_div_mod_converse(p - 1, k, j, offset);
        lemma_mul_inequality(j, x / k, k);
        assert(x / k * k == k * (x / k)) by (nonlinear_arith);
        assert(0 <= j * k) by (nonlinear_arith)
            requires
                0 <= j,
                0 < k,
        ;
    }
    if is_port(p) && owner(p, k) == offset {
        let j = (p - 1) / k;
        lemma_fundamental_div_mod(p - 1, k);
        assert(j * k == k * j) by (nonlinear_arith);
        assert(0 <= j) by {
            lemma_mod_pos_bound(p - 1, k);
            assert(k * j >= 0);
            assert(j >= 0) by (nonlinear_arith)
                requires
                    k * j >= 0,
                    k > 0,
            ;
        }
        assert(j <= x / k) by {
            if j > x / k {
                lemma_mul_inequality(x / k + 1, j, k);
                assert((x / k + 1) * k == k * (x / k) + k) by (nonlinear_arith);
            }
        }
        assert(s[j] == p);
    }
}

/// The progression of a worker is strictly increasing.
pub proof fn lemma_progression_ascending(offset: int, k: int, i: int, j: int)
    requires
        valid_worker(offset, k),
        0 <= i < j < progression_len(offset, k),
    ensures
        progression(offset, k)[i] < progression(offset, k)[j],
{
    assert(i * k < j * k) by (nonlinear_arith)
        requires
            i < j,
            0 < k,
    ;
}

/// Every port number belongs to exactly one of `k` workers: the progressions of
/// workers `0..k` together hold every port from 1 to `MAX_PORT`, hold nothing
/// else, and no two of them share a port.
pub proof fn lemma_partition(k: int)
    requires
        1 <= k <= MAX_PORT as int,
    ensures
        forall|p: int|
            is_port(p) ==> 0 <= #[trigger] owner(p, k) < k && progression(owner(p, k), k).contains(
                p,
            ),
        forall|i: int, p: int|
            0 <= i < k && #[trigger] progression(i, k).contains(p) ==> is_port(p),
        forall|i: int, j: int, p: int|
            0 <= i < k && 0 <= j < k && #[trigger] progression(i, k).contains(p)
                && #[trigger] progression(j, k).contains(p) ==> i == j,
{
    assert forall|p: int| is_port(p) implies 0 <= #[trigger] owner(p, k) < k && progression(
        owner(p, k),
        k,
    ).contains(p) by {
        lemma_mod_pos_bound(p - 1, k);
        lemma_progression_contains(owner(p, k), k, p);
    }
    assert forall|i: int, p: int|
        0 <= i < k && #[trigger] progression(i, k).contains(p) implies is_port(p) by {
        lemma_progression_contains(i, k, p);
    }
    assert forall|i: int, j: int, p: int|
        0 <= i < k && 0 <= j < k && #[trigger] progression(i, k).contains(p)
            && #[trigger] progression(j, k).contains(p) implies i == j by {
        lemma_progression_contains(i, k, p);
        lemma_progression_contains(j, k, p);
    }
}

/// A single worker probes every port, from 1 to `MAX_PORT`, in order.
pub proof fn lemma_single_worker_probes_all()
    ensures
        progression(0, 1) =~= Seq::new(MAX_PORT as nat, |j: int| j + 1),
{
}

/// The first port that the worker at `offset` probes.
pub fn first_port(offset: u16, worker_count: u16) -> (r: u16)
    requires
        valid_worker(offset as int, worker_count as int),
    ensures
        r as int == progression(offset as int, worker_count as int)[0],
        progression_len(offset as int, worker_count as int) >= 1,
{
    proof {
        lemma_div_pos_is_pos(MAX_PORT as int - offset - 1, worker_count as int);
    }
    offset + 1
}

/// The port to probe after `port`, for a worker among `worker_count`: `None`
/// when `MAX_PORT - port < worker_count`, since no further port of the
/// progression is in range; `port + worker_count` otherwise.
pub fn next_port(port: u16, worker_count: u16) -> (r: Option<u16>)
    ensures
        r == (if MAX_PORT - port < worker_count {
            None::<u16>
        } else {
            Some((port + worker_count) as u16)
        }),
{
    if MAX_PORT - port < worker_count {
        None
    } else {
        Some(port + worker_count)
    }
}

/// The ports that the worker at `offset` probes, in the order it probes them.
pub fn worker_ports(offset: u16, worker_count: u16) -> (r: Vec<u16>)
    requires
        valid_worker(offset as int, worker_count as int),
    ensures
        r@.len() == progression_len(offset as int, worker_count as int),
        forall|j: int|
            0 <= j < r@.len() ==> r@[j] as int == #[trigger] progression(
                offset as int,
                worker_count as int,
            )[j],
{
    let ghost k = worker_count as int;
    let ghost x = MAX_PORT as int - offset - 1;
    let mut r: Vec<u16> = Vec::new();
    let mut port = first_port(offset, worker_count);
    loop
        invariant_except_break
            r@.len() < progression_len(offset as int, k),
            port as int == progression(offset as int, k)[r@.len() as int],
        invariant
            valid_worker(offset as int, k),
            k == worker_count as int,
            x == MAX_PORT as int - offset - 1,
            progression_len(offset as int, k) == x / k + 1,
            forall|j: int|
                0 <= j < r@.len() ==> r@[j] as int == #[trigger] progression(offset as int, k)[j],
        ensures
            r@.len() == progression_len(offset as int, k),
            forall|j: int|
                0 <= j < r@.len() ==> r@[j] as int == #[trigger] progression(offset as int, k)[j],
        decreases MAX_PORT - port,
    {
        let ghost n = r@.len() as int;
        r.push(port);
        match next_port(port, worker_count) {
            None => {
                proof {
                    // port + k > MAX_PORT, so n is the last index
                    lemma_fundamental_div_mod_converse(x, k, n, x - n * k);
                }
                break;
            },
            Some(p) => {
                proof {
                    assert(n * k + k == (n + 1) * k) by (nonlinear_arith);
                    if n + 1 >= x / k + 1 {
                        lemma_fundamental_div_mod(x, k);
                        lemma_mod_pos_bound(x, k);
                        lemma_mul_inequality(x / k, n, k);
                        assert(x / k * k == k * (x / k)) by (nonlinear_arith);
                    }
                }
                port = p;
            },
        }
    }
    r
}

} // verus!
