//! A whole scan: what the workers report together, and what the final report
//! holds for a given set of open ports.

use crate::ports::{
    is_port, lemma_partition, lemma_progression_ascending, lemma_progression_contains, owner,
    progression, valid_worker, MAX_PORT,
};
use crate::prober::Prober;
use crate::report::{sorted, strictly_ascending, OpenPortReport};
use vstd::prelude::*;
use vstd::relations::total_ordering;
use vstd::seq_lib::{group_to_multiset_ensures, lemma_no_dup_in_concat, lemma_sorted_unique};

verus! {

/// The ports that the worker at `offset` out of `k` probes, as port values.
pub open spec fn port_seq(offset: int, k: int) -> Seq<u16> {
    progression(offset, k).map_values(|p: int| p as u16)
}

/// Whether a connection to a port succeeds, by the set `open` of ports that
/// accept one.
pub open spec fn accepts(open: Set<u16>) -> spec_fn(u16) -> bool {
    |p: u16| open.contains(p)
}

/// The ports that the worker at `offset` out of `k` reports, in the order it
/// reports them, when exactly the ports of `open` accept a connection.
pub open spec fn worker_reports(offset: int, k: int, open: Set<u16>) -> Seq<u16> {
    port_seq(offset, k).filter(accepts(open))
}

/// The reports of workers `0..n` out of `k`, one worker after another.
pub open spec fn scan_reports(n: int, k: int, open: Set<u16>) -> Seq<u16>
    decreases n,
{
    if n <= 0 {
        Seq::empty()
    } else {
        scan_reports(n - 1, k, open) + worker_reports(n - 1, k, open)
    }
}

/// The ports of a worker, as port values, are those of its progression; they
/// hold no repeats.
proof fn lemma_port_seq(offset: int, k: int)
    requires
        valid_worker(offset, k),
    ensures
        port_seq(offset, k).no_duplicates(),
        forall|p: u16| #[trigger]
            port_seq(offset, k).contains(p) <==> (is_port(p as int) && owner(p as int, k)
                == offset),
{
    let s = progression(offset, k);
    let t = port_seq(offset, k);
    assert forall|j: int| 0 <= j < s.len() implies is_port(#[trigger] s[j]) && t[j] as int
        == s[j] by {
        assert(s.contains(s[j]));
        lemma_progression_contains(offset, k, s[j]);
    }
    assert forall|i: int, j: int| 0 <= i < t.len() && 0 <= j < t.len() && i != j implies t[i]
        != t[j] by {
        if i < j {
            lemma_progression_ascending(offset, k, i, j);
        } else {
            lemma_progression_ascending(offset, k, j, i);
        }
    }
    assert forall|p: u16| #[trigger] t.contains(p) <==> (is_port(p as int) && owner(p as int, k)
        == offset) by {
        lemma_progression_contains(offset, k, p as int);
        if t.contains(p) {
            let j = choose|j: int| 0 <= j < t.len() && t[j] == p;
            assert(s[j] == p as int);
        }
        if s.contains(p as int) {
            let j = choose|j: int| 0 <= j < s.len() && s[j] == p as int;
            assert(t[j] == p);
        }
    }
}

/// Keeping part of a sequence without repeats leaves one without repeats,
/// holding exactly the kept elements.
proof fn lemma_filter_no_duplicates(s: Seq<u16>, pred: spec_fn(u16) -> bool)
    requires
        s.no_duplicates(),
    ensures
        s.filter(pred).no_duplicates(),
        forall|x: u16| #[trigger] s.filter(pred).contains(x) <==> (s.contains(x) && pred(x)),
    decreases s.len(),
{
    if s.len() > 0 {
        let rest = s.drop_last();
        let last = s.last();
        assert(rest.push(last) =~= s);
        assert(rest.no_duplicates());
        lemma_filter_no_duplicates(rest, pred);
        rest.lemma_filter_push(last, pred);
        assert(!rest.contains(last));
        assert forall|x: u16| #[trigger] s.filter(pred).contains(x) <==> (s.contains(x) && pred(
            x,
        )) by {
            assert(rest.push(last).contains(x) <==> (rest.contains(x) || x == last));
            if pred(last) {
                assert(rest.filter(pred).push(last).contains(x) <==> (rest.filter(pred).contains(
                    x,
                ) || x == last));
            }
        }
        if pred(last) {
            let f = rest.filter(pred);
            assert forall|i: int, j: int|
                0 <= i < f.push(last).len() && 0 <= j < f.push(last).len() && i != j implies f.push(
                last,
            )[i] != f.push(last)[j] by {
                if i < f.len() {
                    assert(f.contains(f[i]));
                }
                if j < f.len() {
                    assert(f.contains(f[j]));
                }
            }
        }
    } else {
        assert(s.filter(pred) =~= Seq::<u16>::empty()) by {
            reveal(Seq::filter);
        }
    }
}

/// The reports of workers `0..n` hold no repeats, and hold exactly the open
/// ports owned by one of those workers.
proof fn lemma_scan_reports(n: int, k: int, open: Set<u16>)
    requires
        1 <= k <= MAX_PORT as int,
        0 <= n <= k,
    ensures
        scan_reports(n, k, open).no_duplicates(),
        forall|p: u16| #[trigger]
            scan_reports(n, k, open).contains(p) <==> (is_port(p as int) && open.contains(p)
                && owner(p as int, k) < n),
    decreases n,
{
    lemma_partition(k);
    if n > 0 {
        let a = scan_reports(n - 1, k, open);
        let b = worker_reports(n - 1, k, open);
        lemma_scan_reports(n - 1, k, open);
        lemma_port_seq(n - 1, k);
        lemma_filter_no_duplicates(port_seq(n - 1, k), accepts(open));
        assert forall|i: int, j: int| 0 <= i < a.len() && 0 <= j < b.len() implies a[i]
            != b[j] by {
            assert(a.contains(a[i]));
            assert(b.contains(b[j]));
        }
        lemma_no_dup_in_concat(a, b);
        assert forall|p: u16| #[trigger] (a + b).contains(p) <==> (a.contains(p) || b.contains(
            p,
        )) by {
            if (a + b).contains(p) {
                let j = choose|j: int| 0 <= j < (a + b).len() && (a + b)[j] == p;
                if j >= a.len() {
                    assert(b[j - a.len()] == p);
                }
            }
            if a.contains(p) {
                let j = choose|j: int| 0 <= j < a.len() && a[j] == p;
                assert((a + b)[j] == p);
            }
            if b.contains(p) {
                let j = choose|j: int| 0 <= j < b.len() && b[j] == p;
                assert((a + b)[a.len() + j] == p);
            }
        }
        assert forall|p: u16| is_port(p as int) implies 0 <= #[trigger] owner(p as int, k) < k by {}
    } else {
        assert forall|p: u16| is_port(p as int) implies 0 <= #[trigger] owner(p as int, k) < k by {}
    }
}

/// Whatever order the workers' reports arrive in, the sorted report of a scan
/// never holds a port twice, is strictly ascending, and holds exactly the
/// ports that accept a connection.
pub proof fn lemma_report_exact(k: int, open: Set<u16>, report: Seq<u16>)
    requires
        1 <= k <= MAX_PORT as int,
        sorted(report),
        report.to_multiset() == scan_reports(k, k, open).to_multiset(),
    ensures
        report.no_duplicates(),
        strictly_ascending(report),
        forall|p: u16| #[trigger] report.contains(p) <==> (p >= 1 && open.contains(p)),
{
    broadcast use group_to_multiset_ensures;

    let all = scan_reports(k, k, open);
    lemma_scan_reports(k, k, open);
    lemma_partition(k);
    all.lemma_multiset_has_no_duplicates();
    report.lemma_multiset_has_no_duplicates_conv();
    assert forall|p: u16| #[trigger] report.contains(p) <==> (p >= 1 && open.contains(p)) by {
        assert(report.contains(p) <==> report.to_multiset().count(p) > 0);
        assert(all.contains(p) <==> all.to_multiset().count(p) > 0);
        if p >= 1 {
            assert(0 <= owner(p as int, k) < k);
        }
    }
    assert forall|i: int, j: int| 0 <= i < j < report.len() implies report[i] < report[j] by {
        assert(report[i] <= report[j]);
        assert(report[i] != report[j]);
    }
}

/// The sorted report of a scan does not depend on how many workers share the
/// work: with the same open ports, any two worker counts give the same report.
pub proof fn lemma_report_independent_of_worker_count(
    k1: int,
    k2: int,
    open: Set<u16>,
    r1: Seq<u16>,
    r2: Seq<u16>,
)
    requires
        1 <= k1 <= MAX_PORT as int,
        1 <= k2 <= MAX_PORT as int,
        sorted(r1),
        sorted(r2),
        r1.to_multiset() == scan_reports(k1, k1, open).to_multiset(),
        r2.to_multiset() == scan_reports(k2, k2, open).to_multiset(),
    ensures
        r1 == r2,
{
    broadcast use group_to_multiset_ensures;

    lemma_report_exact(k1, open, r1);
    lemma_report_exact(k2, open, r2);
    r1.lemma_multiset_has_no_duplicates();
    r2.lemma_multiset_has_no_duplicates();
    assert forall|p: u16| r1.to_multiset().count(p) == r2.to_multiset().count(p) by {
        assert(r1.contains(p) <==> r1.to_multiset().count(p) > 0);
        assert(r2.contains(p) <==> r2.to_multiset().count(p) > 0);
    }
    assert(r1.to_multiset() =~= r2.to_multiset());
    let leq = |a: u16, b: u16| a <= b;
    assert(total_ordering(leq));
    assert(vstd::relations::sorted_by(r1, leq));
    assert(vstd::relations::sorted_by(r2, leq));
    lemma_sorted_unique(r1, r2, leq);
}

/// A scan of a target with no open port gives an empty report.
pub proof fn lemma_no_open_port_empty_report(k: int, report: Seq<u16>)
    requires
        1 <= k <= MAX_PORT as int,
        sorted(report),
        report.to_multiset() == scan_reports(k, k, Set::empty()).to_multiset(),
    ensures
        report.len() == 0,
{
    lemma_report_exact(k, Set::empty(), report);
    if report.len() > 0 {
        assert(report.contains(report[0]));
    }
}

/// The ports that accept a connection by the table `accepting`: port `p`
/// does when `accepting[p]` holds.
pub open spec fn accepting_set(accepting: Seq<bool>) -> Set<u16> {
    Set::new(|p: u16| (p as int) < accepting.len() && accepting[p as int])
}

/// Runs a whole scan, one worker after another, where the outcome of each
/// connection attempt is read from `accepting` (`accepting[p]`: a connection
/// to port `p` succeeds). Returns the sorted report: exactly the ports that
/// accept a connection, strictly ascending. With no worker, nothing is probed
/// and the report is empty.
pub fn scan_with(worker_count: u16, accepting: &Vec<bool>) -> (r: Vec<u16>)
    requires
        accepting@.len() > MAX_PORT as int,
    ensures
        strictly_ascending(r@),
        forall|p: u16| #[trigger]
            r@.contains(p) <==> (worker_count >= 1 && p >= 1 && accepting@[p as int]),
{
    let ghost k = worker_count as int;
    let ghost open = accepting_set(accepting@);
    let mut report = OpenPortReport::new();
    let mut w: u16 = 0;
    while w < worker_count
        invariant
            w <= worker_count,
            k == worker_count as int,
            open == accepting_set(accepting@),
            accepting@.len() > MAX_PORT as int,
            report.received() == scan_reports(w as int, k, open),
        decreases worker_count - w,
    {
        let mut prober = Prober::new(w, worker_count);
        assert(port_seq(w as int, k).take(0).filter(accepts(open)) =~= Seq::<u16>::empty()) by {
            reveal(Seq::filter);
        }
        assert(report.received() =~= scan_reports(w as int, k, open) + port_seq(w as int, k).take(
            0,
        ).filter(accepts(open)));
        loop
            invariant
                w < worker_count,
                k == worker_count as int,
                open == accepting_set(accepting@),
                accepting@.len() > MAX_PORT as int,
                prober.wf(),
                prober.offset() == w as int,
                prober.stride() == k,
                prober.attempts() <= prober.ports().len(),
                report.received() == scan_reports(w as int, k, open) + port_seq(w as int, k).take(
                    prober.attempts() as int,
                ).filter(accepts(open)),
            ensures
                prober.attempts() == prober.ports().len(),
                report.received() == scan_reports(w as int, k, open) + port_seq(w as int, k).take(
                    prober.attempts() as int,
                ).filter(accepts(open)),
            decreases prober.ports().len() - prober.attempts(),
        {
            match prober.current() {
                None => {
                    break;
                },
                Some(port) => {
                    let ghost a = prober.attempts() as int;
                    let ghost before = report.received();
                    let ghost t = port_seq(w as int, k);
                    proof {
                        lemma_port_seq(w as int, k);
                        assert(t.contains(t[a]));
                        assert(t[a] == port);
                        assert(t.take(a + 1) =~= t.take(a).push(port));
                        t.take(a).lemma_filter_push(port, accepts(open));
                    }
                    let connected = accepting[port as usize];
                    match prober.record(connected) {
                        Some(p) => {
                            report.add(p);
                        },
                        None => {},
                    }
                    assert(report.received() =~= scan_reports(w as int, k, open) + t.take(
                        a + 1,
                    ).filter(accepts(open)));
                },
            }
        }
        assert(port_seq(w as int, k).take(prober.attempts() as int) =~= port_seq(w as int, k));
        w = w + 1;
    }
    let ghost received = report.received();
    let r = report.into_sorted();
    proof {
        if k >= 1 {
            lemma_report_exact(k, open, r@);
        } else {
            assert(received =~= Seq::<u16>::empty());
            r@.to_multiset_ensures();
            received.to_multiset_ensures();
            assert(r@.len() == 0);
        }
    }
    r
}

} // verus!
