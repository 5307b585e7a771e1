//! Gathering the reported ports into the final, ascending report.

use vstd::prelude::*;
use vstd::seq_lib::group_to_multiset_ensures;
use vstd::seq_lib::to_multiset_insert;

verus! {

/// Every port of `s` is at most the next one.
pub open spec fn sorted(s: Seq<u16>) -> bool {
    forall|i: int, j: int| 0 <= i < j < s.len() ==> s[i] <= s[j]
}

/// Every port of `s` is below the next one: sorted, and without repeats.
pub open spec fn strictly_ascending(s: Seq<u16>) -> bool {
    forall|i: int, j: int| 0 <= i < j < s.len() ==> s[i] < s[j]
}

/// The first index of the sorted `r` whose port is above `x`: every port before
/// it is at most `x`, every port from it on is above `x`.
fn insertion_point(r: &Vec<u16>, x: u16) -> (j: usize)
    requires
        sorted(r@),
    ensures
        j <= r@.len(),
        forall|t: int| 0 <= t < j ==> r@[t] <= x,
        forall|t: int| j <= t < r@.len() ==> r@[t] > x,
{
    let mut lo: usize = 0;
    let mut hi: usize = r.len();
    while lo < hi
        invariant
            lo <= hi <= r@.len(),
            sorted(r@),
            forall|t: int| 0 <= t < lo ==> r@[t] <= x,
            forall|t: int| hi <= t < r@.len() ==> r@[t] > x,
        decreases hi - lo,
    {
        let mid = lo + (hi - lo) / 2;
        if r[mid] <= x {
            lo = mid + 1;
        } else {
            hi = mid;
        }
    }
    lo
}

/// The ports of `ports` in ascending order, each as often as it occurs there.
pub fn sort_ports(ports: Vec<u16>) -> (r: Vec<u16>)
    ensures
        sorted(r@),
        r@.to_multiset() == ports@.to_multiset(),
{
    broadcast use group_to_multiset_ensures;

    let mut r: Vec<u16> = Vec::new();
    let mut i: usize = 0;
    while i < ports.len()
        invariant
            i <= ports@.len(),
            sorted(r@),
            r@.to_multiset() == ports@.take(i as int).to_multiset(),
        decreases ports@.len() - i,
    {
        let x = ports[i];
        let j = insertion_point(&r, x);
        let ghost before = r@;
        r.insert(j, x);
        proof {
            to_multiset_insert(before, j as int, x);
            assert(ports@.take(i + 1) =~= ports@.take(i as int).push(x));
            ports@.take(i as int).to_multiset_ensures();
            assert(r@ == before.insert(j as int, x));
            assert forall|a: int, b: int| 0 <= a < b < r@.len() implies r@[a] <= r@[b] by {
                if b == j {
                } else if a == j {
                    assert(before[b - 1] == r@[b]);
                } else {
                }
            }
        }
        i = i + 1;
    }
    assert(ports@.take(ports@.len() as int) =~= ports@);
    r
}

/// The ports reported during one scan, in the order they arrived.
pub struct OpenPortReport {
    found: Vec<u16>,
}

impl OpenPortReport {
    /// The ports received so far, in order of arrival.
    pub closed spec fn received(&self) -> Seq<u16> {
        self.found@
    }

    /// A report that has received no port yet.
    pub fn new() -> (r: OpenPortReport)
        ensures
            r.received() == Seq::<u16>::empty(),
    {
        OpenPortReport { found: Vec::new() }
    }

    /// Receives one reported port.
    pub fn add(&mut self, port: u16)
        ensures
            final(self).received() == old(self).received().push(port),
    {
        self.found.push(port);
    }

    /// How many ports have been received.
    pub fn len(&self) -> (r: usize)
        ensures
            r == self.received().len(),
    {
        self.found.len()
    }

    /// The received ports in ascending order: the scan's result.
    pub fn into_sorted(self) -> (r: Vec<u16>)
        ensures
            sorted(r@),
            r@.to_multiset() == self.received().to_multiset(),
    {
        sort_ports(self.found)
    }
}

/// The character of the decimal digit `d`.
pub open spec fn digit_char(d: int) -> char {
    if d == 0 {
        '0'
    } else if d == 1 {
        '1'
    } else if d == 2 {
        '2'
    } else if d == 3 {
        '3'
    } else if d == 4 {
        '4'
    } else if d == 5 {
        '5'
    } else if d == 6 {
        '6'
    } else if d == 7 {
        '7'
    } else if d == 8 {
        '8'
    } else {
        '9'
    }
}

/// `n` written in decimal, without leading zeros.
pub open spec fn decimal(n: nat) -> Seq<char>
    decreases n,
{
    if n < 10 {
        seq![digit_char(n as int)]
    } else {
        decimal(n / 10).push(digit_char((n % 10) as int))
    }
}

/// The line of the report for an open port: `"<port> is open"`.
pub open spec fn port_line(port: u16) -> Seq<char> {
    decimal(port as nat) + " is open"@
}

fn digit_str(d: u16) -> (r: &'static str)
    requires
        d < 10,
    ensures
        r@ == seq![digit_char(d as int)],
{
    proof {
        reveal_strlit("0");
        reveal_strlit("1");
        reveal_strlit("2");
        reveal_strlit("3");
        reveal_strlit("4");
        reveal_strlit("5");
        reveal_strlit("6");
        reveal_strlit("7");
        reveal_strlit("8");
        reveal_strlit("9");
    }
    match d {
        0 => "0",
        1 => "1",
        2 => "2",
        3 => "3",
        4 => "4",
        5 => "5",
        6 => "6",
        7 => "7",
        8 => "8",
        _ => "9",
    }
}

fn push_decimal(s: &mut String, n: u16)
    ensures
        final(s)@ == old(s)@ + decimal(n as nat),
    decreases n,
{
    if n >= 10 {
        push_decimal(s, n / 10);
    }
    s.append(digit_str(n % 10));
    assert(old(s)@ + decimal(n as nat) =~= final(s)@) by {
        if n >= 10 {
            assert(decimal(n as nat) == decimal((n / 10) as nat).push(digit_char((n % 10) as int)));
        }
    }
}

/// The report line for an open port, `"<port> is open"`.
pub fn open_port_line(port: u16) -> (r: String)
    ensures
        r@ == port_line(port),
{
    let mut s = String::new();
    push_decimal(&mut s, port);
    s.append(" is open");
    assert(s@ =~= port_line(port));
    s
}

/// The lines of the report for ascending ports, one per port, in order.
pub fn report_lines(ports: &Vec<u16>) -> (r: Vec<String>)
    ensures
        r@.len() == ports@.len(),
        forall|i: int| 0 <= i < r@.len() ==> #[trigger] r@[i]@ == port_line(ports@[i]),
{
    let mut r: Vec<String> = Vec::new();
    for i in 0..ports.len()
        invariant
            r@.len() == i,
            forall|j: int| 0 <= j < i ==> #[trigger] r@[j]@ == port_line(ports@[j]),
    {
        r.push(open_port_line(ports[i]));
    }
    r
}

} // verus!
