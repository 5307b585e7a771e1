//! The decisions of the command line: which form it has, where the target
//! address stands, and how many workers it asks for.
//!
//! Two forms start a scan: a bare address (`<ip>`, with 4 workers), or
//! `-j <threads> <ip>`. Telling whether an argument is an IP address is left
//! to the caller, which hands in one flag per argument.

use vstd::prelude::*;

verus! {

/// The worker count used when the command line names none.
pub const DEFAULT_THREADS: u16 = 4;

/// Why a command line starts no scan.
#[derive(Clone, Copy, Debug, PartialEq, Eq, Structural)]
pub enum ArgumentError {
    NotEnoughArguments,
    TooManyArguments,
    /// Help was asked for: not a failure, but no scan either.
    Help,
    InvalidAddress,
    InvalidThreadCount,
    InvalidSyntax,
}

impl ArgumentError {
    /// The text shown for the error.
    pub fn message(&self) -> (r: &'static str)
        ensures
            r@ == error_message(*self),
    {
        match self {
            ArgumentError::NotEnoughArguments => "Not Enough Arguments",
            ArgumentError::TooManyArguments => "Too Many Arguments",
            ArgumentError::Help => "help",
            ArgumentError::InvalidAddress => "Invalid IP Address; Use IPV4 or IPV6",
            ArgumentError::InvalidThreadCount => "Invalid Thread Count number",
            ArgumentError::InvalidSyntax => "Invalid Syntax",
        }
    }
}

/// The text shown for each error.
pub open spec fn error_message(e: ArgumentError) -> Seq<char> {
    match e {
        ArgumentError::NotEnoughArguments => "Not Enough Arguments"@,
        ArgumentError::TooManyArguments => "Too Many Arguments"@,
        ArgumentError::Help => "help"@,
        ArgumentError::InvalidAddress => "Invalid IP Address; Use IPV4 or IPV6"@,
        ArgumentError::InvalidThreadCount => "Invalid Thread Count number"@,
        ArgumentError::InvalidSyntax => "Invalid Syntax"@,
    }
}

/// What a valid command line asks for: the target address is the argument at
/// `address_arg`, and the scan uses `threads` workers.
#[derive(Clone, Copy, Debug, PartialEq, Eq, Structural)]
pub struct ScanArguments {
    pub address_arg: usize,
    pub threads: u16,
}

/// `pat` occurs in `s` as a run of consecutive characters.
pub open spec fn has_substring(s: Seq<char>, pat: Seq<char>) -> bool {
    exists|i: int| 0 <= i && i + pat.len() <= s.len() && #[trigger] s.subrange(i, i + pat.len()) == pat
}

/// Whether `pat` occurs in `s`.
pub fn contains_str(s: &str, pat: &str) -> (r: bool)
    ensures
        r == has_substring(s@, pat@),
{
    let n = s.unicode_len();
    let m = pat.unicode_len();
    if m > n {
        return false;
    }
    let mut i: usize = 0;
    while i <= n - m
        invariant
            n == s@.len(),
            m == pat@.len(),
            m <= n,
            i <= n - m + 1,
            forall|t: int| 0 <= t < i ==> #[trigger] s@.subrange(t, t + m) != pat@,
        decreases n - m + 1 - i,
    {
        let mut j: usize = 0;
        while j < m && s.get_char(i + j) == pat.get_char(j)
            invariant
                n == s@.len(),
                m == pat@.len(),
                i + m <= n,
                j <= m,
                forall|t: int| 0 <= t < j ==> s@[i + t] == pat@[t],
            decreases m - j,
        {
            j = j + 1;
        }
        if j == m {
            assert(s@.subrange(i as int, i + m) =~= pat@);
            return true;
        }
        assert(s@.subrange(i as int, i + m)[j as int] != pat@[j as int]);
        i = i + 1;
    }
    false
}

/// `c` is an ASCII decimal digit.
pub open spec fn is_digit(c: char) -> bool {
    '0' <= c && c <= '9'
}

/// The number written by the decimal digits `d`.
pub open spec fn digits_value(d: Seq<char>) -> nat
    decreases d.len(),
{
    if d.len() == 0 {
        0
    } else {
        digits_value(d.drop_last()) * 10 + (d.last() as nat - '0' as nat) as nat
    }
}

/// The digits of a thread count: `s` without a leading `+`.
pub open spec fn unsigned_digits(s: Seq<char>) -> Seq<char> {
    if s.len() > 0 && s[0] == '+' {
        s.drop_first()
    } else {
        s
    }
}

/// `s` read as a 16-bit unsigned number: an optional `+`, then one or more
/// decimal digits, of value at most 65535. `None` for anything else.
pub open spec fn u16_value(s: Seq<char>) -> Option<u16> {
    let d = unsigned_digits(s);
    if d.len() > 0 && (forall|i: int| 0 <= i < d.len() ==> is_digit(#[trigger] d[i]))
        && digits_value(d) <= u16::MAX {
        Some(digits_value(d) as u16)
    } else {
        None
    }
}

proof fn lemma_digits_value_grows(d: Seq<char>, i: int)
    requires
        0 <= i <= d.len(),
        forall|t: int| 0 <= t < d.len() ==> is_digit(#[trigger] d[t]),
    ensures
        digits_value(d.take(i)) <= digits_value(d),
    decreases d.len() - i,
{
    if i < d.len() {
        lemma_digits_value_grows(d, i + 1);
        assert(d.take(i + 1).drop_last() =~= d.take(i));
    } else {
        assert(d.take(i) =~= d);
    }
}

/// Reads a thread count: see `u16_value`.
pub fn parse_u16(s: &str) -> (r: Option<u16>)
    ensures
        r == u16_value(s@),
{
    let n = s.unicode_len();
    let mut i: usize = 0;
    if n > 0 && s.get_char(0) == '+' {
        i = 1;
    }
    let ghost d = unsigned_digits(s@);
    assert(d =~= s@.subrange(i as int, n as int));
    if i == n {
        return None;
    }
    let start = i;
    let mut value: u32 = 0;
    while i < n
        invariant
            n == s@.len(),
            start <= i <= n,
            d == s@.subrange(start as int, n as int),
            d == unsigned_digits(s@),
            d.len() > 0,
            forall|t: int| 0 <= t < i - start ==> is_digit(#[trigger] d[t]),
            value as nat == digits_value(d.take(i - start)),
            value <= u16::MAX,
        decreases n - i,
    {
        let c = s.get_char(i);
        assert(d[i - start] == c);
        if !('0' <= c && c <= '9') {
            assert(!is_digit(d[i - start]));
            return None;
        }
        assert(d.take(i - start + 1).drop_last() =~= d.take(i - start));
        value = value * 10 + (c as u32 - '0' as u32);
        if value > 65535 {
            proof {
                if forall|t: int| 0 <= t < d.len() ==> is_digit(#[trigger] d[t]) {
                    lemma_digits_value_grows(d, (i - start + 1) as int);
                }
            }
            return None;
        }
        i = i + 1;
    }
    assert(d.take(i - start) =~= d);
    Some(value as u16)
}

/// What the command line `args` asks for (`args[0]` is the program's name),
/// where `is_address[i]` tells whether `args[i]` reads as an IP address.
/// A first argument that is an address asks for a scan of it with the default
/// worker count. Otherwise the first argument is a flag: one that holds `-h`
/// asks for help; one that holds `-j` must be followed by a thread count of
/// at least 1 and an address.
pub open spec fn arguments_outcome(args: Seq<Seq<char>>, is_address: Seq<bool>) -> Result<
    ScanArguments,
    ArgumentError,
> {
    if args.len() < 2 {
        Err(ArgumentError::NotEnoughArguments)
    } else if args.len() > 4 {
        Err(ArgumentError::TooManyArguments)
    } else if is_address[1] {
        Ok(ScanArguments { address_arg: 1, threads: DEFAULT_THREADS })
    } else if has_substring(args[1], "-h"@) {
        Err(ArgumentError::Help)
    } else if has_substring(args[1], "-j"@) {
        if args.len() < 4 {
            Err(ArgumentError::NotEnoughArguments)
        } else if !is_address[3] {
            Err(ArgumentError::InvalidAddress)
        } else {
            match u16_value(args[2]) {
                Some(t) => if t >= 1 {
                    Ok(ScanArguments { address_arg: 3, threads: t })
                } else {
                    Err(ArgumentError::InvalidThreadCount)
                },
                None => Err(ArgumentError::InvalidThreadCount),
            }
        }
    } else {
        Err(ArgumentError::InvalidSyntax)
    }
}

/// The views of the arguments.
pub open spec fn arg_views(args: Seq<String>) -> Seq<Seq<char>> {
    args.map_values(|a: String| a@)
}

/// Reads the command line `args`; see `arguments_outcome`. On success the
/// argument at `address_arg` is one that `is_address` marks as an address.
pub fn parse_arguments(args: &Vec<String>, is_address: &Vec<bool>) -> (r: Result<
    ScanArguments,
    ArgumentError,
>)
    requires
        is_address@.len() == args@.len(),
    ensures
        r == arguments_outcome(arg_views(args@), is_address@),
        r is Ok ==> r->Ok_0.address_arg < args@.len() && is_address@[r->Ok_0.address_arg as int],
        r is Ok ==> r->Ok_0.threads >= 1,
{
    let ghost views = arg_views(args@);
    if args.len() < 2 {
        return Err(ArgumentError::NotEnoughArguments);
    }
    if args.len() > 4 {
        return Err(ArgumentError::TooManyArguments);
    }
    if is_address[1] {
        return Ok(ScanArguments { address_arg: 1, threads: DEFAULT_THREADS });
    }
    let flag = args[1].as_str();
    assert(flag@ == views[1]);
    if contains_str(flag, "-h") {
        return Err(ArgumentError::Help);
    }
    if !contains_str(flag, "-j") {
        return Err(ArgumentError::InvalidSyntax);
    }
    if args.len() < 4 {
        return Err(ArgumentError::NotEnoughArguments);
    }
    if !is_address[3] {
        return Err(ArgumentError::InvalidAddress);
    }
    assert(args[2]@ == views[2]);
    match parse_u16(args[2].as_str()) {
        Some(t) => {
            if t >= 1 {
                Ok(ScanArguments { address_arg: 3, threads: t })
            } else {
                Err(ArgumentError::InvalidThreadCount)
            }
        },
        None => Err(ArgumentError::InvalidThreadCount),
    }
}

} // verus!
