use port_scanner::cli::{contains_str, parse_arguments, parse_u16, ArgumentError, ScanArguments};
use port_scanner::ports::{first_port, next_port, worker_ports, MAX_PORT};
use port_scanner::prober::Prober;
use port_scanner::report::{open_port_line, report_lines, sort_ports, OpenPortReport};
use port_scanner::scan::scan_with;

fn table(open: &[u16]) -> Vec<bool> {
    let mut t = vec![false; MAX_PORT as usize + 1];
    for p in open {
        t[*p as usize] = true;
    }
    t
}

fn check_partition(k: u16) {
    let mut seen = vec![0u32; MAX_PORT as usize + 1];
    for offset in 0..k {
        let ports = worker_ports(offset, k);
        for w in ports.windows(2) {
            assert_eq!(w[1], w[0] + k);
        }
        assert_eq!(ports[0], offset + 1);
        for p in ports {
            seen[p as usize] += 1;
        }
    }
    assert_eq!(seen[0], 0);
    for p in 1..=MAX_PORT as usize {
        assert_eq!(seen[p], 1, "port {} with {} workers", p, k);
    }
}

#[test]
fn partition_covers_every_port_once() {
    for k in [1u16, 2, 3, 4, 7, 8, 10, 1000, 4096, 65534, MAX_PORT] {
        check_partition(k);
    }
}

#[test]
fn single_worker_probes_all_ports_in_order() {
    let ports = worker_ports(0, 1);
    assert_eq!(ports.len(), 65535);
    let expected: Vec<u16> = (1..=MAX_PORT).collect();
    assert_eq!(ports, expected);
}

#[test]
fn last_term_equal_to_max_port_is_probed() {
    // 65535 = 1 + 2 * 32767
    let ports = worker_ports(0, 2);
    assert_eq!(*ports.last().unwrap(), 65535);
    assert_eq!(ports.len(), 32768);
    let ports = worker_ports(1, 2);
    assert_eq!(*ports.last().unwrap(), 65534);
    // 65534 = 2 + 3 * 21844
    let ports = worker_ports(2, 3);
    assert_eq!(*ports.last().unwrap(), 65535);
    assert_eq!(ports.len(), 21845);
}

#[test]
fn one_port_per_worker_with_max_workers() {
    assert_eq!(worker_ports(0, MAX_PORT), vec![1]);
    assert_eq!(worker_ports(65534, MAX_PORT), vec![65535]);
}

#[test]
fn next_port_stops_at_the_edge() {
    assert_eq!(first_port(3, 4), 4);
    assert_eq!(next_port(4, 4), Some(8));
    assert_eq!(next_port(65531, 4), Some(65535));
    assert_eq!(next_port(65532, 4), None);
    assert_eq!(next_port(65534, 1), Some(65535));
    assert_eq!(next_port(65535, 1), None);
}

#[test]
fn prober_reports_only_successful_connections() {
    let mut prober = Prober::new(1, 4);
    assert_eq!(prober.current(), Some(2));
    assert_eq!(prober.record(false), None);
    assert_eq!(prober.current(), Some(6));
    assert_eq!(prober.record(true), Some(6));
    assert_eq!(prober.current(), Some(10));
}

#[test]
fn prober_walks_its_whole_progression() {
    let mut prober = Prober::new(0, 20000);
    let mut tried = Vec::new();
    while let Some(p) = prober.current() {
        tried.push(p);
        prober.record(false);
    }
    assert_eq!(tried, vec![1, 20001, 40001, 60001]);
}

#[test]
fn sort_keeps_every_port() {
    assert_eq!(sort_ports(vec![443, 22, 8080, 22, 1]), vec![1, 22, 22, 443, 8080]);
    assert_eq!(sort_ports(vec![]), Vec::<u16>::new());
    assert_eq!(sort_ports(vec![65535, 1]), vec![1, 65535]);
}

#[test]
fn report_sorts_ports_in_any_arrival_order() {
    let mut report = OpenPortReport::new();
    report.add(443);
    report.add(22);
    assert_eq!(report.len(), 2);
    let sorted = report.into_sorted();
    assert_eq!(sorted, vec![22, 443]);
    assert_eq!(report_lines(&sorted), vec!["22 is open".to_string(), "443 is open".to_string()]);
}

#[test]
fn port_lines() {
    assert_eq!(open_port_line(8080), "8080 is open");
    assert_eq!(open_port_line(1), "1 is open");
    assert_eq!(open_port_line(10), "10 is open");
    assert_eq!(open_port_line(65535), "65535 is open");
}

#[test]
fn scan_finds_single_listener() {
    let t = table(&[8080]);
    let report = scan_with(4, &t);
    assert_eq!(report, vec![8080]);
    // one reported port, so one progress dot
    assert_eq!(report.len(), 1);
    assert_eq!(report_lines(&report), vec!["8080 is open".to_string()]);
}

#[test]
fn scan_finds_two_listeners() {
    let t = table(&[443, 22]);
    let report = scan_with(2, &t);
    assert_eq!(report_lines(&report), vec!["22 is open".to_string(), "443 is open".to_string()]);
}

#[test]
fn scan_result_does_not_depend_on_worker_count() {
    let t = table(&[1, 2, 22, 80, 443, 3000, 8080, 65534, 65535]);
    let one = scan_with(1, &t);
    assert_eq!(one, vec![1, 2, 22, 80, 443, 3000, 8080, 65534, 65535]);
    for k in [2u16, 3, 8, 100, MAX_PORT] {
        assert_eq!(scan_with(k, &t), one);
    }
}

#[test]
fn scan_with_no_open_port_is_empty() {
    let t = table(&[]);
    assert!(scan_with(4, &t).is_empty());
    assert!(scan_with(1, &t).is_empty());
    assert!(report_lines(&scan_with(4, &t)).is_empty());
}

#[test]
fn scan_with_no_worker_is_empty() {
    let t = table(&[22, 80]);
    assert!(scan_with(0, &t).is_empty());
}

#[test]
fn scan_ignores_port_zero() {
    let t = table(&[0, 7]);
    assert_eq!(scan_with(3, &t), vec![7]);
}

fn cli(args: &[&str]) -> Vec<String> {
    args.iter().map(|a| a.to_string()).collect()
}

// whether each argument reads as an IP address, for the arguments used here
fn addresses(args: &[String]) -> Vec<bool> {
    let known = ["127.0.0.1", "::1", "192.168.0.1", "10.0.0.1", "1.2.3.4"];
    args.iter().map(|a| known.contains(&a.as_str())).collect()
}

#[test]
fn bare_address_uses_four_workers() {
    let args = cli(&["scan", "127.0.0.1"]);
    let r = parse_arguments(&args, &addresses(&args));
    assert_eq!(r, Ok(ScanArguments { address_arg: 1, threads: 4 }));
    let args = cli(&["scan", "::1"]);
    assert_eq!(parse_arguments(&args, &addresses(&args)).unwrap().threads, 4);
}

#[test]
fn thread_flag_sets_worker_count() {
    let args = cli(&["scan", "-j", "1000", "192.168.0.1"]);
    let r = parse_arguments(&args, &addresses(&args));
    assert_eq!(r, Ok(ScanArguments { address_arg: 3, threads: 1000 }));
    let args = cli(&["scan", "-j", "+8", "10.0.0.1"]);
    assert_eq!(parse_arguments(&args, &addresses(&args)).unwrap().threads, 8);
    let args = cli(&["scan", "-j", "1", "10.0.0.1"]);
    assert_eq!(parse_arguments(&args, &addresses(&args)).unwrap().threads, 1);
    let args = cli(&["scan", "-j", "65535", "10.0.0.1"]);
    assert_eq!(parse_arguments(&args, &addresses(&args)).unwrap().threads, 65535);
}

#[test]
fn zero_workers_is_rejected() {
    let args = cli(&["scan", "-j", "0", "127.0.0.1"]);
    assert_eq!(parse_arguments(&args, &addresses(&args)), Err(ArgumentError::InvalidThreadCount));
}

#[test]
fn argument_errors() {
    let cases: Vec<(Vec<&str>, ArgumentError)> = vec![
        (vec!["scan"], ArgumentError::NotEnoughArguments),
        (vec!["scan", "-j", "4", "1.2.3.4", "x"], ArgumentError::TooManyArguments),
        (vec!["scan", "-h"], ArgumentError::Help),
        (vec!["scan", "--help"], ArgumentError::Help),
        (vec!["scan", "-h", "x"], ArgumentError::Help),
        (vec!["scan", "-j", "4", "1.2.3"], ArgumentError::InvalidAddress),
        (vec!["scan", "-j", "four", "1.2.3.4"], ArgumentError::InvalidThreadCount),
        (vec!["scan", "-j", "65536", "1.2.3.4"], ArgumentError::InvalidThreadCount),
        (vec!["scan", "-j", "-1", "1.2.3.4"], ArgumentError::InvalidThreadCount),
        (vec!["scan", "-j", "0", "1.2.3.4"], ArgumentError::InvalidThreadCount),
        (vec!["scan", "-j", "000", "1.2.3.4"], ArgumentError::InvalidThreadCount),
        (vec!["scan", "-j", "", "1.2.3.4"], ArgumentError::InvalidThreadCount),
        (vec!["scan", "-j", "4"], ArgumentError::NotEnoughArguments),
        (vec!["scan", "localhost"], ArgumentError::InvalidSyntax),
    ];
    for (line, expected) in cases {
        let args = cli(&line);
        assert_eq!(parse_arguments(&args, &addresses(&args)), Err(expected), "{:?}", line);
    }
}

#[test]
fn argument_error_messages() {
    assert_eq!(ArgumentError::NotEnoughArguments.message(), "Not Enough Arguments");
    assert_eq!(ArgumentError::TooManyArguments.message(), "Too Many Arguments");
    assert_eq!(ArgumentError::Help.message(), "help");
    assert_eq!(ArgumentError::InvalidAddress.message(), "Invalid IP Address; Use IPV4 or IPV6");
    assert_eq!(ArgumentError::InvalidThreadCount.message(), "Invalid Thread Count number");
    assert_eq!(ArgumentError::InvalidSyntax.message(), "Invalid Syntax");
}

#[test]
fn thread_counts() {
    assert_eq!(parse_u16("0"), Some(0));
    assert_eq!(parse_u16("007"), Some(7));
    assert_eq!(parse_u16("65535"), Some(65535));
    assert_eq!(parse_u16("65536"), None);
    assert_eq!(parse_u16("999999999999"), None);
    assert_eq!(parse_u16("+"), None);
    assert_eq!(parse_u16("1a"), None);
}

#[test]
fn substring_search() {
    assert!(contains_str("--help", "-h"));
    assert!(contains_str("x-j", "-j"));
    assert!(contains_str("abc", ""));
    assert!(!contains_str("-", "-j"));
    assert!(!contains_str("j-", "-j"));
}
