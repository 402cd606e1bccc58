use ruresol::classify::{
    forward_result, invalid_address_result, process_entry, reverse_result, FailureCause, Family,
    Mode, Outcome,
};
use ruresol::dispatch::{item_cost, Dispatcher};
use ruresol::line_source::{is_query_line, query_from_line};
use ruresol::resolve_error::{cause_of_shape, ErrorShape};

fn values(vs: &[&str]) -> Outcome {
    Outcome::Values(vs.iter().map(|v| v.to_string()).collect())
}

fn fail(c: FailureCause) -> Outcome {
    Outcome::Failure(c)
}

/// Answers like a fixed resolver: what each name gives, per family.
fn stub(mode: Mode, input: &str) -> (bool, Vec<Outcome>) {
    match mode {
        Mode::Reverse => match input {
            "8.8.8.8" => (true, vec![values(&["dns.google", "other.example"])]),
            "1.2.3.4" => (true, vec![fail(FailureCause::NameDoesNotExist)]),
            _ => (false, vec![]),
        },
        _ => {
            let mut out = Vec::new();
            for fam in mode.families() {
                out.push(match (input, fam) {
                    ("example.com", Family::V4) => values(&["93.184.216.34"]),
                    ("example.com", Family::V6) => values(&["2606:2800:220:1:248:1893:25c8:1946"]),
                    ("slow.example", _) => fail(FailureCause::Timeout),
                    _ => fail(FailureCause::NameDoesNotExist),
                });
            }
            (true, out)
        }
    }
}

/// Runs the whole pipeline over raw input, completing the started items in
/// the order that `finish_order` picks among those in flight.
fn run(input: &[u8], mode: Mode, limit: usize, ordered: bool, newest_first: bool) -> Vec<String> {
    let mut d = Dispatcher::new(limit, item_cost(mode, limit), ordered);
    let mut lines = input.split_inclusive(|b| *b == b'\n');
    let mut in_flight: Vec<(usize, String)> = Vec::new();
    let mut out = Vec::new();
    let mut done = false;
    loop {
        while !done && d.has_room() {
            match lines.next() {
                Some(raw) => {
                    if let Some(q) = query_from_line(raw) {
                        let (ok, outcomes) = stub(mode, &q);
                        let line = process_entry(&q, mode, ok, &outcomes);
                        let id = d.start();
                        in_flight.push((id, line));
                    }
                }
                None => done = true,
            }
        }
        if in_flight.is_empty() {
            if done {
                break;
            }
            continue;
        }
        let (id, line) = if newest_first { in_flight.pop().unwrap() } else { in_flight.remove(0) };
        out.extend(d.complete(id, line));
    }
    out
}

#[test]
fn forward_v4_single_address() {
    let out = run(b"example.com\n", Mode::ForwardV4, 25, true, false);
    assert_eq!(out, vec!["example.com=93.184.216.34".to_string()]);
}

#[test]
fn forward_v4_name_missing() {
    let r = forward_result("nonexistent.invalid", Mode::ForwardV4, &vec![fail(FailureCause::NameDoesNotExist)]);
    assert_eq!(r, "nonexistent.invalid:NXDOMAIN");
}

#[test]
fn reverse_takes_first_name() {
    let out = run(b"8.8.8.8\n", Mode::Reverse, 25, true, false);
    assert_eq!(out, vec!["8.8.8.8=dns.google".to_string()]);
}

#[test]
fn reverse_invalid_address() {
    assert_eq!(process_entry("not-an-ip", Mode::Reverse, false, &vec![]), "not-an-ip:Invalid IP address format");
    assert_eq!(Mode::Reverse.calls(false), 0);
    assert_eq!(invalid_address_result("x:y=z"), "x:y=z:Invalid IP address format");
}

#[test]
fn dual_nodata_then_values() {
    let r = forward_result(
        "example.com",
        Mode::ForwardDual,
        &vec![fail(FailureCause::NoDataOfRequestedType), values(&["2606:2800:220:1:248:1893:25c8:1946"])],
    );
    assert_eq!(r, "example.com=2606:2800:220:1:248:1893:25c8:1946");
}

#[test]
fn comments_and_blank_lines_dropped() {
    let out = run(b"# notes\n\n   \nexample.com\n  # indented comment\n", Mode::ForwardV4, 25, true, false);
    assert_eq!(out, vec!["example.com=93.184.216.34".to_string()]);
}

#[test]
fn line_filter_trims_and_rejects() {
    assert_eq!(query_from_line(b"  example.com \r\n"), Some("example.com".to_string()));
    assert_eq!(query_from_line(b"\xff\xfe bad\n"), None);
    assert_eq!(query_from_line(b"#x\n"), None);
    assert_eq!(query_from_line(b"\n"), None);
    assert_eq!(query_from_line(b"a#b"), Some("a#b".to_string()));
    assert!(is_query_line("x"));
    assert!(!is_query_line(""));
    assert!(!is_query_line("#"));
}

#[test]
fn every_query_line_gets_one_result() {
    let input = b"a.example\nexample.com\n# c\n\xff\n\nslow.example\nb.example\n";
    for ordered in [true, false] {
        for newest_first in [true, false] {
            let out = run(input, Mode::ForwardDual, 3, ordered, newest_first);
            assert_eq!(out.len(), 4);
            for name in ["a.example", "example.com", "slow.example", "b.example"] {
                assert_eq!(out.iter().filter(|l| l.starts_with(name)).count(), 1);
            }
        }
    }
}

#[test]
fn input_order_kept_when_completion_reversed() {
    let out = run(b"a.example\nexample.com\nslow.example\n", Mode::ForwardV4, 3, true, true);
    assert_eq!(
        out,
        vec![
            "a.example:NXDOMAIN".to_string(),
            "example.com=93.184.216.34".to_string(),
            "slow.example:Temporary error".to_string(),
        ]
    );
}

#[test]
fn unordered_mode_writes_on_completion() {
    let mut d = Dispatcher::new(2, 1, false);
    let a = d.start();
    let b = d.start();
    assert!(!d.has_room());
    assert_eq!(d.complete(b, "b".to_string()), vec!["b".to_string()]);
    assert!(d.has_room());
    assert_eq!(d.complete(a, "a".to_string()), vec!["a".to_string()]);
}

#[test]
fn ordered_mode_holds_until_turn() {
    let mut d = Dispatcher::new(3, 1, true);
    let a = d.start();
    let b = d.start();
    let c = d.start();
    assert!(d.complete(c, "c".to_string()).is_empty());
    assert!(d.complete(b, "b".to_string()).is_empty());
    // held lines still occupy the window
    assert!(!d.has_room());
    assert_eq!(d.complete(a, "a".to_string()), vec!["a".to_string(), "b".to_string(), "c".to_string()]);
    assert!(d.has_room());
}

#[test]
fn dual_nxdomain_outranks_nodata() {
    let nx = || fail(FailureCause::NameDoesNotExist);
    let nodata = || fail(FailureCause::NoDataOfRequestedType);
    assert_eq!(forward_result("h", Mode::ForwardDual, &vec![nx(), nodata()]), "h:NXDOMAIN");
    assert_eq!(forward_result("h", Mode::ForwardDual, &vec![nodata(), nx()]), "h:NXDOMAIN");
}

#[test]
fn values_hide_sibling_failure() {
    for c in [
        FailureCause::NameDoesNotExist,
        FailureCause::NoDataOfRequestedType,
        FailureCause::Timeout,
        FailureCause::ServerFailure,
        FailureCause::Other,
    ] {
        assert_eq!(forward_result("h", Mode::ForwardDual, &vec![values(&["1.2.3.4"]), fail(c)]), "h=1.2.3.4");
        assert_eq!(forward_result("h", Mode::ForwardDual, &vec![fail(c), values(&["::1", "::2"])]), "h=::1,::2");
    }
}

#[test]
fn same_input_same_output() {
    let input = b"example.com\nslow.example\nnope.example\n# skip\n";
    let first = run(input, Mode::ForwardDual, 2, true, true);
    let second = run(input, Mode::ForwardDual, 2, true, false);
    assert_eq!(first, second);
    assert_eq!(first, run(input, Mode::ForwardDual, 2, true, true));
}

#[test]
fn forward_messages() {
    let t = || fail(FailureCause::Timeout);
    let nd = || fail(FailureCause::NoDataOfRequestedType);
    assert_eq!(forward_result("h", Mode::ForwardV4, &vec![nd()]), "h:No A records found");
    assert_eq!(forward_result("h", Mode::ForwardV6, &vec![nd()]), "h:No AAAA records found");
    assert_eq!(forward_result("h", Mode::ForwardDual, &vec![nd(), nd()]), "h:No records found");
    assert_eq!(forward_result("h", Mode::ForwardDual, &vec![nd(), t()]), "h:Temporary error");
    assert_eq!(forward_result("h", Mode::ForwardDual, &vec![fail(FailureCause::Other), fail(FailureCause::NameDoesNotExist)]), "h:NXDOMAIN");
    assert_eq!(forward_result("h", Mode::ForwardV4, &vec![fail(FailureCause::ServerFailure)]), "h:Temporary error");
    assert_eq!(forward_result("h", Mode::ForwardV4, &vec![values(&[])]), "h:No records found");
    assert_eq!(forward_result("h", Mode::ForwardDual, &vec![values(&["1.1.1.1", "2.2.2.2"]), values(&["::1"])]), "h=1.1.1.1,2.2.2.2,::1");
}

#[test]
fn reverse_messages() {
    assert_eq!(reverse_result("1.2.3.4", &fail(FailureCause::NameDoesNotExist)), "1.2.3.4:NXDOMAIN");
    assert_eq!(reverse_result("1.2.3.4", &fail(FailureCause::NoDataOfRequestedType)), "1.2.3.4:No records found");
    assert_eq!(reverse_result("1.2.3.4", &fail(FailureCause::Timeout)), "1.2.3.4:Temporary error");
    assert_eq!(reverse_result("1.2.3.4", &values(&[])), "1.2.3.4:No records found");
}

#[test]
fn mode_families_and_costs() {
    assert_eq!(Mode::ForwardDual.families(), vec![Family::V4, Family::V6]);
    assert_eq!(Mode::ForwardV6.families(), vec![Family::V6]);
    assert!(Mode::Reverse.families().is_empty());
    assert_eq!(Mode::ForwardDual.calls(true), 2);
    assert_eq!(item_cost(Mode::ForwardDual, 25), 2);
    assert_eq!(item_cost(Mode::ForwardDual, 1), 1);
    assert_eq!(item_cost(Mode::Reverse, 25), 1);
}

#[test]
fn error_shapes_classified() {
    assert_eq!(cause_of_shape(ErrorShape::NoRecords(3)), FailureCause::NameDoesNotExist);
    assert_eq!(cause_of_shape(ErrorShape::NoRecords(0)), FailureCause::NoDataOfRequestedType);
    assert_eq!(cause_of_shape(ErrorShape::NoRecords(2)), FailureCause::ServerFailure);
    assert_eq!(cause_of_shape(ErrorShape::NoRecords(5)), FailureCause::Other);
    assert_eq!(cause_of_shape(ErrorShape::Timeout), FailureCause::Timeout);
    assert_eq!(cause_of_shape(ErrorShape::Other), FailureCause::Other);
}

#[test]
fn unicode_white_space_trimmed() {
    assert_eq!(query_from_line("\u{3000}\u{a0}host.example\u{85}\t\n".as_bytes()), Some("host.example".to_string()));
    assert_eq!(query_from_line("\u{200b}host\n".as_bytes()), Some("\u{200b}host".to_string()));
    assert_eq!(query_from_line("\u{2028} # hidden\n".as_bytes()), None);
}
