//! The command line of the harness, its requests and its tally.

use promptrail::harness::{
    curl_doubt, default_canary, doubt_in_banner, parse_args, pause, request_args, soak_goes_on,
    Arg, ArgError, Config, Invocation, SoakTally,
};

fn args(texts: &[&str]) -> Vec<Arg> {
    texts
        .iter()
        .map(|t| Arg {
            text: t.to_string(),
            is_number: t.parse::<f64>().is_ok(),
            zero_or_less: t.parse::<f64>().is_ok_and(|n| n <= 0.0),
        })
        .collect()
}

fn run(texts: &[&str]) -> Config {
    match parse_args(&args(texts)) {
        Ok(Invocation::Run(config)) => config,
        _ => panic!("the arguments ask for a run"),
    }
}

fn wrong(texts: &[&str]) -> ArgError {
    match parse_args(&args(texts)) {
        Ok(_) => panic!("the arguments are wrong"),
        Err(e) => e,
    }
}

#[test]
fn settings_where_none_are_given() {
    let c = run(&[]);
    assert_eq!(c.url, "https://example.com/");
    assert_eq!(c.canary, None);
    assert_eq!(c.duration_secs, 60);
    assert!(c.rate.is_none());
}

#[test]
fn settings_from_the_command_line() {
    let c = run(&["--url", "u", "--canary", "c", "--duration", "+7", "--rate", "2.5"]);
    assert_eq!(c.url, "u");
    assert_eq!(c.canary, Some("c".to_owned()));
    assert_eq!(c.duration_secs, 7);
    assert_eq!(c.rate.map(|r| r.text), Some("2.5".to_owned()));
    // The last of two counts, and a value may look like a flag.
    assert_eq!(run(&["--url", "a", "--url", "--help"]).url, "--help");
    assert_eq!(run(&["--duration", "18446744073709551615"]).duration_secs, u64::MAX);
}

#[test]
fn only_the_last_rate_is_refused() {
    assert_eq!(run(&["--rate", "-1", "--rate", "2"]).rate.map(|r| r.text), Some("2".to_owned()));
    assert!(matches!(wrong(&["--rate", "2", "--rate", "-1"]), ArgError::RateNotPositive));
    // What stands wrong on the line is told first, and help is help.
    assert!(matches!(wrong(&["--rate", "-1", "--url"]), ArgError::MissingValue { .. }));
    assert!(matches!(parse_args(&args(&["--rate", "0", "-h"])), Ok(Invocation::Help)));
    // No number of requests is no rate of zero or less.
    assert!(run(&["--rate", "NaN"]).rate.is_some());
}

#[test]
fn help_is_asked_for() {
    assert!(matches!(parse_args(&args(&["--help"])), Ok(Invocation::Help)));
    assert!(matches!(parse_args(&args(&["--url", "u", "-h", "bad"])), Ok(Invocation::Help)));
}

#[test]
fn wrong_arguments() {
    assert_eq!(wrong(&["--url"]).message(), "--url requires a value");
    assert_eq!(wrong(&["--duration", "1", "--rate"]).message(), "--rate requires a value");
    for bad in ["", "1.5", "-1", "x", "18446744073709551616", "+"] {
        let e = wrong(&["--duration", bad, "--help"]);
        assert!(matches!(e, ArgError::BadDuration));
        assert_eq!(e.message(), "--duration must be an integer number of seconds");
        assert!(bad.parse::<u64>().is_err());
    }
    let e = wrong(&["--rate", "fast"]);
    assert!(matches!(e, ArgError::BadRate));
    assert_eq!(e.message(), "--rate must be a number (requests per second)");
    for bad in ["-1", "0", "-0.0", "-inf"] {
        let e = wrong(&["--rate", bad]);
        assert!(matches!(e, ArgError::RateNotPositive));
        assert_eq!(e.message(), "--rate must be positive");
    }
    assert_eq!(wrong(&["-x", "--help"]).message(), "unknown argument: -x (try --help)");
    assert!(matches!(wrong(&["--rat", "1"]), ArgError::Unknown { .. }));
    assert!(matches!(wrong(&["--canary"]), ArgError::MissingValue { .. }));
}

#[test]
fn canaries() {
    assert_eq!(default_canary(0, 0), "promptrail-canary-0-0");
    assert_eq!(
        default_canary(u32::MAX, u128::MAX),
        "promptrail-canary-4294967295-340282366920938463463374607431768211455"
    );
}

#[test]
fn the_canary_rides_in_a_header() {
    assert_eq!(
        request_args("c-1", "https://example.com/"),
        vec![
            "--silent",
            "--show-error",
            "--fail",
            "--max-time",
            "10",
            "--output",
            "/dev/null",
            "-H",
            "X-PromptRail-Canary: c-1",
            "https://example.com/",
        ]
    );
}

#[test]
fn banners_of_curl() {
    assert_eq!(doubt_in_banner("curl 8.5.0 OpenSSL/3.0.13\nRelease"), None);
    assert_eq!(doubt_in_banner("curl\nFeatures: SSL"), None);
    assert_eq!(
        doubt_in_banner("curl 8.5.0 GnuTLS/3.8\r\nRelease"),
        Some("curl 8.5.0 GnuTLS/3.8".to_owned())
    );
    assert_eq!(doubt_in_banner(""), Some(String::new()));
    assert_eq!(curl_doubt(b"curl GnuTLS\xff\nSSL"), None);
    assert_eq!(curl_doubt(b"curl \xff\xfe rustls\n"), Some("curl \u{fffd}\u{fffd} rustls".to_owned()));
}

#[test]
fn runs_end_with_their_duration() {
    assert!(soak_goes_on(0, 1));
    assert!(soak_goes_on(59_999_999_999, 60));
    assert!(!soak_goes_on(60_000_000_000, 60));
    assert!(!soak_goes_on(0, 0));
    assert!(soak_goes_on(u64::MAX as u128 * 1_000_000_000 - 1, u64::MAX));
}

#[test]
fn pauses() {
    assert_eq!(pause(5, 9), 4);
    assert_eq!(pause(9, 9), 0);
    assert_eq!(pause(10, 9), 0);
}

#[test]
fn tallies() {
    let mut tally = SoakTally::new();
    for outcome in [true, false, true] {
        tally = match tally.record(Ok(outcome)) {
            Ok(next) => next,
            Err(e) => panic!("{e}"),
        };
    }
    assert_eq!(tally.sent(), 3);
    assert_eq!(
        tally.summary(),
        "soak complete: 3 requests issued (1 returned non-success). \
         Confirm the daemon logged the canary and reported no drops."
    );
    assert_eq!(
        tally.record(Err("no such file".to_owned())).err(),
        Some("failed to launch curl: no such file".to_owned())
    );
}
