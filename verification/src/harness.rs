//! Decisions of the capture harness, which drives HTTPS requests that carry a
//! canary, so that the canary shows up in the captured plaintext.

use vstd::prelude::*;
use vstd::string::StringExecFns;
use vstd::utf8::{decode_utf8, valid_utf8};

use crate::text::{chars_of, contains, from_utf8_lossy, parse_unsigned, push_decimal, same_text};
use crate::text::{decimal, has_text, lines, lossy_text, unsigned_number};
use crate::text::{law_line_by_line, law_no_number, law_number_reads_back, stands_at};
use crate::text::{split_lines, string_of};

verus! {

// ---------------------------------------------------------------------------
// Command line
// ---------------------------------------------------------------------------

/// One argument of the command line.
pub struct Arg {
    pub text: String,
    /// Whether the text reads as a floating-point number.
    pub is_number: bool,
    /// Whether that number is zero or less.
    pub zero_or_less: bool,
}

/// The content of an argument.
pub struct ArgView {
    pub text: Seq<char>,
    pub is_number: bool,
    pub zero_or_less: bool,
}

impl View for Arg {
    type V = ArgView;

    open spec fn view(&self) -> ArgView {
        ArgView {
            text: self.text@,
            is_number: self.is_number,
            zero_or_less: self.zero_or_less,
        }
    }
}

/// Settings of a run.
pub struct Config {
    pub url: String,
    /// The canary; made up where none is given.
    pub canary: Option<String>,
    pub duration_secs: u64,
    /// Requests per second, as given; five where none is given.
    pub rate: Option<Arg>,
}

/// The content of the settings.
pub struct ConfigView {
    pub url: Seq<char>,
    pub canary: Option<Seq<char>>,
    pub duration_secs: int,
    pub rate: Option<ArgView>,
}

/// The text of an optional string.
pub open spec fn text_of(text: Option<String>) -> Option<Seq<char>> {
    match text {
        Some(t) => Some(t@),
        None => None,
    }
}

/// The content of an optional argument.
pub open spec fn content_of(arg: Option<Arg>) -> Option<ArgView> {
    match arg {
        Some(a) => Some(a@),
        None => None,
    }
}

impl View for Config {
    type V = ConfigView;

    open spec fn view(&self) -> ConfigView {
        ConfigView {
            url: self.url@,
            canary: text_of(self.canary),
            duration_secs: self.duration_secs as int,
            rate: content_of(self.rate),
        }
    }
}

/// What a command line asks for.
pub enum Invocation {
    /// Print the usage.
    Help,
    /// Drive requests.
    Run(Config),
}

/// What is wrong with a command line.
#[derive(Debug)]
pub enum ArgError {
    /// A flag without the value that it takes.
    MissingValue { flag: String },
    /// A duration that is no whole number of seconds.
    BadDuration,
    /// A rate that is no number.
    BadRate,
    /// A rate that is zero or less.
    RateNotPositive,
    /// No known flag.
    Unknown { arg: String },
}

impl ArgError {
    /// The one-line message for the error.
    pub open spec fn text(self) -> Seq<char> {
        match self {
            ArgError::MissingValue { flag } => flag@ + " requires a value"@,
            ArgError::BadDuration => "--duration must be an integer number of seconds"@,
            ArgError::BadRate => "--rate must be a number (requests per second)"@,
            ArgError::RateNotPositive => "--rate must be positive"@,
            ArgError::Unknown { arg } => "unknown argument: "@ + arg@ + " (try --help)"@,
        }
    }

    /// The one-line message for the error.
    pub fn message(&self) -> (message: String)
        ensures
            message@ == self.text(),
    {
        let mut message = String::new();
        match self {
            ArgError::MissingValue { flag } => {
                message.append(flag.as_str());
                message.append(" requires a value");
            },
            ArgError::BadDuration => message.append(
                "--duration must be an integer number of seconds",
            ),
            ArgError::BadRate => message.append("--rate must be a number (requests per second)"),
            ArgError::RateNotPositive => message.append("--rate must be positive"),
            ArgError::Unknown { arg } => {
                message.append("unknown argument: ");
                message.append(arg.as_str());
                message.append(" (try --help)");
            },
        }
        assert(message@ == self.text());
        message
    }
}

/// What the arguments of a command line come to.
pub enum Outcome {
    Help,
    Run(ConfigView),
    MissingValue(Seq<char>),
    BadDuration,
    BadRate,
    RateNotPositive,
    Unknown(Seq<char>),
}

/// The outcome that a result stands for.
pub open spec fn outcome_of(res: Result<Invocation, ArgError>) -> Outcome {
    match res {
        Ok(Invocation::Help) => Outcome::Help,
        Ok(Invocation::Run(config)) => Outcome::Run(config@),
        Err(ArgError::MissingValue { flag }) => Outcome::MissingValue(flag@),
        Err(ArgError::BadDuration) => Outcome::BadDuration,
        Err(ArgError::BadRate) => Outcome::BadRate,
        Err(ArgError::RateNotPositive) => Outcome::RateNotPositive,
        Err(ArgError::Unknown { arg }) => Outcome::Unknown(arg@),
    }
}

/// The flag takes a value.
pub open spec fn takes_value(flag: Seq<char>) -> bool {
    flag == "--url"@ || flag == "--canary"@ || flag == "--duration"@ || flag == "--rate"@
}

/// The number of seconds that a text stands for.
pub open spec fn seconds(text: Seq<char>) -> Option<int> {
    match unsigned_number(text) {
        Some(n) => if n <= u64::MAX {
            Some(n)
        } else {
            None
        },
        None => None,
    }
}

/// The settings that a flag with its value makes of others, or what is wrong with
/// the value.
pub open spec fn with_flag(config: ConfigView, flag: Seq<char>, value: ArgView) -> Outcome {
    if flag == "--url"@ {
        Outcome::Run(ConfigView { url: value.text, ..config })
    } else if flag == "--canary"@ {
        Outcome::Run(ConfigView { canary: Some(value.text), ..config })
    } else if flag == "--duration"@ {
        match seconds(value.text) {
            Some(n) => Outcome::Run(ConfigView { duration_secs: n, ..config }),
            None => Outcome::BadDuration,
        }
    } else if value.is_number {
        Outcome::Run(ConfigView { rate: Some(value), ..config })
    } else {
        Outcome::BadRate
    }
}

/// What arguments come to, from left to right: the first that asks for help or is
/// wrong decides, and of a flag given twice the last one counts.
pub open spec fn outcome_from(args: Seq<ArgView>, config: ConfigView) -> Outcome
    decreases args.len(),
{
    if args.len() == 0 {
        Outcome::Run(config)
    } else {
        let flag = args[0].text;
        if takes_value(flag) {
            if args.len() < 2 {
                Outcome::MissingValue(flag)
            } else {
                match with_flag(config, flag, args[1]) {
                    Outcome::Run(next) => outcome_from(args.skip(2), next),
                    failure => failure,
                }
            }
        } else if flag == "--help"@ || flag == "-h"@ {
            Outcome::Help
        } else {
            Outcome::Unknown(flag)
        }
    }
}

/// The settings have a rate that is zero or less.
pub open spec fn rate_refused(config: ConfigView) -> bool {
    config.rate matches Some(rate) && rate.zero_or_less
}

/// What a command line comes to: what its arguments come to, unless that is a run at
/// a rate of zero or less. Only the rate that counts in the end is refused.
pub open spec fn outcome_of_line(args: Seq<ArgView>) -> Outcome {
    match outcome_from(args, default_config()) {
        Outcome::Run(config) => if rate_refused(config) {
            Outcome::RateNotPositive
        } else {
            Outcome::Run(config)
        },
        other => other,
    }
}

/// The settings where no argument is given.
pub open spec fn default_config() -> ConfigView {
    ConfigView { url: "https://example.com/"@, canary: None, duration_secs: 60, rate: None }
}

/// Apply a flag that takes a value to the settings.
fn apply_flag(config: Config, flag: &str, value: &Arg) -> (res: Result<Config, ArgError>)
    requires
        takes_value(flag@),
    ensures
        match res {
            Ok(next) => with_flag(config@, flag@, value@) == Outcome::Run(next@),
            Err(err) => with_flag(config@, flag@, value@) == outcome_of(Err(err)) && !(with_flag(
                config@,
                flag@,
                value@,
            ) is Run),
        },
{
    let mut next = config;
    if same_text(flag, "--url") {
        next.url = value.text.clone();
    } else if same_text(flag, "--canary") {
        next.canary = Some(value.text.clone());
    } else if same_text(flag, "--duration") {
        match parse_unsigned(value.text.as_str(), u64::MAX) {
            Some(n) => next.duration_secs = n,
            None => return Err(ArgError::BadDuration),
        }
    } else if value.is_number {
        next.rate = Some(
            Arg {
                text: value.text.clone(),
                is_number: value.is_number,
                zero_or_less: value.zero_or_less,
            },
        );
    } else {
        return Err(ArgError::BadRate);
    }
    Ok(next)
}

/// Read the command line, without the name of the program.
pub fn parse_args(args: &Vec<Arg>) -> (res: Result<Invocation, ArgError>)
    ensures
        outcome_of(res) == outcome_of_line(args@.map_values(|a: Arg| a@)),
{
    let mut config = Config {
        url: "https://example.com/".to_owned(),
        canary: None,
        duration_secs: 60,
        rate: None,
    };
    let ghost all = args@.map_values(|a: Arg| a@);
    let mut i: usize = 0;
    assert(all.skip(0) == all);
    while i < args.len()
        invariant
            i <= args@.len(),
            all == args@.map_values(|a: Arg| a@),
            outcome_from(all, default_config()) == outcome_from(all.skip(i as int), config@),
        decreases args@.len() - i,
    {
        let flag: &str = args[i].text.as_str();
        assert(all.skip(i as int)[0] == args@[i as int]@);
        if same_text(flag, "--url") || same_text(flag, "--canary") || same_text(flag, "--duration")
            || same_text(flag, "--rate") {
            if args.len() - i < 2 {
                return Err(ArgError::MissingValue { flag: flag.to_owned() });
            }
            assert(all.skip(i as int)[1] == args@[i + 1]@);
            assert(all.skip(i as int).skip(2) == all.skip(i + 2));
            match apply_flag(config, flag, &args[i + 1]) {
                Ok(next) => config = next,
                Err(err) => return Err(err),
            }
            i += 2;
        } else if same_text(flag, "--help") || same_text(flag, "-h") {
            return Ok(Invocation::Help);
        } else {
            return Err(ArgError::Unknown { arg: flag.to_owned() });
        }
    }
    let refused = match &config.rate {
        Some(rate) => rate.zero_or_less,
        None => false,
    };
    if refused {
        return Err(ArgError::RateNotPositive);
    }
    Ok(Invocation::Run(config))
}

// ---------------------------------------------------------------------------
// Requests
// ---------------------------------------------------------------------------

/// The canary of a process at a time.
pub open spec fn canary_text(pid: nat, unix_nanos: nat) -> Seq<char> {
    "promptrail-canary-"@ + decimal(pid) + "-"@ + decimal(unix_nanos)
}

/// A canary that is unique enough for one run: the process id and the time.
pub fn default_canary(pid: u32, unix_nanos: u128) -> (canary: String)
    ensures
        canary@ == "promptrail-canary-"@ + decimal(pid as nat) + "-"@ + decimal(unix_nanos as nat),
        canary@ == canary_text(pid as nat, unix_nanos as nat),
{
    let mut canary = "promptrail-canary-".to_owned();
    push_decimal(&mut canary, pid as u128);
    canary.append("-");
    push_decimal(&mut canary, unix_nanos);
    canary
}

/// The texts of the arguments of `curl` for one request.
pub open spec fn request_texts(canary: Seq<char>, url: Seq<char>) -> Seq<Seq<char>> {
    seq![
        "--silent"@,
        "--show-error"@,
        "--fail"@,
        "--max-time"@,
        "10"@,
        "--output"@,
        "/dev/null"@,
        "-H"@,
        "X-PromptRail-Canary: "@ + canary,
        url,
    ]
}

/// The arguments of `curl` for one request. The canary rides in a header, so it is
/// part of the plaintext that the client hands to `SSL_write`. With `--fail` a response
/// that is no success makes `curl` exit with an error.
pub fn request_args(canary: &str, url: &str) -> (args: Vec<String>)
    ensures
        args@.map_values(|a: String| a@) == request_texts(canary@, url@),
{
    let mut header = "X-PromptRail-Canary: ".to_owned();
    header.append(canary);
    let args: Vec<String> = vec![
        "--silent".to_owned(),
        "--show-error".to_owned(),
        "--fail".to_owned(),
        "--max-time".to_owned(),
        "10".to_owned(),
        "--output".to_owned(),
        "/dev/null".to_owned(),
        "-H".to_owned(),
        header,
        url.to_owned(),
    ];
    assert(args@.map_values(|a: String| a@) == request_texts(canary@, url@));
    args
}

/// The banner of `curl` tells of a TLS library that the hook covers.
pub open spec fn tells_of_ssl(banner: Seq<char>) -> bool {
    has_text(banner, "OpenSSL"@) || has_text(banner, "SSL"@)
}

/// What to warn of, given the version banner of `curl`: its first line, where it
/// tells of no TLS library that the hook covers.
pub open spec fn banner_doubt(banner: Seq<char>) -> Option<Seq<char>> {
    if tells_of_ssl(banner) {
        None
    } else if lines(banner).len() > 0 {
        Some(lines(banner)[0])
    } else {
        Some(Seq::empty())
    }
}

/// What to warn of, given the version banner of `curl` as text.
pub fn doubt_in_banner(banner: &str) -> (doubt: Option<String>)
    ensures
        text_of(doubt) == banner_doubt(banner@),
{
    let text: Vec<char> = chars_of(banner);
    if contains(text.as_slice(), "OpenSSL") || contains(text.as_slice(), "SSL") {
        return None;
    }
    let split: Vec<Vec<char>> = split_lines(text.as_slice());
    let ghost all = split@.map_values(|l: Vec<char>| l@);
    assert(all.len() == split@.len());
    if split.len() > 0 {
        assert(all[0] == split@[0]@);
        Some(string_of(split[0].as_slice()))
    } else {
        Some(String::new())
    }
}

/// What to warn of, given the output of `curl --version`.
pub fn curl_doubt(stdout: &[u8]) -> (doubt: Option<String>)
    ensures
        text_of(doubt) == banner_doubt(lossy_text(stdout@)),
        valid_utf8(stdout@) ==> text_of(doubt) == banner_doubt(decode_utf8(stdout@)),
{
    let banner = from_utf8_lossy(stdout);
    doubt_in_banner(banner.as_str())
}

/// Whether a run goes on, given the time since its beginning.
pub fn soak_goes_on(elapsed_nanos: u128, duration_secs: u64) -> (yes: bool)
    ensures
        yes == (elapsed_nanos < duration_secs * 1_000_000_000),
        yes == not_over(elapsed_nanos as int, duration_secs as int),
{
    elapsed_nanos < duration_secs as u128 * 1_000_000_000
}

/// How long it is until a request is due.
pub open spec fn pause_before(now: int, due: int) -> int {
    if now < due {
        due - now
    } else {
        0
    }
}

/// A run of so many seconds is not over after so many nanoseconds.
pub open spec fn not_over(elapsed_nanos: int, duration_secs: int) -> bool {
    elapsed_nanos < duration_secs * 1_000_000_000
}

/// How long to wait before the next request, given the time and the time at which
/// it is due: a request that took longer than its share is followed at once.
pub fn pause(now: u128, due: u128) -> (wait: u128)
    ensures
        wait == pause_before(now as int, due as int),
        wait == if now < due {
            due - now
        } else {
            0
        },
{
    if now < due {
        due - now
    } else {
        0
    }
}

/// Counts the requests of a run.
#[derive(Debug, Clone, Copy)]
pub struct SoakTally {
    sent: u64,
    failed: u64,
}

impl SoakTally {
    /// Number of requests issued.
    pub closed spec fn issued(self) -> u64 {
        self.sent
    }

    /// Number of requests that did not succeed.
    pub closed spec fn unsuccessful(self) -> u64 {
        self.failed
    }

    #[verifier::type_invariant]
    closed spec fn wf(self) -> bool {
        self.failed <= self.sent
    }

    /// No request yet.
    pub fn new() -> (tally: SoakTally)
        ensures
            tally.issued() == 0,
            tally.unsuccessful() == 0,
    {
        SoakTally { sent: 0, failed: 0 }
    }

    /// Number of requests issued.
    pub fn sent(&self) -> (sent: u64)
        ensures
            sent == self.issued(),
    {
        self.sent
    }

    /// The tally after one more request: whether it succeeded, or why it could not
    /// be launched, which ends the run.
    pub fn record(self, outcome: Result<bool, String>) -> (res: Result<SoakTally, String>)
        requires
            outcome is Ok ==> self.issued() < u64::MAX,
        ensures
            match (outcome, res) {
                (Ok(success), Ok(tally)) => {
                    &&& tally.issued() == self.issued() + 1
                    &&& tally.unsuccessful() == self.unsuccessful() + if success {
                        0int
                    } else {
                        1
                    }
                },
                (Err(cause), Err(message)) => message@ == "failed to launch curl: "@ + cause@,
                _ => false,
            },
    {
        proof {
            use_type_invariant(&self);
        }
        match outcome {
            Ok(true) => Ok(SoakTally { sent: self.sent + 1, failed: self.failed }),
            Ok(false) => Ok(SoakTally { sent: self.sent + 1, failed: self.failed + 1 }),
            Err(cause) => {
                let mut message = "failed to launch curl: ".to_owned();
                message.append(cause.as_str());
                Err(message)
            },
        }
    }

    /// The closing line of a run.
    pub fn summary(&self) -> (line: String)
        ensures
            line@ == "soak complete: "@ + decimal(self.issued() as nat) + " requests issued ("@
                + decimal(self.unsuccessful() as nat)
                + " returned non-success). Confirm the daemon logged the canary and reported no drops."@,
    {
        let mut line = "soak complete: ".to_owned();
        push_decimal(&mut line, self.sent as u128);
        line.append(" requests issued (");
        push_decimal(&mut line, self.failed as u128);
        line.append(
            " returned non-success). Confirm the daemon logged the canary and reported no drops.",
        );
        line
    }
}

// ---------------------------------------------------------------------------
// Laws
// ---------------------------------------------------------------------------

/// A flag with its value changes its own setting and no other, and the rest of the line
/// goes on from there. A duration is a whole number of seconds that fits in 64 bits, and
/// a rate is a number.
pub proof fn law_flags_set_their_own(
    flag: ArgView,
    value: ArgView,
    rest: Seq<ArgView>,
    config: ConfigView,
)
    ensures
        ({
            let outcome = outcome_from(seq![flag, value] + rest, config);
            let seconds = unsigned_number(value.text);
            &&& flag.text == "--url"@ ==> outcome == outcome_from(
                rest,
                ConfigView {
                    url: value.text,
                    canary: config.canary,
                    duration_secs: config.duration_secs,
                    rate: config.rate,
                },
            )
            &&& flag.text == "--canary"@ ==> outcome == outcome_from(
                rest,
                ConfigView {
                    url: config.url,
                    canary: Some(value.text),
                    duration_secs: config.duration_secs,
                    rate: config.rate,
                },
            )
            &&& flag.text == "--duration"@ && seconds is Some && seconds->0
                <= 18446744073709551615 ==> outcome == outcome_from(
                rest,
                ConfigView {
                    url: config.url,
                    canary: config.canary,
                    duration_secs: seconds->0,
                    rate: config.rate,
                },
            )
            &&& flag.text == "--duration"@ && (seconds is None || seconds->0
                > 18446744073709551615) ==> outcome is BadDuration
            &&& flag.text == "--rate"@ && value.is_number ==> outcome == outcome_from(
                rest,
                ConfigView {
                    url: config.url,
                    canary: config.canary,
                    duration_secs: config.duration_secs,
                    rate: Some(value),
                },
            )
            &&& flag.text == "--rate"@ && !value.is_number ==> outcome is BadRate
        }),
{
    lemma_flags_differ();
    let line = seq![flag, value] + rest;
    assert(line[0] == flag && line[1] == value);
    assert(line.skip(2) =~= rest);
}

/// How a command line ends: with what was set so far where it is used up, with the usage
/// where it asks for help, and with an error at a flag that lacks its value or is
/// unknown.
pub proof fn law_ends_of_a_line(arg: ArgView, rest: Seq<ArgView>, config: ConfigView)
    ensures
        outcome_from(Seq::<ArgView>::empty(), config) == Outcome::Run(config),
        arg.text == "--help"@ || arg.text == "-h"@ ==> outcome_from(seq![arg] + rest, config)
            is Help,
        arg.text == "--url"@ || arg.text == "--canary"@ || arg.text == "--duration"@ || arg.text
            == "--rate"@ ==> outcome_from(seq![arg], config) == Outcome::MissingValue(arg.text),
        arg.text != "--help"@ && arg.text != "-h"@ && arg.text != "--url"@ && arg.text
            != "--canary"@ && arg.text != "--duration"@ && arg.text != "--rate"@ ==> outcome_from(
            seq![arg] + rest,
            config,
        ) == Outcome::Unknown(arg.text),
{
    lemma_flags_differ();
    assert((seq![arg] + rest)[0] == arg);
}

/// What a line comes to in the end: a run with the settings that it made of the
/// defaults, unless the rate that it ends with is zero or less.
pub proof fn law_rate_is_refused_in_the_end(args: Seq<ArgView>)
    ensures
        ({
            let start = ConfigView {
                url: "https://example.com/"@,
                canary: None,
                duration_secs: 60,
                rate: None,
            };
            match outcome_from(args, start) {
                Outcome::Run(config) => match config.rate {
                    Some(rate) => if rate.zero_or_less {
                        outcome_of_line(args) is RateNotPositive
                    } else {
                        outcome_of_line(args) == Outcome::Run(config)
                    },
                    None => outcome_of_line(args) == Outcome::Run(config),
                },
                other => outcome_of_line(args) == other,
            }
        }),
{
}

/// The messages for what is wrong with a command line.
pub proof fn law_argument_messages(err: ArgError)
    ensures
        err.text() == match err {
            ArgError::MissingValue { flag } => flag@ + " requires a value"@,
            ArgError::BadDuration => "--duration must be an integer number of seconds"@,
            ArgError::BadRate => "--rate must be a number (requests per second)"@,
            ArgError::RateNotPositive => "--rate must be positive"@,
            ArgError::Unknown { arg } => "unknown argument: "@ + arg@ + " (try --help)"@,
        },
{
}

proof fn lemma_flags_differ()
    ensures
        "--url"@ != "--canary"@,
        "--url"@ != "--duration"@,
        "--url"@ != "--rate"@,
        "--canary"@ != "--duration"@,
        "--canary"@ != "--rate"@,
        "--duration"@ != "--rate"@,
        "--help"@ != "--url"@,
        "--help"@ != "--canary"@,
        "--help"@ != "--duration"@,
        "--help"@ != "--rate"@,
        "-h"@ != "--url"@,
        "-h"@ != "--canary"@,
        "-h"@ != "--duration"@,
        "-h"@ != "--rate"@,
{
    reveal_strlit("--url");
    reveal_strlit("--canary");
    reveal_strlit("--duration");
    reveal_strlit("--rate");
    reveal_strlit("--help");
    reveal_strlit("-h");
    assert("--url"@[2] == 'u' && "--canary"@[2] == 'c' && "--duration"@[2] == 'd');
    assert("--rate"@[2] == 'r' && "--help"@[2] == 'h' && "-h"@.len() == 2);
}

/// A request carries the canary in a header of its own and goes to the address, with
/// the options under which a response that is no success is told apart.
pub proof fn law_request_carries_the_canary(canary: Seq<char>, url: Seq<char>)
    ensures
        request_texts(canary, url) == seq![
            "--silent"@,
            "--show-error"@,
            "--fail"@,
            "--max-time"@,
            "10"@,
            "--output"@,
            "/dev/null"@,
            "-H"@,
        ].push("X-PromptRail-Canary: "@ + canary).push(url),
{
    assert(request_texts(canary, url) =~= seq![
        "--silent"@,
        "--show-error"@,
        "--fail"@,
        "--max-time"@,
        "10"@,
        "--output"@,
        "/dev/null"@,
        "-H"@,
    ].push("X-PromptRail-Canary: "@ + canary).push(url));
}

/// A banner raises no doubt exactly where it holds `SSL`; where it does not, its first
/// line is told, whatever follows.
pub proof fn law_doubt_without_ssl(banner: Seq<char>, line: Seq<char>, rest: Seq<char>)
    requires
        !line.contains('\n'),
        line.len() > 0 && line[line.len() - 1] != '\r',
    ensures
        banner_doubt(banner) is None <==> has_text(banner, seq!['S', 'S', 'L']),
        !has_text(line + seq!['\n'] + rest, seq!['S', 'S', 'L']) ==> banner_doubt(
            line + seq!['\n'] + rest,
        ) == Some(line),
{
    reveal_strlit("SSL");
    reveal_strlit("OpenSSL");
    assert("SSL"@ =~= seq!['S', 'S', 'L']);
    let text = line + seq!['\n'] + rest;
    law_line_by_line(line, rest);
    lemma_openssl_has_ssl(banner);
    lemma_openssl_has_ssl(text);
    assert((seq![line] + lines(rest))[0] == line);
}

proof fn lemma_openssl_has_ssl(text: Seq<char>)
    ensures
        has_text(text, "OpenSSL"@) ==> has_text(text, "SSL"@),
{
    reveal_strlit("SSL");
    reveal_strlit("OpenSSL");
    if has_text(text, "OpenSSL"@) {
        let i = choose|i: int| stands_at(text, "OpenSSL"@, i);
        let part = text.subrange(i, i + 7);
        assert(part[4] == 'S' && part[5] == 'S' && part[6] == 'L');
        assert(text.subrange(i + 4, i + 7) =~= "SSL"@);
        assert(stands_at(text, "SSL"@, i + 4));
    }
}

/// Canaries tell processes and times apart: two are the same only where both are.
pub proof fn law_canaries_differ(p: nat, n: nat, q: nat, m: nat)
    requires
        canary_text(p, n) == canary_text(q, m),
    ensures
        p == q,
        n == m,
{
    let prefix = "promptrail-canary-"@;
    reveal_strlit("-");
    let a = decimal(p);
    let b = decimal(n);
    let c = decimal(q);
    let d = decimal(m);
    lemma_number_text(p);
    lemma_number_text(q);
    lemma_number_text(n);
    lemma_number_text(m);
    let left = a + "-"@ + b;
    let right = c + "-"@ + d;
    assert(canary_text(p, n) =~= prefix + left);
    assert(canary_text(q, m) =~= prefix + right);
    assert(left =~= right) by {
        assert(left =~= (prefix + left).skip(prefix.len() as int));
        assert(right =~= (prefix + right).skip(prefix.len() as int));
    }
    assert(left[a.len() as int] == '-');
    assert(right[c.len() as int] == '-');
    if a.len() < c.len() {
        assert(right[a.len() as int] == c[a.len() as int]);
    }
    if c.len() < a.len() {
        assert(left[c.len() as int] == a[c.len() as int]);
    }
    assert(a =~= left.take(a.len() as int));
    assert(c =~= right.take(c.len() as int));
    assert(b =~= left.skip(a.len() as int + 1));
    assert(d =~= right.skip(c.len() as int + 1));
}

proof fn lemma_number_text(n: nat)
    ensures
        unsigned_number(decimal(n)) == Some(n as int),
        forall|i: int| 0 <= i < decimal(n).len() ==> #[trigger] decimal(n)[i] != '-',
{
    law_number_reads_back(n, Seq::empty());
    assert(Seq::<char>::empty() + decimal(n) =~= decimal(n));
    law_no_number(decimal(n));
    assert forall|i: int| 0 <= i < decimal(n).len() implies #[trigger] decimal(n)[i] != '-' by {
        if decimal(n)[i] == '-' {
            assert(!(48 <= decimal(n)[i] as int <= 57));
        }
    }
}

/// After the pause a request is due, and no request waits longer than that. A run goes
/// on for its seconds: through every nanosecond of the last one, and not beyond.
pub proof fn law_pacing(now: int, due: int, secs: int, nanos: int)
    requires
        0 <= nanos < 1000000000,
    ensures
        now <= due ==> now + pause_before(now, due) == due,
        now > due ==> pause_before(now, due) == 0,
        not_over((secs - 1) * 1000000000 + nanos, secs),
        !not_over(secs * 1000000000 + nanos, secs),
{
}

} // verus!
