//! Which TLS library the processes of a system use, from `/proc/<pid>/maps`.
//!
//! The maps show what is loaded, which is what matters for interception: a process
//! that maps `libssl` is covered by the hook, one that maps GnuTLS or NSS is not,
//! and one that maps none of them does no TLS or carries its own.

use std::collections::HashMap;

use vstd::prelude::*;
use vstd::slice::slice_subrange;
use vstd::string::StringExecFns;

use crate::text::{
    chars_of, contains, parse_unsigned, same_text, split_lines, starts_with, string_of, trim_end,
    trim_start,
};
use crate::text::{
    decimal, has_text, is_white_space, law_found_text, law_line_by_line, law_number_reads_back,
    law_trimming, lines, stands_at, trimmed_end, trimmed_start, unsigned_number,
};

verus! {

broadcast use vstd::std_specs::hash::group_hash_axioms;

/// TLS library that a process appears to use.
#[derive(Debug, Clone, Copy, PartialEq, Eq, Structural)]
pub enum TlsBackend {
    /// Maps `libssl`, which the hook covers.
    OpenSsl,
    /// Maps GnuTLS, which the hook does not cover.
    GnuTls,
    /// Maps NSS, which the hook does not cover.
    Nss,
    /// Maps no known TLS library.
    Opaque,
}

impl TlsBackend {
    /// Whether the hook on `libssl` sees the plaintext of the process.
    pub fn covered_by_openssl_hook(self) -> (covered: bool)
        ensures
            covered == (self is OpenSsl),
    {
        match self {
            TlsBackend::OpenSsl => true,
            _ => false,
        }
    }
}

// ---------------------------------------------------------------------------
// Classification
// ---------------------------------------------------------------------------

/// The line maps `libssl`. `libcrypto` alone says nothing: many programs map it
/// that do no TLS.
pub open spec fn names_openssl(line: Seq<char>) -> bool {
    has_text(line, "libssl.so"@)
}

/// The line maps GnuTLS.
pub open spec fn names_gnutls(line: Seq<char>) -> bool {
    !names_openssl(line) && has_text(line, "libgnutls.so"@)
}

/// The line maps NSS.
pub open spec fn names_nss(line: Seq<char>) -> bool {
    &&& !names_openssl(line)
    &&& !names_gnutls(line)
    &&& has_text(line, "libnss3.so"@) || has_text(line, "libnspr4.so"@)
}

/// Some line satisfies the predicate.
pub open spec fn some_line(text: Seq<Seq<char>>, p: spec_fn(Seq<char>) -> bool) -> bool {
    exists|i: int| 0 <= i < text.len() && p(#[trigger] text[i])
}

/// The library that the lines of a maps file tell of. A library that the hook does
/// not cover goes first, so that the gap stays visible.
pub open spec fn backend_of(maps: Seq<Seq<char>>) -> TlsBackend {
    if some_line(maps, |l: Seq<char>| names_gnutls(l)) {
        TlsBackend::GnuTls
    } else if some_line(maps, |l: Seq<char>| names_nss(l)) {
        TlsBackend::Nss
    } else if some_line(maps, |l: Seq<char>| names_openssl(l)) {
        TlsBackend::OpenSsl
    } else {
        TlsBackend::Opaque
    }
}

/// Classify a process by the text of its maps file.
pub fn classify_maps(maps: &str) -> (backend: TlsBackend)
    ensures
        backend == backend_of(lines(maps@)),
{
    let text: Vec<char> = chars_of(maps);
    let split: Vec<Vec<char>> = split_lines(text.as_slice());
    let ghost all = split@.map_values(|l: Vec<char>| l@);
    let mut openssl = false;
    let mut gnutls = false;
    let mut nss = false;
    let mut i: usize = 0;
    while i < split.len()
        invariant
            i <= split@.len(),
            all == split@.map_values(|l: Vec<char>| l@),
            openssl == some_line(all.take(i as int), |l: Seq<char>| names_openssl(l)),
            gnutls == some_line(all.take(i as int), |l: Seq<char>| names_gnutls(l)),
            nss == some_line(all.take(i as int), |l: Seq<char>| names_nss(l)),
        decreases split@.len() - i,
    {
        let line: &[char] = split[i].as_slice();
        proof {
            assert(line@ == all[i as int]);
            lemma_some_line_step(all, i as int, |l: Seq<char>| names_openssl(l));
            lemma_some_line_step(all, i as int, |l: Seq<char>| names_gnutls(l));
            lemma_some_line_step(all, i as int, |l: Seq<char>| names_nss(l));
        }
        if contains(line, "libssl.so") {
            openssl = true;
        } else if contains(line, "libgnutls.so") {
            gnutls = true;
        } else if contains(line, "libnss3.so") || contains(line, "libnspr4.so") {
            nss = true;
        }
        i += 1;
    }
    assert(all.take(all.len() as int) == all);
    if gnutls {
        TlsBackend::GnuTls
    } else if nss {
        TlsBackend::Nss
    } else if openssl {
        TlsBackend::OpenSsl
    } else {
        TlsBackend::Opaque
    }
}

proof fn lemma_some_line_step(text: Seq<Seq<char>>, i: int, p: spec_fn(Seq<char>) -> bool)
    requires
        0 <= i < text.len(),
    ensures
        some_line(text.take(i + 1), p) == (some_line(text.take(i), p) || p(text[i])),
{
    let shorter = text.take(i);
    let longer = text.take(i + 1);
    if some_line(shorter, p) {
        let k = choose|k: int| 0 <= k < shorter.len() && p(#[trigger] shorter[k]);
        assert(p(longer[k]));
    }
    if p(text[i]) {
        assert(p(longer[i]));
    }
    if some_line(longer, p) {
        let k = choose|k: int| 0 <= k < longer.len() && p(#[trigger] longer[k]);
        if k < i {
            assert(p(shorter[k]));
        }
    }
}

// ---------------------------------------------------------------------------
// Where libssl lies
// ---------------------------------------------------------------------------

/// Index of the first slash from `from` on, or the length where there is none.
pub open spec fn slash_from(line: Seq<char>, from: int) -> int
    decreases line.len() - from,
{
    if from < 0 || from >= line.len() {
        line.len() as int
    } else if line[from] == '/' {
        from
    } else {
        slash_from(line, from + 1)
    }
}

/// The path that a line maps: what begins at its first slash. Empty where there is
/// none.
pub open spec fn path_part(line: Seq<char>) -> Seq<char> {
    line.skip(slash_from(line, 0))
}

/// The path of `libssl` that a line maps.
pub open spec fn libssl_in_line(line: Seq<char>) -> Option<Seq<char>> {
    if has_text(path_part(line), "libssl.so"@) {
        Some(trimmed_end(trimmed_start(path_part(line))))
    } else {
        None
    }
}

/// The path of `libssl` in the first of the lines that maps one.
pub open spec fn libssl_in_lines(maps: Seq<Seq<char>>) -> Option<Seq<char>>
    decreases maps.len(),
{
    if maps.len() == 0 {
        None
    } else if libssl_in_line(maps[0]) is Some {
        libssl_in_line(maps[0])
    } else {
        libssl_in_lines(maps.drop_first())
    }
}

/// The path of `libssl` in the first of the maps files that has one.
pub open spec fn loaded_libssl(maps: Seq<Seq<char>>) -> Option<Seq<char>>
    decreases maps.len(),
{
    if maps.len() == 0 {
        None
    } else if libssl_in_lines(lines(maps[0])) is Some {
        libssl_in_lines(lines(maps[0]))
    } else {
        loaded_libssl(maps.drop_first())
    }
}

/// The path of `libssl` that a line maps.
fn libssl_of_line(line: &[char]) -> (path: Option<String>)
    ensures
        match path {
            Some(path) => libssl_in_line(line@) == Some(path@),
            None => libssl_in_line(line@) is None,
        },
{
    let mut at: usize = 0;
    while at < line.len() && line[at] != '/'
        invariant
            at <= line@.len(),
            slash_from(line@, 0) == slash_from(line@, at as int),
        decreases line@.len() - at,
    {
        at += 1;
    }
    let path: &[char] = slice_subrange(line, at, line.len());
    assert(path@ == path_part(line@));
    if contains(path, "libssl.so") {
        Some(string_of(trim_end(trim_start(path))))
    } else {
        None
    }
}

/// The path of `libssl` in a maps file.
pub fn libssl_path_in_maps(maps: &str) -> (path: Option<String>)
    ensures
        match path {
            Some(path) => libssl_in_lines(lines(maps@)) == Some(path@),
            None => libssl_in_lines(lines(maps@)) is None,
        },
{
    let text: Vec<char> = chars_of(maps);
    let split: Vec<Vec<char>> = split_lines(text.as_slice());
    let ghost all = split@.map_values(|l: Vec<char>| l@);
    let mut i: usize = 0;
    assert(all.skip(0) == all);
    while i < split.len()
        invariant
            i <= split@.len(),
            all == lines(maps@),
            all == split@.map_values(|l: Vec<char>| l@),
            libssl_in_lines(all) == libssl_in_lines(all.skip(i as int)),
        decreases split@.len() - i,
    {
        assert(all.skip(i as int)[0] == split@[i as int]@);
        assert(all.skip(i as int).drop_first() == all.skip(i + 1));
        let path = libssl_of_line(split[i].as_slice());
        if path.is_some() {
            return path;
        }
        i += 1;
    }
    None
}

/// The path of `libssl` in the first of the maps files that has one. The files are
/// those that could be read, in the order of the processes.
pub fn resolve_libssl_path(maps: &Vec<String>) -> (path: Option<String>)
    ensures
        match path {
            Some(path) => loaded_libssl(maps@.map_values(|m: String| m@)) == Some(path@),
            None => loaded_libssl(maps@.map_values(|m: String| m@)) is None,
        },
{
    let ghost all = maps@.map_values(|m: String| m@);
    let mut i: usize = 0;
    assert(all.skip(0) == all);
    while i < maps.len()
        invariant
            i <= maps@.len(),
            all == maps@.map_values(|m: String| m@),
            loaded_libssl(all) == loaded_libssl(all.skip(i as int)),
        decreases maps@.len() - i,
    {
        assert(all.skip(i as int)[0] == maps@[i as int]@);
        assert(all.skip(i as int).drop_first() == all.skip(i + 1));
        let path = libssl_path_in_maps(maps[i].as_str());
        if path.is_some() {
            return path;
        }
        i += 1;
    }
    None
}

/// The names in a directory.
pub struct DirListing {
    pub root: String,
    pub names: Vec<String>,
}

/// The directories to look for `libssl` in.
pub open spec fn root_texts() -> Seq<Seq<char>> {
    seq![
        "/lib"@,
        "/lib64"@,
        "/usr/lib"@,
        "/usr/lib64"@,
        "/lib/x86_64-linux-gnu"@,
        "/usr/lib/x86_64-linux-gnu"@,
        "/lib/aarch64-linux-gnu"@,
        "/usr/lib/aarch64-linux-gnu"@,
    ]
}

/// The directories to look for `libssl` in, in order.
pub fn search_roots() -> (roots: Vec<&'static str>)
    ensures
        roots@.map_values(|r: &'static str| r@) == root_texts(),
{
    let roots: Vec<&'static str> = vec![
        "/lib",
        "/lib64",
        "/usr/lib",
        "/usr/lib64",
        "/lib/x86_64-linux-gnu",
        "/usr/lib/x86_64-linux-gnu",
        "/lib/aarch64-linux-gnu",
        "/usr/lib/aarch64-linux-gnu",
    ];
    assert(roots@.map_values(|r: &'static str| r@) == root_texts());
    roots
}

/// The name is that of a `libssl` file, with or without a version.
pub open spec fn is_libssl_name(name: Seq<char>) -> bool {
    name == "libssl.so"@ || stands_at(name, "libssl.so."@, 0)
}

/// The first of the names that is that of `libssl`.
pub open spec fn libssl_name(names: Seq<Seq<char>>) -> Option<Seq<char>>
    decreases names.len(),
{
    if names.len() == 0 {
        None
    } else if is_libssl_name(names[0]) {
        Some(names[0])
    } else {
        libssl_name(names.drop_first())
    }
}

impl DirListing {
    /// The names in the directory.
    pub open spec fn texts(self) -> Seq<Seq<char>> {
        self.names@.map_values(|n: String| n@)
    }
}

/// The path of the first `libssl` file in the directories.
pub open spec fn libssl_on_disk(dirs: Seq<DirListing>) -> Option<Seq<char>>
    decreases dirs.len(),
{
    if dirs.len() == 0 {
        None
    } else {
        match libssl_name(dirs[0].texts()) {
            Some(name) => Some(dirs[0].root@ + "/"@ + name),
            None => libssl_on_disk(dirs.drop_first()),
        }
    }
}

/// Index of the first `libssl` name in a directory.
fn libssl_in_dir(dir: &DirListing) -> (found: Option<usize>)
    ensures
        match found {
            Some(i) => i < dir.names@.len() && libssl_name(dir.texts()) == Some(
                dir.names@[i as int]@,
            ),
            None => libssl_name(dir.texts()) is None,
        },
{
    let ghost all = dir.texts();
    let mut i: usize = 0;
    assert(all.skip(0) == all);
    while i < dir.names.len()
        invariant
            i <= dir.names@.len(),
            all == dir.texts(),
            libssl_name(all) == libssl_name(all.skip(i as int)),
        decreases dir.names@.len() - i,
    {
        assert(all.skip(i as int)[0] == dir.names@[i as int]@);
        assert(all.skip(i as int).drop_first() == all.skip(i + 1));
        let name: &str = dir.names[i].as_str();
        if same_text(name, "libssl.so") || starts_with(name, "libssl.so.") {
            return Some(i);
        }
        i += 1;
    }
    None
}

/// The path of the first `libssl` file in the directories. A directory that could
/// not be read is listed without names.
pub fn find_libssl_on_disk(dirs: &Vec<DirListing>) -> (path: Option<String>)
    ensures
        match path {
            Some(path) => libssl_on_disk(dirs@) == Some(path@),
            None => libssl_on_disk(dirs@) is None,
        },
{
    let mut i: usize = 0;
    assert(dirs@.skip(0) == dirs@);
    while i < dirs.len()
        invariant
            i <= dirs@.len(),
            libssl_on_disk(dirs@) == libssl_on_disk(dirs@.skip(i as int)),
        decreases dirs@.len() - i,
    {
        assert(dirs@.skip(i as int)[0] == dirs@[i as int]);
        assert(dirs@.skip(i as int).drop_first() == dirs@.skip(i + 1));
        let dir = &dirs[i];
        match libssl_in_dir(dir) {
            Some(k) => {
                let mut path = dir.root.clone();
                path.append("/");
                path.append(dir.names[k].as_str());
                return Some(path);
            },
            None => {},
        }
        i += 1;
    }
    None
}

/// The attach target: the path of a loaded `libssl`, else that of one on disk,
/// else the bare library name.
pub open spec fn libssl_target(maps: Seq<Seq<char>>, dirs: Seq<DirListing>) -> Seq<char> {
    match loaded_libssl(maps) {
        Some(path) => path,
        None => match libssl_on_disk(dirs) {
            Some(path) => path,
            None => "ssl"@,
        },
    }
}

/// Resolve the most specific attach target: the path of a `libssl` that some
/// process has loaded, else that of one on disk, else the bare library name. The
/// target is never empty.
pub fn resolve_libssl_target(maps: &Vec<String>, dirs: &Vec<DirListing>) -> (target: String)
    ensures
        target@ == libssl_target(maps@.map_values(|m: String| m@), dirs@),
        target@.len() > 0,
{
    proof {
        law_libssl_target_not_empty(maps@.map_values(|m: String| m@), dirs@);
    }
    if let Some(path) = resolve_libssl_path(maps) {
        return path;
    }
    if let Some(path) = find_libssl_on_disk(dirs) {
        return path;
    }
    "ssl".to_owned()
}

/// The attach target is never empty, whatever was found.
pub proof fn law_libssl_target_not_empty(maps: Seq<Seq<char>>, dirs: Seq<DirListing>)
    ensures
        libssl_target(maps, dirs).len() > 0,
{
    reveal_strlit("ssl");
    law_loaded_libssl_is_absolute(maps);
    lemma_on_disk_not_empty(dirs);
}

/// The path of a loaded `libssl` is absolute.
pub proof fn law_loaded_libssl_is_absolute(maps: Seq<Seq<char>>)
    ensures
        loaded_libssl(maps) matches Some(path) ==> path.len() > 0 && path[0] == '/',
    decreases maps.len(),
{
    if maps.len() > 0 {
        lemma_path_in_lines(lines(maps[0]));
        law_loaded_libssl_is_absolute(maps.drop_first());
    }
}

proof fn lemma_path_in_lines(maps: Seq<Seq<char>>)
    ensures
        libssl_in_lines(maps) matches Some(path) ==> path.len() > 0 && path[0] == '/',
    decreases maps.len(),
{
    if maps.len() > 0 {
        let line = maps[0];
        let path = path_part(line);
        lemma_slash_from(line, 0);
        if has_text(path, "libssl.so"@) {
            reveal_strlit("libssl.so");
            assert(path.len() > 0);
            assert(path[0] == '/');
            lemma_trimmed_end_keeps_first(path);
        }
        lemma_path_in_lines(maps.drop_first());
    }
}

proof fn lemma_slash_from(line: Seq<char>, from: int)
    requires
        0 <= from,
    ensures
        0 <= slash_from(line, from) <= line.len(),
        slash_from(line, from) < line.len() ==> line[slash_from(line, from)] == '/',
    decreases line.len() - from,
{
    if from < line.len() && line[from] != '/' {
        lemma_slash_from(line, from + 1);
    }
}

proof fn lemma_trimmed_end_keeps_first(text: Seq<char>)
    requires
        text.len() > 0,
        !is_white_space(text[0]),
    ensures
        trimmed_end(text).len() > 0,
        trimmed_end(text)[0] == text[0],
    decreases text.len(),
{
    if is_white_space(text.last()) {
        lemma_trimmed_end_keeps_first(text.drop_last());
    }
}

proof fn lemma_on_disk_not_empty(dirs: Seq<DirListing>)
    ensures
        libssl_on_disk(dirs) matches Some(path) ==> path.len() > 0,
    decreases dirs.len(),
{
    reveal_strlit("/");
    if dirs.len() > 0 {
        lemma_on_disk_not_empty(dirs.drop_first());
    }
}

// ---------------------------------------------------------------------------
// Processes
// ---------------------------------------------------------------------------

/// The process id that a name under `/proc` stands for.
pub open spec fn pid_of(name: Seq<char>) -> Option<u32> {
    match unsigned_number(name) {
        Some(n) => if n <= u32::MAX {
            Some(n as u32)
        } else {
            None
        },
        None => None,
    }
}

/// The process ids among names under `/proc`, in order.
pub open spec fn pids_of(names: Seq<Seq<char>>) -> Seq<u32>
    decreases names.len(),
{
    if names.len() == 0 {
        Seq::empty()
    } else {
        let front = pids_of(names.drop_last());
        match pid_of(names.last()) {
            Some(pid) => front.push(pid),
            None => front,
        }
    }
}

/// The process ids among the names under `/proc`.
pub fn list_pids(names: &Vec<String>) -> (pids: Vec<u32>)
    ensures
        pids@ == pids_of(names@.map_values(|n: String| n@)),
{
    let ghost all = names@.map_values(|n: String| n@);
    let mut pids: Vec<u32> = Vec::new();
    let mut i: usize = 0;
    assert(all.take(0) == Seq::<Seq<char>>::empty());
    while i < names.len()
        invariant
            i <= names@.len(),
            all == names@.map_values(|n: String| n@),
            pids@ == pids_of(all.take(i as int)),
        decreases names@.len() - i,
    {
        assert(all.take(i + 1).drop_last() == all.take(i as int));
        assert(all.take(i + 1).last() == names@[i as int]@);
        if let Some(pid) = parse_unsigned(names[i].as_str(), u32::MAX as u64) {
            pids.push(pid as u32);
        }
        i += 1;
    }
    assert(all.take(all.len() as int) == all);
    pids
}

/// The name of a process, from the text of its `comm` file.
pub open spec fn comm_text(contents: Option<Seq<char>>) -> Seq<char> {
    match contents {
        Some(text) => trimmed_end(text),
        None => "<unknown>"@,
    }
}

/// The name of a process for a report, from its `comm` file where that could be
/// read.
pub fn comm_name(contents: Option<&str>) -> (name: String)
    ensures
        name@ == match contents {
            Some(text) => trimmed_end(text@),
            None => "<unknown>"@,
        },
        name@ == comm_text(
            match contents {
                Some(text) => Some(text@),
                None => None,
            },
        ),
{
    match contents {
        Some(text) => {
            let chars: Vec<char> = chars_of(text);
            string_of(trim_end(chars.as_slice()))
        },
        None => "<unknown>".to_owned(),
    }
}

/// How urgent a notice is.
#[derive(Debug, Clone, Copy, PartialEq, Eq)]
pub enum Severity {
    Debug,
    Info,
    Warn,
}

/// What is said about a process that was seen for the first time, or with another
/// library than before.
#[derive(Debug, Clone, Copy)]
pub struct Notice {
    pub severity: Severity,
    pub backend: &'static str,
    pub message: &'static str,
}

/// What is said about a process that uses the library.
pub fn notice_for(backend: TlsBackend) -> (notice: Notice)
    ensures
        match backend {
            TlsBackend::OpenSsl => notice.severity is Info && notice.backend@ == "openssl"@
                && notice.message@ == "process uses OpenSSL \u{2014} covered by hook"@,
            TlsBackend::GnuTls => notice.severity is Warn && notice.backend@ == "gnutls"@
                && notice.message@
                == "process uses GnuTLS \u{2014} NOT covered by OpenSSL hook"@,
            TlsBackend::Nss => notice.severity is Warn && notice.backend@ == "nss"@
                && notice.message@ == "process uses NSS \u{2014} NOT covered by OpenSSL hook"@,
            TlsBackend::Opaque => notice.severity is Debug && notice.backend@ == "opaque"@
                && notice.message@ == "no known TLS library mapped"@,
        },
{
    match backend {
        TlsBackend::OpenSsl => Notice {
            severity: Severity::Info,
            backend: "openssl",
            message: "process uses OpenSSL \u{2014} covered by hook",
        },
        TlsBackend::GnuTls => Notice {
            severity: Severity::Warn,
            backend: "gnutls",
            message: "process uses GnuTLS \u{2014} NOT covered by OpenSSL hook",
        },
        TlsBackend::Nss => Notice {
            severity: Severity::Warn,
            backend: "nss",
            message: "process uses NSS \u{2014} NOT covered by OpenSSL hook",
        },
        TlsBackend::Opaque => Notice {
            severity: Severity::Debug,
            backend: "opaque",
            message: "no known TLS library mapped",
        },
    }
}

// ---------------------------------------------------------------------------
// Watching
// ---------------------------------------------------------------------------

/// Remembers what was reported of each process, so that each is reported once,
/// and again when it changes its library or its id is taken by another process.
pub struct ProcWatcher {
    seen: HashMap<u32, TlsBackend>,
}

impl View for ProcWatcher {
    type V = Map<u32, TlsBackend>;

    closed spec fn view(&self) -> Map<u32, TlsBackend> {
        self.seen@
    }
}

/// What is remembered when only these processes are left.
pub open spec fn kept(seen: Map<u32, TlsBackend>, pids: Seq<u32>) -> Map<u32, TlsBackend> {
    seen.restrict(pids.to_set())
}

/// The observation is worth a report.
pub open spec fn is_news(seen: Map<u32, TlsBackend>, pid: u32, backend: TlsBackend) -> bool {
    !(seen.dom().contains(pid) && seen[pid] == backend)
}

impl ProcWatcher {
    /// A watcher that has seen nothing.
    pub fn new() -> (watcher: ProcWatcher)
        ensures
            watcher@ == Map::<u32, TlsBackend>::empty(),
    {
        ProcWatcher { seen: HashMap::new() }
    }

    /// Begin a scan over the processes: those that are gone are forgotten, so that
    /// an id that is used again counts as new.
    pub fn begin_scan(&mut self, pids: &Vec<u32>)
        ensures
            final(self)@ == kept(old(self)@, pids@),
    {
        let ghost before = self.seen@;
        let mut live: HashMap<u32, TlsBackend> = HashMap::new();
        let mut i: usize = 0;
        assert(live@ =~= kept(before, pids@.take(0)));
        while i < pids.len()
            invariant
                i <= pids@.len(),
                before == self.seen@,
                live@ =~= kept(before, pids@.take(i as int)),
            decreases pids@.len() - i,
        {
            let pid: u32 = pids[i];
            proof {
                let shorter = pids@.take(i as int);
                let longer = pids@.take(i + 1);
                assert(longer == shorter.push(pid));
                assert forall|x: u32| longer.contains(x) == (shorter.contains(x) || x == pid) by {
                    if shorter.contains(x) {
                        let k = choose|k: int| 0 <= k < shorter.len() && shorter[k] == x;
                        assert(longer[k] == x);
                    }
                    assert(longer[i as int] == pid);
                }
            }
            if let Some(backend) = self.seen.get(&pid) {
                live.insert(pid, *backend);
            }
            i += 1;
        }
        assert(pids@.take(pids@.len() as int) == pids@);
        self.seen = live;
    }

    /// Observe a process by its maps file; `None` for one that is gone or that
    /// cannot be read. Returns the library where it is to be reported.
    pub fn observe(&mut self, pid: u32, maps: Option<&str>) -> (news: Option<TlsBackend>)
        ensures
            match maps {
                Some(text) => {
                    let backend = backend_of(lines(text@));
                    &&& final(self)@ == old(self)@.insert(pid, backend)
                    &&& news == if is_news(old(self)@, pid, backend) {
                        Some(backend)
                    } else {
                        None
                    }
                },
                None => final(self)@ == old(self)@ && news is None,
            },
    {
        let backend = match maps {
            Some(text) => classify_maps(text),
            None => return None,
        };
        let previously = self.seen.insert(pid, backend);
        match previously {
            Some(known) => if known == backend {
                None
            } else {
                Some(backend)
            },
            None => Some(backend),
        }
    }
}

/// A process is reported once: seen again with the same library, in the same scan
/// or in a later one that still lists it, it is no news.
pub proof fn law_reported_once(
    seen: Map<u32, TlsBackend>,
    pids: Seq<u32>,
    pid: u32,
    backend: TlsBackend,
)
    requires
        pids.contains(pid),
    ensures
        !is_news(seen.insert(pid, backend), pid, backend),
        !is_news(kept(seen.insert(pid, backend), pids), pid, backend),
{
}

/// A change of library is news, in the same scan or in a later one.
pub proof fn law_change_is_news(
    seen: Map<u32, TlsBackend>,
    pids: Seq<u32>,
    pid: u32,
    before: TlsBackend,
    after: TlsBackend,
)
    requires
        before != after,
    ensures
        is_news(seen.insert(pid, before), pid, after),
        is_news(kept(seen.insert(pid, before), pids), pid, after),
{
}

/// An id that a scan did not list is new when it is seen again.
pub proof fn law_recycled_pid_is_news(
    seen: Map<u32, TlsBackend>,
    pids: Seq<u32>,
    pid: u32,
    backend: TlsBackend,
)
    requires
        !pids.contains(pid),
    ensures
        is_news(kept(seen, pids), pid, backend),
{
}

/// A step of a watch.
pub enum WatchStep {
    /// A scan over the processes begins.
    Scan { pids: Seq<u32> },
    /// A process is seen to use a library.
    Seen { pid: u32, backend: TlsBackend },
}

impl WatchStep {
    /// The step neither drops the process from the scan nor shows it with another
    /// library.
    pub open spec fn keeps(self, pid: u32, backend: TlsBackend) -> bool {
        match self {
            WatchStep::Scan { pids } => pids.contains(pid),
            WatchStep::Seen { pid: other, backend: b } => other == pid ==> b == backend,
        }
    }
}

/// What is remembered after several steps.
pub open spec fn seen_after(seen: Map<u32, TlsBackend>, steps: Seq<WatchStep>) -> Map<
    u32,
    TlsBackend,
>
    decreases steps.len(),
{
    if steps.len() == 0 {
        seen
    } else {
        let before = seen_after(seen, steps.drop_last());
        match steps.last() {
            WatchStep::Scan { pids } => kept(before, pids),
            WatchStep::Seen { pid, backend } => before.insert(pid, backend),
        }
    }
}

/// A process that was reported is no news through any number of scans that list it,
/// whatever is seen of other processes, as long as it keeps its library.
pub proof fn law_reported_once_over_scans(
    seen: Map<u32, TlsBackend>,
    steps: Seq<WatchStep>,
    pid: u32,
    backend: TlsBackend,
)
    requires
        forall|i: int| 0 <= i < steps.len() ==> (#[trigger] steps[i]).keeps(pid, backend),
    ensures
        !is_news(seen_after(seen.insert(pid, backend), steps), pid, backend),
    decreases steps.len(),
{
    if steps.len() > 0 {
        let front = steps.drop_last();
        assert forall|i: int| 0 <= i < front.len() implies (#[trigger] front[i]).keeps(
            pid,
            backend,
        ) by {
            assert(front[i] == steps[i]);
        }
        law_reported_once_over_scans(seen, front, pid, backend);
        assert(steps[steps.len() - 1].keeps(pid, backend));
    }
}

/// A process counts as covered only where it maps `libssl` and no library that the
/// hook does not cover.
pub proof fn law_covered_means_libssl_only(maps: Seq<Seq<char>>)
    ensures
        backend_of(maps) is OpenSsl <==> {
            &&& exists|i: int| 0 <= i < maps.len() && names_openssl(#[trigger] maps[i])
            &&& forall|i: int|
                0 <= i < maps.len() ==> !names_gnutls(#[trigger] maps[i]) && !names_nss(maps[i])
        },
{
    let openssl = |l: Seq<char>| names_openssl(l);
    let gnutls = |l: Seq<char>| names_gnutls(l);
    let nss = |l: Seq<char>| names_nss(l);
    if exists|i: int| 0 <= i < maps.len() && names_openssl(#[trigger] maps[i]) {
        let i = choose|i: int| 0 <= i < maps.len() && names_openssl(#[trigger] maps[i]);
        assert(openssl(maps[i]));
        assert(some_line(maps, openssl));
    }
    if exists|i: int| 0 <= i < maps.len() && names_gnutls(#[trigger] maps[i]) {
        let i = choose|i: int| 0 <= i < maps.len() && names_gnutls(#[trigger] maps[i]);
        assert(gnutls(maps[i]));
        assert(some_line(maps, gnutls));
    }
    if exists|i: int| 0 <= i < maps.len() && names_nss(#[trigger] maps[i]) {
        let i = choose|i: int| 0 <= i < maps.len() && names_nss(#[trigger] maps[i]);
        assert(nss(maps[i]));
        assert(some_line(maps, nss));
    }
}

// ---------------------------------------------------------------------------
// Laws on the texts
// ---------------------------------------------------------------------------

/// The library that lines tell of, by what they hold: a line that holds `libssl.so`
/// tells of OpenSSL alone; of the others one that holds `libgnutls.so` tells of GnuTLS,
/// and of the rest one that holds `libnss3.so` or `libnspr4.so` tells of NSS. GnuTLS goes
/// first, then NSS, then OpenSSL.
pub proof fn law_backend_by_names(maps: Seq<Seq<char>>)
    ensures
        ({
            let ssl = |l: Seq<char>| has_text(l, "libssl.so"@);
            let gnutls = |l: Seq<char>| !ssl(l) && has_text(l, "libgnutls.so"@);
            let nss = |l: Seq<char>|
                !ssl(l) && !has_text(l, "libgnutls.so"@) && (has_text(l, "libnss3.so"@) || has_text(
                    l,
                    "libnspr4.so"@,
                ));
            let some_ssl = exists|i: int| 0 <= i < maps.len() && ssl(#[trigger] maps[i]);
            let some_gnutls = exists|i: int| 0 <= i < maps.len() && gnutls(#[trigger] maps[i]);
            let some_nss = exists|i: int| 0 <= i < maps.len() && nss(#[trigger] maps[i]);
            backend_of(maps) == if some_gnutls {
                TlsBackend::GnuTls
            } else if some_nss {
                TlsBackend::Nss
            } else if some_ssl {
                TlsBackend::OpenSsl
            } else {
                TlsBackend::Opaque
            }
        }),
{
    let ssl = |l: Seq<char>| has_text(l, "libssl.so"@);
    let gnutls = |l: Seq<char>| !ssl(l) && has_text(l, "libgnutls.so"@);
    let nss = |l: Seq<char>|
        !ssl(l) && !has_text(l, "libgnutls.so"@) && (has_text(l, "libnss3.so"@) || has_text(
            l,
            "libnspr4.so"@,
        ));
    lemma_same_lines(maps, ssl, |l: Seq<char>| names_openssl(l));
    lemma_same_lines(maps, gnutls, |l: Seq<char>| names_gnutls(l));
    lemma_same_lines(maps, nss, |l: Seq<char>| names_nss(l));
}

proof fn lemma_same_lines(
    maps: Seq<Seq<char>>,
    p: spec_fn(Seq<char>) -> bool,
    q: spec_fn(Seq<char>) -> bool,
)
    requires
        forall|l: Seq<char>| #[trigger] p(l) == q(l),
    ensures
        some_line(maps, q) == exists|i: int| 0 <= i < maps.len() && p(#[trigger] maps[i]),
{
    if some_line(maps, q) {
        let i = choose|i: int| 0 <= i < maps.len() && q(#[trigger] maps[i]);
        assert(p(maps[i]));
    }
    if exists|i: int| 0 <= i < maps.len() && p(#[trigger] maps[i]) {
        let i = choose|i: int| 0 <= i < maps.len() && p(#[trigger] maps[i]);
        assert(q(maps[i]));
    }
}

/// A process whose only line holds `libssl.so`, whatever stands around it, is covered;
/// and one more such line changes nothing.
pub proof fn law_libssl_line_is_covered(a: Seq<char>, b: Seq<char>, c: Seq<char>, d: Seq<char>)
    requires
        !(a + "libssl.so"@ + b).contains('\n'),
        !(c + "libssl.so"@ + d).contains('\n'),
        b.len() == 0 || b[b.len() - 1] != '\r',
    ensures
        backend_of(lines(a + "libssl.so"@ + b)) is OpenSsl,
        backend_of(lines((a + "libssl.so"@ + b) + seq!['\n'] + (c + "libssl.so"@ + d))) is OpenSsl,
{
    let one = a + "libssl.so"@ + b;
    let two = c + "libssl.so"@ + d;
    reveal_strlit("libssl.so");
    law_found_text(one, "libssl.so"@, a, b);
    law_found_text(two, "libssl.so"@, c, d);
    law_line_by_line(one, two);
    law_line_by_line(two, Seq::empty());
    if b.len() == 0 {
        assert(one[one.len() - 1] == 'o');
    } else {
        assert(one[one.len() - 1] == b[b.len() - 1]);
    }
    law_backend_by_names(seq![one]);
    assert(seq![one][0] == one);
    let both = seq![one] + seq![two];
    assert(both[0] == one && both[1] == two);
    law_backend_by_names(both);
}

/// The path that a line maps begins at its first slash: it is that of `libssl` exactly
/// where it holds `libssl.so`, and white space behind it is no part of it.
pub proof fn law_path_in_a_line(front: Seq<char>, path: Seq<char>, spaces: Seq<char>)
    requires
        !front.contains('/'),
        forall|i: int| 0 <= i < spaces.len() ==> is_white_space(#[trigger] spaces[i]),
    ensures
        libssl_in_line(front) is None,
        path.len() > 0 && path[0] == '/' && !is_white_space(path[path.len() - 1]) && has_text(
            path,
            "libssl.so"@,
        ) ==> libssl_in_line(front + path + spaces) == Some(path),
        path.len() > 0 && path[0] == '/' && !has_text(path, "libssl.so"@) ==> libssl_in_line(
            front + path,
        ) is None,
{
    reveal_strlit("libssl.so");
    assert(front + Seq::<char>::empty() =~= front);
    lemma_slash_at(front, Seq::empty(), 0);
    assert(path_part(front) =~= Seq::<char>::empty());
    assert(!has_text(Seq::<char>::empty(), "libssl.so"@));
    if path.len() > 0 && path[0] == '/' {
        lemma_slash_at(front, path, 0);
        assert(path_part(front + path) =~= path);
        let rest = path + spaces;
        assert(front + path + spaces =~= front + rest);
        lemma_slash_at(front, rest, 0);
        assert(path_part(front + rest) =~= rest);
        if has_text(path, "libssl.so"@) && !is_white_space(path[path.len() - 1]) {
            let i = choose|i: int| stands_at(path, "libssl.so"@, i);
            assert(rest.subrange(i, i + 9) =~= path.subrange(i, i + 9));
            assert(stands_at(rest, "libssl.so"@, i));
            law_trimming(path, spaces);
            assert(trimmed_start(rest) == rest);
        }
    }
}

proof fn lemma_slash_at(front: Seq<char>, rest: Seq<char>, from: int)
    requires
        !front.contains('/'),
        rest.len() == 0 || rest[0] == '/',
        0 <= from <= front.len(),
    ensures
        slash_from(front + rest, from) == front.len(),
    decreases front.len() - from,
{
    let line = front + rest;
    if from < front.len() {
        assert(line[from] == front[from]);
        assert(front[from] != '/') by {
            if front[from] == '/' {
                assert(front.contains('/'));
            }
        }
        lemma_slash_at(front, rest, from + 1);
    } else if rest.len() > 0 {
        assert(line[from] == rest[0]);
    }
}

/// The first line that has a path of `libssl` decides, and the first process.
pub proof fn law_first_libssl_counts(
    line: Seq<char>,
    more_lines: Seq<Seq<char>>,
    maps: Seq<char>,
    more_maps: Seq<Seq<char>>,
)
    ensures
        libssl_in_lines(Seq::<Seq<char>>::empty()) is None,
        libssl_in_lines(seq![line] + more_lines) == if libssl_in_line(line) is Some {
            libssl_in_line(line)
        } else {
            libssl_in_lines(more_lines)
        },
        loaded_libssl(Seq::<Seq<char>>::empty()) is None,
        loaded_libssl(seq![maps] + more_maps) == if libssl_in_lines(lines(maps)) is Some {
            libssl_in_lines(lines(maps))
        } else {
            loaded_libssl(more_maps)
        },
{
    assert((seq![line] + more_lines).drop_first() =~= more_lines);
    assert((seq![maps] + more_maps).drop_first() =~= more_maps);
}

/// A file counts as `libssl` where it is named `libssl.so`, or that with a dot and
/// anything behind it; the first name in a directory that does so counts.
pub proof fn law_names_of_libssl(name: Seq<char>, more: Seq<Seq<char>>, version: Seq<char>)
    ensures
        libssl_name(Seq::<Seq<char>>::empty()) is None,
        name == "libssl.so"@ || name == "libssl.so."@ + version ==> libssl_name(seq![name] + more)
            == Some(name),
        name != "libssl.so"@ && !"libssl.so."@.is_prefix_of(name) ==> libssl_name(
            seq![name] + more,
        ) == libssl_name(more),
{
    assert((seq![name] + more).drop_first() =~= more);
    if name == "libssl.so."@ + version {
        assert(name.subrange(0, "libssl.so."@.len() as int) =~= "libssl.so."@);
    }
    if stands_at(name, "libssl.so."@, 0) {
        assert("libssl.so."@.is_prefix_of(name));
    }
}

/// The first directory that has a `libssl` file decides, and its path is that of the
/// directory, a slash and the name.
pub proof fn law_first_directory_counts(dir: DirListing, more: Seq<DirListing>)
    ensures
        libssl_on_disk(Seq::<DirListing>::empty()) is None,
        libssl_on_disk(seq![dir] + more) == match libssl_name(dir.texts()) {
            Some(name) => Some(dir.root@ + seq!['/'] + name),
            None => libssl_on_disk(more),
        },
{
    assert((seq![dir] + more).drop_first() =~= more);
    reveal_strlit("/");
    assert("/"@ =~= seq!['/']);
}

/// A loaded `libssl` goes before one on disk, and one on disk before the bare name.
pub proof fn law_target_precedence(maps: Seq<Seq<char>>, dirs: Seq<DirListing>)
    ensures
        loaded_libssl(maps) matches Some(path) ==> libssl_target(maps, dirs) == path,
        loaded_libssl(maps) is None && libssl_on_disk(dirs) is Some ==> libssl_target(maps, dirs)
            == libssl_on_disk(dirs)->0,
        loaded_libssl(maps) is None && libssl_on_disk(dirs) is None ==> libssl_target(maps, dirs)
            == seq!['s', 's', 'l'],
{
    reveal_strlit("ssl");
    assert("ssl"@ =~= seq!['s', 's', 'l']);
}

/// Process ids are the names that are numbers of 32 bits, in their order; every id is
/// listed under its own number.
pub proof fn law_pids_are_the_numbers(names: Seq<Seq<char>>, name: Seq<char>, n: nat)
    ensures
        pids_of(Seq::<Seq<char>>::empty()).len() == 0,
        unsigned_number(name) is None ==> pids_of(names.push(name)) == pids_of(names),
        n <= 4294967295 ==> pids_of(names.push(decimal(n))) == pids_of(names).push(n as u32),
        n > 4294967295 ==> pids_of(names.push(decimal(n))) == pids_of(names),
{
    assert(names.push(name).drop_last() =~= names);
    assert(names.push(decimal(n)).drop_last() =~= names);
    law_number_reads_back(n, Seq::empty());
    assert(Seq::<char>::empty() + decimal(n) =~= decimal(n));
}

/// What is news, and what is remembered from scan to scan: a process is news unless it
/// is remembered with the same library, and it is remembered as it was as long as it is
/// listed.
pub proof fn law_memory_of_the_watch(
    seen: Map<u32, TlsBackend>,
    pids: Seq<u32>,
    pid: u32,
    backend: TlsBackend,
)
    ensures
        is_news(seen, pid, backend) <==> !seen.contains_key(pid) || seen[pid] != backend,
        kept(seen, pids).contains_key(pid) <==> seen.contains_key(pid) && pids.contains(pid),
        seen.contains_key(pid) && pids.contains(pid) ==> kept(seen, pids)[pid] == seen[pid],
{
}

/// The name of a process is what its file holds before the white space at its end.
pub proof fn law_name_of_a_process(name: Seq<char>, spaces: Seq<char>)
    requires
        forall|i: int| 0 <= i < spaces.len() ==> is_white_space(#[trigger] spaces[i]),
    ensures
        name.len() == 0 || !is_white_space(name[name.len() - 1]) ==> comm_text(Some(name + spaces))
            == name,
        comm_text(None) == "<unknown>"@,
{
    law_trimming(name, spaces);
}

} // verus!
