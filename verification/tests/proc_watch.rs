//! Which TLS library processes use, and where `libssl` lies.

use promptrail::proc_watch::{
    classify_maps, comm_name, find_libssl_on_disk, libssl_path_in_maps, list_pids, notice_for,
    resolve_libssl_path, resolve_libssl_target, search_roots, DirListing, ProcWatcher, Severity,
    TlsBackend,
};

const SSL: &str = "7f1 r-xp 00000 08:01 42   /usr/lib/x86_64-linux-gnu/libssl.so.3\n";
const CRYPTO: &str = "7f2 r-xp 00000 08:01 43   /usr/lib/libcrypto.so.3\n";
const GNUTLS: &str = "7f3 r-xp 00000 08:01 44   /usr/lib/libgnutls.so.30\n";
const NSS: &str = "7f4 r-xp 00000 08:01 45   /usr/lib/libnss3.so\n";
const NSPR: &str = "7f5 r-xp 00000 08:01 46   /usr/lib/libnspr4.so\n";

fn texts(list: &[&str]) -> Vec<String> {
    list.iter().map(|s| s.to_string()).collect()
}

fn dir(root: &str, names: &[&str]) -> DirListing {
    DirListing { root: root.to_owned(), names: texts(names) }
}

#[test]
fn resolve_libssl_target_prefers_non_empty_string() {
    let target = resolve_libssl_target(&Vec::new(), &Vec::new());
    assert!(!target.is_empty());
}

#[test]
fn find_libssl_on_disk_is_not_panicking() {
    let _ = find_libssl_on_disk(&Vec::new());
}

#[test]
fn the_target_is_the_most_specific_one() {
    let maps = texts(&["", CRYPTO, SSL]);
    let dirs = vec![dir("/lib", &["libc.so.6"]), dir("/usr/lib64", &["x", "libssl.so.1.1"])];
    assert_eq!(
        resolve_libssl_target(&maps, &dirs),
        "/usr/lib/x86_64-linux-gnu/libssl.so.3"
    );
    assert_eq!(resolve_libssl_target(&texts(&[CRYPTO]), &dirs), "/usr/lib64/libssl.so.1.1");
    assert_eq!(resolve_libssl_target(&texts(&[CRYPTO]), &vec![dir("/lib", &["libc.so.6"])]), "ssl");
}

#[test]
fn libssl_among_the_names_of_a_directory() {
    let names = ["libssl", "libssl.so3", "xlibssl.so", "libssl.so.3", "libssl.so"];
    assert_eq!(
        find_libssl_on_disk(&vec![dir("/lib64", &names)]),
        Some("/lib64/libssl.so.3".to_owned())
    );
    assert_eq!(
        find_libssl_on_disk(&vec![dir("/lib64", &["libssl.so"])]),
        Some("/lib64/libssl.so".to_owned())
    );
    assert_eq!(find_libssl_on_disk(&vec![dir("/lib64", &names[..3])]), None);
    assert_eq!(
        search_roots(),
        vec![
            "/lib",
            "/lib64",
            "/usr/lib",
            "/usr/lib64",
            "/lib/x86_64-linux-gnu",
            "/usr/lib/x86_64-linux-gnu",
            "/lib/aarch64-linux-gnu",
            "/usr/lib/aarch64-linux-gnu",
        ]
    );
}

#[test]
fn libssl_among_the_mapped_files() {
    assert_eq!(libssl_path_in_maps(""), None);
    assert_eq!(libssl_path_in_maps(CRYPTO), None);
    assert_eq!(libssl_path_in_maps("libssl.so without a path"), None);
    assert_eq!(libssl_path_in_maps("libssl.so before /a/path"), None);
    assert_eq!(
        libssl_path_in_maps("1-2 r-xp /opt/libssl.so.3 (deleted) \t\r\n"),
        Some("/opt/libssl.so.3 (deleted)".to_owned())
    );
    assert_eq!(
        resolve_libssl_path(&texts(&[CRYPTO, "x /a/libssl.so\ny /b/libssl.so", SSL])),
        Some("/a/libssl.so".to_owned())
    );
    assert_eq!(resolve_libssl_path(&texts(&[CRYPTO])), None);
    assert_eq!(resolve_libssl_path(&Vec::new()), None);
}

#[test]
fn backends_by_their_maps() {
    let of = |parts: &[&str]| classify_maps(&parts.concat());
    assert_eq!(of(&[]), TlsBackend::Opaque);
    assert_eq!(of(&[CRYPTO]), TlsBackend::Opaque);
    assert_eq!(of(&[CRYPTO, SSL]), TlsBackend::OpenSsl);
    assert_eq!(of(&[SSL, GNUTLS]), TlsBackend::GnuTls);
    assert_eq!(of(&[GNUTLS, SSL]), TlsBackend::GnuTls);
    assert_eq!(of(&[SSL, NSS]), TlsBackend::Nss);
    assert_eq!(of(&[NSPR]), TlsBackend::Nss);
    assert_eq!(of(&[NSS, GNUTLS, SSL]), TlsBackend::GnuTls);
    // One line counts for the first library that it names.
    assert_eq!(of(&["/libssl.so /libgnutls.so\n"]), TlsBackend::OpenSsl);
    assert_eq!(of(&["/libgnutls.so /libnss3.so\n"]), TlsBackend::GnuTls);
}

#[test]
fn only_openssl_is_covered() {
    assert!(TlsBackend::OpenSsl.covered_by_openssl_hook());
    assert!(!TlsBackend::GnuTls.covered_by_openssl_hook());
    assert!(!TlsBackend::Nss.covered_by_openssl_hook());
    assert!(!TlsBackend::Opaque.covered_by_openssl_hook());
}

#[test]
fn process_ids_among_names() {
    let names = texts(&["1", "self", "42", "4294967295", "4294967296", "-3", "+7", "", "08", "1a"]);
    assert_eq!(list_pids(&names), vec![1, 42, 4294967295, 7, 8]);
    let parsed: Vec<u32> = names.iter().filter_map(|n| n.parse::<u32>().ok()).collect();
    assert_eq!(list_pids(&names), parsed);
}

#[test]
fn names_of_processes() {
    assert_eq!(comm_name(Some("curl\n")), "curl");
    assert_eq!(comm_name(Some(" a b \t\n")), " a b");
    assert_eq!(comm_name(Some("")), "");
    assert_eq!(comm_name(None), "<unknown>");
}

#[test]
fn notices() {
    let n = notice_for(TlsBackend::OpenSsl);
    assert_eq!((n.severity, n.backend), (Severity::Info, "openssl"));
    assert_eq!(n.message, "process uses OpenSSL \u{2014} covered by hook");
    let n = notice_for(TlsBackend::GnuTls);
    assert_eq!((n.severity, n.backend), (Severity::Warn, "gnutls"));
    assert_eq!(n.message, "process uses GnuTLS \u{2014} NOT covered by OpenSSL hook");
    let n = notice_for(TlsBackend::Nss);
    assert_eq!((n.severity, n.backend), (Severity::Warn, "nss"));
    assert_eq!(n.message, "process uses NSS \u{2014} NOT covered by OpenSSL hook");
    let n = notice_for(TlsBackend::Opaque);
    assert_eq!((n.severity, n.backend), (Severity::Debug, "opaque"));
    assert_eq!(n.message, "no known TLS library mapped");
}

#[test]
fn a_process_is_reported_once() {
    let mut watcher = ProcWatcher::new();
    watcher.begin_scan(&vec![1, 2]);
    assert_eq!(watcher.observe(1, Some(SSL)), Some(TlsBackend::OpenSsl));
    assert_eq!(watcher.observe(2, None), None);
    watcher.begin_scan(&vec![1, 2]);
    assert_eq!(watcher.observe(1, Some(SSL)), None);
    assert_eq!(watcher.observe(2, Some("")), Some(TlsBackend::Opaque));
}

#[test]
fn a_process_is_reported_once_over_many_scans() {
    let mut watcher = ProcWatcher::new();
    watcher.begin_scan(&vec![1]);
    assert_eq!(watcher.observe(1, Some(SSL)), Some(TlsBackend::OpenSsl));
    for other in 2..10 {
        watcher.begin_scan(&vec![other, 1]);
        assert_eq!(watcher.observe(other, Some(NSS)), Some(TlsBackend::Nss));
        assert_eq!(watcher.observe(1, None), None);
        assert_eq!(watcher.observe(1, Some(SSL)), None);
    }
}

#[test]
fn a_change_of_library_is_news() {
    let mut watcher = ProcWatcher::new();
    watcher.begin_scan(&vec![1]);
    assert_eq!(watcher.observe(1, Some("")), Some(TlsBackend::Opaque));
    watcher.begin_scan(&vec![1]);
    assert_eq!(watcher.observe(1, Some(SSL)), Some(TlsBackend::OpenSsl));
    assert_eq!(watcher.observe(1, Some(SSL)), None);
}

#[test]
fn a_recycled_id_is_news() {
    let mut watcher = ProcWatcher::new();
    watcher.begin_scan(&vec![1, 2]);
    assert_eq!(watcher.observe(1, Some(SSL)), Some(TlsBackend::OpenSsl));
    assert_eq!(watcher.observe(2, Some(SSL)), Some(TlsBackend::OpenSsl));
    watcher.begin_scan(&vec![2]);
    watcher.begin_scan(&vec![1, 2]);
    assert_eq!(watcher.observe(1, Some(SSL)), Some(TlsBackend::OpenSsl));
    assert_eq!(watcher.observe(2, Some(SSL)), None);
}
