use bloqueador_web::hosts::{bare_url, normalize_url, read_hosts_data, save_hosts_data, HostsData, BEGIN_MARKER, END_MARKER};

fn strings(v: &[&str]) -> Vec<String> {
    v.iter().map(|s| s.to_string()).collect()
}

#[test]
fn test_normalize_url() {
    assert_eq!(normalize_url("http://facebook.com/"), "facebook.com");
    assert_eq!(normalize_url("https://www.youtube.com"), "www.youtube.com");
    assert_eq!(normalize_url("  Google.com  "), "google.com");
}

#[test]
fn test_save_hosts_data_dynamic_path() {
    let data = HostsData {
        base_lines: vec!["127.0.0.1 localhost".to_string(), "::1 localhost".to_string()],
        blocked_urls: vec!["twitter.com".to_string(), "www.twitter.com".to_string()],
    };
    let content = save_hosts_data(&data);
    assert!(content.contains("# BEGIN BLOQUEADOR-WEB"));
    assert!(content.contains("127.0.0.1 twitter.com"));
    assert!(content.contains("127.0.0.1 www.twitter.com"));
    assert!(content.contains("# END BLOQUEADOR-WEB"));
}

#[test]
fn save_writes_sorted_block_after_base_lines() {
    let data = HostsData {
        base_lines: strings(&["127.0.0.1 localhost", "::1 localhost"]),
        blocked_urls: strings(&["www.twitter.com", "facebook.com", "twitter.com"]),
    };
    assert_eq!(
        save_hosts_data(&data),
        "127.0.0.1 localhost\n::1 localhost\n# BEGIN BLOQUEADOR-WEB\n127.0.0.1 facebook.com\n127.0.0.1 twitter.com\n127.0.0.1 www.twitter.com\n# END BLOQUEADOR-WEB\n"
    );
}

#[test]
fn save_without_blocked_urls_writes_no_block() {
    let data = HostsData { base_lines: strings(&["127.0.0.1 localhost"]), blocked_urls: vec![] };
    assert_eq!(save_hosts_data(&data), "127.0.0.1 localhost\n");
    let empty = HostsData { base_lines: vec![], blocked_urls: vec![] };
    assert_eq!(save_hosts_data(&empty), "");
}

#[test]
fn save_ignores_order_of_blocked_urls() {
    let a = HostsData { base_lines: vec![], blocked_urls: strings(&["b.com", "a.com", "c.com"]) };
    let b = HostsData { base_lines: vec![], blocked_urls: strings(&["c.com", "b.com", "a.com"]) };
    assert_eq!(save_hosts_data(&a), save_hosts_data(&b));
}

#[test]
fn read_splits_base_lines_and_block() {
    let content = "127.0.0.1 localhost\n  # BEGIN BLOQUEADOR-WEB  \n127.0.0.1 a.com\n0.0.0.0   b.com extra\n192.168.0.1 c.com\n127.0.0.1\n# comment\n# END BLOQUEADOR-WEB\n::1 localhost\n";
    let data = read_hosts_data(content);
    assert_eq!(data.base_lines, strings(&["127.0.0.1 localhost", "::1 localhost"]));
    assert_eq!(data.blocked_urls, strings(&["a.com", "b.com"]));
}

#[test]
fn read_collapses_repeated_entries_and_strips_crlf() {
    let content = "line one\r\n# BEGIN BLOQUEADOR-WEB\r\n127.0.0.1 a.com\r\n127.0.0.1 a.com\r\n# END BLOQUEADOR-WEB\r\nlast";
    let data = read_hosts_data(content);
    assert_eq!(data.base_lines, strings(&["line one", "last"]));
    assert_eq!(data.blocked_urls, strings(&["a.com"]));
}

#[test]
fn read_of_empty_text_is_empty() {
    let data = read_hosts_data("");
    assert!(data.base_lines.is_empty());
    assert!(data.blocked_urls.is_empty());
    let data = read_hosts_data("\n\n");
    assert_eq!(data.base_lines, strings(&["", ""]));
}

#[test]
fn read_after_save_gives_back_the_data() {
    let data = HostsData {
        base_lines: strings(&["127.0.0.1 localhost", "", "# other"]),
        blocked_urls: strings(&["z.org", "a.org"]),
    };
    let back = read_hosts_data(&save_hosts_data(&data));
    assert_eq!(back.base_lines, data.base_lines);
    let mut blocked = back.blocked_urls.clone();
    blocked.sort();
    assert_eq!(blocked, strings(&["a.org", "z.org"]));
}

#[test]
fn markers_are_the_documented_lines() {
    assert_eq!(BEGIN_MARKER, "# BEGIN BLOQUEADOR-WEB");
    assert_eq!(END_MARKER, "# END BLOQUEADOR-WEB");
}

#[test]
fn bare_url_strips_schemes_space_and_slashes() {
    assert_eq!(bare_url("  http://http://Example.com///  "), "Example.com");
    assert_eq!(bare_url("https://https://a.b/"), "a.b");
    assert_eq!(bare_url("https://http://a.b"), "http://a.b");
    assert_eq!(bare_url(""), "");
    assert_eq!(bare_url("\t\u{3000}x.y\u{a0}"), "x.y");
}

#[test]
fn normalize_url_lowercases_after_stripping() {
    assert_eq!(normalize_url("HTTPS://WWW.Example.COM/"), "https://www.example.com");
    assert_eq!(normalize_url("https://WWW.Example.COM/"), "www.example.com");
}

#[test]
fn hosts_paths_per_system() {
    assert_eq!(bloqueador_web::hosts::LINUX_HOSTS_PATH, "/etc/hosts");
    assert_eq!(bloqueador_web::hosts::HOSTS_PATH, r"C:\Windows\System32\drivers\etc\hosts");
}

#[test]
fn normalize_folds_ascii_host_in_every_typed_form() {
    for h in ["Example.COM", "a-b.c0", "x"] {
        let l = h.to_ascii_lowercase();
        assert_eq!(normalize_url(h), l);
        assert_eq!(normalize_url(&format!("http://{}/", h)), l);
        assert_eq!(normalize_url(&format!("https://{}//", h)), l);
        assert_eq!(normalize_url(&format!("  {}\t", h.to_ascii_uppercase())), l);
    }
}

#[test]
fn normalize_is_idempotent_on_plain_input_and_not_otherwise() {
    let n = normalize_url("http://WWW.Site.org/");
    assert_eq!(normalize_url(&n), n);
    let odd = normalize_url("https://http://x");
    assert_eq!(odd, "http://x");
    assert_eq!(normalize_url(&odd), "x");
}

#[test]
fn read_save_read_keeps_what_was_read() {
    let content = "127.0.0.1 localhost\n# BEGIN BLOQUEADOR-WEB\n0.0.0.0 b.com\n127.0.0.1 a.com x\nnoise\n# END BLOQUEADOR-WEB\n# tail\n";
    let first = read_hosts_data(content);
    let second = read_hosts_data(&save_hosts_data(&first));
    assert_eq!(second.base_lines, first.base_lines);
    let mut a = first.blocked_urls.clone();
    let mut b = second.blocked_urls.clone();
    a.sort();
    b.sort();
    assert_eq!(a, b);
    assert_eq!(a, strings(&["a.com", "b.com"]));
}
