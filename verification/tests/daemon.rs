use bloqueador_web::config::{BlockMode, BlockedSite, Config, TimeOfDay};
use bloqueador_web::daemon::{active_blocked_urls, host_names, initial_config, same_url_set, scheduled_update};
use bloqueador_web::hosts::HostsData;

fn t(h: u32, m: u32) -> TimeOfDay {
    TimeOfDay::from_hms(h, m, 0).unwrap()
}

fn strings(v: &[&str]) -> Vec<String> {
    v.iter().map(|s| s.to_string()).collect()
}

fn sorted(mut v: Vec<String>) -> Vec<String> {
    v.sort();
    v
}

#[test]
fn host_names_add_or_drop_www() {
    assert_eq!(host_names("facebook.com"), ("www.facebook.com".to_string(), "facebook.com".to_string()));
    assert_eq!(host_names("www.youtube.com"), ("youtube.com".to_string(), "www.youtube.com".to_string()));
}

#[test]
fn active_urls_follow_schedules() {
    let config = Config {
        autostart: false,
        sites: vec![
            BlockedSite { url: "https://Facebook.com/".to_string(), mode: BlockMode::Always },
            BlockedSite { url: "www.youtube.com".to_string(), mode: BlockMode::Scheduled { start: t(9, 0), end: t(18, 0) } },
            BlockedSite { url: "facebook.com".to_string(), mode: BlockMode::Always },
        ],
    };
    let at_noon = active_blocked_urls(&config, &t(12, 0));
    assert_eq!(sorted(at_noon), strings(&["facebook.com", "www.facebook.com", "www.youtube.com", "youtube.com"]));
    let at_night = active_blocked_urls(&config, &t(22, 0));
    assert_eq!(sorted(at_night), strings(&["facebook.com", "www.facebook.com"]));
}

#[test]
fn same_url_set_ignores_order_and_repeats() {
    assert!(same_url_set(&strings(&["a", "b"]), &strings(&["b", "a", "a"])));
    assert!(!same_url_set(&strings(&["a", "b"]), &strings(&["a"])));
    assert!(same_url_set(&vec![], &vec![]));
}

#[test]
fn update_only_when_blocked_set_changes() {
    let config = Config {
        autostart: false,
        sites: vec![BlockedSite { url: "a.com".to_string(), mode: BlockMode::Always }],
    };
    let hosts = HostsData { base_lines: strings(&["127.0.0.1 localhost"]), blocked_urls: vec![] };
    let update = scheduled_update(&config, &t(10, 0), &hosts).unwrap();
    assert_eq!(update.base_lines, hosts.base_lines);
    assert_eq!(sorted(update.blocked_urls.clone()), strings(&["a.com", "www.a.com"]));
    assert!(scheduled_update(&config, &t(10, 0), &update).is_none());
}

#[test]
fn update_clears_block_outside_window() {
    let config = Config {
        autostart: false,
        sites: vec![BlockedSite { url: "a.com".to_string(), mode: BlockMode::Scheduled { start: t(22, 0), end: t(6, 0) } }],
    };
    let hosts = HostsData { base_lines: vec![], blocked_urls: strings(&["www.a.com", "a.com"]) };
    assert!(scheduled_update(&config, &t(23, 30), &hosts).is_none());
    let update = scheduled_update(&config, &t(12, 0), &hosts).unwrap();
    assert!(update.blocked_urls.is_empty());
}

#[test]
fn initial_config_blocks_hosts_entries_always() {
    let hosts = HostsData { base_lines: vec![], blocked_urls: strings(&["a.com", "b.com"]) };
    let config = initial_config(&hosts);
    assert!(!config.autostart);
    assert_eq!(config.sites.len(), 2);
    assert_eq!(config.sites[0].url, "a.com");
    assert_eq!(config.sites[1].url, "b.com");
    assert!(matches!(config.sites[0].mode, BlockMode::Always));
}
