use bloqueador_web::config::{get_config_path, BlockMode, BlockedSite, Config, TimeOfDay};

fn t(h: u32, m: u32) -> TimeOfDay {
    TimeOfDay::from_hms(h, m, 0).unwrap()
}

#[test]
fn from_hms_accepts_only_valid_times() {
    assert!(TimeOfDay::from_hms(24, 0, 0).is_none());
    assert!(TimeOfDay::from_hms(0, 60, 0).is_none());
    assert!(TimeOfDay::from_hms(0, 0, 60).is_none());
    let x = TimeOfDay::from_hms(23, 59, 59).unwrap();
    assert_eq!(x.secs(), 86399);
    assert_eq!(x.nanos(), 0);
}

#[test]
fn from_secs_nanos_admits_leap_second_only_at_minute_end() {
    assert!(TimeOfDay::from_secs_nanos(59, 1_500_000_000).is_some());
    assert!(TimeOfDay::from_secs_nanos(58, 1_500_000_000).is_none());
    assert!(TimeOfDay::from_secs_nanos(86400, 0).is_none());
    assert!(TimeOfDay::from_secs_nanos(0, 2_000_000_000).is_none());
}

#[test]
fn times_compare_by_seconds_then_nanos() {
    let a = TimeOfDay::from_secs_nanos(10, 5).unwrap();
    let b = TimeOfDay::from_secs_nanos(10, 6).unwrap();
    assert!(a.le(&b));
    assert!(!b.le(&a));
    assert!(a.le(&a));
}

#[test]
fn hm_string_pads_two_digits() {
    assert_eq!(t(9, 0).to_hm_string(), "09:00");
    assert_eq!(TimeOfDay::from_hms(18, 5, 59).unwrap().to_hm_string(), "18:05");
    assert_eq!(t(0, 0).to_hm_string(), "00:00");
}

#[test]
fn always_blocks_at_every_time() {
    assert!(BlockMode::Always.is_active_at(&t(0, 0)));
    assert!(BlockMode::Always.is_active_at(&t(23, 59)));
}

#[test]
fn daytime_window_blocks_inside_only() {
    let mode = BlockMode::Scheduled { start: t(9, 0), end: t(18, 0) };
    assert!(mode.is_active_at(&t(9, 0)));
    assert!(mode.is_active_at(&t(12, 0)));
    assert!(mode.is_active_at(&t(18, 0)));
    assert!(!mode.is_active_at(&t(8, 59)));
    assert!(!mode.is_active_at(&t(20, 0)));
}

#[test]
fn overnight_window_runs_over_midnight() {
    let mode = BlockMode::Scheduled { start: t(22, 0), end: t(6, 0) };
    assert!(mode.is_active_at(&t(23, 0)));
    assert!(mode.is_active_at(&t(3, 0)));
    assert!(mode.is_active_at(&t(6, 0)));
    assert!(!mode.is_active_at(&t(12, 0)));
    assert!(!mode.is_active_at(&t(21, 59)));
}

#[test]
fn default_config_is_empty_without_autostart() {
    let config = Config::default();
    assert_eq!(config.autostart, false);
    assert!(config.sites.is_empty());
}

#[test]
fn site_copy_is_equal() {
    let site = BlockedSite { url: "a.com".to_string(), mode: BlockMode::Always };
    assert_eq!(site.copy(), site);
}

#[test]
fn config_path_on_linux() {
    assert_eq!(get_config_path(), "/etc/bloqueador-web/config.toml");
}
