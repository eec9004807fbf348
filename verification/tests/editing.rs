use bloqueador_web::config::{BlockMode, BlockedSite, Config, TimeOfDay};
use bloqueador_web::editing::{block_mode_from_times, parse_block_mode, parse_time_input, site_row, time_from_parse_results, validate_site_url, SiteError};

fn t(h: u32, m: u32) -> TimeOfDay {
    TimeOfDay::from_hms(h, m, 0).unwrap()
}

#[test]
fn url_validation_errors() {
    assert_eq!(validate_site_url("   "), Err(SiteError::EmptyUrl));
    assert_eq!(validate_site_url("localhost"), Err(SiteError::InvalidDomain));
    assert_eq!(validate_site_url("bad site.com"), Err(SiteError::InvalidDomain));
    assert_eq!(validate_site_url("  https://Reddit.com/ "), Ok("reddit.com".to_string()));
    assert_eq!(validate_site_url("HTTPS://Reddit.com"), Ok("https://reddit.com".to_string()));
}

#[test]
fn time_input_accepts_hh_mm_and_hh_mm_ss() {
    assert_eq!(parse_time_input("09:00"), Some(t(9, 0)));
    assert_eq!(parse_time_input(" 22:30 "), Some(t(22, 30)));
    assert_eq!(parse_time_input("07:05:09"), TimeOfDay::from_hms(7, 5, 9));
    assert_eq!(parse_time_input("25:00"), None);
    assert_eq!(parse_time_input("nine"), None);
    assert_eq!(parse_time_input(""), None);
}

#[test]
fn parse_results_prefer_the_first() {
    assert_eq!(time_from_parse_results(Some((60, 0)), Some((120, 0))), TimeOfDay::from_secs_nanos(60, 0));
    assert_eq!(time_from_parse_results(None, Some((120, 0))), TimeOfDay::from_secs_nanos(120, 0));
    assert_eq!(time_from_parse_results(Some((90000, 0)), Some((120, 0))), None);
    assert_eq!(time_from_parse_results(None, None), None);
}

#[test]
fn block_mode_from_form() {
    assert_eq!(parse_block_mode("always", "", ""), Ok(BlockMode::Always));
    assert_eq!(parse_block_mode("other", "xx", "yy"), Ok(BlockMode::Always));
    assert_eq!(
        parse_block_mode("scheduled", "09:00", "18:00"),
        Ok(BlockMode::Scheduled { start: t(9, 0), end: t(18, 0) })
    );
    assert_eq!(parse_block_mode("scheduled", "9h", "18:00"), Err(SiteError::InvalidTime));
    assert_eq!(block_mode_from_times("scheduled", Some(t(1, 0)), None), Err(SiteError::InvalidTime));
}

#[test]
fn add_site_checks_in_order_and_refuses_duplicates() {
    let mut config = Config::default();
    assert_eq!(config.add_site_from_input("", "scheduled", "bad", "bad"), Err(SiteError::EmptyUrl));
    assert_eq!(config.add_site_from_input("a.com", "scheduled", "bad", "10:00"), Err(SiteError::InvalidTime));
    assert!(config.sites.is_empty());
    assert_eq!(config.add_site_from_input("https://A.com/", "always", "", ""), Ok(()));
    assert_eq!(config.sites.len(), 1);
    assert_eq!(config.sites[0].url, "a.com");
    assert_eq!(config.add_site_from_input("a.com", "always", "", ""), Err(SiteError::AlreadyListed));
    assert_eq!(config.add_site_from_input("b.com", "scheduled", "22:00", "06:00"), Ok(()));
    assert_eq!(config.sites[1].mode, BlockMode::Scheduled { start: t(22, 0), end: t(6, 0) });
    assert_eq!(config.sites.len(), 2);
}

#[test]
fn remove_site_by_normal_form() {
    let mut config = Config {
        autostart: true,
        sites: vec![
            BlockedSite { url: "a.com".to_string(), mode: BlockMode::Always },
            BlockedSite { url: "b.com".to_string(), mode: BlockMode::Always },
        ],
    };
    assert!(config.remove_site("  http://A.com/ "));
    assert_eq!(config.sites.len(), 1);
    assert_eq!(config.sites[0].url, "b.com");
    assert!(!config.remove_site("c.com"));
    assert_eq!(config.sites.len(), 1);
    assert!(config.autostart);
}

#[test]
fn rows_show_mode_and_times() {
    let row = site_row(&BlockedSite { url: "a.com".to_string(), mode: BlockMode::Always });
    assert_eq!((row.url.as_str(), row.mode_type.as_str(), row.start_time.as_str(), row.end_time.as_str()), ("a.com", "always", "", ""));
    let row = site_row(&BlockedSite { url: "b.com".to_string(), mode: BlockMode::Scheduled { start: t(9, 0), end: t(18, 30) } });
    assert_eq!((row.mode_type.as_str(), row.start_time.as_str(), row.end_time.as_str()), ("scheduled", "09:00", "18:30"));
}
