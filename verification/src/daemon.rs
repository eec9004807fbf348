//! The decisions of the background job that keeps the hosts file in step
//! with the settings and the time of day.

use vstd::prelude::*;
use crate::config::{BlockMode, BlockedSite, Config, TimeOfDay, time_le, time_lt};
use crate::hosts::{
    parse_hosts,
    hosts_text,
    is_base_line,
    is_host_name,
    lemma_read_after_save,
    HostsData,
    HostsView,
    normalize_url,
    normalized_url,
    insert_unique,
    contains_string,
};
use crate::text::{copy_strings, chars_of, range_starts_with, string_of, strs_view};
use vstd::slice::slice_subrange;

verus! {

/// The host names that blocking the normalised address `n` covers: `n`
/// itself and its form with the leading `www.` removed, or, when it has
/// none, with `www.` added.
pub open spec fn host_variants(n: Seq<char>) -> (Seq<char>, Seq<char>) {
    if "www."@.is_prefix_of(n) {
        (n.skip(4), n)
    } else {
        ("www."@ + n, n)
    }
}

/// The two host names to block for a normalised address (`host_variants`).
pub fn host_names(normalized: &str) -> (res: (String, String))
    ensures
        (res.0@, res.1@) == host_variants(normalized@),
{
    let cs = chars_of(normalized);
    let www = chars_of("www.");
    proof {
        reveal_strlit("www.");
        assert(cs@.subrange(0, cs@.len() as int) =~= cs@);
    }
    if range_starts_with(cs.as_slice(), 0, cs.len(), www.as_slice()) {
        let stripped = string_of(slice_subrange(cs.as_slice(), 4, cs.len()));
        assert(stripped@ =~= normalized@.skip(4));
        (stripped, normalized.to_owned())
    } else {
        let mut with_www = "www.".to_owned();
        with_www.append(normalized);
        (with_www, normalized.to_owned())
    }
}

/// The host names that the settings block at `now`: both `host_variants` of
/// the normalised address of every site whose mode is active at `now`.
pub open spec fn active_hosts(sites: Seq<BlockedSite>, now: TimeOfDay) -> Set<Seq<char>> {
    Set::new(
        |h: Seq<char>|
            exists|i: int|
                0 <= i < sites.len() && #[trigger] sites[i].mode.active_at(now) && (h
                    == host_variants(normalized_url(sites[i].url@)).0 || h == host_variants(
                    normalized_url(sites[i].url@),
                ).1),
    )
}

/// The host names that `config` blocks at `now`, each once.
pub fn active_blocked_urls(config: &Config, now: &TimeOfDay) -> (urls: Vec<String>)
    ensures
        strs_view(urls@).no_duplicates(),
        strs_view(urls@).to_set() == active_hosts(config.sites@, *now),
{
    let mut urls: Vec<String> = Vec::new();
    let mut k: usize = 0;
    assert(strs_view(urls@).to_set() =~= active_hosts(config.sites@.take(0), *now));
    while k < config.sites.len()
        invariant
            k <= config.sites@.len(),
            strs_view(urls@).no_duplicates(),
            strs_view(urls@).to_set() == active_hosts(config.sites@.take(k as int), *now),
        decreases config.sites@.len() - k,
    {
        let site = &config.sites[k];
        let ghost before = strs_view(urls@).to_set();
        let ghost prefix = config.sites@.take(k as int);
        let ghost next = config.sites@.take(k + 1);
        assert(next =~= prefix.push(config.sites@[k as int]));
        if site.mode.is_active_at(now) {
            let normalized = normalize_url(site.url.as_str());
            let (a, b) = host_names(normalized.as_str());
            let ghost va = a@;
            let ghost vb = b@;
            insert_unique(&mut urls, a);
            insert_unique(&mut urls, b);
            assert forall|h: Seq<char>|
                active_hosts(next, *now).contains(h) <==> before.insert(va).insert(vb).contains(
                    h,
                ) by {
                if active_hosts(next, *now).contains(h) {
                    let i = choose|i: int|
                        0 <= i < next.len() && #[trigger] next[i].mode.active_at(*now) && (h
                            == host_variants(normalized_url(next[i].url@)).0 || h
                            == host_variants(normalized_url(next[i].url@)).1);
                    if i < k {
                        assert(prefix[i] == next[i]);
                        assert(active_hosts(prefix, *now).contains(h));
                    }
                }
                if before.contains(h) {
                    let i = choose|i: int|
                        0 <= i < prefix.len() && #[trigger] prefix[i].mode.active_at(*now) && (h
                            == host_variants(normalized_url(prefix[i].url@)).0 || h
                            == host_variants(normalized_url(prefix[i].url@)).1);
                    assert(next[i] == prefix[i]);
                }
                if h == va || h == vb {
                    assert(next[k as int] == config.sites@[k as int]);
                }
            }
            assert(active_hosts(next, *now) =~= strs_view(urls@).to_set());
        } else {
            assert forall|h: Seq<char>|
                active_hosts(next, *now).contains(h) <==> before.contains(h) by {
                if active_hosts(next, *now).contains(h) {
                    let i = choose|i: int|
                        0 <= i < next.len() && #[trigger] next[i].mode.active_at(*now) && (h
                            == host_variants(normalized_url(next[i].url@)).0 || h
                            == host_variants(normalized_url(next[i].url@)).1);
                    assert(i != k);
                    assert(prefix[i] == next[i]);
                }
                if before.contains(h) {
                    let i = choose|i: int|
                        0 <= i < prefix.len() && #[trigger] prefix[i].mode.active_at(*now) && (h
                            == host_variants(normalized_url(prefix[i].url@)).0 || h
                            == host_variants(normalized_url(prefix[i].url@)).1);
                    assert(next[i] == prefix[i]);
                }
            }
            assert(active_hosts(next, *now) =~= before);
        }
        k = k + 1;
    }
    assert(config.sites@.take(k as int) =~= config.sites@);
    urls
}


/// Whether `a` and `b` hold the same strings, ignoring order and repeats.
pub fn same_url_set(a: &Vec<String>, b: &Vec<String>) -> (res: bool)
    ensures
        res == (strs_view(a@).to_set() == strs_view(b@).to_set()),
{
    let mut k: usize = 0;
    while k < a.len()
        invariant
            k <= a@.len(),
            forall|m: int| 0 <= m < k ==> strs_view(b@).contains(#[trigger] strs_view(a@)[m]),
        decreases a@.len() - k,
    {
        if !contains_string(b, &a[k]) {
            assert(strs_view(a@).to_set().contains(strs_view(a@)[k as int]));
            return false;
        }
        k = k + 1;
    }
    let mut k: usize = 0;
    while k < b.len()
        invariant
            k <= b@.len(),
            forall|m: int| 0 <= m < a@.len() ==> strs_view(b@).contains(#[trigger] strs_view(a@)[m]),
            forall|m: int| 0 <= m < k ==> strs_view(a@).contains(#[trigger] strs_view(b@)[m]),
        decreases b@.len() - k,
    {
        if !contains_string(a, &b[k]) {
            assert(strs_view(b@).to_set().contains(strs_view(b@)[k as int]));
            return false;
        }
        k = k + 1;
    }
    assert forall|x: Seq<char>| strs_view(a@).contains(x) <==> strs_view(b@).contains(x) by {
        if strs_view(a@).contains(x) {
            let m = choose|m: int| 0 <= m < strs_view(a@).len() && strs_view(a@)[m] == x;
        }
        if strs_view(b@).contains(x) {
            let m = choose|m: int| 0 <= m < strs_view(b@).len() && strs_view(b@)[m] == x;
        }
    }
    assert(strs_view(a@).to_set() =~= strs_view(b@).to_set());
    true
}

/// What the hosts file should become when it holds `hosts` and the
/// settings block `active`: nothing when it already blocks exactly those
/// host names; else the same base lines with `active` blocked.
pub open spec fn refreshed_hosts(hosts: HostsView, active: Set<Seq<char>>) -> Option<HostsView> {
    if hosts.blocked_urls == active {
        None
    } else {
        Some(HostsView { base_lines: hosts.base_lines, blocked_urls: active })
    }
}

/// One round of the scheduler: the hosts data to write for `config` at
/// `now`, given what the hosts file holds, or `None` when it is up to date.
pub fn scheduled_update(config: &Config, now: &TimeOfDay, hosts: &HostsData) -> (res: Option<
    HostsData,
>)
    ensures
        match res {
            Some(h) => refreshed_hosts(hosts@, active_hosts(config.sites@, *now)) == Some(h@)
                && h.wf(),
            None => refreshed_hosts(hosts@, active_hosts(config.sites@, *now)) is None,
        },
{
    let active = active_blocked_urls(config, now);
    if same_url_set(&hosts.blocked_urls, &active) {
        None
    } else {
        let base_lines = copy_strings(&hosts.base_lines);
        let h = HostsData { base_lines, blocked_urls: active };
        assert(h@ =~= HostsView {
            base_lines: hosts@.base_lines,
            blocked_urls: active_hosts(config.sites@, *now),
        });
        Some(h)
    }
}

/// The settings made from a hosts file when none exist yet: no autostart,
/// and each address that the file blocks as a site blocked at all times.
pub fn initial_config(hosts: &HostsData) -> (config: Config)
    ensures
        !config.autostart,
        config.sites@.len() == hosts.blocked_urls@.len(),
        forall|i: int|
            0 <= i < config.sites@.len() ==> #[trigger] config.sites@[i].url@
                == hosts.blocked_urls@[i]@ && config.sites@[i].mode == BlockMode::Always,
{
    let mut sites: Vec<BlockedSite> = Vec::new();
    let mut k: usize = 0;
    while k < hosts.blocked_urls.len()
        invariant
            k <= hosts.blocked_urls@.len(),
            sites@.len() == k,
            forall|i: int|
                0 <= i < k ==> #[trigger] sites@[i].url@ == hosts.blocked_urls@[i]@
                    && sites@[i].mode == BlockMode::Always,
        decreases hosts.blocked_urls@.len() - k,
    {
        sites.push(BlockedSite { url: hosts.blocked_urls[k].clone(), mode: BlockMode::Always });
        k = k + 1;
    }
    Config { autostart: false, sites }
}


/// Once the scheduler's update has been made, a second round with the same
/// settings and time finds nothing to change.
pub proof fn lemma_refresh_settles(hosts: HostsView, active: Set<Seq<char>>)
    ensures
        refreshed_hosts(hosts, active) matches Some(u) ==> refreshed_hosts(u, active) is None,
{
}

/// When the scheduler writes its update to the hosts file, the next round
/// reads that file back and finds nothing to change: the written text
/// blocks exactly the active host names. This holds when the base lines do
/// not read as markers and the host names hold no white space.
pub proof fn lemma_written_update_settles(update: HostsData, active: Set<Seq<char>>)
    requires
        update@.blocked_urls == active,
        forall|i: int|
            0 <= i < update.base_lines@.len() ==> is_base_line(#[trigger] update.base_lines@[i]@),
        forall|i: int|
            0 <= i < update.blocked_urls@.len() ==> is_host_name(
                #[trigger] update.blocked_urls@[i]@,
            ),
    ensures
        refreshed_hosts(
            parse_hosts(
                hosts_text(strs_view(update.base_lines@), strs_view(update.blocked_urls@)),
            ),
            active,
        ) is None,
{
    let base = strs_view(update.base_lines@);
    let blocked = strs_view(update.blocked_urls@);
    assert forall|i: int| 0 <= i < base.len() implies is_base_line(#[trigger] base[i]) by {
        assert(base[i] == update.base_lines@[i]@);
    }
    assert forall|i: int| 0 <= i < blocked.len() implies is_host_name(#[trigger] blocked[i]) by {
        assert(blocked[i] == update.blocked_urls@[i]@);
    }
    lemma_read_after_save(base, blocked);
}


/// A site that is blocked at `now` has its normalised address blocked, and
/// that address with `www.` removed (when it starts so) or added (when it
/// does not). A site under a window that runs over midnight is blocked at
/// every time up to the window's end, and at every time from its start.
pub proof fn lemma_active_site_is_blocked(sites: Seq<BlockedSite>, now: TimeOfDay, i: int)
    requires
        0 <= i < sites.len(),
    ensures
        sites[i].mode.active_at(now) ==> {
            let n = normalized_url(sites[i].url@);
            &&& active_hosts(sites, now).contains(n)
            &&& "www."@.is_prefix_of(n) ==> active_hosts(sites, now).contains(n.skip(4))
            &&& !"www."@.is_prefix_of(n) ==> active_hosts(sites, now).contains("www."@ + n)
        },
        sites[i].mode matches BlockMode::Scheduled { start, end } ==> (time_lt(end, start) && (
        time_le(now, end) || time_le(start, now)) ==> active_hosts(sites, now).contains(
            normalized_url(sites[i].url@),
        )),
        sites[i].mode == BlockMode::Always ==> active_hosts(sites, now).contains(
            normalized_url(sites[i].url@),
        ),
{
    let n = normalized_url(sites[i].url@);
    if sites[i].mode.active_at(now) {
        assert(active_hosts(sites, now).contains(host_variants(n).1));
        assert(active_hosts(sites, now).contains(host_variants(n).0));
    }
}

/// Every host name blocked at `now` is a form (`host_variants`) of the
/// normalised address of a site blocked at `now`.
pub proof fn lemma_blocked_host_has_site(sites: Seq<BlockedSite>, now: TimeOfDay, h: Seq<char>)
    requires
        active_hosts(sites, now).contains(h),
    ensures
        exists|i: int|
            0 <= i < sites.len() && #[trigger] sites[i].mode.active_at(now) && (h
                == normalized_url(sites[i].url@) || h == host_variants(
                normalized_url(sites[i].url@),
            ).0),
{
}

/// A round leaves the hosts file alone exactly when it already blocks the
/// active host names, as a set; otherwise it writes the same base lines with
/// exactly the active host names blocked.
pub proof fn lemma_refresh_exactly_when_sets_differ(hosts: HostsView, active: Set<Seq<char>>)
    ensures
        refreshed_hosts(hosts, active) is None <==> hosts.blocked_urls == active,
        refreshed_hosts(hosts, active) matches Some(u) ==> u.blocked_urls == active
            && u.base_lines == hosts.base_lines,
{
}

} // verus!
