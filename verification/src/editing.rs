//! The decisions of the settings window: checking and adding a site,
//! removing one, and the text that lists a site.

use vstd::prelude::*;
use crate::config::{BlockMode, BlockedSite, Config, TimeOfDay, hm_text, valid_time};
use crate::hosts::{normalize_url, normalized_url, is_ascii_text, lemma_normalize_idempotent};
use crate::text::{chars_of, trim, trimmed, range_equals, has_no_white_space};

verus! {

/// Why a site was not added.
#[derive(Clone, Copy, Debug, PartialEq, Eq, Structural)]
pub enum SiteError {
    /// The address is empty once trimmed.
    EmptyUrl,
    /// The address has no dot, or holds a space.
    InvalidDomain,
    /// A scheduled site's start or end is not a time `HH:MM` or `HH:MM:SS`.
    InvalidTime,
    /// A site with the same normal form is listed already.
    AlreadyListed,
}

/// What `chrono::NaiveTime::parse_from_str(s, fmt)` yields: the parsed
/// time's seconds since midnight and nanoseconds, or `None` when `s` does
/// not match `fmt`.
pub uninterp spec fn parsed_time(s: Seq<char>, fmt: Seq<char>) -> Option<(u32, u32)>;

/// `chrono::NaiveTime::parse_from_str`, with the result given as its
/// seconds since midnight and nanoseconds. Its result is taken to be
/// `parsed_time` of the arguments; the format grammar is not written out.
/// A parsed time is built by `NaiveTime::from_hms_nano_opt`, so it is a valid
/// time of day.
#[verifier::external_body]
fn parse_time_with(s: &str, fmt: &str) -> (res: Option<(u32, u32)>)
    ensures
        res == parsed_time(s@, fmt@),
        res matches Some((secs, nanos)) ==> valid_time(secs as int, nanos as int),
{
    match chrono::NaiveTime::parse_from_str(s, fmt) {
        Ok(t) => Some(
            (chrono::Timelike::num_seconds_from_midnight(&t), chrono::Timelike::nanosecond(&t)),
        ),
        Err(_) => None,
    }
}

/// `res` is the time of the parsed parts `parts`, or `None` when there are
/// none or they make no valid time.
pub open spec fn time_of_parts(res: Option<TimeOfDay>, parts: Option<(u32, u32)>) -> bool {
    match parts {
        Some((secs, nanos)) => if valid_time(secs as int, nanos as int) {
            res matches Some(t) && t.seconds() == secs && t.nanoseconds() == nanos
        } else {
            res is None
        },
        None => res is None,
    }
}

/// The parts of the time typed as `s`: read as `%H:%M`, or, when that
/// fails, as `%H:%M:%S`, after trimming.
pub open spec fn input_time_parts(s: Seq<char>) -> Option<(u32, u32)> {
    if parsed_time(trim(s), "%H:%M"@) is Some {
        parsed_time(trim(s), "%H:%M"@)
    } else {
        parsed_time(trim(s), "%H:%M:%S"@)
    }
}

/// Whether the text `s` gives a time.
pub open spec fn is_time_input(s: Seq<char>) -> bool {
    input_time_parts(s) matches Some((secs, nanos)) && valid_time(secs as int, nanos as int)
}

/// The time given by the results of reading the input as `%H:%M` (`hm`) and
/// as `%H:%M:%S` (`hms`): the first that succeeded.
pub fn time_from_parse_results(hm: Option<(u32, u32)>, hms: Option<(u32, u32)>) -> (res: Option<
    TimeOfDay,
>)
    ensures
        time_of_parts(res, if hm is Some { hm } else { hms }),
{
    let chosen = match hm {
        Some(p) => Some(p),
        None => hms,
    };
    match chosen {
        Some((secs, nanos)) => TimeOfDay::from_secs_nanos(secs, nanos),
        None => None,
    }
}

/// The time typed as `s` in the settings window.
pub fn parse_time_input(s: &str) -> (res: Option<TimeOfDay>)
    ensures
        time_of_parts(res, input_time_parts(s@)),
        res is Some <==> input_time_parts(s@) is Some,
{
    let t = trimmed(s);
    let hm = parse_time_with(t.as_str(), "%H:%M");
    if hm.is_some() {
        time_from_parse_results(hm, None)
    } else {
        let hms = parse_time_with(t.as_str(), "%H:%M:%S");
        time_from_parse_results(hm, hms)
    }
}

/// The objection to the address `url` typed into the settings window, if
/// any: it is empty once trimmed, or has no dot or holds a space.
pub open spec fn url_objection(url: Seq<char>) -> Option<SiteError> {
    let t = trim(url);
    if t.len() == 0 {
        Some(SiteError::EmptyUrl)
    } else if !t.contains('.') || t.contains(' ') {
        Some(SiteError::InvalidDomain)
    } else {
        None
    }
}

/// Whether `c` occurs in `cs`.
fn has_char(cs: &[char], c: char) -> (res: bool)
    ensures
        res == cs@.contains(c),
{
    let mut k: usize = 0;
    while k < cs.len()
        invariant
            k <= cs@.len(),
            forall|m: int| 0 <= m < k ==> cs@[m] != c,
        decreases cs@.len() - k,
    {
        if cs[k] == c {
            assert(cs@[k as int] == c);
            return true;
        }
        k = k + 1;
    }
    false
}

/// Checks the typed address and gives its normal form.
pub fn validate_site_url(url: &str) -> (res: Result<String, SiteError>)
    ensures
        match res {
            Ok(n) => url_objection(url@) is None && n@ == normalized_url(trim(url@)),
            Err(e) => url_objection(url@) == Some(e),
        },
{
    let t = trimmed(url);
    let cs = chars_of(t.as_str());
    if cs.len() == 0 {
        return Err(SiteError::EmptyUrl);
    }
    if !has_char(cs.as_slice(), '.') || has_char(cs.as_slice(), ' ') {
        return Err(SiteError::InvalidDomain);
    }
    Ok(normalize_url(t.as_str()))
}

/// The mode chosen in the settings window, given the times already read:
/// scheduled from `start` to `end` when `mode_type` is `scheduled` (and
/// both times were read), else always.
pub open spec fn mode_from_times(
    mode_type: Seq<char>,
    start: Option<TimeOfDay>,
    end: Option<TimeOfDay>,
) -> Result<BlockMode, SiteError> {
    if mode_type == "scheduled"@ {
        match (start, end) {
            (Some(s), Some(e)) => Ok(BlockMode::Scheduled { start: s, end: e }),
            _ => Err(SiteError::InvalidTime),
        }
    } else {
        Ok(BlockMode::Always)
    }
}

/// The mode chosen in the settings window (`mode_from_times`).
pub fn block_mode_from_times(
    mode_type: &str,
    start: Option<TimeOfDay>,
    end: Option<TimeOfDay>,
) -> (res: Result<BlockMode, SiteError>)
    ensures
        res == mode_from_times(mode_type@, start, end),
{
    let mt = chars_of(mode_type);
    let scheduled = chars_of("scheduled");
    if range_equals(mt.as_slice(), 0, mt.len(), scheduled.as_slice()) {
        proof {
            assert(mt@.subrange(0, mt@.len() as int) =~= mt@);
        }
        match (start, end) {
            (Some(s), Some(e)) => Ok(BlockMode::Scheduled { start: s, end: e }),
            _ => Err(SiteError::InvalidTime),
        }
    } else {
        proof {
            assert(mt@.subrange(0, mt@.len() as int) =~= mt@);
        }
        Ok(BlockMode::Always)
    }
}

/// `mode` is what the settings window makes of the mode `mode_type` with
/// the start and end typed as `start` and `end`.
pub open spec fn mode_of_input(
    mode: BlockMode,
    mode_type: Seq<char>,
    start: Seq<char>,
    end: Seq<char>,
) -> bool {
    if mode_type == "scheduled"@ {
        mode matches BlockMode::Scheduled { start: s, end: e } && time_of_parts(
            Some(s),
            input_time_parts(start),
        ) && time_of_parts(Some(e), input_time_parts(end))
    } else {
        mode == BlockMode::Always
    }
}

/// The mode chosen in the settings window, reading the typed times only for
/// a scheduled site.
pub fn parse_block_mode(mode_type: &str, start: &str, end: &str) -> (res: Result<
    BlockMode,
    SiteError,
>)
    ensures
        match res {
            Ok(mode) => mode_of_input(mode, mode_type@, start@, end@),
            Err(e) => e == SiteError::InvalidTime && mode_type@ == "scheduled"@ && !(is_time_input(
                start@,
            ) && is_time_input(end@)),
        },
{
    let mt = chars_of(mode_type);
    let scheduled = chars_of("scheduled");
    proof {
        assert(mt@.subrange(0, mt@.len() as int) =~= mt@);
    }
    if range_equals(mt.as_slice(), 0, mt.len(), scheduled.as_slice()) {
        let s = parse_time_input(start);
        let e = parse_time_input(end);
        block_mode_from_times(mode_type, s, e)
    } else {
        block_mode_from_times(mode_type, None, None)
    }
}


/// Some site of `sites` has the normal form `n`.
pub open spec fn is_listed(sites: Seq<BlockedSite>, n: Seq<char>) -> bool {
    exists|i: int| 0 <= i < sites.len() && normalized_url(#[trigger] sites[i].url@) == n
}

/// The sites of `sites` whose normal form is not `n`, in order.
pub open spec fn sites_without(sites: Seq<BlockedSite>, n: Seq<char>) -> Seq<BlockedSite>
    decreases sites.len(),
{
    if sites.len() == 0 {
        sites
    } else {
        let rest = sites_without(sites.drop_last(), n);
        if normalized_url(sites.last().url@) == n {
            rest
        } else {
            rest.push(sites.last())
        }
    }
}

/// Whether some site of `sites` has the normal form `n` (`is_listed`).
fn listed(sites: &Vec<BlockedSite>, n: &String) -> (res: bool)
    ensures
        res == is_listed(sites@, n@),
{
    let mut k: usize = 0;
    while k < sites.len()
        invariant
            k <= sites@.len(),
            forall|m: int| 0 <= m < k ==> normalized_url(#[trigger] sites@[m].url@) != n@,
        decreases sites@.len() - k,
    {
        let other = normalize_url(sites[k].url.as_str());
        if other == *n {
            return true;
        }
        k = k + 1;
    }
    false
}

impl Config {
    /// Adds a site with the normalised address `normalized` and the given
    /// mode at the end of the list, unless a site with that normal form is
    /// listed already.
    pub fn add_site(&mut self, normalized: String, mode: BlockMode) -> (res: Result<(), SiteError>)
        ensures
            final(self).autostart == old(self).autostart,
            match res {
                Ok(()) => !is_listed(old(self).sites@, normalized@) && final(self).sites@ == old(
                    self,
                ).sites@.push(BlockedSite { url: normalized, mode }),
                Err(e) => e == SiteError::AlreadyListed && is_listed(old(self).sites@, normalized@)
                    && final(self).sites@ == old(self).sites@,
            },
    {
        if listed(&self.sites, &normalized) {
            return Err(SiteError::AlreadyListed);
        }
        self.sites.push(BlockedSite { url: normalized, mode });
        Ok(())
    }

    /// Removes every site whose normal form is that of `url`; tells whether
    /// any was removed.
    pub fn remove_site(&mut self, url: &str) -> (removed: bool)
        ensures
            final(self).autostart == old(self).autostart,
            final(self).sites@ == sites_without(old(self).sites@, normalized_url(trim(url@))),
            removed == is_listed(old(self).sites@, normalized_url(trim(url@))),
    {
        let t = trimmed(url);
        let n = normalize_url(t.as_str());
        let mut kept: Vec<BlockedSite> = Vec::new();
        let mut k: usize = 0;
        proof {
            lemma_sites_without_len(self.sites@, n@);
        }
        while k < self.sites.len()
            invariant
                k <= self.sites@.len(),
                n@ == normalized_url(trim(url@)),
                kept@ == sites_without(self.sites@.take(k as int), n@),
            decreases self.sites@.len() - k,
        {
            let other = normalize_url(self.sites[k].url.as_str());
            proof {
                assert(self.sites@.take(k + 1).drop_last() =~= self.sites@.take(k as int));
            }
            if other != n {
                kept.push(self.sites[k].copy());
            }
            k = k + 1;
        }
        proof {
            assert(self.sites@.take(k as int) =~= self.sites@);
        }
        let before = self.sites.len();
        self.sites = kept;
        proof {
            lemma_sites_without_listed(old(self).sites@, n@);
        }
        self.sites.len() < before
    }
}

proof fn lemma_sites_without_listed(sites: Seq<BlockedSite>, n: Seq<char>)
    ensures
        sites_without(sites, n).len() < sites.len() <==> is_listed(sites, n),
        !is_listed(sites_without(sites, n), n),
    decreases sites.len(),
{
    if sites.len() > 0 {
        let init = sites.drop_last();
        lemma_sites_without_listed(init, n);
        lemma_sites_without_len(init, n);
        let rest = sites_without(init, n);
        if is_listed(init, n) {
            let i = choose|i: int| 0 <= i < init.len() && normalized_url(#[trigger] init[i].url@) == n;
            assert(sites[i] == init[i]);
        }
        if is_listed(sites, n) && !is_listed(init, n) {
            let i = choose|i: int| 0 <= i < sites.len() && normalized_url(#[trigger] sites[i].url@) == n;
            if i < init.len() {
                assert(sites[i] == init[i]);
            }
        }
        if normalized_url(sites.last().url@) != n {
            let r = rest.push(sites.last());
            if is_listed(r, n) {
                let i = choose|i: int| 0 <= i < r.len() && normalized_url(#[trigger] r[i].url@) == n;
                assert(i < rest.len());
                assert(r[i] == rest[i]);
            }
        } else {
            assert(sites[sites.len() - 1] == sites.last());
        }
    }
}

proof fn lemma_sites_without_len(sites: Seq<BlockedSite>, n: Seq<char>)
    ensures
        sites_without(sites, n).len() <= sites.len(),
    decreases sites.len(),
{
    if sites.len() > 0 {
        lemma_sites_without_len(sites.drop_last(), n);
    }
}


/// Why the settings window refuses to add the site typed as `url` with the
/// mode `mode_type` and times `start` and `end` to `sites`, if it does: the
/// address is checked first, then the times, then whether it is listed.
pub open spec fn add_refusal(
    sites: Seq<BlockedSite>,
    url: Seq<char>,
    mode_type: Seq<char>,
    start: Seq<char>,
    end: Seq<char>,
) -> Option<SiteError> {
    match url_objection(url) {
        Some(e) => Some(e),
        None => if mode_type == "scheduled"@ && !(is_time_input(start) && is_time_input(end)) {
            Some(SiteError::InvalidTime)
        } else if is_listed(sites, normalized_url(trim(url))) {
            Some(SiteError::AlreadyListed)
        } else {
            None
        },
    }
}

impl Config {
    /// Adds the site typed into the settings window, in normal form, at the
    /// end of the list, or says why not (`add_refusal`), leaving the
    /// settings as they were.
    pub fn add_site_from_input(
        &mut self,
        url: &str,
        mode_type: &str,
        start: &str,
        end: &str,
    ) -> (res: Result<(), SiteError>)
        ensures
            final(self).autostart == old(self).autostart,
            match res {
                Ok(()) => add_refusal(old(self).sites@, url@, mode_type@, start@, end@) is None
                    && final(self).sites@.len() == old(self).sites@.len() + 1
                    && final(self).sites@.drop_last() == old(self).sites@
                    && final(self).sites@.last().url@ == normalized_url(trim(url@))
                    && mode_of_input(final(self).sites@.last().mode, mode_type@, start@, end@),
                Err(e) => add_refusal(old(self).sites@, url@, mode_type@, start@, end@) == Some(e)
                    && final(self).sites@ == old(self).sites@,
            },
    {
        let normalized = match validate_site_url(url) {
            Ok(n) => n,
            Err(e) => return Err(e),
        };
        let mode = match parse_block_mode(mode_type, start, end) {
            Ok(m) => m,
            Err(e) => return Err(e),
        };
        let ghost old_sites = self.sites@;
        let r = self.add_site(normalized, mode);
        proof {
            if r is Ok {
                assert(self.sites@.drop_last() =~= old_sites);
            }
        }
        r
    }
}

/// How a site is shown in the list of the settings window.
pub struct SiteRow {
    pub url: String,
    /// `always` or `scheduled`.
    pub mode_type: String,
    /// The start of the window as `HH:MM`; empty for a site blocked always.
    pub start_time: String,
    /// The end of the window as `HH:MM`; empty for a site blocked always.
    pub end_time: String,
}

/// The row that shows `site`.
pub fn site_row(site: &BlockedSite) -> (row: SiteRow)
    ensures
        row.url@ == site.url@,
        match site.mode {
            BlockMode::Always => row.mode_type@ == "always"@ && row.start_time@.len() == 0
                && row.end_time@.len() == 0,
            BlockMode::Scheduled { start, end } => row.mode_type@ == "scheduled"@
                && row.start_time@ == hm_text(start) && row.end_time@ == hm_text(end),
        },
{
    match site.mode {
        BlockMode::Always => SiteRow {
            url: site.url.clone(),
            mode_type: "always".to_owned(),
            start_time: String::new(),
            end_time: String::new(),
        },
        BlockMode::Scheduled { start, end } => SiteRow {
            url: site.url.clone(),
            mode_type: "scheduled".to_owned(),
            start_time: start.to_hm_string(),
            end_time: end.to_hm_string(),
        },
    }
}


/// After a site is removed from the list, no site with its normal form is
/// left, and the other sites stay in their order.
pub proof fn lemma_remove_unlists(sites: Seq<BlockedSite>, n: Seq<char>)
    ensures
        !is_listed(sites_without(sites, n), n),
        forall|i: int|
            0 <= i < sites.len() && normalized_url(sites[i].url@) != n ==> sites_without(
                sites,
                n,
            ).contains(#[trigger] sites[i]),
    decreases sites.len(),
{
    lemma_sites_without_listed(sites, n);
    if sites.len() > 0 {
        let init = sites.drop_last();
        lemma_remove_unlists(init, n);
        assert forall|i: int|
            0 <= i < sites.len() && normalized_url(sites[i].url@) != n implies sites_without(
            sites,
            n,
        ).contains(#[trigger] sites[i]) by {
            let rest = sites_without(init, n);
            if i < init.len() {
                assert(init[i] == sites[i]);
                assert(rest.contains(init[i]));
                let k = choose|k: int| 0 <= k < rest.len() && rest[k] == init[i];
                if normalized_url(sites.last().url@) != n {
                    assert(rest.push(sites.last())[k] == sites[i]);
                }
            } else {
                assert(rest.push(sites.last())[rest.len() as int] == sites[i]);
            }
        }
    }
}

/// A site that the settings window added is listed afterwards: the same
/// input given again is refused as already listed. This holds for an input
/// that is ASCII without white space once trimmed and whose normal form does
/// not still start with `http://` or `https://` (that of `https://http://x`
/// is `http://x`, stored as such, whose normal form is `x`).
pub proof fn lemma_add_twice_refused(
    before: Seq<BlockedSite>,
    after: Seq<BlockedSite>,
    url: Seq<char>,
    mode_type: Seq<char>,
    start: Seq<char>,
    end: Seq<char>,
)
    requires
        add_refusal(before, url, mode_type, start, end) is None,
        after.len() == before.len() + 1,
        after.last().url@ == normalized_url(trim(url)),
        is_ascii_text(trim(url)),
        has_no_white_space(trim(url)),
        !"http://"@.is_prefix_of(normalized_url(trim(url))),
        !"https://"@.is_prefix_of(normalized_url(trim(url))),
    ensures
        add_refusal(after, url, mode_type, start, end) == Some(SiteError::AlreadyListed),
{
    lemma_normalize_idempotent(trim(url));
    assert(after[after.len() - 1] == after.last());
    assert(is_listed(after, normalized_url(trim(url))));
}


/// The typed address is refused exactly when, once trimmed, it is empty
/// (`EmptyUrl`), or it has no dot or holds a space (`InvalidDomain`); any
/// other address is accepted, whatever its number of dots or its length.
pub proof fn lemma_url_objection_exact(url: Seq<char>)
    ensures
        url_objection(url) is None <==> (trim(url).len() > 0 && trim(url).contains('.')
            && !trim(url).contains(' ')),
        url_objection(url) == Some(SiteError::EmptyUrl) <==> trim(url).len() == 0,
        url_objection(url) == Some(SiteError::InvalidDomain) <==> (trim(url).len() > 0 && (
        !trim(url).contains('.') || trim(url).contains(' '))),
{
}

/// The time typed is read as `%H:%M` when chrono reads it so, else as
/// `%H:%M:%S`, after trimming; nothing else, such as its length, is looked
/// at.
pub proof fn lemma_input_time_first_parse(s: Seq<char>)
    ensures
        parsed_time(trim(s), "%H:%M"@) is Some ==> input_time_parts(s) == parsed_time(
            trim(s),
            "%H:%M"@,
        ),
        parsed_time(trim(s), "%H:%M"@) is None ==> input_time_parts(s) == parsed_time(
            trim(s),
            "%H:%M:%S"@,
        ),
        input_time_parts(s) is Some <==> (parsed_time(trim(s), "%H:%M"@) is Some || parsed_time(
            trim(s),
            "%H:%M:%S"@,
        ) is Some),
{
}

} // verus!
