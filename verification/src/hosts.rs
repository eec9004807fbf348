//! The hosts file: reading the block that this program manages, writing it
//! back, and the normal form of a blocked site's address.

use vstd::prelude::*;
use vstd::slice::slice_subrange;
use crate::text::{
    has_no_line_break,
    lemma_split_lines_clean,
    lemma_words_clean,
    trim_start,
    trim_end,
    lemma_trim_start,
    lemma_trim_end,
    lemma_strip_prefix_repeatedly,
    lemma_trim_end_char,
    lemma_strip_absent_prefix,
    lemma_strip_one_prefix,
    is_plain_line,
    has_no_white_space,
    lemma_split_join,
    lemma_words_of_pair,
    lemma_trim_unchanged,
    is_white_space,
    copy_strings,
    join_lines,
    joined_lines,
    sorted_strings,
    text_order,
    strs_view,
    split_lines,
    lines_of,
    words,
    first_word_bounds,
    range_equals,
    chars_of,
    string_of,
    trim,
    trim_bounds,
    strip_prefix_repeatedly,
    strip_prefix_index,
    trim_end_char,
    trim_end_char_index,
};

verus! {

/// What `str::to_lowercase` returns for a string: its lowercase equivalent
/// under Unicode's case mapping.
pub uninterp spec fn lowercase(s: Seq<char>) -> Seq<char>;

/// Every character of `s` is ASCII.
pub open spec fn is_ascii_text(s: Seq<char>) -> bool {
    forall|i: int| 0 <= i < s.len() ==> #[trigger] s[i] <= '\u{7f}'
}

/// `c` with `A`..`Z` mapped to `a`..`z`.
pub open spec fn ascii_lower_char(c: char) -> char {
    if 'A' <= c && c <= 'Z' {
        ((c as int) + 32) as char
    } else {
        c
    }
}

/// `c` with `a`..`z` mapped to `A`..`Z`.
pub open spec fn ascii_upper_char(c: char) -> char {
    if 'a' <= c && c <= 'z' {
        ((c as int) - 32) as char
    } else {
        c
    }
}

/// `s` with its ASCII letters in lowercase.
pub open spec fn ascii_lowercase(s: Seq<char>) -> Seq<char> {
    s.map_values(|c: char| ascii_lower_char(c))
}

/// `s` with its ASCII letters in uppercase.
pub open spec fn ascii_uppercase(s: Seq<char>) -> Seq<char> {
    s.map_values(|c: char| ascii_upper_char(c))
}

/// What `str::to_lowercase` returns: for an ASCII text, its letters `A`..`Z`
/// mapped to `a`..`z` and every other character kept; for any other text,
/// `lowercase`.
pub open spec fn lowercased(s: Seq<char>) -> Seq<char> {
    if is_ascii_text(s) {
        ascii_lowercase(s)
    } else {
        lowercase(s)
    }
}

/// `str::to_lowercase`. For an all-ASCII argument the result is stated:
/// Unicode lowercases `A`..`Z` to `a`..`z` and leaves the other ASCII
/// characters as they are. For any other argument the result is taken to be
/// `lowercase` of it; Unicode's full case mapping is not written out.
#[verifier::external_body]
fn to_lowercase(s: &str) -> (res: String)
    ensures
        is_ascii_text(s@) ==> res@ == ascii_lowercase(s@),
        !is_ascii_text(s@) ==> res@ == lowercase(s@),
{
    s.to_lowercase()
}

/// An address with surrounding white space, any leading `http://` and then
/// `https://` prefixes, and trailing slashes removed.
pub open spec fn bare_url_spec(url: Seq<char>) -> Seq<char> {
    trim_end_char(
        strip_prefix_repeatedly(strip_prefix_repeatedly(trim(url), "http://"@), "https://"@),
        '/',
    )
}

/// The normal form of an address: `bare_url_spec` in lowercase.
pub open spec fn normalized_url(url: Seq<char>) -> Seq<char> {
    lowercased(bare_url_spec(url))
}

/// Removes surrounding white space, leading `http://` and `https://`
/// prefixes and trailing slashes, in that order.
pub fn bare_url(url: &str) -> (res: String)
    ensures
        res@ == bare_url_spec(url@),
{
    let cs = chars_of(url);
    let http = chars_of("http://");
    let https = chars_of("https://");
    let (i, j) = trim_bounds(cs.as_slice(), 0, cs.len());
    assert(cs@.subrange(0, cs@.len() as int) =~= cs@);
    let i = strip_prefix_index(cs.as_slice(), i, j, http.as_slice());
    let i = strip_prefix_index(cs.as_slice(), i, j, https.as_slice());
    let j = trim_end_char_index(cs.as_slice(), i, j, '/');
    string_of(slice_subrange(cs.as_slice(), i, j))
}

/// The normal form in which a site's address is stored and compared.
pub fn normalize_url(url: &str) -> (res: String)
    ensures
        res@ == normalized_url(url@),
{
    let bare = bare_url(url);
    to_lowercase(bare.as_str())
}


/// The hosts file on Linux.
pub const LINUX_HOSTS_PATH: &'static str = "/etc/hosts";

/// The hosts file on Windows.
pub const HOSTS_PATH: &'static str = "C:\\Windows\\System32\\drivers\\etc\\hosts";

/// The line that opens the block of entries this program manages.
pub const BEGIN_MARKER: &'static str = "# BEGIN BLOQUEADOR-WEB";

/// The line that closes the block of entries this program manages.
pub const END_MARKER: &'static str = "# END BLOQUEADOR-WEB";

/// The contents of a hosts file as this program sees them: the lines outside
/// its managed block, and the addresses that the block redirects.
/// The addresses form a set: a vector in which no address occurs twice
/// (`wf`).
#[derive(Debug, Clone, PartialEq, Eq)]
pub struct HostsData {
    pub base_lines: Vec<String>,
    pub blocked_urls: Vec<String>,
}

/// The mathematical content of a `HostsData`.
#[verifier::ext_equal]
pub struct HostsView {
    pub base_lines: Seq<Seq<char>>,
    pub blocked_urls: Set<Seq<char>>,
}

impl View for HostsData {
    type V = HostsView;

    open spec fn view(&self) -> HostsView {
        HostsView {
            base_lines: strs_view(self.base_lines@),
            blocked_urls: strs_view(self.blocked_urls@).to_set(),
        }
    }
}

impl HostsData {
    /// No blocked address is listed twice.
    pub open spec fn wf(&self) -> bool {
        strs_view(self.blocked_urls@).no_duplicates()
    }
}

/// The first word of a line is one of the two addresses that an entry of the
/// block may redirect to.
pub open spec fn is_redirect_target(w: Seq<char>) -> bool {
    w == "127.0.0.1"@ || w == "0.0.0.0"@
}

/// The address that a line of the managed block blocks: its second word,
/// when it has at least two and the first is a redirect target.
pub open spec fn host_entry(line: Seq<char>) -> Option<Seq<char>> {
    let w = words(line);
    if w.len() >= 2 && is_redirect_target(w[0]) {
        Some(w[1])
    } else {
        None
    }
}

/// The hosts data held by `lines`, read from the top with `inside` telling
/// whether the managed block is open. A line whose trimmed text is a marker
/// opens or closes the block; a line inside the block contributes its
/// `host_entry`, if any; a line outside it is kept as it is.
pub open spec fn parse_lines(lines: Seq<Seq<char>>, inside: bool) -> HostsView
    decreases lines.len(),
{
    if lines.len() == 0 {
        HostsView { base_lines: Seq::empty(), blocked_urls: Set::empty() }
    } else {
        let l = lines[0];
        if trim(l) == BEGIN_MARKER@ {
            parse_lines(lines.drop_first(), true)
        } else if trim(l) == END_MARKER@ {
            parse_lines(lines.drop_first(), false)
        } else if inside {
            let rest = parse_lines(lines.drop_first(), true);
            HostsView {
                base_lines: rest.base_lines,
                blocked_urls: match host_entry(l) {
                    Some(h) => rest.blocked_urls.insert(h),
                    None => rest.blocked_urls,
                },
            }
        } else {
            let rest = parse_lines(lines.drop_first(), false);
            HostsView { base_lines: seq![l] + rest.base_lines, blocked_urls: rest.blocked_urls }
        }
    }
}

/// The hosts data that a hosts file with the text `content` holds.
pub open spec fn parse_hosts(content: Seq<char>) -> HostsView {
    parse_lines(split_lines(content), false)
}

/// The address that the line `cs` blocks, as `host_entry` states.
fn entry_of_line(cs: &[char]) -> (res: Option<String>)
    ensures
        match res {
            Some(h) => host_entry(cs@) == Some(h@),
            None => host_entry(cs@) is None,
        },
{
    let n = cs.len();
    assert(cs@.subrange(0, n as int) =~= cs@);
    let (i0, j0) = first_word_bounds(cs, 0, n);
    if i0 == n {
        return None;
    }
    let (i1, j1) = first_word_bounds(cs, j0, n);
    if i1 == n {
        return None;
    }
    let loopback = chars_of("127.0.0.1");
    let unspecified = chars_of("0.0.0.0");
    if range_equals(cs, i0, j0, loopback.as_slice()) || range_equals(
        cs,
        i0,
        j0,
        unspecified.as_slice(),
    ) {
        Some(string_of(slice_subrange(cs, i1, j1)))
    } else {
        None
    }
}

/// Whether `url` is one of `urls`.
pub fn contains_string(urls: &Vec<String>, url: &String) -> (res: bool)
    ensures
        res == strs_view(urls@).contains(url@),
{
    let mut k: usize = 0;
    while k < urls.len()
        invariant
            k <= urls@.len(),
            forall|m: int| 0 <= m < k ==> urls@[m]@ != url@,
        decreases urls@.len() - k,
    {
        if urls[k] == *url {
            assert(strs_view(urls@)[k as int] == url@);
            return true;
        }
        k = k + 1;
    }
    assert forall|m: int| 0 <= m < strs_view(urls@).len() implies strs_view(urls@)[m] != url@ by {
        assert(strs_view(urls@)[m] == urls@[m]@);
    }
    false
}


/// The hosts data that a hosts file holds, given the file's text: the lines
/// outside the managed block in order, and the addresses that the block's
/// entries redirect, each once.
pub fn read_hosts_data(content: &str) -> (data: HostsData)
    ensures
        data@ == parse_hosts(content@),
        data.wf(),
{
    let lines = lines_of(content);
    let begin = chars_of(BEGIN_MARKER);
    let end = chars_of(END_MARKER);
    let mut data = HostsData { base_lines: Vec::new(), blocked_urls: Vec::new() };
    let mut inside = false;
    let ghost all = strs_view(lines@);
    let mut k: usize = 0;
    proof {
        assert(all.skip(0) =~= all);
        assert(data@.base_lines =~= Seq::<Seq<char>>::empty());
        assert(data@.blocked_urls =~= Set::<Seq<char>>::empty());
    }
    while k < lines.len()
        invariant
            all == strs_view(lines@),
            all == split_lines(content@),
            begin@ == BEGIN_MARKER@,
            end@ == END_MARKER@,
            k <= lines@.len(),
            data.wf(),
            parse_lines(all, false) == (HostsView {
                base_lines: data@.base_lines + parse_lines(all.skip(k as int), inside).base_lines,
                blocked_urls: data@.blocked_urls.union(
                    parse_lines(all.skip(k as int), inside).blocked_urls,
                ),
            }),
        decreases lines@.len() - k,
    {
        let ghost old_data = data@;
        let ghost old_inside = inside;
        let cs = chars_of(lines[k].as_str());
        let n = cs.len();
        let (i, j) = trim_bounds(cs.as_slice(), 0, n);
        proof {
            assert(cs@.subrange(0, n as int) =~= cs@);
            assert(all.skip(k as int).drop_first() =~= all.skip(k + 1));
            assert(all.skip(k as int)[0] == cs@);
        }
        if range_equals(cs.as_slice(), i, j, begin.as_slice()) {
            inside = true;
        } else if range_equals(cs.as_slice(), i, j, end.as_slice()) {
            inside = false;
        } else if inside {
            match entry_of_line(cs.as_slice()) {
                Some(h) => {
                    let ghost hv = h@;
                    insert_unique(&mut data.blocked_urls, h);
                    proof {
                        let rest = parse_lines(all.skip(k + 1), true);
                        assert(old_data.blocked_urls.union(rest.blocked_urls.insert(hv)) =~= old_data.blocked_urls.insert(hv).union(rest.blocked_urls));
                    }
                },
                None => {},
            }
        } else {
            let line = lines[k].clone();
            data.base_lines.push(line);
            proof {
                assert(strs_view(data.base_lines@) =~= old_data.base_lines.push(cs@));
                let rest = parse_lines(all.skip(k + 1), false);
                assert(old_data.base_lines + (seq![cs@] + rest.base_lines) =~= old_data.base_lines.push(cs@) + rest.base_lines);
            }
        }
        k = k + 1;
    }
    proof {
        assert(all.skip(k as int) =~= Seq::<Seq<char>>::empty());
        assert(data@.base_lines + Seq::<Seq<char>>::empty() =~= data@.base_lines);
        assert(data@.blocked_urls.union(Set::<Seq<char>>::empty()) =~= data@.blocked_urls);
    }
    data
}


/// The line of the managed block that blocks `url`.
pub open spec fn entry_line(url: Seq<char>) -> Seq<char> {
    "127.0.0.1 "@ + url
}

/// The lines of a hosts file: the base lines, then, when any address is
/// blocked, the managed block with one entry per address in the given order.
pub open spec fn hosts_file_lines(base: Seq<Seq<char>>, blocked: Seq<Seq<char>>) -> Seq<
    Seq<char>,
> {
    if blocked.len() == 0 {
        base
    } else {
        base + seq![BEGIN_MARKER@] + blocked.map_values(|u: Seq<char>| entry_line(u)) + seq![
            END_MARKER@,
        ]
    }
}

/// The text of the hosts file that holds `base` and blocks `blocked`: the
/// entries come sorted, so that the text does not depend on their order.
pub open spec fn hosts_text(base: Seq<Seq<char>>, blocked: Seq<Seq<char>>) -> Seq<char> {
    join_lines(hosts_file_lines(base, blocked.sort_by(text_order())))
}

/// The text to write to the hosts file for `data`: its base lines, then its
/// blocked addresses, sorted, between the two markers; each line ends with a
/// line feed.
pub fn save_hosts_data(data: &HostsData) -> (content: String)
    ensures
        content@ == hosts_text(strs_view(data.base_lines@), strs_view(data.blocked_urls@)),
{
    let mut lines = copy_strings(&data.base_lines);
    let sorted = sorted_strings(&data.blocked_urls);
    let ghost base = strs_view(data.base_lines@);
    let ghost blocked = strs_view(sorted@);
    if sorted.len() > 0 {
        lines.push(BEGIN_MARKER.to_owned());
        let ghost with_begin = strs_view(lines@);
        assert(with_begin =~= base + seq![BEGIN_MARKER@]);
        let mut m: usize = 0;
        while m < sorted.len()
            invariant
                m <= sorted@.len(),
                blocked == strs_view(sorted@),
                with_begin == base + seq![BEGIN_MARKER@],
                strs_view(lines@) == with_begin + blocked.take(m as int).map_values(
                    |u: Seq<char>| entry_line(u),
                ),
            decreases sorted@.len() - m,
        {
            let mut line = "127.0.0.1 ".to_owned();
            line.append(sorted[m].as_str());
            let ghost before = strs_view(lines@);
            lines.push(line);
            assert(blocked.take(m + 1).map_values(|u: Seq<char>| entry_line(u)) =~= blocked.take(
                m as int,
            ).map_values(|u: Seq<char>| entry_line(u)).push(entry_line(blocked[m as int])));
            assert(strs_view(lines@) =~= before.push(entry_line(blocked[m as int])));
            m = m + 1;
        }
        assert(blocked.take(m as int) =~= blocked);
        let ghost before = strs_view(lines@);
        lines.push(END_MARKER.to_owned());
        assert(strs_view(lines@) =~= before.push(END_MARKER@));
    }
    assert(strs_view(lines@) =~= hosts_file_lines(base, blocked));
    joined_lines(&lines)
}


/// Adds `url` to `urls` unless it is there already.
pub fn insert_unique(urls: &mut Vec<String>, url: String)
    requires
        strs_view(old(urls)@).no_duplicates(),
    ensures
        strs_view(final(urls)@).no_duplicates(),
        strs_view(final(urls)@).to_set() == strs_view(old(urls)@).to_set().insert(url@),
        strs_view(old(urls)@).contains(url@) ==> final(urls)@ == old(urls)@,
        !strs_view(old(urls)@).contains(url@) ==> strs_view(final(urls)@) == strs_view(
            old(urls)@,
        ).push(url@),
{
    let ghost old_v = strs_view(urls@);
    let ghost u = url@;
    if !contains_string(urls, &url) {
        urls.push(url);
        proof {
            let v = strs_view(urls@);
            assert(v =~= old_v.push(u));
            assert forall|a: int, b: int| 0 <= a < b < v.len() implies v[a] != v[b] by {
                if b == v.len() - 1 {
                    assert(old_v.contains(v[a]) || a == b);
                }
            }
        }
    }
    proof {
        let v = strs_view(urls@);
        assert forall|x: Seq<char>| v.contains(x) <==> old_v.contains(x) || x == u by {
            if v.contains(x) {
                let m = choose|m: int| 0 <= m < v.len() && v[m] == x;
                if m < old_v.len() {
                    assert(old_v[m] == x);
                }
            }
            if old_v.contains(x) {
                let m = choose|m: int| 0 <= m < old_v.len() && old_v[m] == x;
                assert(v[m] == x);
            }
            if x == u && !old_v.contains(x) {
                assert(v[v.len() - 1] == x);
            }
        }
        assert(v.to_set() =~= old_v.to_set().insert(u));
    }
}


/// A line that can stand outside the managed block: a plain line whose
/// trimmed text is not a marker.
pub open spec fn is_base_line(l: Seq<char>) -> bool {
    &&& is_plain_line(l)
    &&& trim(l) != BEGIN_MARKER@
    &&& trim(l) != END_MARKER@
}

/// A host name that an entry of the managed block can hold: non-empty,
/// without white space.
pub open spec fn is_host_name(u: Seq<char>) -> bool {
    u.len() > 0 && has_no_white_space(u)
}

proof fn lemma_markers()
    ensures
        is_plain_line(BEGIN_MARKER@),
        is_plain_line(END_MARKER@),
        trim(BEGIN_MARKER@) == BEGIN_MARKER@,
        trim(END_MARKER@) == END_MARKER@,
        BEGIN_MARKER@ != END_MARKER@,
        BEGIN_MARKER@.len() > 0 && BEGIN_MARKER@[0] == '#',
        END_MARKER@.len() > 0 && END_MARKER@[0] == '#',
{
    reveal_strlit("# BEGIN BLOQUEADOR-WEB");
    reveal_strlit("# END BLOQUEADOR-WEB");
    let b = BEGIN_MARKER@;
    let e = END_MARKER@;
    assert(!b.contains('\n')) by {
        if b.contains('\n') {
            let k = choose|k: int| 0 <= k < b.len() && b[k] == '\n';
        }
    }
    assert(!e.contains('\n')) by {
        if e.contains('\n') {
            let k = choose|k: int| 0 <= k < e.len() && e[k] == '\n';
        }
    }
    lemma_trim_unchanged(b);
    lemma_trim_unchanged(e);
}

proof fn lemma_entry_line(u: Seq<char>)
    requires
        is_host_name(u),
    ensures
        host_entry(entry_line(u)) == Some(u),
        trim(entry_line(u)) == entry_line(u),
        entry_line(u)[0] == '1',
        is_plain_line(entry_line(u)),
{
    reveal_strlit("127.0.0.1 ");
    reveal_strlit("127.0.0.1");
    let p = "127.0.0.1"@;
    let l = entry_line(u);
    assert(l =~= p + seq![' '] + u);
    assert(has_no_white_space(p));
    lemma_words_of_pair(p, u);
    assert(!is_white_space(u.last()));
    assert(l.last() == u.last());
    lemma_trim_unchanged(l);
    assert(!l.contains('\n')) by {
        if l.contains('\n') {
            let k = choose|k: int| 0 <= k < l.len() && l[k] == '\n';
            if k >= 10 {
                assert(u[k - 10] == '\n');
            }
        }
    }
}

proof fn lemma_parse_base(b: Seq<Seq<char>>, rest: Seq<Seq<char>>)
    requires
        forall|i: int| 0 <= i < b.len() ==> is_base_line(#[trigger] b[i]),
    ensures
        parse_lines(b + rest, false) == (HostsView {
            base_lines: b + parse_lines(rest, false).base_lines,
            blocked_urls: parse_lines(rest, false).blocked_urls,
        }),
    decreases b.len(),
{
    if b.len() == 0 {
        assert(b + rest =~= rest);
        assert(b + parse_lines(rest, false).base_lines =~= parse_lines(rest, false).base_lines);
    } else {
        assert((b + rest)[0] == b[0]);
        assert((b + rest).drop_first() =~= b.drop_first() + rest);
        assert(is_base_line(b[0]));
        assert forall|i: int| 0 <= i < b.drop_first().len() implies is_base_line(
            #[trigger] b.drop_first()[i],
        ) by {
            assert(b.drop_first()[i] == b[i + 1]);
        }
        lemma_parse_base(b.drop_first(), rest);
        assert(b + parse_lines(rest, false).base_lines =~= seq![b[0]] + (b.drop_first()
            + parse_lines(rest, false).base_lines));
    }
}

proof fn lemma_parse_entries(us: Seq<Seq<char>>)
    requires
        forall|i: int| 0 <= i < us.len() ==> is_host_name(#[trigger] us[i]),
    ensures
        parse_lines(us.map_values(|u: Seq<char>| entry_line(u)) + seq![END_MARKER@], true) == (
        HostsView { base_lines: Seq::empty(), blocked_urls: us.to_set() }),
    decreases us.len(),
{
    lemma_markers();
    let lines = us.map_values(|u: Seq<char>| entry_line(u)) + seq![END_MARKER@];
    if us.len() == 0 {
        assert(lines =~= seq![END_MARKER@]);
        assert(lines[0] == END_MARKER@);
        assert(lines.drop_first() =~= Seq::<Seq<char>>::empty());
        assert(parse_lines(lines.drop_first(), false) =~= HostsView {
            base_lines: Seq::empty(),
            blocked_urls: Set::empty(),
        });
        assert(us.to_set() =~= Set::<Seq<char>>::empty());
        assert(parse_lines(lines, true) =~= HostsView {
            base_lines: Seq::empty(),
            blocked_urls: us.to_set(),
        });
    } else {
        let u = us[0];
        let tail = us.drop_first();
        assert(is_host_name(u));
        lemma_entry_line(u);
        assert(lines[0] == entry_line(u));
        assert(lines.drop_first() =~= tail.map_values(|u: Seq<char>| entry_line(u)) + seq![
            END_MARKER@,
        ]);
        assert(trim(lines[0]) != BEGIN_MARKER@);
        assert(trim(lines[0]) != END_MARKER@);
        assert forall|i: int| 0 <= i < tail.len() implies is_host_name(#[trigger] tail[i]) by {
            assert(tail[i] == us[i + 1]);
        }
        lemma_parse_entries(tail);
        assert forall|x: Seq<char>| us.to_set().contains(x) <==> tail.to_set().insert(u).contains(
            x,
        ) by {
            if us.contains(x) {
                let k = choose|k: int| 0 <= k < us.len() && us[k] == x;
                if k > 0 {
                    assert(tail[k - 1] == x);
                }
            }
            if tail.contains(x) {
                let k = choose|k: int| 0 <= k < tail.len() && tail[k] == x;
                assert(us[k + 1] == x);
            }
            if x == u {
                assert(us[0] == x);
            }
        }
        assert(us.to_set() =~= tail.to_set().insert(u));
        let rest = parse_lines(lines.drop_first(), true);
        assert(rest.blocked_urls == tail.to_set());
        assert(parse_lines(lines, true).blocked_urls == rest.blocked_urls.insert(u));
        assert(parse_lines(lines, true) =~= HostsView {
            base_lines: Seq::empty(),
            blocked_urls: us.to_set(),
        });
    }
}

/// Reading back the text written for some base lines and blocked host
/// names gives those base lines and host names, when the base lines are
/// plain lines that do not read as markers and the host names are non-empty
/// and hold no white space.
pub proof fn lemma_read_after_save(base: Seq<Seq<char>>, blocked: Seq<Seq<char>>)
    requires
        forall|i: int| 0 <= i < base.len() ==> is_base_line(#[trigger] base[i]),
        forall|i: int| 0 <= i < blocked.len() ==> is_host_name(#[trigger] blocked[i]),
    ensures
        parse_hosts(hosts_text(base, blocked)) == (HostsView {
            base_lines: base,
            blocked_urls: blocked.to_set(),
        }),
{
    broadcast use vstd::seq_lib::group_to_multiset_ensures;

    lemma_markers();
    crate::text::lemma_text_order_total();
    blocked.lemma_sort_by_ensures(text_order());
    let p = blocked.sort_by(text_order());
    assert forall|i: int| 0 <= i < p.len() implies is_host_name(#[trigger] p[i]) by {
        assert(p.contains(p[i]));
        let k = choose|k: int| 0 <= k < blocked.len() && blocked[k] == p[i];
        assert(is_host_name(blocked[k]));
    }
    assert forall|x: Seq<char>| p.contains(x) <==> blocked.contains(x) by {
        assert(p.to_multiset().count(x) == blocked.to_multiset().count(x));
    }
    assert(p.to_set() =~= blocked.to_set());
    let lines = hosts_file_lines(base, p);
    let es = p.map_values(|u: Seq<char>| entry_line(u));
    assert forall|i: int| 0 <= i < lines.len() implies is_plain_line(#[trigger] lines[i]) by {
        if i < base.len() {
            assert(lines[i] == base[i]);
            assert(is_base_line(base[i]));
        } else if p.len() > 0 {
            if i == base.len() {
                assert(lines[i] == BEGIN_MARKER@);
            } else if i < base.len() + 1 + p.len() {
                assert(lines[i] == es[i - base.len() - 1]);
                lemma_entry_line(p[i - base.len() - 1]);
            } else {
                assert(lines[i] == END_MARKER@);
            }
        }
    }
    lemma_split_join(lines);
    if p.len() == 0 {
        assert(p.to_multiset().len() == p.len());
        assert(blocked.to_multiset().len() == blocked.len());
        assert(blocked.len() == 0);
        assert(base + Seq::<Seq<char>>::empty() =~= base);
        lemma_parse_base(base, Seq::empty());
        assert(blocked.to_set() =~= Set::<Seq<char>>::empty());
        assert(parse_lines(base, false) =~= HostsView {
            base_lines: base,
            blocked_urls: blocked.to_set(),
        });
    } else {
        let block = seq![BEGIN_MARKER@] + (es + seq![END_MARKER@]);
        assert(lines =~= base + block);
        lemma_parse_base(base, block);
        assert(block[0] == BEGIN_MARKER@);
        assert(block.drop_first() =~= es + seq![END_MARKER@]);
        lemma_parse_entries(p);
        assert(base + Seq::<Seq<char>>::empty() =~= base);
        assert(parse_lines(lines, false) =~= HostsView {
            base_lines: base,
            blocked_urls: blocked.to_set(),
        });
    }
}


/// The text written for the hosts file does not depend on the order in
/// which the blocked host names are held: two lists without repeats that
/// hold the same host names give the same text.
pub proof fn lemma_save_ignores_order(base: Seq<Seq<char>>, b1: Seq<Seq<char>>, b2: Seq<Seq<char>>)
    requires
        b1.no_duplicates(),
        b2.no_duplicates(),
        b1.to_set() == b2.to_set(),
    ensures
        hosts_text(base, b1) == hosts_text(base, b2),
{
    broadcast use vstd::seq_lib::group_to_multiset_ensures;
    broadcast use vstd::multiset::group_multiset_axioms;

    b1.lemma_multiset_has_no_duplicates();
    b2.lemma_multiset_has_no_duplicates();
    assert forall|x: Seq<char>| b1.to_multiset().count(x) == b2.to_multiset().count(x) by {
        assert(b1.to_set().contains(x) == b1.contains(x));
        assert(b2.to_set().contains(x) == b2.contains(x));
        assert(b1.contains(x) == b2.contains(x));
        assert(b1.contains(x) == (b1.to_multiset().count(x) > 0));
        assert(b2.contains(x) == (b2.to_multiset().count(x) > 0));
        if b1.contains(x) {
            assert(b1.to_multiset().contains(x));
            assert(b2.to_multiset().contains(x));
        }
    }
    assert(b1.to_multiset() =~= b2.to_multiset());
    crate::text::lemma_text_order_total();
    b1.lemma_sort_by_ensures(text_order());
    b2.lemma_sort_by_ensures(text_order());
    vstd::seq_lib::lemma_sorted_unique(
        b1.sort_by(text_order()),
        b2.sort_by(text_order()),
        text_order(),
    );
}


/// A character of a host name typed in plain ASCII: a letter, a digit, a dot
/// or a hyphen.
pub open spec fn is_host_char(c: char) -> bool {
    ||| ('a' <= c && c <= 'z')
    ||| ('A' <= c && c <= 'Z')
    ||| ('0' <= c && c <= '9')
    ||| c == '.'
    ||| c == '-'
}

/// A non-empty host name made of `is_host_char` characters.
pub open spec fn is_plain_host(h: Seq<char>) -> bool {
    h.len() > 0 && forall|i: int| 0 <= i < h.len() ==> is_host_char(#[trigger] h[i])
}

proof fn lemma_no_scheme(s: Seq<char>)
    requires
        forall|i: int| 0 <= i < s.len() ==> #[trigger] s[i] != ':',
    ensures
        !"http://"@.is_prefix_of(s),
        !"https://"@.is_prefix_of(s),
{
    reveal_strlit("http://");
    reveal_strlit("https://");
    if "http://"@.is_prefix_of(s) {
        assert(s.subrange(0, 7)[4] == s[4]);
    }
    if "https://"@.is_prefix_of(s) {
        assert(s.subrange(0, 8)[5] == s[5]);
    }
}

proof fn lemma_bare_plain_host(h: Seq<char>)
    requires
        is_plain_host(h),
    ensures
        bare_url_spec(h) == h,
        is_ascii_text(h),
{
    assert(is_host_char(h[0]));
    assert(is_host_char(h[h.len() - 1]));
    lemma_trim_unchanged(h);
    assert forall|i: int| 0 <= i < h.len() implies #[trigger] h[i] != ':' by {
        assert(is_host_char(h[i]));
    }
    lemma_no_scheme(h);
    assert(h.last() != '/');
    assert forall|i: int| 0 <= i < h.len() implies #[trigger] h[i] <= '\u{7f}' by {
        assert(is_host_char(h[i]));
    }
}

/// A plain ASCII host name comes out of `normalize_url` in lowercase, also
/// when typed with `http://` and a trailing slash, with `https://` and two
/// trailing slashes, or in uppercase between white space.
pub proof fn lemma_normalize_ascii_host(h: Seq<char>)
    requires
        is_plain_host(h),
    ensures
        normalized_url(h) == ascii_lowercase(h),
        normalized_url("http://"@ + h + "/"@) == ascii_lowercase(h),
        normalized_url("https://"@ + h + "//"@) == ascii_lowercase(h),
        normalized_url("  "@ + ascii_uppercase(h) + "\t"@) == ascii_lowercase(h),
{
    reveal_strlit("http://");
    reveal_strlit("https://");
    reveal_strlit("/");
    reveal_strlit("//");
    reveal_strlit("  ");
    reveal_strlit("\t");
    lemma_bare_plain_host(h);
    let http = "http://"@;
    let https = "https://"@;
    // typed with http:// and one slash
    let h1 = h + "/"@;
    let s1 = http + h1;
    assert(s1 =~= http + h + "/"@);
    assert(s1[0] == 'h');
    assert(s1.last() == '/');
    lemma_trim_unchanged(s1);
    assert forall|i: int| 0 <= i < h1.len() implies #[trigger] h1[i] != ':' by {
        if i < h.len() {
            assert(is_host_char(h[i]));
        }
    }
    lemma_no_scheme(h1);
    lemma_strip_one_prefix(h1, http);
    lemma_strip_absent_prefix(h1, https);
    assert(h1.drop_last() =~= h);
    assert(trim_end_char(h1, '/') == trim_end_char(h, '/'));
    // typed with https:// and two slashes
    let h2 = h + "//"@;
    let s2 = https + h2;
    assert(s2 =~= https + h + "//"@);
    assert(s2[0] == 'h');
    assert(s2.last() == '/');
    lemma_trim_unchanged(s2);
    assert(!http.is_prefix_of(s2)) by {
        if http.is_prefix_of(s2) {
            assert(s2.subrange(0, 7)[4] == s2[4]);
        }
    }
    lemma_strip_absent_prefix(s2, http);
    assert forall|i: int| 0 <= i < h2.len() implies #[trigger] h2[i] != ':' by {
        if i < h.len() {
            assert(is_host_char(h[i]));
        }
    }
    lemma_no_scheme(h2);
    lemma_strip_one_prefix(h2, https);
    assert(h2.drop_last() =~= h1);
    assert(trim_end_char(h2, '/') == trim_end_char(h1, '/'));
    // typed in uppercase between white space
    let u = ascii_uppercase(h);
    assert forall|i: int| 0 <= i < u.len() implies is_host_char(#[trigger] u[i]) by {
        assert(is_host_char(h[i]));
    }
    lemma_bare_plain_host(u);
    let s3 = "  "@ + u + "\t"@;
    let u1 = u + "\t"@;
    assert(s3.drop_first().drop_first() =~= u1);
    assert(s3[0] == ' ' && s3.drop_first()[0] == ' ');
    assert(!is_white_space(u1[0])) by {
        assert(is_host_char(u[0]));
    }
    assert(trim_start(u1) == u1);
    assert(trim_start(s3.drop_first()) == trim_start(u1));
    assert(trim_start(s3) == u1);
    assert(u1.drop_last() =~= u);
    assert(!is_white_space(u.last())) by {
        assert(is_host_char(u[u.len() - 1]));
    }
    assert(trim_end(u) == u);
    assert(trim_end(u1) == u);
    assert(trim(s3) == u);
    assert(trim(u) == u);
    assert(bare_url_spec(s3) == bare_url_spec(u));
    assert(ascii_lowercase(u) =~= ascii_lowercase(h)) by {
        assert forall|i: int| 0 <= i < h.len() implies ascii_lower_char(ascii_upper_char(h[i]))
            == ascii_lower_char(h[i]) by {
            assert(is_host_char(h[i]));
        }
    }
}

/// The normal form of an ASCII address without white space is its own normal
/// form, unless the normal form still starts with `http://` or `https://`
/// (as that of `https://http://x` does).
pub proof fn lemma_normalize_idempotent(url: Seq<char>)
    requires
        is_ascii_text(url),
        has_no_white_space(url),
        !"http://"@.is_prefix_of(normalized_url(url)),
        !"https://"@.is_prefix_of(normalized_url(url)),
    ensures
        normalized_url(normalized_url(url)) == normalized_url(url),
{
    let ts = trim_start(url);
    lemma_trim_start(url);
    let a = url.len() - ts.len();
    let t = trim_end(ts);
    lemma_trim_end(ts);
    let s1 = strip_prefix_repeatedly(t, "http://"@);
    lemma_strip_prefix_repeatedly(t, "http://"@);
    let d = t.len() - s1.len();
    let s2 = strip_prefix_repeatedly(s1, "https://"@);
    lemma_strip_prefix_repeatedly(s1, "https://"@);
    let e = s1.len() - s2.len();
    let b = trim_end_char(s2, '/');
    lemma_trim_end_char(s2, '/');
    assert(b == bare_url_spec(url));
    assert forall|k: int| 0 <= k < b.len() implies #[trigger] b[k] == url[a + d + e + k] by {
        assert(b[k] == s2[k]);
        assert(s2[k] == s1[e + k]);
        assert(s1[e + k] == t[d + e + k]);
        assert(t[d + e + k] == ts[d + e + k]);
    }
    assert forall|k: int| 0 <= k < b.len() implies #[trigger] b[k] <= '\u{7f}' && !is_white_space(
        b[k],
    ) by {
        assert(b[k] == url[a + d + e + k]);
    }
    let n = ascii_lowercase(b);
    assert(normalized_url(url) == n);
    assert forall|k: int| 0 <= k < n.len() implies #[trigger] n[k] <= '\u{7f}' && !is_white_space(
        n[k],
    ) by {
        assert(b[k] <= '\u{7f}' && !is_white_space(b[k]));
    }
    assert(ascii_lowercase(n) =~= n) by {
        assert forall|k: int| 0 <= k < b.len() implies ascii_lower_char(ascii_lower_char(b[k]))
            == ascii_lower_char(b[k]) by {}
    }
    if n.len() == 0 {
        assert(n =~= Seq::<char>::empty());
        assert(trim(n) == n);
        assert(bare_url_spec(n) == n);
    } else {
        assert(b.last() != '/');
        assert(n.last() == ascii_lower_char(b.last()));
        assert(n.last() != '/');
        lemma_trim_unchanged(n);
        lemma_strip_absent_prefix(n, "http://"@);
        lemma_strip_absent_prefix(n, "https://"@);
        assert(bare_url_spec(n) == n);
    }
}


proof fn lemma_parse_lines_clean(lines: Seq<Seq<char>>, inside: bool)
    requires
        forall|i: int| 0 <= i < lines.len() ==> has_no_line_break(#[trigger] lines[i]),
    ensures
        forall|i: int|
            0 <= i < parse_lines(lines, inside).base_lines.len() ==> is_base_line(
                #[trigger] parse_lines(lines, inside).base_lines[i],
            ),
        forall|x: Seq<char>|
            parse_lines(lines, inside).blocked_urls.contains(x) ==> is_host_name(x),
    decreases lines.len(),
{
    if lines.len() > 0 {
        let l = lines[0];
        let tail = lines.drop_first();
        assert forall|i: int| 0 <= i < tail.len() implies has_no_line_break(#[trigger] tail[i]) by {
            assert(tail[i] == lines[i + 1]);
        }
        lemma_parse_lines_clean(tail, true);
        lemma_parse_lines_clean(tail, false);
        assert(has_no_line_break(l));
        assert(is_plain_line(l)) by {
            if l.contains('\n') {
                let k = choose|k: int| 0 <= k < l.len() && l[k] == '\n';
            }
            if l.len() > 0 {
                assert(l[l.len() - 1] != '\r');
            }
        }
        lemma_words_clean(l);
        let p = parse_lines(lines, inside);
        let next = if trim(l) == BEGIN_MARKER@ {
            true
        } else if trim(l) == END_MARKER@ {
            false
        } else {
            inside
        };
        let r = parse_lines(tail, next);
        assert forall|i: int| 0 <= i < p.base_lines.len() implies is_base_line(
            #[trigger] p.base_lines[i],
        ) by {
            if trim(l) != BEGIN_MARKER@ && trim(l) != END_MARKER@ && !inside {
                if i > 0 {
                    assert(p.base_lines[i] == r.base_lines[i - 1]);
                }
            } else {
                assert(p.base_lines == r.base_lines);
                assert(is_base_line(r.base_lines[i]));
            }
        }
    }
}

/// What is read from a hosts file whose text holds no carriage return can
/// be written and read back unchanged: its base lines do not read as
/// markers and its blocked host names hold no white space, so
/// `lemma_read_after_save` applies to it.
pub proof fn lemma_read_save_read(content: Seq<char>, data: HostsData)
    requires
        forall|k: int| 0 <= k < content.len() ==> #[trigger] content[k] != '\r',
        data@ == parse_hosts(content),
    ensures
        parse_hosts(hosts_text(strs_view(data.base_lines@), strs_view(data.blocked_urls@)))
            == parse_hosts(content),
{
    lemma_split_lines_clean(content);
    lemma_parse_lines_clean(split_lines(content), false);
    let base = strs_view(data.base_lines@);
    let blocked = strs_view(data.blocked_urls@);
    assert forall|i: int| 0 <= i < blocked.len() implies is_host_name(#[trigger] blocked[i]) by {
        assert(blocked.contains(blocked[i]));
        assert(blocked.to_set().contains(blocked[i]));
    }
    assert forall|i: int| 0 <= i < base.len() implies is_base_line(#[trigger] base[i]) by {
        assert(base[i] == parse_hosts(content).base_lines[i]);
    }
    lemma_read_after_save(base, blocked);
    assert(parse_hosts(content) =~= HostsView { base_lines: base, blocked_urls: blocked.to_set() });
}


/// The bare form of an address never ends with a slash, whatever its
/// scheme; and a plain host typed with trailing slashes has the normal form
/// of the host alone.
pub proof fn lemma_no_trailing_slash(url: Seq<char>, h: Seq<char>)
    ensures
        bare_url_spec(url).len() > 0 ==> bare_url_spec(url).last() != '/',
        is_plain_host(h) ==> normalized_url(h + "/"@) == normalized_url(h),
        is_plain_host(h) ==> normalized_url(h + "//"@) == normalized_url(h),
{
    let s2 = strip_prefix_repeatedly(
        strip_prefix_repeatedly(trim(url), "http://"@),
        "https://"@,
    );
    lemma_trim_end_char(s2, '/');
    if is_plain_host(h) {
        reveal_strlit("/");
        reveal_strlit("//");
        lemma_bare_plain_host(h);
        lemma_normalize_ascii_host(h);
        let h1 = h + "/"@;
        let h2 = h + "//"@;
        assert(is_host_char(h[0]));
        assert(h1[0] == h[0] && h2[0] == h[0]);
        assert(h1.last() == '/' && h2.last() == '/');
        lemma_trim_unchanged(h1);
        lemma_trim_unchanged(h2);
        assert forall|i: int| 0 <= i < h1.len() implies #[trigger] h1[i] != ':' by {
            if i < h.len() {
                assert(is_host_char(h[i]));
            }
        }
        assert forall|i: int| 0 <= i < h2.len() implies #[trigger] h2[i] != ':' by {
            if i < h.len() {
                assert(is_host_char(h[i]));
            }
        }
        lemma_no_scheme(h1);
        lemma_no_scheme(h2);
        lemma_strip_absent_prefix(h1, "http://"@);
        lemma_strip_absent_prefix(h1, "https://"@);
        lemma_strip_absent_prefix(h2, "http://"@);
        lemma_strip_absent_prefix(h2, "https://"@);
        assert(h1.drop_last() =~= h);
        assert(h2.drop_last() =~= h1);
        assert(trim_end_char(h1, '/') == trim_end_char(h, '/'));
        assert(trim_end_char(h2, '/') == trim_end_char(h1, '/'));
        assert(bare_url_spec(h1) == h);
        assert(bare_url_spec(h2) == h);
    }
}

} // verus!
