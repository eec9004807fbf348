//! Character-level text operations with exact specifications.

use vstd::prelude::*;
use vstd::slice::slice_subrange;

verus! {

/// The characters with the Unicode property White_Space, as used by
/// `str::trim` and `str::split_whitespace`.
pub open spec fn is_white_space(c: char) -> bool {
    ||| ('\u{9}' <= c && c <= '\u{d}')
    ||| c == ' '
    ||| c == '\u{85}'
    ||| c == '\u{a0}'
    ||| c == '\u{1680}'
    ||| ('\u{2000}' <= c && c <= '\u{200a}')
    ||| c == '\u{2028}'
    ||| c == '\u{2029}'
    ||| c == '\u{202f}'
    ||| c == '\u{205f}'
    ||| c == '\u{3000}'
}

pub fn white_space(c: char) -> (res: bool)
    ensures
        res == is_white_space(c),
{
    ('\u{9}' <= c && c <= '\u{d}') || c == ' ' || c == '\u{85}' || c == '\u{a0}' || c == '\u{1680}'
        || ('\u{2000}' <= c && c <= '\u{200a}') || c == '\u{2028}' || c == '\u{2029}' || c
        == '\u{202f}' || c == '\u{205f}' || c == '\u{3000}'
}

/// The characters of a string slice, in order.
pub fn chars_of(s: &str) -> (v: Vec<char>)
    ensures
        v@ == s@,
{
    let mut v: Vec<char> = Vec::new();
    for c in it: s.chars()
        invariant
            v@ == it.seq().take(it.index() as int),
    {
        v.push(c);
    }
    v
}


/// `String::push`: appends one character to the end of the string.
#[verifier::external_body]
fn push_char(s: &mut String, c: char)
    ensures
        final(s)@ == old(s)@.push(c),
{
    s.push(c);
}

/// A string made of the given characters, in order.
pub fn string_of(cs: &[char]) -> (s: String)
    ensures
        s@ == cs@,
{
    let mut s = String::new();
    let mut i: usize = 0;
    while i < cs.len()
        invariant
            i <= cs@.len(),
            s@ == cs@.take(i as int),
        decreases cs@.len() - i,
    {
        push_char(&mut s, cs[i]);
        assert(cs@.take(i + 1) =~= cs@.take(i as int).push(cs@[i as int]));
        i = i + 1;
    }
    assert(cs@.take(i as int) =~= cs@);
    s
}

/// What `str::trim_start` leaves: the leading white space removed.
pub open spec fn trim_start(s: Seq<char>) -> Seq<char>
    decreases s.len(),
{
    if s.len() > 0 && is_white_space(s[0]) {
        trim_start(s.drop_first())
    } else {
        s
    }
}

/// What `str::trim_end` leaves: the trailing white space removed.
pub open spec fn trim_end(s: Seq<char>) -> Seq<char>
    decreases s.len(),
{
    if s.len() > 0 && is_white_space(s.last()) {
        trim_end(s.drop_last())
    } else {
        s
    }
}

/// What `str::trim` leaves: leading and trailing white space removed.
pub open spec fn trim(s: Seq<char>) -> Seq<char> {
    trim_end(trim_start(s))
}

/// The position of the first character that is not white space.
pub fn trim_start_index(s: &[char], from: usize, to: usize) -> (i: usize)
    requires
        from <= to <= s@.len(),
    ensures
        from <= i <= to,
        trim_start(s@.subrange(from as int, to as int)) == s@.subrange(i as int, to as int),
{
    let mut i = from;
    while i < to && white_space(s[i])
        invariant
            from <= i <= to <= s@.len(),
            trim_start(s@.subrange(from as int, to as int)) == trim_start(
                s@.subrange(i as int, to as int),
            ),
        decreases to - i,
    {
        assert(s@.subrange(i as int, to as int).drop_first() =~= s@.subrange(i + 1, to as int));
        i = i + 1;
    }
    i
}

/// The end of the characters that are left when trailing white space is removed.
pub fn trim_end_index(s: &[char], from: usize, to: usize) -> (j: usize)
    requires
        from <= to <= s@.len(),
    ensures
        from <= j <= to,
        trim_end(s@.subrange(from as int, to as int)) == s@.subrange(from as int, j as int),
{
    let mut j = to;
    while j > from && white_space(s[j - 1])
        invariant
            from <= j <= to <= s@.len(),
            trim_end(s@.subrange(from as int, to as int)) == trim_end(
                s@.subrange(from as int, j as int),
            ),
        decreases j - from,
    {
        assert(s@.subrange(from as int, j as int).drop_last() =~= s@.subrange(
            from as int,
            j - 1,
        ));
        j = j - 1;
    }
    j
}

/// The bounds `(i, j)` of the trimmed part of `s[from..to]`.
pub fn trim_bounds(s: &[char], from: usize, to: usize) -> (r: (usize, usize))
    requires
        from <= to <= s@.len(),
    ensures
        from <= r.0 <= r.1 <= to,
        trim(s@.subrange(from as int, to as int)) == s@.subrange(r.0 as int, r.1 as int),
{
    let i = trim_start_index(s, from, to);
    let j = trim_end_index(s, i, to);
    (i, j)
}

/// The string with leading and trailing white space removed (`str::trim`).
pub fn trimmed(s: &str) -> (res: String)
    ensures
        res@ == trim(s@),
{
    let cs = chars_of(s);
    let (i, j) = trim_bounds(cs.as_slice(), 0, cs.len());
    assert(cs@.subrange(0, cs@.len() as int) =~= cs@);
    string_of(slice_subrange(cs.as_slice(), i, j))
}


/// Whether `a[from..to]` equals `b`.
pub fn range_equals(a: &[char], from: usize, to: usize, b: &[char]) -> (res: bool)
    requires
        from <= to <= a@.len(),
    ensures
        res == (a@.subrange(from as int, to as int) == b@),
{
    if to - from != b.len() {
        return false;
    }
    let mut k: usize = 0;
    while k < b.len()
        invariant
            from <= to <= a@.len(),
            to - from == b@.len(),
            k <= b@.len(),
            forall|m: int| 0 <= m < k ==> a@[from + m] == b@[m],
        decreases b@.len() - k,
    {
        if a[from + k] != b[k] {
            assert(a@.subrange(from as int, to as int)[k as int] != b@[k as int]);
            return false;
        }
        k = k + 1;
    }
    assert(a@.subrange(from as int, to as int) =~= b@);
    true
}

/// Whether `b` is a prefix of `a[from..to]`.
pub fn range_starts_with(a: &[char], from: usize, to: usize, b: &[char]) -> (res: bool)
    requires
        from <= to <= a@.len(),
    ensures
        res == b@.is_prefix_of(a@.subrange(from as int, to as int)),
{
    if b.len() > to - from {
        return false;
    }
    let r = range_equals(a, from, from + b.len(), b);
    assert(a@.subrange(from as int, to as int).subrange(0, b@.len() as int) =~= a@.subrange(
        from as int,
        from + b@.len(),
    ));
    r
}

/// What `str::trim_start_matches` leaves for a string pattern `p`: every
/// leading copy of `p` removed, one after another.
pub open spec fn strip_prefix_repeatedly(s: Seq<char>, p: Seq<char>) -> Seq<char>
    decreases s.len(),
{
    if p.len() > 0 && p.is_prefix_of(s) {
        strip_prefix_repeatedly(s.skip(p.len() as int), p)
    } else {
        s
    }
}

/// What `str::trim_end_matches` leaves for a character pattern `c`: every
/// trailing `c` removed.
pub open spec fn trim_end_char(s: Seq<char>, c: char) -> Seq<char>
    decreases s.len(),
{
    if s.len() > 0 && s.last() == c {
        trim_end_char(s.drop_last(), c)
    } else {
        s
    }
}

/// The start of what `strip_prefix_repeatedly` leaves of `s[from..to]`.
pub fn strip_prefix_index(s: &[char], from: usize, to: usize, p: &[char]) -> (i: usize)
    requires
        from <= to <= s@.len(),
    ensures
        from <= i <= to,
        strip_prefix_repeatedly(s@.subrange(from as int, to as int), p@) == s@.subrange(
            i as int,
            to as int,
        ),
{
    let mut i = from;
    if p.len() == 0 {
        return i;
    }
    while range_starts_with(s, i, to, p)
        invariant
            from <= i <= to <= s@.len(),
            p@.len() > 0,
            strip_prefix_repeatedly(s@.subrange(from as int, to as int), p@)
                == strip_prefix_repeatedly(s@.subrange(i as int, to as int), p@),
        decreases to - i,
    {
        assert(s@.subrange(i as int, to as int).skip(p@.len() as int) =~= s@.subrange(
            i + p@.len(),
            to as int,
        ));
        i = i + p.len();
    }
    i
}

/// The end of what `trim_end_char` leaves of `s[from..to]`.
pub fn trim_end_char_index(s: &[char], from: usize, to: usize, c: char) -> (j: usize)
    requires
        from <= to <= s@.len(),
    ensures
        from <= j <= to,
        trim_end_char(s@.subrange(from as int, to as int), c) == s@.subrange(
            from as int,
            j as int,
        ),
{
    let mut j = to;
    while j > from && s[j - 1] == c
        invariant
            from <= j <= to <= s@.len(),
            trim_end_char(s@.subrange(from as int, to as int), c) == trim_end_char(
                s@.subrange(from as int, j as int),
                c,
            ),
        decreases j - from,
    {
        assert(s@.subrange(from as int, j as int).drop_last() =~= s@.subrange(
            from as int,
            j - 1,
        ));
        j = j - 1;
    }
    j
}


pub proof fn lemma_trim_start(s: Seq<char>)
    ensures
        trim_start(s).len() <= s.len(),
        trim_start(s) == s.skip(s.len() - trim_start(s).len()),
        trim_start(s).len() > 0 ==> !is_white_space(trim_start(s)[0]),
    decreases s.len(),
{
    if s.len() > 0 && is_white_space(s[0]) {
        lemma_trim_start(s.drop_first());
        let k = s.len() - trim_start(s).len();
        assert(s.drop_first().skip(k - 1) =~= s.skip(k));
    } else {
        assert(s.skip(0) =~= s);
    }
}

/// The length of the run of non-white-space characters at the start of `s`.
pub open spec fn word_len(s: Seq<char>) -> nat
    decreases s.len(),
{
    if s.len() > 0 && !is_white_space(s[0]) {
        1 + word_len(s.drop_first())
    } else {
        0
    }
}

pub proof fn lemma_word_len(s: Seq<char>)
    ensures
        word_len(s) <= s.len(),
        s.len() > 0 && !is_white_space(s[0]) ==> word_len(s) >= 1,
    decreases s.len(),
{
    if s.len() > 0 && !is_white_space(s[0]) {
        lemma_word_len(s.drop_first());
    }
}

/// The words of `s`: what `str::split_whitespace` yields, the maximal runs of
/// characters that are not white space, in order.
pub open spec fn words(s: Seq<char>) -> Seq<Seq<char>>
    decreases s.len(),
{
    let t = trim_start(s);
    if t.len() == 0 {
        Seq::empty()
    } else {
        proof {
            lemma_trim_start(s);
            lemma_word_len(t);
        }
        seq![t.take(word_len(t) as int)] + words(t.skip(word_len(t) as int))
    }
}

/// The bounds `(i, j)` of the first word of `s[from..to]`; `i == to` when
/// there is none. The words after it are those of `s[j..to]`.
pub fn first_word_bounds(s: &[char], from: usize, to: usize) -> (r: (usize, usize))
    requires
        from <= to <= s@.len(),
    ensures
        from <= r.0 <= r.1 <= to,
        r.0 == to ==> words(s@.subrange(from as int, to as int)).len() == 0,
        r.0 < to ==> r.0 < r.1 && words(s@.subrange(from as int, to as int)) == seq![
            s@.subrange(r.0 as int, r.1 as int),
        ] + words(s@.subrange(r.1 as int, to as int)),
{
    let i = trim_start_index(s, from, to);
    proof {
        lemma_trim_start(s@.subrange(from as int, to as int));
    }
    let mut j = i;
    while j < to && !white_space(s[j])
        invariant
            i <= j <= to <= s@.len(),
            word_len(s@.subrange(i as int, to as int)) == (j - i) + word_len(
                s@.subrange(j as int, to as int),
            ),
        decreases to - j,
    {
        assert(s@.subrange(j as int, to as int).drop_first() =~= s@.subrange(j + 1, to as int));
        j = j + 1;
    }
    proof {
        let t = s@.subrange(i as int, to as int);
        assert(t.take(word_len(t) as int) =~= s@.subrange(i as int, j as int));
        assert(t.skip(word_len(t) as int) =~= s@.subrange(j as int, to as int));
        if i < to {
            assert(t[0] == s@[i as int]);
        }
    }
    (i, j)
}


/// The characters of each string, in order.
pub open spec fn strs_view(v: Seq<String>) -> Seq<Seq<char>> {
    v.map_values(|s: String| s@)
}

/// The length of the text before the first line feed of `s` (all of `s`
/// when it holds none).
pub open spec fn line_len(s: Seq<char>) -> nat
    decreases s.len(),
{
    if s.len() > 0 && s[0] != '\n' {
        1 + line_len(s.drop_first())
    } else {
        0
    }
}

/// A line with the carriage return of a CRLF line ending removed.
pub open spec fn without_cr(l: Seq<char>) -> Seq<char> {
    if l.len() > 0 && l.last() == '\r' {
        l.drop_last()
    } else {
        l
    }
}

/// The lines of a text, as `BufRead::lines` yields them: split at each line
/// feed, a carriage return right before the line feed dropped, and no empty
/// line after a final line feed.
pub open spec fn split_lines(s: Seq<char>) -> Seq<Seq<char>>
    decreases s.len(),
{
    if s.len() == 0 {
        Seq::empty()
    } else if line_len(s) < s.len() {
        seq![without_cr(s.take(line_len(s) as int))] + split_lines(s.skip(line_len(s) as int + 1))
    } else {
        seq![s]
    }
}

/// The lines of `content`, as `split_lines` states.
pub fn lines_of(content: &str) -> (lines: Vec<String>)
    ensures
        strs_view(lines@) == split_lines(content@),
{
    let cs = chars_of(content);
    let n = cs.len();
    let mut lines: Vec<String> = Vec::new();
    let mut pos: usize = 0;
    assert(cs@.subrange(0, n as int) =~= cs@);
    while pos < n
        invariant
            n == cs@.len(),
            pos <= n,
            strs_view(lines@) + split_lines(cs@.subrange(pos as int, n as int)) == split_lines(
                cs@,
            ),
        decreases n - pos,
    {
        let ghost rest = cs@.subrange(pos as int, n as int);
        let mut e = pos;
        while e < n && cs[e] != '\n'
            invariant
                pos <= e <= n == cs@.len(),
                rest == cs@.subrange(pos as int, n as int),
                line_len(rest) == (e - pos) + line_len(cs@.subrange(e as int, n as int)),
            decreases n - e,
        {
            assert(cs@.subrange(e as int, n as int).drop_first() =~= cs@.subrange(
                e + 1,
                n as int,
            ));
            e = e + 1;
        }
        let ghost old_lines = strs_view(lines@);
        if e < n {
            let mut end = e;
            if end > pos && cs[end - 1] == '\r' {
                end = end - 1;
            }
            let line = string_of(slice_subrange(cs.as_slice(), pos, end));
            lines.push(line);
            proof {
                assert(line_len(rest) == e - pos);
                assert(without_cr(rest.take(e - pos)) =~= cs@.subrange(pos as int, end as int));
                assert(rest.skip(e - pos + 1) =~= cs@.subrange(e + 1, n as int));
                assert(strs_view(lines@) =~= old_lines.push(cs@.subrange(pos as int, end as int)));
            }
            pos = e + 1;
        } else {
            let line = string_of(slice_subrange(cs.as_slice(), pos, n));
            lines.push(line);
            proof {
                assert(strs_view(lines@) =~= old_lines.push(rest));
                assert(cs@.subrange(n as int, n as int) =~= Seq::<char>::empty());
            }
            pos = n;
        }
    }
    proof {
        assert(cs@.subrange(n as int, n as int) =~= Seq::<char>::empty());
        assert(strs_view(lines@) + Seq::<Seq<char>>::empty() =~= strs_view(lines@));
    }
    lines
}


/// Lexicographic order on character sequences by code point: the order of
/// `String`'s `Ord`, since UTF-8 keeps code point order byte by byte.
pub open spec fn chars_le(a: Seq<char>, b: Seq<char>) -> bool
    decreases a.len(),
{
    if a.len() == 0 {
        true
    } else if b.len() == 0 {
        false
    } else if a[0] != b[0] {
        a[0] < b[0]
    } else {
        chars_le(a.drop_first(), b.drop_first())
    }
}

/// `chars_le` as a relation.
pub open spec fn text_order() -> spec_fn(Seq<char>, Seq<char>) -> bool {
    |a: Seq<char>, b: Seq<char>| chars_le(a, b)
}

proof fn lemma_chars_le_reflexive(a: Seq<char>)
    ensures
        chars_le(a, a),
    decreases a.len(),
{
    if a.len() > 0 {
        lemma_chars_le_reflexive(a.drop_first());
    }
}

proof fn lemma_chars_le_antisymmetric(a: Seq<char>, b: Seq<char>)
    requires
        chars_le(a, b),
        chars_le(b, a),
    ensures
        a == b,
    decreases a.len(),
{
    if a.len() > 0 && b.len() > 0 {
        lemma_chars_le_antisymmetric(a.drop_first(), b.drop_first());
        assert(a =~= seq![a[0]] + a.drop_first());
        assert(b =~= seq![b[0]] + b.drop_first());
    } else {
        assert(a =~= b);
    }
}

proof fn lemma_chars_le_transitive(a: Seq<char>, b: Seq<char>, c: Seq<char>)
    requires
        chars_le(a, b),
        chars_le(b, c),
    ensures
        chars_le(a, c),
    decreases a.len(),
{
    if a.len() > 0 && b.len() > 0 && c.len() > 0 {
        if a[0] == b[0] && b[0] == c[0] {
            lemma_chars_le_transitive(a.drop_first(), b.drop_first(), c.drop_first());
        }
    }
}

proof fn lemma_chars_le_total(a: Seq<char>, b: Seq<char>)
    ensures
        chars_le(a, b) || chars_le(b, a),
    decreases a.len(),
{
    if a.len() > 0 && b.len() > 0 && a[0] == b[0] {
        lemma_chars_le_total(a.drop_first(), b.drop_first());
    }
}

/// `text_order` is a total order.
pub proof fn lemma_text_order_total()
    ensures
        vstd::relations::total_ordering(text_order()),
{
    assert forall|a: Seq<char>| #[trigger] text_order()(a, a) by {
        lemma_chars_le_reflexive(a);
    }
    assert forall|a: Seq<char>, b: Seq<char>|
        #[trigger] text_order()(a, b) && #[trigger] text_order()(b, a) implies a == b by {
        lemma_chars_le_antisymmetric(a, b);
    }
    assert forall|a: Seq<char>, b: Seq<char>, c: Seq<char>|
        #[trigger] text_order()(a, b) && #[trigger] text_order()(b, c) implies text_order()(
        a,
        c,
    ) by {
        lemma_chars_le_transitive(a, b, c);
    }
    assert forall|a: Seq<char>, b: Seq<char>|
        #[trigger] text_order()(a, b) || #[trigger] text_order()(b, a) by {
        lemma_chars_le_total(a, b);
    }
}

/// Whether `a` comes before `b` or equals it, by `chars_le`.
pub fn text_le(a: &[char], b: &[char]) -> (res: bool)
    ensures
        res == chars_le(a@, b@),
{
    let mut i: usize = 0;
    assert(a@.skip(0) =~= a@);
    assert(b@.skip(0) =~= b@);
    while i < a.len() && i < b.len() && a[i] == b[i]
        invariant
            i <= a@.len(),
            i <= b@.len(),
            chars_le(a@, b@) == chars_le(a@.skip(i as int), b@.skip(i as int)),
        decreases a@.len() - i,
    {
        assert(a@.skip(i as int).drop_first() =~= a@.skip(i + 1));
        assert(b@.skip(i as int).drop_first() =~= b@.skip(i + 1));
        i = i + 1;
    }
    if i == a.len() {
        true
    } else if i == b.len() {
        false
    } else {
        assert(a@.skip(i as int)[0] == a@[i as int]);
        assert(b@.skip(i as int)[0] == b@[i as int]);
        a[i] < b[i]
    }
}

/// The strings of `v`, sorted by `text_order`.
pub fn sorted_strings(v: &Vec<String>) -> (res: Vec<String>)
    ensures
        strs_view(res@) == strs_view(v@).sort_by(text_order()),
{
    let mut sorted: Vec<String> = Vec::new();
    let mut i: usize = 0;
    proof {
        lemma_text_order_total();
        assert(strs_view(v@).take(0) =~= Seq::<Seq<char>>::empty());
        assert(strs_view(sorted@) =~= Seq::<Seq<char>>::empty());
    }
    while i < v.len()
        invariant
            i <= v@.len(),
            vstd::relations::total_ordering(text_order()),
            vstd::relations::sorted_by(strs_view(sorted@), text_order()),
            strs_view(sorted@).to_multiset() == strs_view(v@).take(i as int).to_multiset(),
        decreases v@.len() - i,
    {
        let x = v[i].clone();
        let xc = chars_of(x.as_str());
        let mut k: usize = 0;
        while k < sorted.len() && text_le(chars_of(sorted[k].as_str()).as_slice(), xc.as_slice())
            invariant
                k <= sorted@.len(),
                xc@ == x@,
                forall|m: int| 0 <= m < k ==> chars_le(#[trigger] sorted@[m]@, x@),
            decreases sorted@.len() - k,
        {
            k = k + 1;
        }
        let ghost old_s = strs_view(sorted@);
        sorted.insert(k, x);
        proof {
            let s2 = strs_view(sorted@);
            assert(s2 =~= old_s.insert(k as int, x@));
            vstd::seq_lib::to_multiset_insert(old_s, k as int, x@);
            let tk = strs_view(v@).take(i + 1);
            assert(tk =~= strs_view(v@).take(i as int).push(x@));
            vstd::seq_lib::to_multiset_build(strs_view(v@).take(i as int), x@);
            if k < old_s.len() {
                lemma_chars_le_total(old_s[k as int], x@);
            }
            assert forall|a: int, b: int| 0 <= a < b < s2.len() implies #[trigger] text_order()(
                s2[a],
                s2[b],
            ) by {
                if b < k {
                } else if b == k {
                    assert(chars_le(sorted@[a]@, x@));
                } else if a == k {
                    assert(text_order()(old_s[k as int], old_s[b - 1]) || k == b - 1);
                    if k < b - 1 {
                        lemma_chars_le_transitive(x@, old_s[k as int], old_s[b - 1]);
                    }
                } else if a < k {
                    assert(text_order()(old_s[a], old_s[b - 1]));
                } else {
                    assert(text_order()(old_s[a - 1], old_s[b - 1]));
                }
            }
        }
        i = i + 1;
    }
    proof {
        assert(strs_view(v@).take(i as int) =~= strs_view(v@));
        strs_view(v@).lemma_sort_by_ensures(text_order());
        vstd::seq_lib::lemma_sorted_unique(
            strs_view(sorted@),
            strs_view(v@).sort_by(text_order()),
            text_order(),
        );
    }
    sorted
}


/// The text made of the given lines, each followed by a line feed.
pub open spec fn join_lines(ls: Seq<Seq<char>>) -> Seq<char>
    decreases ls.len(),
{
    if ls.len() == 0 {
        Seq::empty()
    } else {
        ls[0] + seq!['\n'] + join_lines(ls.drop_first())
    }
}

pub proof fn lemma_join_lines_push(ls: Seq<Seq<char>>, l: Seq<char>)
    ensures
        join_lines(ls.push(l)) == join_lines(ls) + l + seq!['\n'],
    decreases ls.len(),
{
    if ls.len() == 0 {
        assert(ls.push(l).drop_first() =~= Seq::<Seq<char>>::empty());
        assert(join_lines(ls.push(l).drop_first()) == Seq::<char>::empty());
        assert(ls.push(l)[0] == l);
        assert(join_lines(ls) == Seq::<char>::empty());
        assert(join_lines(ls.push(l)) =~= join_lines(ls) + l + seq!['\n']);
    } else {
        assert(ls.push(l).drop_first() =~= ls.drop_first().push(l));
        lemma_join_lines_push(ls.drop_first(), l);
        assert(ls.push(l)[0] == ls[0]);
        assert(join_lines(ls.push(l)) == ls[0] + seq!['\n'] + join_lines(ls.drop_first().push(l)));
        assert(join_lines(ls) == ls[0] + seq!['\n'] + join_lines(ls.drop_first()));
        assert(join_lines(ls.push(l)) =~= join_lines(ls) + l + seq!['\n']);
    }
}

/// The text of `lines`, each followed by a line feed.
pub fn joined_lines(lines: &Vec<String>) -> (res: String)
    ensures
        res@ == join_lines(strs_view(lines@)),
{
    let mut res = String::new();
    let mut k: usize = 0;
    while k < lines.len()
        invariant
            k <= lines@.len(),
            res@ == join_lines(strs_view(lines@).take(k as int)),
        decreases lines@.len() - k,
    {
        proof {
            assert(strs_view(lines@).take(k + 1) =~= strs_view(lines@).take(k as int).push(
                lines@[k as int]@,
            ));
            lemma_join_lines_push(strs_view(lines@).take(k as int), lines@[k as int]@);
        }
        res.append(lines[k].as_str());
        res.append("\n");
        proof {
            reveal_strlit("\n");
        }
        k = k + 1;
    }
    assert(strs_view(lines@).take(k as int) =~= strs_view(lines@));
    res
}


/// A copy of each string of `v`, in order.
pub fn copy_strings(v: &Vec<String>) -> (res: Vec<String>)
    ensures
        strs_view(res@) == strs_view(v@),
{
    let mut res: Vec<String> = Vec::new();
    let mut k: usize = 0;
    while k < v.len()
        invariant
            k <= v@.len(),
            strs_view(res@) == strs_view(v@).take(k as int),
        decreases v@.len() - k,
    {
        let ghost before = strs_view(res@);
        res.push(v[k].clone());
        assert(strs_view(v@).take(k + 1) =~= strs_view(v@).take(k as int).push(v@[k as int]@));
        assert(strs_view(res@) =~= before.push(v@[k as int]@));
        k = k + 1;
    }
    assert(strs_view(v@).take(k as int) =~= strs_view(v@));
    res
}


/// `l` can stand as one line of a text: it holds no line feed and does not
/// end with a carriage return.
pub open spec fn is_plain_line(l: Seq<char>) -> bool {
    &&& !l.contains('\n')
    &&& !(l.len() > 0 && l.last() == '\r')
}

proof fn lemma_line_len_of_join(a: Seq<char>, r: Seq<char>)
    requires
        !a.contains('\n'),
    ensures
        line_len(a + seq!['\n'] + r) == a.len(),
    decreases a.len(),
{
    let s = a + seq!['\n'] + r;
    if a.len() == 0 {
        assert(s[0] == '\n');
    } else {
        assert(s[0] == a[0]);
        assert(a[0] != '\n') by {
            if a[0] == '\n' {
                assert(a.contains(a[0]));
            }
        }
        assert(s.drop_first() =~= a.drop_first() + seq!['\n'] + r);
        assert(!a.drop_first().contains('\n')) by {
            if a.drop_first().contains('\n') {
                let k = choose|k: int| 0 <= k < a.drop_first().len() && a.drop_first()[k] == '\n';
                assert(a[k + 1] == '\n');
            }
        }
        lemma_line_len_of_join(a.drop_first(), r);
    }
}

/// Splitting the text of plain lines gives back the lines.
pub proof fn lemma_split_join(ls: Seq<Seq<char>>)
    requires
        forall|i: int| 0 <= i < ls.len() ==> is_plain_line(#[trigger] ls[i]),
    ensures
        split_lines(join_lines(ls)) == ls,
    decreases ls.len(),
{
    if ls.len() == 0 {
        assert(join_lines(ls) =~= Seq::<char>::empty());
    } else {
        let a = ls[0];
        let r = join_lines(ls.drop_first());
        let s = join_lines(ls);
        assert(is_plain_line(ls[0]));
        assert(s == a + seq!['\n'] + r);
        lemma_line_len_of_join(a, r);
        assert(s.take(a.len() as int) =~= a);
        assert(s.skip(a.len() as int + 1) =~= r);
        assert forall|i: int| 0 <= i < ls.drop_first().len() implies is_plain_line(
            #[trigger] ls.drop_first()[i],
        ) by {
            assert(ls.drop_first()[i] == ls[i + 1]);
        }
        lemma_split_join(ls.drop_first());
        assert(ls =~= seq![a] + ls.drop_first());
    }
}

/// `s` holds no white space.
pub open spec fn has_no_white_space(s: Seq<char>) -> bool {
    forall|i: int| 0 <= i < s.len() ==> !is_white_space(#[trigger] s[i])
}

proof fn lemma_word_len_of(p: Seq<char>, q: Seq<char>)
    requires
        has_no_white_space(p),
        q.len() == 0 || is_white_space(q[0]),
    ensures
        word_len(p + q) == p.len(),
    decreases p.len(),
{
    if p.len() == 0 {
        assert(p + q =~= q);
    } else {
        assert((p + q).drop_first() =~= p.drop_first() + q);
        assert(!is_white_space(p[0]));
        lemma_word_len_of(p.drop_first(), q);
    }
}

/// The words of `p` followed by a space and `u`, when neither holds white
/// space and both are non-empty, are `p` and `u`.
pub proof fn lemma_words_of_pair(p: Seq<char>, u: Seq<char>)
    requires
        p.len() > 0,
        u.len() > 0,
        has_no_white_space(p),
        has_no_white_space(u),
    ensures
        words(p + seq![' '] + u) == seq![p, u],
{
    let s = p + seq![' '] + u;
    assert(!is_white_space(s[0]));
    assert(trim_start(s) == s);
    assert(s =~= p + (seq![' '] + u));
    lemma_word_len_of(p, seq![' '] + u);
    assert(s.take(p.len() as int) =~= p);
    let rest = s.skip(p.len() as int);
    assert(rest =~= seq![' '] + u);
    assert(rest.drop_first() =~= u);
    assert(!is_white_space(u[0]));
    assert(trim_start(u) == u);
    assert(trim_start(rest) == u);
    assert(u =~= u + Seq::<char>::empty());
    lemma_word_len_of(u, Seq::<char>::empty());
    assert(u.take(u.len() as int) =~= u);
    assert(u.skip(u.len() as int) =~= Seq::<char>::empty());
    assert(trim_start(Seq::<char>::empty()) == Seq::<char>::empty());
    assert(words(u.skip(u.len() as int)) == Seq::<Seq<char>>::empty());
    assert(words(rest) =~= seq![u]);
    assert(words(s) =~= seq![p, u]);
}

/// A text that neither starts nor ends with white space is its own trim.
pub proof fn lemma_trim_unchanged(s: Seq<char>)
    requires
        s.len() > 0,
        !is_white_space(s[0]),
        !is_white_space(s.last()),
    ensures
        trim(s) == s,
{
}


pub proof fn lemma_trim_end(s: Seq<char>)
    ensures
        trim_end(s).len() <= s.len(),
        trim_end(s) == s.take(trim_end(s).len() as int),
        trim_end(s).len() > 0 ==> !is_white_space(trim_end(s).last()),
    decreases s.len(),
{
    if s.len() > 0 && is_white_space(s.last()) {
        lemma_trim_end(s.drop_last());
        assert(s.drop_last().take(trim_end(s).len() as int) =~= s.take(trim_end(s).len() as int));
    } else {
        assert(s.take(s.len() as int) =~= s);
    }
}

pub proof fn lemma_strip_prefix_repeatedly(s: Seq<char>, p: Seq<char>)
    ensures
        strip_prefix_repeatedly(s, p).len() <= s.len(),
        strip_prefix_repeatedly(s, p) == s.skip(s.len() - strip_prefix_repeatedly(s, p).len()),
    decreases s.len(),
{
    if p.len() > 0 && p.is_prefix_of(s) {
        let t = s.skip(p.len() as int);
        lemma_strip_prefix_repeatedly(t, p);
        let k = t.len() - strip_prefix_repeatedly(t, p).len();
        assert(t.skip(k) =~= s.skip(p.len() + k));
    } else {
        assert(s.skip(0) =~= s);
    }
}

pub proof fn lemma_trim_end_char(s: Seq<char>, c: char)
    ensures
        trim_end_char(s, c).len() <= s.len(),
        trim_end_char(s, c) == s.take(trim_end_char(s, c).len() as int),
        trim_end_char(s, c).len() > 0 ==> trim_end_char(s, c).last() != c,
    decreases s.len(),
{
    if s.len() > 0 && s.last() == c {
        lemma_trim_end_char(s.drop_last(), c);
        assert(s.drop_last().take(trim_end_char(s, c).len() as int) =~= s.take(
            trim_end_char(s, c).len() as int,
        ));
    } else {
        assert(s.take(s.len() as int) =~= s);
    }
}

/// A text that does not start with `p` (when `p` is not empty) is left as
/// it is by `strip_prefix_repeatedly`.
pub proof fn lemma_strip_absent_prefix(s: Seq<char>, p: Seq<char>)
    requires
        !p.is_prefix_of(s),
    ensures
        strip_prefix_repeatedly(s, p) == s,
{
}

/// Removing one copy of `p` from `p + s` and then none from `s`.
pub proof fn lemma_strip_one_prefix(s: Seq<char>, p: Seq<char>)
    requires
        p.len() > 0,
        !p.is_prefix_of(s),
    ensures
        strip_prefix_repeatedly(p + s, p) == s,
{
    assert(p.is_prefix_of(p + s)) by {
        assert((p + s).subrange(0, p.len() as int) =~= p);
    }
    assert((p + s).skip(p.len() as int) =~= s);
    lemma_strip_absent_prefix(s, p);
    assert(strip_prefix_repeatedly(p + s, p) == strip_prefix_repeatedly(
        (p + s).skip(p.len() as int),
        p,
    ));
}


/// `l` holds neither a line feed nor a carriage return.
pub open spec fn has_no_line_break(l: Seq<char>) -> bool {
    forall|k: int| 0 <= k < l.len() ==> #[trigger] l[k] != '\n' && l[k] != '\r'
}

proof fn lemma_line_len(s: Seq<char>)
    ensures
        line_len(s) <= s.len(),
        line_len(s) < s.len() ==> s[line_len(s) as int] == '\n',
        forall|k: int| 0 <= k < line_len(s) ==> s[k] != '\n',
    decreases s.len(),
{
    if s.len() > 0 && s[0] != '\n' {
        lemma_line_len(s.drop_first());
        assert forall|k: int| 0 <= k < line_len(s) implies s[k] != '\n' by {
            if k > 0 {
                assert(s[k] == s.drop_first()[k - 1]);
            }
        }
    }
}

/// The lines of a text without carriage returns hold no line break.
pub proof fn lemma_split_lines_clean(s: Seq<char>)
    requires
        forall|k: int| 0 <= k < s.len() ==> #[trigger] s[k] != '\r',
    ensures
        forall|i: int|
            0 <= i < split_lines(s).len() ==> has_no_line_break(#[trigger] split_lines(s)[i]),
    decreases s.len(),
{
    if s.len() > 0 {
        lemma_line_len(s);
        let n = line_len(s);
        if n < s.len() {
            let rest = s.skip(n as int + 1);
            assert forall|k: int| 0 <= k < rest.len() implies #[trigger] rest[k] != '\r' by {
                assert(rest[k] == s[n + 1 + k]);
            }
            lemma_split_lines_clean(rest);
            let first = s.take(n as int);
            assert(has_no_line_break(first)) by {
                assert forall|k: int| 0 <= k < first.len() implies #[trigger] first[k] != '\n'
                    && first[k] != '\r' by {
                    assert(first[k] == s[k]);
                }
            }
            assert(without_cr(first) == first);
            let ls = split_lines(s);
            assert forall|i: int| 0 <= i < ls.len() implies has_no_line_break(#[trigger] ls[i]) by {
                if i > 0 {
                    assert(ls[i] == split_lines(rest)[i - 1]);
                }
            }
        } else {
            let ls = split_lines(s);
            assert(ls[0] == s);
            assert(has_no_line_break(s)) by {
                assert forall|k: int| 0 <= k < s.len() implies #[trigger] s[k] != '\n' && s[k]
                    != '\r' by {}
            }
        }
    }
}

proof fn lemma_word_len_chars(s: Seq<char>)
    ensures
        forall|k: int| 0 <= k < word_len(s) ==> !is_white_space(#[trigger] s[k]),
    decreases s.len(),
{
    if s.len() > 0 && !is_white_space(s[0]) {
        lemma_word_len_chars(s.drop_first());
        lemma_word_len(s);
        assert forall|k: int| 0 <= k < word_len(s) implies !is_white_space(#[trigger] s[k]) by {
            if k > 0 {
                assert(s[k] == s.drop_first()[k - 1]);
            }
        }
    }
}

/// Every word is non-empty and holds no white space.
pub proof fn lemma_words_clean(s: Seq<char>)
    ensures
        forall|i: int|
            0 <= i < words(s).len() ==> (#[trigger] words(s)[i]).len() > 0 && has_no_white_space(
                words(s)[i],
            ),
    decreases s.len(),
{
    let t = trim_start(s);
    lemma_trim_start(s);
    if t.len() > 0 {
        lemma_word_len(t);
        lemma_word_len_chars(t);
        let w = t.take(word_len(t) as int);
        let rest = t.skip(word_len(t) as int);
        lemma_words_clean(rest);
        let ws = words(s);
        assert(ws == seq![w] + words(rest));
        assert forall|i: int| 0 <= i < ws.len() implies (#[trigger] ws[i]).len() > 0
            && has_no_white_space(ws[i]) by {
            if i == 0 {
                assert(ws[0] == w);
                assert forall|k: int| 0 <= k < w.len() implies !is_white_space(#[trigger] w[k]) by {
                    assert(w[k] == t[k]);
                }
            } else {
                assert(ws[i] == words(rest)[i - 1]);
            }
        }
    }
}

} // verus!
