//! Plugin names, and finding skills on awesome-skills.com: the listing's
//! parsers and the fuzzy search over it.

use vstd::prelude::*;
use crate::json::{json_get, json_get_str, member_from, JsonMember, JsonValue};
use crate::text::{
    ascii_lower, char_ascii_lower, char_is_ascii_alphanumeric, char_is_whitespace, chars_of,
    is_ascii_alphanumeric, is_whitespace, replace_all, replace_str, string_of, string_of_range,
    contains, find, find_chars, find_chars_from, lemma_find_from_range, strip_leading_from, strip_suffixes,
    strip_suffixes_len, strip_trailing_len,
    starts_with, strip_leading_char, strip_trailing_char, trim, trim_char_bounds, trim_start,
};

verus! {

/// A skill or MCP plugin offered on awesome-skills.com.
pub struct AwesomeSkill {
    pub name: String,
    pub description: String,
    pub url: String,
}

// ---------------------------------------------------------------------------
// Plugin folder names
// ---------------------------------------------------------------------------
/// Characters a slug keeps.
pub open spec fn slug_keeps(c: char) -> bool {
    is_ascii_alphanumeric(c) || c == '-'
}

/// Kept characters lowercased, every run of other characters collapsed into
/// one `'_'`.
pub open spec fn slug_raw(s: Seq<char>) -> Seq<char>
    decreases s.len(),
{
    if s.len() == 0 {
        Seq::empty()
    } else {
        let p = slug_raw(s.drop_last());
        let c = s.last();
        if slug_keeps(c) {
            p.push(ascii_lower(c))
        } else if p.len() > 0 && p.last() == '_' {
            p
        } else {
            p.push('_')
        }
    }
}

/// The folder name a plugin is installed under.
pub open spec fn slug_of(s: Seq<char>) -> Seq<char> {
    let t = strip_trailing_char(strip_leading_char(slug_raw(s), '_'), '_');
    if t.len() == 0 {
        "plugin"@
    } else {
        t
    }
}

/// A character that may appear in a slug.
pub open spec fn slug_char(c: char) -> bool {
    ('a' <= c && c <= 'z') || ('0' <= c && c <= '9') || c == '-' || c == '_'
}

proof fn lemma_slug_raw_chars(s: Seq<char>)
    ensures
        forall|k: int| 0 <= k < slug_raw(s).len() ==> slug_char(#[trigger] slug_raw(s)[k]),
    decreases s.len(),
{
    if s.len() > 0 {
        lemma_slug_raw_chars(s.drop_last());
        let c = s.last();
        if 'A' <= c && c <= 'Z' {
            assert('a' <= ascii_lower(c) && ascii_lower(c) <= 'z');
        }
        let p = slug_raw(s.drop_last());
        assert forall|k: int| 0 <= k < slug_raw(s).len() implies slug_char(#[trigger] slug_raw(s)[k]) by {
            if k < p.len() {
                assert(slug_raw(s)[k] == p[k]);
            }
        }
    }
}

/// No two underscores stand next to each other in `s`.
pub open spec fn no_double_underscore(s: Seq<char>) -> bool {
    forall|k: int| 0 <= k < s.len() - 1 ==> !(#[trigger] s[k] == '_' && s[k + 1] == '_')
}

proof fn lemma_slug_raw_no_double(s: Seq<char>)
    ensures
        no_double_underscore(slug_raw(s)),
    decreases s.len(),
{
    if s.len() > 0 {
        lemma_slug_raw_no_double(s.drop_last());
        let p = slug_raw(s.drop_last());
        let r = slug_raw(s);
        assert forall|k: int| 0 <= k < r.len() - 1 implies !(#[trigger] r[k] == '_' && r[k + 1] == '_') by {
            if r.len() > p.len() && k + 1 == p.len() {
                assert(r[k] == p.last());
            } else {
                assert(r[k] == p[k] && r[k + 1] == p[k + 1]);
            }
        }
    }
}

/// A text made only of slug characters, with no doubled underscore, is its
/// own raw slug.
proof fn lemma_slug_raw_fixed(r: Seq<char>)
    requires
        forall|k: int| 0 <= k < r.len() ==> slug_char(#[trigger] r[k]),
        no_double_underscore(r),
    ensures
        slug_raw(r) == r,
    decreases r.len(),
{
    if r.len() > 0 {
        let q = r.drop_last();
        assert forall|k: int| 0 <= k < q.len() implies slug_char(#[trigger] q[k]) by {
            assert(q[k] == r[k]);
        }
        assert forall|k: int| 0 <= k < q.len() - 1 implies !(#[trigger] q[k] == '_' && q[k + 1] == '_') by {
            assert(q[k] == r[k] && q[k + 1] == r[k + 1]);
        }
        lemma_slug_raw_fixed(q);
        let c = r.last();
        assert(slug_char(r[r.len() - 1]));
        if c == '_' && q.len() > 0 {
            assert(!(r[r.len() - 2] == '_' && r[r.len() - 1] == '_'));
            assert(q.last() == r[r.len() - 2]);
        }
        assert(q.push(c) =~= r);
    }
}

/// Folder names from `slug` are stable: a slug never holds two underscores
/// in a row, and taking the slug of a slug changes nothing.
pub proof fn lemma_slug_stable(value: Seq<char>)
    ensures
        no_double_underscore(slug_of(value)),
        slug_of(slug_of(value)) == slug_of(value),
{
    let raw = slug_raw(value);
    lemma_slug_raw_no_double(value);
    lemma_slug_raw_chars(value);
    lemma_strip_leading(raw, '_');
    let l = strip_leading_char(raw, '_');
    lemma_strip_trailing(l, '_');
    let t = strip_trailing_char(l, '_');
    let d = raw.len() - l.len();
    assert forall|k: int| 0 <= k < t.len() implies #[trigger] t[k] == raw[k + d] && slug_char(t[k]) by {
        assert(t[k] == l[k]);
        assert(l[k] == raw[k + d]);
    }
    assert forall|k: int| 0 <= k < t.len() - 1 implies !(#[trigger] t[k] == '_' && t[k + 1] == '_') by {
        assert(t[k] == raw[k + d] && t[k + 1] == raw[k + 1 + d]);
    }
    let r = slug_of(value);
    if t.len() == 0 {
        reveal_strlit("plugin");
        assert(r =~= seq!['p', 'l', 'u', 'g', 'i', 'n']);
    } else {
        assert(r == t);
    }
    assert(forall|k: int| 0 <= k < r.len() ==> slug_char(#[trigger] r[k]));
    assert(no_double_underscore(r));
    lemma_slug_raw_fixed(r);
    assert(r[0] != '_' && r.last() != '_') by {
        lemma_strip_ends(raw, '_');
    }
    assert(strip_leading_char(r, '_') == r);
    assert(strip_trailing_char(r, '_') == r);
}

/// A file-system-safe folder name for a plugin: ASCII letters, digits and
/// `-` kept (lowercased), every run of anything else turned into one `_`,
/// underscores trimmed from both ends, and `plugin` when nothing is left.
/// The result is never empty, never starts or ends with `_`, never holds two
/// `_` in a row, and holds no path separator or dot.
pub fn slug(value: &str) -> (r: String)
    ensures
        r@ == slug_of(value@),
        r@.len() > 0,
        r@[0] != '_',
        r@.last() != '_',
        forall|k: int| 0 <= k < r@.len() ==> slug_char(#[trigger] r@[k]),
        no_double_underscore(r@),
{
    proof {
        lemma_slug_stable(value@);
    }
    let v = chars_of(value);
    let mut out: Vec<char> = Vec::new();
    let mut last_underscore = false;
    let mut i: usize = 0;
    while i < v.len()
        invariant
            i <= v.len(),
            v@ == value@,
            out@ == slug_raw(v@.take(i as int)),
            last_underscore == (out@.len() > 0 && out@.last() == '_'),
        decreases v.len() - i,
    {
        let ch = v[i];
        assert(v@.take(i + 1).drop_last() =~= v@.take(i as int));
        if char_is_ascii_alphanumeric(ch) || ch == '-' {
            out.push(char_ascii_lower(ch));
            last_underscore = false;
        } else if !last_underscore {
            out.push('_');
            last_underscore = true;
        }
        i += 1;
    }
    assert(v@.take(v@.len() as int) =~= v@);
    let (a, b) = trim_char_bounds(&out, '_');
    proof {
        lemma_slug_raw_chars(value@);
        lemma_strip_ends(out@, '_');
    }
    if a == b {
        let r = "plugin".to_owned();
        proof {
            reveal_strlit("plugin");
        }
        r
    } else {
        string_of_range(&out, a, b)
    }
}

/// Stripping a character from both ends leaves a middle part of the text
/// that neither starts nor ends with it.
proof fn lemma_strip_ends(s: Seq<char>, c: char)
    ensures
        ({
            let t = strip_trailing_char(strip_leading_char(s, c), c);
            t.len() > 0 ==> t[0] != c && t.last() != c
        }),
        forall|k: int|
            0 <= k < strip_trailing_char(strip_leading_char(s, c), c).len() ==> exists|j: int|
                0 <= j < s.len() && #[trigger] strip_trailing_char(strip_leading_char(s, c), c)[k]
                    == s[j],
{
    lemma_strip_leading(s, c);
    let l = strip_leading_char(s, c);
    lemma_strip_trailing(l, c);
    let t = strip_trailing_char(l, c);
    assert forall|k: int| 0 <= k < t.len() implies exists|j: int|
        0 <= j < s.len() && #[trigger] t[k] == s[j] by {
        let d = s.len() - l.len();
        assert(t[k] == l[k]);
        assert(l[k] == s[k + d]);
    }
}

proof fn lemma_strip_leading(s: Seq<char>, c: char)
    ensures
        strip_leading_char(s, c) == s.skip(s.len() - strip_leading_char(s, c).len()),
        strip_leading_char(s, c).len() > 0 ==> strip_leading_char(s, c)[0] != c,
        strip_leading_char(s, c).len() <= s.len(),
    decreases s.len(),
{
    if s.len() > 0 && s[0] == c {
        lemma_strip_leading(s.drop_first(), c);
        assert(s.drop_first().skip(s.drop_first().len() - strip_leading_char(s, c).len()) =~= s.skip(
            s.len() - strip_leading_char(s, c).len(),
        ));
    } else {
        assert(s.skip(0) =~= s);
    }
}

proof fn lemma_strip_trailing(s: Seq<char>, c: char)
    ensures
        strip_trailing_char(s, c) == s.take(strip_trailing_char(s, c).len() as int),
        strip_trailing_char(s, c).len() > 0 ==> strip_trailing_char(s, c).last() != c,
        strip_trailing_char(s, c).len() <= s.len(),
    decreases s.len(),
{
    if s.len() > 0 && s.last() == c {
        lemma_strip_trailing(s.drop_last(), c);
        assert(s.drop_last().take(strip_trailing_char(s, c).len() as int) =~= s.take(
            strip_trailing_char(s, c).len() as int,
        ));
    } else {
        assert(s.take(s.len() as int) =~= s);
    }
}

// ---------------------------------------------------------------------------
// HTML entities
// ---------------------------------------------------------------------------
/// The five entities decoded, in this order: `&amp;`, `&quot;`, `&#39;`,
/// `&lt;`, `&gt;`.
pub open spec fn html_decoded(s: Seq<char>) -> Seq<char> {
    replace_all(
        replace_all(
            replace_all(replace_all(replace_all(s, "&amp;"@, "&"@), "&quot;"@, "\""@), "&#39;"@, "'"@),
            "&lt;"@,
            "<"@,
        ),
        "&gt;"@,
        ">"@,
    )
}

/// Decodes the HTML entities that appear in attribute values of the
/// awesome-skills.com listing.
pub fn html_decode(value: &str) -> (r: String)
    ensures
        r@ == html_decoded(value@),
{
    proof {
        reveal_strlit("&amp;");
        reveal_strlit("&quot;");
        reveal_strlit("&#39;");
        reveal_strlit("&lt;");
        reveal_strlit("&gt;");
    }
    let a = replace_str(value, "&amp;", "&");
    let b = replace_str(a.as_str(), "&quot;", "\"");
    let c = replace_str(b.as_str(), "&#39;", "'");
    let d = replace_str(c.as_str(), "&lt;", "<");
    replace_str(d.as_str(), "&gt;", ">")
}


// ---------------------------------------------------------------------------
// Fuzzy search
// ---------------------------------------------------------------------------
/// `char::is_ascii_whitespace`.
pub open spec fn is_ascii_whitespace(c: char) -> bool {
    c == ' ' || c == '\t' || c == '\n' || c == '\x0C' || c == '\r'
}

/// What a character becomes in a search key: ASCII letters, digits and
/// whitespace are kept (lowercased), `-`, `_` and `/` become spaces, the
/// rest is dropped.
pub open spec fn search_char(c: char) -> Option<char> {
    if is_ascii_alphanumeric(c) || is_ascii_whitespace(c) {
        Some(ascii_lower(c))
    } else if c == '-' || c == '_' || c == '/' {
        Some(' ')
    } else {
        None
    }
}

/// The search key of a text.
pub open spec fn search_key(s: Seq<char>) -> Seq<char>
    decreases s.len(),
{
    if s.len() == 0 {
        Seq::empty()
    } else {
        match search_char(s.last()) {
            Some(c) => search_key(s.drop_last()).push(c),
            None => search_key(s.drop_last()),
        }
    }
}

/// The search key of joined texts is the join of their keys.
pub proof fn lemma_search_key_append(a: Seq<char>, b: Seq<char>)
    ensures
        search_key(a + b) == search_key(a) + search_key(b),
    decreases b.len(),
{
    if b.len() == 0 {
        assert(a + b =~= a);
        assert(search_key(a) + search_key(b) =~= search_key(a));
    } else {
        lemma_search_key_append(a, b.drop_last());
        assert((a + b).drop_last() =~= a + b.drop_last());
        assert((a + b).last() == b.last());
        match search_char(b.last()) {
            Some(c) => {
                assert(search_key(a) + search_key(b) =~= (search_key(a) + search_key(b.drop_last())).push(c));
            },
            None => {},
        }
    }
}

/// The search key of `v`, as characters.
fn search_key_chars(v: &Vec<char>) -> (r: Vec<char>)
    ensures
        r@ == search_key(v@),
{
    let mut out: Vec<char> = Vec::new();
    let mut i: usize = 0;
    while i < v.len()
        invariant
            i <= v.len(),
            out@ == search_key(v@.take(i as int)),
        decreases v.len() - i,
    {
        let ch = v[i];
        assert(v@.take(i + 1).drop_last() =~= v@.take(i as int));
        if char_is_ascii_alphanumeric(ch) || ch == ' ' || ch == '\t' || ch == '\n' || ch == '\x0C'
            || ch == '\r' {
            out.push(char_ascii_lower(ch));
        } else if ch == '-' || ch == '_' || ch == '/' {
            out.push(' ');
        }
        i += 1;
    }
    assert(v@.take(v@.len() as int) =~= v@);
    out
}

/// Normalises text for matching: see `search_char`.
pub fn normalize_search(value: &str) -> (r: String)
    ensures
        r@ == search_key(value@),
{
    let v = chars_of(value);
    let k = search_key_chars(&v);
    string_of(&k)
}

/// The index of the first whitespace character at or after `i`, or the end.
pub open spec fn word_end(s: Seq<char>, i: int) -> int
    decreases s.len() - i,
{
    if i < 0 || i >= s.len() || is_whitespace(s[i]) {
        i
    } else {
        word_end(s, i + 1)
    }
}

pub proof fn lemma_word_end(s: Seq<char>, i: int)
    requires
        0 <= i <= s.len(),
    ensures
        i <= word_end(s, i) <= s.len(),
        word_end(s, i) < s.len() ==> is_whitespace(s[word_end(s, i)]),
        forall|k: int| i <= k < word_end(s, i) ==> !is_whitespace(#[trigger] s[k]),
    decreases s.len() - i,
{
    if i < s.len() && !is_whitespace(s[i]) {
        lemma_word_end(s, i + 1);
    }
}

pub proof fn lemma_trim_start_suffix(s: Seq<char>)
    ensures
        trim_start(s).len() <= s.len(),
        trim_start(s) == s.skip(s.len() - trim_start(s).len()),
        trim_start(s).len() > 0 ==> !is_whitespace(trim_start(s)[0]),
    decreases s.len(),
{
    if s.len() > 0 && is_whitespace(s[0]) {
        lemma_trim_start_suffix(s.drop_first());
        assert(s.drop_first().skip(s.drop_first().len() - trim_start(s).len()) =~= s.skip(
            s.len() - trim_start(s).len(),
        ));
    } else {
        assert(s.skip(0) =~= s);
    }
}

/// The whitespace-separated words of `s` (`str::split_whitespace`).
pub open spec fn words(s: Seq<char>) -> Seq<Seq<char>>
    decreases s.len(),
{
    let t = trim_start(s);
    if t.len() == 0 {
        Seq::empty()
    } else {
        let e = word_end(t, 0);
        proof {
            lemma_trim_start_suffix(s);
            lemma_word_end(t, 0);
        }
        seq![t.take(e)] + words(t.skip(e))
    }
}

/// The whitespace-separated words of `v`.
fn split_words(v: &Vec<char>) -> (r: Vec<Vec<char>>)
    ensures
        r@.len() == words(v@).len(),
        forall|k: int| 0 <= k < r@.len() ==> #[trigger] r@[k]@ == words(v@)[k],
{
    let mut out: Vec<Vec<char>> = Vec::new();
    let mut i: usize = 0;
    let ghost mut done: Seq<Seq<char>> = Seq::empty();
    assert(v@.skip(0) =~= v@);
    while i < v.len()
        invariant
            i <= v.len(),
            words(v@) == done + words(v@.skip(i as int)),
            out@.len() == done.len(),
            forall|k: int| 0 <= k < out@.len() ==> #[trigger] out@[k]@ == done[k],
        decreases v.len() - i,
    {
        let ghost rest = v@.skip(i as int);
        let mut a = i;
        while a < v.len() && char_is_whitespace(v[a])
            invariant
                i <= a <= v.len(),
                rest == v@.skip(i as int),
                trim_start(rest) == trim_start(v@.skip(a as int)),
            decreases v.len() - a,
        {
            assert(v@.skip(a as int).drop_first() =~= v@.skip(a + 1));
            a += 1;
        }
        let ghost t = v@.skip(a as int);
        assert(trim_start(t) == t) by {
            if t.len() > 0 {
                assert(t[0] == v@[a as int]);
            }
        }
        if a == v.len() {
            assert(words(rest) =~= Seq::<Seq<char>>::empty());
            assert(done + words(rest) =~= done);
            i = a;
            assert(v@.skip(i as int) =~= Seq::<char>::empty());
            assert(words(v@.skip(i as int)) =~= Seq::<Seq<char>>::empty());
            assert(done + words(v@.skip(i as int)) =~= done);
        } else {
            let mut b = a;
            while b < v.len() && !char_is_whitespace(v[b])
                invariant
                    a <= b <= v.len(),
                    t == v@.skip(a as int),
                    word_end(t, 0) == word_end(t, b - a),
                decreases v.len() - b,
            {
                assert(t[b - a] == v@[b as int]);
                b += 1;
            }
            proof {
                if b < v.len() {
                    assert(t[b - a] == v@[b as int]);
                }
                assert(word_end(t, 0) == b - a);
            }
            let mut w: Vec<char> = Vec::new();
            let mut k = a;
            while k < b
                invariant
                    a <= k <= b <= v.len(),
                    w@ == v@.subrange(a as int, k as int),
                decreases b - k,
            {
                w.push(v[k]);
                assert(v@.subrange(a as int, k + 1) =~= v@.subrange(a as int, k as int).push(v@[k as int]));
                k += 1;
            }
            assert(w@ =~= t.take(b - a));
            assert(t.skip(b - a) =~= v@.skip(b as int));
            proof {
                assert(words(rest) == seq![t.take(b - a)] + words(t.skip(b - a)));
                assert(done + words(rest) =~= done.push(w@) + words(v@.skip(b as int)));
                done = done.push(w@);
            }
            out.push(w);
            i = b;
        }
    }
    assert(words(v@.skip(i as int)) =~= Seq::<Seq<char>>::empty()) by {
        assert(v@.skip(i as int) =~= Seq::<char>::empty());
    }
    assert(done + Seq::<Seq<char>>::empty() =~= done);
    out
}


/// The smallest of three numbers.
pub open spec fn min3(x: nat, y: nat, z: nat) -> nat {
    if x <= y && x <= z {
        x
    } else if y <= z {
        y
    } else {
        z
    }
}

/// The edit distance between `a` and `b`: insertions, deletions and
/// substitutions each cost one, and equal last characters are matched.
pub open spec fn edit_distance(a: Seq<char>, b: Seq<char>) -> nat
    decreases a.len() + b.len(),
{
    if a.len() == 0 {
        b.len()
    } else if b.len() == 0 {
        a.len()
    } else if a.last() == b.last() {
        edit_distance(a.drop_last(), b.drop_last())
    } else {
        1 + min3(
            edit_distance(a.drop_last(), b),
            edit_distance(a, b.drop_last()),
            edit_distance(a.drop_last(), b.drop_last()),
        )
    }
}

/// The edit distance is at most the longer length.
pub proof fn lemma_edit_distance_bound(a: Seq<char>, b: Seq<char>)
    ensures
        edit_distance(a, b) <= if a.len() >= b.len() {
            a.len()
        } else {
            b.len()
        },
    decreases a.len() + b.len(),
{
    if a.len() > 0 && b.len() > 0 {
        lemma_edit_distance_bound(a.drop_last(), b.drop_last());
    }
}

/// The edit distance between `a` and `b` (Levenshtein), computed one row
/// of the table at a time.
pub fn levenshtein_chars(a: &Vec<char>, b: &Vec<char>) -> (d: usize)
    requires
        b@.len() < usize::MAX,
    ensures
        d == edit_distance(a@, b@),
{
    let m = b.len();
    let mut costs: Vec<usize> = Vec::new();
    let mut j: usize = 0;
    while j <= m
        invariant
            j <= m + 1,
            m == b@.len(),
            m < usize::MAX,
            costs@.len() == j,
            forall|k: int| 0 <= k < j ==> #[trigger] costs@[k] == edit_distance(Seq::empty(), b@.take(k)),
        decreases m + 1 - j,
    {
        costs.push(j);
        j += 1;
    }
    let mut i: usize = 0;
    while i < a.len()
        invariant
            i <= a.len(),
            m == b@.len(),
            m < usize::MAX,
            costs@.len() == m + 1,
            forall|k: int| 0 <= k <= m ==> #[trigger] costs@[k] == edit_distance(a@.take(i as int), b@.take(k)),
        decreases a.len() - i,
    {
        let ca = a[i];
        let ghost ai = a@.take(i as int);
        let ghost ai1 = a@.take(i + 1);
        assert(ai1.drop_last() =~= ai);
        assert(ai1.last() == ca);
        let mut last = costs[0];
        proof {
            assert(b@.take(0) =~= Seq::<char>::empty());
            lemma_edit_distance_bound(ai1, b@.take(0));
        }
        costs.set(0, i + 1);
        let mut j: usize = 0;
        while j < m
            invariant
                i < a.len(),
                j <= m,
                m == b@.len(),
                m < usize::MAX,
                ai == a@.take(i as int),
                ai1 == a@.take(i + 1),
                ai1.drop_last() == ai,
                ai1.last() == ca,
                costs@.len() == m + 1,
                last == edit_distance(ai, b@.take(j as int)),
                forall|k: int| 0 <= k <= j ==> #[trigger] costs@[k] == edit_distance(ai1, b@.take(k)),
                forall|k: int| j < k <= m ==> #[trigger] costs@[k] == edit_distance(ai, b@.take(k)),
            decreases m - j,
        {
            let cb = b[j];
            let ghost bj1 = b@.take(j + 1);
            assert(bj1.drop_last() =~= b@.take(j as int));
            assert(bj1.last() == cb);
            let old = costs[j + 1];
            proof {
                lemma_edit_distance_bound(ai, b@.take(j as int));
                lemma_edit_distance_bound(ai, bj1);
                lemma_edit_distance_bound(ai1, b@.take(j as int));
            }
            let v = if ca == cb {
                last
            } else {
                let mut lo = last;
                if costs[j] < lo {
                    lo = costs[j];
                }
                if costs[j + 1] < lo {
                    lo = costs[j + 1];
                }
                1 + lo
            };
            assert(v == edit_distance(ai1, bj1));
            costs.set(j + 1, v);
            last = old;
            j += 1;
        }
        assert(b@.take(m as int) =~= b@);
        i += 1;
    }
    assert(a@.take(a@.len() as int) =~= a@);
    assert(b@.take(m as int) =~= b@);
    costs[m]
}

/// The edit distance between two texts, by characters.
pub fn levenshtein(a: &str, b: &str) -> (d: usize)
    requires
        b@.len() < usize::MAX,
    ensures
        d == edit_distance(a@, b@),
{
    let av = chars_of(a);
    let bv = chars_of(b);
    levenshtein_chars(&av, &bv)
}


/// The total length of a list of words.
pub open spec fn total_len(ws: Seq<Seq<char>>) -> nat
    decreases ws.len(),
{
    if ws.len() == 0 {
        0
    } else {
        ws[0].len() + total_len(ws.drop_first())
    }
}

/// The words of a text are non-empty and together no longer than it.
pub proof fn lemma_words_len(s: Seq<char>)
    ensures
        total_len(words(s)) <= s.len(),
        forall|k: int| 0 <= k < words(s).len() ==> #[trigger] words(s)[k].len() > 0,
    decreases s.len(),
{
    let t = trim_start(s);
    if t.len() > 0 {
        lemma_trim_start_suffix(s);
        lemma_word_end(t, 0);
        let e = word_end(t, 0);
        lemma_words_len(t.skip(e));
        let w = words(s);
        assert(w.drop_first() =~= words(t.skip(e)));
        assert forall|k: int| 0 <= k < w.len() implies #[trigger] w[k].len() > 0 by {
            if k > 0 {
                assert(w[k] == words(t.skip(e))[k - 1]);
            }
        }
    }
}

/// What matching query word `qt` against haystack word `tok` costs: one when
/// either is a prefix of the other, their edit distance otherwise.
pub open spec fn token_cost(qt: Seq<char>, tok: Seq<char>) -> nat {
    if starts_with(tok, qt) || starts_with(qt, tok) {
        1
    } else {
        edit_distance(qt, tok)
    }
}

/// The cheapest match of `qt` among `toks` (`usize::MAX` when there are none).
pub open spec fn best_cost(qt: Seq<char>, toks: Seq<Seq<char>>) -> nat
    decreases toks.len(),
{
    if toks.len() == 0 {
        usize::MAX as nat
    } else {
        let b = best_cost(qt, toks.drop_last());
        let c = token_cost(qt, toks.last());
        if c < b {
            c
        } else {
            b
        }
    }
}

/// The largest cost a query word may have: a third of its length, at least one.
pub open spec fn allowed_cost(qt: Seq<char>) -> nat {
    if qt.len() / 3 >= 1 {
        qt.len() / 3
    } else {
        1
    }
}

/// The summed cost of the query words `qts`, `None` when one of them has no
/// match within its allowance.
pub open spec fn fuzzy_total(qts: Seq<Seq<char>>, toks: Seq<Seq<char>>) -> Option<nat>
    decreases qts.len(),
{
    if qts.len() == 0 {
        Some(0)
    } else {
        match fuzzy_total(qts.drop_last(), toks) {
            None => None,
            Some(t) => {
                let b = best_cost(qts.last(), toks);
                if b > allowed_cost(qts.last()) {
                    None
                } else {
                    Some(t + b)
                }
            },
        }
    }
}

/// The text a skill is searched by: its name, description and URL.
pub open spec fn skill_haystack(skill: SkillView) -> Seq<char> {
    skill.name + seq![' '] + skill.description + seq![' '] + skill.url
}

/// How well `skill` matches `query`: `Some(0)` for an empty query or when the
/// normalised query occurs in the skill's text; otherwise two plus the summed
/// word costs, or `None` when some query word has no close enough match.
pub open spec fn fuzzy_rank(skill: SkillView, query: Seq<char>) -> Option<nat> {
    let q = trim(search_key(query));
    let h = search_key(skill_haystack(skill));
    if q.len() == 0 {
        Some(0)
    } else if crate::text::contains(h, q) {
        Some(0)
    } else {
        match fuzzy_total(words(q), words(h)) {
            Some(t) => Some(t + 2),
            None => None,
        }
    }
}

/// An exact match always ranks above a fuzzy one: a score is 0 exactly
/// when the query is blank or occurs in the skill's text, and a fuzzy score
/// is at least 2.
pub proof fn lemma_exact_match_ranks_first(skill: SkillView, query: Seq<char>)
    ensures
        fuzzy_rank(skill, query) == Some(0nat) <==> (trim(search_key(query)).len() == 0
            || crate::text::contains(search_key(skill_haystack(skill)), trim(search_key(query)))),
        fuzzy_rank(skill, query) matches Some(n) ==> (n == 0 || n >= 2),
{
}

/// A skill is found, with the best score 0, by any query whose normalised
/// form occurs in the normalised form of its name, its description or its
/// URL.
pub proof fn lemma_query_in_skill_text_scores_zero(skill: SkillView, query: Seq<char>)
    ensures
        ({
            let q = trim(search_key(query));
            crate::text::contains(search_key(skill.name), q) || crate::text::contains(
                search_key(skill.description),
                q,
            ) || crate::text::contains(search_key(skill.url), q)
        }) ==> fuzzy_rank(skill, query) == Some(0nat),
{
    let q = trim(search_key(query));
    let sp = seq![' '];
    let n = search_key(skill.name);
    let d = search_key(skill.description);
    let u = search_key(skill.url);
    let ks = search_key(sp);
    assert(search_char(' ') == Some(' '));
    assert(sp.drop_last() =~= Seq::<char>::empty());
    assert(sp.last() == ' ');
    assert(search_key(Seq::<char>::empty()) =~= Seq::<char>::empty());
    assert(ks == search_key(sp.drop_last()).push(' '));
    assert(ks =~= sp);
    lemma_search_key_append(skill.name, sp);
    lemma_search_key_append(skill.name + sp, skill.description);
    lemma_search_key_append(skill.name + sp + skill.description, sp);
    lemma_search_key_append(skill.name + sp + skill.description + sp, skill.url);
    let h = search_key(skill_haystack(skill));
    assert(h == n + sp + d + sp + u);
    if q.len() > 0 {
        if crate::text::contains(n, q) {
            crate::text::lemma_contains_within(Seq::empty(), n, sp + d + sp + u, q);
            assert(Seq::<char>::empty() + n + (sp + d + sp + u) =~= h);
        } else if crate::text::contains(d, q) {
            crate::text::lemma_contains_within(n + sp, d, sp + u, q);
            assert(n + sp + d + (sp + u) =~= h);
        } else if crate::text::contains(u, q) {
            crate::text::lemma_contains_within(n + sp + d + sp, u, Seq::empty(), q);
            assert(n + sp + d + sp + u + Seq::<char>::empty() =~= h);
        }
    }
}

/// The search key of a text is no longer than the text.
proof fn lemma_search_key_len(s: Seq<char>)
    ensures
        search_key(s).len() <= s.len(),
    decreases s.len(),
{
    if s.len() > 0 {
        lemma_search_key_len(s.drop_last());
    }
}

/// Appends `v` to `out`.
fn extend_chars(out: &mut Vec<char>, v: &Vec<char>)
    ensures
        final(out)@ == old(out)@ + v@,
{
    let mut k: usize = 0;
    while k < v.len()
        invariant
            k <= v.len(),
            out@ == old(out)@ + v@.take(k as int),
        decreases v.len() - k,
    {
        out.push(v[k]);
        assert(v@.take(k + 1) =~= v@.take(k as int).push(v@[k as int]));
        k += 1;
    }
    assert(v@.take(v@.len() as int) =~= v@);
}

/// Whether `p` is a prefix of `s`.
fn has_prefix(s: &Vec<char>, p: &Vec<char>) -> (b: bool)
    ensures
        b == starts_with(s@, p@),
{
    let b = crate::text::matches_at(s, p, 0);
    proof {
        if p@.len() <= s@.len() {
            assert(s@.subrange(0, p@.len() as int) == s@.take(p@.len() as int));
        }
    }
    b
}

/// Scores how well a skill matches a search query; `None` drops it from the
/// results. Lower is better, and an exact substring match (score 0) always
/// ranks above a fuzzy one (score at least 2).
pub fn fuzzy_score(skill: &AwesomeSkill, query: &str) -> (r: Option<usize>)
    requires
        query@.len() + 2 < usize::MAX,
        skill_haystack(skill@).len() + 1 < usize::MAX,
    ensures
        match fuzzy_rank(skill@, query@) {
            Some(n) => r == Some(n as usize) && n < usize::MAX,
            None => r is None,
        },
        crate::text::contains(search_key(skill@.url), trim(search_key(query@))) ==> r == Some(0usize),
        crate::text::contains(search_key(skill@.name), trim(search_key(query@))) ==> r == Some(0usize),
        crate::text::contains(search_key(skill@.description), trim(search_key(query@))) ==> r == Some(
            0usize,
        ),
{
    proof {
        lemma_query_in_skill_text_scores_zero(skill@, query@);
    }
    fuzzy_score_of(skill, query)
}

/// `fuzzy_rank` computed.
fn fuzzy_score_of(skill: &AwesomeSkill, query: &str) -> (r: Option<usize>)
    requires
        query@.len() + 2 < usize::MAX,
        skill_haystack(skill@).len() + 1 < usize::MAX,
    ensures
        match fuzzy_rank(skill@, query@) {
            Some(n) => r == Some(n as usize) && n < usize::MAX,
            None => r is None,
        },
{
    let qv = chars_of(query);
    let qk = search_key_chars(&qv);
    let (qa, qb) = crate::text::trim_bounds(&qk, 0, qk.len());
    assert(qk@.subrange(0, qk@.len() as int) =~= qk@);
    let mut q: Vec<char> = Vec::new();
    let mut k = qa;
    while k < qb
        invariant
            qa <= k <= qb <= qk.len(),
            q@ == qk@.subrange(qa as int, k as int),
        decreases qb - k,
    {
        q.push(qk[k]);
        assert(qk@.subrange(qa as int, k + 1) =~= qk@.subrange(qa as int, k as int).push(qk@[k as int]));
        k += 1;
    }
    proof {
        lemma_search_key_len(query@);
    }
    if q.len() == 0 {
        return Some(0);
    }
    let mut hv = chars_of(skill.name.as_str());
    hv.push(' ');
    extend_chars(&mut hv, &chars_of(skill.description.as_str()));
    hv.push(' ');
    extend_chars(&mut hv, &chars_of(skill.url.as_str()));
    assert(hv@ =~= skill_haystack(skill@));
    let h = search_key_chars(&hv);
    proof {
        lemma_search_key_len(hv@);
    }
    if crate::text::find_chars(&h, &q).is_some() {
        return Some(0);
    }
    let tokens = split_words(&h);
    let qtokens = split_words(&q);
    let ghost toks = words(h@);
    let ghost qts = words(q@);
    proof {
        lemma_words_len(h@);
        lemma_words_len(q@);
        assert forall|k: int| 0 <= k < toks.len() implies #[trigger] toks[k].len() <= h@.len() by {
            lemma_word_within_total(toks, k);
        }
        assert(qts.skip(0) =~= qts);
    }
    assert(fuzzy_rank(skill@, query@) == match fuzzy_total(qts, toks) {
        Some(t) => Some(t + 2),
        None => None,
    });
    let mut total: usize = 0;
    let mut n: usize = 0;
    while n < qtokens.len()
        invariant
            fuzzy_rank(skill@, query@) == match fuzzy_total(qts, toks) {
                Some(t) => Some(t + 2),
                None => None,
            },
            n <= qtokens@.len() == qts.len(),
            tokens@.len() == toks.len(),
            forall|k: int| 0 <= k < tokens@.len() ==> #[trigger] tokens@[k]@ == toks[k],
            forall|k: int| 0 <= k < qtokens@.len() ==> #[trigger] qtokens@[k]@ == qts[k],
            forall|k: int| 0 <= k < toks.len() ==> #[trigger] toks[k].len() <= h@.len(),
            forall|k: int| 0 <= k < qts.len() ==> #[trigger] qts[k].len() > 0,
            h@.len() + 1 < usize::MAX,
            total_len(qts) <= q@.len(),
            q@.len() + 2 < usize::MAX,
            fuzzy_total(qts.take(n as int), toks) == Some(total as nat),
            total + total_len(qts.skip(n as int)) <= total_len(qts),
        decreases qtokens.len() - n,
    {
        let qt = &qtokens[n];
        let mut best: usize = usize::MAX;
        let mut t: usize = 0;
        while t < tokens.len()
            invariant
                t <= tokens@.len() == toks.len(),
                forall|k: int| 0 <= k < tokens@.len() ==> #[trigger] tokens@[k]@ == toks[k],
                forall|k: int| 0 <= k < toks.len() ==> #[trigger] toks[k].len() <= h@.len(),
                h@.len() + 1 < usize::MAX,
                best == best_cost(qt@, toks.take(t as int)),
            decreases tokens.len() - t,
        {
            let tok = &tokens[t];
            let cost = if has_prefix(tok, qt) || has_prefix(qt, tok) {
                1
            } else {
                levenshtein_chars(qt, tok)
            };
            assert(toks.take(t + 1).drop_last() =~= toks.take(t as int));
            if cost < best {
                best = cost;
            }
            t += 1;
        }
        assert(toks.take(toks.len() as int) =~= toks);
        let allowed = if qt.len() / 3 >= 1 {
            qt.len() / 3
        } else {
            1
        };
        assert(qts.take(n + 1).drop_last() =~= qts.take(n as int));
        if best > allowed {
            proof {
                assert(qts.take(n + 1).last() == qts[n as int]);
                assert(qt@ == qts[n as int]);
                assert(best == best_cost(qts[n as int], toks));
                assert(fuzzy_total(qts.take(n + 1), toks) is None);
                lemma_fuzzy_total_none_stays(qts, toks, n + 1);
            }
            return None;
        }
        assert(qts.skip(n as int).drop_first() =~= qts.skip(n + 1));
        total = total + best;
        n += 1;
    }
    assert(qts.take(qts.len() as int) =~= qts);
    Some(total + 2)
}

/// A word of a list is no longer than the list's total length.
proof fn lemma_word_within_total(ws: Seq<Seq<char>>, k: int)
    requires
        0 <= k < ws.len(),
    ensures
        ws[k].len() <= total_len(ws),
    decreases k,
{
    if k > 0 {
        lemma_word_within_total(ws.drop_first(), k - 1);
    }
}

/// Once a query word fails, the whole query does.
proof fn lemma_fuzzy_total_none_stays(qts: Seq<Seq<char>>, toks: Seq<Seq<char>>, n: int)
    requires
        0 <= n <= qts.len(),
        fuzzy_total(qts.take(n), toks) is None,
    ensures
        fuzzy_total(qts, toks) is None,
    decreases qts.len() - n,
{
    if n < qts.len() {
        assert(qts.take(n + 1).drop_last() =~= qts.take(n));
        lemma_fuzzy_total_none_stays(qts, toks, n + 1);
    } else {
        assert(qts.take(n) =~= qts);
    }
}


// ---------------------------------------------------------------------------
// The awesome-skills.com listing page
// ---------------------------------------------------------------------------
/// The values of the attributes opened by `marker` and closed by `quote`,
/// scanning `s` from the left; an unclosed value ends the scan.
pub open spec fn href_values(s: Seq<char>, marker: Seq<char>, quote: char) -> Seq<Seq<char>>
    decreases s.len(),
{
    match find(s, marker) {
        None => Seq::empty(),
        Some(idx) => {
            proof {
                lemma_find_from_range(s, marker, 0);
            }
            let r = s.skip(idx + marker.len());
            match find(r, seq![quote]) {
                None => Seq::empty(),
                Some(end) => {
                    proof {
                        lemma_find_from_range(r, seq![quote], 0);
                    }
                    seq![r.take(end)] + href_values(r.skip(end + 1), marker, quote)
                },
            }
        },
    }
}

/// The GitHub repository URL an attribute value points to: entities
/// decoded, anything before `github.com/` replaced by `https://`, trailing
/// slashes and `.git` suffixes removed; `None` when it is not a GitHub link.
pub open spec fn github_link(raw: Seq<char>) -> Option<Seq<char>> {
    let d = html_decoded(raw);
    let u = match find(d, "github.com/"@) {
        Some(pos) => "https://"@ + strip_leading_char(d.skip(pos), '/'),
        None => d,
    };
    if starts_with(u, "https://github.com/"@) {
        Some(strip_suffixes(strip_trailing_char(u, '/'), ".git"@))
    } else {
        None
    }
}

/// The GitHub links among attribute values, in order.
pub open spec fn github_links(vals: Seq<Seq<char>>) -> Seq<Seq<char>>
    decreases vals.len(),
{
    if vals.len() == 0 {
        Seq::empty()
    } else {
        match github_link(vals.last()) {
            Some(u) => github_links(vals.drop_last()).push(u),
            None => github_links(vals.drop_last()),
        }
    }
}

/// `s` with later repetitions of an element dropped.
pub open spec fn dedup(s: Seq<Seq<char>>) -> Seq<Seq<char>>
    decreases s.len(),
{
    if s.len() == 0 {
        Seq::empty()
    } else if dedup(s.drop_last()).contains(s.last()) {
        dedup(s.drop_last())
    } else {
        dedup(s.drop_last()).push(s.last())
    }
}

/// Every GitHub repository linked from the listing page, double-quoted
/// `href`s first, then single-quoted ones, each once.
pub open spec fn github_urls_of(html: Seq<char>) -> Seq<Seq<char>> {
    dedup(
        github_links(href_values(html, "href=\""@, '"') + href_values(html, "href='"@, '\'')),
    )
}

/// Deduplicating keeps exactly the distinct elements, each once.
pub proof fn lemma_dedup_unique(s: Seq<Seq<char>>)
    ensures
        dedup(s).no_duplicates(),
        forall|x: Seq<char>| dedup(s).contains(x) <==> s.contains(x),
    decreases s.len(),
{
    if s.len() > 0 {
        let rest = s.drop_last();
        lemma_dedup_unique(rest);
        assert forall|x: Seq<char>| dedup(s).contains(x) <==> s.contains(x) by {
            if s.contains(x) && x != s.last() {
                let k = choose|k: int| 0 <= k < s.len() && s[k] == x;
                assert(rest[k] == x);
            }
            if rest.contains(x) {
                let k = choose|k: int| 0 <= k < rest.len() && rest[k] == x;
                assert(s[k] == x);
            }
            assert(s[s.len() - 1] == s.last());
            if dedup(s).contains(x) && !dedup(rest).contains(x) {
                let k = choose|k: int| 0 <= k < dedup(s).len() && dedup(s)[k] == x;
                assert(k == dedup(rest).len());
            }
            if x == s.last() && !dedup(rest).contains(x) {
                assert(dedup(s)[dedup(rest).len() as int] == x);
            }
            if dedup(rest).contains(x) {
                let k = choose|k: int| 0 <= k < dedup(rest).len() && dedup(rest)[k] == x;
                assert(dedup(s)[k] == x);
            }
        }
    }
}

/// The repositories the listing page links to are listed once each.
pub proof fn lemma_github_urls_unique(html: Seq<char>)
    ensures
        github_urls_of(html).no_duplicates(),
{
    lemma_dedup_unique(
        github_links(href_values(html, "href=\""@, '"') + href_values(html, "href='"@, '\'')),
    );
}

/// Whether `list` holds a string equal to `x`.
pub fn holds_string(list: &Vec<String>, x: &str) -> (b: bool)
    ensures
        b == views(list@).contains(x@),
{
    let mut i: usize = 0;
    while i < list.len()
        invariant
            i <= list.len(),
            forall|k: int| 0 <= k < i ==> list@[k]@ != x@,
        decreases list.len() - i,
    {
        if crate::text::str_eq(list[i].as_str(), x) {
            assert(views(list@)[i as int] == x@);
            return true;
        }
        i += 1;
    }
    proof {
        if views(list@).contains(x@) {
            let k = choose|k: int| 0 <= k < views(list@).len() && views(list@)[k] == x@;
            assert(list@[k]@ == x@);
        }
    }
    false
}

/// The views of a list of strings.
pub open spec fn views(v: Seq<String>) -> Seq<Seq<char>> {
    Seq::new(v.len(), |k: int| v[k]@)
}

/// The GitHub link an attribute value points to, if any.
fn github_link_of(raw: &Vec<char>) -> (r: Option<String>)
    ensures
        match r {
            Some(u) => github_link(raw@) == Some(u@),
            None => github_link(raw@) is None,
        },
{
    let decoded = html_decode(string_of(raw).as_str());
    let d = chars_of(decoded.as_str());
    let marker = chars_of("github.com/");
    let u = match find_chars(&d, &marker) {
        Some(pos) => {
            proof {
                lemma_find_from_range(d@, marker@, 0);
            }
            let a = strip_leading_from(&d, pos, '/');
            let mut u = chars_of("https://");
            let mut k = a;
            let ghost head = u@;
            while k < d.len()
                invariant
                    a <= k <= d.len(),
                    u@ == head + d@.subrange(a as int, k as int),
                decreases d.len() - k,
            {
                u.push(d[k]);
                assert(d@.subrange(a as int, k + 1) =~= d@.subrange(a as int, k as int).push(d@[k as int]));
                k += 1;
            }
            assert(d@.subrange(a as int, d@.len() as int) =~= d@.skip(a as int));
            u
        },
        None => d,
    };
    let prefix = chars_of("https://github.com/");
    if !crate::text::matches_at(&u, &prefix, 0) {
        proof {
            if prefix@.len() <= u@.len() {
                assert(u@.subrange(0, prefix@.len() as int) =~= u@.take(prefix@.len() as int));
            }
        }
        return None;
    }
    assert(u@.subrange(0, prefix@.len() as int) =~= u@.take(prefix@.len() as int));
    let m = strip_trailing_len(&u, u.len(), '/');
    assert(u@.take(u@.len() as int) =~= u@);
    let git = chars_of(".git");
    proof {
        reveal_strlit(".git");
    }
    let n = strip_suffixes_len(&u, m, &git);
    assert(u@.take(m as int).take(m as int) =~= u@.take(m as int));
    proof {
        assert(strip_suffixes(u@.take(m as int), git@) == strip_suffixes(u@.take(m as int).take(m as int), git@));
    }
    let r = string_of_range(&u, 0, n);
    assert(u@.subrange(0, n as int) =~= u@.take(n as int));
    Some(r)
}

/// Appends, for each attribute value opened by `marker` and closed by
/// `quote` in `v`, the GitHub link it holds, if any and not yet in `urls`.
fn collect_links(v: &Vec<char>, marker: &Vec<char>, quote: char, urls: &mut Vec<String>)
    ensures
        views(final(urls)@) == dedup_onto(views(old(urls)@), github_links(href_values(v@, marker@, quote))),
{
    let q = vec![quote];
    let mut pos: usize = 0;
    let ghost mut done: Seq<Seq<char>> = Seq::empty();
    assert(v@.skip(0) =~= v@);
    loop
        invariant
            pos <= v.len(),
            q@ == seq![quote],
            href_values(v@, marker@, quote) == done + href_values(v@.skip(pos as int), marker@, quote),
            views(urls@) == dedup_onto(views(old(urls)@), github_links(done)),
        decreases v.len() - pos,
    {
        let ghost rest = v@.skip(pos as int);
        let idx = match find_chars_from(v, marker, pos) {
            Some(i) => i,
            None => {
                proof {
                    crate::text::lemma_find_shift(v@, marker@, pos as int, pos as int);
                    assert(href_values(rest, marker@, quote) =~= Seq::<Seq<char>>::empty());
                    assert(done + Seq::<Seq<char>>::empty() =~= done);
                }
                return;
            },
        };
        proof {
            crate::text::lemma_find_shift(v@, marker@, pos as int, pos as int);
            lemma_find_from_range(v@, marker@, pos as int);
        }
        let start = idx + marker.len();
        let ghost r = rest.skip(idx - pos + marker@.len());
        assert(r =~= v@.skip(start as int));
        let end = match find_chars_from(v, &q, start) {
            Some(e) => e,
            None => {
                proof {
                    crate::text::lemma_find_shift(v@, seq![quote], start as int, start as int);
                    assert(href_values(rest, marker@, quote) =~= Seq::<Seq<char>>::empty());
                    assert(done + Seq::<Seq<char>>::empty() =~= done);
                }
                return;
            },
        };
        proof {
            crate::text::lemma_find_shift(v@, seq![quote], start as int, start as int);
            lemma_find_from_range(v@, seq![quote], start as int);
        }
        let mut raw: Vec<char> = Vec::new();
        let mut k = start;
        while k < end
            invariant
                start <= k <= end <= v.len(),
                raw@ == v@.subrange(start as int, k as int),
            decreases end - k,
        {
            raw.push(v[k]);
            assert(v@.subrange(start as int, k + 1) =~= v@.subrange(start as int, k as int).push(v@[k as int]));
            k += 1;
        }
        assert(raw@ =~= r.take(end - start));
        assert(r.skip(end - start + 1) =~= v@.skip(end + 1));
        let ghost before = done;
        proof {
            done = done.push(raw@);
            assert(href_values(rest, marker@, quote) == seq![raw@] + href_values(v@.skip(end + 1), marker@, quote));
            assert(before + href_values(rest, marker@, quote) =~= done + href_values(v@.skip(end + 1), marker@, quote));
            assert(done.drop_last() =~= before);
        }
        assert(done.last() == raw@);
        match github_link_of(&raw) {
            Some(u) => {
                assert(github_links(done) == github_links(before).push(u@));
                assert(github_links(done).drop_last() =~= github_links(before));
                if !holds_string(urls, u.as_str()) {
                    let ghost prev = urls@;
                    urls.push(u);
                    assert(views(urls@) =~= views(prev).push(u@));
                }
            },
            None => {
                assert(github_links(done) == github_links(before));
            },
        }
        pos = end + 1;
    }
}

/// `base` followed by the elements of `s` not already present, in order.
pub open spec fn dedup_onto(base: Seq<Seq<char>>, s: Seq<Seq<char>>) -> Seq<Seq<char>>
    decreases s.len(),
{
    if s.len() == 0 {
        base
    } else if dedup_onto(base, s.drop_last()).contains(s.last()) {
        dedup_onto(base, s.drop_last())
    } else {
        dedup_onto(base, s.drop_last()).push(s.last())
    }
}

/// Deduplicating onto nothing is deduplicating.
proof fn lemma_dedup_onto_empty(s: Seq<Seq<char>>)
    ensures
        dedup_onto(Seq::empty(), s) == dedup(s),
    decreases s.len(),
{
    if s.len() > 0 {
        lemma_dedup_onto_empty(s.drop_last());
    }
}

/// Deduplicating a concatenation goes part by part.
proof fn lemma_dedup_onto_concat(base: Seq<Seq<char>>, a: Seq<Seq<char>>, b: Seq<Seq<char>>)
    ensures
        dedup_onto(base, a + b) == dedup_onto(dedup_onto(base, a), b),
    decreases b.len(),
{
    if b.len() == 0 {
        assert(a + b =~= a);
    } else {
        lemma_dedup_onto_concat(base, a, b.drop_last());
        assert((a + b).drop_last() =~= a + b.drop_last());
        assert((a + b).last() == b.last());
    }
}

/// Links are collected part by part.
proof fn lemma_github_links_concat(a: Seq<Seq<char>>, b: Seq<Seq<char>>)
    ensures
        github_links(a + b) == github_links(a) + github_links(b),
    decreases b.len(),
{
    if b.len() == 0 {
        assert(a + b =~= a);
        assert(github_links(a) + github_links(b) =~= github_links(a));
    } else {
        lemma_github_links_concat(a, b.drop_last());
        assert((a + b).drop_last() =~= a + b.drop_last());
        match github_link(b.last()) {
            Some(u) => {
                assert(github_links(a) + github_links(b) =~= (github_links(a) + github_links(b.drop_last())).push(u));
            },
            None => {},
        }
    }
}

/// Every GitHub repository linked from the listing page, in page order
/// (double-quoted `href`s first, then single-quoted ones), each once, with
/// trailing slashes and `.git` removed.
pub fn github_urls(html: &str) -> (urls: Vec<String>)
    ensures
        views(urls@) == github_urls_of(html@),
{
    let v = chars_of(html);
    let mut urls: Vec<String> = Vec::new();
    let dq = chars_of("href=\"");
    let sq = chars_of("href='");
    collect_links(&v, &dq, '"', &mut urls);
    collect_links(&v, &sq, '\'', &mut urls);
    proof {
        let a = github_links(href_values(html@, "href=\""@, '"'));
        let b = github_links(href_values(html@, "href='"@, '\''));
        assert(views(Seq::<String>::empty()) =~= Seq::<Seq<char>>::empty());
        lemma_github_links_concat(href_values(html@, "href=\""@, '"'), href_values(html@, "href='"@, '\''));
        lemma_dedup_onto_concat(Seq::empty(), a, b);
        lemma_dedup_onto_empty(a + b);
    }
    urls
}


/// A skill, as plain text.
pub struct SkillView {
    pub name: Seq<char>,
    pub description: Seq<char>,
    pub url: Seq<char>,
}

impl View for AwesomeSkill {
    type V = SkillView;

    open spec fn view(&self) -> SkillView {
        SkillView { name: self.name@, description: self.description@, url: self.url@ }
    }
}

/// The views of a list of skills.
pub open spec fn skill_views(v: Seq<AwesomeSkill>) -> Seq<SkillView> {
    Seq::new(v.len(), |k: int| v[k]@)
}

/// The index of the last `c` in `s` before index `i`.
pub open spec fn last_char_before(s: Seq<char>, c: char, i: int) -> Option<int>
    decreases i,
{
    if i <= 0 || i > s.len() {
        None
    } else if s[i - 1] == c {
        Some(i - 1)
    } else {
        last_char_before(s, c, i - 1)
    }
}

/// The last non-empty `/`-separated segment of `u`, or `u` when there is none.
pub open spec fn last_segment(u: Seq<char>) -> Seq<char> {
    let t = strip_trailing_char(u, '/');
    match last_char_before(t, '/', t.len() as int) {
        Some(d) => t.skip(d + 1),
        None => if t.len() == 0 {
            u
        } else {
            t
        },
    }
}

/// `s` with `-` and `_` turned into spaces.
pub open spec fn spaced(s: Seq<char>) -> Seq<char> {
    Seq::new(s.len(), |k: int| if s[k] == '-' || s[k] == '_' { ' ' } else { s[k] })
}

/// The entry offered for a repository linked from the listing page.
pub open spec fn linked_skill(u: Seq<char>) -> SkillView {
    SkillView {
        name: spaced(last_segment(u)),
        description: "MCP plugin or SKILL.md repo from awesome-skills.com."@,
        url: u,
    }
}

/// The listing page's skills: those of its JSON-LD item lists, then one for
/// each other linked repository.
pub open spec fn awesome_listing(ld: Seq<SkillView>, links: Seq<Seq<char>>) -> Seq<SkillView> {
    let urls = Seq::new(ld.len(), |k: int| ld[k].url);
    let extra = dedup_onto(urls, links).skip(ld.len() as int);
    ld + Seq::new(extra.len(), |k: int| linked_skill(extra[k]))
}

/// Deduplicating onto a base keeps the base in front.
proof fn lemma_dedup_onto_prefix(base: Seq<Seq<char>>, s: Seq<Seq<char>>)
    ensures
        dedup_onto(base, s).len() >= base.len(),
        dedup_onto(base, s).take(base.len() as int) == base,
    decreases s.len(),
{
    if s.len() == 0 {
        assert(base.take(base.len() as int) =~= base);
    } else {
        lemma_dedup_onto_prefix(base, s.drop_last());
        let d = dedup_onto(base, s.drop_last());
        assert(d.push(s.last()).take(base.len() as int) =~= d.take(base.len() as int));
    }
}

/// The last non-empty path segment of `url` (see `last_segment`).
fn last_segment_string(url: &str) -> (r: String)
    ensures
        r@ == last_segment(url@),
{
    let v = chars_of(url);
    let m = strip_trailing_len(&v, v.len(), '/');
    assert(v@.take(v@.len() as int) =~= v@);
    let ghost t = v@.take(m as int);
    let mut i = m;
    while i > 0 && v[i - 1] != '/'
        invariant
            i <= m <= v.len(),
            t == v@.take(m as int),
            last_char_before(t, '/', t.len() as int) == last_char_before(t, '/', i as int),
        decreases i,
    {
        i -= 1;
    }
    let (from, to) = if i > 0 {
        assert(t.skip(i as int) =~= v@.subrange(i as int, m as int));
        (i, m)
    } else if m == 0 {
        assert(v@.subrange(0, v@.len() as int) =~= v@);
        (0, v.len())
    } else {
        assert(t =~= v@.subrange(0, m as int));
        (0, m)
    };
    string_of_range(&v, from, to)
}

/// The name given to a repository linked from the listing page: its last
/// path segment with `-` and `_` turned into spaces.
fn repo_display_name(url: &str) -> (n: String)
    ensures
        n@ == spaced(last_segment(url@)),
{
    let segment = last_segment_string(url);
    let v = chars_of(segment.as_str());
    let mut out = String::new();
    let mut k: usize = 0;
    while k < v.len()
        invariant
            k <= v.len(),
            out@ == spaced(v@.take(k as int)),
        decreases v.len() - k,
    {
        let c = v[k];
        crate::text::push_char(&mut out, if c == '-' || c == '_' { ' ' } else { c });
        assert(spaced(v@.take(k + 1)) =~= spaced(v@.take(k as int)).push(
            if c == '-' || c == '_' { ' ' } else { c },
        ));
        k += 1;
    }
    assert(v@.take(v@.len() as int) =~= v@);
    out
}

/// The skills on the awesome-skills.com listing page: `json_ld` (the skills
/// of the page's JSON-LD item lists, see `parse_json_ld_skills`), then one
/// entry for every other GitHub repository the page links to, named after
/// the repository.
pub fn parse_awesome_skills(html: &str, json_ld: Vec<AwesomeSkill>) -> (skills: Vec<AwesomeSkill>)
    ensures
        skill_views(skills@) == awesome_listing(skill_views(json_ld@), github_urls_of(html@)),
{
    let ghost ld = skill_views(json_ld@);
    let ghost base = Seq::new(ld.len(), |k: int| ld[k].url);
    let mut seen: Vec<String> = Vec::new();
    let mut i: usize = 0;
    while i < json_ld.len()
        invariant
            i <= json_ld.len(),
            ld == skill_views(json_ld@),
            base == Seq::new(ld.len(), |k: int| ld[k].url),
            views(seen@) == base.take(i as int),
        decreases json_ld.len() - i,
    {
        assert(ld[i as int] == json_ld@[i as int]@);
        assert(base[i as int] == ld[i as int].url);
        let ghost prev = seen@;
        seen.push(json_ld[i].url.clone());
        assert(views(seen@) =~= views(prev).push(base[i as int]));
        assert(views(seen@) =~= base.take(i + 1));
        i += 1;
    }
    assert(base.take(base.len() as int) =~= base);
    let links = github_urls(html);
    let ghost gh = views(links@);
    let mut skills = json_ld;
    let mut j: usize = 0;
    proof {
        assert(gh.take(0) =~= Seq::<Seq<char>>::empty());
        assert(dedup_onto(base, Seq::empty()) == base);
    }
    while j < links.len()
        invariant
            j <= links.len(),
            gh == views(links@),
            views(seen@) == dedup_onto(base, gh.take(j as int)),
            dedup_onto(base, gh.take(j as int)).len() >= base.len(),
            skill_views(skills@) == ld + Seq::new(
                (dedup_onto(base, gh.take(j as int)).len() - base.len()) as nat,
                |k: int| linked_skill(dedup_onto(base, gh.take(j as int))[base.len() + k]),
            ),
        decreases links.len() - j,
    {
        let url = &links[j];
        assert(gh.take(j + 1).drop_last() =~= gh.take(j as int));
        assert(gh.take(j + 1).last() == url@);
        if !holds_string(&seen, url.as_str()) {
            seen.push(url.clone());
            let name = repo_display_name(url.as_str());
            let ghost before = skills@;
            skills.push(
                AwesomeSkill {
                    name,
                    description: "MCP plugin or SKILL.md repo from awesome-skills.com.".to_owned(),
                    url: url.clone(),
                },
            );
            proof {
                let dp = dedup_onto(base, gh.take(j as int));
                let d = dedup_onto(base, gh.take(j + 1));
                assert(d == dp.push(url@));
                assert(views(seen@) =~= d);
                let n = (dp.len() - base.len()) as nat;
                assert(skill_views(before) == ld + Seq::new(n, |k: int| linked_skill(dp[base.len() + k])));
                assert(skill_views(skills@) =~= skill_views(before).push(skills@.last()@));
                assert(skills@.last()@ == linked_skill(url@));
                assert(skill_views(skills@) =~= ld + Seq::new(
                    (d.len() - base.len()) as nat,
                    |k: int| linked_skill(d[base.len() + k]),
                ));
            }
        }
        j += 1;
    }
    proof {
        assert(gh.take(gh.len() as int) =~= gh);
        let d = dedup_onto(base, gh);
        lemma_dedup_onto_prefix(base, gh);
        assert(d.skip(ld.len() as int) =~= Seq::new(
            (d.len() - base.len()) as nat,
            |k: int| d[base.len() + k],
        ));
        assert(skill_views(skills@) =~= awesome_listing(ld, gh));
    }
    skills
}


// ---------------------------------------------------------------------------
// JSON-LD item lists
// ---------------------------------------------------------------------------
/// The texts between each `open` marker and the next `close` marker,
/// scanning `s` from the left; an unclosed block ends the scan.
pub open spec fn delimited(s: Seq<char>, open: Seq<char>, close: Seq<char>) -> Seq<Seq<char>>
    decreases s.len(),
{
    if open.len() == 0 {
        Seq::empty()
    } else {
        match find(s, open) {
            None => Seq::empty(),
            Some(start) => {
                proof {
                    lemma_find_from_range(s, open, 0);
                }
                let r = s.skip(start + open.len());
                match find(r, close) {
                    None => Seq::empty(),
                    Some(end) => {
                        proof {
                            lemma_find_from_range(r, close, 0);
                        }
                        seq![r.take(end)] + delimited(r.skip(end + close.len()), open, close)
                    },
                }
            },
        }
    }
}

/// The JSON texts of the page's `application/ld+json` script blocks, trimmed.
pub open spec fn json_ld_texts(html: Seq<char>) -> Seq<Seq<char>> {
    let blocks = delimited(html, "<script type=\"application/ld+json\">"@, "</script>"@);
    Seq::new(blocks.len(), |k: int| trim(blocks[k]))
}

/// The texts between `open` and `close` markers in `v`.
fn delimited_texts(v: &Vec<char>, open: &Vec<char>, close: &Vec<char>) -> (r: Vec<Vec<char>>)
    requires
        open@.len() > 0,
    ensures
        r@.len() == delimited(v@, open@, close@).len(),
        forall|k: int| 0 <= k < r@.len() ==> #[trigger] r@[k]@ == delimited(v@, open@, close@)[k],
{
    let mut out: Vec<Vec<char>> = Vec::new();
    let mut pos: usize = 0;
    let ghost mut done: Seq<Seq<char>> = Seq::empty();
    assert(v@.skip(0) =~= v@);
    loop
        invariant
            pos <= v.len(),
            open@.len() > 0,
            delimited(v@, open@, close@) == done + delimited(v@.skip(pos as int), open@, close@),
            out@.len() == done.len(),
            forall|k: int| 0 <= k < out@.len() ==> #[trigger] out@[k]@ == done[k],
        decreases v.len() - pos,
    {
        let ghost rest = v@.skip(pos as int);
        let start = match find_chars_from(v, open, pos) {
            Some(i) => i,
            None => {
                proof {
                    crate::text::lemma_find_shift(v@, open@, pos as int, pos as int);
                    assert(delimited(rest, open@, close@) =~= Seq::<Seq<char>>::empty());
                    assert(done + Seq::<Seq<char>>::empty() =~= done);
                }
                return out;
            },
        };
        proof {
            crate::text::lemma_find_shift(v@, open@, pos as int, pos as int);
            lemma_find_from_range(v@, open@, pos as int);
        }
        let from = start + open.len();
        let ghost r = rest.skip(start - pos + open@.len());
        assert(r =~= v@.skip(from as int));
        let end = match find_chars_from(v, close, from) {
            Some(e) => e,
            None => {
                proof {
                    crate::text::lemma_find_shift(v@, close@, from as int, from as int);
                    assert(delimited(rest, open@, close@) =~= Seq::<Seq<char>>::empty());
                    assert(done + Seq::<Seq<char>>::empty() =~= done);
                }
                return out;
            },
        };
        proof {
            crate::text::lemma_find_shift(v@, close@, from as int, from as int);
            lemma_find_from_range(v@, close@, from as int);
        }
        let mut block: Vec<char> = Vec::new();
        let mut k = from;
        while k < end
            invariant
                from <= k <= end <= v.len(),
                block@ == v@.subrange(from as int, k as int),
            decreases end - k,
        {
            block.push(v[k]);
            assert(v@.subrange(from as int, k + 1) =~= v@.subrange(from as int, k as int).push(v@[k as int]));
            k += 1;
        }
        assert(block@ =~= r.take(end - from));
        assert(r.skip(end - from + close@.len()) =~= v@.skip(end + close@.len()));
        proof {
            let before = done;
            done = done.push(block@);
            assert(delimited(rest, open@, close@) == seq![block@] + delimited(
                v@.skip(end + close@.len()),
                open@,
                close@,
            ));
            assert(before + delimited(rest, open@, close@) =~= done + delimited(
                v@.skip(end + close@.len()),
                open@,
                close@,
            ));
        }
        out.push(block);
        pos = end + close.len();
    }
}

/// The JSON texts of a page's `<script type="application/ld+json">` blocks,
/// trimmed, in page order; decoding them is the caller's.
pub fn json_ld_blocks(html: &str) -> (blocks: Vec<String>)
    ensures
        views(blocks@) == json_ld_texts(html@),
{
    let v = chars_of(html);
    let open = chars_of("<script type=\"application/ld+json\">");
    let close = chars_of("</script>");
    proof {
        reveal_strlit("<script type=\"application/ld+json\">");
    }
    let texts = delimited_texts(&v, &open, &close);
    let mut blocks: Vec<String> = Vec::new();
    let mut k: usize = 0;
    while k < texts.len()
        invariant
            k <= texts@.len(),
            texts@.len() == delimited(html@, open@, close@).len(),
            forall|q: int| 0 <= q < texts@.len() ==> #[trigger] texts@[q]@ == delimited(html@, open@, close@)[q],
            blocks@.len() == k,
            forall|q: int| 0 <= q < k ==> #[trigger] blocks@[q]@ == trim(delimited(html@, open@, close@)[q]),
        decreases texts.len() - k,
    {
        let (a, b) = crate::text::trim_bounds(&texts[k], 0, texts[k].len());
        assert(texts@[k as int]@.subrange(0, texts@[k as int]@.len() as int) =~= texts@[k as int]@);
        blocks.push(string_of_range(&texts[k], a, b));
        k += 1;
    }
    assert(views(blocks@) =~= json_ld_texts(html@));
    blocks
}

/// The skill an item of a JSON-LD item list describes: its `item` (or the
/// entry itself) with a GitHub `url`, named by its `name` (or the URL), with
/// its `description` (or nothing), and the URL without trailing slashes or
/// `.git`.
pub open spec fn ld_item_skill(entry: JsonValue) -> Option<SkillView> {
    let inner = match json_get(entry, "item"@) {
        Some(i) => i,
        None => entry,
    };
    match json_get_str(inner, "url"@) {
        Some(url) => if starts_with(url, "https://github.com/"@) {
            Some(
                SkillView {
                    name: match json_get_str(inner, "name"@) {
                        Some(n) => n,
                        None => url,
                    },
                    description: match json_get_str(inner, "description"@) {
                        Some(d) => d,
                        None => Seq::empty(),
                    },
                    url: strip_suffixes(strip_trailing_char(url, '/'), ".git"@),
                },
            )
        } else {
            None
        },
        None => None,
    }
}

/// The skills of a list of item-list entries.
pub open spec fn ld_items_skills(items: Seq<JsonValue>) -> Seq<SkillView>
    decreases items.len(),
{
    if items.len() == 0 {
        Seq::empty()
    } else {
        match ld_item_skill(items.last()) {
            Some(sk) => ld_items_skills(items.drop_last()).push(sk),
            None => ld_items_skills(items.drop_last()),
        }
    }
}

/// The skills a decoded JSON-LD block lists: none unless it is an `ItemList`
/// with an `itemListElement` array.
pub open spec fn ld_doc_skills(doc: JsonValue) -> Seq<SkillView> {
    if json_get_str(doc, "@type"@) == Some("ItemList"@) {
        match json_get(doc, "itemListElement"@) {
            Some(JsonValue::Array(items)) => ld_items_skills(items@),
            _ => Seq::empty(),
        }
    } else {
        Seq::empty()
    }
}

/// The skills of all decoded JSON-LD blocks, in order.
pub open spec fn ld_docs_skills(docs: Seq<JsonValue>) -> Seq<SkillView>
    decreases docs.len(),
{
    if docs.len() == 0 {
        Seq::empty()
    } else {
        ld_docs_skills(docs.drop_last()) + ld_doc_skills(docs.last())
    }
}

/// The skill an item-list entry describes, if any.
fn ld_skill_of(entry: &JsonValue) -> (r: Option<AwesomeSkill>)
    ensures
        match r {
            Some(sk) => ld_item_skill(*entry) == Some(sk@),
            None => ld_item_skill(*entry) is None,
        },
{
    let inner = match entry.get("item") {
        Some(i) => i,
        None => entry,
    };
    let url = match inner.get_str("url") {
        Some(u) => u,
        None => return None,
    };
    if !crate::text::starts_with_str(url, "https://github.com/") {
        return None;
    }
    let name = match inner.get_str("name") {
        Some(n) => n.to_owned(),
        None => url.to_owned(),
    };
    let description = match inner.get_str("description") {
        Some(d) => d.to_owned(),
        None => String::new(),
    };
    let v = chars_of(url);
    let m = strip_trailing_len(&v, v.len(), '/');
    assert(v@.take(v@.len() as int) =~= v@);
    let git = chars_of(".git");
    proof {
        reveal_strlit(".git");
    }
    let n = strip_suffixes_len(&v, m, &git);
    assert(v@.take(m as int).take(m as int) =~= v@.take(m as int));
    let u = string_of_range(&v, 0, n);
    assert(v@.subrange(0, n as int) =~= v@.take(n as int));
    Some(AwesomeSkill { name, description, url: u })
}

/// The skills listed by decoded JSON-LD blocks (see `json_ld_blocks`):
/// every GitHub entry of every `ItemList`, in order.
pub fn parse_json_ld_skills(docs: &Vec<JsonValue>) -> (skills: Vec<AwesomeSkill>)
    ensures
        skill_views(skills@) == ld_docs_skills(docs@),
{
    let mut skills: Vec<AwesomeSkill> = Vec::new();
    let mut d: usize = 0;
    while d < docs.len()
        invariant
            d <= docs.len(),
            skill_views(skills@) == ld_docs_skills(docs@.take(d as int)),
        decreases docs.len() - d,
    {
        let doc = &docs[d];
        let ghost before = skill_views(skills@);
        assert(docs@.take(d + 1).drop_last() =~= docs@.take(d as int));
        let is_list = match doc.get_str("@type") {
            Some(t) => crate::text::str_eq(t, "ItemList"),
            None => false,
        };
        if is_list {
            match doc.get("itemListElement") {
                Some(JsonValue::Array(items)) => {
                    let mut k: usize = 0;
                    assert(before + ld_items_skills(items@.take(0)) =~= before);
                    while k < items.len()
                        invariant
                            k <= items.len(),
                            skill_views(skills@) == before + ld_items_skills(items@.take(k as int)),
                        decreases items.len() - k,
                    {
                        assert(items@.take(k + 1).drop_last() =~= items@.take(k as int));
                        match ld_skill_of(&items[k]) {
                            Some(sk) => {
                                let ghost prev = skills@;
                                skills.push(sk);
                                assert(skill_views(skills@) =~= skill_views(prev).push(sk@));
                            },
                            None => {},
                        }
                        k += 1;
                    }
                    assert(items@.take(items@.len() as int) =~= items@);
                },
                _ => {
                    assert(skill_views(skills@) =~= before + Seq::<SkillView>::empty());
                },
            }
        } else {
            assert(skill_views(skills@) =~= before + Seq::<SkillView>::empty());
        }
        d += 1;
    }
    assert(docs@.take(docs@.len() as int) =~= docs@);
    skills
}

// ---------------------------------------------------------------------------
// The awesome-skills.com JSON API
// ---------------------------------------------------------------------------
/// The members that may hold a skill's repository URL, in the order tried.
pub open spec fn api_url_keys() -> Seq<Seq<char>> {
    seq![
        "url"@,
        "githubUrl"@,
        "github_url"@,
        "repoUrl"@,
        "repository"@,
        "repositoryUrl"@,
        "source"@,
    ]
}

/// The members that may hold a skill's name, in the order tried.
pub open spec fn api_name_keys() -> Seq<Seq<char>> {
    seq!["name"@, "title"@, "displayName"@]
}

/// The members that may hold a skill's description, in the order tried.
pub open spec fn api_description_keys() -> Seq<Seq<char>> {
    seq!["description"@, "summary"@, "excerpt"@, "readme"@]
}

/// The members under which a response nests further skills, in the order
/// visited.
pub open spec fn api_child_keys() -> Seq<Seq<char>> {
    seq!["skills"@, "items"@, "data"@, "results"@, "plugins"@]
}

/// The string held by the first of `keys` that names a string member of
/// `v`; empty when none does.
pub open spec fn json_text(v: JsonValue, keys: Seq<Seq<char>>) -> Seq<char>
    decreases keys.len(),
{
    if keys.len() == 0 {
        Seq::empty()
    } else {
        match json_get_str(v, keys[0]) {
            Some(t) => t,
            None => json_text(v, keys.drop_first()),
        }
    }
}

/// A repository URL as the API gives it, made absolute (from `github.com/`
/// on, behind `https://`, unless it already starts with `https://`) and
/// without trailing slashes or `.git`.
pub open spec fn api_github_url(url: Seq<char>) -> Seq<char> {
    let absolute = if starts_with(url, "https://"@) {
        url
    } else {
        match find(url, "github.com/"@) {
            Some(pos) => "https://"@ + url.skip(pos),
            None => url,
        }
    };
    strip_suffixes(strip_trailing_char(absolute, '/'), ".git"@)
}

/// The repository URL of `v`: that of the first of `keys` whose string
/// member mentions `github.com/`.
pub open spec fn github_url_in(v: JsonValue, keys: Seq<Seq<char>>) -> Option<Seq<char>>
    decreases keys.len(),
{
    if keys.len() == 0 {
        None
    } else {
        match json_get_str(v, keys[0]) {
            Some(u) => if contains(u, "github.com/"@) {
                Some(api_github_url(u))
            } else {
                github_url_in(v, keys.drop_first())
            },
            None => github_url_in(v, keys.drop_first()),
        }
    }
}

/// The skill an API object itself describes: one with a GitHub URL, named
/// by its trimmed name (or the URL's last segment when that is empty), with
/// its trimmed description.
pub open spec fn api_own_skill(v: JsonValue) -> Option<SkillView> {
    match github_url_in(v, api_url_keys()) {
        Some(url) => {
            let name = trim(json_text(v, api_name_keys()));
            Some(
                SkillView {
                    name: if name.len() == 0 {
                        last_segment(url)
                    } else {
                        name
                    },
                    description: trim(json_text(v, api_description_keys())),
                    url,
                },
            )
        },
        None => None,
    }
}

/// The index of the first member named `key`, from `i` on.
pub open spec fn member_index(members: Seq<JsonMember>, key: Seq<char>, i: int) -> Option<int>
    decreases members.len() - i,
{
    if i < 0 || i >= members.len() {
        None
    } else if members[i].key@ == key {
        Some(i)
    } else {
        member_index(members, key, i + 1)
    }
}

proof fn lemma_member_index(members: Seq<JsonMember>, key: Seq<char>, i: int)
    ensures
        match member_index(members, key, i) {
            Some(k) => i <= k < members.len() && members[k].key@ == key && member_from(members, key, i)
                == Some(members[k].value),
            None => member_from(members, key, i) is None,
        },
    decreases members.len() - i,
{
    if 0 <= i < members.len() && members[i].key@ != key {
        lemma_member_index(members, key, i + 1);
    }
}

/// Every skill an API response lists, depth first: an array's elements in
/// order; an object's own skill, then those under each of
/// `api_child_keys` in turn.
pub open spec fn api_skills(v: JsonValue) -> Seq<SkillView>
    decreases v, 0int,
{
    match v {
        JsonValue::Array(items) => api_skills_list(items@),
        JsonValue::Object(members) => {
            let own = match api_own_skill(v) {
                Some(sk) => seq![sk],
                None => Seq::empty(),
            };
            own + api_skills_children(members@, api_child_keys())
        },
        _ => Seq::empty(),
    }
}

/// The skills of a list of API values, in order.
pub open spec fn api_skills_list(items: Seq<JsonValue>) -> Seq<SkillView>
    decreases items, 0int,
{
    if items.len() == 0 {
        Seq::empty()
    } else {
        api_skills_list(items.drop_last()) + api_skills(items[items.len() - 1])
    }
}

/// The skills under the members named by `keys`, in the order of `keys`.
pub open spec fn api_skills_children(members: Seq<JsonMember>, keys: Seq<Seq<char>>) -> Seq<SkillView>
    decreases members, keys.len(),
{
    if keys.len() == 0 {
        Seq::empty()
    } else {
        let under = match member_index(members, keys.last(), 0) {
            Some(k) => if 0 <= k < members.len() {
                api_skills(members[k].value)
            } else {
                Seq::empty()
            },
            None => Seq::empty(),
        };
        api_skills_children(members, keys.drop_last()) + under
    }
}


/// What one part of a sequence holds, the joined sequence holds.
proof fn lemma_seq_contains_join<T>(a: Seq<T>, b: Seq<T>, x: T)
    ensures
        a.contains(x) ==> (a + b).contains(x),
        b.contains(x) ==> (a + b).contains(x),
{
    if a.contains(x) {
        let k = choose|k: int| 0 <= k < a.len() && a[k] == x;
        assert((a + b)[k] == x);
    }
    if b.contains(x) {
        let k = choose|k: int| 0 <= k < b.len() && b[k] == x;
        assert((a + b)[a.len() + k] == x);
    }
}

/// The skills under a member named by one of `keys` are among the skills
/// under all of `keys`.
proof fn lemma_children_hold(members: Seq<JsonMember>, keys: Seq<Seq<char>>, key: Seq<char>, k: int, sk: SkillView)
    requires
        keys.contains(key),
        member_index(members, key, 0) == Some(k),
        0 <= k < members.len(),
        api_skills(members[k].value).contains(sk),
    ensures
        api_skills_children(members, keys).contains(sk),
    decreases keys.len(),
{
    let rest = keys.drop_last();
    let under = match member_index(members, keys.last(), 0) {
        Some(i) => if 0 <= i < members.len() {
            api_skills(members[i].value)
        } else {
            Seq::empty()
        },
        None => Seq::empty(),
    };
    if keys.last() == key {
        lemma_seq_contains_join(api_skills_children(members, rest), under, sk);
    } else {
        let p = choose|p: int| 0 <= p < keys.len() && keys[p] == key;
        assert(rest[p] == key);
        lemma_children_hold(members, rest, key, k, sk);
        lemma_seq_contains_join(api_skills_children(members, rest), under, sk);
    }
}

/// The API walk descends into each of the members `skills`, `items`,
/// `data`, `results` and `plugins` of an object: every skill listed under
/// such a member is among the skills of the whole response.
pub proof fn lemma_api_walk_descends(v: JsonValue, key: Seq<char>, child: JsonValue, sk: SkillView)
    requires
        v is Object,
        key == "skills"@ || key == "items"@ || key == "data"@ || key == "results"@ || key == "plugins"@,
        json_get(v, key) == Some(child),
        api_skills(child).contains(sk),
    ensures
        api_skills(v).contains(sk),
{
    let members = v->Object_0@;
    lemma_member_index(members, key, 0);
    let k = member_index(members, key, 0)->Some_0;
    assert(child == members[k].value);
    let keys = api_child_keys();
    assert(keys[0] == "skills"@ && keys[1] == "items"@ && keys[2] == "data"@ && keys[3] == "results"@
        && keys[4] == "plugins"@);
    assert(keys.contains(key)) by {
        if key == "skills"@ {
            assert(keys[0] == key);
        } else if key == "items"@ {
            assert(keys[1] == key);
        } else if key == "data"@ {
            assert(keys[2] == key);
        } else if key == "results"@ {
            assert(keys[3] == key);
        } else {
            assert(keys[4] == key);
        }
    }
    lemma_children_hold(members, keys, key, k, sk);
    let own = match api_own_skill(v) {
        Some(s) => seq![s],
        None => Seq::empty(),
    };
    lemma_seq_contains_join(own, api_skills_children(members, keys), sk);
}

/// An API object with a GitHub `url` string is itself a skill: one with
/// that link made absolute, named by its trimmed `name` when that is not
/// blank, and described by its trimmed `description`.
pub proof fn lemma_api_object_is_skill(v: JsonValue, url: Seq<char>, name: Seq<char>, description: Seq<char>)
    requires
        v is Object,
        json_get_str(v, "url"@) == Some(url),
        crate::text::contains(url, "github.com/"@),
        json_get_str(v, "name"@) == Some(name),
        trim(name).len() > 0,
        json_get_str(v, "description"@) == Some(description),
    ensures
        exists|sk: SkillView|
            #![trigger api_skills(v).contains(sk)]
            api_skills(v).contains(sk) && sk.name == trim(name) && sk.description == trim(description)
                && sk.url == api_github_url(url),
{
    let uk = api_url_keys();
    assert(uk[0] == "url"@);
    assert(github_url_in(v, uk) == Some(api_github_url(url)));
    let nk = api_name_keys();
    assert(nk[0] == "name"@);
    assert(json_text(v, nk) == name);
    let dk = api_description_keys();
    assert(dk[0] == "description"@);
    assert(json_text(v, dk) == description);
    let sk = api_own_skill(v)->Some_0;
    assert(sk.name == trim(name) && sk.description == trim(description) && sk.url == api_github_url(url));
    let members = v->Object_0@;
    assert(v == JsonValue::Object(v->Object_0));
    assert(api_skills(v) == seq![sk] + api_skills_children(members, api_child_keys()));
    assert(seq![sk][0] == sk);
    assert(seq![sk].contains(sk));
    lemma_seq_contains_join(seq![sk], api_skills_children(members, api_child_keys()), sk);
    assert(api_skills(v).contains(sk));
}

/// Each element of an API array is walked: every skill listed by an
/// element is among the skills of the array.
pub proof fn lemma_api_walk_visits_elements(items: Seq<JsonValue>, i: int, sk: SkillView)
    requires
        0 <= i < items.len(),
        api_skills(items[i]).contains(sk),
    ensures
        api_skills_list(items).contains(sk),
    decreases items.len(),
{
    let rest = items.drop_last();
    if i == items.len() - 1 {
        lemma_seq_contains_join(api_skills_list(rest), api_skills(items[items.len() - 1]), sk);
    } else {
        assert(rest[i] == items[i]);
        lemma_api_walk_visits_elements(rest, i, sk);
        lemma_seq_contains_join(api_skills_list(rest), api_skills(items[items.len() - 1]), sk);
    }
}

/// The key lists of the API reader.
#[derive(Clone, Copy)]
enum KeyList {
    Url,
    Name,
    Description,
    Child,
}

spec fn key_list(l: KeyList) -> Seq<Seq<char>> {
    match l {
        KeyList::Url => api_url_keys(),
        KeyList::Name => api_name_keys(),
        KeyList::Description => api_description_keys(),
        KeyList::Child => api_child_keys(),
    }
}

fn key_count(l: KeyList) -> (n: usize)
    ensures
        n == key_list(l).len(),
{
    match l {
        KeyList::Url => 7,
        KeyList::Name => 3,
        KeyList::Description => 4,
        KeyList::Child => 5,
    }
}

fn key_at(l: KeyList, i: usize) -> (k: &'static str)
    requires
        i < key_list(l).len(),
    ensures
        k@ == key_list(l)[i as int],
{
    match l {
        KeyList::Url => match i {
            0 => "url",
            1 => "githubUrl",
            2 => "github_url",
            3 => "repoUrl",
            4 => "repository",
            5 => "repositoryUrl",
            _ => "source",
        },
        KeyList::Name => match i {
            0 => "name",
            1 => "title",
            _ => "displayName",
        },
        KeyList::Description => match i {
            0 => "description",
            1 => "summary",
            2 => "excerpt",
            _ => "readme",
        },
        KeyList::Child => match i {
            0 => "skills",
            1 => "items",
            2 => "data",
            3 => "results",
            _ => "plugins",
        },
    }
}

/// The text of the first string member of `v` among `l` (see `json_text`).
fn json_text_of(v: &JsonValue, l: KeyList) -> (t: String)
    ensures
        t@ == json_text(*v, key_list(l)),
{
    let n = key_count(l);
    let ghost keys = key_list(l);
    let mut k: usize = 0;
    assert(keys.skip(0) =~= keys);
    while k < n
        invariant
            k <= n == keys.len(),
            keys == key_list(l),
            json_text(*v, keys) == json_text(*v, keys.skip(k as int)),
        decreases n - k,
    {
        assert(keys.skip(k as int)[0] == keys[k as int]);
        assert(keys.skip(k as int).drop_first() =~= keys.skip(k + 1));
        match v.get_str(key_at(l, k)) {
            Some(t) => return t.to_owned(),
            None => {},
        }
        k += 1;
    }
    assert(keys.skip(k as int).len() == 0);
    String::new()
}

/// `url` made absolute and stripped as `api_github_url` says.
fn api_github_url_string(url: &str) -> (r: String)
    ensures
        r@ == api_github_url(url@),
{
    let d = chars_of(url);
    let u = if crate::text::starts_with_str(url, "https://") {
        d
    } else {
        let marker = chars_of("github.com/");
        match find_chars(&d, &marker) {
            Some(pos) => {
                proof {
                    lemma_find_from_range(d@, marker@, 0);
                }
                let mut u = chars_of("https://");
                let mut k = pos;
                let ghost head = u@;
                while k < d.len()
                    invariant
                        pos <= k <= d.len(),
                        u@ == head + d@.subrange(pos as int, k as int),
                    decreases d.len() - k,
                {
                    u.push(d[k]);
                    assert(d@.subrange(pos as int, k + 1) =~= d@.subrange(pos as int, k as int).push(d@[k as int]));
                    k += 1;
                }
                assert(d@.subrange(pos as int, d@.len() as int) =~= d@.skip(pos as int));
                u
            },
            None => d,
        }
    };
    let m = strip_trailing_len(&u, u.len(), '/');
    assert(u@.take(u@.len() as int) =~= u@);
    let git = chars_of(".git");
    proof {
        reveal_strlit(".git");
    }
    let n = strip_suffixes_len(&u, m, &git);
    assert(u@.take(m as int).take(m as int) =~= u@.take(m as int));
    let r = string_of_range(&u, 0, n);
    assert(u@.subrange(0, n as int) =~= u@.take(n as int));
    r
}

/// The repository URL of `v` (see `github_url_in`).
fn api_url_of(v: &JsonValue) -> (r: Option<String>)
    ensures
        match r {
            Some(u) => github_url_in(*v, api_url_keys()) == Some(u@),
            None => github_url_in(*v, api_url_keys()) is None,
        },
{
    let ghost keys = api_url_keys();
    let n = key_count(KeyList::Url);
    let mut k: usize = 0;
    assert(keys.skip(0) =~= keys);
    while k < n
        invariant
            k <= n == keys.len(),
            keys == key_list(KeyList::Url),
            github_url_in(*v, keys) == github_url_in(*v, keys.skip(k as int)),
        decreases n - k,
    {
        assert(keys.skip(k as int)[0] == keys[k as int]);
        assert(keys.skip(k as int).drop_first() =~= keys.skip(k + 1));
        match v.get_str(key_at(KeyList::Url, k)) {
            Some(u) => {
                if crate::text::contains_str(u, "github.com/") {
                    return Some(api_github_url_string(u));
                }
            },
            None => {},
        }
        k += 1;
    }
    None
}

/// The skill an API object itself describes (see `api_own_skill`).
fn api_skill_of(v: &JsonValue) -> (r: Option<AwesomeSkill>)
    ensures
        match r {
            Some(sk) => api_own_skill(*v) == Some(sk@),
            None => api_own_skill(*v) is None,
        },
{
    let url = match api_url_of(v) {
        Some(u) => u,
        None => return None,
    };
    let raw_name = json_text_of(v, KeyList::Name);
    let trimmed = crate::text::trim_str(raw_name.as_str());
    let name = if trimmed.as_str().is_empty() {
        last_segment_string(url.as_str())
    } else {
        trimmed
    };
    let raw_description = json_text_of(v, KeyList::Description);
    let description = crate::text::trim_str(raw_description.as_str());
    Some(AwesomeSkill { name, description, url })
}

/// The index of the first member named `key` (see `member_index`).
fn first_member(members: &Vec<JsonMember>, key: &str) -> (r: Option<usize>)
    ensures
        match r {
            Some(k) => member_index(members@, key@, 0) == Some(k as int),
            None => member_index(members@, key@, 0) is None,
        },
{
    let mut i: usize = 0;
    while i < members.len()
        invariant
            i <= members.len(),
            member_index(members@, key@, 0) == member_index(members@, key@, i as int),
        decreases members.len() - i,
    {
        if crate::text::str_eq(members[i].key.as_str(), key) {
            return Some(i);
        }
        i += 1;
    }
    None
}

/// Appends every skill `value` lists (see `api_skills`).
fn collect_api_skills(value: &JsonValue, out: &mut Vec<AwesomeSkill>)
    ensures
        skill_views(final(out)@) == skill_views(old(out)@) + api_skills(*value),
    decreases value,
{
    let ghost base = skill_views(out@);
    match value {
        JsonValue::Array(items) => {
            let mut k: usize = 0;
            assert(base + api_skills_list(items@.take(0)) =~= base);
            while k < items.len()
                invariant
                    k <= items.len(),
                    *value == JsonValue::Array(*items),
                    skill_views(out@) == base + api_skills_list(items@.take(k as int)),
                decreases items.len() - k,
            {
                assert(items@.take(k + 1).drop_last() =~= items@.take(k as int));
                assert(items@.take(k + 1)[k as int] == items@[k as int]);
                assert(decreases_to!(*value => value->Array_0));
                assert(decreases_to!(*items => items@));
                assert(decreases_to!(items@ => items@[k as int]));
                assert(decreases_to!(*value => items@[k as int]));
                collect_api_skills(&items[k], out);
                assert(skill_views(out@) =~= base + api_skills_list(items@.take(k + 1)));
                k += 1;
            }
            assert(items@.take(items@.len() as int) =~= items@);
        },
        JsonValue::Object(members) => {
            match api_skill_of(value) {
                Some(sk) => {
                    let ghost prev = out@;
                    out.push(sk);
                    assert(skill_views(out@) =~= skill_views(prev).push(sk@));
                },
                None => {},
            }
            let ghost head = skill_views(out@);
            assert(head == base + match api_own_skill(*value) {
                Some(sk) => seq![sk],
                None => Seq::<SkillView>::empty(),
            });
            let ghost keys = api_child_keys();
            let n = key_count(KeyList::Child);
            let mut k: usize = 0;
            assert(head + api_skills_children(members@, keys.take(0)) =~= head);
            while k < n
                invariant
                    k <= n == keys.len(),
                    keys == key_list(KeyList::Child),
                    *value == JsonValue::Object(*members),
                    skill_views(out@) == head + api_skills_children(members@, keys.take(k as int)),
                decreases n - k,
            {
                assert(keys.take(k + 1).drop_last() =~= keys.take(k as int));
                assert(keys.take(k + 1).last() == keys[k as int]);
                let ghost before = skill_views(out@);
                match first_member(members, key_at(KeyList::Child, k)) {
                    Some(i) => {
                        proof {
                            lemma_member_index(members@, keys[k as int], 0);
                        }
                        assert(decreases_to!(*value => value->Object_0));
                        assert(decreases_to!(*members => members@));
                        assert(decreases_to!(members@ => members@[i as int]));
                        assert(decreases_to!(members@[i as int] => members@[i as int].value));
                        assert(decreases_to!(*value => members@[i as int].value));
                        collect_api_skills(&members[i].value, out);
                    },
                    None => {
                        assert(skill_views(out@) =~= before + Seq::<SkillView>::empty());
                    },
                }
                assert(skill_views(out@) =~= head + api_skills_children(members@, keys.take(k + 1)));
                k += 1;
            }
            assert(keys.take(n as int) =~= keys);
            assert(skill_views(out@) =~= base + api_skills(*value));
        },
        _ => {
            assert(skill_views(out@) =~= base + api_skills(*value));
        },
    }
}

/// The skills a decoded awesome-skills.com API response lists (see
/// `api_skills`); `None` when it lists none.
pub fn parse_api_skills(data: &JsonValue) -> (r: Option<Vec<AwesomeSkill>>)
    ensures
        match r {
            Some(skills) => skill_views(skills@) == api_skills(*data) && skills@.len() > 0,
            None => api_skills(*data).len() == 0,
        },
{
    let mut skills: Vec<AwesomeSkill> = Vec::new();
    collect_api_skills(data, &mut skills);
    assert(skill_views(Seq::<AwesomeSkill>::empty()) =~= Seq::<SkillView>::empty());
    assert(skill_views(skills@).len() == skills@.len());
    if skills.len() == 0 {
        None
    } else {
        Some(skills)
    }
}

// ---------------------------------------------------------------------------
// Ranking search results
// ---------------------------------------------------------------------------
/// The search text actually used: trimmed, and none when blank.
pub fn search_query(query: Option<String>) -> (q: Option<String>)
    ensures
        match query {
            Some(t) => if trim(t@).len() > 0 {
                q matches Some(r) && r@ == trim(t@)
            } else {
                q is None
            },
            None => q is None,
        },
{
    match query {
        Some(t) => {
            let r = crate::text::trim_str(t.as_str());
            if r.as_str().is_empty() {
                None
            } else {
                Some(r)
            }
        },
        None => None,
    }
}

/// The awesome-skills.com endpoints tried, in order: with a non-blank
/// query, its two search endpoints first (spaces encoded as `%20`); then the
/// full listings.
pub fn awesome_skills_endpoints(query: Option<&str>) -> (e: Vec<String>)
    ensures
        views(e@) == (match query {
            Some(q) => if trim(q@).len() > 0 {
                seq![
                    "https://awesome-skills.com/api/skills?q="@ + replace_all(q@, " "@, "%20"@),
                    "https://awesome-skills.com/api/search?q="@ + replace_all(q@, " "@, "%20"@),
                ]
            } else {
                Seq::empty()
            },
            None => Seq::empty(),
        }) + seq![
            "https://awesome-skills.com/api/skills"@,
            "https://awesome-skills.com/skills.json"@,
            "https://awesome-skills.com/api/search"@,
        ],
{
    let mut e: Vec<String> = Vec::new();
    match query {
        Some(q) => {
            let t = crate::text::trim_str(q);
            if !t.as_str().is_empty() {
                proof {
                    reveal_strlit(" ");
                }
                let encoded = replace_str(q, " ", "%20");
                let mut a = String::new();
                crate::text::push_str(&mut a, "https://awesome-skills.com/api/skills?q=");
                crate::text::push_str(&mut a, encoded.as_str());
                let mut b = String::new();
                crate::text::push_str(&mut b, "https://awesome-skills.com/api/search?q=");
                crate::text::push_str(&mut b, encoded.as_str());
                e.push(a);
                e.push(b);
            }
        },
        None => {},
    }
    let ghost head = views(e@);
    e.push("https://awesome-skills.com/api/skills".to_owned());
    e.push("https://awesome-skills.com/skills.json".to_owned());
    e.push("https://awesome-skills.com/api/search".to_owned());
    assert(views(e@) =~= head + seq![
        "https://awesome-skills.com/api/skills"@,
        "https://awesome-skills.com/skills.json"@,
        "https://awesome-skills.com/api/search"@,
    ]);
    e
}

/// `a` sorts before `b` (`String` order: by code point, a proper prefix first).
pub open spec fn name_lt(a: Seq<char>, b: Seq<char>) -> bool
    decreases a.len(),
{
    if a.len() == 0 {
        b.len() > 0
    } else if b.len() == 0 {
        false
    } else if a[0] == b[0] {
        name_lt(a.drop_first(), b.drop_first())
    } else {
        (a[0] as u32) < (b[0] as u32)
    }
}

/// `a` ranks strictly before `b`: a lower score, or the same score and an
/// earlier name.
pub open spec fn ranked_before(a: (nat, SkillView), b: (nat, SkillView)) -> bool {
    a.0 < b.0 || (a.0 == b.0 && name_lt(a.1.name, b.1.name))
}

/// Where `x` goes in `s`: before the first element it ranks before.
pub open spec fn insert_pos(s: Seq<(nat, SkillView)>, x: (nat, SkillView), i: int) -> int
    decreases s.len() - i,
{
    if i < 0 || i >= s.len() {
        s.len() as int
    } else if ranked_before(x, s[i]) {
        i
    } else {
        insert_pos(s, x, i + 1)
    }
}

/// `s` sorted by rank, stably: each element in turn is placed after every
/// element it does not rank before.
pub open spec fn sort_ranked(s: Seq<(nat, SkillView)>) -> Seq<(nat, SkillView)>
    decreases s.len(),
{
    if s.len() == 0 {
        Seq::empty()
    } else {
        let sorted = sort_ranked(s.drop_last());
        sorted.insert(insert_pos(sorted, s.last(), 0), s.last())
    }
}

/// `s` without later skills whose URL already appeared.
pub open spec fn dedup_by_url(s: Seq<SkillView>) -> Seq<SkillView>
    decreases s.len(),
{
    if s.len() == 0 {
        Seq::empty()
    } else {
        let d = dedup_by_url(s.drop_last());
        if Seq::new(d.len(), |k: int| d[k].url).contains(s.last().url) {
            d
        } else {
            d.push(s.last())
        }
    }
}

/// The skills that match `query`, with their scores, in listing order.
pub open spec fn scored_skills(s: Seq<SkillView>, query: Seq<char>) -> Seq<(nat, SkillView)>
    decreases s.len(),
{
    if s.len() == 0 {
        Seq::empty()
    } else {
        let rest = scored_skills(s.drop_last(), query);
        match fuzzy_rank(s.last(), query) {
            Some(n) => rest.push((n, s.last())),
            None => rest,
        }
    }
}

/// The search results: skills listed once per URL, and with a query, only
/// those that match it, best first (lower score, then name), at most fifty.
pub open spec fn search_results(s: Seq<SkillView>, query: Option<Seq<char>>) -> Seq<SkillView> {
    let d = dedup_by_url(s);
    match query {
        None => d,
        Some(q) => {
            let ranked = sort_ranked(scored_skills(d, q));
            let n = if ranked.len() > 50 { 50 } else { ranked.len() as int };
            Seq::new(n as nat, |k: int| ranked[k].1)
        },
    }
}

/// Name order is irreflexive and asymmetric.
pub proof fn lemma_name_lt_asymmetric(a: Seq<char>, b: Seq<char>)
    ensures
        !(name_lt(a, b) && name_lt(b, a)),
        !name_lt(a, a),
    decreases a.len(),
{
    if a.len() > 0 {
        lemma_name_lt_asymmetric(a.drop_first(), a.drop_first());
        if b.len() > 0 && a[0] == b[0] {
            lemma_name_lt_asymmetric(a.drop_first(), b.drop_first());
        }
    }
}

/// Name order is transitive.
pub proof fn lemma_name_lt_transitive(a: Seq<char>, b: Seq<char>, c: Seq<char>)
    requires
        name_lt(a, b),
        name_lt(b, c),
    ensures
        name_lt(a, c),
    decreases a.len(),
{
    if a.len() > 0 && a[0] == b[0] && b[0] == c[0] {
        lemma_name_lt_transitive(a.drop_first(), b.drop_first(), c.drop_first());
    }
}

/// Rank order is a strict order: irreflexive, asymmetric and transitive.
pub proof fn lemma_ranked_before_strict(
    a: (nat, SkillView),
    b: (nat, SkillView),
    c: (nat, SkillView),
)
    ensures
        !ranked_before(a, a),
        !(ranked_before(a, b) && ranked_before(b, a)),
        ranked_before(a, b) && ranked_before(b, c) ==> ranked_before(a, c),
{
    lemma_name_lt_asymmetric(a.1.name, b.1.name);
    if ranked_before(a, b) && ranked_before(b, c) && a.0 == b.0 && b.0 == c.0 {
        lemma_name_lt_transitive(a.1.name, b.1.name, c.1.name);
    }
}

/// No element of `s` ranks before an earlier one.
pub open spec fn rank_sorted(s: Seq<(nat, SkillView)>) -> bool {
    forall|i: int, j: int| 0 <= i < j < s.len() ==> !ranked_before(#[trigger] s[j], #[trigger] s[i])
}

/// Where `insert_pos` puts `x`: after the elements from `i` on that `x`
/// does not rank before, and before one that it does.
proof fn lemma_insert_pos(s: Seq<(nat, SkillView)>, x: (nat, SkillView), i: int)
    requires
        0 <= i <= s.len(),
    ensures
        i <= insert_pos(s, x, i) <= s.len(),
        forall|k: int| i <= k < insert_pos(s, x, i) ==> !ranked_before(x, #[trigger] s[k]),
        insert_pos(s, x, i) < s.len() ==> ranked_before(x, s[insert_pos(s, x, i)]),
    decreases s.len() - i,
{
    if i < s.len() && !ranked_before(x, s[i]) {
        lemma_insert_pos(s, x, i + 1);
    }
}

/// Placing `x` where `insert_pos` says keeps a sorted sequence sorted.
proof fn lemma_insert_keeps_sorted(s: Seq<(nat, SkillView)>, x: (nat, SkillView))
    requires
        rank_sorted(s),
    ensures
        rank_sorted(s.insert(insert_pos(s, x, 0), x)),
{
    lemma_insert_pos(s, x, 0);
    let p = insert_pos(s, x, 0);
    let t = s.insert(p, x);
    assert forall|i: int, j: int| 0 <= i < j < t.len() implies !ranked_before(
        #[trigger] t[j],
        #[trigger] t[i],
    ) by {
        if j < p {
            assert(t[i] == s[i] && t[j] == s[j]);
        } else if j == p {
            assert(t[i] == s[i] && t[j] == x);
        } else if i > p {
            assert(t[i] == s[i - 1] && t[j] == s[j - 1]);
        } else if i == p {
            assert(t[j] == s[j - 1] && t[i] == x);
            if j - 1 > p {
                assert(!ranked_before(s[j - 1], s[p]));
            }
            lemma_ranked_before_strict(x, s[p], s[j - 1]);
            lemma_ranked_before_strict(s[j - 1], x, s[p]);
        } else {
            assert(t[i] == s[i] && t[j] == s[j - 1]);
        }
    }
}

/// Ranking sorts: the result is in rank order and holds exactly the
/// elements of `s`, each as often as in `s`.
pub proof fn lemma_sort_ranked_sorts(s: Seq<(nat, SkillView)>)
    ensures
        rank_sorted(sort_ranked(s)),
        sort_ranked(s).to_multiset() == s.to_multiset(),
        sort_ranked(s).len() == s.len(),
    decreases s.len(),
{
    broadcast use vstd::seq_lib::group_to_multiset_ensures;
    broadcast use vstd::multiset::group_multiset_axioms;

    if s.len() == 0 {
        assert(sort_ranked(s) =~= s);
    } else {
        let rest = s.drop_last();
        let x = s.last();
        lemma_sort_ranked_sorts(rest);
        let sorted = sort_ranked(rest);
        lemma_insert_pos(sorted, x, 0);
        let p = insert_pos(sorted, x, 0);
        let t = sorted.insert(p, x);
        lemma_insert_keeps_sorted(sorted, x);
        assert(t.remove(p) =~= sorted);
        assert(t[p] == x);
        assert(rest.push(x) =~= s);
        assert(t.to_multiset().remove(x) == sorted.to_multiset());
        assert(t.to_multiset().count(x) > 0) by {
            assert(t.contains(x));
        }
        assert(t.to_multiset() =~= s.to_multiset());
    }
}

/// Listing each URL once: no two results share a URL, every result was
/// listed, and every listed URL is among the results.
#[verifier::spinoff_prover]
#[verifier::rlimit(40)]
pub proof fn lemma_dedup_by_url(s: Seq<SkillView>)
    ensures
        forall|i: int, j: int|
            0 <= i < j < dedup_by_url(s).len() ==> (#[trigger] dedup_by_url(s)[i]).url
                != (#[trigger] dedup_by_url(s)[j]).url,
        forall|i: int| 0 <= i < dedup_by_url(s).len() ==> s.contains(#[trigger] dedup_by_url(s)[i]),
        forall|i: int|
            0 <= i < s.len() ==> exists|j: int|
                0 <= j < dedup_by_url(s).len() && (#[trigger] dedup_by_url(s)[j]).url == (
                #[trigger] s[i]).url,
    decreases s.len(),
{
    if s.len() > 0 {
        let rest = s.drop_last();
        lemma_dedup_by_url(rest);
        let d = dedup_by_url(rest);
        let urls = Seq::new(d.len(), |k: int| d[k].url);
        assert forall|i: int| 0 <= i < dedup_by_url(s).len() implies s.contains(
            #[trigger] dedup_by_url(s)[i],
        ) by {
            if i < d.len() {
                assert(rest.contains(d[i]));
                let k = choose|k: int| 0 <= k < rest.len() && rest[k] == d[i];
                assert(s[k] == d[i]);
            } else {
                assert(s[s.len() - 1] == s.last());
            }
        }
        assert forall|i: int| 0 <= i < s.len() implies exists|j: int|
            0 <= j < dedup_by_url(s).len() && (#[trigger] dedup_by_url(s)[j]).url == (
            #[trigger] s[i]).url by {
            if i < rest.len() {
                assert(s[i] == rest[i]);
                let j = choose|j: int| 0 <= j < d.len() && (#[trigger] d[j]).url == rest[i].url;
                assert(dedup_by_url(s)[j] == d[j]);
            } else if urls.contains(s.last().url) {
                let j = choose|j: int| 0 <= j < urls.len() && urls[j] == s.last().url;
                assert(dedup_by_url(s)[j] == d[j]);
            } else {
                assert(dedup_by_url(s)[d.len() as int] == s.last());
            }
        }
        if !urls.contains(s.last().url) {
            assert forall|i: int, j: int| 0 <= i < j < dedup_by_url(s).len() implies (
            #[trigger] dedup_by_url(s)[i]).url != (#[trigger] dedup_by_url(s)[j]).url by {
                if j == d.len() {
                    assert(urls[i] == d[i].url);
                }
            }
        }
    }
}

/// Of the skills sharing a URL, the first listed is the one kept.
pub proof fn lemma_dedup_keeps_first_listing(s: Seq<SkillView>, m: int)
    requires
        0 <= m < s.len(),
        forall|e: int| 0 <= e < m ==> (#[trigger] s[e]).url != s[m].url,
    ensures
        dedup_by_url(s).contains(s[m]),
    decreases s.len(),
{
    let rest = s.drop_last();
    let d = dedup_by_url(rest);
    if m < rest.len() {
        assert forall|e: int| 0 <= e < m implies (#[trigger] rest[e]).url != rest[m].url by {
            assert(rest[e] == s[e]);
        }
        lemma_dedup_keeps_first_listing(rest, m);
        let k = choose|k: int| 0 <= k < d.len() && d[k] == rest[m];
        assert(dedup_by_url(s)[k] == s[m]);
    } else {
        lemma_dedup_by_url(rest);
        let urls = Seq::new(d.len(), |k: int| d[k].url);
        if urls.contains(s.last().url) {
            let k = choose|k: int| 0 <= k < urls.len() && urls[k] == s.last().url;
            assert(rest.contains(d[k]));
            let e = choose|e: int| 0 <= e < rest.len() && rest[e] == d[k];
            assert(s[e] == rest[e]);
            assert(s[m] == s.last());
            assert(false);
        }
        assert(dedup_by_url(s)[d.len() as int] == s.last());
    }
}

/// Scoring keeps listed skills only, and keeps their URLs apart where the
/// listing did.
proof fn lemma_scored_skills(s: Seq<SkillView>, query: Seq<char>)
    ensures
        forall|k: int| 0 <= k < scored_skills(s, query).len() ==> s.contains(
            (#[trigger] scored_skills(s, query)[k]).1,
        ),
        (forall|i: int, j: int| 0 <= i < j < s.len() ==> (#[trigger] s[i]).url != (#[trigger] s[j]).url)
            ==> forall|i: int, j: int|
            0 <= i < j < scored_skills(s, query).len() ==> (#[trigger] scored_skills(s, query)[i]).1.url
                != (#[trigger] scored_skills(s, query)[j]).1.url,
        forall|k: int| 0 <= k < scored_skills(s, query).len() ==> fuzzy_rank(
            (#[trigger] scored_skills(s, query)[k]).1,
            query,
        ) == Some(scored_skills(s, query)[k].0),
        forall|m: int|
            0 <= m < s.len() && fuzzy_rank(#[trigger] s[m], query) is Some ==> scored_skills(s, query).contains(
                (fuzzy_rank(s[m], query).unwrap(), s[m]),
            ),
    decreases s.len(),
{
    if s.len() > 0 {
        let rest = s.drop_last();
        lemma_scored_skills(rest, query);
        let old_sc = scored_skills(rest, query);
        let sc = scored_skills(s, query);
        assert forall|k: int| 0 <= k < sc.len() implies fuzzy_rank((#[trigger] sc[k]).1, query) == Some(sc[k].0) by {
            if k < old_sc.len() {
                assert(sc[k] == old_sc[k]);
            }
        }
        assert forall|m: int| 0 <= m < s.len() && fuzzy_rank(#[trigger] s[m], query) is Some implies sc.contains(
            (fuzzy_rank(s[m], query).unwrap(), s[m]),
        ) by {
            if m < rest.len() {
                assert(rest[m] == s[m]);
                let e = (fuzzy_rank(s[m], query).unwrap(), s[m]);
                let k = choose|k: int| 0 <= k < old_sc.len() && old_sc[k] == e;
                assert(sc[k] == e);
            } else {
                assert(s[m] == s.last());
                assert(sc[sc.len() - 1] == (fuzzy_rank(s[m], query).unwrap(), s[m]));
            }
        }
        assert forall|k: int| 0 <= k < sc.len() implies s.contains((#[trigger] sc[k]).1) by {
            if k < old_sc.len() {
                assert(sc[k] == old_sc[k]);
                let m = choose|m: int| 0 <= m < rest.len() && rest[m] == old_sc[k].1;
                assert(s[m] == rest[m]);
            } else {
                assert(s[s.len() - 1] == s.last());
            }
        }
        if forall|i: int, j: int| 0 <= i < j < s.len() ==> (#[trigger] s[i]).url != (#[trigger] s[j]).url {
            assert forall|i: int, j: int| 0 <= i < j < rest.len() implies (#[trigger] rest[i]).url
                != (#[trigger] rest[j]).url by {
                assert(rest[i] == s[i] && rest[j] == s[j]);
            }
            assert forall|i: int, j: int| 0 <= i < j < sc.len() implies (#[trigger] sc[i]).1.url
                != (#[trigger] sc[j]).1.url by {
                if j >= old_sc.len() {
                    assert(sc[i] == old_sc[i]);
                    let m = choose|m: int| 0 <= m < rest.len() && rest[m] == old_sc[i].1;
                    assert(s[m] == rest[m]);
                    assert(s[s.len() - 1] == s.last());
                } else {
                    assert(sc[i] == old_sc[i] && sc[j] == old_sc[j]);
                }
            }
        }
    }
}

/// What a search returns: each result was listed, no two results share a
/// URL, and with a query there are at most fifty.
#[verifier::spinoff_prover]
#[verifier::rlimit(40)]
pub proof fn lemma_search_results_shape(s: Seq<SkillView>, query: Option<Seq<char>>)
    ensures
        forall|i: int| 0 <= i < search_results(s, query).len() ==> s.contains(
            #[trigger] search_results(s, query)[i],
        ),
        forall|i: int, j: int|
            0 <= i < j < search_results(s, query).len() ==> (#[trigger] search_results(
                s,
                query,
            )[i]).url != (#[trigger] search_results(s, query)[j]).url,
        query is Some ==> search_results(s, query).len() <= 50,
{
    lemma_dedup_by_url(s);
    let d = dedup_by_url(s);
    match query {
        None => {},
        Some(q) => {
            let sc = scored_skills(d, q);
            assert(forall|i: int, j: int| 0 <= i < j < d.len() ==> (#[trigger] d[i]).url != (#[trigger] d[j]).url);
            lemma_scored_skills(d, q);
            lemma_sort_ranked_sorts(sc);
            let ranked = sort_ranked(sc);
            let r = search_results(s, query);
            assert forall|i: int| 0 <= i < r.len() implies s.contains(#[trigger] r[i]) &&
                exists|k: int| 0 <= k < sc.len() && sc[k] == ranked[i] by {
                assert(ranked.to_multiset().count(ranked[i]) > 0) by {
                    broadcast use vstd::seq_lib::group_to_multiset_ensures;
                    assert(ranked.contains(ranked[i]));
                }
                assert(sc.contains(ranked[i])) by {
                    broadcast use vstd::seq_lib::group_to_multiset_ensures;
                }
                let k = choose|k: int| 0 <= k < sc.len() && sc[k] == ranked[i];
                let m = choose|m: int| 0 <= m < d.len() && d[m] == sc[k].1;
                assert(s.contains(d[m]));
            }
            assert(sc.no_duplicates()) by {
                assert forall|i: int, j: int| 0 <= i < sc.len() && 0 <= j < sc.len() && i != j implies sc[i]
                    != sc[j] by {
                    if i < j {
                        assert(sc[i].1.url != sc[j].1.url);
                    } else {
                        assert(sc[j].1.url != sc[i].1.url);
                    }
                }
            }
            sc.lemma_multiset_has_no_duplicates();
            ranked.lemma_multiset_has_no_duplicates_conv();
            assert forall|i: int, j: int| 0 <= i < j < r.len() implies (#[trigger] r[i]).url
                != (#[trigger] r[j]).url by {
                broadcast use vstd::seq_lib::group_to_multiset_ensures;
                assert(ranked.contains(ranked[i]) && ranked.contains(ranked[j]));
                assert(ranked.to_multiset().count(ranked[i]) > 0);
                assert(ranked.to_multiset().count(ranked[j]) > 0);
                assert(sc.to_multiset().count(ranked[i]) > 0);
                assert(sc.to_multiset().count(ranked[j]) > 0);
                assert(sc.contains(ranked[i]) && sc.contains(ranked[j]));
                let ki = choose|k: int| 0 <= k < sc.len() && sc[k] == ranked[i];
                let kj = choose|k: int| 0 <= k < sc.len() && sc[k] == ranked[j];
                if ki < kj {
                    assert(sc[ki].1.url != sc[kj].1.url);
                } else if kj < ki {
                    assert(sc[kj].1.url != sc[ki].1.url);
                }
            }
        },
    }
}

/// Search results come best first: every result matches the query, and a
/// result never has a higher fuzzy score than one after it.
pub proof fn lemma_search_results_best_first(s: Seq<SkillView>, q: Seq<char>)
    ensures
        forall|i: int|
            0 <= i < search_results(s, Some(q)).len() ==> fuzzy_rank(
                #[trigger] search_results(s, Some(q))[i],
                q,
            ) is Some,
        forall|i: int, j: int|
            0 <= i < j < search_results(s, Some(q)).len() ==> fuzzy_rank(
                #[trigger] search_results(s, Some(q))[i],
                q,
            ).unwrap() <= fuzzy_rank(#[trigger] search_results(s, Some(q))[j], q).unwrap(),
        forall|i: int, j: int|
            0 <= i < j < search_results(s, Some(q)).len() && fuzzy_rank(
                #[trigger] search_results(s, Some(q))[i],
                q,
            ) == fuzzy_rank(#[trigger] search_results(s, Some(q))[j], q) ==> !name_lt(
                search_results(s, Some(q))[j].name,
                search_results(s, Some(q))[i].name,
            ),
        forall|m: int|
            0 <= m < dedup_by_url(s).len() && fuzzy_rank(#[trigger] dedup_by_url(s)[m], q) is Some
                ==> search_results(s, Some(q)).contains(dedup_by_url(s)[m]) || search_results(
                s,
                Some(q),
            ).len() == 50,
{
    broadcast use vstd::seq_lib::group_to_multiset_ensures;

    let d = dedup_by_url(s);
    let sc = scored_skills(d, q);
    lemma_scored_skills(d, q);
    lemma_sort_ranked_sorts(sc);
    let ranked = sort_ranked(sc);
    let r = search_results(s, Some(q));
    assert forall|i: int| 0 <= i < ranked.len() implies fuzzy_rank((#[trigger] ranked[i]).1, q) == Some(
        ranked[i].0,
    ) by {
        assert(ranked.contains(ranked[i]));
        assert(ranked.to_multiset().count(ranked[i]) > 0);
        assert(sc.to_multiset().count(ranked[i]) > 0);
        assert(sc.contains(ranked[i]));
        let k = choose|k: int| 0 <= k < sc.len() && sc[k] == ranked[i];
        assert(fuzzy_rank(sc[k].1, q) == Some(sc[k].0));
    }
    assert forall|i: int| 0 <= i < r.len() implies fuzzy_rank(#[trigger] r[i], q) is Some by {
        assert(r[i] == ranked[i].1);
        assert(fuzzy_rank(ranked[i].1, q) == Some(ranked[i].0));
    }
    assert forall|i: int, j: int| 0 <= i < j < r.len() implies fuzzy_rank(#[trigger] r[i], q).unwrap()
        <= fuzzy_rank(#[trigger] r[j], q).unwrap() by {
        assert(r[i] == ranked[i].1 && r[j] == ranked[j].1);
        assert(fuzzy_rank(ranked[i].1, q) == Some(ranked[i].0));
        assert(fuzzy_rank(ranked[j].1, q) == Some(ranked[j].0));
        assert(!ranked_before(ranked[j], ranked[i]));
    }
    assert forall|i: int, j: int| 0 <= i < j < r.len() && fuzzy_rank(#[trigger] r[i], q) == fuzzy_rank(
        #[trigger] r[j],
        q,
    ) implies !name_lt(r[j].name, r[i].name) by {
        assert(r[i] == ranked[i].1 && r[j] == ranked[j].1);
        assert(fuzzy_rank(ranked[i].1, q) == Some(ranked[i].0));
        assert(fuzzy_rank(ranked[j].1, q) == Some(ranked[j].0));
        assert(!ranked_before(ranked[j], ranked[i]));
    }
    assert forall|m: int| 0 <= m < d.len() && fuzzy_rank(#[trigger] d[m], q) is Some implies r.contains(d[m])
        || r.len() == 50 by {
        let e = (fuzzy_rank(d[m], q).unwrap(), d[m]);
        assert(sc.contains(e));
        assert(sc.to_multiset().count(e) > 0);
        assert(ranked.to_multiset().count(e) > 0);
        assert(ranked.contains(e));
        let p = choose|p: int| 0 <= p < ranked.len() && ranked[p] == e;
        if ranked.len() <= 50 {
            assert(r[p] == d[m]);
        }
    }
}

/// Whether `a` sorts before `b`.
fn name_less(a: &str, b: &str) -> (r: bool)
    ensures
        r == name_lt(a@, b@),
{
    let av = chars_of(a);
    let bv = chars_of(b);
    let mut i: usize = 0;
    assert(av@.skip(0) =~= av@);
    assert(bv@.skip(0) =~= bv@);
    while i < av.len() && i < bv.len() && av[i] == bv[i]
        invariant
            i <= av.len() && i <= bv.len(),
            name_lt(a@, b@) == name_lt(av@.skip(i as int), bv@.skip(i as int)),
            av@ == a@ && bv@ == b@,
        decreases av.len() - i,
    {
        assert(av@.skip(i as int).drop_first() =~= av@.skip(i + 1));
        assert(bv@.skip(i as int).drop_first() =~= bv@.skip(i + 1));
        i += 1;
    }
    if i == av.len() {
        i < bv.len()
    } else if i == bv.len() {
        false
    } else {
        (av[i] as u32) < (bv[i] as u32)
    }
}

/// The views of scored skills.
pub open spec fn scored_views(v: Seq<(usize, AwesomeSkill)>) -> Seq<(nat, SkillView)> {
    Seq::new(v.len(), |k: int| (v[k].0 as nat, v[k].1@))
}

/// The search results for `query` among `skills` (see `search_results`);
/// `query` is the text from `search_query`.
pub fn rank_search_results(skills: Vec<AwesomeSkill>, query: Option<&str>) -> (r: Vec<AwesomeSkill>)
    requires
        query matches Some(q) ==> q@.len() + 2 < usize::MAX,
        forall|k: int| 0 <= k < skills@.len() ==> skill_haystack(#[trigger] skills@[k]@).len() + 1 < usize::MAX,
    ensures
        skill_views(r@) == search_results(
            skill_views(skills@),
            match query {
                Some(q) => Some(q@),
                None => None,
            },
        ),
        query matches Some(q) ==> forall|i: int|
            0 <= i < r@.len() ==> fuzzy_rank(#[trigger] r@[i]@, q@) is Some,
        query matches Some(q) ==> forall|i: int, j: int|
            0 <= i < j < r@.len() ==> fuzzy_rank(#[trigger] r@[i]@, q@).unwrap() <= fuzzy_rank(
                #[trigger] r@[j]@,
                q@,
            ).unwrap(),
{
    let ghost all = skill_views(skills@);
    assert(all.len() == skills.len());
    assert(all.take(0) =~= Seq::<SkillView>::empty());
    assert(all.skip(0) =~= all);
    let mut seen: Vec<String> = Vec::new();
    let mut unique: Vec<AwesomeSkill> = Vec::new();
    let mut rest = skills;
    let mut n: usize = 0;
    while rest.len() > 0
        invariant
            n <= all.len() <= usize::MAX,
            skill_views(rest@) == all.skip(n as int),
            skill_views(unique@) == dedup_by_url(all.take(n as int)),
            views(seen@) == Seq::new(unique@.len(), |k: int| unique@[k].url@),
            forall|k: int| 0 <= k < all.len() ==> skill_haystack(#[trigger] all[k]).len() + 1 < usize::MAX,
            forall|k: int| 0 <= k < unique@.len() ==> skill_haystack(#[trigger] unique@[k]@).len() + 1 < usize::MAX,
        decreases rest.len(),
    {
        let ghost old_rest = rest@;
        assert(skill_views(old_rest).len() == old_rest.len());
        assert(skill_views(old_rest)[0] == old_rest[0]@);
        let sk = rest.remove(0);
        assert(sk@ == all[n as int]);
        assert(all.take(n + 1).drop_last() =~= all.take(n as int));
        let ghost d = skill_views(unique@);
        assert(Seq::new(d.len(), |k: int| d[k].url) =~= views(seen@));
        if !holds_string(&seen, sk.url.as_str()) {
            let ghost u = sk.url@;
            let ghost prev_seen = seen@;
            seen.push(sk.url.clone());
            assert(views(seen@) =~= views(prev_seen).push(u));
            let ghost prev = unique@;
            unique.push(sk);
            assert(skill_views(unique@) =~= skill_views(prev).push(all[n as int]));
            assert(unique@.last().url@ == u);
            assert(views(seen@) =~= Seq::new(unique@.len(), |k: int| unique@[k].url@));
        }
        assert forall|k: int| 0 <= k < rest@.len() implies #[trigger] skill_views(rest@)[k] == all.skip(n + 1)[k] by {
            assert(rest@[k] == old_rest[k + 1]);
            assert(skill_views(old_rest)[k + 1] == all.skip(n as int)[k + 1]);
        }
        assert(skill_views(rest@) =~= all.skip(n + 1));
        n += 1;
    }
    assert(all.take(n as int) =~= all);
    let q = match query {
        Some(q) => q,
        None => return unique,
    };
    let ghost d = skill_views(unique@);
    let mut sorted: Vec<(usize, AwesomeSkill)> = Vec::new();
    let mut rest = unique;
    let mut m: usize = 0;
    assert(d.take(0) =~= Seq::<SkillView>::empty());
    assert(d.skip(0) =~= d);
    assert(d.len() == rest.len());
    while rest.len() > 0
        invariant
            m <= d.len() <= usize::MAX,
            q@.len() + 2 < usize::MAX,
            skill_views(rest@) == d.skip(m as int),
            forall|k: int| 0 <= k < d.len() ==> skill_haystack(#[trigger] d[k]).len() + 1 < usize::MAX,
            scored_views(sorted@) == sort_ranked(scored_skills(d.take(m as int), q@)),
        decreases rest.len(),
    {
        let ghost old_rest = rest@;
        assert(skill_views(old_rest).len() == old_rest.len());
        assert(skill_views(old_rest)[0] == old_rest[0]@);
        let sk = rest.remove(0);
        assert(sk@ == d[m as int]);
        assert(d.take(m + 1).drop_last() =~= d.take(m as int));
        match fuzzy_score(&sk, q) {
            Some(score) => {
                let ghost x = (score as nat, sk@);
                let ghost before = scored_views(sorted@);
                let mut pos: usize = 0;
                loop
                    invariant
                        pos <= sorted@.len(),
                        x == (score as nat, sk@),
                        before == scored_views(sorted@),
                        insert_pos(before, x, 0) == insert_pos(before, x, pos as int),
                    ensures
                        pos <= sorted@.len(),
                        before == scored_views(sorted@),
                        insert_pos(before, x, 0) == pos as int,
                    decreases sorted.len() - pos,
                {
                    if pos >= sorted.len() {
                        break;
                    }
                    let entry = &sorted[pos];
                    assert(before[pos as int] == (entry.0 as nat, entry.1@));
                    let first = score < entry.0 || (score == entry.0 && name_less(
                        sk.name.as_str(),
                        entry.1.name.as_str(),
                    ));
                    if first {
                        assert(ranked_before(x, before[pos as int]));
                        break;
                    }
                    pos += 1;
                }
                proof {
                    if pos < sorted@.len() {
                        assert(before[pos as int] == (sorted@[pos as int].0 as nat, sorted@[pos as int].1@));
                    }
                }
                sorted.insert(pos, (score, sk));
                assert(scored_views(sorted@) =~= before.insert(pos as int, x));
                proof {
                    let sc = scored_skills(d.take(m as int), q@);
                    assert(scored_skills(d.take(m + 1), q@) == sc.push(x));
                    assert(sc.push(x).drop_last() =~= sc);
                }
            },
            None => {
                assert(scored_skills(d.take(m + 1), q@) == scored_skills(d.take(m as int), q@));
            },
        }
        assert forall|k: int| 0 <= k < rest@.len() implies #[trigger] skill_views(rest@)[k] == d.skip(m + 1)[k] by {
            assert(rest@[k] == old_rest[k + 1]);
            assert(skill_views(old_rest)[k + 1] == d.skip(m as int)[k + 1]);
        }
        assert(skill_views(rest@) =~= d.skip(m + 1));
        m += 1;
    }
    assert(d.take(m as int) =~= d);
    let ghost ranked = scored_views(sorted@);
    assert(ranked.skip(0) =~= ranked);
    let limit: usize = if sorted.len() > 50 { 50 } else { sorted.len() };
    let mut out: Vec<AwesomeSkill> = Vec::new();
    let mut rest = sorted;
    let mut k: usize = 0;
    while k < limit
        invariant
            k <= limit <= ranked.len(),
            scored_views(rest@) == ranked.skip(k as int),
            skill_views(out@) == Seq::new(k as nat, |j: int| ranked[j].1),
        decreases limit - k,
    {
        let ghost old_rest = rest@;
        assert(scored_views(old_rest).len() == old_rest.len());
        assert(scored_views(old_rest)[0] == (old_rest[0].0 as nat, old_rest[0].1@));
        let (_, sk) = rest.remove(0);
        let ghost prev = out@;
        out.push(sk);
        assert(skill_views(out@) =~= skill_views(prev).push(ranked[k as int].1));
        assert forall|j: int| 0 <= j < rest@.len() implies #[trigger] scored_views(rest@)[j] == ranked.skip(k + 1)[j] by {
            assert(rest@[j] == old_rest[j + 1]);
            assert(scored_views(old_rest)[j + 1] == ranked.skip(k as int)[j + 1]);
        }
        assert(scored_views(rest@) =~= ranked.skip(k + 1));
        k += 1;
    }
    assert(skill_views(out@) =~= search_results(all, Some(q@)));
    proof {
        lemma_search_results_best_first(all, q@);
        let rv = search_results(all, Some(q@));
        assert forall|i: int| 0 <= i < out@.len() implies #[trigger] out@[i]@ == rv[i] by {
            assert(skill_views(out@)[i] == out@[i]@);
        }
    }
    out
}

} // verus!
