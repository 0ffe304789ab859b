//! Remote URLs: the normal form under which remotes share a cache entry.

use vstd::prelude::*;
use crate::digest::{fingerprint, fingerprint_of};
use crate::ssh::texts;
use crate::text::{
    starts_with, starts_with_chars, trimmed_chars, lines, trim_bounds, split_lines, text_of_range,
    chars_of, concat_chars, contains_char, contains_text, ends_with, ends_with_chars, find,
    find_char, find_chars, lemma_find, lowercase, lowercase_text, sub_chars, text_of, trim,
    trim_text, all_space, lemma_trim_padded, matches_at, no_ascii_upper, lemma_contains_char,
};

verus! {

broadcast use vstd::string::group_string_axioms;

/// `s` after the first `://`, or all of `s` when it has none.
pub open spec fn strip_scheme(s: Seq<char>) -> Seq<char> {
    match find(s, seq![':', '/', '/']) {
        Some(i) => s.skip(i + 3),
        None => s,
    }
}

/// `s` after its first `@`, unless a `/` comes before that `@`.
pub open spec fn strip_user(s: Seq<char>) -> Seq<char> {
    match find(s, seq!['@']) {
        Some(i) => if contains_text(s.take(i), seq!['/']) {
            s
        } else {
            s.skip(i + 1)
        },
        None => s,
    }
}

/// The `:port/` pattern of a port number.
pub open spec fn port_pattern(port: Seq<char>) -> Seq<char> {
    seq![':'] + port + seq!['/']
}

/// `s` with its first `:port/` turned into `/`, when no `/` comes before it.
pub open spec fn strip_port(s: Seq<char>, pat: Seq<char>) -> Option<Seq<char>> {
    match find(s, pat) {
        Some(i) => if contains_text(s.take(i), seq!['/']) {
            None
        } else {
            Some(s.take(i) + seq!['/'] + s.skip(i + pat.len()))
        },
        None => None,
    }
}

/// `s` with the first standard port (22, then 443, then 9418) that applies removed.
pub open spec fn strip_standard_port(s: Seq<char>) -> Seq<char> {
    match strip_port(s, port_pattern(seq!['2', '2'])) {
        Some(t) => t,
        None => match strip_port(s, port_pattern(seq!['4', '4', '3'])) {
            Some(t) => t,
            None => match strip_port(s, port_pattern(seq!['9', '4', '1', '8'])) {
                Some(t) => t,
                None => s,
            },
        },
    }
}

/// `s` without one trailing `/`.
pub open spec fn strip_trailing_slash(s: Seq<char>) -> Seq<char> {
    if ends_with(s, seq!['/']) {
        s.drop_last()
    } else {
        s
    }
}

/// `s` without a trailing `.git`.
pub open spec fn strip_git_suffix(s: Seq<char>) -> Seq<char> {
    if ends_with(s, seq!['.', 'g', 'i', 't']) {
        s.take(s.len() - 4)
    } else {
        s
    }
}

/// `s` with every `:` replaced by `/`.
pub open spec fn colons_to_slashes(s: Seq<char>) -> Seq<char> {
    s.map_values(|c: char| if c == ':' { '/' } else { c })
}

/// The normal form of an already trimmed and lower-cased remote URL.
pub open spec fn normal_form(s: Seq<char>) -> Seq<char> {
    colons_to_slashes(
        strip_git_suffix(strip_trailing_slash(strip_standard_port(strip_user(strip_scheme(s))))),
    )
}

/// The normal form of a remote URL as written.
pub open spec fn normalized_remote(url: Seq<char>) -> Seq<char> {
    normal_form(lowercase_text(trim(url)))
}

fn strip_scheme_exec(s: Vec<char>) -> (res: Vec<char>)
    ensures
        res@ == strip_scheme(s@),
{
    let sep = chars_of("://");
    proof {
        reveal_strlit("://");
    }
    assert(sep@ =~= seq![':', '/', '/']);
    match find_chars(&s, &sep) {
        Some(i) => {
            proof { lemma_find(s@, sep@); }
            assert(i + 3 <= s.len());
            let r = sub_chars(&s, i + 3, s.len());
            assert(r@ =~= s@.skip(i + 3));
            r
        },
        None => s,
    }
}

fn strip_user_exec(s: Vec<char>) -> (res: Vec<char>)
    ensures
        res@ == strip_user(s@),
{
    match find_char(&s, '@') {
        Some(i) => {
            proof { lemma_find(s@, seq!['@']); }
            assert(i + 1 <= s.len());
            let head = sub_chars(&s, 0, i);
            assert(head@ =~= s@.take(i as int));
            if contains_char(&head, '/') {
                s
            } else {
                let r = sub_chars(&s, i + 1, s.len());
                assert(r@ =~= s@.skip(i + 1));
                r
            }
        },
        None => s,
    }
}

fn strip_port_exec(s: &Vec<char>, pat: &Vec<char>) -> (res: Option<Vec<char>>)
    ensures
        res matches Some(t) ==> strip_port(s@, pat@) == Some(t@),
        res is None ==> strip_port(s@, pat@) is None,
{
    match find_chars(s, pat) {
        Some(i) => {
            proof { lemma_find(s@, pat@); }
            assert(i + pat.len() <= s.len());
            let head = sub_chars(s, 0, i);
            assert(head@ =~= s@.take(i as int));
            if contains_char(&head, '/') {
                None
            } else {
                let mut mid = head;
                mid.push('/');
                let tail = sub_chars(s, i + pat.len(), s.len());
                let r = concat_chars(&mid, &tail);
                assert(r@ =~= s@.take(i as int) + seq!['/'] + s@.skip(i + pat@.len()));
                Some(r)
            }
        },
        None => None,
    }
}

fn strip_standard_port_exec(s: Vec<char>) -> (res: Vec<char>)
    ensures
        res@ == strip_standard_port(s@),
{
    let p22 = chars_of(":22/");
    let p443 = chars_of(":443/");
    let p9418 = chars_of(":9418/");
    proof {
        reveal_strlit(":22/");
        reveal_strlit(":443/");
        reveal_strlit(":9418/");
    }
    assert(p22@ =~= port_pattern(seq!['2', '2']));
    assert(p443@ =~= port_pattern(seq!['4', '4', '3']));
    assert(p9418@ =~= port_pattern(seq!['9', '4', '1', '8']));
    match strip_port_exec(&s, &p22) {
        Some(t) => t,
        None => match strip_port_exec(&s, &p443) {
            Some(t) => t,
            None => match strip_port_exec(&s, &p9418) {
                Some(t) => t,
                None => s,
            },
        },
    }
}

fn strip_suffixes_exec(s: Vec<char>) -> (res: Vec<char>)
    ensures
        res@ == strip_git_suffix(strip_trailing_slash(s@)),
{
    let mut t = s;
    if t.len() > 0 && t[t.len() - 1] == '/' {
        assert(s@.skip(s@.len() - 1) =~= seq!['/']);
        t.pop();
    } else if t.len() > 0 {
        assert(s@.skip(s@.len() - 1)[0] != '/');
    }
    assert(t@ == strip_trailing_slash(s@));
    let git = chars_of(".git");
    proof {
        reveal_strlit(".git");
    }
    assert(git@ =~= seq!['.', 'g', 'i', 't']);
    if ends_with_chars(&t, &git) {
        let n = t.len();
        let r = sub_chars(&t, 0, n - 4);
        assert(r@ =~= t@.take(n - 4));
        r
    } else {
        t
    }
}

fn colons_to_slashes_exec(s: &Vec<char>) -> (res: Vec<char>)
    ensures
        res@ == colons_to_slashes(s@),
{
    let mut res: Vec<char> = Vec::new();
    let mut i: usize = 0;
    while i < s.len()
        invariant
            i <= s.len(),
            res@ == colons_to_slashes(s@.take(i as int)),
        decreases s.len() - i,
    {
        let c = s[i];
        res.push(if c == ':' { '/' } else { c });
        assert(colons_to_slashes(s@.take(i + 1)) =~= colons_to_slashes(s@.take(i as int)).push(
            if c == ':' { '/' } else { c },
        ));
        i = i + 1;
    }
    assert(s@.take(s.len() as int) =~= s@);
    res
}

/// The normal form of a remote URL that is already trimmed and lower-cased.
pub fn normalize_lowered_url(lowered: &str) -> (res: String)
    ensures
        res@ == normal_form(lowered@),
{
    let s = chars_of(lowered);
    let s = strip_scheme_exec(s);
    let s = strip_user_exec(s);
    let s = strip_standard_port_exec(s);
    let s = strip_suffixes_exec(s);
    let s = colons_to_slashes_exec(&s);
    text_of(&s)
}

/// The normal form of a remote URL: trimmed, lower-cased, without scheme, user,
/// standard port, trailing `/` or `.git`, and with `/` in place of every `:`.
/// Remotes with the same normal form share one cache entry.
pub fn normalize_remote_url(url: &str) -> (res: String)
    ensures
        res@ == normalized_remote(url@),
{
    let trimmed = trim_text(url);
    let lowered = lowercase(trimmed.as_str());
    normalize_lowered_url(lowered.as_str())
}

// ---------------------------------------------------------------------------
// The cache entry of a remote
// ---------------------------------------------------------------------------

/// The name of the cache entry for a remote: the fingerprint of its normal form.
pub open spec fn cache_key_of(remote: Seq<char>) -> Seq<char> {
    fingerprint_of(normalized_remote(remote))
}

/// The name of the cache entry that remembers the working key for `remote`.
pub fn cache_key_for_remote(remote: &str) -> (res: String)
    ensures
        res@ == cache_key_of(remote@),
{
    let normal = normalize_remote_url(remote);
    fingerprint(normal.as_str())
}

/// Remotes written differently but with the same normal form share one cache entry.
pub proof fn lemma_cache_key_shared(a: Seq<char>, b: Seq<char>)
    requires
        normalized_remote(a) == normalized_remote(b),
    ensures
        cache_key_of(a) == cache_key_of(b),
{
}

/// A normal form never holds a `:`.
pub proof fn lemma_normal_form_has_no_colon(s: Seq<char>)
    ensures
        forall|i: int| 0 <= i < normal_form(s).len() ==> #[trigger] normal_form(s)[i] != ':',
{
}

proof fn lemma_strip_port_keeps_lower_case(s: Seq<char>, pat: Seq<char>)
    requires
        no_ascii_upper(s),
    ensures
        strip_port(s, pat) matches Some(t) ==> no_ascii_upper(t),
{
    lemma_find(s, pat);
    if let Some(i) = find(s, pat) {
        let t = s.take(i) + seq!['/'] + s.skip(i + pat.len());
        assert forall|j: int| 0 <= j < t.len() implies !('A' <= #[trigger] t[j] && t[j] <= 'Z') by {
            if j < i {
                assert(t[j] == s[j]);
            } else if j > i {
                assert(t[j] == s[j - 1 + pat.len()]);
            }
        }
    }
}

/// Normalizing brings in no capital letter: the normal form of a text without
/// ASCII capitals has none either. So `normalize_remote_url` gives a result
/// without ASCII capitals whenever lower-casing the trimmed URL leaves none.
pub proof fn lemma_normal_form_keeps_lower_case(s: Seq<char>)
    requires
        no_ascii_upper(s),
    ensures
        no_ascii_upper(normal_form(s)),
{
    lemma_find(s, seq![':', '/', '/']);
    let s1 = strip_scheme(s);
    assert(no_ascii_upper(s1)) by {
        if let Some(i) = find(s, seq![':', '/', '/']) {
            assert forall|j: int| 0 <= j < s1.len() implies !('A' <= #[trigger] s1[j] && s1[j] <= 'Z') by {
                assert(s1[j] == s[j + i + 3]);
            }
        }
    }
    lemma_find(s1, seq!['@']);
    let s2 = strip_user(s1);
    assert(no_ascii_upper(s2)) by {
        if let Some(i) = find(s1, seq!['@']) {
            if !contains_text(s1.take(i), seq!['/']) {
                assert forall|j: int| 0 <= j < s2.len() implies !('A' <= #[trigger] s2[j] && s2[j] <= 'Z') by {
                    assert(s2[j] == s1[j + i + 1]);
                }
            }
        }
    }
    lemma_strip_port_keeps_lower_case(s2, port_pattern(seq!['2', '2']));
    lemma_strip_port_keeps_lower_case(s2, port_pattern(seq!['4', '4', '3']));
    lemma_strip_port_keeps_lower_case(s2, port_pattern(seq!['9', '4', '1', '8']));
    let s3 = strip_standard_port(s2);
    let s4 = strip_trailing_slash(s3);
    assert(no_ascii_upper(s4)) by {
        assert forall|j: int| 0 <= j < s4.len() implies !('A' <= #[trigger] s4[j] && s4[j] <= 'Z') by {
            assert(s4[j] == s3[j]);
        }
    }
    let s5 = strip_git_suffix(s4);
    assert(no_ascii_upper(s5)) by {
        assert forall|j: int| 0 <= j < s5.len() implies !('A' <= #[trigger] s5[j] && s5[j] <= 'Z') by {
            assert(s5[j] == s4[j]);
        }
    }
    let r = colons_to_slashes(s5);
    assert forall|j: int| 0 <= j < r.len() implies !('A' <= #[trigger] r[j] && r[j] <= 'Z') by {
        assert(r[j] == if s5[j] == ':' { '/' } else { s5[j] });
    }
}

/// White space around a remote URL does not change its normal form.
pub proof fn lemma_normalized_remote_padded(a: Seq<char>, url: Seq<char>, b: Seq<char>)
    requires
        all_space(a),
        all_space(b),
    ensures
        normalized_remote(a + url + b) == normalized_remote(url),
{
    lemma_trim_padded(a, url, b);
}

// ---------------------------------------------------------------------------
// The usual ways of writing one remote
// ---------------------------------------------------------------------------

/// `s` does not hold `c`.
pub open spec fn free_of(s: Seq<char>, c: char) -> bool {
    forall|i: int| 0 <= i < s.len() ==> #[trigger] s[i] != c
}

/// A character of a plain host name: `a`-`z`, `0`-`9`, `.` or `-`.
pub open spec fn is_host_char(c: char) -> bool {
    ('a' <= c && c <= 'z') || ('0' <= c && c <= '9') || c == '.' || c == '-'
}

/// A plain host name: one or more host characters.
pub open spec fn is_plain_host(h: Seq<char>) -> bool {
    h.len() > 0 && forall|i: int| 0 <= i < h.len() ==> is_host_char(#[trigger] h[i])
}

/// A plain repository path: host characters and `/`, neither starting nor
/// ending with `/`, not ending in `.git`, and not starting with `22/`, `443/`
/// or `9418/`.
pub open spec fn is_plain_repo_path(p: Seq<char>) -> bool {
    &&& p.len() > 0
    &&& forall|i: int| 0 <= i < p.len() ==> is_host_char(#[trigger] p[i]) || p[i] == '/'
    &&& p[0] != '/'
    &&& p.last() != '/'
    &&& !ends_with(p, ".git"@)
    &&& !starts_with(p, "22/"@)
    &&& !starts_with(p, "443/"@)
    &&& !starts_with(p, "9418/"@)
}

proof fn lemma_find_is(s: Seq<char>, pat: Seq<char>, k: Option<int>)
    requires
        match k {
            Some(i) => matches_at(s, pat, i) && forall|j: int| 0 <= j < i ==> !matches_at(s, pat, j),
            None => forall|j: int| !matches_at(s, pat, j),
        },
    ensures
        find(s, pat) == k,
{
    lemma_find(s, pat);
    match find(s, pat) {
        Some(k2) => {
            assert(matches_at(s, pat, k2));
            if let Some(i) = k {
                assert(!(k2 < i));
                assert(!(i < k2));
            }
        },
        None => {
            if let Some(i) = k {
                assert(!matches_at(s, pat, i));
            }
        },
    }
}

proof fn lemma_match_first(s: Seq<char>, pat: Seq<char>, j: int)
    requires
        matches_at(s, pat, j),
        pat.len() > 0,
    ensures
        s[j] == pat[0],
{
    assert(s.subrange(j, j + pat.len())[0] == s[j]);
}

/// The first `c` of `x + [c] + y`, when `x` holds none, is at `x.len()`.
proof fn lemma_find_first_char(x: Seq<char>, c: char, y: Seq<char>)
    requires
        free_of(x, c),
    ensures
        find(x + seq![c] + y, seq![c]) == Some(x.len() as int),
{
    let s = x + seq![c] + y;
    assert(s.subrange(x.len() as int, x.len() + 1 as int) =~= seq![c]);
    assert forall|j: int| 0 <= j < x.len() implies !matches_at(s, seq![c], j) by {
        if matches_at(s, seq![c], j) {
            lemma_match_first(s, seq![c], j);
            assert(s[j] == x[j]);
        }
    }
    lemma_find_is(s, seq![c], Some(x.len() as int));
}

/// A pattern whose first character does not occur in `s` is not found.
proof fn lemma_find_absent(s: Seq<char>, pat: Seq<char>)
    requires
        pat.len() > 0,
        free_of(s, pat[0]),
    ensures
        find(s, pat) is None,
{
    assert forall|j: int| !matches_at(s, pat, j) by {
        if matches_at(s, pat, j) {
            lemma_match_first(s, pat, j);
        }
    }
    lemma_find_is(s, pat, None);
}

/// Finding `:` followed by `q` in `x + [':'] + y`, when `x` holds no `:`.
proof fn lemma_find_colon(x: Seq<char>, y: Seq<char>, q: Seq<char>)
    requires
        free_of(x, ':'),
    ensures
        starts_with(y, q) ==> find(x + seq![':'] + y, seq![':'] + q) == Some(x.len() as int),
        !starts_with(y, q) && free_of(y, ':') ==> find(x + seq![':'] + y, seq![':'] + q) is None,
{
    let s = x + seq![':'] + y;
    let pat = seq![':'] + q;
    let n = x.len() as int;
    assert forall|j: int| 0 <= j < n implies !matches_at(s, pat, j) by {
        if matches_at(s, pat, j) {
            lemma_match_first(s, pat, j);
            assert(s[j] == x[j]);
        }
    }
    if starts_with(y, q) {
        assert(s.subrange(n, n + pat.len()) =~= pat);
        lemma_find_is(s, pat, Some(n));
    } else if free_of(y, ':') {
        assert forall|j: int| !matches_at(s, pat, j) by {
            if matches_at(s, pat, j) {
                lemma_match_first(s, pat, j);
                if j == n {
                    let sub = s.subrange(n, n + pat.len());
                    assert(sub == pat);
                    assert(pat.drop_first() =~= q);
                    assert(q.len() <= y.len());
                    assert(sub.drop_first() =~= y.take(q.len() as int));
                    assert(starts_with(y, q));
                } else if j > n {
                    assert(s[j] == y[j - n - 1]);
                }
            }
        }
        lemma_find_is(s, pat, None);
    }
}

/// A prefix ending in `/` of `p + tail`, where `tail` holds no `/`, is a prefix of `p`.
proof fn lemma_prefix_through(p: Seq<char>, tail: Seq<char>, pat: Seq<char>)
    requires
        pat.len() > 0,
        pat.last() == '/',
        free_of(tail, '/'),
        starts_with(p + tail, pat),
    ensures
        starts_with(p, pat),
{
    let l = pat.len() as int;
    assert((p + tail).take(l)[l - 1] == '/');
    if l > p.len() {
        assert((p + tail)[l - 1] == tail[l - 1 - p.len()]);
    } else {
        assert(p.take(l) =~= (p + tail).take(l));
    }
}

/// A suffix free of `/` of `a + p`, where `a` ends with `/`, is a suffix of `p`.
proof fn lemma_suffix_through(a: Seq<char>, p: Seq<char>, pat: Seq<char>)
    requires
        a.len() > 0,
        a.last() == '/',
        free_of(pat, '/'),
        ends_with(a + p, pat),
    ensures
        ends_with(p, pat),
{
    let s = a + p;
    let l = pat.len() as int;
    if l > p.len() {
        let k = a.len() - 1 - (s.len() - l);
        assert(s.skip(s.len() - l)[k] == s[a.len() - 1]);
        assert(s[a.len() - 1] == a.last());
    } else {
        assert(p.skip(p.len() - l) =~= s.skip(s.len() - l));
    }
}

proof fn lemma_colons_free(s: Seq<char>)
    requires
        free_of(s, ':'),
    ensures
        colons_to_slashes(s) == s,
{
    assert(colons_to_slashes(s) =~= s);
}

proof fn lemma_plain_free(h: Seq<char>, p: Seq<char>)
    requires
        is_plain_host(h),
        is_plain_repo_path(p),
    ensures
        free_of(h, ':'),
        free_of(h, '/'),
        free_of(h, '@'),
        free_of(p, ':'),
        free_of(p, '@'),
{
    assert forall|i: int| 0 <= i < h.len() implies #[trigger] h[i] != ':' && h[i] != '/' && h[i] != '@' by {
        assert(is_host_char(h[i]));
    }
    assert forall|i: int| 0 <= i < p.len() implies #[trigger] p[i] != ':' && p[i] != '@' by {
        assert(is_host_char(p[i]) || p[i] == '/');
    }
}

/// The usual ways of writing one remote share its normal form `<host>/<path>`:
/// `git@<host>:<path>.git`, `ssh://git@<host>:22/<path>.git`,
/// `https://<host>:443/<path>` and `https://<host>/<path>` (already lower-cased).
pub proof fn lemma_usual_forms_normalize(h: Seq<char>, p: Seq<char>)
    requires
        is_plain_host(h),
        is_plain_repo_path(p),
    ensures
        normal_form("git@"@ + h + ":"@ + p + ".git"@) == h + "/"@ + p,
        normal_form("ssh://git@"@ + h + ":22/"@ + p + ".git"@) == h + "/"@ + p,
        normal_form("https://"@ + h + ":443/"@ + p) == h + "/"@ + p,
        normal_form("https://"@ + h + "/"@ + p) == h + "/"@ + p,
{
    lemma_plain_free(h, p);
    lemma_form_scp(h, p);
    lemma_form_ssh(h, p);
    lemma_form_https_port(h, p);
    lemma_form_https(h, p);
}

proof fn lemma_literals()
    ensures
        "git@"@ == seq!['g', 'i', 't', '@'],
        ":"@ == seq![':'],
        "/"@ == seq!['/'],
        ".git"@ == seq!['.', 'g', 'i', 't'],
        "ssh://git@"@ == seq!['s', 's', 'h', ':', '/', '/', 'g', 'i', 't', '@'],
        ":22/"@ == seq![':', '2', '2', '/'],
        "https://"@ == seq!['h', 't', 't', 'p', 's', ':', '/', '/'],
        ":443/"@ == seq![':', '4', '4', '3', '/'],
        "22/"@ == seq!['2', '2', '/'],
        "443/"@ == seq!['4', '4', '3', '/'],
        "9418/"@ == seq!['9', '4', '1', '8', '/'],
{
    reveal_strlit("git@");
    reveal_strlit(":");
    reveal_strlit("/");
    reveal_strlit(".git");
    reveal_strlit("ssh://git@");
    reveal_strlit(":22/");
    reveal_strlit("https://");
    reveal_strlit(":443/");
    reveal_strlit("22/");
    reveal_strlit("443/");
    reveal_strlit("9418/");
    assert("git@"@ =~= seq!['g', 'i', 't', '@']);
    assert(":"@ =~= seq![':']);
    assert("/"@ =~= seq!['/']);
    assert(".git"@ =~= seq!['.', 'g', 'i', 't']);
    assert("ssh://git@"@ =~= seq!['s', 's', 'h', ':', '/', '/', 'g', 'i', 't', '@']);
    assert(":22/"@ =~= seq![':', '2', '2', '/']);
    assert("https://"@ =~= seq!['h', 't', 't', 'p', 's', ':', '/', '/']);
    assert(":443/"@ =~= seq![':', '4', '4', '3', '/']);
    assert("22/"@ =~= seq!['2', '2', '/']);
    assert("443/"@ =~= seq!['4', '4', '3', '/']);
    assert("9418/"@ =~= seq!['9', '4', '1', '8', '/']);
}

proof fn lemma_colon_to_slash(h: Seq<char>, p: Seq<char>)
    requires
        free_of(h, ':'),
        free_of(p, ':'),
    ensures
        colons_to_slashes(h + seq![':'] + p) == h + seq!['/'] + p,
{
    let s = h + seq![':'] + p;
    let t = h + seq!['/'] + p;
    assert forall|i: int| 0 <= i < s.len() implies #[trigger] colons_to_slashes(s)[i] == t[i] by {
        if i < h.len() {
            assert(s[i] == h[i] && t[i] == h[i]);
        } else if i > h.len() {
            assert(s[i] == p[i - h.len() - 1] && t[i] == p[i - h.len() - 1]);
        }
    }
    assert(colons_to_slashes(s) =~= t);
}

proof fn lemma_no_port(h: Seq<char>, y: Seq<char>)
    requires
        free_of(h, ':'),
        free_of(h, '/'),
        free_of(y, ':'),
        !starts_with(y, seq!['2', '2', '/']),
        !starts_with(y, seq!['4', '4', '3', '/']),
        !starts_with(y, seq!['9', '4', '1', '8', '/']),
    ensures
        strip_standard_port(h + seq![':'] + y) == h + seq![':'] + y,
{
    assert(port_pattern(seq!['2', '2']) =~= seq![':'] + seq!['2', '2', '/']);
    assert(port_pattern(seq!['4', '4', '3']) =~= seq![':'] + seq!['4', '4', '3', '/']);
    assert(port_pattern(seq!['9', '4', '1', '8']) =~= seq![':'] + seq!['9', '4', '1', '8', '/']);
    lemma_find_colon(h, y, seq!['2', '2', '/']);
    lemma_find_colon(h, y, seq!['4', '4', '3', '/']);
    lemma_find_colon(h, y, seq!['9', '4', '1', '8', '/']);
}

proof fn lemma_user_git(rest: Seq<char>)
    ensures
        strip_user(seq!['g', 'i', 't', '@'] + rest) == rest,
{
    let git = seq!['g', 'i', 't'];
    let s = seq!['g', 'i', 't', '@'] + rest;
    assert(s =~= git + seq!['@'] + rest);
    lemma_find_first_char(git, '@', rest);
    assert(s.take(3) =~= git);
    lemma_find_absent(git, seq!['/']);
    assert(s.skip(4) =~= rest);
}

#[verifier::spinoff_prover]
proof fn lemma_form_scp(h: Seq<char>, p: Seq<char>)
    requires
        is_plain_host(h),
        is_plain_repo_path(p),
    ensures
        normal_form("git@"@ + h + ":"@ + p + ".git"@) == h + "/"@ + p,
{
    lemma_literals();
    lemma_plain_free(h, p);
    let g = seq!['.', 'g', 'i', 't'];
    let y = p + g;
    let u = "git@"@ + h + ":"@ + p + ".git"@;
    assert(free_of(y, ':') && free_of(y, '@')) by {
        assert forall|i: int| 0 <= i < y.len() implies #[trigger] y[i] != ':' && y[i] != '@' by {
            if i < p.len() {
                assert(y[i] == p[i]);
            }
        }
    }
    assert(free_of(g, '/'));
    // no scheme
    let x1 = seq!['g', 'i', 't', '@'] + h;
    assert(u =~= x1 + seq![':'] + y);
    assert(free_of(x1, ':')) by {
        assert forall|i: int| 0 <= i < x1.len() implies #[trigger] x1[i] != ':' by {
            if i >= 4 {
                assert(x1[i] == h[i - 4]);
            }
        }
    }
    assert(y[0] == p[0]);
    lemma_find_colon(x1, y, seq!['/', '/']);
    assert(seq![':'] + seq!['/', '/'] =~= seq![':', '/', '/']);
    assert(strip_scheme(u) == u);
    // the user
    let v = h + seq![':'] + y;
    assert(u =~= seq!['g', 'i', 't', '@'] + v);
    lemma_user_git(v);
    // no port
    if starts_with(y, seq!['2', '2', '/']) {
        lemma_prefix_through(p, g, seq!['2', '2', '/']);
    }
    if starts_with(y, seq!['4', '4', '3', '/']) {
        lemma_prefix_through(p, g, seq!['4', '4', '3', '/']);
    }
    if starts_with(y, seq!['9', '4', '1', '8', '/']) {
        lemma_prefix_through(p, g, seq!['9', '4', '1', '8', '/']);
    }
    lemma_no_port(h, y);
    // the suffixes
    assert(!ends_with(v, seq!['/'])) by {
        assert(v.skip(v.len() - 1)[0] == 't');
    }
    assert(v.skip(v.len() - 4) =~= g);
    assert(v.take(v.len() - 4) =~= h + seq![':'] + p);
    lemma_colon_to_slash(h, p);
    assert(strip_user(strip_scheme(u)) == v);
    assert(strip_standard_port(v) == v);
    assert(strip_trailing_slash(v) == v);
    assert(strip_git_suffix(v) == h + seq![':'] + p);
}

#[verifier::spinoff_prover]
proof fn lemma_form_ssh(h: Seq<char>, p: Seq<char>)
    requires
        is_plain_host(h),
        is_plain_repo_path(p),
    ensures
        normal_form("ssh://git@"@ + h + ":22/"@ + p + ".git"@) == h + "/"@ + p,
{
    lemma_literals();
    lemma_plain_free(h, p);
    let g = seq!['.', 'g', 'i', 't'];
    let u = "ssh://git@"@ + h + ":22/"@ + p + ".git"@;
    // the scheme
    let y1 = seq!['/', '/', 'g', 'i', 't', '@'] + h + seq![':', '2', '2', '/'] + p + g;
    assert(u =~= seq!['s', 's', 'h'] + seq![':'] + y1);
    assert(free_of(seq!['s', 's', 'h'], ':'));
    assert(y1.take(2) =~= seq!['/', '/']);
    lemma_find_colon(seq!['s', 's', 'h'], y1, seq!['/', '/']);
    assert(seq![':'] + seq!['/', '/'] =~= seq![':', '/', '/']);
    let w = seq!['g', 'i', 't', '@'] + h + seq![':', '2', '2', '/'] + p + g;
    assert(u.skip(6) =~= w);
    // the user
    let v = h + seq![':'] + (seq!['2', '2', '/'] + p + g);
    assert(w =~= seq!['g', 'i', 't', '@'] + v);
    lemma_user_git(v);
    // the port
    let y = seq!['2', '2', '/'] + p + g;
    assert(y.take(3) =~= seq!['2', '2', '/']);
    lemma_find_colon(h, y, seq!['2', '2', '/']);
    assert(port_pattern(seq!['2', '2']) =~= seq![':'] + seq!['2', '2', '/']);
    assert(v.take(h.len() as int) =~= h);
    lemma_find_absent(h, seq!['/']);
    let t = h + seq!['/'] + (p + g);
    assert(v.take(h.len() as int) + seq!['/'] + v.skip(h.len() + 4 as int) =~= t);
    // the suffixes
    assert(!ends_with(t, seq!['/'])) by {
        assert(t.skip(t.len() - 1)[0] == 't');
    }
    assert(t.skip(t.len() - 4) =~= g);
    assert(t.take(t.len() - 4) =~= h + seq!['/'] + p);
    let r = h + seq!['/'] + p;
    assert(free_of(r, ':')) by {
        assert forall|i: int| 0 <= i < r.len() implies #[trigger] r[i] != ':' by {
            if i < h.len() {
                assert(r[i] == h[i]);
            } else if i > h.len() {
                assert(r[i] == p[i - h.len() - 1]);
            }
        }
    }
    lemma_colons_free(r);
}

#[verifier::spinoff_prover]
proof fn lemma_form_https_port(h: Seq<char>, p: Seq<char>)
    requires
        is_plain_host(h),
        is_plain_repo_path(p),
    ensures
        normal_form("https://"@ + h + ":443/"@ + p) == h + "/"@ + p,
{
    lemma_literals();
    lemma_plain_free(h, p);
    let u = "https://"@ + h + ":443/"@ + p;
    let y1 = seq!['/', '/'] + h + seq![':', '4', '4', '3', '/'] + p;
    assert(u =~= seq!['h', 't', 't', 'p', 's'] + seq![':'] + y1);
    assert(free_of(seq!['h', 't', 't', 'p', 's'], ':'));
    assert(y1.take(2) =~= seq!['/', '/']);
    lemma_find_colon(seq!['h', 't', 't', 'p', 's'], y1, seq!['/', '/']);
    assert(seq![':'] + seq!['/', '/'] =~= seq![':', '/', '/']);
    let y = seq!['4', '4', '3', '/'] + p;
    let v = h + seq![':'] + y;
    assert(u.skip(8) =~= v);
    // no user
    assert(free_of(v, '@')) by {
        assert forall|i: int| 0 <= i < v.len() implies #[trigger] v[i] != '@' by {
            if i < h.len() {
                assert(v[i] == h[i]);
            } else if i > h.len() + 4 {
                assert(v[i] == p[i - h.len() - 5]);
            }
        }
    }
    lemma_find_absent(v, seq!['@']);
    // the port
    assert(free_of(y, ':')) by {
        assert forall|i: int| 0 <= i < y.len() implies #[trigger] y[i] != ':' by {
            if i >= 4 {
                assert(y[i] == p[i - 4]);
            }
        }
    }
    lemma_find_colon(h, y, seq!['2', '2', '/']);
    assert(port_pattern(seq!['2', '2']) =~= seq![':'] + seq!['2', '2', '/']);
    lemma_find_colon(h, y, seq!['4', '4', '3', '/']);
    assert(port_pattern(seq!['4', '4', '3']) =~= seq![':'] + seq!['4', '4', '3', '/']);
    assert(y.take(4) =~= seq!['4', '4', '3', '/']);
    assert(v.take(h.len() as int) =~= h);
    lemma_find_absent(h, seq!['/']);
    let t = h + seq!['/'] + p;
    assert(v.take(h.len() as int) + seq!['/'] + v.skip(h.len() + 5 as int) =~= t);
    // the suffixes
    assert(!ends_with(t, seq!['/'])) by {
        assert(t.skip(t.len() - 1)[0] == t.last());
        assert(t.last() == p.last());
    }
    assert(t =~= (h + seq!['/']) + p);
    if ends_with(t, ".git"@) {
        lemma_suffix_through(h + seq!['/'], p, ".git"@);
    }
    assert(free_of(t, ':')) by {
        assert forall|i: int| 0 <= i < t.len() implies #[trigger] t[i] != ':' by {
            if i < h.len() {
                assert(t[i] == h[i]);
            } else if i > h.len() {
                assert(t[i] == p[i - h.len() - 1]);
            }
        }
    }
    lemma_colons_free(t);
}

#[verifier::spinoff_prover]
proof fn lemma_form_https(h: Seq<char>, p: Seq<char>)
    requires
        is_plain_host(h),
        is_plain_repo_path(p),
    ensures
        normal_form("https://"@ + h + "/"@ + p) == h + "/"@ + p,
{
    lemma_plain_free(h, p);
    lemma_literals();
    let u = "https://"@ + h + "/"@ + p;
    let t = h + seq!['/'] + p;
    let y1 = seq!['/', '/'] + t;
    assert(u =~= seq!['h', 't', 't', 'p', 's'] + seq![':'] + y1);
    assert(free_of(seq!['h', 't', 't', 'p', 's'], ':'));
    assert(y1.take(2) =~= seq!['/', '/']);
    lemma_find_colon(seq!['h', 't', 't', 'p', 's'], y1, seq!['/', '/']);
    assert(seq![':'] + seq!['/', '/'] =~= seq![':', '/', '/']);
    assert(u.skip(8) =~= t);
    assert(free_of(t, ':') && free_of(t, '@')) by {
        assert forall|i: int| 0 <= i < t.len() implies #[trigger] t[i] != ':' && t[i] != '@' by {
            if i < h.len() {
                assert(t[i] == h[i]);
            } else if i > h.len() {
                assert(t[i] == p[i - h.len() - 1]);
            }
        }
    }
    lemma_find_absent(t, seq!['@']);
    lemma_find_absent(t, port_pattern(seq!['2', '2']));
    lemma_find_absent(t, port_pattern(seq!['4', '4', '3']));
    lemma_find_absent(t, port_pattern(seq!['9', '4', '1', '8']));
    assert(!ends_with(t, seq!['/'])) by {
        assert(t.skip(t.len() - 1)[0] == t.last());
        assert(t.last() == p.last());
    }
    assert(t =~= (h + seq!['/']) + p);
    if ends_with(t, ".git"@) {
        lemma_suffix_through(h + seq!['/'], p, ".git"@);
    }
    lemma_colons_free(t);
}

// ---------------------------------------------------------------------------
// Finding the URL of a remote
// ---------------------------------------------------------------------------

/// Where a search for a remote's URL stands.
#[derive(Debug)]
pub enum RemoteLookup {
    /// Ask Git for the URL of `origin` (`git remote get-url origin`).
    AskOrigin,
    /// Ask Git for the names of all remotes (`git remote`).
    ListRemotes,
    /// Ask Git for the URL of the named remote (`git remote get-url <name>`).
    AskUrl(String),
    /// The URL was found.
    Found(String),
    /// There is no such remote.
    NoRemote,
}

/// A search for a remote's URL, as texts.
pub enum LookupView {
    AskOrigin,
    ListRemotes,
    AskUrl(Seq<char>),
    Found(Seq<char>),
    NoRemote,
}

impl View for RemoteLookup {
    type V = LookupView;

    open spec fn view(&self) -> LookupView {
        match self {
            RemoteLookup::AskOrigin => LookupView::AskOrigin,
            RemoteLookup::ListRemotes => LookupView::ListRemotes,
            RemoteLookup::AskUrl(n) => LookupView::AskUrl(n@),
            RemoteLookup::Found(u) => LookupView::Found(u@),
            RemoteLookup::NoRemote => LookupView::NoRemote,
        }
    }
}

/// The first non-blank line among `ls[i..]`, trimmed.
pub open spec fn first_nonblank_from(ls: Seq<Seq<char>>, i: int) -> Option<Seq<char>>
    decreases ls.len() - i,
{
    if i < 0 || i >= ls.len() {
        None
    } else if trim(ls[i]).len() > 0 {
        Some(trim(ls[i]))
    } else {
        first_nonblank_from(ls, i + 1)
    }
}

/// Where a search starts: at the named remote, or else at `origin`.
pub open spec fn lookup_start(name: Option<Seq<char>>) -> LookupView {
    match name {
        Some(n) => LookupView::AskUrl(n),
        None => LookupView::AskOrigin,
    }
}

/// The next stand of a search, given whether Git succeeded and what it printed:
/// a non-empty URL of `origin` is the answer, else the first listed remote is
/// asked; a named remote's URL is the answer when Git knows it.
pub open spec fn lookup_next(s: LookupView, success: bool, stdout: Seq<char>) -> LookupView {
    match s {
        LookupView::AskOrigin => if success && trim(stdout).len() > 0 {
            LookupView::Found(trim(stdout))
        } else {
            LookupView::ListRemotes
        },
        LookupView::ListRemotes => if success {
            match first_nonblank_from(lines(stdout), 0) {
                Some(n) => LookupView::AskUrl(n),
                None => LookupView::NoRemote,
            }
        } else {
            LookupView::NoRemote
        },
        LookupView::AskUrl(_) => if success {
            LookupView::Found(trim(stdout))
        } else {
            LookupView::NoRemote
        },
        LookupView::Found(u) => LookupView::Found(u),
        LookupView::NoRemote => LookupView::NoRemote,
    }
}

/// How many more Git calls a search can take at most.
pub open spec fn lookup_calls_left(s: LookupView) -> nat {
    match s {
        LookupView::AskOrigin => 3,
        LookupView::ListRemotes => 2,
        LookupView::AskUrl(_) => 1,
        _ => 0,
    }
}

/// A search is over once it found a URL or found there is none.
pub open spec fn lookup_done(s: LookupView) -> bool {
    s is Found || s is NoRemote
}

/// A search ends: each Git call brings it closer to its end, and it never takes
/// more than three calls.
pub proof fn lemma_lookup_ends(s: LookupView, success: bool, stdout: Seq<char>)
    ensures
        !lookup_done(s) ==> lookup_calls_left(lookup_next(s, success, stdout)) < lookup_calls_left(s),
        lookup_done(s) <==> lookup_calls_left(s) == 0,
        lookup_calls_left(s) <= 3,
{
}

impl RemoteLookup {
    /// The start of a search for the URL of `name`, or of the default remote.
    pub fn start(name: Option<&str>) -> (res: RemoteLookup)
        ensures
            res@ == lookup_start(
                match name {
                    Some(n) => Some(n@),
                    None => None,
                },
            ),
    {
        match name {
            Some(n) => RemoteLookup::AskUrl(n.to_string()),
            None => RemoteLookup::AskOrigin,
        }
    }

    /// The arguments of the `git` call this stand asks for; none once it is over.
    pub fn git_args(&self) -> (res: Option<Vec<String>>)
        ensures
            match self@ {
                LookupView::AskOrigin => res matches Some(a) && texts(a@) == seq![
                    "remote"@,
                    "get-url"@,
                    "origin"@,
                ],
                LookupView::ListRemotes => res matches Some(a) && texts(a@) == seq!["remote"@],
                LookupView::AskUrl(n) => res matches Some(a) && texts(a@) == seq![
                    "remote"@,
                    "get-url"@,
                    n,
                ],
                _ => res is None,
            },
    {
        let mut a: Vec<String> = Vec::new();
        match self {
            RemoteLookup::AskOrigin => {
                a.push("remote".to_string());
                a.push("get-url".to_string());
                a.push("origin".to_string());
                assert(texts(a@) =~= seq!["remote"@, "get-url"@, "origin"@]);
                Some(a)
            },
            RemoteLookup::ListRemotes => {
                a.push("remote".to_string());
                assert(texts(a@) =~= seq!["remote"@]);
                Some(a)
            },
            RemoteLookup::AskUrl(n) => {
                a.push("remote".to_string());
                a.push("get-url".to_string());
                a.push(n.clone());
                assert(texts(a@) =~= seq!["remote"@, "get-url"@, n@]);
                Some(a)
            },
            _ => None,
        }
    }

    /// The stand after Git answered this one's call (see `lookup_next`).
    pub fn next(&self, success: bool, stdout: &str) -> (res: RemoteLookup)
        ensures
            res@ == lookup_next(self@, success, stdout@),
    {
        match self {
            RemoteLookup::AskOrigin => {
                let url = trimmed_chars(stdout);
                if success && url.len() > 0 {
                    RemoteLookup::Found(text_of(&url))
                } else {
                    RemoteLookup::ListRemotes
                }
            },
            RemoteLookup::ListRemotes => {
                if !success {
                    return RemoteLookup::NoRemote;
                }
                match first_nonblank_line(stdout) {
                    Some(n) => RemoteLookup::AskUrl(n),
                    None => RemoteLookup::NoRemote,
                }
            },
            RemoteLookup::AskUrl(_) => {
                if success {
                    RemoteLookup::Found(trim_text(stdout))
                } else {
                    RemoteLookup::NoRemote
                }
            },
            RemoteLookup::Found(u) => RemoteLookup::Found(u.clone()),
            RemoteLookup::NoRemote => RemoteLookup::NoRemote,
        }
    }
}

/// The first non-blank line of `text`, trimmed.
fn first_nonblank_line(text: &str) -> (res: Option<String>)
    ensures
        match res {
            Some(l) => first_nonblank_from(lines(text@), 0) == Some(l@),
            None => first_nonblank_from(lines(text@), 0) is None,
        },
{
    let v = chars_of(text);
    let ls = split_lines(&v);
    let ghost all = lines(text@);
    let mut i: usize = 0;
    while i < ls.len()
        invariant
            i <= ls.len() == all.len(),
            all == lines(text@),
            forall|k: int| 0 <= k < ls@.len() ==> #[trigger] ls@[k]@ == all[k],
            first_nonblank_from(all, 0) == first_nonblank_from(all, i as int),
        decreases ls.len() - i,
    {
        let (a, b) = trim_bounds(&ls[i]);
        if a < b {
            return Some(text_of_range(&ls[i], a, b));
        }
        i = i + 1;
    }
    None
}

// ---------------------------------------------------------------------------
// Which remote a command targets
// ---------------------------------------------------------------------------

/// The remote an automatic detection targets.
#[derive(Debug)]
pub enum AutoTarget {
    /// A URL given on the command line.
    Url(String),
    /// A remote to look up in the repository: the named one, or the default.
    Lookup(Option<String>),
}

/// A remote argument that is written as a URL rather than a remote's name.
pub open spec fn is_url_like(r: Seq<char>) -> bool {
    contains_text(r, seq![':']) || contains_text(r, seq!['@'])
}

/// Which remote `command`/`default` detect a key for: `None` when neither
/// `--auto` nor `--remote` is given; else the remote argument (with `--auto`
/// the key argument stands for it when `--remote` is absent), taken as a URL
/// when it holds `:` or `@`, and otherwise looked up by name (or the default).
pub fn auto_target(key: Option<&str>, remote: Option<&str>, auto: bool) -> (res: Option<
    AutoTarget,
>)
    ensures
        !(auto || remote is Some) ==> res is None,
        (auto || remote is Some) ==> {
            let arg: Option<Seq<char>> = match remote {
                Some(r) => Some(r@),
                None => if auto {
                    match key {
                        Some(k) => Some(k@),
                        None => None,
                    }
                } else {
                    None
                },
            };
            match res {
                Some(AutoTarget::Url(u)) => arg matches Some(a) && is_url_like(a) && u@ == a,
                Some(AutoTarget::Lookup(Some(n))) => arg matches Some(a) && !is_url_like(a) && n@
                    == a,
                Some(AutoTarget::Lookup(None)) => arg is None,
                None => false,
            }
        },
        (remote matches Some(r) && exists|k: int| 0 <= k < r@.len() && (r@[k] == ':' || r@[k] == '@'))
            ==> (res matches Some(AutoTarget::Url(u)) && u@ == remote->0@),
        (remote matches Some(r) && !exists|k: int| 0 <= k < r@.len() && (r@[k] == ':' || r@[k] == '@'))
            ==> (res matches Some(AutoTarget::Lookup(Some(n))) && n@ == remote->0@),
{
    proof {
        if let Some(r) = remote {
            lemma_url_like_rule(r@);
        }
    }
    if !(auto || remote.is_some()) {
        return None;
    }
    let arg: Option<&str> = match remote {
        Some(r) => Some(r),
        None => if auto {
            key
        } else {
            None
        },
    };
    match arg {
        Some(a) => {
            let v = chars_of(a);
            if contains_char(&v, ':') || contains_char(&v, '@') {
                Some(AutoTarget::Url(a.to_string()))
            } else {
                Some(AutoTarget::Lookup(Some(a.to_string())))
            }
        },
        None => Some(AutoTarget::Lookup(None)),
    }
}

/// A Git argument that is an option rather than an operand.
pub open spec fn is_option_arg(a: Seq<char>) -> bool {
    a.len() > 0 && a[0] == '-'
}

/// A Git operand written as a remote URL: `user@host:path`, or a
/// `ssh://`, `git://`, `https://` or `http://` URL.
pub open spec fn is_remote_url_arg(a: Seq<char>) -> bool {
    !is_option_arg(a) && ((contains_text(a, seq!['@']) && contains_text(a, seq![':']))
        || starts_with(a, "ssh://"@) || starts_with(a, "git://"@) || starts_with(a, "https://"@)
        || starts_with(a, "http://"@))
}

/// The first position at or after `i` of an argument written as a remote URL.
pub open spec fn first_url_arg_from(args: Seq<Seq<char>>, i: int) -> Option<int>
    decreases args.len() - i,
{
    if i < 0 || i >= args.len() {
        None
    } else if is_remote_url_arg(args[i]) {
        Some(i)
    } else {
        first_url_arg_from(args, i + 1)
    }
}

/// A remote argument is taken as a URL exactly when it holds a `:` or an `@`;
/// any other is looked up as the name of a remote.
pub proof fn lemma_url_like_rule(r: Seq<char>)
    ensures
        is_url_like(r) <==> exists|k: int| 0 <= k < r.len() && (r[k] == ':' || r[k] == '@'),
{
    lemma_contains_char(r, ':');
    lemma_contains_char(r, '@');
}

/// Which Git argument is a remote URL: one that does not start with `-` and
/// either holds both `@` and `:`, or starts with `ssh://`, `git://`,
/// `https://` or `http://`. So an argument with `:` but no `@` and none of
/// these schemes (a refspec such as `HEAD:main`) never is.
pub proof fn lemma_remote_url_arg_rule(a: Seq<char>)
    ensures
        is_remote_url_arg(a) <==> !(a.len() > 0 && a[0] == '-') && (((exists|k: int|
            0 <= k < a.len() && a[k] == '@') && (exists|k: int| 0 <= k < a.len() && a[k] == ':'))
            || starts_with(a, "ssh://"@) || starts_with(a, "git://"@) || starts_with(a, "https://"@)
            || starts_with(a, "http://"@)),
        (exists|k: int| 0 <= k < a.len() && a[k] == ':') && !(exists|k: int|
            0 <= k < a.len() && a[k] == '@') && !starts_with(a, "ssh://"@) && !starts_with(a, "git://"@)
            && !starts_with(a, "https://"@) && !starts_with(a, "http://"@) ==> !is_remote_url_arg(a),
{
    lemma_contains_char(a, ':');
    lemma_contains_char(a, '@');
}

/// The argument taken as the remote URL is the first that is one: it is a
/// remote URL argument, no earlier argument is, and when none is taken no
/// argument is one.
pub proof fn lemma_first_url_arg(args: Seq<Seq<char>>, i: int)
    requires
        0 <= i,
    ensures
        first_url_arg_from(args, i) matches Some(k) ==> i <= k < args.len() && is_remote_url_arg(args[k])
            && forall|j: int| i <= j < k ==> !is_remote_url_arg(#[trigger] args[j]),
        first_url_arg_from(args, i) is None ==> forall|j: int|
            i <= j < args.len() ==> !is_remote_url_arg(#[trigger] args[j]),
    decreases args.len() - i,
{
    if i < args.len() && !is_remote_url_arg(args[i]) {
        lemma_first_url_arg(args, i + 1);
    }
}

fn is_remote_url_arg_exec(a: &String) -> (res: bool)
    ensures
        res == is_remote_url_arg(a@),
{
    let v = chars_of(a.as_str());
    if v.len() > 0 && v[0] == '-' {
        return false;
    }
    (contains_char(&v, '@') && contains_char(&v, ':')) || starts_with_chars(&v, &chars_of("ssh://"))
        || starts_with_chars(&v, &chars_of("git://")) || starts_with_chars(
        &v,
        &chars_of("https://"),
    ) || starts_with_chars(&v, &chars_of("http://"))
}

/// The first Git argument written as a remote URL, if any.
pub fn remote_url_argument(args: &Vec<String>) -> (res: Option<String>)
    ensures
        match res {
            Some(u) => first_url_arg_from(texts(args@), 0) matches Some(i) && u@ == args@[i]@,
            None => first_url_arg_from(texts(args@), 0) is None,
        },
{
    let ghost t = texts(args@);
    let mut i: usize = 0;
    while i < args.len()
        invariant
            i <= args.len() == t.len(),
            t == texts(args@),
            first_url_arg_from(t, 0) == first_url_arg_from(t, i as int),
        decreases args.len() - i,
    {
        assert(t[i as int] == args@[i as int]@);
        if is_remote_url_arg_exec(&args[i]) {
            return Some(args[i].clone());
        }
        i = i + 1;
    }
    None
}

/// The Git arguments that are not options, in order: the candidates for a
/// remote's name.
pub fn operand_args(args: &Vec<String>) -> (res: Vec<String>)
    ensures
        texts(res@) == texts(args@).filter(|a: Seq<char>| !is_option_arg(a)),
{
    let ghost t = texts(args@);
    let mut res: Vec<String> = Vec::new();
    let mut i: usize = 0;
    while i < args.len()
        invariant
            i <= args.len() == t.len(),
            t == texts(args@),
            texts(res@) == t.take(i as int).filter(|a: Seq<char>| !is_option_arg(a)),
        decreases args.len() - i,
    {
        let ghost before = res@;
        assert(t.take(i + 1).drop_last() =~= t.take(i as int));
        assert(t.take(i + 1).last() == args@[i as int]@);
        reveal_with_fuel(Seq::filter, 1);
        let a = &args[i];
        let v = chars_of(a.as_str());
        if !(v.len() > 0 && v[0] == '-') {
            res.push(a.clone());
            assert(texts(res@) =~= texts(before).push(args@[i as int]@));
        }
        i = i + 1;
    }
    assert(t.take(args.len() as int) =~= t);
    res
}

} // verus!
