//! Character-level text handling: trimming, searching, splitting.
//!
//! Every text is modelled by its sequence of characters (`s@`).

use vstd::prelude::*;

verus! {

broadcast use vstd::string::group_string_axioms;

// ---------------------------------------------------------------------------
// Specifications
// ---------------------------------------------------------------------------

/// Unicode `White_Space`: the characters for which `char::is_whitespace` holds.
pub open spec fn is_space(c: char) -> bool {
    ||| c == '\t'
    ||| c == '\n'
    ||| c == '\u{0B}'
    ||| c == '\u{0C}'
    ||| c == '\r'
    ||| c == ' '
    ||| c == '\u{85}'
    ||| c == '\u{A0}'
    ||| c == '\u{1680}'
    ||| ('\u{2000}' <= c && c <= '\u{200A}')
    ||| c == '\u{2028}'
    ||| c == '\u{2029}'
    ||| c == '\u{202F}'
    ||| c == '\u{205F}'
    ||| c == '\u{3000}'
}

/// `s` without its leading white space.
pub open spec fn trim_start(s: Seq<char>) -> Seq<char>
    decreases s.len(),
{
    if s.len() > 0 && is_space(s[0]) {
        trim_start(s.drop_first())
    } else {
        s
    }
}

/// `s` without its trailing white space.
pub open spec fn trim_end(s: Seq<char>) -> Seq<char>
    decreases s.len(),
{
    if s.len() > 0 && is_space(s.last()) {
        trim_end(s.drop_last())
    } else {
        s
    }
}

/// `s` without leading and trailing white space.
pub open spec fn trim(s: Seq<char>) -> Seq<char> {
    trim_end(trim_start(s))
}

/// `pat` occurs in `s` starting at position `i`.
pub open spec fn matches_at(s: Seq<char>, pat: Seq<char>, i: int) -> bool {
    0 <= i && i + pat.len() <= s.len() && s.subrange(i, i + pat.len()) == pat
}

/// The first position at or after `i` where `pat` occurs in `s`.
pub open spec fn find_from(s: Seq<char>, pat: Seq<char>, i: int) -> Option<int>
    decreases s.len() + 1 - i,
{
    if i < 0 || i + pat.len() > s.len() {
        None
    } else if matches_at(s, pat, i) {
        Some(i)
    } else {
        find_from(s, pat, i + 1)
    }
}

/// The first position where `pat` occurs in `s`.
pub open spec fn find(s: Seq<char>, pat: Seq<char>) -> Option<int> {
    find_from(s, pat, 0)
}

/// `pat` occurs somewhere in `s`.
pub open spec fn contains_text(s: Seq<char>, pat: Seq<char>) -> bool {
    find(s, pat) is Some
}

/// `s` begins with `pat`.
pub open spec fn starts_with(s: Seq<char>, pat: Seq<char>) -> bool {
    pat.len() <= s.len() && s.take(pat.len() as int) == pat
}

/// `s` ends with `pat`.
pub open spec fn ends_with(s: Seq<char>, pat: Seq<char>) -> bool {
    pat.len() <= s.len() && s.skip(s.len() - pat.len()) == pat
}

/// The first position of a white-space character in `s`.
pub open spec fn first_space_from(s: Seq<char>, i: int) -> Option<int>
    decreases s.len() - i,
{
    if i < 0 || i >= s.len() {
        None
    } else if is_space(s[i]) {
        Some(i)
    } else {
        first_space_from(s, i + 1)
    }
}

/// The maximal runs of non-white-space characters of `s`, in order.
pub open spec fn words(s: Seq<char>) -> Seq<Seq<char>>
    decreases s.len(),
{
    if s.len() == 0 {
        seq![]
    } else {
        let prev = words(s.drop_last());
        let c = s.last();
        if is_space(c) {
            prev
        } else if s.len() >= 2 && !is_space(s[s.len() - 2]) {
            prev.update(prev.len() - 1, prev.last().push(c))
        } else {
            prev.push(seq![c])
        }
    }
}

/// The pieces of `s` between line feeds (there is always at least one).
pub open spec fn lines(s: Seq<char>) -> Seq<Seq<char>>
    decreases s.len(),
{
    if s.len() == 0 {
        seq![seq![]]
    } else {
        let prev = lines(s.drop_last());
        let c = s.last();
        if c == '\n' {
            prev.push(seq![])
        } else {
            prev.update(prev.len() - 1, prev.last().push(c))
        }
    }
}

/// The pieces of `ws` joined with single spaces.
pub open spec fn join_spaced(ws: Seq<Seq<char>>) -> Seq<char>
    decreases ws.len(),
{
    if ws.len() == 0 {
        seq![]
    } else if ws.len() == 1 {
        ws[0]
    } else {
        join_spaced(ws.drop_last()) + seq![' '] + ws.last()
    }
}

/// ASCII letters `A`-`Z` mapped to `a`-`z`; every other character unchanged.
pub open spec fn ascii_lower(c: char) -> char {
    if 'A' <= c && c <= 'Z' {
        ((c as u32) + 32) as char
    } else {
        c
    }
}

/// `s` holds no ASCII capital letter `A`-`Z`.
pub open spec fn no_ascii_upper(s: Seq<char>) -> bool {
    forall|i: int| 0 <= i < s.len() ==> !('A' <= #[trigger] s[i] && s[i] <= 'Z')
}

/// The Unicode lower-case mapping of a text, as `str::to_lowercase` computes it.
pub uninterp spec fn lowercase_text(text: Seq<char>) -> Seq<char>;

// ---------------------------------------------------------------------------
// Lemmas
// ---------------------------------------------------------------------------

pub proof fn lemma_trim_start_skip(s: Seq<char>, i: int)
    requires
        0 <= i < s.len(),
        is_space(s[i]),
    ensures
        trim_start(s.skip(i)) == trim_start(s.skip(i + 1)),
{
    assert(s.skip(i).drop_first() =~= s.skip(i + 1));
}

pub proof fn lemma_find_from_found(s: Seq<char>, pat: Seq<char>, i: int)
    requires
        0 <= i,
    ensures
        find_from(s, pat, i) matches Some(k) ==> i <= k && matches_at(s, pat, k) && forall|j: int|
            i <= j < k ==> !matches_at(s, pat, j),
        find_from(s, pat, i) is None ==> forall|j: int| i <= j ==> !matches_at(s, pat, j),
    decreases s.len() + 1 - i,
{
    if i + pat.len() > s.len() {
    } else if matches_at(s, pat, i) {
    } else {
        lemma_find_from_found(s, pat, i + 1);
    }
}

/// What `find` returns: the first position at which `pat` occurs.
pub proof fn lemma_find(s: Seq<char>, pat: Seq<char>)
    ensures
        find(s, pat) matches Some(k) ==> 0 <= k && k + pat.len() <= s.len() && s.subrange(
            k,
            k + pat.len(),
        ) == pat && forall|j: int| 0 <= j < k ==> !matches_at(s, pat, j),
        find(s, pat) is None ==> forall|j: int| !matches_at(s, pat, j),
{
    lemma_find_from_found(s, pat, 0);
}

/// A text holds the character `c` exactly when `c` occurs at some position.
pub proof fn lemma_contains_char(s: Seq<char>, c: char)
    ensures
        contains_text(s, seq![c]) <==> exists|i: int| 0 <= i < s.len() && s[i] == c,
{
    lemma_find(s, seq![c]);
    if contains_text(s, seq![c]) {
        let k = find(s, seq![c])->0;
        assert(s.subrange(k, k + 1)[0] == s[k]);
    } else {
        assert forall|i: int| 0 <= i < s.len() implies s[i] != c by {
            if s[i] == c {
                assert(s.subrange(i, i + 1) =~= seq![c]);
                assert(matches_at(s, seq![c], i));
            }
        }
    }
}

/// Taking one more element adds the element at that position.
pub proof fn lemma_take_push<A>(s: Seq<A>, i: int)
    requires
        0 <= i < s.len(),
    ensures
        s.take(i + 1).drop_last() == s.take(i),
        s.take(i + 1).last() == s[i],
{
    assert(s.take(i + 1).drop_last() =~= s.take(i));
}

/// A word: one or more characters, none of them white space.
pub open spec fn is_word(w: Seq<char>) -> bool {
    w.len() > 0 && forall|i: int| 0 <= i < w.len() ==> !is_space(#[trigger] w[i])
}

/// The words of a text are words, and a text ending in a non-space has one.
pub proof fn lemma_words_are_words(s: Seq<char>)
    ensures
        forall|k: int| 0 <= k < words(s).len() ==> is_word(#[trigger] words(s)[k]),
        s.len() > 0 && !is_space(s.last()) ==> words(s).len() > 0,
    decreases s.len(),
{
    if s.len() > 0 {
        let p = s.drop_last();
        lemma_words_are_words(p);
        let prev = words(p);
        let c = s.last();
        if !is_space(c) {
            if s.len() >= 2 && !is_space(s[s.len() - 2]) {
                assert(p.last() == s[s.len() - 2]);
                let w = prev.last().push(c);
                assert(is_word(prev[prev.len() - 1]));
                assert forall|i: int| 0 <= i < w.len() implies !is_space(#[trigger] w[i]) by {
                    if i < w.len() - 1 {
                        assert(w[i] == prev.last()[i]);
                    }
                }
                assert forall|k: int| 0 <= k < words(s).len() implies is_word(#[trigger] words(s)[k]) by {
                    if k < prev.len() - 1 {
                        assert(words(s)[k] == prev[k]);
                    }
                }
            } else {
                assert(is_word(seq![c]));
                assert forall|k: int| 0 <= k < words(s).len() implies is_word(#[trigger] words(s)[k]) by {
                    if k < prev.len() {
                        assert(words(s)[k] == prev[k]);
                    }
                }
            }
        }
    }
}

/// Words joined by single spaces have no surrounding white space.
pub proof fn lemma_join_words_trimmed(ws: Seq<Seq<char>>)
    requires
        forall|k: int| 0 <= k < ws.len() ==> is_word(#[trigger] ws[k]),
    ensures
        trim(join_spaced(ws)) == join_spaced(ws),
        ws.len() > 0 ==> join_spaced(ws).len() > 0 && join_spaced(ws)[0] == ws[0][0]
            && join_spaced(ws).last() == ws.last().last(),
    decreases ws.len(),
{
    if ws.len() == 0 {
        assert(trim_start(join_spaced(ws)) == join_spaced(ws));
    } else if ws.len() == 1 {
        assert(is_word(ws[0]));
        let j = join_spaced(ws);
        assert(!is_space(j[0]));
        assert(!is_space(j[j.len() - 1]));
        assert(trim_start(j) == j);
    } else {
        let p = ws.drop_last();
        assert forall|k: int| 0 <= k < p.len() implies is_word(#[trigger] p[k]) by {
            assert(p[k] == ws[k]);
        }
        lemma_join_words_trimmed(p);
        let j = join_spaced(ws);
        assert(is_word(ws[ws.len() - 1]));
        assert(is_word(ws[0]));
        assert(j == join_spaced(p) + seq![' '] + ws.last());
        assert(j[0] == join_spaced(p)[0]);
        assert(p[0] == ws[0]);
        assert(j.last() == ws.last().last());
        assert(!is_space(j[0]));
        assert(!is_space(j[j.len() - 1]));
        assert(trim_start(j) == j);
    }
}

/// Every character of `s` is white space.
pub open spec fn all_space(s: Seq<char>) -> bool {
    forall|i: int| 0 <= i < s.len() ==> is_space(#[trigger] s[i])
}

proof fn lemma_trim_start_space_prefix(a: Seq<char>, x: Seq<char>)
    requires
        all_space(a),
    ensures
        trim_start(a + x) == trim_start(x),
    decreases a.len(),
{
    if a.len() > 0 {
        assert((a + x)[0] == a[0]);
        assert((a + x).drop_first() =~= a.drop_first() + x);
        assert forall|i: int| 0 <= i < a.drop_first().len() implies is_space(
            #[trigger] a.drop_first()[i],
        ) by {
            assert(a.drop_first()[i] == a[i + 1]);
        }
        lemma_trim_start_space_prefix(a.drop_first(), x);
    } else {
        assert(a + x =~= x);
    }
}

proof fn lemma_trim_end_space_suffix(x: Seq<char>, b: Seq<char>)
    requires
        all_space(b),
    ensures
        trim_end(x + b) == trim_end(x),
    decreases b.len(),
{
    if b.len() > 0 {
        assert((x + b).last() == b[b.len() - 1]);
        assert((x + b).drop_last() =~= x + b.drop_last());
        assert forall|i: int| 0 <= i < b.drop_last().len() implies is_space(
            #[trigger] b.drop_last()[i],
        ) by {
            assert(b.drop_last()[i] == b[i]);
        }
        lemma_trim_end_space_suffix(x, b.drop_last());
    } else {
        assert(x + b =~= x);
    }
}

proof fn lemma_trim_start_append(x: Seq<char>, b: Seq<char>)
    requires
        all_space(b),
    ensures
        trim_start(x).len() > 0 ==> trim_start(x + b) == trim_start(x) + b,
        trim_start(x).len() == 0 ==> trim_start(x + b).len() == 0,
    decreases x.len(),
{
    if x.len() == 0 {
        assert(x + b =~= b + x);
        lemma_trim_start_space_prefix(b, x);
    } else if is_space(x[0]) {
        assert((x + b)[0] == x[0]);
        assert((x + b).drop_first() =~= x.drop_first() + b);
        lemma_trim_start_append(x.drop_first(), b);
    } else {
        assert((x + b)[0] == x[0]);
    }
}

/// White space around a text does not change it once trimmed.
pub proof fn lemma_trim_padded(a: Seq<char>, x: Seq<char>, b: Seq<char>)
    requires
        all_space(a),
        all_space(b),
    ensures
        trim(a + x + b) == trim(x),
{
    assert(a + x + b =~= a + (x + b));
    lemma_trim_start_space_prefix(a, x + b);
    lemma_trim_start_append(x, b);
    if trim_start(x).len() > 0 {
        lemma_trim_end_space_suffix(trim_start(x), b);
    } else {
        assert(trim_start(x + b) =~= trim_start(x));
    }
}

proof fn lemma_trim_start_first(x: Seq<char>)
    ensures
        trim_start(x).len() > 0 ==> !is_space(trim_start(x)[0]),
    decreases x.len(),
{
    if x.len() > 0 && is_space(x[0]) {
        lemma_trim_start_first(x.drop_first());
    }
}

proof fn lemma_trim_end_prefix(y: Seq<char>)
    ensures
        trim_end(y).len() <= y.len(),
        trim_end(y) == y.take(trim_end(y).len() as int),
        trim_end(y).len() > 0 ==> !is_space(trim_end(y).last()),
    decreases y.len(),
{
    if y.len() > 0 && is_space(y.last()) {
        lemma_trim_end_prefix(y.drop_last());
        let k = trim_end(y.drop_last()).len() as int;
        assert(y.drop_last().take(k) =~= y.take(k));
    } else {
        assert(y.take(y.len() as int) =~= y);
    }
}

/// A trimmed text neither starts nor ends with white space, and trimming it
/// again changes nothing.
pub proof fn lemma_trim_shape(x: Seq<char>)
    ensures
        trim(x).len() > 0 ==> !is_space(trim(x)[0]) && !is_space(trim(x).last()),
        trim(trim(x)) == trim(x),
{
    let s = trim_start(x);
    let t = trim(x);
    lemma_trim_start_first(x);
    lemma_trim_end_prefix(s);
    if t.len() > 0 {
        assert(t[0] == s[0]);
        assert(trim_start(t) == t);
        assert(trim_end(t) == t);
    } else {
        assert(trim_start(t) == t);
    }
}

// ---------------------------------------------------------------------------
// Executable helpers
// ---------------------------------------------------------------------------
// Executable helpers
// ---------------------------------------------------------------------------

/// Appends `c` to `s` (`String::push`).
#[verifier::external_body]
fn push_char(s: &mut String, c: char)
    ensures
        final(s)@ == old(s)@.push(c),
{
    s.push(c);
}

/// The characters of `s`, in order.
pub fn chars_of(s: &str) -> (res: Vec<char>)
    ensures
        res@ == s@,
{
    let mut res: Vec<char> = Vec::new();
    for c in it: s.chars()
        invariant
            res@ == it.seq().take(it.index() as int),
    {
        res.push(c);
    }
    res
}

/// The text made of `v[from..to]`.
pub fn text_of_range(v: &Vec<char>, from: usize, to: usize) -> (res: String)
    requires
        from <= to <= v.len(),
    ensures
        res@ == v@.subrange(from as int, to as int),
{
    let mut res = String::new();
    let mut i = from;
    while i < to
        invariant
            from <= i <= to <= v.len(),
            res@ == v@.subrange(from as int, i as int),
        decreases to - i,
    {
        push_char(&mut res, v[i]);
        assert(v@.subrange(from as int, i + 1) =~= v@.subrange(from as int, i as int).push(v[i as int]));
        i = i + 1;
    }
    res
}

/// The text made of all of `v`.
pub fn text_of(v: &Vec<char>) -> (res: String)
    ensures
        res@ == v@,
{
    let res = text_of_range(v, 0, v.len());
    assert(v@.subrange(0, v.len() as int) =~= v@);
    res
}

/// `v[from..to]` as a new vector.
pub fn sub_chars(v: &Vec<char>, from: usize, to: usize) -> (res: Vec<char>)
    requires
        from <= to <= v.len(),
    ensures
        res@ == v@.subrange(from as int, to as int),
{
    let mut res: Vec<char> = Vec::new();
    let mut i = from;
    while i < to
        invariant
            from <= i <= to <= v.len(),
            res@ == v@.subrange(from as int, i as int),
        decreases to - i,
    {
        res.push(v[i]);
        assert(v@.subrange(from as int, i + 1) =~= v@.subrange(from as int, i as int).push(v[i as int]));
        i = i + 1;
    }
    res
}

/// `a` followed by `b`.
pub fn concat_chars(a: &Vec<char>, b: &Vec<char>) -> (res: Vec<char>)
    ensures
        res@ == a@ + b@,
{
    let mut res: Vec<char> = Vec::new();
    let mut i: usize = 0;
    while i < a.len()
        invariant
            i <= a.len(),
            res@ == a@.take(i as int),
        decreases a.len() - i,
    {
        res.push(a[i]);
        proof { lemma_take_push(a@, i as int); }
        i = i + 1;
    }
    assert(a@.take(a.len() as int) =~= a@);
    let mut j: usize = 0;
    while j < b.len()
        invariant
            j <= b.len(),
            res@ == a@ + b@.take(j as int),
        decreases b.len() - j,
    {
        res.push(b[j]);
        assert(a@ + b@.take(j + 1) =~= (a@ + b@.take(j as int)).push(b[j as int]));
        j = j + 1;
    }
    assert(b@.take(b.len() as int) =~= b@);
    res
}

/// Whether `v1` and `v2` hold the same characters.
pub fn chars_equal(v1: &Vec<char>, v2: &Vec<char>) -> (res: bool)
    ensures
        res == (v1@ == v2@),
{
    if v1.len() != v2.len() {
        return false;
    }
    let mut i: usize = 0;
    while i < v1.len()
        invariant
            v1.len() == v2.len(),
            i <= v1.len(),
            forall|j: int| 0 <= j < i ==> v1@[j] == v2@[j],
        decreases v1.len() - i,
    {
        if v1[i] != v2[i] {
            return false;
        }
        i = i + 1;
    }
    assert(v1@ =~= v2@);
    true
}

/// Whether `c` is a white-space character.
pub fn is_space_char(c: char) -> (res: bool)
    ensures
        res == is_space(c),
{
    c == '\t' || c == '\n' || c == '\u{0B}' || c == '\u{0C}' || c == '\r' || c == ' ' || c
        == '\u{85}' || c == '\u{A0}' || c == '\u{1680}' || ('\u{2000}' <= c && c <= '\u{200A}')
        || c == '\u{2028}' || c == '\u{2029}' || c == '\u{202F}' || c == '\u{205F}' || c
        == '\u{3000}'
}

/// The bounds of `v` with leading and trailing white space left out.
pub fn trim_bounds(v: &Vec<char>) -> (res: (usize, usize))
    ensures
        res.0 <= res.1 <= v.len(),
        v@.subrange(res.0 as int, res.1 as int) == trim(v@),
        v@.subrange(res.0 as int, v.len() as int) == trim_start(v@),
{
    let n = v.len();
    let mut i: usize = 0;
    assert(v@.skip(0) =~= v@);
    while i < n && is_space_char(v[i])
        invariant
            i <= n == v.len(),
            trim_start(v@.skip(i as int)) == trim_start(v@),
        decreases n - i,
    {
        proof { lemma_trim_start_skip(v@, i as int); }
        i = i + 1;
    }
    assert(trim_start(v@) == v@.skip(i as int));
    assert(v@.skip(i as int) =~= v@.subrange(i as int, n as int));
    let mut j: usize = n;
    while j > i && is_space_char(v[j - 1])
        invariant
            i <= j <= n == v.len(),
            trim_end(v@.subrange(i as int, j as int)) == trim(v@),
        decreases j,
    {
        assert(v@.subrange(i as int, j as int).drop_last() =~= v@.subrange(i as int, j - 1));
        j = j - 1;
    }
    (i, j)
}

/// `s` without leading and trailing white space (`str::trim`).
pub fn trim_text(s: &str) -> (res: String)
    ensures
        res@ == trim(s@),
{
    let v = chars_of(s);
    let (a, b) = trim_bounds(&v);
    text_of_range(&v, a, b)
}

/// The characters of `s` without leading and trailing white space.
pub fn trimmed_chars(s: &str) -> (res: Vec<char>)
    ensures
        res@ == trim(s@),
{
    let v = chars_of(s);
    let (a, b) = trim_bounds(&v);
    sub_chars(&v, a, b)
}

/// `s` without trailing white space (`str::trim_end`).
pub fn trim_end_chars(v: &Vec<char>) -> (res: Vec<char>)
    ensures
        res@ == trim_end(v@),
{
    let n = v.len();
    let mut j: usize = n;
    assert(v@.subrange(0, n as int) =~= v@);
    while j > 0 && is_space_char(v[j - 1])
        invariant
            j <= n == v.len(),
            trim_end(v@.subrange(0, j as int)) == trim_end(v@),
        decreases j,
    {
        assert(v@.subrange(0, j as int).drop_last() =~= v@.subrange(0, j - 1));
        j = j - 1;
    }
    sub_chars(v, 0, j)
}

/// Whether `pat` occurs in `v` at position `i`.
pub fn matches_at_exec(v: &Vec<char>, pat: &Vec<char>, i: usize) -> (res: bool)
    ensures
        res == matches_at(v@, pat@, i as int),
{
    if i > v.len() || pat.len() > v.len() - i {
        return false;
    }
    let mut k: usize = 0;
    while k < pat.len()
        invariant
            i + pat.len() <= v.len(),
            k <= pat.len(),
            forall|j: int| 0 <= j < k ==> v@[i + j] == pat@[j],
        decreases pat.len() - k,
    {
        if v[i + k] != pat[k] {
            assert(v@.subrange(i as int, i + pat.len())[k as int] != pat@[k as int]);
            return false;
        }
        k = k + 1;
    }
    assert(v@.subrange(i as int, i + pat.len()) =~= pat@);
    true
}

/// The first position of `pat` in `v` (`str::find`, counted in characters).
pub fn find_chars(v: &Vec<char>, pat: &Vec<char>) -> (res: Option<usize>)
    ensures
        res matches Some(k) ==> find(v@, pat@) == Some(k as int),
        res is None ==> find(v@, pat@) is None,
{
    if pat.len() > v.len() {
        return None;
    }
    if pat.len() == 0 {
        assert(v@.subrange(0, 0) =~= pat@);
        return Some(0);
    }
    let last = v.len() - pat.len();
    let mut i: usize = 0;
    while i <= last
        invariant
            last + pat.len() == v.len(),
            pat.len() >= 1,
            i <= last + 1,
            find(v@, pat@) == find_from(v@, pat@, i as int),
        decreases last + 1 - i,
    {
        if matches_at_exec(v, pat, i) {
            return Some(i);
        }
        i = i + 1;
    }
    None
}

/// The first position of `c` in `v`.
pub fn find_char(v: &Vec<char>, c: char) -> (res: Option<usize>)
    ensures
        res matches Some(k) ==> find(v@, seq![c]) == Some(k as int),
        res is None ==> find(v@, seq![c]) is None,
{
    let mut pat: Vec<char> = Vec::new();
    pat.push(c);
    assert(pat@ =~= seq![c]);
    find_chars(v, &pat)
}

/// Whether `pat` occurs in `v`.
pub fn contains_chars(v: &Vec<char>, pat: &Vec<char>) -> (res: bool)
    ensures
        res == contains_text(v@, pat@),
{
    find_chars(v, pat).is_some()
}

/// Whether `v` holds the character `c`.
pub fn contains_char(v: &Vec<char>, c: char) -> (res: bool)
    ensures
        res == contains_text(v@, seq![c]),
{
    find_char(v, c).is_some()
}

/// Whether `v` begins with `pat`.
pub fn starts_with_chars(v: &Vec<char>, pat: &Vec<char>) -> (res: bool)
    ensures
        res == starts_with(v@, pat@),
{
    let r = matches_at_exec(v, pat, 0);
    assert(pat.len() <= v.len() ==> v@.subrange(0, pat.len() as int) =~= v@.take(pat.len() as int));
    r
}

/// Whether `v` ends with `pat`.
pub fn ends_with_chars(v: &Vec<char>, pat: &Vec<char>) -> (res: bool)
    ensures
        res == ends_with(v@, pat@),
{
    if pat.len() > v.len() {
        return false;
    }
    let r = matches_at_exec(v, pat, v.len() - pat.len());
    assert(v@.subrange(v.len() - pat.len(), v.len() as int) =~= v@.skip(v.len() - pat.len()));
    r
}

/// `c` with ASCII upper-case letters mapped to lower case (`char::to_ascii_lowercase`).
pub fn ascii_lower_char(c: char) -> (res: char)
    ensures
        res == ascii_lower(c),
{
    if 'A' <= c && c <= 'Z' {
        let code: u8 = (c as u8) + 32;
        code as char
    } else {
        c
    }
}

/// The Unicode lower-case form of `s` (`str::to_lowercase`).
#[verifier::external_body]
pub(crate) fn lowercase(s: &str) -> (res: String)
    ensures
        res@ == lowercase_text(s@),
{
    s.to_lowercase()
}

/// The words of `v`, split at white space (`str::split_whitespace`).
pub fn split_words(v: &Vec<char>) -> (res: Vec<Vec<char>>)
    ensures
        res@.len() == words(v@).len(),
        forall|k: int| 0 <= k < res@.len() ==> #[trigger] res@[k]@ == words(v@)[k],
{
    let mut res: Vec<Vec<char>> = Vec::new();
    let mut cur: Vec<char> = Vec::new();
    let mut in_word = false;
    let mut i: usize = 0;
    while i < v.len()
        invariant
            i <= v.len(),
            in_word == (i > 0 && !is_space(v@[i - 1])),
            !in_word ==> cur@ == Seq::<char>::empty(),
            in_word ==> words(v@.take(i as int)) == res@.map_values(|w: Vec<char>| w@).push(cur@),
            !in_word ==> words(v@.take(i as int)) == res@.map_values(|w: Vec<char>| w@),
        decreases v.len() - i,
    {
        let c = v[i];
        let ghost t = v@.take(i + 1);
        let ghost before = words(v@.take(i as int));
        let ghost mapped_before = res@.map_values(|w: Vec<char>| w@);
        let ghost cur_before = cur@;
        proof {
            lemma_take_push(v@, i as int);
            assert(t.drop_last() == v@.take(i as int));
            assert(t.last() == c);
        }
        if is_space_char(c) {
            if in_word {
                let done = cur;
                cur = Vec::new();
                res.push(done);
                assert(res@.map_values(|w: Vec<char>| w@) =~= mapped_before.push(cur_before));
            }
            in_word = false;
            assert(words(t) == before);
        } else {
            cur.push(c);
            if in_word {
                assert(t.len() >= 2 && t[t.len() - 2] == v@[i - 1]);
                assert(words(t) == before.update(before.len() - 1, before.last().push(c)));
                assert(before.update(before.len() - 1, before.last().push(c)) =~= mapped_before.push(cur@));
            } else {
                assert(t.len() >= 2 ==> t[t.len() - 2] == v@[i - 1]);
                assert(words(t) == before.push(seq![c]));
                assert(cur@ =~= seq![c]);
            }
            in_word = true;
        }
        i = i + 1;
    }
    if in_word {
        res.push(cur);
    }
    assert(v@.take(v.len() as int) =~= v@);
    assert forall|k: int| 0 <= k < res@.len() implies #[trigger] res@[k]@ == words(v@)[k] by {
        assert(res@.map_values(|w: Vec<char>| w@)[k] == res@[k]@);
    }
    res
}

/// The pieces of `v` between line feeds.
pub fn split_lines(v: &Vec<char>) -> (res: Vec<Vec<char>>)
    ensures
        res@.len() == lines(v@).len(),
        forall|k: int| 0 <= k < res@.len() ==> #[trigger] res@[k]@ == lines(v@)[k],
{
    let mut done: Vec<Vec<char>> = Vec::new();
    let mut cur: Vec<char> = Vec::new();
    let mut i: usize = 0;
    while i < v.len()
        invariant
            i <= v.len(),
            lines(v@.take(i as int)) == done@.map_values(|w: Vec<char>| w@).push(cur@),
        decreases v.len() - i,
    {
        let c = v[i];
        let ghost before = done@.map_values(|w: Vec<char>| w@);
        let ghost cur_before = cur@;
        proof { lemma_take_push(v@, i as int); }
        if c == '\n' {
            let finished = cur;
            cur = Vec::new();
            done.push(finished);
            assert(done@.map_values(|w: Vec<char>| w@) =~= before.push(cur_before));
            assert(lines(v@.take(i + 1)) =~= done@.map_values(|w: Vec<char>| w@).push(cur@));
        } else {
            cur.push(c);
            assert(lines(v@.take(i + 1)) =~= done@.map_values(|w: Vec<char>| w@).push(cur@));
        }
        i = i + 1;
    }
    done.push(cur);
    assert(v@.take(v.len() as int) =~= v@);
    assert forall|k: int| 0 <= k < done@.len() implies #[trigger] done@[k]@ == lines(v@)[k] by {
        assert(done@.map_values(|w: Vec<char>| w@)[k] == done@[k]@);
    }
    done
}

} // verus!
