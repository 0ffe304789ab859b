//! Where a public key is stored: file names derived from key comments.

use vstd::prelude::*;
use crate::digest::{fingerprint_of, hex_digit, lemma_fingerprint_len, sha256_of, short_fingerprint};
use crate::text::{ascii_lower, ascii_lower_char, chars_of, concat_chars, text_of, trim_end,
    trim_end_chars, chars_equal};

verus! {

broadcast use vstd::string::group_string_axioms;

/// Characters a key name keeps (besides `-`): ASCII letters, digits and `_`.
pub open spec fn is_name_char(c: char) -> bool {
    ('a' <= c && c <= 'z') || ('A' <= c && c <= 'Z') || ('0' <= c && c <= '9') || c == '_'
}

/// `s` ends with a hyphen.
pub open spec fn ends_with_hyphen(s: Seq<char>) -> bool {
    s.len() > 0 && s.last() == '-'
}

/// `raw` with letters lower-cased and every run of other characters (and hyphens)
/// collapsed to one `-`.
pub open spec fn collapse_name(raw: Seq<char>) -> Seq<char>
    decreases raw.len(),
{
    if raw.len() == 0 {
        seq![]
    } else {
        let prev = collapse_name(raw.drop_last());
        let c = raw.last();
        if is_name_char(c) {
            prev.push(ascii_lower(c))
        } else if ends_with_hyphen(prev) {
            prev
        } else {
            prev.push('-')
        }
    }
}

/// `s` without leading hyphens.
pub open spec fn trim_hyphens_start(s: Seq<char>) -> Seq<char>
    decreases s.len(),
{
    if s.len() > 0 && s[0] == '-' {
        trim_hyphens_start(s.drop_first())
    } else {
        s
    }
}

/// `s` without trailing hyphens.
pub open spec fn trim_hyphens_end(s: Seq<char>) -> Seq<char>
    decreases s.len(),
{
    if s.len() > 0 && s.last() == '-' {
        trim_hyphens_end(s.drop_last())
    } else {
        s
    }
}

/// Device names that Windows refuses as file names.
pub open spec fn reserved_names() -> Seq<Seq<char>> {
    seq![
        "con"@, "prn"@, "aux"@, "nul"@, "com1"@, "com2"@, "com3"@, "com4"@, "com5"@, "com6"@,
        "com7"@, "com8"@, "com9"@, "lpt1"@, "lpt2"@, "lpt3"@, "lpt4"@, "lpt5"@, "lpt6"@, "lpt7"@,
        "lpt8"@, "lpt9"@,
    ]
}

/// The file-name stem for a key comment: collapsed, without outer hyphens, and
/// empty when that is a reserved device name.
pub open spec fn sanitized_name(raw: Seq<char>) -> Seq<char> {
    let t = trim_hyphens_end(trim_hyphens_start(collapse_name(raw)));
    if reserved_names().contains(t) {
        seq![]
    } else {
        t
    }
}

/// A character that may appear in a sanitized name.
pub open spec fn is_clean_char(c: char) -> bool {
    ('a' <= c && c <= 'z') || ('0' <= c && c <= '9') || c == '_' || c == '-'
}

/// Only clean characters, and never two hyphens in a row.
pub open spec fn is_clean(s: Seq<char>) -> bool {
    &&& forall|i: int| 0 <= i < s.len() ==> is_clean_char(#[trigger] s[i])
    &&& forall|i: int| 0 <= i < s.len() - 1 ==> !(#[trigger] s[i] == '-' && s[i + 1] == '-')
}

/// The stored file name for a key: `key-<short>.pub` for a comment without a
/// usable name, `<name>.pub` when that file is free or already holds this key,
/// `<name>-<short>.pub` when it holds another key; `short` is the first eight
/// digits of the key's fingerprint.
pub open spec fn key_file_name_with(
    line: Seq<char>,
    comment: Seq<char>,
    short: Seq<char>,
    primary_content: Option<Seq<char>>,
) -> Seq<char> {
    let name = sanitized_name(comment);
    if name.len() == 0 {
        "key-"@ + short + ".pub"@
    } else {
        match primary_content {
            None => name + ".pub"@,
            Some(content) => if trim_end(content) == line {
                name + ".pub"@
            } else {
                name + "-"@ + short + ".pub"@
            },
        }
    }
}

/// The stored file name for the key `line` (see `key_file_name_with`), with the
/// first eight digits of its own fingerprint.
pub open spec fn key_file_name_of(
    line: Seq<char>,
    comment: Seq<char>,
    primary_content: Option<Seq<char>>,
) -> Seq<char> {
    key_file_name_with(line, comment, fingerprint_of(line).take(8), primary_content)
}

// ---------------------------------------------------------------------------

proof fn lemma_ascii_lower_clean(c: char)
    requires
        is_name_char(c),
    ensures
        is_clean_char(ascii_lower(c)),
        ascii_lower(c) != '-',
{
    if 'A' <= c && c <= 'Z' {
        assert(65 <= (c as u32) <= 90);
        vstd::utf8::char_u32_cast(ascii_lower(c), ((c as u32) + 32) as u32);
    }
}

proof fn lemma_collapse_clean(raw: Seq<char>)
    ensures
        is_clean(collapse_name(raw)),
    decreases raw.len(),
{
    if raw.len() > 0 {
        let prev = collapse_name(raw.drop_last());
        lemma_collapse_clean(raw.drop_last());
        let c = raw.last();
        if is_name_char(c) {
            lemma_ascii_lower_clean(c);
        }
        let r = collapse_name(raw);
        assert forall|i: int| 0 <= i < r.len() implies is_clean_char(#[trigger] r[i]) by {
            if i < prev.len() {
                assert(r[i] == prev[i]);
            }
        }
        assert forall|i: int| 0 <= i < r.len() - 1 implies !(#[trigger] r[i] == '-' && r[i + 1]
            == '-') by {
            if i + 1 < prev.len() {
                assert(r[i] == prev[i] && r[i + 1] == prev[i + 1]);
            }
        }
    }
}

proof fn lemma_clean_subrange(s: Seq<char>, a: int, b: int)
    requires
        is_clean(s),
        0 <= a <= b <= s.len(),
    ensures
        is_clean(s.subrange(a, b)),
{
    let t = s.subrange(a, b);
    assert forall|i: int| 0 <= i < t.len() implies is_clean_char(#[trigger] t[i]) by {
        assert(t[i] == s[a + i]);
    }
    assert forall|i: int| 0 <= i < t.len() - 1 implies !(#[trigger] t[i] == '-' && t[i + 1]
        == '-') by {
        assert(t[i] == s[a + i] && t[i + 1] == s[a + i + 1]);
    }
}

proof fn lemma_trim_hyphens_start(s: Seq<char>)
    ensures
        exists|k: int| 0 <= k <= s.len() && trim_hyphens_start(s) == s.subrange(k, s.len() as int),
        trim_hyphens_start(s).len() > 0 ==> trim_hyphens_start(s)[0] != '-',
    decreases s.len(),
{
    if s.len() > 0 && s[0] == '-' {
        lemma_trim_hyphens_start(s.drop_first());
        let k = choose|k: int|
            0 <= k <= s.drop_first().len() && trim_hyphens_start(s.drop_first())
                == s.drop_first().subrange(k, s.drop_first().len() as int);
        assert(s.drop_first().subrange(k, s.drop_first().len() as int) =~= s.subrange(
            k + 1,
            s.len() as int,
        ));
    } else {
        assert(s.subrange(0, s.len() as int) =~= s);
    }
}

proof fn lemma_trim_hyphens_end(s: Seq<char>)
    ensures
        exists|k: int| 0 <= k <= s.len() && trim_hyphens_end(s) == s.subrange(0, k),
        trim_hyphens_end(s).len() > 0 ==> trim_hyphens_end(s).last() != '-',
        s.len() > 0 && s[0] != '-' ==> trim_hyphens_end(s).len() > 0 && trim_hyphens_end(s)[0]
            != '-',
    decreases s.len(),
{
    if s.len() > 0 && s.last() == '-' {
        lemma_trim_hyphens_end(s.drop_last());
        let k = choose|k: int|
            0 <= k <= s.drop_last().len() && trim_hyphens_end(s.drop_last())
                == s.drop_last().subrange(0, k);
        assert(s.drop_last().subrange(0, k) =~= s.subrange(0, k));
        if s.len() > 0 && s[0] != '-' {
            assert(s.len() >= 2);
            assert(s.drop_last()[0] == s[0]);
        }
    } else {
        assert(s.subrange(0, s.len() as int) =~= s);
    }
}

/// What a sanitized name looks like: only `a`-`z`, `0`-`9`, `_` and `-`, no two
/// hyphens in a row, no hyphen at either end, and never a reserved device name.
pub proof fn lemma_sanitized_name_shape(raw: Seq<char>)
    ensures
        is_clean(sanitized_name(raw)),
        sanitized_name(raw).len() > 0 ==> sanitized_name(raw)[0] != '-' && sanitized_name(
            raw,
        ).last() != '-',
        !reserved_names().contains(sanitized_name(raw)),
{
    let c = collapse_name(raw);
    lemma_collapse_clean(raw);
    let s1 = trim_hyphens_start(c);
    lemma_trim_hyphens_start(c);
    let k1 = choose|k: int| 0 <= k <= c.len() && s1 == c.subrange(k, c.len() as int);
    lemma_clean_subrange(c, k1, c.len() as int);
    let t = trim_hyphens_end(s1);
    lemma_trim_hyphens_end(s1);
    let k2 = choose|k: int| 0 <= k <= s1.len() && t == s1.subrange(0, k);
    lemma_clean_subrange(s1, 0, k2);
    let empty: Seq<char> = seq![];
    if reserved_names().contains(t) {
        assert(is_clean(empty));
        assert(!reserved_names().contains(empty)) by {
            if reserved_names().contains(empty) {
                let j = choose|j: int| 0 <= j < reserved_names().len() && reserved_names()[j] == empty;
                reveal_strlit("con");
                reveal_strlit("prn");
                reveal_strlit("aux");
                reveal_strlit("nul");
                reveal_strlit("com1");
                reveal_strlit("com2");
                reveal_strlit("com3");
                reveal_strlit("com4");
                reveal_strlit("com5");
                reveal_strlit("com6");
                reveal_strlit("com7");
                reveal_strlit("com8");
                reveal_strlit("com9");
                reveal_strlit("lpt1");
                reveal_strlit("lpt2");
                reveal_strlit("lpt3");
                reveal_strlit("lpt4");
                reveal_strlit("lpt5");
                reveal_strlit("lpt6");
                reveal_strlit("lpt7");
                reveal_strlit("lpt8");
                reveal_strlit("lpt9");
                assert(reserved_names()[j].len() > 0);
            }
        }
    }
}

proof fn lemma_collapse_of_clean(s: Seq<char>)
    requires
        is_clean(s),
    ensures
        collapse_name(s) == s,
    decreases s.len(),
{
    if s.len() > 0 {
        let p = s.drop_last();
        assert(is_clean(p)) by {
            lemma_clean_subrange(s, 0, s.len() - 1);
            assert(s.subrange(0, s.len() - 1) =~= p);
        }
        lemma_collapse_of_clean(p);
        let c = s.last();
        assert(is_clean_char(s[s.len() - 1]));
        if c == '-' {
            if s.len() >= 2 {
                assert(!(s[s.len() - 2] == '-' && s[s.len() - 1] == '-'));
            }
            assert(s =~= p.push('-'));
        } else {
            assert(is_name_char(c));
            assert(ascii_lower(c) == c);
            assert(s =~= p.push(c));
        }
    }
}

/// Sanitizing is stable: a sanitized name sanitizes to itself.
pub proof fn lemma_sanitized_name_idempotent(raw: Seq<char>)
    ensures
        sanitized_name(sanitized_name(raw)) == sanitized_name(raw),
{
    let r = sanitized_name(raw);
    lemma_sanitized_name_shape(raw);
    lemma_collapse_of_clean(r);
    if r.len() > 0 {
        assert(trim_hyphens_start(r) == r);
        assert(trim_hyphens_end(r) == r);
    } else {
        assert(trim_hyphens_start(r) == r);
        assert(trim_hyphens_end(r) == r);
    }
}

/// A character of a stored key's file name.
pub open spec fn is_plain_file_char(c: char) -> bool {
    is_clean_char(c) || c == '.'
}

/// Every character of `s` may stand in a stored key's file name.
pub open spec fn is_plain_file_text(s: Seq<char>) -> bool {
    forall|i: int| 0 <= i < s.len() ==> is_plain_file_char(#[trigger] s[i])
}

proof fn lemma_plain_concat(a: Seq<char>, b: Seq<char>)
    requires
        is_plain_file_text(a),
        is_plain_file_text(b),
    ensures
        is_plain_file_text(a + b),
{
    assert forall|i: int| 0 <= i < (a + b).len() implies is_plain_file_char(#[trigger] (a + b)[i]) by {
        if i < a.len() {
            assert((a + b)[i] == a[i]);
        } else {
            assert((a + b)[i] == b[i - a.len()]);
        }
    }
}

proof fn lemma_hex_digit_plain(n: int)
    requires
        0 <= n < 16,
    ensures
        is_plain_file_char(hex_digit(n)),
{
    let digits = seq!['0', '1', '2', '3', '4', '5', '6', '7', '8', '9', 'a', 'b', 'c', 'd', 'e', 'f'];
    assert(hex_digit(n) == digits[n]);
}

proof fn lemma_short_fingerprint_plain(line: Seq<char>)
    ensures
        is_plain_file_text(fingerprint_of(line).take(8)),
{
    lemma_fingerprint_len(line);
    let bytes = sha256_of(vstd::utf8::encode_utf8(line))@;
    let t = fingerprint_of(line).take(8);
    assert forall|i: int| 0 <= i < t.len() implies is_plain_file_char(#[trigger] t[i]) by {
        if i % 2 == 0 {
            lemma_hex_digit_plain(bytes[i / 2] as int / 16);
        } else {
            lemma_hex_digit_plain(bytes[i / 2] as int % 16);
        }
    }
}

/// Stored key files stay in the key directory: a file name is made only of
/// `a`-`z`, `0`-`9`, `_`, `-` and `.`, and ends in `.pub`.
pub proof fn lemma_key_file_name_is_plain(line: Seq<char>, comment: Seq<char>, primary_content: Option<
    Seq<char>,
>)
    ensures
        is_plain_file_text(key_file_name_of(line, comment, primary_content)),
        key_file_name_of(line, comment, primary_content).len() > 4,
        key_file_name_of(line, comment, primary_content).skip(
            key_file_name_of(line, comment, primary_content).len() - 4,
        ) == ".pub"@,
{
    reveal_strlit(".pub");
    reveal_strlit("key-");
    reveal_strlit("-");
    let name = sanitized_name(comment);
    let short = fingerprint_of(line).take(8);
    lemma_sanitized_name_shape(comment);
    lemma_short_fingerprint_plain(line);
    lemma_fingerprint_len(line);
    assert(is_plain_file_text(".pub"@));
    assert(is_plain_file_text("key-"@));
    assert(is_plain_file_text("-"@));
    assert(is_plain_file_text(name));
    lemma_plain_concat("key-"@, short);
    lemma_plain_concat("key-"@ + short, ".pub"@);
    lemma_plain_concat(name, ".pub"@);
    lemma_plain_concat(name, "-"@);
    lemma_plain_concat(name + "-"@, short);
    lemma_plain_concat(name + "-"@ + short, ".pub"@);
    let r = key_file_name_of(line, comment, primary_content);
    assert(r.skip(r.len() - 4) =~= ".pub"@);
}

// ---------------------------------------------------------------------------

fn reserved_name_list() -> (res: Vec<Vec<char>>)
    ensures
        res@.len() == reserved_names().len(),
        forall|j: int| 0 <= j < res@.len() ==> #[trigger] res@[j]@ == reserved_names()[j],
{
    let res: Vec<Vec<char>> = vec![
        chars_of("con"), chars_of("prn"), chars_of("aux"), chars_of("nul"), chars_of("com1"),
        chars_of("com2"), chars_of("com3"), chars_of("com4"), chars_of("com5"), chars_of("com6"),
        chars_of("com7"), chars_of("com8"), chars_of("com9"), chars_of("lpt1"), chars_of("lpt2"),
        chars_of("lpt3"), chars_of("lpt4"), chars_of("lpt5"), chars_of("lpt6"), chars_of("lpt7"),
        chars_of("lpt8"), chars_of("lpt9"),
    ];
    res
}

fn is_reserved(t: &Vec<char>) -> (res: bool)
    ensures
        res == reserved_names().contains(t@),
{
    let names = reserved_name_list();
    let mut j: usize = 0;
    while j < names.len()
        invariant
            j <= names.len() == reserved_names().len(),
            forall|k: int| 0 <= k < names@.len() ==> #[trigger] names@[k]@ == reserved_names()[k],
            forall|k: int| 0 <= k < j ==> reserved_names()[k] != t@,
        decreases names.len() - j,
    {
        if chars_equal(&names[j], t) {
            assert(reserved_names()[j as int] == t@);
            return true;
        }
        j = j + 1;
    }
    false
}

fn is_name_char_exec(c: char) -> (res: bool)
    ensures
        res == is_name_char(c),
{
    ('a' <= c && c <= 'z') || ('A' <= c && c <= 'Z') || ('0' <= c && c <= '9') || c == '_'
}

/// The file-name stem for a key comment (see `sanitized_name`).
pub fn sanitized_key_name(raw: &str) -> (res: String)
    ensures
        res@ == sanitized_name(raw@),
{
    let v = chars_of(raw);
    let mut out: Vec<char> = Vec::new();
    let mut last_was_hyphen = false;
    let mut i: usize = 0;
    while i < v.len()
        invariant
            i <= v.len(),
            out@ == collapse_name(v@.take(i as int)),
            last_was_hyphen == ends_with_hyphen(out@),
        decreases v.len() - i,
    {
        let c = v[i];
        assert(v@.take(i + 1).drop_last() =~= v@.take(i as int));
        assert(v@.take(i + 1).last() == c);
        if is_name_char_exec(c) {
            let mapped = ascii_lower_char(c);
            proof { lemma_ascii_lower_clean(c); }
            out.push(mapped);
            last_was_hyphen = false;
        } else if !last_was_hyphen {
            out.push('-');
            last_was_hyphen = true;
        }
        i = i + 1;
    }
    assert(v@.take(v.len() as int) =~= v@);
    let mut a: usize = 0;
    let n = out.len();
    assert(out@.subrange(0, n as int) =~= out@);
    while a < n && out[a] == '-'
        invariant
            a <= n == out.len(),
            trim_hyphens_start(out@.subrange(a as int, n as int)) == trim_hyphens_start(out@),
        decreases n - a,
    {
        assert(out@.subrange(a as int, n as int).drop_first() =~= out@.subrange(a + 1, n as int));
        a = a + 1;
    }
    let mut b: usize = n;
    while b > a && out[b - 1] == '-'
        invariant
            a <= b <= n == out.len(),
            trim_hyphens_end(out@.subrange(a as int, b as int)) == trim_hyphens_end(
                trim_hyphens_start(out@),
            ),
        decreases b,
    {
        assert(out@.subrange(a as int, b as int).drop_last() =~= out@.subrange(a as int, b - 1));
        b = b - 1;
    }
    let mut t: Vec<char> = Vec::new();
    let mut k = a;
    while k < b
        invariant
            a <= k <= b <= n == out.len(),
            t@ == out@.subrange(a as int, k as int),
        decreases b - k,
    {
        t.push(out[k]);
        assert(out@.subrange(a as int, k + 1) =~= out@.subrange(a as int, k as int).push(
            out@[k as int],
        ));
        k = k + 1;
    }
    if is_reserved(&t) {
        String::new()
    } else {
        text_of(&t)
    }
}

/// The file name under which the key with `comment` is first looked for, when
/// the comment yields a usable name: `<name>.pub`.
pub fn primary_key_file_name(comment: &str) -> (res: Option<String>)
    ensures
        match res {
            Some(n) => sanitized_name(comment@).len() > 0 && n@ == sanitized_name(comment@)
                + ".pub"@,
            None => sanitized_name(comment@).len() == 0,
        },
{
    let name = sanitized_key_name(comment);
    if name.as_str().is_empty() {
        None
    } else {
        let r = concat_chars(&chars_of(name.as_str()), &chars_of(".pub"));
        Some(text_of(&r))
    }
}

/// The file name to store the key `line` with `comment` under, given what the
/// primary file `<name>.pub` holds (`None` when it does not exist).
pub fn key_file_name(line: &str, comment: &str, primary_content: Option<&str>) -> (res: String)
    ensures
        res@ == key_file_name_of(
            line@,
            comment@,
            match primary_content {
                Some(c) => Some(c@),
                None => None,
            },
        ),
{
    let short = short_fingerprint(line);
    key_file_name_from(line, comment, short.as_str(), primary_content)
}

/// The file name to store the key `line` with `comment` under (see
/// `key_file_name_with`), given the first eight digits of its fingerprint.
pub fn key_file_name_from(line: &str, comment: &str, short: &str, primary_content: Option<&str>) -> (res:
    String)
    ensures
        res@ == key_file_name_with(
            line@,
            comment@,
            short@,
            match primary_content {
                Some(c) => Some(c@),
                None => None,
            },
        ),
{
    let name = sanitized_key_name(comment);
    let short_chars = chars_of(short);
    let name_chars = chars_of(name.as_str());
    let pub_ext = chars_of(".pub");
    if name_chars.len() == 0 {
        let r = concat_chars(&concat_chars(&chars_of("key-"), &short_chars), &pub_ext);
        return text_of(&r);
    }
    let keep_primary = match primary_content {
        None => true,
        Some(content) => {
            let trimmed = trim_end_chars(&chars_of(content));
            chars_equal(&trimmed, &chars_of(line))
        },
    };
    if keep_primary {
        text_of(&concat_chars(&name_chars, &pub_ext))
    } else {
        let r = concat_chars(
            &concat_chars(&concat_chars(&name_chars, &chars_of("-")), &short_chars),
            &pub_ext,
        );
        text_of(&r)
    }
}

/// Whether the key file must be (re)written: unless it exists and, without
/// trailing white space, holds exactly `line`.
pub fn key_file_needs_write(existing: Option<&str>, line: &str) -> (res: bool)
    ensures
        res == match existing {
            Some(c) => trim_end(c@) != line@,
            None => true,
        },
{
    match existing {
        None => true,
        Some(content) => {
            let trimmed = trim_end_chars(&chars_of(content));
            !chars_equal(&trimmed, &chars_of(line))
        },
    }
}

/// The contents of a key file: the key line and a line feed.
pub fn key_file_contents(line: &str) -> (res: String)
    ensures
        res@ == line@.push('\n'),
{
    let mut v = chars_of(line);
    v.push('\n');
    text_of(&v)
}

} // verus!
