//! Identities held by `ssh-agent`: reading its listing, naming and finding keys.

use vstd::prelude::*;
use crate::ssh::texts;
use crate::digest::{fingerprint, fingerprint_of, hex_digit, lemma_fingerprint_len, sha256_of, short_fingerprint};
use crate::text::{
    chars_of, chars_equal, concat_chars, contains_chars, contains_text, is_space, join_spaced,
    trim_start, lemma_take_push, lemma_trim_shape, lemma_words_are_words, lemma_join_words_trimmed, is_word,
    lines, lowercase, lowercase_text, split_lines, split_words, starts_with, starts_with_chars, text_of, trim,
    trim_bounds, trimmed_chars, trim_text, words, sub_chars,
};

verus! {

broadcast use vstd::string::group_string_axioms;

/// One identity listed by `ssh-add -L`.
#[derive(Debug, Clone)]
pub struct AgentKey {
    /// The whole public-key line.
    pub line: String,
    /// The key type, such as `ssh-ed25519`.
    pub key_type: String,
    /// The comment after the encoded key (possibly empty).
    pub comment: String,
}

/// An identity as texts.
pub struct KeyView {
    pub line: Seq<char>,
    pub key_type: Seq<char>,
    pub comment: Seq<char>,
}

impl View for AgentKey {
    type V = KeyView;

    open spec fn view(&self) -> KeyView {
        KeyView { line: self.line@, key_type: self.key_type@, comment: self.comment@ }
    }
}

/// The identities of a list of keys.
pub open spec fn key_views(keys: Seq<AgentKey>) -> Seq<KeyView> {
    keys.map_values(|k: AgentKey| k@)
}

/// The name a key goes by: its comment, or the first eight digits of its
/// fingerprint when the comment is empty.
pub open spec fn key_identifier(k: KeyView) -> Seq<char> {
    if k.comment.len() == 0 {
        fingerprint_of(k.line).take(8)
    } else {
        k.comment
    }
}

impl AgentKey {
    /// The name this key goes by (see `key_identifier`).
    pub fn identifier(&self) -> (res: String)
        ensures
            res@ == key_identifier(self@),
    {
        if self.comment.as_str().is_empty() {
            short_fingerprint(self.line.as_str())
        } else {
            self.comment.clone()
        }
    }

    /// An equal copy of this key.
    pub fn duplicate(&self) -> (res: AgentKey)
        ensures
            res@ == self@,
    {
        AgentKey {
            line: self.line.clone(),
            key_type: self.key_type.clone(),
            comment: self.comment.clone(),
        }
    }
}

// ---------------------------------------------------------------------------
// Reading `ssh-add -L`
// ---------------------------------------------------------------------------

/// The identity described by a trimmed listing line: at least a type and an
/// encoded key, followed by an optional comment (its words joined by spaces).
pub open spec fn key_of_line(l: Seq<char>) -> Option<KeyView> {
    let ws = words(l);
    if ws.len() >= 2 {
        Some(KeyView { line: l, key_type: ws[0], comment: join_spaced(ws.skip(2)) })
    } else {
        None
    }
}

/// The identities described by the lines `ls`, in order.
pub open spec fn keys_of_lines(ls: Seq<Seq<char>>) -> Seq<KeyView>
    decreases ls.len(),
{
    if ls.len() == 0 {
        seq![]
    } else {
        let prev = keys_of_lines(ls.drop_last());
        match key_of_line(trim(ls.last())) {
            Some(k) => prev.push(k),
            None => prev,
        }
    }
}

/// A message by which the agent says it holds no identity.
pub open spec fn says_no_identities(text: Seq<char>) -> bool {
    contains_text(text, "no identities"@)
}

/// The identities in a successful listing: none when any line says the agent
/// holds none, else one per well-formed line.
pub open spec fn listed_keys(stdout: Seq<char>) -> Seq<KeyView> {
    let ls = lines(stdout);
    if exists|i: int| 0 <= i < ls.len() && says_no_identities(trim(#[trigger] ls[i])) {
        seq![]
    } else {
        keys_of_lines(ls)
    }
}

/// Why a listing failed.
#[derive(Debug)]
pub enum AgentListError {
    /// `ssh-add` failed without a message.
    StatusOnly,
    /// `ssh-add` failed with this (trimmed) message.
    Message(String),
}

/// What a run of `ssh-add -L` means: the identities, or why it failed. A failed
/// run that says the agent holds no identity is an empty listing.
pub open spec fn agent_reply(success: bool, stdout: Seq<char>, stderr: Seq<char>) -> Result<
    Seq<KeyView>,
    Option<Seq<char>>,
> {
    if success {
        Ok(listed_keys(stdout))
    } else if says_no_identities(trim(stderr)) || says_no_identities(trim(stdout)) {
        Ok(seq![])
    } else if trim(stderr).len() == 0 {
        Err(None)
    } else {
        Err(Some(trim(stderr)))
    }
}

/// What a run of `ssh-add -L` means. A failed run whose trimmed standard error
/// or trimmed standard output says "no identities" is an empty listing, as is
/// a successful one with a line saying so; any other failed run is an error
/// carrying the trimmed standard error, or no message when that is blank.
pub proof fn lemma_agent_reply_cases(success: bool, stdout: Seq<char>, stderr: Seq<char>)
    ensures
        !success && (contains_text(trim(stderr), "no identities"@) || contains_text(
            trim(stdout),
            "no identities"@,
        )) ==> agent_reply(success, stdout, stderr) == Ok::<Seq<KeyView>, Option<Seq<char>>>(seq![]),
        !success && !contains_text(trim(stderr), "no identities"@) && !contains_text(
            trim(stdout),
            "no identities"@,
        ) ==> agent_reply(success, stdout, stderr) == Err::<Seq<KeyView>, Option<Seq<char>>>(
            if trim(stderr).len() == 0 {
                None
            } else {
                Some(trim(stderr))
            },
        ),
        success && (exists|i: int| 0 <= i < lines(stdout).len() && contains_text(
            trim(#[trigger] lines(stdout)[i]),
            "no identities"@,
        )) ==> agent_reply(success, stdout, stderr) == Ok::<Seq<KeyView>, Option<Seq<char>>>(seq![]),
        success && !(exists|i: int| 0 <= i < lines(stdout).len() && contains_text(
            trim(#[trigger] lines(stdout)[i]),
            "no identities"@,
        )) ==> agent_reply(success, stdout, stderr) == Ok::<Seq<KeyView>, Option<Seq<char>>>(
            keys_of_lines(lines(stdout)),
        ),
{
}

/// The words of `ws` from position `from` on, joined by single spaces.
fn join_words_from(ws: &Vec<Vec<char>>, from: usize) -> (res: Vec<char>)
    requires
        from <= ws.len(),
    ensures
        res@ == join_spaced(ws@.map_values(|w: Vec<char>| w@).skip(from as int)),
{
    let ghost all = ws@.map_values(|w: Vec<char>| w@);
    let mut res: Vec<char> = Vec::new();
    let mut i = from;
    assert(all.subrange(from as int, from as int) =~= Seq::<Seq<char>>::empty());
    while i < ws.len()
        invariant
            from <= i <= ws.len(),
            all == ws@.map_values(|w: Vec<char>| w@),
            res@ == join_spaced(all.subrange(from as int, i as int)),
        decreases ws.len() - i,
    {
        let ghost prev = all.subrange(from as int, i as int);
        let ghost next = all.subrange(from as int, i + 1);
        assert(next.drop_last() =~= prev);
        assert(next.last() == ws@[i as int]@);
        if i == from {
            res = concat_chars(&res, &ws[i]);
            assert(next.len() == 1);
            assert(res@ =~= next[0]);
        } else {
            let mut sep: Vec<char> = Vec::new();
            sep.push(' ');
            res = concat_chars(&concat_chars(&res, &sep), &ws[i]);
            assert(sep@ =~= seq![' ']);
        }
        i = i + 1;
    }
    assert(all.subrange(from as int, ws.len() as int) =~= all.skip(from as int));
    res
}

/// The identity described by the trimmed line `l`, if well-formed.
fn key_from_line(l: &Vec<char>) -> (res: Option<AgentKey>)
    ensures
        match res {
            Some(k) => key_of_line(l@) == Some(k@),
            None => key_of_line(l@) is None,
        },
{
    let ws = split_words(l);
    if ws.len() < 2 {
        return None;
    }
    let comment = join_words_from(&ws, 2);
    let ghost wv = words(l@);
    assert(ws@.map_values(|w: Vec<char>| w@) =~= wv);
    Some(AgentKey { line: text_of(l), key_type: text_of(&ws[0]), comment: text_of(&comment) })
}

/// Whether `text` says that the agent holds no identity.
fn says_none(text: &Vec<char>) -> (res: bool)
    ensures
        res == says_no_identities(text@),
{
    contains_chars(text, &chars_of("no identities"))
}

/// The identities in a successful `ssh-add -L` listing (see `listed_keys`).
pub fn parse_agent_keys(stdout: &str) -> (res: Vec<AgentKey>)
    ensures
        key_views(res@) == listed_keys(stdout@),
{
    let v = chars_of(stdout);
    let ls = split_lines(&v);
    let ghost all = lines(stdout@);
    let mut keys: Vec<AgentKey> = Vec::new();
    let mut i: usize = 0;
    while i < ls.len()
        invariant
            i <= ls.len() == all.len(),
            all == lines(stdout@),
            forall|k: int| 0 <= k < ls@.len() ==> #[trigger] ls@[k]@ == all[k],
            forall|k: int| 0 <= k < i ==> !says_no_identities(trim(#[trigger] all[k])),
            key_views(keys@) == keys_of_lines(all.take(i as int)),
        decreases ls.len() - i,
    {
        let (a, b) = trim_bounds(&ls[i]);
        let t = sub_chars(&ls[i], a, b);
        if says_none(&t) {
            assert(says_no_identities(trim(all[i as int])));
            return Vec::new();
        }
        let ghost before = key_views(keys@);
        proof { lemma_take_push(all, i as int); }
        match key_from_line(&t) {
            Some(k) => {
                keys.push(k);
                assert(key_views(keys@) =~= before.push(keys@[keys@.len() - 1]@));
            },
            None => {},
        }
        i = i + 1;
    }
    assert(all.take(all.len() as int) =~= all);
    keys
}

/// What a run of `ssh-add -L` means (see `agent_reply`), given whether it
/// succeeded and what it printed.
pub fn interpret_agent_listing(success: bool, stdout: &str, stderr: &str) -> (res: Result<
    Vec<AgentKey>,
    AgentListError,
>)
    ensures
        match res {
            Ok(keys) => agent_reply(success, stdout@, stderr@) == Ok::<
                Seq<KeyView>,
                Option<Seq<char>>,
            >(key_views(keys@)),
            Err(AgentListError::StatusOnly) => agent_reply(success, stdout@, stderr@) == Err::<
                Seq<KeyView>,
                Option<Seq<char>>,
            >(None),
            Err(AgentListError::Message(m)) => agent_reply(success, stdout@, stderr@) == Err::<
                Seq<KeyView>,
                Option<Seq<char>>,
            >(Some(m@)),
        },
{
    if success {
        return Ok(parse_agent_keys(stdout));
    }
    let msg = trimmed_chars(stderr);
    let out = trimmed_chars(stdout);
    if says_none(&msg) || says_none(&out) {
        let none: Vec<AgentKey> = Vec::new();
        assert(key_views(none@) =~= Seq::<KeyView>::empty());
        return Ok(none);
    }
    if msg.len() == 0 {
        Err(AgentListError::StatusOnly)
    } else {
        Err(AgentListError::Message(text_of(&msg)))
    }
}

/// The `ssh-add` program to run: on Windows the first OpenSSH install found
/// (under Program Files, then System32), otherwise `ssh-add` from the path.
pub fn resolve_ssh_add_binary(windows: bool, program_files_found: bool, system32_found: bool) -> (res:
    String)
    ensures
        res@ == if windows && program_files_found {
            "C:/Program Files/OpenSSH/ssh-add.exe"@
        } else if windows && system32_found {
            "C:/Windows/System32/OpenSSH/ssh-add.exe"@
        } else {
            "ssh-add"@
        },
{
    if windows && program_files_found {
        "C:/Program Files/OpenSSH/ssh-add.exe".to_string()
    } else if windows && system32_found {
        "C:/Windows/System32/OpenSSH/ssh-add.exe".to_string()
    } else {
        "ssh-add".to_string()
    }
}

// ---------------------------------------------------------------------------
// Finding a key by what the user calls it
// ---------------------------------------------------------------------------

/// What the outside computations give for one key: the lower-case form of its
/// comment and its fingerprint.
pub struct KeyForms {
    pub lowered_comment: Seq<char>,
    pub fingerprint: Seq<char>,
}

/// The lower-case comment and fingerprint of every key.
pub open spec fn key_forms(keys: Seq<KeyView>) -> Seq<KeyForms> {
    keys.map_values(
        |k: KeyView| KeyForms { lowered_comment: lowercase_text(k.comment), fingerprint: fingerprint_of(k.line) },
    )
}

/// The forms given as two lists, one entry per key.
pub open spec fn forms_of(lowered_comments: Seq<Seq<char>>, fingerprints: Seq<Seq<char>>) -> Seq<KeyForms> {
    Seq::new(
        lowered_comments.len(),
        |i: int| KeyForms { lowered_comment: lowered_comments[i], fingerprint: fingerprints[i] },
    )
}

/// The ways a key can answer to an identifier.
pub enum Criterion {
    /// The comment equals the identifier.
    Exact,
    /// The comments match once both are lower-cased.
    Caseless,
    /// One of the key's fingerprint and the identifier starts with the other.
    Fingerprint,
}

/// Whether key `k`, with forms `f`, answers to `id` (lower-cased: `lowered_id`)
/// by criterion `how`.
pub open spec fn answers_to(k: KeyView, f: KeyForms, id: Seq<char>, lowered_id: Seq<char>, how: Criterion) -> bool {
    match how {
        Criterion::Exact => k.comment == id,
        Criterion::Caseless => f.lowered_comment == lowered_id,
        Criterion::Fingerprint => fingerprint_matches(f.fingerprint, id),
    }
}

/// The first position at or after `i` of a key that answers to `id` by `how`.
pub open spec fn first_answering(
    keys: Seq<KeyView>,
    forms: Seq<KeyForms>,
    id: Seq<char>,
    lowered_id: Seq<char>,
    how: Criterion,
    i: int,
) -> Option<int>
    decreases keys.len() - i,
{
    if i < 0 || i >= keys.len() {
        None
    } else if answers_to(keys[i], forms[i], id, lowered_id, how) {
        Some(i)
    } else {
        first_answering(keys, forms, id, lowered_id, how, i + 1)
    }
}

/// A decimal digit.
pub open spec fn is_digit(c: char) -> bool {
    '0' <= c && c <= '9'
}

/// The value of a string of decimal digits.
pub open spec fn digits_value(d: Seq<char>) -> nat
    decreases d.len(),
{
    if d.len() == 0 {
        0
    } else {
        digits_value(d.drop_last()) * 10 + ((d.last() as u32) - 48) as nat
    }
}

/// The `usize` written in `s` as `str::parse` reads it: an optional `+`, then
/// one or more decimal digits, with a value that fits.
pub open spec fn parsed_index(s: Seq<char>) -> Option<nat> {
    parsed_digits(unsigned_part(s))
}

/// `s` without a leading `+`.
pub open spec fn unsigned_part(s: Seq<char>) -> Seq<char> {
    if s.len() > 0 && s[0] == '+' {
        s.drop_first()
    } else {
        s
    }
}

/// The value of `d` when it is one or more decimal digits and fits a `usize`.
pub open spec fn parsed_digits(d: Seq<char>) -> Option<nat> {
    if d.len() > 0 && (forall|i: int| 0 <= i < d.len() ==> is_digit(#[trigger] d[i]))
        && digits_value(d) <= usize::MAX {
        Some(digits_value(d))
    } else {
        None
    }
}

/// One fingerprint text starts with the other.
pub open spec fn fingerprint_matches(fp: Seq<char>, id: Seq<char>) -> bool {
    starts_with(fp, id) || starts_with(id, fp)
}

/// Which key a trimmed identifier `id` names, tried in this order: the first
/// key with exactly that comment; the first whose lower-cased comment equals the
/// lower-cased identifier; the key at that index; the first whose fingerprint
/// starts with it or is a prefix of it. A blank identifier names none.
pub open spec fn pick_key(keys: Seq<KeyView>, forms: Seq<KeyForms>, id: Seq<char>, lowered_id: Seq<char>) -> Option<int> {
    if id.len() == 0 {
        None
    } else {
        match first_answering(keys, forms, id, lowered_id, Criterion::Exact, 0) {
            Some(i) => Some(i),
            None => match first_answering(keys, forms, id, lowered_id, Criterion::Caseless, 0) {
                Some(i) => Some(i),
                None => match parsed_index(id) {
                    Some(k) => if k < keys.len() {
                        Some(k as int)
                    } else {
                        first_answering(keys, forms, id, lowered_id, Criterion::Fingerprint, 0)
                    },
                    None => first_answering(keys, forms, id, lowered_id, Criterion::Fingerprint, 0),
                },
            },
        }
    }
}

/// Which key an identifier names among `keys` (see `pick_key`): the identifier
/// is trimmed, and comments and identifier are compared in Unicode lower case.
pub open spec fn find_key_index(keys: Seq<KeyView>, identifier: Seq<char>) -> Option<int> {
    pick_key(keys, key_forms(keys), trim(identifier), lowercase_text(trim(identifier)))
}

proof fn lemma_digits_push(d: Seq<char>, i: int)
    requires
        0 <= i < d.len(),
    ensures
        digits_value(d.take(i + 1)) == digits_value(d.take(i)) * 10 + ((d[i] as u32) - 48) as nat,
{
    assert(d.take(i + 1).drop_last() =~= d.take(i));
}

proof fn lemma_digits_monotone(d: Seq<char>, k: int, n: int)
    requires
        0 <= k <= n <= d.len(),
    ensures
        digits_value(d.take(k)) <= digits_value(d.take(n)),
    decreases n - k,
{
    if k < n {
        lemma_digits_monotone(d, k, n - 1);
        lemma_digits_push(d, n - 1);
    }
}

/// The index written in `s` (see `parsed_index`).
pub fn parse_index(s: &Vec<char>) -> (res: Option<usize>)
    ensures
        match res {
            Some(k) => parsed_index(s@) == Some(k as nat),
            None => parsed_index(s@) is None,
        },
{
    let start: usize = if s.len() > 0 && s[0] == '+' {
        1
    } else {
        0
    };
    let d = sub_chars(s, start, s.len());
    assert(d@ =~= unsigned_part(s@));
    if d.len() == 0 {
        return None;
    }
    let mut i: usize = 0;
    while i < d.len()
        invariant
            i <= d.len(),
            d@ == unsigned_part(s@),
            forall|j: int| 0 <= j < i ==> is_digit(#[trigger] d@[j]),
        decreases d.len() - i,
    {
        if !('0' <= d[i] && d[i] <= '9') {
            assert(!is_digit(d@[i as int]));
            assert(parsed_digits(d@) is None);
            return None;
        }
        i = i + 1;
    }
    let mut value: usize = 0;
    let mut k: usize = 0;
    assert(d@.take(0) =~= Seq::<char>::empty());
    while k < d.len()
        invariant
            k <= d.len(),
            d.len() > 0,
            d@ == unsigned_part(s@),
            forall|j: int| 0 <= j < d.len() ==> is_digit(#[trigger] d@[j]),
            value as nat == digits_value(d@.take(k as int)),
        decreases d.len() - k,
    {
        let c = d[k];
        assert(is_digit(d@[k as int]));
        let digit: usize = ((c as u32) - 48) as usize;
        proof { lemma_digits_push(d@, k as int); }
        match value.checked_mul(10) {
            Some(m) => match m.checked_add(digit) {
                Some(next) => {
                    value = next;
                },
                None => {
                    proof { lemma_digits_monotone(d@, k + 1, d@.len() as int); }
                    assert(d@.take(d@.len() as int) =~= d@);
                    return None;
                },
            },
            None => {
                proof { lemma_digits_monotone(d@, k + 1, d@.len() as int); }
                assert(d@.take(d@.len() as int) =~= d@);
                return None;
            },
        }
        k = k + 1;
    }
    assert(d@.take(d@.len() as int) =~= d@);
    Some(value)
}

/// The key that `identifier` names among `keys` (see `find_key_index`).
pub fn find_key_by_identifier(keys: &[AgentKey], identifier: &str) -> (res: Option<AgentKey>)
    ensures
        match res {
            Some(k) => find_key_index(key_views(keys@), identifier@) matches Some(i) && 0 <= i
                < keys@.len() && k@ == keys@[i]@,
            None => find_key_index(key_views(keys@), identifier@) is None,
        },
{
    match find_key_position(keys, identifier) {
        Some(i) => Some(keys[i].duplicate()),
        None => None,
    }
}

/// The position of the key that `identifier` names among `keys`.
pub fn find_key_position(keys: &[AgentKey], identifier: &str) -> (res: Option<usize>)
    ensures
        match res {
            Some(i) => find_key_index(key_views(keys@), identifier@) == Some(i as int) && i
                < keys@.len(),
            None => find_key_index(key_views(keys@), identifier@) is None,
        },
{
    let ghost kv = key_views(keys@);
    let id = trim_text(identifier);
    let lowered_id = lowercase(id.as_str());
    let mut lowered_comments: Vec<String> = Vec::new();
    let mut fingerprints: Vec<String> = Vec::new();
    let mut i: usize = 0;
    while i < keys.len()
        invariant
            i <= keys.len() == kv.len(),
            kv == key_views(keys@),
            lowered_comments.len() == i,
            fingerprints.len() == i,
            forms_of(texts(lowered_comments@), texts(fingerprints@)) == key_forms(kv).take(i as int),
        decreases keys.len() - i,
    {
        assert(kv[i as int] == keys@[i as int]@);
        let ghost lc = texts(lowered_comments@);
        let ghost fps = texts(fingerprints@);
        lowered_comments.push(lowercase(keys[i].comment.as_str()));
        fingerprints.push(fingerprint(keys[i].line.as_str()));
        assert(texts(lowered_comments@) =~= lc.push(lowercase_text(kv[i as int].comment)));
        assert(texts(fingerprints@) =~= fps.push(fingerprint_of(kv[i as int].line)));
        assert(forms_of(texts(lowered_comments@), texts(fingerprints@)) =~= key_forms(kv).take(
            i + 1,
        ));
        i = i + 1;
    }
    assert(key_forms(kv).take(keys.len() as int) =~= key_forms(kv));
    pick_key_position(keys, id.as_str(), &lowered_comments, lowered_id.as_str(), &fingerprints)
}

/// The position of the key that the trimmed identifier `id` names among `keys`
/// (see `pick_key`), given the lower-cased comments of the keys, the lower-cased
/// identifier and the fingerprints of the keys.
pub fn pick_key_position(
    keys: &[AgentKey],
    id: &str,
    lowered_comments: &Vec<String>,
    lowered_id: &str,
    fingerprints: &Vec<String>,
) -> (res: Option<usize>)
    requires
        lowered_comments.len() == keys.len(),
        fingerprints.len() == keys.len(),
    ensures
        match res {
            Some(i) => pick_key(
                key_views(keys@),
                forms_of(texts(lowered_comments@), texts(fingerprints@)),
                id@,
                lowered_id@,
            ) == Some(i as int) && i < keys@.len(),
            None => pick_key(
                key_views(keys@),
                forms_of(texts(lowered_comments@), texts(fingerprints@)),
                id@,
                lowered_id@,
            ) is None,
        },
{
    let ghost kv = key_views(keys@);
    let ghost forms = forms_of(texts(lowered_comments@), texts(fingerprints@));
    let id_chars = chars_of(id);
    if id_chars.len() == 0 {
        return None;
    }
    let n = keys.len();
    let mut i: usize = 0;
    while i < n
        invariant
            i <= n == keys@.len() == kv.len(),
            kv == key_views(keys@),
            forms == forms_of(texts(lowered_comments@), texts(fingerprints@)),
            id_chars@ == id@,
            id@.len() > 0,
            first_answering(kv, forms, id@, lowered_id@, Criterion::Exact, 0) == first_answering(
                kv,
                forms,
                id@,
                lowered_id@,
                Criterion::Exact,
                i as int,
            ),
        decreases n - i,
    {
        assert(kv[i as int] == keys@[i as int]@);
        if chars_equal(&chars_of(keys[i].comment.as_str()), &id_chars) {
            return Some(i);
        }
        i = i + 1;
    }
    let lowered_id_chars = chars_of(lowered_id);
    let mut i: usize = 0;
    while i < n
        invariant
            i <= n == keys@.len() == kv.len() == lowered_comments.len(),
            lowered_id_chars@ == lowered_id@,
            kv == key_views(keys@),
            forms == forms_of(texts(lowered_comments@), texts(fingerprints@)),
            id@.len() > 0,
            first_answering(kv, forms, id@, lowered_id@, Criterion::Exact, 0) is None,
            first_answering(kv, forms, id@, lowered_id@, Criterion::Caseless, 0) == first_answering(
                kv,
                forms,
                id@,
                lowered_id@,
                Criterion::Caseless,
                i as int,
            ),
        decreases n - i,
    {
        assert(forms[i as int].lowered_comment == lowered_comments@[i as int]@);
        if chars_equal(&chars_of(lowered_comments[i].as_str()), &lowered_id_chars) {
            return Some(i);
        }
        i = i + 1;
    }
    match parse_index(&id_chars) {
        Some(k) => {
            if k < n {
                return Some(k);
            }
        },
        None => {},
    }
    let mut i: usize = 0;
    while i < n
        invariant
            i <= n == keys@.len() == kv.len() == fingerprints.len() == lowered_comments.len(),
            kv == key_views(keys@),
            id_chars@ == id@,
            forms == forms_of(texts(lowered_comments@), texts(fingerprints@)),
            id@.len() > 0,
            first_answering(kv, forms, id@, lowered_id@, Criterion::Exact, 0) is None,
            first_answering(kv, forms, id@, lowered_id@, Criterion::Caseless, 0) is None,
            match parsed_index(id@) {
                Some(k) => k >= n,
                None => true,
            },
            first_answering(kv, forms, id@, lowered_id@, Criterion::Fingerprint, 0)
                == first_answering(kv, forms, id@, lowered_id@, Criterion::Fingerprint, i as int),
        decreases n - i,
    {
        assert(forms[i as int].fingerprint == fingerprints@[i as int]@);
        let fp = chars_of(fingerprints[i].as_str());
        if starts_with_chars(&fp, &id_chars) || starts_with_chars(&id_chars, &fp) {
            return Some(i);
        }
        i = i + 1;
    }
    None
}

// ---------------------------------------------------------------------------
// Laws
// ---------------------------------------------------------------------------

proof fn lemma_first_answering_some(
    keys: Seq<KeyView>,
    forms: Seq<KeyForms>,
    id: Seq<char>,
    lowered_id: Seq<char>,
    how: Criterion,
    i: int,
    j: int,
)
    requires
        0 <= i <= j < keys.len(),
        answers_to(keys[j], forms[j], id, lowered_id, how),
    ensures
        first_answering(keys, forms, id, lowered_id, how, i) is Some,
    decreases j - i,
{
    if !answers_to(keys[i], forms[i], id, lowered_id, how) {
        lemma_first_answering_some(keys, forms, id, lowered_id, how, i + 1, j);
    }
}

proof fn lemma_first_answering_bounds(
    keys: Seq<KeyView>,
    forms: Seq<KeyForms>,
    id: Seq<char>,
    lowered_id: Seq<char>,
    how: Criterion,
    i: int,
)
    requires
        0 <= i,
    ensures
        first_answering(keys, forms, id, lowered_id, how, i) matches Some(k) ==> i <= k
            < keys.len(),
    decreases keys.len() - i,
{
    if i < keys.len() && !answers_to(keys[i], forms[i], id, lowered_id, how) {
        lemma_first_answering_bounds(keys, forms, id, lowered_id, how, i + 1);
    }
}

/// `first_answering` is the first key that answers: the position it gives
/// answers and no earlier one does, and when it gives none, no key answers.
pub proof fn lemma_first_answering_is_first(
    keys: Seq<KeyView>,
    forms: Seq<KeyForms>,
    id: Seq<char>,
    lowered_id: Seq<char>,
    how: Criterion,
    i: int,
)
    requires
        0 <= i,
    ensures
        first_answering(keys, forms, id, lowered_id, how, i) matches Some(k) ==> i <= k < keys.len()
            && answers_to(keys[k], forms[k], id, lowered_id, how) && forall|j: int|
            i <= j < k ==> !answers_to(#[trigger] keys[j], forms[j], id, lowered_id, how),
        first_answering(keys, forms, id, lowered_id, how, i) is None ==> forall|j: int|
            i <= j < keys.len() ==> !answers_to(#[trigger] keys[j], forms[j], id, lowered_id, how),
    decreases keys.len() - i,
{
    if i < keys.len() && !answers_to(keys[i], forms[i], id, lowered_id, how) {
        lemma_first_answering_is_first(keys, forms, id, lowered_id, how, i + 1);
    }
}

/// The order in which an identifier picks a key. A blank identifier picks
/// none. Otherwise: the first key whose comment is the identifier; else the
/// first whose lower-cased comment is the lower-cased identifier; else, when the
/// identifier reads as an index below the number of keys, the key at that
/// index; else the first key whose fingerprint starts with the identifier or is
/// a prefix of it, and none when there is no such key.
pub proof fn lemma_pick_key_order(keys: Seq<KeyView>, forms: Seq<KeyForms>, id: Seq<char>, lowered_id: Seq<char>)
    requires
        forms.len() == keys.len(),
    ensures
        id.len() == 0 ==> pick_key(keys, forms, id, lowered_id) is None,
        id.len() > 0 && (exists|j: int| 0 <= j < keys.len() && (#[trigger] keys[j]).comment == id)
            ==> (pick_key(keys, forms, id, lowered_id) matches Some(i) && 0 <= i < keys.len()
            && keys[i].comment == id && forall|j: int| 0 <= j < i ==> (#[trigger] keys[j]).comment != id),
        id.len() > 0 && (forall|j: int| 0 <= j < keys.len() ==> (#[trigger] keys[j]).comment != id)
            && (exists|j: int| 0 <= j < keys.len() && (#[trigger] forms[j]).lowered_comment == lowered_id)
            ==> (pick_key(keys, forms, id, lowered_id) matches Some(i) && 0 <= i < keys.len()
            && forms[i].lowered_comment == lowered_id && forall|j: int|
            0 <= j < i ==> (#[trigger] forms[j]).lowered_comment != lowered_id),
        id.len() > 0 && (forall|j: int| 0 <= j < keys.len() ==> (#[trigger] keys[j]).comment != id)
            && (forall|j: int| 0 <= j < keys.len() ==> (#[trigger] forms[j]).lowered_comment != lowered_id)
            && (parsed_index(id) matches Some(k) && k < keys.len())
            ==> pick_key(keys, forms, id, lowered_id) == Some(parsed_index(id)->0 as int),
        id.len() > 0 && (forall|j: int| 0 <= j < keys.len() ==> (#[trigger] keys[j]).comment != id)
            && (forall|j: int| 0 <= j < keys.len() ==> (#[trigger] forms[j]).lowered_comment != lowered_id)
            && !(parsed_index(id) matches Some(k) && k < keys.len()) ==> {
            &&& pick_key(keys, forms, id, lowered_id) matches Some(i) ==> 0 <= i < keys.len() && (
            starts_with(forms[i].fingerprint, id) || starts_with(id, forms[i].fingerprint))
                && forall|j: int| 0 <= j < i ==> !(starts_with((#[trigger] forms[j]).fingerprint, id)
                || starts_with(id, forms[j].fingerprint))
            &&& pick_key(keys, forms, id, lowered_id) is None ==> forall|j: int| 0 <= j < keys.len()
                ==> !(starts_with((#[trigger] forms[j]).fingerprint, id) || starts_with(id, forms[j].fingerprint))
        },
{
    lemma_first_answering_is_first(keys, forms, id, lowered_id, Criterion::Exact, 0);
    lemma_first_answering_is_first(keys, forms, id, lowered_id, Criterion::Caseless, 0);
    lemma_first_answering_is_first(keys, forms, id, lowered_id, Criterion::Fingerprint, 0);
    assert forall|j: int| 0 <= j < keys.len() implies answers_to(keys[j], forms[j], id, lowered_id, Criterion::Exact)
        == (keys[j].comment == id) && answers_to(keys[j], forms[j], id, lowered_id, Criterion::Caseless)
        == (forms[j].lowered_comment == lowered_id) by {}
}

/// An identifier that no comment matches, exactly or in lower case, and that
/// reads as an index below the number of keys names the key at that index,
/// whatever the fingerprints.
pub proof fn lemma_find_key_by_index(keys: Seq<KeyView>, identifier: Seq<char>)
    requires
        trim(identifier).len() > 0,
        forall|j: int| 0 <= j < keys.len() ==> (#[trigger] keys[j]).comment != trim(identifier),
        forall|j: int| 0 <= j < keys.len() ==> lowercase_text((#[trigger] keys[j]).comment)
            != lowercase_text(trim(identifier)),
        parsed_index(trim(identifier)) matches Some(k) && k < keys.len(),
    ensures
        find_key_index(keys, identifier) == Some(parsed_index(trim(identifier))->0 as int),
{
    let f = key_forms(keys);
    assert forall|j: int| 0 <= j < keys.len() implies (#[trigger] f[j]).lowered_comment != lowercase_text(
        trim(identifier),
    ) by {
        assert(f[j].lowered_comment == lowercase_text(keys[j].comment));
    }
    lemma_pick_key_order(keys, f, trim(identifier), lowercase_text(trim(identifier)));
}

/// The key an identifier names is one of the keys.
pub proof fn lemma_find_key_index_bounds(keys: Seq<KeyView>, identifier: Seq<char>)
    ensures
        find_key_index(keys, identifier) matches Some(k) ==> 0 <= k < keys.len(),
{
    let id = trim(identifier);
    let f = key_forms(keys);
    let l = lowercase_text(id);
    lemma_first_answering_bounds(keys, f, id, l, Criterion::Exact, 0);
    lemma_first_answering_bounds(keys, f, id, l, Criterion::Caseless, 0);
    lemma_first_answering_bounds(keys, f, id, l, Criterion::Fingerprint, 0);
}

proof fn lemma_trim_unchanged(s: Seq<char>)
    requires
        s.len() > 0,
        !is_space(s[0]),
        !is_space(s.last()),
    ensures
        trim(s) == s,
{
    assert(trim_start(s) == s);
}

proof fn lemma_hex_not_space(n: int)
    requires
        0 <= n < 16,
    ensures
        !is_space(hex_digit(n)),
{
    let digits = seq!['0', '1', '2', '3', '4', '5', '6', '7', '8', '9', 'a', 'b', 'c', 'd', 'e', 'f'];
    assert(hex_digit(n) == digits[n]);
}

/// An identifier names its key again: among the keys it was taken from, the
/// identifier of a key whose comment has no surrounding white space always
/// finds a key.
pub proof fn lemma_identifier_found(keys: Seq<KeyView>, j: int)
    requires
        0 <= j < keys.len(),
        trim(keys[j].comment) == keys[j].comment,
    ensures
        find_key_index(keys, key_identifier(keys[j])) is Some,
{
    let k = keys[j];
    let id = key_identifier(k);
    let f = key_forms(keys);
    if k.comment.len() > 0 {
        lemma_first_answering_some(keys, f, id, lowercase_text(id), Criterion::Exact, 0, j);
    } else {
        let fp = fingerprint_of(k.line);
        lemma_fingerprint_len(k.line);
        let bytes = sha256_of(vstd::utf8::encode_utf8(k.line))@;
        assert(id == fp.take(8));
        assert(!is_space(id[0])) by {
            lemma_hex_not_space(bytes[0] as int / 16);
        }
        assert(!is_space(id[7])) by {
            lemma_hex_not_space(bytes[3] as int % 16);
        }
        lemma_trim_unchanged(id);
        assert(starts_with(fp, id));
        assert(f[j].fingerprint == fp);
        let l = lowercase_text(id);
        if first_answering(keys, f, id, l, Criterion::Exact, 0) is None && first_answering(
            keys,
            f,
            id,
            l,
            Criterion::Caseless,
            0,
        ) is None {
            lemma_first_answering_some(keys, f, id, l, Criterion::Fingerprint, 0, j);
        }
    }
}

/// `s` never has two spaces in a row.
pub open spec fn no_double_space(s: Seq<char>) -> bool {
    forall|i: int| 0 <= i < s.len() - 1 ==> !(#[trigger] s[i] == ' ' && s[i + 1] == ' ')
}

/// The shape of a listed key: a trimmed line of at least two words, whose type
/// is the first word and whose comment is the words after the second, joined
/// by single spaces.
pub open spec fn listed_key_shape(k: KeyView) -> bool {
    &&& trim(k.line) == k.line
    &&& words(k.line).len() >= 2
    &&& k.key_type == words(k.line)[0]
    &&& k.key_type.len() > 0
    &&& k.comment == join_spaced(words(k.line).skip(2))
    &&& trim(k.comment) == k.comment
    &&& no_double_space(k.comment)
}

proof fn lemma_join_no_double_space(ws: Seq<Seq<char>>)
    requires
        forall|k: int| 0 <= k < ws.len() ==> is_word(#[trigger] ws[k]),
    ensures
        no_double_space(join_spaced(ws)),
    decreases ws.len(),
{
    if ws.len() == 1 {
        assert(is_word(ws[0]));
    } else if ws.len() > 1 {
        let p = ws.drop_last();
        assert forall|k: int| 0 <= k < p.len() implies is_word(#[trigger] p[k]) by {
            assert(p[k] == ws[k]);
        }
        lemma_join_no_double_space(p);
        lemma_join_words_trimmed(p);
        let a = join_spaced(p);
        let w = ws.last();
        assert(is_word(ws[ws.len() - 1]));
        assert(is_word(p[p.len() - 1]));
        let j = join_spaced(ws);
        assert(j == a + seq![' '] + w);
        assert forall|i: int| 0 <= i < j.len() - 1 implies !(#[trigger] j[i] == ' ' && j[i + 1] == ' ') by {
            if i + 1 < a.len() {
                assert(j[i] == a[i] && j[i + 1] == a[i + 1]);
            } else if i + 1 == a.len() {
                assert(j[i] == a.last());
                assert(a.last() == p.last().last());
            } else if i == a.len() {
                assert(j[i + 1] == w[0]);
            } else {
                assert(j[i] == w[i - a.len() - 1]);
            }
        }
    }
}

proof fn lemma_keys_of_lines_shape(ls: Seq<Seq<char>>)
    ensures
        forall|j: int| 0 <= j < keys_of_lines(ls).len() ==> listed_key_shape(#[trigger] keys_of_lines(ls)[j]),
    decreases ls.len(),
{
    if ls.len() > 0 {
        lemma_keys_of_lines_shape(ls.drop_last());
        let prev = keys_of_lines(ls.drop_last());
        let l = trim(ls.last());
        let ws = words(l);
        lemma_words_are_words(l);
        lemma_trim_shape(ls.last());
        if ws.len() >= 2 {
            let rest = ws.skip(2);
            assert forall|k: int| 0 <= k < rest.len() implies is_word(#[trigger] rest[k]) by {
                assert(rest[k] == ws[k + 2]);
            }
            lemma_join_words_trimmed(rest);
            lemma_join_no_double_space(rest);
            assert(is_word(ws[0]));
            let r = keys_of_lines(ls);
            assert forall|j: int| 0 <= j < r.len() implies listed_key_shape(#[trigger] r[j]) by {
                if j < prev.len() {
                    assert(r[j] == prev[j]);
                }
            }
        }
    }
}

/// Every key of a listing has the shape of `listed_key_shape`.
pub proof fn lemma_listed_key_shape(stdout: Seq<char>, j: int)
    requires
        0 <= j < listed_keys(stdout).len(),
    ensures
        listed_key_shape(listed_keys(stdout)[j]),
{
    lemma_keys_of_lines_shape(lines(stdout));
}

/// Every key of a listing goes by a name that finds a key in that listing
/// again: a default identifier taken from the agent's keys names a key as long
/// as the same keys are loaded.
pub proof fn lemma_listed_identifier_found(stdout: Seq<char>, j: int)
    requires
        0 <= j < listed_keys(stdout).len(),
    ensures
        find_key_index(listed_keys(stdout), key_identifier(listed_keys(stdout)[j])) is Some,
{
    lemma_listed_key_shape(stdout, j);
    lemma_identifier_found(listed_keys(stdout), j);
}

} // verus!
