//! Choosing an identity, and the texts shown while doing so.

use vstd::prelude::*;
use crate::agent::{find_key_index, find_key_position, key_views, AgentKey, KeyView};
use crate::ssh::texts;
use crate::text::{chars_of, concat_chars, text_of};

verus! {

broadcast use vstd::string::group_string_axioms;

/// How a key is chosen, once the loaded keys are known.
#[derive(Debug)]
pub enum KeyChoice {
    /// The agent holds no identity.
    NoIdentities,
    /// No loaded key answers to the identifier given.
    UnknownIdentifier(String),
    /// The key at this position.
    Chosen(usize),
    /// Detect a working key for the remote automatically.
    AutoDetect,
    /// Go by the configured default key (see `choose_with_default`).
    ConsultDefault,
}

/// The first decision about which key to use: none without keys; the key an
/// explicit identifier names (or an error when none does); automatic detection
/// when asked for; else the configured default.
pub open spec fn key_choice_of(keys: Seq<KeyView>, explicit_key: Option<Seq<char>>, auto: bool) -> KeyChoiceView {
    if keys.len() == 0 {
        KeyChoiceView::NoIdentities
    } else {
        match explicit_key {
            Some(id) => match find_key_index(keys, id) {
                Some(i) => KeyChoiceView::Chosen(i),
                None => KeyChoiceView::UnknownIdentifier(id),
            },
            None => if auto {
                KeyChoiceView::AutoDetect
            } else {
                KeyChoiceView::ConsultDefault
            },
        }
    }
}

/// A key choice, as texts.
pub enum KeyChoiceView {
    NoIdentities,
    UnknownIdentifier(Seq<char>),
    Chosen(int),
    AutoDetect,
    ConsultDefault,
}

impl View for KeyChoice {
    type V = KeyChoiceView;

    open spec fn view(&self) -> KeyChoiceView {
        match self {
            KeyChoice::NoIdentities => KeyChoiceView::NoIdentities,
            KeyChoice::UnknownIdentifier(id) => KeyChoiceView::UnknownIdentifier(id@),
            KeyChoice::Chosen(i) => KeyChoiceView::Chosen(*i as int),
            KeyChoice::AutoDetect => KeyChoiceView::AutoDetect,
            KeyChoice::ConsultDefault => KeyChoiceView::ConsultDefault,
        }
    }
}

/// The first decision about which key to use (see `key_choice_of`).
pub fn resolve_key(keys: &[AgentKey], explicit_key: Option<&str>, auto: bool) -> (res: KeyChoice)
    ensures
        res@ == key_choice_of(
            key_views(keys@),
            match explicit_key {
                Some(k) => Some(k@),
                None => None,
            },
            auto,
        ),
        res matches KeyChoice::Chosen(i) ==> i < keys@.len(),
{
    if keys.len() == 0 {
        return KeyChoice::NoIdentities;
    }
    match explicit_key {
        Some(id) => match find_key_position(keys, id) {
            Some(i) => KeyChoice::Chosen(i),
            None => KeyChoice::UnknownIdentifier(id.to_string()),
        },
        None => if auto {
            KeyChoice::AutoDetect
        } else {
            KeyChoice::ConsultDefault
        },
    }
}

/// What `default` does when it neither detects nor is given a remote, once
/// the loaded keys are known.
#[derive(Debug)]
pub enum DefaultCommand {
    /// Make the key at this position the global default.
    SetKey(usize),
    /// No loaded key answers to the identifier given.
    UnknownIdentifier(String),
    /// The agent holds no identity to pick from.
    NoIdentities,
    /// Let the user pick the new default (with the current one highlighted).
    Pick,
}

/// A `default` decision, as texts.
pub enum DefaultCommandView {
    SetKey(int),
    UnknownIdentifier(Seq<char>),
    NoIdentities,
    Pick,
}

impl View for DefaultCommand {
    type V = DefaultCommandView;

    open spec fn view(&self) -> DefaultCommandView {
        match self {
            DefaultCommand::SetKey(i) => DefaultCommandView::SetKey(*i as int),
            DefaultCommand::UnknownIdentifier(id) => DefaultCommandView::UnknownIdentifier(id@),
            DefaultCommand::NoIdentities => DefaultCommandView::NoIdentities,
            DefaultCommand::Pick => DefaultCommandView::Pick,
        }
    }
}

/// The `default` decision: a given identifier sets the key it names (an error
/// when none does, also without keys); without one, the user picks among the
/// loaded keys, which needs at least one.
pub open spec fn default_command_of(keys: Seq<KeyView>, identifier: Option<Seq<char>>) -> DefaultCommandView {
    match identifier {
        Some(id) => match find_key_index(keys, id) {
            Some(i) => DefaultCommandView::SetKey(i),
            None => DefaultCommandView::UnknownIdentifier(id),
        },
        None => if keys.len() == 0 {
            DefaultCommandView::NoIdentities
        } else {
            DefaultCommandView::Pick
        },
    }
}

/// The `default` decision (see `default_command_of`).
pub fn default_command(keys: &[AgentKey], identifier: Option<&str>) -> (res: DefaultCommand)
    ensures
        res@ == default_command_of(
            key_views(keys@),
            match identifier {
                Some(id) => Some(id@),
                None => None,
            },
        ),
        res matches DefaultCommand::SetKey(i) ==> i < keys@.len(),
{
    match identifier {
        Some(id) => match find_key_position(keys, id) {
            Some(i) => DefaultCommand::SetKey(i),
            None => DefaultCommand::UnknownIdentifier(id.to_string()),
        },
        None => if keys.len() == 0 {
            DefaultCommand::NoIdentities
        } else {
            DefaultCommand::Pick
        },
    }
}

/// The outcome of going by the configured default key.
#[derive(Debug, Clone, Copy, PartialEq, Eq, Structural)]
pub enum DefaultChoice {
    /// The default key, at this position, without asking.
    Chosen(usize),
    /// Ask the user, highlighting the default key when it is loaded.
    Pick(Option<usize>),
}

/// The loaded key that a configured default identifier names, if any.
pub open spec fn default_key_index(keys: Seq<KeyView>, default_id: Option<Seq<char>>) -> Option<int> {
    match default_id {
        Some(d) => if d.len() > 0 {
            find_key_index(keys, d)
        } else {
            None
        },
        None => None,
    }
}

/// Going by the default: its key when one is loaded and no choice is forced;
/// otherwise the user picks, with that key (if any) highlighted.
pub open spec fn default_choice_of(keys: Seq<KeyView>, default_id: Option<Seq<char>>, force_interactive: bool) -> DefaultChoice {
    match default_key_index(keys, default_id) {
        Some(i) => if force_interactive {
            DefaultChoice::Pick(Some(i as usize))
        } else {
            DefaultChoice::Chosen(i as usize)
        },
        None => DefaultChoice::Pick(None),
    }
}

/// The position of the loaded key that a configured default identifier names
/// (see `default_key_index`).
pub fn default_key_position(keys: &[AgentKey], default_id: Option<&str>) -> (res: Option<usize>)
    ensures
        match res {
            Some(i) => default_key_index(
                key_views(keys@),
                match default_id {
                    Some(d) => Some(d@),
                    None => None,
                },
            ) == Some(i as int) && i < keys@.len(),
            None => default_key_index(
                key_views(keys@),
                match default_id {
                    Some(d) => Some(d@),
                    None => None,
                },
            ) is None,
        },
{
    match default_id {
        Some(d) => if d.is_empty() {
            None
        } else {
            find_key_position(keys, d)
        },
        None => None,
    }
}

/// Goes by the configured default key (see `default_choice_of`).
pub fn choose_with_default(keys: &[AgentKey], default_id: Option<&str>, force_interactive: bool) -> (res:
    DefaultChoice)
    ensures
        res == default_choice_of(
            key_views(keys@),
            match default_id {
                Some(d) => Some(d@),
                None => None,
            },
            force_interactive,
        ),
        res matches DefaultChoice::Chosen(i) ==> i < keys@.len(),
        res matches DefaultChoice::Pick(Some(i)) ==> i < keys@.len(),
{
    match default_key_position(keys, default_id) {
        Some(i) => if force_interactive {
            DefaultChoice::Pick(Some(i))
        } else {
            DefaultChoice::Chosen(i)
        },
        None => DefaultChoice::Pick(None),
    }
}

/// A key as listed in the picker: its type and comment (or `<no comment>`).
pub open spec fn key_label(k: KeyView) -> Seq<char> {
    if k.comment.len() == 0 {
        k.key_type + " <no comment>"@
    } else {
        k.key_type + " "@ + k.comment
    }
}

/// A picker line: the key's label, marked when it is the current default.
pub open spec fn picker_item(k: KeyView, default_line: Option<Seq<char>>) -> Seq<char> {
    if default_line == Some(k.line) {
        key_label(k) + " (current default)"@
    } else {
        key_label(k)
    }
}

/// The position the picker starts at: the last key with the default's line, else 0.
pub open spec fn picker_start(keys: Seq<KeyView>, default_line: Option<Seq<char>>, n: int) -> int
    decreases n,
{
    if n <= 0 {
        0
    } else if default_line == Some(keys[n - 1].line) {
        n - 1
    } else {
        picker_start(keys, default_line, n - 1)
    }
}

fn key_label_exec(k: &AgentKey) -> (res: Vec<char>)
    ensures
        res@ == key_label(k@),
{
    let t = chars_of(k.key_type.as_str());
    if k.comment.as_str().is_empty() {
        concat_chars(&t, &chars_of(" <no comment>"))
    } else {
        concat_chars(&concat_chars(&t, &chars_of(" ")), &chars_of(k.comment.as_str()))
    }
}

/// The lines of the identity picker and the position it starts at, with the
/// key whose line is that of `default_key` marked as the current default.
pub fn picker_items(keys: &[AgentKey], default_key: Option<&AgentKey>) -> (res: (Vec<String>, usize))
    ensures
        ({
            let def = match default_key {
                Some(d) => Some(d@.line),
                None => None,
            };
            &&& texts(res.0@) == key_views(keys@).map_values(|k: KeyView| picker_item(k, def))
            &&& res.1 == picker_start(key_views(keys@), def, keys@.len() as int)
        }),
{
    let ghost kv = key_views(keys@);
    let ghost def = match default_key {
        Some(d) => Some(d@.line),
        None => None,
    };
    let mut items: Vec<String> = Vec::new();
    let mut start: usize = 0;
    let mut i: usize = 0;
    while i < keys.len()
        invariant
            i <= keys.len() == kv.len(),
            kv == key_views(keys@),
            def == match default_key {
                Some(d) => Some(d@.line),
                None => None,
            },
            texts(items@) == kv.take(i as int).map_values(|k: KeyView| picker_item(k, def)),
            start as int == picker_start(kv, def, i as int),
        decreases keys.len() - i,
    {
        let k = &keys[i];
        assert(kv[i as int] == keys@[i as int]@);
        let is_default = match default_key {
            Some(d) => d.line == k.line,
            None => false,
        };
        let label = key_label_exec(k);
        let item = if is_default {
            concat_chars(&label, &chars_of(" (current default)"))
        } else {
            label
        };
        let ghost before = texts(items@);
        items.push(text_of(&item));
        if is_default {
            start = i;
        }
        assert(kv.take(i + 1) =~= kv.take(i as int).push(kv[i as int]));
        assert(texts(items@) =~= before.push(item@));
        assert(kv.take(i + 1).map_values(|k: KeyView| picker_item(k, def)) =~= kv.take(
            i as int,
        ).map_values(|k: KeyView| picker_item(k, def)).push(picker_item(kv[i as int], def)));
        i = i + 1;
    }
    assert(kv.take(keys.len() as int) =~= kv);
    (items, start)
}

// ---------------------------------------------------------------------------
// Texts shown to the user
// ---------------------------------------------------------------------------

/// The decimal digit for `d` (below 10).
pub open spec fn decimal_digit(d: nat) -> char {
    seq!['0', '1', '2', '3', '4', '5', '6', '7', '8', '9'][d as int]
}

/// `n` written in decimal.
pub open spec fn decimal_text(n: nat) -> Seq<char>
    decreases n,
{
    if n < 10 {
        seq![decimal_digit(n)]
    } else {
        decimal_text(n / 10).push(decimal_digit(n % 10))
    }
}

/// `n` written in decimal.
pub fn decimal(n: usize) -> (res: Vec<char>)
    ensures
        res@ == decimal_text(n as nat),
    decreases n,
{
    let digits: Vec<char> = vec!['0', '1', '2', '3', '4', '5', '6', '7', '8', '9'];
    assert(digits@ =~= seq!['0', '1', '2', '3', '4', '5', '6', '7', '8', '9']);
    if n < 10 {
        let mut v: Vec<char> = Vec::new();
        v.push(digits[n]);
        assert(v@ =~= seq![decimal_digit(n as nat)]);
        v
    } else {
        let mut v = decimal(n / 10);
        v.push(digits[n % 10]);
        v
    }
}

/// The line that lists the key at position `idx`: `[idx] <type> <comment>`.
pub open spec fn list_line(idx: nat, k: KeyView) -> Seq<char> {
    "["@ + decimal_text(idx) + "] "@ + k.key_type + " "@ + (if k.comment.len() == 0 {
        "<no comment>"@
    } else {
        k.comment
    })
}

/// The listing of the loaded keys, one line each; a note when there is none.
pub fn list_lines(keys: &[AgentKey]) -> (res: Vec<String>)
    ensures
        keys@.len() == 0 ==> texts(res@) == seq!["No identities found in ssh-agent."@],
        keys@.len() > 0 ==> texts(res@) == Seq::new(
            keys@.len(),
            |i: int| list_line(i as nat, keys@[i]@),
        ),
{
    let mut res: Vec<String> = Vec::new();
    if keys.len() == 0 {
        res.push("No identities found in ssh-agent.".to_string());
        assert(texts(res@) =~= seq!["No identities found in ssh-agent."@]);
        return res;
    }
    let mut i: usize = 0;
    while i < keys.len()
        invariant
            i <= keys.len(),
            texts(res@) == Seq::new(i as nat, |j: int| list_line(j as nat, keys@[j]@)),
        decreases keys.len() - i,
    {
        let k = &keys[i];
        let label = if k.comment.as_str().is_empty() {
            chars_of("<no comment>")
        } else {
            chars_of(k.comment.as_str())
        };
        let line = concat_chars(&chars_of("["), &decimal(i));
        let line = concat_chars(&line, &chars_of("] "));
        let line = concat_chars(&line, &chars_of(k.key_type.as_str()));
        let line = concat_chars(&line, &chars_of(" "));
        let line = concat_chars(&line, &label);
        let ghost before = texts(res@);
        res.push(text_of(&line));
        assert(texts(res@) =~= before.push(line@));
        assert(Seq::new((i + 1) as nat, |j: int| list_line(j as nat, keys@[j]@)) =~= Seq::new(
            i as nat,
            |j: int| list_line(j as nat, keys@[j]@),
        ).push(list_line(i as nat, keys@[i as int]@)));
        i = i + 1;
    }
    res
}

/// A configured value as shown: the value, or `<not set>` when absent or empty.
pub open spec fn shown_setting(value: Option<Seq<char>>) -> Seq<char> {
    match value {
        Some(v) => if v.len() > 0 {
            v
        } else {
            "<not set>"@
        },
        None => "<not set>"@,
    }
}

fn shown_setting_exec(value: Option<&str>) -> (res: Vec<char>)
    ensures
        res@ == shown_setting(
            match value {
                Some(v) => Some(v@),
                None => None,
            },
        ),
{
    match value {
        Some(v) => if v.is_empty() {
            chars_of("<not set>")
        } else {
            chars_of(v)
        },
        None => chars_of("<not set>"),
    }
}

/// The report of the environment: the inherited SSH program, the global
/// default key and the local `core.sshCommand`.
pub fn info_lines(inherited: &str, global_default: Option<&str>, local: Option<&str>) -> (res: Vec<
    String,
>)
    ensures
        texts(res@) == seq![
            "inherited ssh binary: "@ + inherited@,
            "global default key: "@ + shown_setting(
                match global_default {
                    Some(v) => Some(v@),
                    None => None,
                },
            ),
            "local core.sshCommand: "@ + shown_setting(
                match local {
                    Some(v) => Some(v@),
                    None => None,
                },
            ),
        ],
{
    let a = concat_chars(&chars_of("inherited ssh binary: "), &chars_of(inherited));
    let b = concat_chars(&chars_of("global default key: "), &shown_setting_exec(global_default));
    let c = concat_chars(&chars_of("local core.sshCommand: "), &shown_setting_exec(local));
    let mut res: Vec<String> = Vec::new();
    res.push(text_of(&a));
    res.push(text_of(&b));
    res.push(text_of(&c));
    assert(texts(res@) =~= seq![a@, b@, c@]);
    res
}

/// The confirmation after setting the default: `Set global default key to: <id> (<type>)`.
pub fn default_set_message(identifier: &str, key_type: &str) -> (res: String)
    ensures
        res@ == "Set global default key to: "@ + identifier@ + " ("@ + key_type@ + ")"@,
{
    let r = concat_chars(&chars_of("Set global default key to: "), &chars_of(identifier));
    let r = concat_chars(&r, &chars_of(" ("));
    let r = concat_chars(&r, &chars_of(key_type));
    let r = concat_chars(&r, &chars_of(")"));
    text_of(&r)
}

/// Commands that need a repository refuse to run outside one.
pub fn ensure_git_repo(is_repo: bool) -> (res: Result<(), String>)
    ensures
        is_repo ==> res is Ok,
        !is_repo ==> (res matches Err(m) && m@ == "current directory is not a git working tree"@),
{
    if is_repo {
        Ok(())
    } else {
        Err("current directory is not a git working tree".to_string())
    }
}

} // verus!
