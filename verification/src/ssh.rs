//! The SSH command that binds an identity, and the Git settings that carry it.

use vstd::prelude::*;
use crate::text::{
    chars_of, concat_chars, contains_chars, contains_text, find, find_char, first_space_from,
    all_space, is_space, is_space_char, lemma_find, matches_at, lemma_trim_padded, lemma_trim_shape, sub_chars, text_of, trim,
    trimmed_chars, trim_text, words,
};

verus! {

broadcast use vstd::string::group_string_axioms;

/// The views of a list of texts.
pub open spec fn texts(v: Seq<String>) -> Seq<Seq<char>> {
    v.map_values(|s: String| s@)
}

/// The run of `t` before its first white space (all of `t` when it has none).
pub open spec fn first_word(t: Seq<char>) -> Seq<char> {
    match first_space_from(t, 0) {
        Some(i) => t.take(i),
        None => t,
    }
}

/// When `t` opens with the quote `q` and closes it later: what stands between.
pub open spec fn quoted_prefix(t: Seq<char>, q: char) -> Option<Seq<char>> {
    if t.len() > 0 && t[0] == q {
        match find(t.drop_first(), seq![q]) {
            Some(e) => Some(t.drop_first().take(e)),
            None => None,
        }
    } else {
        None
    }
}

/// The program named at the front of a command line: the text inside a leading
/// pair of double quotes, else inside a leading pair of single quotes, else the
/// first word; empty for a blank line.
pub open spec fn first_token_of(raw: Seq<char>) -> Seq<char> {
    let t = trim(raw);
    if t.len() == 0 {
        seq![]
    } else {
        match quoted_prefix(t, '"') {
            Some(q) => q,
            None => match quoted_prefix(t, '\'') {
                Some(q) => q,
                None => first_word(t),
            },
        }
    }
}

/// The SSH program used when Git names none.
pub open spec fn default_ssh_binary(windows: bool) -> Seq<char> {
    if windows {
        "C:/Windows/System32/OpenSSH/ssh.exe"@
    } else {
        "ssh"@
    }
}

/// The SSH program inherited from a global `core.sshCommand`: its first token,
/// unless it is empty or the command is one that pins an identity
/// (`IdentitiesOnly=yes`); otherwise the platform's default program.
pub open spec fn inherited_binary(global: Option<Seq<char>>, windows: bool) -> Seq<char> {
    match global {
        Some(g) => if first_token_of(g).len() > 0 && !contains_text(g, "IdentitiesOnly=yes"@) {
            first_token_of(g)
        } else {
            default_ssh_binary(windows)
        },
        None => default_ssh_binary(windows),
    }
}

/// `s` with every `\` replaced by `/`.
pub open spec fn forward_slashes(s: Seq<char>) -> Seq<char> {
    s.map_values(|c: char| if c == '\\' { '/' } else { c })
}

/// `"<binary>" -i <key path> -o IdentitiesOnly=yes`, with forward slashes.
pub open spec fn ssh_command_text(binary: Seq<char>, key_path: Seq<char>) -> Seq<char> {
    seq!['"'] + forward_slashes(binary) + "\" -i "@ + forward_slashes(key_path)
        + " -o IdentitiesOnly=yes"@
}

/// The value of a `git config --get` call: its trimmed output when it succeeded.
pub open spec fn config_value_of(success: bool, stdout: Seq<char>) -> Option<Seq<char>> {
    if success {
        Some(trim(stdout))
    } else {
        None
    }
}

/// A failed unset counts as done when Git reports the key absent.
pub open spec fn unset_outcome(success: bool, stderr: Seq<char>) -> Result<(), Seq<char>> {
    if success || contains_text(stderr, "No such section or key"@) {
        Ok(())
    } else {
        Err(trim(stderr))
    }
}

/// An exit status that shows a remote accepted the identity: success, or the
/// "no matching refs" status 2 of `git ls-remote --exit-code`.
pub open spec fn accepted_status(success: bool, code: Option<i32>) -> bool {
    success || code == Some(2i32)
}

/// `s` holds no backslash.
pub open spec fn has_no_backslash(s: Seq<char>) -> bool {
    forall|i: int| 0 <= i < s.len() ==> #[trigger] s[i] != '\\'
}

proof fn lemma_concat_no_backslash(a: Seq<char>, b: Seq<char>)
    requires
        has_no_backslash(a),
        has_no_backslash(b),
    ensures
        has_no_backslash(a + b),
{
    assert forall|i: int| 0 <= i < (a + b).len() implies #[trigger] (a + b)[i] != '\\' by {
        if i < a.len() {
            assert((a + b)[i] == a[i]);
        } else {
            assert((a + b)[i] == b[i - a.len()]);
        }
    }
}

/// The SSH command never holds a backslash: paths in it are written with
/// forward slashes, as Git on Windows needs them.
pub proof fn lemma_ssh_command_has_no_backslash(binary: Seq<char>, key_path: Seq<char>)
    ensures
        has_no_backslash(ssh_command_text(binary, key_path)),
{
    reveal_strlit("\" -i ");
    reveal_strlit(" -o IdentitiesOnly=yes");
    let fb = forward_slashes(binary);
    let fp = forward_slashes(key_path);
    assert(has_no_backslash(fb));
    assert(has_no_backslash(fp));
    assert(has_no_backslash(seq!['"']));
    assert(has_no_backslash("\" -i "@));
    assert(has_no_backslash(" -o IdentitiesOnly=yes"@));
    lemma_concat_no_backslash(seq!['"'], fb);
    lemma_concat_no_backslash(seq!['"'] + fb, "\" -i "@);
    lemma_concat_no_backslash(seq!['"'] + fb + "\" -i "@, fp);
    lemma_concat_no_backslash(seq!['"'] + fb + "\" -i "@ + fp, " -o IdentitiesOnly=yes"@);
}

proof fn lemma_first_space_from(t: Seq<char>, i: int)
    requires
        0 <= i,
    ensures
        first_space_from(t, i) matches Some(k) ==> i <= k < t.len() && is_space(t[k]) && forall|j: int|
            i <= j < k ==> !is_space(#[trigger] t[j]),
        first_space_from(t, i) is None ==> forall|j: int| i <= j < t.len() ==> !is_space(#[trigger] t[j]),
    decreases t.len() - i,
{
    if i < t.len() && !is_space(t[i]) {
        lemma_first_space_from(t, i + 1);
    }
}

proof fn lemma_first_space_drop_last(s: Seq<char>, i: int)
    requires
        s.len() > 0,
        0 <= i < s.len(),
    ensures
        first_space_from(s, i) == match first_space_from(s.drop_last(), i) {
            Some(k) => Some(k),
            None => if is_space(s.last()) {
                Some(s.len() - 1)
            } else {
                None
            },
        },
    decreases s.len() - i,
{
    let p = s.drop_last();
    if i < p.len() {
        assert(s[i] == p[i]);
        if !is_space(s[i]) {
            lemma_first_space_drop_last(s, i + 1);
        }
    } else {
        assert(s[i] == s.last());
        assert(first_space_from(p, i) is None);
        assert(first_space_from(s, i + 1) is None);
    }
}

proof fn lemma_words_first(s: Seq<char>)
    requires
        s.len() > 0,
        !is_space(s[0]),
    ensures
        words(s).len() >= 1,
        words(s)[0] == first_word(s),
        first_space_from(s, 0) is None ==> words(s).len() == 1,
        first_space_from(s, 0) is Some && !is_space(s.last()) ==> words(s).len() >= 2,
    decreases s.len(),
{
    if s.len() == 1 {
        assert(words(s.drop_last()).len() == 0);
        assert(first_space_from(s, 1) is None);
        assert(seq![s[0]] =~= s);
    } else {
        let p = s.drop_last();
        let c = s.last();
        assert(p[0] == s[0]);
        lemma_words_first(p);
        lemma_first_space_drop_last(s, 0);
        lemma_first_space_from(p, 0);
        let prev = words(p);
        if is_space(c) {
            match first_space_from(p, 0) {
                Some(k) => {
                    assert(s.take(k) =~= p.take(k));
                },
                None => {
                    assert(s.take(s.len() - 1) =~= p);
                },
            }
        } else if !is_space(s[s.len() - 2]) {
            assert(p.last() == s[s.len() - 2]);
            match first_space_from(p, 0) {
                Some(k) => {
                    assert(s.take(k) =~= p.take(k));
                    assert(words(s)[0] == prev[0]);
                },
                None => {
                    assert(p.push(c) =~= s);
                },
            }
        } else {
            assert(p.last() == s[s.len() - 2]);
            assert(first_space_from(p, 0) is Some);
            let k = first_space_from(p, 0)->0;
            assert(s.take(k) =~= p.take(k));
            assert(words(s)[0] == prev[0]);
        }
    }
}

/// A value Git stored reads back unchanged: when `git config --get` prints a
/// value without surrounding white space on a line of its own, that value is
/// what the reading reports.
pub proof fn lemma_config_value_reads_back(value: Seq<char>)
    requires
        trim(value) == value,
    ensures
        config_value_of(true, value + seq!['\n']) == Some(value),
{
    let nl = seq!['\n'];
    let none: Seq<char> = seq![];
    assert(all_space(nl));
    assert(all_space(none));
    lemma_trim_padded(none, value, nl);
    assert(none + value + nl =~= value + nl);
}

/// Without a leading quoted part, the program named at the front of a command
/// line is its first white-space separated word (empty for a blank line), and it
/// holds no white space.
pub proof fn lemma_first_token_unquoted(raw: Seq<char>)
    requires
        quoted_prefix(trim(raw), '"') is None,
        quoted_prefix(trim(raw), '\'') is None,
    ensures
        first_token_of(raw) == (if words(trim(raw)).len() > 0 {
            words(trim(raw))[0]
        } else {
            seq![]
        }),
        forall|i: int| 0 <= i < first_token_of(raw).len() ==> !is_space(#[trigger] first_token_of(raw)[i]),
{
    let t = trim(raw);
    lemma_trim_shape(raw);
    if t.len() > 0 {
        lemma_words_first(t);
        lemma_first_space_from(t, 0);
    }
}

/// A command made here is never inherited: once it stands as the global
/// `core.sshCommand`, the inherited program is the platform's default one.
pub proof fn lemma_own_command_not_inherited(binary: Seq<char>, key_path: Seq<char>, windows: bool)
    ensures
        inherited_binary(Some(ssh_command_text(binary, key_path)), windows) == default_ssh_binary(windows),
{
    let c = ssh_command_text(binary, key_path);
    let tail = " -o IdentitiesOnly=yes"@;
    let marker = "IdentitiesOnly=yes"@;
    reveal_strlit(" -o IdentitiesOnly=yes");
    reveal_strlit("IdentitiesOnly=yes");
    let k = c.len() - marker.len();
    assert(c.skip(c.len() - tail.len()) =~= tail);
    assert(c.subrange(k, k + marker.len()) =~= marker) by {
        assert forall|i: int| 0 <= i < marker.len() implies c.subrange(k, k + marker.len())[i] == marker[i] by {
            assert(c[k + i] == tail[i + 4]);
        }
    }
    assert(matches_at(c, marker, k));
    lemma_find(c, marker);
}

// ---------------------------------------------------------------------------

fn first_space(t: &Vec<char>) -> (res: Option<usize>)
    ensures
        res matches Some(i) ==> first_space_from(t@, 0) == Some(i as int) && i < t.len(),
        res is None ==> first_space_from(t@, 0) is None,
{
    let mut i: usize = 0;
    while i < t.len()
        invariant
            i <= t.len(),
            first_space_from(t@, 0) == first_space_from(t@, i as int),
        decreases t.len() - i,
    {
        if is_space_char(t[i]) {
            return Some(i);
        }
        i = i + 1;
    }
    None
}

fn quoted_prefix_exec(t: &Vec<char>, q: char) -> (res: Option<Vec<char>>)
    ensures
        res matches Some(r) ==> quoted_prefix(t@, q) == Some(r@),
        res is None ==> quoted_prefix(t@, q) is None,
{
    if t.len() > 0 && t[0] == q {
        let rest = sub_chars(t, 1, t.len());
        assert(rest@ =~= t@.drop_first());
        match find_char(&rest, q) {
            Some(e) => {
                proof { lemma_find(rest@, seq![q]); }
                let r = sub_chars(&rest, 0, e);
                assert(r@ =~= rest@.take(e as int));
                Some(r)
            },
            None => None,
        }
    } else {
        None
    }
}

/// The program named at the front of a command line (see `first_token_of`).
pub fn first_token(raw: &str) -> (res: String)
    ensures
        res@ == first_token_of(raw@),
{
    let t = trimmed_chars(raw);
    if t.len() == 0 {
        return String::new();
    }
    if let Some(q) = quoted_prefix_exec(&t, '"') {
        return text_of(&q);
    }
    if let Some(q) = quoted_prefix_exec(&t, '\'') {
        return text_of(&q);
    }
    match first_space(&t) {
        Some(i) => {
            let w = sub_chars(&t, 0, i);
            assert(w@ =~= t@.take(i as int));
            text_of(&w)
        },
        None => text_of(&t),
    }
}

/// The SSH program to bind identities with, given the global `core.sshCommand`
/// (when set) and whether the platform is Windows.
pub fn inherited_ssh_binary(global: Option<&str>, windows: bool) -> (res: String)
    ensures
        res@ == inherited_binary(
            match global {
                Some(g) => Some(g@),
                None => None,
            },
            windows,
        ),
{
    if let Some(g) = global {
        let candidate = first_token(g);
        let g_chars = chars_of(g);
        let marker = chars_of("IdentitiesOnly=yes");
        if !candidate.as_str().is_empty() && !contains_chars(&g_chars, &marker) {
            return candidate;
        }
    }
    if windows {
        "C:/Windows/System32/OpenSSH/ssh.exe".to_string()
    } else {
        "ssh".to_string()
    }
}

fn forward_slashes_exec(s: &Vec<char>) -> (res: Vec<char>)
    ensures
        res@ == forward_slashes(s@),
{
    let mut res: Vec<char> = Vec::new();
    let mut i: usize = 0;
    while i < s.len()
        invariant
            i <= s.len(),
            res@ == forward_slashes(s@.take(i as int)),
        decreases s.len() - i,
    {
        let c = s[i];
        res.push(if c == '\\' { '/' } else { c });
        assert(forward_slashes(s@.take(i + 1)) =~= forward_slashes(s@.take(i as int)).push(
            if c == '\\' { '/' } else { c },
        ));
        i = i + 1;
    }
    assert(s@.take(s.len() as int) =~= s@);
    res
}

/// The SSH command that uses exactly the key stored at `key_path`, run through
/// `binary`: `"<binary>" -i <key path> -o IdentitiesOnly=yes`, with every
/// backslash turned into a forward slash.
pub fn ssh_command_for_key(binary: &str, key_path: &str) -> (res: String)
    ensures
        res@ == ssh_command_text(binary@, key_path@),
{
    let mut quote: Vec<char> = Vec::new();
    quote.push('"');
    let b = forward_slashes_exec(&chars_of(binary));
    let p = forward_slashes_exec(&chars_of(key_path));
    let mid = chars_of("\" -i ");
    let tail = chars_of(" -o IdentitiesOnly=yes");
    let r = concat_chars(&quote, &b);
    let r = concat_chars(&r, &mid);
    let r = concat_chars(&r, &p);
    let r = concat_chars(&r, &tail);
    assert(quote@ =~= seq!['"']);
    text_of(&r)
}

/// The `git` arguments that make `command` the repository's local `core.sshCommand`.
pub fn set_local_ssh_command(command: &str) -> (res: Vec<String>)
    ensures
        texts(res@) == seq!["config"@, "--local"@, "core.sshCommand"@, command@],
{
    let mut res: Vec<String> = Vec::new();
    res.push("config".to_string());
    res.push("--local".to_string());
    res.push("core.sshCommand".to_string());
    res.push(command.to_string());
    assert(texts(res@) =~= seq!["config"@, "--local"@, "core.sshCommand"@, command@]);
    res
}

/// The `git` arguments that make `identifier` the global default key
/// (`git-sshkey.default`).
pub fn set_global_default_key(identifier: &str) -> (res: Vec<String>)
    ensures
        texts(res@) == seq!["config"@, "--global"@, "git-sshkey.default"@, identifier@],
{
    let mut res: Vec<String> = Vec::new();
    res.push("config".to_string());
    res.push("--global".to_string());
    res.push("git-sshkey.default".to_string());
    res.push(identifier.to_string());
    assert(texts(res@) =~= seq!["config"@, "--global"@, "git-sshkey.default"@, identifier@]);
    res
}

/// The value a `git config --get` call reports: its trimmed output on success,
/// nothing otherwise.
pub fn config_value(success: bool, stdout: &str) -> (res: Option<String>)
    ensures
        match res {
            Some(v) => config_value_of(success, stdout@) == Some(v@),
            None => config_value_of(success, stdout@) is None,
        },
{
    if success {
        Some(trim_text(stdout))
    } else {
        None
    }
}

/// The outcome of unsetting the local `core.sshCommand`: done when Git succeeded
/// or reports the key absent; otherwise Git's trimmed complaint.
pub fn unset_reply(success: bool, stderr: &str) -> (res: Result<(), String>)
    ensures
        match res {
            Ok(()) => unset_outcome(success, stderr@) == Ok::<(), Seq<char>>(()),
            Err(m) => unset_outcome(success, stderr@) == Err::<(), Seq<char>>(m@),
        },
{
    if success {
        return Ok(());
    }
    let e = chars_of(stderr);
    let absent = chars_of("No such section or key");
    if contains_chars(&e, &absent) {
        Ok(())
    } else {
        Err(trim_text(stderr))
    }
}

/// Whether a `git ls-remote --exit-code` status shows that authentication worked.
pub fn probe_succeeded(success: bool, code: Option<i32>) -> (res: bool)
    ensures
        res == accepted_status(success, code),
{
    success || code == Some(2i32)
}

/// The `git` arguments that probe `remote_url` with `ssh_command`, never
/// prompting: `-c core.sshCommand=<command> -o BatchMode=yes ls-remote --exit-code <url> HEAD`.
pub fn probe_git_args(ssh_command: &str, remote_url: &str) -> (res: Vec<String>)
    ensures
        texts(res@) == seq![
            "-c"@,
            "core.sshCommand="@ + ssh_command@ + " -o BatchMode=yes"@,
            "ls-remote"@,
            "--exit-code"@,
            remote_url@,
            "HEAD"@,
        ],
{
    let setting = concat_chars(
        &concat_chars(&chars_of("core.sshCommand="), &chars_of(ssh_command)),
        &chars_of(" -o BatchMode=yes"),
    );
    let mut res: Vec<String> = Vec::new();
    res.push("-c".to_string());
    res.push(text_of(&setting));
    res.push("ls-remote".to_string());
    res.push("--exit-code".to_string());
    res.push(remote_url.to_string());
    res.push("HEAD".to_string());
    assert(texts(res@) =~= seq![
        "-c"@,
        "core.sshCommand="@ + ssh_command@ + " -o BatchMode=yes"@,
        "ls-remote"@,
        "--exit-code"@,
        remote_url@,
        "HEAD"@,
    ]);
    res
}

/// A passthrough needs a Git command: an empty argument list is refused with
/// `no git command provided`, before any key is chosen.
pub fn ensure_git_command(args: &Vec<String>) -> (res: Result<(), String>)
    ensures
        args@.len() > 0 <==> res is Ok,
        res matches Err(m) ==> m@ == "no git command provided"@,
{
    if args.len() == 0 {
        Err("no git command provided".to_string())
    } else {
        Ok(())
    }
}

/// The `git` arguments that run the Git command `args` with `ssh_command` as
/// the SSH command of this one invocation: `-c core.sshCommand=<command>`
/// followed by `args`. An empty `args` names no Git command and is refused.
pub fn passthrough_git_args(ssh_command: &str, args: &Vec<String>) -> (res: Result<Vec<String>, String>)
    ensures
        args@.len() == 0 <==> res is Err,
        res matches Err(m) ==> m@ == "no git command provided"@,
        res matches Ok(v) ==> texts(v@) == seq!["-c"@, "core.sshCommand="@ + ssh_command@] + texts(args@),
{
    if args.len() == 0 {
        return Err("no git command provided".to_string());
    }
    let setting = concat_chars(&chars_of("core.sshCommand="), &chars_of(ssh_command));
    let mut res: Vec<String> = Vec::new();
    res.push("-c".to_string());
    res.push(text_of(&setting));
    let mut i: usize = 0;
    while i < args.len()
        invariant
            i <= args.len(),
            texts(res@) == seq!["-c"@, "core.sshCommand="@ + ssh_command@] + texts(
                args@.take(i as int),
            ),
        decreases args.len() - i,
    {
        let ghost before = res@;
        res.push(args[i].clone());
        assert(texts(res@) =~= texts(before).push(args@[i as int]@));
        assert(texts(args@.take(i + 1)) =~= texts(args@.take(i as int)).push(args@[i as int]@));
        assert(texts(res@) =~= seq!["-c"@, "core.sshCommand="@ + ssh_command@] + texts(
            args@.take(i + 1),
        ));
        i = i + 1;
    }
    assert(args@.take(args.len() as int) =~= args@);
    Ok(res)
}

} // verus!
