use git_sshkey::agent::{
    find_key_by_identifier, find_key_position, interpret_agent_listing, parse_agent_keys,
    pick_key_position,
    resolve_ssh_add_binary, AgentKey, AgentListError,
};
use git_sshkey::detect::{AutoDetect, DetectAction, DetectEvent, DetectFailure, DetectPhase};
use git_sshkey::digest::{fingerprint, short_fingerprint};
use git_sshkey::keyfile::{
    key_file_contents, key_file_name, key_file_name_from, key_file_needs_write,
    primary_key_file_name, sanitized_key_name,
};
use git_sshkey::remote::{
    auto_target, cache_key_for_remote, normalize_lowered_url, normalize_remote_url, operand_args,
    remote_url_argument, AutoTarget, RemoteLookup,
};
use git_sshkey::select::{
    choose_with_default, decimal, default_command, default_key_position, default_set_message, ensure_git_repo, info_lines, list_lines,
    picker_items, resolve_key, DefaultChoice, DefaultCommand, KeyChoice,
};
use git_sshkey::ssh::{
    config_value, ensure_git_command, first_token, inherited_ssh_binary, passthrough_git_args, probe_git_args,
    probe_succeeded, set_global_default_key, set_local_ssh_command, ssh_command_for_key,
    unset_reply,
};
use git_sshkey::text::trim_text;

fn key(line: &str, key_type: &str, comment: &str) -> AgentKey {
    AgentKey {
        line: line.to_string(),
        key_type: key_type.to_string(),
        comment: comment.to_string(),
    }
}

fn sample_keys() -> Vec<AgentKey> {
    vec![
        key("ssh-ed25519 AAAAone work", "ssh-ed25519", "work"),
        key("ssh-ed25519 AAAAC3NzaC1lZDI1NTE5AAAAIPp3rNoComment", "ssh-ed25519", ""),
        key("ssh-rsa AAAAthree Home Laptop", "ssh-rsa", "Home Laptop"),
    ]
}

fn strings(v: &[&str]) -> Vec<String> {
    v.iter().map(|s| s.to_string()).collect()
}

// ---- digests ----

#[test]
fn fingerprint_is_sha256_hex() {
    assert_eq!(
        fingerprint(""),
        "e3b0c44298fc1c149afbf4c8996fb92427ae41e4649b934ca495991b7852b855"
    );
    assert_eq!(
        fingerprint("github.com/foo/bar"),
        "3db1631076c25b20c6e0017d785ee419bf993d1c368d67a81254d268c39ab893"
    );
    assert_eq!(short_fingerprint("ssh-ed25519 AAAAkey"), "2676f652");
}

#[test]
fn identifier_is_comment_or_short_fingerprint() {
    let keys = sample_keys();
    assert_eq!(keys[0].identifier(), "work");
    assert_eq!(keys[1].identifier(), "805e400e");
    assert_eq!(keys[2].identifier(), "Home Laptop");
}

// ---- remote URLs and the cache ----

#[test]
fn equivalent_remotes_share_a_cache_entry() {
    let a = cache_key_for_remote("ssh://git@github.com:22/foo/bar");
    let b = cache_key_for_remote("git@github.com:foo/bar");
    assert_eq!(a, b);
    assert_eq!(a, fingerprint("github.com/foo/bar"));
    assert_ne!(a, cache_key_for_remote("git@github.com:foo/baz"));
}

#[test]
fn normalize_edge_cases() {
    assert_eq!(normalize_remote_url("  GIT@Example.COM:Team/Repo.git  "), "example.com/team/repo");
    assert_eq!(normalize_remote_url("host:8080/a"), "host/8080/a");
    // a '/' before '@' keeps the user part
    assert_eq!(normalize_remote_url("https://host/a@b"), "host/a@b");
    // a port after a '/' is not a host port
    assert_eq!(normalize_remote_url("host/x:22/y"), "host/x/22/y");
    assert_eq!(normalize_lowered_url("ssh://h:443/r/"), "h/r");
    assert_eq!(normalize_remote_url(""), "");
    assert_eq!(
        normalize_remote_url(" \tgit@github.com:foo/bar.git\n"),
        normalize_remote_url("git@github.com:foo/bar.git")
    );
    for url in [
        "git@gitlab.example:team/app.git",
        "ssh://git@gitlab.example:22/team/app.git",
        "https://gitlab.example:443/team/app",
        "https://gitlab.example/team/app",
    ] {
        assert_eq!(normalize_lowered_url(url), "gitlab.example/team/app");
    }
}

#[test]
fn lowercase_follows_unicode() {
    assert_eq!(normalize_remote_url("ÀB.GIT"), "àb");
    assert_eq!(trim_text("\u{3000} x \n"), "x");
}

#[test]
fn remote_lookup_prefers_origin() {
    let s = RemoteLookup::start(None);
    assert!(matches!(s, RemoteLookup::AskOrigin));
    assert_eq!(s.git_args().unwrap(), strings(&["remote", "get-url", "origin"]));
    let s = s.next(true, "git@host:me/r.git\n");
    assert!(matches!(s, RemoteLookup::Found(ref u) if u == "git@host:me/r.git"));
    assert!(s.git_args().is_none());
}

#[test]
fn remote_lookup_falls_back_to_first_remote() {
    let s = RemoteLookup::start(None).next(false, "");
    assert!(matches!(s, RemoteLookup::ListRemotes));
    assert_eq!(s.git_args().unwrap(), strings(&["remote"]));
    let s = s.next(true, "\n  upstream \nfork\n");
    assert!(matches!(s, RemoteLookup::AskUrl(ref n) if n == "upstream"));
    assert_eq!(s.git_args().unwrap(), strings(&["remote", "get-url", "upstream"]));
    let s = s.next(true, " https://h/r \n");
    assert!(matches!(s, RemoteLookup::Found(ref u) if u == "https://h/r"));

    let none = RemoteLookup::start(None).next(true, "   ").next(true, "\n\n");
    assert!(matches!(none, RemoteLookup::NoRemote));
    let named = RemoteLookup::start(Some("gone")).next(false, "");
    assert!(matches!(named, RemoteLookup::NoRemote));
}

#[test]
fn auto_target_choices() {
    assert!(auto_target(Some("k"), None, false).is_none());
    assert!(matches!(auto_target(Some("git@h:r"), None, true), Some(AutoTarget::Url(ref u)) if u == "git@h:r"));
    assert!(matches!(auto_target(Some("origin"), None, true), Some(AutoTarget::Lookup(Some(ref n))) if n == "origin"));
    assert!(matches!(auto_target(None, None, true), Some(AutoTarget::Lookup(None))));
    assert!(matches!(auto_target(Some("k"), Some("up"), false), Some(AutoTarget::Lookup(Some(ref n))) if n == "up"));
}

#[test]
fn git_arguments_naming_remotes() {
    let args = strings(&["push", "-u", "origin", "git@host:me/r.git", "ssh://h/r"]);
    assert_eq!(remote_url_argument(&args).unwrap(), "git@host:me/r.git");
    assert_eq!(operand_args(&args), strings(&["push", "origin", "git@host:me/r.git", "ssh://h/r"]));
    let args = strings(&["fetch", "--all", "https://h/r"]);
    assert_eq!(remote_url_argument(&args).unwrap(), "https://h/r");
    assert!(remote_url_argument(&strings(&["status", "-ssh://x"])).is_none());
}

// ---- the SSH command and Git settings ----

#[test]
fn first_token_edge_cases() {
    assert_eq!(first_token("   "), "");
    assert_eq!(first_token("\"unclosed ssh -v"), "\"unclosed");
    assert_eq!(first_token("  plink\t-batch"), "plink");
    assert_eq!(first_token("'a b' c"), "a b");
    assert_eq!(first_token(" \u{3000}ssh\u{A0}-v "), "ssh");
}

#[test]
fn inherited_binary_skips_pinned_commands() {
    assert_eq!(inherited_ssh_binary(Some("\"/opt/ssh\" -v"), false), "/opt/ssh");
    assert_eq!(
        inherited_ssh_binary(Some("\"ssh\" -i k.pub -o IdentitiesOnly=yes"), false),
        "ssh"
    );
    assert_eq!(inherited_ssh_binary(None, false), "ssh");
    assert_eq!(
        inherited_ssh_binary(Some("  "), true),
        "C:/Windows/System32/OpenSSH/ssh.exe"
    );
}

#[test]
fn ssh_command_uses_forward_slashes() {
    assert_eq!(
        ssh_command_for_key("C:\\OpenSSH\\ssh.exe", "C:\\Users\\me\\.ssh\\git-sshkey\\work.pub"),
        "\"C:/OpenSSH/ssh.exe\" -i C:/Users/me/.ssh/git-sshkey/work.pub -o IdentitiesOnly=yes"
    );
}

#[test]
fn git_setting_arguments() {
    assert_eq!(
        set_local_ssh_command("ssh -i k"),
        strings(&["config", "--local", "core.sshCommand", "ssh -i k"])
    );
    assert_eq!(
        set_global_default_key("work"),
        strings(&["config", "--global", "git-sshkey.default", "work"])
    );
    assert_eq!(
        probe_git_args("ssh -i k", "git@h:r"),
        strings(&[
            "-c",
            "core.sshCommand=ssh -i k -o BatchMode=yes",
            "ls-remote",
            "--exit-code",
            "git@h:r",
            "HEAD"
        ])
    );
    assert_eq!(
        passthrough_git_args("ssh -i k", &strings(&["push", "-f"])),
        Ok(strings(&["-c", "core.sshCommand=ssh -i k", "push", "-f"]))
    );
    assert_eq!(ensure_git_command(&strings(&["status"])), Ok(()));
    assert_eq!(
        ensure_git_command(&Vec::new()),
        Err("no git command provided".to_string())
    );
    assert_eq!(
        passthrough_git_args("ssh -i k", &Vec::new()),
        Err("no git command provided".to_string())
    );
}

#[test]
fn git_replies() {
    assert_eq!(config_value(true, " ssh -v \n"), Some("ssh -v".to_string()));
    assert_eq!(config_value(false, "x"), None);
    assert_eq!(unset_reply(true, ""), Ok(()));
    assert_eq!(unset_reply(false, "error: No such section or key\n"), Ok(()));
    assert_eq!(unset_reply(false, " fatal: locked \n"), Err("fatal: locked".to_string()));
    assert!(probe_succeeded(true, Some(0)));
    assert!(probe_succeeded(false, Some(2)));
    assert!(!probe_succeeded(false, Some(128)));
    assert!(!probe_succeeded(false, None));
}

// ---- the agent listing ----

#[test]
fn agent_listing_is_parsed() {
    let out = "ssh-ed25519 AAAAone work laptop\n\n  ssh-rsa AAAAtwo  \nbogus\r\n";
    let keys = parse_agent_keys(out);
    assert_eq!(keys.len(), 2);
    assert_eq!(keys[0].line, "ssh-ed25519 AAAAone work laptop");
    assert_eq!(keys[0].key_type, "ssh-ed25519");
    assert_eq!(keys[0].comment, "work laptop");
    assert_eq!(keys[1].line, "ssh-rsa AAAAtwo");
    assert_eq!(keys[1].comment, "");
    assert_eq!(keys[1].identifier().len(), 8);
}

#[test]
fn agent_listing_outcomes() {
    assert!(parse_agent_keys("ssh-rsa AAAA x\nThe agent has no identities.\n").is_empty());
    let ok = interpret_agent_listing(false, "", "The agent has no identities.\n").unwrap();
    assert!(ok.is_empty());
    assert!(matches!(
        interpret_agent_listing(false, "", "  Could not open a connection to your authentication agent.\n"),
        Err(AgentListError::Message(ref m)) if m == "Could not open a connection to your authentication agent."
    ));
    assert!(matches!(
        interpret_agent_listing(false, "", " \n"),
        Err(AgentListError::StatusOnly)
    ));
    assert_eq!(interpret_agent_listing(true, "ssh-rsa AAAA c\n", "").unwrap().len(), 1);
}

#[test]
fn ssh_add_program() {
    assert_eq!(resolve_ssh_add_binary(false, true, true), "ssh-add");
    assert_eq!(
        resolve_ssh_add_binary(true, true, true),
        "C:/Program Files/OpenSSH/ssh-add.exe"
    );
    assert_eq!(
        resolve_ssh_add_binary(true, false, true),
        "C:/Windows/System32/OpenSSH/ssh-add.exe"
    );
    assert_eq!(resolve_ssh_add_binary(true, false, false), "ssh-add");
}

// ---- finding keys ----

#[test]
fn identifiers_find_their_keys() {
    let keys = sample_keys();
    for k in &keys {
        let found = find_key_by_identifier(&keys, &k.identifier()).unwrap();
        assert_eq!(found.line, k.line);
    }
}

#[test]
fn find_key_edge_cases() {
    let keys = sample_keys();
    assert!(find_key_by_identifier(&keys, "   ").is_none());
    assert_eq!(find_key_position(&keys, "  work  "), Some(0));
    assert_eq!(find_key_position(&keys, "home laptop"), Some(2));
    assert_eq!(find_key_position(&keys, "+1"), Some(1));
    assert_eq!(find_key_position(&keys, "002"), Some(2));
    assert_eq!(find_key_position(&keys, "3"), None);
    assert_eq!(find_key_position(&keys, "-1"), None);
    assert_eq!(find_key_position(&keys, "99999999999999999999999"), None);
    // a fingerprint followed by more text still names the key
    let long = format!("{}ff", fingerprint(&keys[1].line));
    assert_eq!(find_key_position(&keys, &long), Some(1));
}

#[test]
fn key_resolution() {
    let keys = sample_keys();
    assert!(matches!(resolve_key(&[], Some("work"), false), KeyChoice::NoIdentities));
    assert!(matches!(resolve_key(&keys, Some("work"), true), KeyChoice::Chosen(0)));
    assert!(matches!(resolve_key(&keys, Some("nope"), false), KeyChoice::UnknownIdentifier(ref s) if s == "nope"));
    assert!(matches!(resolve_key(&keys, None, true), KeyChoice::AutoDetect));
    assert!(matches!(resolve_key(&keys, None, false), KeyChoice::ConsultDefault));

    assert_eq!(choose_with_default(&keys, Some("2"), false), DefaultChoice::Chosen(2));
    assert_eq!(choose_with_default(&keys, Some("2"), true), DefaultChoice::Pick(Some(2)));
    assert_eq!(choose_with_default(&keys, Some(""), false), DefaultChoice::Pick(None));
    assert_eq!(choose_with_default(&keys, None, false), DefaultChoice::Pick(None));
    assert_eq!(choose_with_default(&keys, Some("gone"), false), DefaultChoice::Pick(None));
}

// ---- texts shown ----

#[test]
fn picker_marks_the_default() {
    let keys = sample_keys();
    let (items, start) = picker_items(&keys, Some(&keys[2]));
    assert_eq!(
        items,
        strings(&[
            "ssh-ed25519 work",
            "ssh-ed25519 <no comment>",
            "ssh-rsa Home Laptop (current default)"
        ])
    );
    assert_eq!(start, 2);
    let (_, start) = picker_items(&keys, None);
    assert_eq!(start, 0);
}

#[test]
fn listing_lines() {
    let keys = sample_keys();
    assert_eq!(
        list_lines(&keys),
        strings(&[
            "[0] ssh-ed25519 work",
            "[1] ssh-ed25519 <no comment>",
            "[2] ssh-rsa Home Laptop"
        ])
    );
    assert_eq!(list_lines(&[]), strings(&["No identities found in ssh-agent."]));
    assert_eq!(decimal(1207).into_iter().collect::<String>(), "1207");
}

#[test]
fn info_report() {
    assert_eq!(
        info_lines("ssh", Some("work"), Some("")),
        strings(&[
            "inherited ssh binary: ssh",
            "global default key: work",
            "local core.sshCommand: <not set>"
        ])
    );
    assert_eq!(
        default_set_message(&sample_keys()[1].identifier(), &sample_keys()[1].key_type),
        "Set global default key to: 805e400e (ssh-ed25519)"
    );
    assert_eq!(ensure_git_repo(true), Ok(()));
    assert_eq!(
        ensure_git_repo(false),
        Err("current directory is not a git working tree".to_string())
    );
}

// ---- key files ----

#[test]
fn sanitized_names() {
    assert_eq!(sanitized_key_name("CON"), "");
    assert_eq!(sanitized_key_name("lpt9!"), "");
    assert_eq!(sanitized_key_name("com10"), "com10");
    assert_eq!(sanitized_key_name("Ünïcode"), "n-code");
    let once = sanitized_key_name("  Dev / Ops__Key--2 ");
    assert_eq!(once, "dev-ops__key-2");
    assert_eq!(sanitized_key_name(&once), once);
}

#[test]
fn key_file_names() {
    let line = "ssh-ed25519 AAAAkey";
    assert_eq!(primary_key_file_name("Work Key"), Some("work-key.pub".to_string()));
    assert_eq!(primary_key_file_name("nul"), None);
    assert_eq!(key_file_name(line, "", None), "key-2676f652.pub");
    assert_eq!(key_file_name(line, "aux", None), "key-2676f652.pub");
    assert_eq!(key_file_name(line, "Work Key", None), "work-key.pub");
    assert_eq!(
        key_file_name(line, "Work Key", Some("ssh-ed25519 AAAAkey\n")),
        "work-key.pub"
    );
    assert_eq!(
        key_file_name(line, "Work Key", Some("ssh-rsa other\n")),
        "work-key-2676f652.pub"
    );
    assert!(key_file_needs_write(None, line));
    assert!(!key_file_needs_write(Some("ssh-ed25519 AAAAkey \n"), line));
    assert!(key_file_needs_write(Some("old"), line));
    assert_eq!(key_file_contents(line), "ssh-ed25519 AAAAkey\n");
}

// ---- automatic detection ----

fn drive(keys: Vec<AgentKey>, cache: Option<&str>, default: Option<&str>, working: &[usize]) -> (Vec<DetectAction>, Vec<usize>) {
    let default_position = default_key_position(&keys, default);
    let (mut search, mut action) = AutoDetect::start(keys);
    let mut actions = vec![action];
    let mut probed = Vec::new();
    loop {
        let event = match action {
            DetectAction::ReadCache => DetectEvent::Cache(cache.map(|c| c.to_string())),
            DetectAction::ReadDefault => DetectEvent::DefaultKey(default_position),
            DetectAction::Probe(i) => {
                probed.push(i);
                DetectEvent::Probed(working.contains(&i))
            }
            DetectAction::ClearCache | DetectAction::StoreCache(_) => DetectEvent::Done,
            DetectAction::Finish(_) | DetectAction::Fail(_) => return (actions, probed),
        };
        let (next, next_action) = search.step(event);
        search = next;
        action = next_action;
        actions.push(action);
    }
}

#[test]
fn detect_cached_key_first() {
    let (actions, probed) = drive(sample_keys(), Some("  ssh-rsa AAAAthree Home Laptop \n"), Some("work"), &[2]);
    assert_eq!(actions, vec![DetectAction::ReadCache, DetectAction::Probe(2), DetectAction::Finish(2)]);
    assert_eq!(probed, vec![2]);
}

#[test]
fn detect_stale_cache_then_default() {
    let (actions, _) = drive(sample_keys(), Some("ssh-rsa AAAAthree Home Laptop"), Some("work"), &[0]);
    assert_eq!(
        actions,
        vec![
            DetectAction::ReadCache,
            DetectAction::Probe(2),
            DetectAction::ClearCache,
            DetectAction::ReadDefault,
            DetectAction::Probe(0),
            DetectAction::StoreCache(0),
            DetectAction::Finish(0)
        ]
    );
}

#[test]
fn detect_scans_untried_keys_once() {
    let (actions, probed) = drive(sample_keys(), Some("ssh-rsa AAAAthree Home Laptop"), Some("Home Laptop"), &[1]);
    assert_eq!(probed, vec![2, 0, 1]);
    assert_eq!(actions[actions.len() - 2], DetectAction::StoreCache(1));
    assert_eq!(actions[actions.len() - 1], DetectAction::Finish(1));
}

#[test]
fn detect_fails_after_trying_all() {
    let (actions, probed) = drive(sample_keys(), None, None, &[]);
    assert_eq!(probed, vec![0, 1, 2]);
    assert_eq!(actions[actions.len() - 1], DetectAction::Fail(DetectFailure::NoWorkingKey));
    let (actions, probed) = drive(Vec::new(), None, None, &[]);
    assert_eq!(actions, vec![DetectAction::Fail(DetectFailure::NoIdentities)]);
    assert!(probed.is_empty());
}

#[test]
fn detect_skips_duplicate_lines() {
    let keys = vec![
        key("ssh-rsa AAAAdup a", "ssh-rsa", "a"),
        key("ssh-rsa AAAAdup a", "ssh-rsa", "a"),
    ];
    let (_, probed) = drive(keys, None, Some("a"), &[]);
    assert_eq!(probed, vec![0]);
}

#[test]
fn detect_reports_its_phase() {
    let (search, action) = AutoDetect::start(sample_keys());
    assert_eq!(action, DetectAction::ReadCache);
    assert_eq!(search.phase(), DetectPhase::ReadingCache);
    let (search, action) = search.step(DetectEvent::Cache(None));
    assert_eq!(action, DetectAction::ReadDefault);
    let (search, action) = search.step(DetectEvent::DefaultKey(Some(1)));
    assert_eq!(action, DetectAction::Probe(1));
    assert_eq!(search.phase(), DetectPhase::ProbingDefault(1));
    assert_eq!(search.key(1).comment, "");
}

#[test]
fn detect_ends_within_its_bound() {
    for n in 0..6usize {
        let keys: Vec<AgentKey> = (0..n)
            .map(|i| key(&format!("ssh-rsa AAAA{i} k{i}"), "ssh-rsa", &format!("k{i}")))
            .collect();
        let stale = "ssh-rsa AAAA0 k0";
        let (actions, probed) = drive(keys, Some(stale), Some("k1"), &[]);
        assert!(actions.len() <= 8 * n + 7 + 1);
        assert_eq!(probed.len(), n);
    }
}

#[test]
fn key_file_name_from_given_digits() {
    assert_eq!(key_file_name_from("l", "", "0123abcd", None), "key-0123abcd.pub");
    assert_eq!(key_file_name_from("l", "My Key", "0123abcd", Some("l \n")), "my-key.pub");
    assert_eq!(key_file_name_from("l", "My Key", "0123abcd", Some("m")), "my-key-0123abcd.pub");
}

#[test]
fn pick_key_position_by_given_forms() {
    let keys = sample_keys();
    let lowered = strings(&["work", "", "home laptop"]);
    let fps = strings(&["aa11", "bb22", "cc33"]);
    assert_eq!(pick_key_position(&keys, "Work", &lowered, "work", &fps), Some(0));
    assert_eq!(pick_key_position(&keys, "bb", &lowered, "bb", &fps), Some(1));
    assert_eq!(pick_key_position(&keys, "cc33dd", &lowered, "cc33dd", &fps), Some(2));
    assert_eq!(pick_key_position(&keys, "1", &lowered, "1", &fps), Some(1));
    assert_eq!(pick_key_position(&keys, "", &lowered, "", &fps), None);
    assert_eq!(pick_key_position(&keys, "zz", &lowered, "zz", &fps), None);
}

#[test]
fn default_command_choices() {
    let keys = sample_keys();
    assert!(matches!(default_command(&keys, Some("HOME LAPTOP")), DefaultCommand::SetKey(2)));
    assert!(matches!(default_command(&keys, Some("nope")), DefaultCommand::UnknownIdentifier(ref s) if s == "nope"));
    assert!(matches!(default_command(&[], Some("work")), DefaultCommand::UnknownIdentifier(ref s) if s == "work"));
    assert!(matches!(default_command(&[], None), DefaultCommand::NoIdentities));
    assert!(matches!(default_command(&keys, None), DefaultCommand::Pick));
}

#[test]
fn normal_forms_hold_no_colon_or_capital() {
    for url in ["SSH://Git@Host.EXAMPLE:2222/Team/App.GIT", "  Host:Path/X ", "HTTPS://u@H:443/A"] {
        let r = normalize_remote_url(url);
        assert!(!r.contains(':'));
        assert!(!r.chars().any(|c| c.is_ascii_uppercase()));
    }
}

#[test]
fn own_command_is_not_inherited() {
    let own = ssh_command_for_key("/opt/ssh", "/home/me/.ssh/git-sshkey/work.pub");
    assert_eq!(inherited_ssh_binary(Some(&own), false), "ssh");
    assert_eq!(inherited_ssh_binary(Some(&own), true), "C:/Windows/System32/OpenSSH/ssh.exe");
}
