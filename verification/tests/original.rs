use git_sshkey::agent::{find_key_by_identifier, AgentKey};
use git_sshkey::keyfile::sanitized_key_name;
use git_sshkey::remote::normalize_remote_url;
use git_sshkey::ssh::first_token;

#[test]
fn test_first_token() {
    assert_eq!(first_token(""), "");
    assert_eq!(first_token("ssh -i"), "ssh");
    assert_eq!(first_token("\"/usr/bin/ssh\" -i"), "/usr/bin/ssh");
    assert_eq!(first_token("'/usr/bin/ssh' -i"), "/usr/bin/ssh");
}

#[test]
fn test_normalize_remote_url() {
    let cases = vec![
        ("git@github.com:foo/bar.git", "github.com/foo/bar"),
        ("git@github.com:foo/bar", "github.com/foo/bar"),
        ("https://github.com/foo/bar.git", "github.com/foo/bar"),
        ("https://github.com/foo/bar", "github.com/foo/bar"),
        // Standard port 22 is stripped so ssh:// with port matches scp-style
        ("ssh://git@github.com:22/foo/bar.git", "github.com/foo/bar"),
        // Non-standard port is preserved
        (
            "ssh://git@github.com:2222/foo/bar.git",
            "github.com/2222/foo/bar",
        ),
        // HTTPS port 443 is stripped
        ("https://github.com:443/foo/bar.git", "github.com/foo/bar"),
        // Git protocol port 9418 is stripped
        ("git://github.com:9418/foo/bar.git", "github.com/foo/bar"),
        ("GITHUB.com:foo/bar.git", "github.com/foo/bar"),
        ("https://user@github.com/foo/bar.git", "github.com/foo/bar"),
        ("git@github.com:foo/bar.git/", "github.com/foo/bar"),
        ("ssh://git@github.com/foo/bar.git", "github.com/foo/bar"),
    ];

    for (input, expected) in cases {
        assert_eq!(
            normalize_remote_url(input),
            expected,
            "failed for: {}",
            input
        );
    }
}

#[test]
fn test_sanitized_key_name() {
    assert_eq!(
        sanitized_key_name("john.doe@company.com"),
        "john-doe-company-com"
    );
    assert_eq!(sanitized_key_name("My SSH Key!!!"), "my-ssh-key");
    assert_eq!(sanitized_key_name("abc--def__ghi"), "abc-def__ghi");
    assert_eq!(sanitized_key_name("---abc---"), "abc");
    assert_eq!(sanitized_key_name(""), "");
}

#[test]
fn test_find_key_by_identifier_and_identifier() {
    let keys = vec![
        AgentKey {
            line: "ssh-ed25519 AAAAC3NzaC1lZDI1NTE5AAAAIPp3rPain pain".to_string(),
            key_type: "ssh-ed25519".to_string(),
            comment: "pain".to_string(),
        },
        AgentKey {
            line: "ssh-ed25519 AAAAC3NzaC1lZDI1NTE5AAAAIPp3rNoComment".to_string(),
            key_type: "ssh-ed25519".to_string(),
            comment: "".to_string(),
        },
        AgentKey {
            line: "ssh-rsa AAAAB3NzaC1yc2EAAAADAQABAAABAQDF123 admin".to_string(),
            key_type: "ssh-rsa".to_string(),
            comment: "admin".to_string(),
        },
    ];

    // Match by exact comment
    let found = find_key_by_identifier(&keys, "pain").unwrap();
    assert_eq!(found.comment, "pain");

    // Match by case-insensitive comment
    let found = find_key_by_identifier(&keys, "PAIN").unwrap();
    assert_eq!(found.comment, "pain");

    // Match by index
    let found = find_key_by_identifier(&keys, "2").unwrap();
    assert_eq!(found.comment, "admin");

    // Match by identifier (empty comment key)
    let empty_comment_key = &keys[1];
    let id = empty_comment_key.identifier();
    assert_eq!(id.len(), 8);
    let found = find_key_by_identifier(&keys, &id).unwrap();
    assert_eq!(found.line, empty_comment_key.line);

    // Match by partial fingerprint
    let found = find_key_by_identifier(&keys, &id[..4]).unwrap();
    assert_eq!(found.line, empty_comment_key.line);

    // No match
    assert!(find_key_by_identifier(&keys, "unknown").is_none());
}
