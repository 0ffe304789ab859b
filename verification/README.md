# git_sshkey

`git sshkey` binds one identity of the running `ssh-agent` to a Git repository
or to a single Git command. This crate holds its rules, each function proved
against its contract:

- `src/text.rs` — trimming, searching and splitting texts, character by character.
- `src/remote.rs` — the normal form of remote URLs (and the cache entry it names),
  the search for a remote's URL, and which Git arguments name a remote.
- `src/ssh.rs` — the inherited SSH program, the `core.sshCommand` that pins a key,
  and the Git arguments that set or use it.
- `src/digest.rs` — SHA-256 fingerprints in lower-case hex (through `sha2` and `hex`).
- `src/keyfile.rs` — file names for stored public keys.
- `src/agent.rs` — reading `ssh-add -L`, key identifiers, finding a key by what
  the user calls it.
- `src/detect.rs` — the automatic search for a key that a remote accepts, as a
  state machine: cached key, then default key, then every other key.
- `src/select.rs` — choosing a key, the picker's lines and the texts shown.

`app/` is the command-line program around the library: argument parsing,
running `git` and `ssh-add`, files under `~/.ssh/git-sshkey`, and the picker.
