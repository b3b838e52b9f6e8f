# envseal

A verified library for an offline secrets vault: a file of sealed
secrets, grouped by project and tag, signed with a key derived from a
master password, shared through git and merged three ways by a git merge
driver.

- `src/` is the library, verified with Verus: the vault model (`vault`),
  reading and writing secrets (`ops`), creating, unlocking and re-keying
  vaults (`lifecycle`), key rotation (`rotate`), tokens (`token`,
  `access`), the three-way merge (`merge`, `merging`), editing a scope as
  dotenv text (`edit`), the signature over the vault's contents (`seal`),
  the session cache (`session`), dotenv and shell output (`env_file`,
  `shell`), git configuration text (`gitconf`), and small verified helpers
  (`text`, `strmap`, `hex`, `json`, `scope`, `path_order`, `locate`).
  Calls into the cryptography and encoding crates and into std functions
  that vstd does not specify stand behind small trusted wrappers in
  `crypto`, `token`, `recipients`, `shell`, `ops` (`String::from_utf8`)
  and `text` (`String::push`).
- `app/` is the command-line program around it: argument parsing, the
  TOML file format, file locking, password prompts, the OS keyring, git
  and child processes.
- `tests/` exercises the library on concrete values.
