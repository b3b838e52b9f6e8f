//! Where a vault lives: its file name for a profile, and which file a
//! command uses: an explicit override, the working directory's, the
//! nearest enclosing project's, or the global one.
use crate::crypto::append_chars;
use crate::text::{chars_of, string_from_chars};
use vstd::prelude::*;

verus! {

/// The vault file name of a profile: `.{profile}.envseal`, or `.envseal`.
pub open spec fn vault_file_name_of(pref: Option<Seq<char>>) -> Seq<char> {
    match pref {
        Some(p) => seq!['.'] + p + seq!['.', 'e', 'n', 'v', 's', 'e', 'a', 'l'],
        None => seq!['.', 'e', 'n', 'v', 's', 'e', 'a', 'l'],
    }
}

/// The vault file name of a profile; see `vault_file_name_of`.
pub fn vault_file_name(pref: Option<&str>) -> (s: String)
    ensures
        s@ == vault_file_name_of(
            match pref {
                Some(p) => Some(p@),
                None => None,
            },
        ),
{
    let mut out: Vec<char> = Vec::new();
    match pref {
        Some(p) => {
            out.push('.');
            let pc = chars_of(p);
            append_chars(&mut out, pc.as_slice());
        },
        None => {},
    }
    let tail: Vec<char> = vec!['.', 'e', 'n', 'v', 's', 'e', 'a', 'l'];
    append_chars(&mut out, tail.as_slice());
    string_from_chars(out.as_slice())
}

/// What the host found in one directory, from the working directory up.
#[derive(Clone, Copy)]
pub struct DirProbe {
    /// The vault file exists there.
    pub has_vault: bool,
    /// The directory holds `.git`, `.hg` or `.svn`: the search stops there.
    pub is_repo_root: bool,
}

/// `i` is the directory whose vault file is used: the first that has one,
/// no repository root below it.
pub open spec fn is_found_seal(probes: Seq<DirProbe>, i: int) -> bool {
    &&& 0 <= i < probes.len()
    &&& probes[i].has_vault
    &&& forall|j: int| 0 <= j < i ==> !(#[trigger] probes[j]).has_vault && !probes[j].is_repo_root
}

/// The directory (index into `probes`, from the working directory up)
/// whose vault file is used, where there is one before the search stops.
pub fn find_local_seal(probes: &[DirProbe]) -> (r: Option<usize>)
    ensures
        match r {
            Some(i) => is_found_seal(probes@, i as int),
            None => forall|i: int| !is_found_seal(probes@, i),
        },
{
    let mut i: usize = 0;
    while i < probes.len()
        invariant
            i <= probes.len(),
            forall|j: int| 0 <= j < i ==> !(#[trigger] probes@[j]).has_vault && !probes@[j].is_repo_root,
        decreases probes.len() - i,
    {
        if probes[i].has_vault {
            return Some(i);
        }
        if probes[i].is_repo_root {
            proof {
                assert forall|k: int| !is_found_seal(probes@, k) by {
                    if is_found_seal(probes@, k) && k > i {
                        assert(probes@[i as int].is_repo_root);
                    }
                }
            }
            return None;
        }
        i = i + 1;
    }
    None
}

/// Which vault file a command uses.
#[derive(Clone, Copy, PartialEq, Eq, Structural, Debug)]
pub enum VaultLocation {
    /// The path given by the test override.
    Override,
    /// The profile's file in the working directory.
    WorkingDirectory,
    /// The profile's file in the directory at this index (from the working
    /// directory up).
    Found(usize),
    /// The global vault in the OS config directory.
    Global,
}

/// The vault a command uses: the override where one is set; with
/// `--local`, the working directory's; unless `--global`, the nearest
/// enclosing one found; else the global one.
pub open spec fn location_of(
    has_override: bool,
    force_local: bool,
    force_global: bool,
    found: Option<int>,
) -> VaultLocation {
    if has_override {
        VaultLocation::Override
    } else if force_local {
        VaultLocation::WorkingDirectory
    } else if !force_global && found is Some {
        VaultLocation::Found(found->Some_0 as usize)
    } else {
        VaultLocation::Global
    }
}

/// The directory whose vault file is used, where there is one.
pub open spec fn seal_found(probes: Seq<DirProbe>) -> Option<int> {
    if exists|i: int| is_found_seal(probes, i) {
        Some(choose|i: int| is_found_seal(probes, i))
    } else {
        None
    }
}

/// Decides which vault file a command uses; see `location_of`.
pub fn resolve_path(has_override: bool, force_local: bool, force_global: bool, probes: &[DirProbe]) -> (r:
    VaultLocation)
    ensures
        r == location_of(has_override, force_local, force_global, seal_found(probes@)),
{
    if has_override {
        return VaultLocation::Override;
    }
    let f = find_local_seal(probes);
    proof {
        if let Some(i) = f {
            let k = choose|k: int| is_found_seal(probes@, k);
            if k < i {
                assert(!probes@[k].has_vault);
            }
            if i < k {
                assert(!probes@[i as int].has_vault);
            }
        }
    }
    if force_local {
        VaultLocation::WorkingDirectory
    } else if !force_global && f.is_some() {
        VaultLocation::Found(f.unwrap())
    } else {
        VaultLocation::Global
    }
}

} // verus!
