//! The vault: groups of secrets, each with a base scope and named tags, some
//! of them protected by their own password; every value sealed under a key
//! derived for its (group, tag, name).
use crate::crypto::{
    derive_entry_key, derive_scope_dek, entry_key, scope_dek, SigningKey,
};
use crate::error::{ErrorModel, VaultError};
use crate::strmap::StrMap;
use crate::text::{chars_eq, chars_of, ends_with_chars, has_suffix, string_from_chars};
use vstd::prelude::*;

verus! {

/// The name of the scope that every group has.
pub const BASE_TAG: &'static str = "base";

/// The single group of a local vault.
pub const LOCAL_GROUP_NAME: &'static str = "project";

pub open spec fn base_tag() -> Seq<char> {
    seq!['b', 'a', 's', 'e']
}

pub open spec fn local_group() -> Seq<char> {
    seq!['p', 'r', 'o', 'j', 'e', 'c', 't']
}

pub fn base_tag_string() -> (s: String)
    ensures
        s@ == base_tag(),
{
    let v: Vec<char> = vec!['b', 'a', 's', 'e'];
    string_from_chars(v.as_slice())
}

pub fn local_group_string() -> (s: String)
    ensures
        s@ == local_group(),
{
    let v: Vec<char> = vec!['p', 'r', 'o', 'j', 'e', 'c', 't'];
    string_from_chars(v.as_slice())
}

/// Whether a text is the base tag's name.
pub fn is_base_tag(t: &str) -> (b: bool)
    ensures
        b == (t@ == base_tag()),
{
    let c = chars_of(t);
    let v: Vec<char> = vec!['b', 'a', 's', 'e'];
    chars_eq(c.as_slice(), v.as_slice())
}

fn is_local_group(t: &str) -> (b: bool)
    ensures
        b == (t@ == local_group()),
{
    let c = chars_of(t);
    let v: Vec<char> = vec!['p', 'r', 'o', 'j', 'e', 'c', 't'];
    chars_eq(c.as_slice(), v.as_slice())
}

/// The view of an optional text.
pub open spec fn opt_view(o: Option<&str>) -> Option<Seq<char>> {
    match o {
        Some(s) => Some(s@),
        None => None,
    }
}

/// A sealed value: the AES-GCM nonce and the ciphertext with its tag.
#[derive(Clone)]
pub struct Entry {
    pub nonce: Vec<u8>,
    pub ciphertext: Vec<u8>,
}

/// A tag of a group. A protected tag has a salt and its own data key,
/// wrapped under a key derived from the tag password.
#[derive(Clone)]
pub struct Tag {
    pub salt: Option<Vec<u8>>,
    pub wrapped_tag_dek: Option<Entry>,
    pub entries: StrMap<Entry>,
}

/// A group: the directory linked to it (global vaults), its base entries and its tags.
#[derive(Clone)]
pub struct Group {
    pub link: String,
    pub base: StrMap<Entry>,
    pub tags: StrMap<Tag>,
}

/// A vault as stored on disk, with where it was read from.
#[derive(Clone)]
pub struct Vault {
    pub salt: Vec<u8>,
    pub public_key: Vec<u8>,
    pub signature: Vec<u8>,
    pub wrapped_master_dek: Entry,
    /// Linked directory -> group name.
    pub link_index: StrMap<String>,
    pub entries: StrMap<Group>,
    /// The file the vault was read from or is to be written to.
    pub file_path: Option<String>,
    /// The working directory followed by each of its ancestors up to the
    /// root, as the host reported them; empty where it could not tell.
    pub workdir: Vec<String>,
}

/// The keys an unlocked vault holds.
pub struct VaultKeys {
    pub master_kek: [u8; 32],
    pub master_dek: [u8; 32],
    pub signing_key: SigningKey,
}

impl Tag {
    pub fn new_unprotected() -> (t: Tag)
        ensures
            t.salt is None,
            t.wrapped_tag_dek is None,
            t.entries@ == Map::<Seq<char>, Entry>::empty(),
    {
        Tag { salt: None, wrapped_tag_dek: None, entries: StrMap::new() }
    }
}

impl Group {
    pub fn new_empty() -> (g: Group)
        ensures
            g.link@ == Seq::<char>::empty(),
            g.base@ == Map::<Seq<char>, Entry>::empty(),
            g.tags@ == Map::<Seq<char>, Tag>::empty(),
    {
        Group { link: String::new(), base: StrMap::new(), tags: StrMap::new() }
    }
}

/// The state of reading a path's components up to some point: the last
/// component kept so far (empty and `.` components are skipped) and the one
/// in progress.
pub open spec fn path_state(p: Seq<char>) -> (Option<Seq<char>>, Seq<char>)
    decreases p.len(),
{
    if p.len() == 0 {
        (None, seq![])
    } else {
        let (last, cur) = path_state(p.drop_last());
        if p.last() == '/' {
            (flush_component(last, cur), seq![])
        } else {
            (last, cur.push(p.last()))
        }
    }
}

pub open spec fn flush_component(last: Option<Seq<char>>, cur: Seq<char>) -> Option<Seq<char>> {
    if cur.len() == 0 || cur == seq!['.'] {
        last
    } else {
        Some(cur)
    }
}

/// `Path::file_name` for `/`-separated paths: the last component, unless it is `..`.
pub open spec fn file_name(p: Seq<char>) -> Option<Seq<char>> {
    let (last, cur) = path_state(p);
    match flush_component(last, cur) {
        Some(n) => if n == seq!['.', '.'] {
            None
        } else {
            Some(n)
        },
        None => None,
    }
}

pub open spec fn envseal_suffix() -> Seq<char> {
    seq!['.', 'e', 'n', 'v', 's', 'e', 'a', 'l']
}

/// A local vault is a file named `.envseal` or `*.envseal`.
pub open spec fn path_is_local(p: Seq<char>) -> bool {
    match file_name(p) {
        Some(n) => has_suffix(n, envseal_suffix()),
        None => false,
    }
}

fn file_name_chars(p: &[char]) -> (r: Option<Vec<char>>)
    ensures
        match (r, file_name(p@)) {
            (Some(a), Some(b)) => a@ == b,
            (None, None) => true,
            _ => false,
        },
{
    let mut last: Option<Vec<char>> = None;
    let mut cur: Vec<char> = Vec::new();
    let mut i: usize = 0;
    while i < p.len()
        invariant
            i <= p.len(),
            path_state(p@.take(i as int)) == (
                match last {
                    Some(v) => Some(v@),
                    None => None,
                },
                cur@,
            ),
        decreases p.len() - i,
    {
        assert(p@.take(i + 1).drop_last() == p@.take(i as int));
        if p[i] == '/' {
            if !(cur.len() == 0 || (cur.len() == 1 && cur[0] == '.')) {
                assert(cur@ != seq!['.']);
                last = Some(cur);
            } else {
                assert(cur@.len() == 0 || cur@ == seq!['.']);
            }
            cur = Vec::new();
        } else {
            cur.push(p[i]);
        }
        i = i + 1;
    }
    assert(p@.take(p.len() as int) == p@);
    if !(cur.len() == 0 || (cur.len() == 1 && cur[0] == '.')) {
        assert(cur@ != seq!['.']);
        last = Some(cur);
    } else {
        assert(cur@.len() == 0 || cur@ == seq!['.']);
    }
    match last {
        Some(n) => {
            if n.len() == 2 && n[0] == '.' && n[1] == '.' {
                assert(n@ == seq!['.', '.']);
                None
            } else {
                assert(n@ != seq!['.', '.']);
                Some(n)
            }
        },
        None => None,
    }
}

/// The view of a list of strings.
pub open spec fn strings_view(v: Seq<String>) -> Seq<Seq<char>> {
    v.map_values(|s: String| s@)
}

/// `i` is the first directory of the chain that is linked to a group.
pub open spec fn is_first_linked(chain: Seq<Seq<char>>, links: Map<Seq<char>, String>, i: int) -> bool {
    &&& 0 <= i < chain.len()
    &&& links.contains_key(chain[i])
    &&& forall|j: int| 0 <= j < i ==> !links.contains_key(#[trigger] chain[j])
}

impl Vault {
    pub open spec fn local(self) -> bool {
        match self.file_path {
            Some(p) => path_is_local(p@),
            None => false,
        }
    }

    /// The group an operation addresses: in a local vault always its single
    /// group (naming another one is an error); otherwise the one named, or
    /// the one linked to the nearest enclosing directory.
    pub open spec fn group_for(self, group: Option<Seq<char>>) -> Result<Seq<char>, ErrorModel> {
        if self.local() {
            match group {
                Some(n) => if n != local_group() {
                    Err(ErrorModel::LocalGroupOnly)
                } else {
                    Ok(local_group())
                },
                None => Ok(local_group()),
            }
        } else {
            match group {
                Some(n) => Ok(n),
                None => {
                    let chain = strings_view(self.workdir@);
                    if chain.len() == 0 {
                        Err(ErrorModel::NoWorkingDirectory)
                    } else if exists|i: int| is_first_linked(chain, self.link_index@, i) {
                        let i = choose|i: int| is_first_linked(chain, self.link_index@, i);
                        Ok(self.link_index@[chain[i]]@)
                    } else {
                        Err(ErrorModel::NoLinkedGroup)
                    }
                },
            }
        }
    }

    /// Whether the vault is a local (per-project) one.
    pub fn is_local(&self) -> (b: bool)
        ensures
            b == self.local(),
    {
        match &self.file_path {
            None => false,
            Some(p) => {
                let pc = chars_of(p.as_str());
                match file_name_chars(pc.as_slice()) {
                    None => false,
                    Some(n) => {
                        let suffix: Vec<char> = vec!['.', 'e', 'n', 'v', 's', 'e', 'a', 'l'];
                        ends_with_chars(n.as_slice(), suffix.as_slice())
                    },
                }
            },
        }
    }

    /// The group an operation addresses; see `group_for`.
    pub fn resolve_group_name(&self, group: Option<&str>) -> (r: Result<String, VaultError>)
        ensures
            match (r, self.group_for(opt_view(group))) {
                (Ok(a), Ok(b)) => a@ == b,
                (Err(e), Err(m)) => e@ == m,
                _ => false,
            },
    {
        if self.is_local() {
            if let Some(name) = group {
                if !is_local_group(name) {
                    return Err(VaultError::LocalGroupOnly);
                }
            }
            return Ok(local_group_string());
        }
        if let Some(name) = group {
            return Ok(String::from_str(name));
        }
        let ghost chain = strings_view(self.workdir@);
        if self.workdir.len() == 0 {
            return Err(VaultError::NoWorkingDirectory);
        }
        let mut i: usize = 0;
        while i < self.workdir.len()
            invariant
                i <= self.workdir.len(),
                !self.local(),
                group is None,
                chain.len() > 0,
                chain == strings_view(self.workdir@),
                forall|j: int| 0 <= j < i ==> !self.link_index@.contains_key(#[trigger] chain[j]),
            decreases self.workdir.len() - i,
        {
            match self.link_index.get(self.workdir[i].as_str()) {
                Some(g) => {
                    proof {
                        assert(chain[i as int] == self.workdir@[i as int]@);
                        assert(is_first_linked(chain, self.link_index@, i as int));
                        let k = choose|k: int| is_first_linked(chain, self.link_index@, k);
                        if k < i {
                            assert(!self.link_index@.contains_key(chain[k]));
                        }
                        if i < k {
                            assert(!self.link_index@.contains_key(chain[i as int]));
                        }
                    }
                    return Ok(g.clone());
                },
                None => {
                    assert(chain[i as int] == self.workdir@[i as int]@);
                },
            }
            i = i + 1;
        }
        proof {
            if exists|k: int| is_first_linked(chain, self.link_index@, k) {
                let k = choose|k: int| is_first_linked(chain, self.link_index@, k);
                assert(!self.link_index@.contains_key(chain[k]));
            }
        }
        Err(VaultError::NoLinkedGroup)
    }
}

} // verus!
