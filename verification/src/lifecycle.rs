//! Creating a vault, unlocking it and its protected tags, adding protected
//! tags, linking groups to directories and changing the master password.
use crate::crypto::{
    aes256gcm_open, argon2id, decrypt, decrypt_result, derive_key, derive_master_keys, encrypt,
    ed25519_public_key, generate_dek, generate_salt, kdf_accepts, CryptoError, SigningKey,
};
use crate::error::{ErrorModel, VaultError};
use crate::ops::{sealed_by, group_tags};
use crate::seal::integrity;
use crate::strmap::StrMap;
use crate::vault::{
    base_tag, is_base_tag, local_group, local_group_string, opt_view, Entry, Group, Tag, Vault,
    VaultKeys,
};
use vstd::prelude::*;
use vstd::slice::slice_to_vec;
use vstd::utf8::encode_utf8;

verus! {

/// What a decrypted key gives: the 32 bytes it must be.
pub open spec fn key_bytes(r: Result<Seq<u8>, CryptoError>, wrong: ErrorModel) -> Result<
    Seq<u8>,
    ErrorModel,
> {
    match r {
        Err(_) => Err(wrong),
        Ok(p) => if p.len() != 32 {
            Err(ErrorModel::CorruptedKey)
        } else {
            Ok(p)
        },
    }
}

/// The data key of a protected tag under a tag password: the tag's wrapped
/// key opened under the key derived from the password and the tag's salt.
pub open spec fn tag_key_result(t: Tag, password: Seq<char>) -> Result<Seq<u8>, ErrorModel> {
    match t.salt {
        None => Err(ErrorModel::TagNotProtected),
        Some(salt) => match t.wrapped_tag_dek {
            None => Err(ErrorModel::CorruptedTag),
            Some(w) => if !kdf_accepts(password, salt@) {
                Err(ErrorModel::Crypto(CryptoError::PasswordHash))
            } else {
                key_bytes(
                    decrypt_result(argon2id(encode_utf8(password), salt@, 32), w.nonce@, w.ciphertext@),
                    ErrorModel::WrongTagPassword,
                )
            },
        },
    }
}

/// Copies 32 bytes into a key.
fn key_from(v: &[u8]) -> (k: [u8; 32])
    requires
        v@.len() == 32,
    ensures
        k@ == v@,
{
    let k = crate::crypto::array32(v);
    assert(v@.take(32) == v@);
    k
}

impl Vault {
    /// The data key of a protected tag, unwrapped with the tag password.
    pub fn unlock_tag_key(tag: &Tag, password: &str) -> (r: Result<[u8; 32], VaultError>)
        ensures
            match (r, tag_key_result(*tag, password@)) {
                (Ok(k), Ok(sk)) => k@ == sk,
                (Err(e), Err(m)) => e@ == m,
                _ => false,
            },
    {
        let salt = match &tag.salt {
            None => return Err(VaultError::TagNotProtected),
            Some(s) => s,
        };
        let w = match &tag.wrapped_tag_dek {
            None => return Err(VaultError::CorruptedTag),
            Some(w) => w,
        };
        let kek = match derive_key(password, salt.as_slice()) {
            Ok(k) => k,
            Err(e) => return Err(VaultError::Crypto(e)),
        };
        let p = match decrypt(&kek, w.nonce.as_slice(), w.ciphertext.as_slice()) {
            Ok(p) => p,
            Err(_) => return Err(VaultError::WrongTagPassword),
        };
        if p.len() != 32 {
            return Err(VaultError::CorruptedKey);
        }
        Ok(key_from(p.as_slice()))
    }

    /// The data key of tag `tag` of a group, unwrapped with its password.
    pub fn unlock_tag(&self, group: Option<&str>, tag: &str, tag_password: &str) -> (r: Result<
        [u8; 32],
        VaultError,
    >)
        ensures
            match self.group_for(opt_view(group)) {
                Err(m) => r matches Err(e) && e@ == m,
                Ok(g) => if !self.entries@.contains_key(g) {
                    r matches Err(e) && e@ == ErrorModel::NoGroupNamed(g)
                } else if !self.entries@[g].tags@.contains_key(tag@) {
                    r matches Err(e) && e@ == ErrorModel::NoTagNamed(tag@, g)
                } else {
                    match (r, tag_key_result(self.entries@[g].tags@[tag@], tag_password@)) {
                        (Ok(k), Ok(sk)) => k@ == sk,
                        (Err(e), Err(m)) => e@ == m,
                        _ => false,
                    }
                },
            },
    {
        let g = self.resolve_group_name(group)?;
        let grp = match self.entries.get(g.as_str()) {
            None => return Err(VaultError::NoGroupNamed(g)),
            Some(x) => x,
        };
        match grp.tags.get(tag) {
            None => Err(VaultError::NoTagNamed(String::from_str(tag), g)),
            Some(t) => Vault::unlock_tag_key(t, tag_password),
        }
    }
}

/// What opening the vault with a key-encryption key and signing seed
/// gives: the master data key, where the seed's public key is the vault's,
/// the vault's signature holds and the wrapped master key opens.
pub open spec fn open_with(v: Vault, kek: Seq<u8>, seed: Seq<u8>) -> Result<
    (Seq<u8>, Seq<u8>, Seq<u8>),
    ErrorModel,
> {
    if v.public_key@ != ed25519_public_key(seed) {
        Err(ErrorModel::AuthenticationFailed)
    } else {
        match integrity(v) {
            Err(m) => Err(m),
            Ok(_) => match key_bytes(
                decrypt_result(kek, v.wrapped_master_dek.nonce@, v.wrapped_master_dek.ciphertext@),
                ErrorModel::WrongMasterPassword,
            ) {
                Err(m) => Err(m),
                Ok(dek) => Ok((kek, dek, seed)),
            },
        }
    }
}

/// What unlocking with a master password gives: the key-encryption key, the
/// master data key and the signing seed, where the password derives the
/// vault's public key, the vault's signature holds and the wrapped master
/// key opens.
pub open spec fn unlock_result(v: Vault, password: Seq<char>) -> Result<
    (Seq<u8>, Seq<u8>, Seq<u8>),
    ErrorModel,
> {
    if !kdf_accepts(password, v.salt@) {
        Err(ErrorModel::Crypto(CryptoError::PasswordHash))
    } else {
        let h = argon2id(encode_utf8(password), v.salt@, 64);
        open_with(v, h.take(32), h.skip(32))
    }
}

/// The view of unlocked keys.
pub open spec fn keys_view(k: VaultKeys) -> (Seq<u8>, Seq<u8>, Seq<u8>) {
    (k.master_kek@, k.master_dek@, k.signing_key.seed@)
}

impl Vault {
    /// Unlocks the vault with its master password; see `unlock_result`.
    pub fn unlock(&self, password: &str) -> (r: Result<VaultKeys, VaultError>)
        ensures
            match (r, unlock_result(*self, password@)) {
                (Ok(k), Ok(sk)) => keys_view(k) == sk,
                (Err(e), Err(m)) => e@ == m,
                _ => false,
            },
    {
        let (kek, sk) = match derive_master_keys(password, self.salt.as_slice()) {
            Ok(x) => x,
            Err(e) => return Err(VaultError::Crypto(e)),
        };
        self.unlock_cached(&kek, &sk.seed)
    }

    /// Opens the vault with a cached key-encryption key and signing seed;
    /// see `open_with`.
    pub fn unlock_cached(&self, kek: &[u8; 32], seed: &[u8; 32]) -> (r: Result<VaultKeys, VaultError>)
        ensures
            match (r, open_with(*self, kek@, seed@)) {
                (Ok(k), Ok(sk)) => keys_view(k) == sk,
                (Err(e), Err(m)) => e@ == m,
                _ => false,
            },
    {
        let kek = *kek;
        let sk = SigningKey::from_bytes(seed);
        let pk = sk.verifying_key_bytes();
        if !crate::text::bytes_eq(self.public_key.as_slice(), &pk) {
            return Err(VaultError::AuthenticationFailed);
        }
        self.verify_integrity()?;
        let p = match decrypt(
            &kek,
            self.wrapped_master_dek.nonce.as_slice(),
            self.wrapped_master_dek.ciphertext.as_slice(),
        ) {
            Ok(p) => p,
            Err(_) => return Err(VaultError::WrongMasterPassword),
        };
        if p.len() != 32 {
            return Err(VaultError::CorruptedKey);
        }
        let dek = key_from(p.as_slice());
        Ok(VaultKeys { master_kek: kek, master_dek: dek, signing_key: sk })
    }
}

/// An entry holding `nonce` and `ciphertext`.
pub fn entry_of(nonce: &[u8; 12], ciphertext: Vec<u8>) -> (e: Entry)
    ensures
        e.nonce@ == nonce@,
        e.ciphertext@ == ciphertext@,
{
    Entry { nonce: slice_to_vec(nonce), ciphertext }
}

/// A 32-byte key wrapped under a key-encryption key.
pub(crate) fn wrap_key(kek: &[u8; 32], key: &[u8; 32]) -> (e: Entry)
    ensures
        e.nonce@.len() == 12,
        aes256gcm_open(kek@, e.nonce@, e.ciphertext@) == Some(key@),
{
    match encrypt(kek, key) {
        Ok((n, c)) => entry_of(&n, c),
        Err(_) => {
            proof {
                assert(key@.len() == 32);
            }
            Entry { nonce: Vec::new(), ciphertext: Vec::new() }
        },
    }
}

impl Vault {
    /// A new vault under a master password: a fresh salt and master data
    /// key, the key-encryption and signing keys derived from the password,
    /// the master data key wrapped, for a local vault its single empty
    /// group, and the signature over it all; with the keys that unlocking
    /// it with the password gives. `file_path` is where it is to be
    /// written; `workdir` the working directory and its ancestors.
    pub fn init(password: &str, local: bool, file_path: String, workdir: Vec<String>) -> (r: Result<
        (Vault, VaultKeys),
        VaultError,
    >)
        ensures
            r is Ok <==> kdf_accepts(password@, seq![0u8; 16]),
            r matches Err(e) ==> e@ == ErrorModel::Crypto(CryptoError::PasswordHash),
            r matches Ok((v, k)) ==> {
                &&& v.salt@.len() == 16
                &&& v.file_path == Some(file_path)
                &&& v.workdir == workdir
                &&& v.link_index@ == Map::<Seq<char>, String>::empty()
                &&& v.entries@.dom() == (if local {
                    set![local_group()]
                } else {
                    Set::<Seq<char>>::empty()
                })
                &&& local ==> v.entries@[local_group()].base@ == Map::<Seq<char>, Entry>::empty()
                    && v.entries@[local_group()].tags@ == Map::<Seq<char>, Tag>::empty()
                &&& unlock_result(v, password@) == Ok::<(Seq<u8>, Seq<u8>, Seq<u8>), ErrorModel>(keys_view(k))
            },
    {
        let salt = generate_salt();
        proof {
            assert(kdf_accepts(password@, salt@) == kdf_accepts(password@, seq![0u8; 16]));
        }
        let (kek, sk) = match derive_master_keys(password, &salt) {
            Ok(x) => x,
            Err(e) => return Err(VaultError::Crypto(e)),
        };
        let pk = sk.verifying_key_bytes();
        let dek = generate_dek();
        let wrapped = wrap_key(&kek, &dek);
        let mut entries: StrMap<Group> = StrMap::new();
        if local {
            entries.insert(local_group_string(), Group::new_empty());
        }
        let mut v = Vault {
            salt: slice_to_vec(&salt),
            public_key: slice_to_vec(&pk),
            signature: Vec::new(),
            wrapped_master_dek: wrapped,
            link_index: StrMap::new(),
            entries,
            file_path: Some(file_path),
            workdir,
        };
        v.seal_integrity(&sk);
        proof {
            assert(v.entries@.dom() =~= (if local {
                set![local_group()]
            } else {
                Set::<Seq<char>>::empty()
            }));
            let h = argon2id(encode_utf8(password@), v.salt@, 64);
            assert(h.take(32) == kek@);
        }
        Ok((v, VaultKeys { master_kek: kek, master_dek: dek, signing_key: sk }))
    }

    /// Adds a tag protected by its own password to a group (created where
    /// missing): a fresh salt and tag data key, the key wrapped under the
    /// key derived from the tag password. Re-signs the vault and gives the
    /// tag's data key (what `unlock_tag` with the password gives). On
    /// refusal the vault is left as it was.
    pub fn create_protected_tag(
        &mut self,
        signing_key: &SigningKey,
        group: Option<&str>,
        tag: &str,
        tag_password: &str,
    ) -> (r: Result<[u8; 32], VaultError>)
        ensures
            tag@ == base_tag() ==> (r matches Err(e) && e@ == ErrorModel::ReservedTag
                && *final(self) == *old(self)),
            tag@ != base_tag() ==> match old(self).group_for(opt_view(group)) {
                Err(m) => r matches Err(e) && e@ == m && *final(self) == *old(self),
                Ok(g) => if group_tags(*old(self), g).contains_key(tag@) {
                    r matches Err(e) && e@ == ErrorModel::TagExists(tag@, g) && *final(self)
                        == *old(self)
                } else if !kdf_accepts(tag_password@, seq![0u8; 16]) {
                    r matches Err(e) && e@ == ErrorModel::Crypto(CryptoError::PasswordHash)
                        && *final(self) == *old(self)
                } else {
                    r matches Ok(k) && tag_created(*old(self), *final(self), g, tag@, tag_password@)
                        && tag_key_result(final(self).entries@[g].tags@[tag@], tag_password@)
                        == Ok::<Seq<u8>, ErrorModel>(k@) && sealed_by(*final(self), signing_key.seed@)
                },
            },
    {
        if is_base_tag(tag) {
            return Err(VaultError::ReservedTag);
        }
        let g = self.resolve_group_name(group)?;
        if let Some(grp) = self.entries.get(g.as_str()) {
            if grp.tags.contains_key(tag) {
                return Err(VaultError::TagExists(String::from_str(tag), g));
            }
        }
        let salt = generate_salt();
        proof {
            assert(kdf_accepts(tag_password@, salt@) == kdf_accepts(tag_password@, seq![0u8; 16]));
        }
        let kek = match derive_key(tag_password, &salt) {
            Ok(k) => k,
            Err(e) => return Err(VaultError::Crypto(e)),
        };
        let dek = generate_dek();
        let wrapped = wrap_key(&kek, &dek);
        let t = Tag { salt: Some(slice_to_vec(&salt)), wrapped_tag_dek: Some(wrapped), entries: StrMap::new() };
        let ghost old_v = *self;
        let mut grp = match self.entries.remove(g.as_str()) {
            Some(x) => x,
            None => Group::new_empty(),
        };
        let ghost og = grp;
        let ghost tv = t;
        grp.tags.insert(String::from_str(tag), t);
        let ghost ng = grp;
        self.entries.insert(g, grp);
        proof {
            assert(self.entries@ == old_v.entries@.insert(g@, ng));
            assert(ng.tags@ == og.tags@.insert(tag@, tv));
            assert(tv.salt->0@ == salt@);
        }
        self.seal_integrity(signing_key);
        Ok(dek)
    }
}

/// After `create_protected_tag`: group `g` (created where missing, with no
/// link) has a new tag `t` with a 16-byte salt, no entries, and a data key
/// that the tag password unlocks; nothing else changed.
pub open spec fn tag_created(old: Vault, new: Vault, g: Seq<char>, t: Seq<char>, password: Seq<char>) -> bool {
    let ng = new.entries@[g];
    let nt = ng.tags@[t];
    &&& new.salt == old.salt
    &&& new.public_key == old.public_key
    &&& new.wrapped_master_dek == old.wrapped_master_dek
    &&& new.link_index == old.link_index
    &&& new.file_path == old.file_path
    &&& new.workdir == old.workdir
    &&& new.entries@ == old.entries@.insert(g, ng)
    &&& if old.entries@.contains_key(g) {
        &&& ng.link == old.entries@[g].link
        &&& ng.base == old.entries@[g].base
        &&& ng.tags@ == old.entries@[g].tags@.insert(t, nt)
    } else {
        &&& ng.link@ == Seq::<char>::empty()
        &&& ng.base@ == Map::<Seq<char>, Entry>::empty()
        &&& ng.tags@ == Map::<Seq<char>, Tag>::empty().insert(t, nt)
    }
    &&& nt.salt matches Some(s) && s@.len() == 16
    &&& nt.entries@ == Map::<Seq<char>, Entry>::empty()
    &&& tag_key_result(nt, password) is Ok
}


impl Vault {
    /// Links a group (created where missing) to the working directory,
    /// dropping the link the group had before, and re-signs the vault. On
    /// refusal the vault is left as it was.
    pub fn link_group(&mut self, signing_key: &SigningKey, group: &str) -> (r: Result<(), VaultError>)
        ensures
            old(self).local() ==> (r matches Err(e) && e@ == ErrorModel::LocalCannotLink
                && *final(self) == *old(self)),
            !old(self).local() && old(self).workdir@.len() == 0 ==> (r matches Err(e) && e@
                == ErrorModel::NoWorkingDirectory && *final(self) == *old(self)),
            !old(self).local() && old(self).workdir@.len() > 0 ==> r is Ok && group_linked(
                *old(self),
                *final(self),
                group@,
                old(self).workdir@[0]@,
            ) && sealed_by(*final(self), signing_key.seed@),
    {
        if self.is_local() {
            return Err(VaultError::LocalCannotLink);
        }
        if self.workdir.len() == 0 {
            return Err(VaultError::NoWorkingDirectory);
        }
        let cur = self.workdir[0].clone();
        let ghost old_v = *self;
        let mut grp = match self.entries.remove(group) {
            Some(x) => {
                self.link_index.remove(x.link.as_str());
                x
            },
            None => Group::new_empty(),
        };
        let ghost og = grp;
        grp.link = cur.clone();
        let ghost ng = grp;
        self.entries.insert(String::from_str(group), grp);
        self.link_index.insert(cur, String::from_str(group));
        proof {
            assert(self.entries@ == old_v.entries@.insert(group@, ng));
        }
        self.seal_integrity(signing_key);
        Ok(())
    }
}

/// After `link_group`: group `g` (created where missing) is linked to
/// directory `dir`, whose link replaces the group's earlier one; nothing
/// else changed.
pub open spec fn group_linked(old: Vault, new: Vault, g: Seq<char>, dir: Seq<char>) -> bool {
    let ng = new.entries@[g];
    let earlier = if old.entries@.contains_key(g) {
        old.link_index@.remove(old.entries@[g].link@)
    } else {
        old.link_index@
    };
    &&& new.salt == old.salt
    &&& new.public_key == old.public_key
    &&& new.wrapped_master_dek == old.wrapped_master_dek
    &&& new.file_path == old.file_path
    &&& new.workdir == old.workdir
    &&& new.entries@ == old.entries@.insert(g, ng)
    &&& ng.link@ == dir
    &&& if old.entries@.contains_key(g) {
        ng.base == old.entries@[g].base && ng.tags == old.entries@[g].tags
    } else {
        ng.base@ == Map::<Seq<char>, Entry>::empty() && ng.tags@ == Map::<Seq<char>, Tag>::empty()
    }
    &&& new.link_index@.dom() == earlier.dom().insert(dir)
    &&& new.link_index@[dir]@ == g
    &&& forall|d: Seq<char>| #![trigger new.link_index@[d]]
        d != dir && earlier.contains_key(d) ==> new.link_index@[d] == earlier[d]
}

impl Vault {
    /// Re-keys the vault under a new master password: a fresh salt, the
    /// key-encryption and signing keys derived from the new password, the
    /// current master data key wrapped anew, and the vault re-signed. The
    /// stored entries are untouched.
    pub fn change_master_password(&mut self, current_keys: &VaultKeys, new_password: &str) -> (r:
        Result<(), VaultError>)
        ensures
            r is Ok <==> kdf_accepts(new_password@, seq![0u8; 16]),
            r matches Err(e) ==> e@ == ErrorModel::Crypto(CryptoError::PasswordHash) && *final(self)
                == *old(self),
            r is Ok ==> {
                &&& final(self).salt@.len() == 16
                &&& final(self).entries == old(self).entries
                &&& final(self).link_index == old(self).link_index
                &&& final(self).file_path == old(self).file_path
                &&& final(self).workdir == old(self).workdir
                &&& unlock_result(*final(self), new_password@) matches Ok((_, dek, _))
                    && dek == current_keys.master_dek@
            },
    {
        let salt = generate_salt();
        proof {
            assert(kdf_accepts(new_password@, salt@) == kdf_accepts(new_password@, seq![0u8; 16]));
        }
        let (kek, sk) = match derive_master_keys(new_password, &salt) {
            Ok(x) => x,
            Err(e) => return Err(VaultError::Crypto(e)),
        };
        let pk = sk.verifying_key_bytes();
        let wrapped = wrap_key(&kek, &current_keys.master_dek);
        self.salt = slice_to_vec(&salt);
        self.public_key = slice_to_vec(&pk);
        self.wrapped_master_dek = wrapped;
        self.seal_integrity(&sk);
        proof {
            let h = argon2id(encode_utf8(new_password@), self.salt@, 64);
            assert(h.take(32) == kek@);
        }
        Ok(())
    }
}

} // verus!
