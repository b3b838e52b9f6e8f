//! The session cache of unlocked keys: kept for ten minutes, in the OS
//! keyring where it works and in this process's memory where it does not.
//! This module keeps the in-memory cache and decides; the caller talks to
//! the keyring and reports what it found.
use crate::strmap::StrMap;
use vstd::prelude::*;

verus! {

/// How long cached keys stay valid, in seconds.
pub const SESSION_TIMEOUT_SEC: u64 = 600;

/// Keys that a session caches.
#[derive(Clone, Copy)]
pub enum CachedKeys {
    /// The master keys: the key-encryption key and the signing seed.
    Master { kek: [u8; 32], seed: [u8; 32] },
    /// A protected tag's data key.
    Tag { dek: [u8; 32] },
}

/// The in-memory session cache: keys with their expiry (seconds since the
/// Unix epoch), by scope.
pub struct SessionManager {
    memory: StrMap<(CachedKeys, u64)>,
}

/// What the keyring held for a scope, as the caller read it: the keys and
/// their expiry, where it held a readable session.
pub type KeyringSession = Option<(CachedKeys, u64)>;

impl SessionManager {
    /// The cached sessions, by scope.
    pub closed spec fn sessions(&self) -> Map<Seq<char>, (CachedKeys, u64)> {
        self.memory@
    }

    /// An empty cache.
    pub fn new() -> (s: SessionManager)
        ensures
            s.sessions() == Map::<Seq<char>, (CachedKeys, u64)>::empty(),
    {
        SessionManager { memory: StrMap::new() }
    }

    /// When keys cached at `now` expire.
    pub fn expiry(now: u64) -> (e: u64)
        requires
            now + SESSION_TIMEOUT_SEC <= u64::MAX,
        ensures
            e == now + SESSION_TIMEOUT_SEC,
    {
        now + SESSION_TIMEOUT_SEC
    }

    /// Caches keys for a scope at `now`, for ten minutes, in memory where
    /// the keyring did not take them (`keyring_ok` false); gives their expiry.
    pub fn cache_keys(&mut self, scope: &str, keys: CachedKeys, now: u64, keyring_ok: bool) -> (e: u64)
        requires
            now + SESSION_TIMEOUT_SEC <= u64::MAX,
        ensures
            e == now + SESSION_TIMEOUT_SEC,
            keyring_ok ==> final(self).sessions() == old(self).sessions(),
            !keyring_ok ==> final(self).sessions() == old(self).sessions().insert(scope@, (keys, e)),
    {
        let e = SessionManager::expiry(now);
        if !keyring_ok {
            self.memory.insert(String::from_str(scope), (keys, e));
        }
        e
    }

    /// Forgets the keys cached in memory for a scope (the caller deletes the
    /// keyring's copy).
    pub fn clear_session(&mut self, scope: &str)
        ensures
            final(self).sessions() == old(self).sessions().remove(scope@),
    {
        self.memory.remove(scope);
    }

    /// The keys still valid at `now` for a scope: the keyring's session
    /// where it held one (an expired one is cleared, from memory too, and
    /// the caller told to delete it from the keyring), else the memory's,
    /// an expired one being dropped. Gives the keys and whether the keyring's
    /// session is to be deleted.
    pub fn get_active_keys(&mut self, scope: &str, now: u64, keyring: KeyringSession) -> (r: (
        Option<CachedKeys>,
        bool,
    ))
        ensures
            r == active_keys(old(self).sessions(), scope@, now, keyring),
            final(self).sessions() == sessions_after_lookup(old(self).sessions(), scope@, now, keyring),
    {
        match keyring {
            Some((k, exp)) => {
                if now <= exp {
                    (Some(k), false)
                } else {
                    self.clear_session(scope);
                    (None, true)
                }
            },
            None => {
                match self.memory.get(scope) {
                    Some(entry) => {
                        let (k, exp) = *entry;
                        if now <= exp {
                            return (Some(k), false);
                        }
                    },
                    None => {},
                }
                self.memory.remove(scope);
                (None, false)
            },
        }
    }
}

/// What a lookup gives at `now`: the keyring's session where it held one
/// and it has not expired (an expired one is to be deleted from the
/// keyring), else the memory's where it has not expired.
pub open spec fn active_keys(
    sessions: Map<Seq<char>, (CachedKeys, u64)>,
    scope: Seq<char>,
    now: u64,
    keyring: KeyringSession,
) -> (Option<CachedKeys>, bool) {
    match keyring {
        Some((k, exp)) => if now <= exp {
            (Some(k), false)
        } else {
            (None, true)
        },
        None => if sessions.contains_key(scope) && now <= sessions[scope].1 {
            (Some(sessions[scope].0), false)
        } else {
            (None, false)
        },
    }
}

/// The memory cache after a lookup: expired sessions of the scope dropped.
pub open spec fn sessions_after_lookup(
    sessions: Map<Seq<char>, (CachedKeys, u64)>,
    scope: Seq<char>,
    now: u64,
    keyring: KeyringSession,
) -> Map<Seq<char>, (CachedKeys, u64)> {
    if active_keys(sessions, scope, now, keyring).0 is Some {
        sessions
    } else {
        sessions.remove(scope)
    }
}

/// A session cached in memory is found again until it expires: after
/// `cache_keys` at `now` with a failing keyring, `get_active_keys` at any
/// time up to ten minutes later, with no keyring session, gives the keys.
pub proof fn lemma_cached_keys_found(
    before: Map<Seq<char>, (CachedKeys, u64)>,
    scope: Seq<char>,
    keys: CachedKeys,
    now: u64,
    later: u64,
)
    requires
        now + SESSION_TIMEOUT_SEC <= u64::MAX,
        later <= now + SESSION_TIMEOUT_SEC,
    ensures
        active_keys(
            before.insert(scope, (keys, (now + SESSION_TIMEOUT_SEC) as u64)),
            scope,
            later,
            None,
        ) == (Some(keys), false),
{
}

/// A session is not found once it has expired: after `cache_keys` at
/// `now`, a lookup more than ten minutes later gives nothing and drops it.
pub proof fn lemma_expired_keys_dropped(
    before: Map<Seq<char>, (CachedKeys, u64)>,
    scope: Seq<char>,
    keys: CachedKeys,
    now: u64,
    later: u64,
)
    requires
        now + SESSION_TIMEOUT_SEC < later,
    ensures
        ({
            let s = before.insert(scope, (keys, (now + SESSION_TIMEOUT_SEC) as u64));
            &&& active_keys(s, scope, later, None) == (None::<CachedKeys>, false)
            &&& !sessions_after_lookup(s, scope, later, None).contains_key(scope)
        }),
{
}

/// A cleared session is gone: after `clear_session`, `get_active_keys` with
/// no keyring session finds nothing for that scope.
pub proof fn lemma_cleared_session_gone(
    before: Map<Seq<char>, (CachedKeys, u64)>,
    scope: Seq<char>,
    now: u64,
)
    ensures
        active_keys(before.remove(scope), scope, now, None) == (None::<CachedKeys>, false),
{
}

} // verus!
