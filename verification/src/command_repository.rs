//! The writing side of the store: a value is stored under a key together with
//! the instant at which it expires, computed once, when it is written.

use vstd::prelude::*;
use vstd::string::*;
use crate::clock::now_ms;
use crate::resp_command::RespTtl;
use crate::storage::{EntryModel, Storage, StorageEntry, StorageKey, StoreModel};

verus! {

/// How long a stored value is to live.
#[derive(Debug, Clone, Copy, PartialEq, Eq, Structural)]
pub enum TTL {
    /// A number of milliseconds.
    Milliseconds(u64),
    /// A number of seconds.
    Seconds(u64),
    /// For ever.
    Indefinite,
}

impl TTL {
    /// The time to live in milliseconds; nothing for a value that lives for
    /// ever.
    pub open spec fn millis(self) -> Option<nat> {
        match self {
            TTL::Milliseconds(ms) => Some(ms as nat),
            TTL::Seconds(s) => Some((s * 1000) as nat),
            TTL::Indefinite => None,
        }
    }

    /// The time to live in milliseconds. There is none for a value that lives
    /// for ever, and none where the number does not fit in 64 bits.
    pub fn to_milliseconds(&self) -> (r: Result<u64, String>)
        ensures
            match self.millis() {
                Some(ms) => if ms <= u64::MAX {
                    r == Ok::<u64, String>(ms as u64)
                } else {
                    r matches Err(e) && e@ == "TTL does not fit in 64 bits of milliseconds"@
                },
                None => r matches Err(e) && e@
                    == "Indefinite TTL cannot be converted to milliseconds"@,
            },
    {
        match self {
            TTL::Milliseconds(ms) => Ok(*ms),
            TTL::Seconds(s) => match s.checked_mul(1000) {
                Some(ms) => Ok(ms),
                None => Err(String::from_str("TTL does not fit in 64 bits of milliseconds")),
            },
            TTL::Indefinite => Err(
                String::from_str("Indefinite TTL cannot be converted to milliseconds"),
            ),
        }
    }

    /// A time to live of `ms` milliseconds.
    pub fn from_milliseconds(ms: u64) -> (ttl: Self)
        ensures
            ttl == TTL::Milliseconds(ms),
    {
        TTL::Milliseconds(ms)
    }

    /// A time to live of `s` seconds.
    pub fn from_seconds(s: u64) -> (ttl: Self)
        ensures
            ttl == TTL::Seconds(s),
    {
        TTL::Seconds(s)
    }

    /// The time to live that a command asks for; none asked for means for ever.
    pub open spec fn of(ttl: Option<RespTtl>) -> TTL {
        match ttl {
            Some(RespTtl::Seconds(s)) => TTL::Seconds(s),
            Some(RespTtl::Milliseconds(ms)) => TTL::Milliseconds(ms),
            None => TTL::Indefinite,
        }
    }
}

impl<'a> From<&'a RespTtl> for TTL {
    fn from(resp_ttl: &'a RespTtl) -> (ttl: Self) {
        match resp_ttl {
            RespTtl::Seconds(s) => TTL::Seconds(*s),
            RespTtl::Milliseconds(ms) => TTL::Milliseconds(*ms),
        }
    }
}

impl<'a> vstd::std_specs::convert::FromSpecImpl<&'a RespTtl> for TTL {
    open spec fn obeys_from_spec() -> bool {
        true
    }

    open spec fn from_spec(resp_ttl: &'a RespTtl) -> Self {
        match *resp_ttl {
            RespTtl::Seconds(s) => TTL::Seconds(s),
            RespTtl::Milliseconds(ms) => TTL::Milliseconds(ms),
        }
    }
}

/// The instant at which a value written at `now_ms` expires: the instant of
/// writing plus the time to live. A value that lives for ever has none, and
/// neither has one whose expiry 64 bits of milliseconds cannot hold.
pub open spec fn expiry(ttl: TTL, now_ms: u64) -> Option<u64> {
    match ttl.millis() {
        Some(ms) => if now_ms + ms <= u64::MAX {
            Some((now_ms + ms) as u64)
        } else {
            None
        },
        None => None,
    }
}

/// The store after `value` was written under `key` at the instant `now_ms`.
pub open spec fn written(
    store: StoreModel,
    key: Seq<u8>,
    value: Seq<u8>,
    ttl: TTL,
    now_ms: u64,
) -> StoreModel {
    store.insert(key, EntryModel { value, expires_at: expiry(ttl, now_ms) })
}

/// Computes the instant at which a value written at `now_ms` expires.
pub fn expires_at(ttl: TTL, now_ms: u64) -> (r: Option<u64>)
    ensures
        r == expiry(ttl, now_ms),
{
    match ttl.to_milliseconds() {
        Ok(ms) => now_ms.checked_add(ms),
        Err(_) => None,
    }
}

/// Write access to a store.
pub struct CommandRepository<'a> {
    /// The store that is written to.
    pub storage: &'a mut Storage,
}

impl<'a> CommandRepository<'a> {
    /// Write access to `storage`: what the repository writes, `storage` holds
    /// once the repository is gone.
    pub fn new(storage: &'a mut Storage) -> (repository: Self)
        ensures
            *repository.storage == *old(storage),
            *final(repository.storage) == *final(storage),
    {
        Self { storage }
    }

    /// Stores `value` under `key` as of the instant `now_ms`, in place of what
    /// was stored under `key`; the expiry is fixed here and never again. The
    /// repository goes on writing to the same store.
    pub fn set_at(&mut self, key: Vec<u8>, value: Vec<u8>, ttl: TTL, now_ms: u64)
        ensures
            final(self).storage@ == written(old(self).storage@, key@, value@, ttl, now_ms),
            *final(final(self).storage) == *final(old(self).storage),
    {
        let expires = expires_at(ttl, now_ms);
        self.storage.insert(StorageKey::from(key), StorageEntry::new(value, expires));
    }

    /// Stores `value` under `key` as of the present instant, which it reads
    /// from the wall clock. The repository goes on writing to the same store.
    pub fn set(&mut self, key: Vec<u8>, value: Vec<u8>, ttl: TTL)
        ensures
            exists|now_ms: u64|
                final(self).storage@ == #[trigger] written(
                    old(self).storage@,
                    key@,
                    value@,
                    ttl,
                    now_ms,
                ),
            *final(final(self).storage) == *final(old(self).storage),
    {
        let now = now_ms();
        self.set_at(key, value, ttl, now);
    }
}

} // verus!
