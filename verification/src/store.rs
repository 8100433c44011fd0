//! The scope-keyed secret store and the two operations on it: registering a
//! secret under a scope, and generating the 6-digit display code for a
//! scope's secret at a given time.

use crate::base32::{b32_decode, DecodeError};
use crate::totp::{counter_at, current_counter, generate_code, hotp_of, pow10, totp_display};
use vstd::prelude::*;
use vstd::utf8::encode_utf8;

verus! {

/// Why a generation request produced no code.
#[derive(Clone, Copy, Debug, PartialEq, Eq, Structural)]
pub enum Error {
    /// The scope's stored secret is not valid base32.
    Decode(DecodeError),
    /// The scope was never initialized with a secret.
    UninitializedScope,
}

/// The mapping that a sequence of scope/secret entries denotes: each entry
/// binds its scope name, later entries overriding earlier ones.
pub open spec fn entries_map(entries: Seq<(String, String)>) -> Map<Seq<char>, Seq<char>>
    decreases entries.len(),
{
    if entries.len() == 0 {
        Map::empty()
    } else {
        entries_map(entries.drop_last()).insert(entries.last().0@, entries.last().1@)
    }
}

/// The UTF-8 bytes of a stored secret string, the form the base32 decoder
/// works on.
pub open spec fn secret_bytes(secret: Seq<char>) -> Seq<u8> {
    encode_utf8(secret)
}

/// The in-memory secret store: base32 secret strings keyed by scope name.
/// Its meaning is the mapping from scope names to secrets; persisting it is
/// the caller's affair.
pub struct KeyStore {
    /// The format version written alongside the scopes when persisted.
    pub version: u16,
    /// The scope/secret entries, in insertion order.
    pub scopes: Vec<(String, String)>,
}

impl View for KeyStore {
    type V = Map<Seq<char>, Seq<char>>;

    open spec fn view(&self) -> Map<Seq<char>, Seq<char>> {
        entries_map(self.scopes@)
    }
}

impl KeyStore {
    /// The store format version this library writes.
    pub fn current_version() -> (version: u16)
        ensures
            version == 1,
    {
        1
    }

    /// Looks up the secret stored under `scope`.
    pub fn get(&self, scope: &str) -> (value: Option<String>)
        ensures
            match value {
                Some(secret) => self@.contains_key(scope@) && secret@ == self@[scope@],
                None => !self@.contains_key(scope@),
            },
    {
        let target: String = scope.to_owned();
        let n = self.scopes.len();
        proof {
            assert(self.scopes@.take(n as int) =~= self.scopes@);
        }
        let mut i: usize = n;
        while i > 0
            invariant
                i <= n,
                n == self.scopes@.len(),
                target@ == scope@,
                self@.contains_key(scope@) == entries_map(self.scopes@.take(i as int)).contains_key(
                    scope@,
                ),
                entries_map(self.scopes@.take(i as int)).contains_key(scope@) ==> self@[scope@]
                    == entries_map(self.scopes@.take(i as int))[scope@],
            decreases i,
        {
            let j = i - 1;
            proof {
                assert(self.scopes@.take(j + 1).drop_last() =~= self.scopes@.take(j as int));
                assert(self.scopes@.take(j + 1).last() == self.scopes@[j as int]);
            }
            if self.scopes[j].0 == target {
                return Some(self.scopes[j].1.clone());
            }
            i = j;
        }
        proof {
            assert(self.scopes@.take(0) =~= Seq::<(String, String)>::empty());
        }
        None
    }
}

impl Default for KeyStore {
    /// An empty store at the current format version.
    fn default() -> (store: KeyStore)
        ensures
            store@ == Map::<Seq<char>, Seq<char>>::empty(),
            store.version == 1,
    {
        KeyStore { version: KeyStore::current_version(), scopes: Vec::new() }
    }
}

/// Stores `key` as the secret of `scope`, replacing any earlier secret. The
/// key is stored as supplied; it is validated as base32 only when a code is
/// generated.
pub fn init(store: &mut KeyStore, scope: &str, key: &str)
    ensures
        final(store)@ == old(store)@.insert(scope@, key@),
        final(store).version == old(store).version,
{
    let ghost before = store.scopes@;
    store.scopes.push((scope.to_owned(), key.to_owned()));
    proof {
        assert(store.scopes@.drop_last() =~= before);
    }
}

/// Generates the 6-digit display code of `scope`'s secret at time `now`:
/// the secret's HOTP value at the 30-second time-step counter, reduced to
/// six decimal digits. Fails exactly when the scope holds no secret, or
/// holds one that is not valid base32.
pub fn generate(store: &KeyStore, scope: &str, now: u64) -> (result: Result<u32, Error>)
    ensures
        match result {
            Ok(code) => {
                &&& store@.contains_key(scope@)
                &&& (b32_decode(secret_bytes(store@[scope@])) matches Some(secret) && code
                    == hotp_of(secret, counter_at(now, 0, 30)) as nat % pow10(6))
                &&& code <= 999_999
            },
            Err(Error::UninitializedScope) => !store@.contains_key(scope@),
            Err(Error::Decode(e)) => store@.contains_key(scope@) && b32_decode(
                secret_bytes(store@[scope@]),
            ) is None && e == DecodeError::InvalidEncoding,
        },
{
    let key = match store.get(scope) {
        Some(key) => key,
        None => {
            return Err(Error::UninitializedScope);
        },
    };
    let counter = current_counter(now, 0, 30);
    let full_code = match generate_code(key.as_str(), counter) {
        Ok(code) => code,
        Err(e) => {
            return Err(Error::Decode(e));
        },
    };
    let code = totp_display(full_code, 6);
    proof {
        reveal_with_fuel(pow10, 7);
        assert(pow10(6) == 1_000_000);
    }
    Ok(code)
}

} // verus!
