use crate::crypto::{cbc_decrypt_of, decrypt, derive_key, derived_key, encrypt};
use crate::entry::{Entry, EntryView};
use crate::envelope::{decode_envelope, encode_envelope, envelope_parts, lemma_envelope_round_trip};
use crate::error::VaultError;
use crate::payload::{decode_payload, encode_payload, lemma_payload_round_trip, payload_bytes, payload_entries, views};
use crate::text::{contains_chars, is_infix, lower_of, parse_number, parsed_number, to_lowercase};
use vstd::prelude::*;

verus! {

/// The fixed application salt that every vault key is derived with.
pub const VAULT_SALT: &'static str = "hiho_salt_2024";

/// What loading a vault file's bytes under `key` yields: the entry list, or
/// the first failure among parsing the envelope, decrypting it and parsing
/// the payload.
pub open spec fn opened_entries(key: Seq<u8>, bytes: Seq<u8>) -> Result<Seq<EntryView>, VaultError> {
    match envelope_parts(bytes) {
        None => Err(VaultError::MalformedVaultFile),
        Some((ciphertext, iv)) => match cbc_decrypt_of(key, iv, ciphertext) {
            None => Err(VaultError::DecryptionError),
            Some(plaintext) => match payload_entries(plaintext) {
                None => Err(VaultError::MalformedPayload),
                Some(es) => Ok(es),
            },
        },
    }
}

/// `bytes` is a vault file whose envelope decrypts under `key` to the
/// payload of `es`.
pub open spec fn seals_entries(bytes: Seq<u8>, key: Seq<u8>, es: Seq<EntryView>) -> bool {
    match envelope_parts(bytes) {
        Some((ciphertext, iv)) => cbc_decrypt_of(key, iv, ciphertext) == Some(payload_bytes(es)),
        None => false,
    }
}

/// `e` with the username and password replaced where a new one is given.
pub open spec fn edited(e: EntryView, username: Option<Seq<char>>, password: Option<Seq<char>>) -> EntryView {
    EntryView {
        name: e.name,
        username: match username {
            Some(u) => u,
            None => e.username,
        },
        password: match password {
            Some(p) => p,
            None => e.password,
        },
    }
}

/// The view of an optional string.
pub open spec fn opt_view(s: Option<String>) -> Option<Seq<char>> {
    match s {
        Some(x) => Some(x@),
        None => None,
    }
}

/// `i` is the first position in `es` whose entry is named `name`.
pub open spec fn is_first_named(es: Seq<EntryView>, name: Seq<char>, i: int) -> bool {
    &&& 0 <= i < es.len()
    &&& es[i].name == name
    &&& forall|j: int| 0 <= j < i ==> es[j].name != name
}

/// No entry of `es` is named `name`.
pub open spec fn none_named(es: Seq<EntryView>, name: Seq<char>) -> bool {
    forall|j: int| 0 <= j < es.len() ==> es[j].name != name
}

/// The 1-based position that `s` spells, where it lies within `es`.
pub open spec fn numbered_position(es: Seq<EntryView>, s: Seq<char>) -> Option<int> {
    match parsed_number(s) {
        Some(n) => if 1 <= n <= es.len() {
            Some(n - 1)
        } else {
            None
        },
        None => None,
    }
}

/// The entry's name contains the query, both in lower case.
pub open spec fn search_hit(e: EntryView, query: Seq<char>) -> bool {
    is_infix(lower_of(query), lower_of(e.name))
}

/// The positions of the entries of `es` that a search for `query` finds, in order.
pub open spec fn search_positions(es: Seq<EntryView>, query: Seq<char>) -> Seq<int>
    decreases es.len(),
{
    if es.len() == 0 {
        Seq::empty()
    } else {
        let before = search_positions(es.drop_last(), query);
        if search_hit(es.last(), query) {
            before.push(es.len() - 1)
        } else {
            before
        }
    }
}

/// The in-memory record store, with the key derived from its master password.
pub struct Vault {
    entries: Vec<Entry>,
    key: [u8; 32],
}

impl View for Vault {
    type V = Seq<EntryView>;

    closed spec fn view(&self) -> Seq<EntryView> {
        views(self.entries@)
    }
}

impl Vault {
    /// The key this vault encrypts with.
    pub closed spec fn key(&self) -> Seq<u8> {
        self.key@
    }

    /// Opens an empty store for a master password: derives the key, touches no file.
    pub fn new(password: &str) -> (r: Result<Vault, VaultError>)
        ensures
            match r {
                Ok(v) => v@ == Seq::<EntryView>::empty() && derived_key(password@, VAULT_SALT@) == Some(v.key()),
                Err(e) => derived_key(password@, VAULT_SALT@) is None && e == VaultError::KeyDerivationError,
            },
    {
        match derive_key(password, VAULT_SALT) {
            Ok(key) => {
                let v = Vault { entries: Vec::new(), key };
                assert(v@ =~= Seq::<EntryView>::empty());
                Ok(v)
            },
            Err(e) => Err(e),
        }
    }

    /// Replaces the entries with those of a vault file's contents; `None`
    /// stands for an absent file and changes nothing. On failure the store
    /// is left as it was.
    pub fn load_from_bytes(&mut self, contents: Option<&[u8]>) -> (r: Result<(), VaultError>)
        ensures
            final(self).key() == old(self).key(),
            match contents {
                None => r is Ok && final(self)@ == old(self)@,
                Some(b) => match opened_entries(old(self).key(), b@) {
                    Ok(es) => r is Ok && final(self)@ == es,
                    Err(e) => r == Err::<(), VaultError>(e) && final(self)@ == old(self)@,
                },
            },
    {
        let bytes = match contents {
            None => return Ok(()),
            Some(b) => b,
        };
        let envelope = match decode_envelope(bytes) {
            Ok(e) => e,
            Err(e) => return Err(e),
        };
        let plaintext = match decrypt(&envelope, &self.key) {
            Ok(p) => p,
            Err(e) => return Err(e),
        };
        match decode_payload(plaintext.as_slice()) {
            Some(entries) => {
                self.entries = entries;
                Ok(())
            },
            None => Err(VaultError::MalformedPayload),
        }
    }

    /// Serializes, encrypts with a fresh IV and frames the entries as the
    /// bytes of a vault file.
    pub fn save_to_bytes(&self) -> (r: Result<Vec<u8>, VaultError>)
        ensures
            match r {
                Ok(b) => seals_entries(b@, self.key(), self@),
                Err(_) => false,
            },
    {
        let payload = encode_payload(&self.entries);
        let envelope = match encrypt(payload.as_slice(), &self.key) {
            Ok(e) => e,
            Err(e) => return Err(e),
        };
        let bytes = encode_envelope(&envelope);
        let n = envelope.ciphertext.len();
        assert(n as int <= u64::MAX);
        proof {
            lemma_envelope_round_trip(envelope.ciphertext@, envelope.iv@);
        }
        Ok(bytes)
    }

    /// Appends an entry; names need not be unique.
    pub fn add_entry(&mut self, entry: Entry)
        ensures
            final(self).key() == old(self).key(),
            final(self)@ == old(self)@.push(entry@),
    {
        self.entries.push(entry);
        assert(self@ =~= old(self)@.push(entry@));
    }

    /// Removes and returns the entry at `index`, shifting later entries down;
    /// `None`, with nothing changed, where `index` is out of range.
    pub fn remove_entry(&mut self, index: usize) -> (r: Option<Entry>)
        ensures
            final(self).key() == old(self).key(),
            index < old(self)@.len() ==> (r matches Some(e) && e@ == old(self)@[index as int] && final(self)@
                == old(self)@.remove(index as int)),
            index >= old(self)@.len() ==> r is None && final(self)@ == old(self)@,
    {
        if index < self.entries.len() {
            let e = self.entries.remove(index);
            assert(self@ =~= old(self)@.remove(index as int));
            Some(e)
        } else {
            None
        }
    }

    /// Replaces the username and the password of the entry at `index`, each
    /// only where a new one is given; fails with `EntryNotFound`, changing
    /// nothing, where `index` is out of range.
    pub fn edit_entry(&mut self, index: usize, username: Option<String>, password: Option<String>) -> (r: Result<(), VaultError>)
        ensures
            final(self).key() == old(self).key(),
            index < old(self)@.len() ==> r is Ok && final(self)@ == old(self)@.update(
                index as int,
                edited(old(self)@[index as int], opt_view(username), opt_view(password)),
            ),
            index >= old(self)@.len() ==> r == Err::<(), VaultError>(VaultError::EntryNotFound) && final(self)@
                == old(self)@,
    {
        if index >= self.entries.len() {
            return Err(VaultError::EntryNotFound);
        }
        let old_entry = self.entries[index].duplicate();
        let new_username = match username {
            Some(u) => u,
            None => old_entry.username,
        };
        let new_password = match password {
            Some(p) => p,
            None => old_entry.password,
        };
        let updated = Entry { name: old_entry.name, username: new_username, password: new_password };
        self.entries.set(index, updated);
        assert(self@ =~= old(self)@.update(
            index as int,
            edited(old(self)@[index as int], opt_view(username), opt_view(password)),
        ));
        Ok(())
    }

    /// All entries, in order.
    pub fn get_entries(&self) -> (r: &Vec<Entry>)
        ensures
            views(r@) == self@,
    {
        &self.entries
    }

    /// The number of entries.
    pub fn len(&self) -> (r: usize)
        ensures
            r == self@.len(),
    {
        self.entries.len()
    }

    /// The entry at `index`, if there is one.
    pub fn get(&self, index: usize) -> (r: Option<&Entry>)
        ensures
            index < self@.len() ==> (r matches Some(e) && e@ == self@[index as int]),
            index >= self@.len() ==> r is None,
    {
        if index < self.entries.len() {
            Some(&self.entries[index])
        } else {
            None
        }
    }

    /// The first entry whose name is exactly `name` (case-sensitive), with
    /// its position.
    pub fn find_by_name(&self, name: &str) -> (r: Option<(usize, &Entry)>)
        ensures
            match r {
                Some((i, e)) => is_first_named(self@, name@, i as int) && e@ == self@[i as int],
                None => none_named(self@, name@),
            },
    {
        let target = name.to_owned();
        let mut i: usize = 0;
        while i < self.entries.len()
            invariant
                i <= self@.len(),
                self@.len() == self.entries@.len(),
                target@ == name@,
                forall|j: int| 0 <= j < i ==> self@[j].name != name@,
            decreases self@.len() - i,
        {
            assert(self.entries@[i as int]@ == self@[i as int]);
            if self.entries[i].name == target {
                return Some((i, &self.entries[i]));
            }
            i = i + 1;
        }
        None
    }

    /// All entries whose name contains `query`, ignoring case, with their
    /// positions, in order.
    pub fn search(&self, query: &str) -> (r: Vec<(usize, Entry)>)
        ensures
            r@.len() == search_positions(self@, query@).len(),
            forall|k: int|
                0 <= k < r@.len() ==> r@[k].0 as int == search_positions(self@, query@)[k] && (
                #[trigger] r@[k]).1@ == self@[r@[k].0 as int],
    {
        let folded_query = to_lowercase(query);
        let mut out: Vec<(usize, Entry)> = Vec::new();
        let mut i: usize = 0;
        while i < self.entries.len()
            invariant
                i <= self@.len(),
                self@.len() == self.entries@.len(),
                folded_query@ == lower_of(query@),
                out@.len() == search_positions(self@.take(i as int), query@).len(),
                forall|k: int|
                    0 <= k < out@.len() ==> out@[k].0 as int == search_positions(self@.take(i as int), query@)[k]
                        && (#[trigger] out@[k]).1@ == self@[out@[k].0 as int],
            decreases self@.len() - i,
        {
            let folded_name = to_lowercase(self.entries[i].name.as_str());
            let hit = contains_chars(folded_name.as_str(), folded_query.as_str());
            proof {
                assert(self@.take(i + 1).drop_last() =~= self@.take(i as int));
                assert(self@.take(i + 1).last() == self@[i as int]);
                assert(self.entries@[i as int]@ == self@[i as int]);
            }
            if hit {
                out.push((i, self.entries[i].duplicate()));
            }
            i = i + 1;
        }
        assert(self@.take(i as int) =~= self@);
        out
    }

    /// The position that `name_or_index` designates: a 1-based number within
    /// range, else the first entry of that exact name; fails with
    /// `EntryNotFound` where neither applies.
    pub fn resolve(&self, name_or_index: &str) -> (r: Result<usize, VaultError>)
        ensures
            match numbered_position(self@, name_or_index@) {
                Some(p) => r == Ok::<usize, VaultError>(p as usize),
                None => match r {
                    Ok(i) => is_first_named(self@, name_or_index@, i as int),
                    Err(e) => e == VaultError::EntryNotFound && none_named(self@, name_or_index@),
                },
            },
    {
        match parse_number(name_or_index) {
            Some(n) => {
                if n > 0 && n <= self.entries.len() {
                    return Ok(n - 1);
                }
            },
            None => {},
        }
        match self.find_by_name(name_or_index) {
            Some((i, _)) => Ok(i),
            None => Err(VaultError::EntryNotFound),
        }
    }
}

/// The entry that `name_or_index` designates, as `Vault::resolve` finds it.
pub fn find_entry<'a>(vault: &'a Vault, name_or_index: &str) -> (r: Option<&'a Entry>)
    ensures
        match r {
            Some(e) => exists|i: int|
                0 <= i < vault@.len() && #[trigger] vault@[i] == e@ && (match numbered_position(vault@, name_or_index@) {
                    Some(p) => i == p,
                    None => is_first_named(vault@, name_or_index@, i),
                }),
            None => numbered_position(vault@, name_or_index@) is None && none_named(vault@, name_or_index@),
        },
{
    match find_entry_with_index(vault, name_or_index) {
        Some((_, e)) => Some(e),
        None => None,
    }
}

/// The entry that `name_or_index` designates, with its position, as
/// `Vault::resolve` finds it.
pub fn find_entry_with_index<'a>(vault: &'a Vault, name_or_index: &str) -> (r: Option<(usize, &'a Entry)>)
    ensures
        match r {
            Some((i, e)) => e@ == vault@[i as int] && match numbered_position(vault@, name_or_index@) {
                Some(p) => i == p,
                None => is_first_named(vault@, name_or_index@, i as int),
            },
            None => numbered_position(vault@, name_or_index@) is None && none_named(vault@, name_or_index@),
        },
{
    match vault.resolve(name_or_index) {
        Ok(i) => match vault.get(i) {
            Some(e) => Some((i, e)),
            None => None,
        },
        Err(_) => None,
    }
}

/// Saving and loading round-trip: a vault file that seals `es` under `key`
/// loads back, under the same key, to exactly `es`, by content and order.
pub proof fn lemma_save_load_round_trip(bytes: Seq<u8>, key: Seq<u8>, es: Seq<EntryView>)
    requires
        seals_entries(bytes, key, es),
    ensures
        opened_entries(key, bytes) == Ok::<Seq<EntryView>, VaultError>(es),
{
    lemma_payload_round_trip(es);
}

/// Removing the entry at `i` moves the one after it into its place, keeps
/// the ones before it, and shortens the list by exactly one.
pub proof fn lemma_remove_shifts(es: Seq<EntryView>, i: int)
    requires
        0 <= i < es.len(),
    ensures
        es.remove(i).len() == es.len() - 1,
        i + 1 < es.len() ==> es.remove(i)[i] == es[i + 1],
        forall|j: int| 0 <= j < i ==> #[trigger] es.remove(i)[j] == es[j],
{
}

/// Editing only the password of the entry at `i` leaves its name and
/// username as they were, and every other entry untouched.
pub proof fn lemma_edit_password_only(es: Seq<EntryView>, i: int, password: Seq<char>)
    requires
        0 <= i < es.len(),
    ensures
        ({
            let after = es.update(i, edited(es[i], None, Some(password)));
            &&& after.len() == es.len()
            &&& after[i].name == es[i].name
            &&& after[i].username == es[i].username
            &&& after[i].password == password
            &&& forall|j: int| 0 <= j < es.len() && j != i ==> #[trigger] after[j] == es[j]
        }),
{
}

} // verus!
