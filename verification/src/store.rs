//! The vault store: the master-passphrase verifier and the name-to-entry
//! mapping, together with per-entry authenticated encryption.
//!
//! An entry's two ciphertexts share one nonce.  That is safe under AEAD only
//! because each field is encrypted as an independent message with its own
//! authentication tag, and because the nonce is drawn fresh, once, at entry
//! creation and never reused across entries.

use crate::crypto_utils::ct_eq;
use crate::crypto_utils::generate_salt;
use crate::crypto_utils::hash_and_salt;
use crate::crypto_utils::sha256_of;
use crate::order::lemma_lex_lt_trans;
use crate::order::lemma_lex_total;
use crate::order::lex_lt;
use crate::order::str_eq;
use crate::order::str_lt;
use crate::session::derive_key;
use crate::session::derive_key_spec;
use crate::VaultError;
use aes_gcm::aead::Aead;
use aes_gcm::aead::OsRng;
use aes_gcm::AeadCore;
use aes_gcm::Aes256Gcm;
use aes_gcm::KeyInit;
use aes_gcm::Nonce;
use vstd::prelude::*;

verus! {

/// The AES-256-GCM ciphertext (with its appended tag) of a message under a
/// key and nonce.  A fixed function of the three arguments alone.
pub uninterp spec fn aead_enc(key: Seq<u8>, nonce: Seq<u8>, msg: Seq<u8>) -> Seq<u8>;

/// The AES-256-GCM decryption of a ciphertext under a key and nonce: the
/// plaintext when the authentication tag verifies, `None` otherwise.  A
/// fixed function of the three arguments alone.
pub uninterp spec fn aead_dec(key: Seq<u8>, nonce: Seq<u8>, ct: Seq<u8>) -> Option<Seq<u8>>;

/// Relies on aes_gcm's `Aead::encrypt` for `Aes256Gcm`: deterministic
/// encryption that appends a 16-byte tag, which succeeds for any plaintext
/// far below the algorithm's 2^36-byte limit, and whose output decrypts
/// under the same key and nonce back to the plaintext.
#[verifier::external_body]
fn aes256_gcm_encrypt(key: &[u8], nonce: &[u8], msg: &[u8]) -> (r: Vec<u8>)
    requires
        key@.len() == 32,
        nonce@.len() == 12,
        msg@.len() <= 0xffff_ffff,
    ensures
        r@ == aead_enc(key@, nonce@, msg@),
        r@.len() == msg@.len() + 16,
        aead_dec(key@, nonce@, r@) == Some(msg@),
{
    let cipher = Aes256Gcm::new(aes_gcm::Key::<Aes256Gcm>::from_slice(key));
    cipher.encrypt(Nonce::from_slice(nonce), msg).unwrap()
}

/// Relies on aes_gcm's `Aead::decrypt` for `Aes256Gcm`: returns the
/// plaintext exactly when the authentication tag verifies, and an error —
/// never altered plaintext — otherwise.
#[verifier::external_body]
fn aes256_gcm_decrypt(key: &[u8], nonce: &[u8], ct: &[u8]) -> (r: Option<Vec<u8>>)
    requires
        key@.len() == 32,
        nonce@.len() == 12,
    ensures
        r matches Some(m) ==> aead_dec(key@, nonce@, ct@) == Some(m@),
        r is None ==> aead_dec(key@, nonce@, ct@) is None,
{
    let cipher = Aes256Gcm::new(aes_gcm::Key::<Aes256Gcm>::from_slice(key));
    match cipher.decrypt(Nonce::from_slice(nonce), ct) {
        Ok(m) => Some(m),
        Err(_) => None,
    }
}

/// Relies on aes_gcm's `AeadCore::generate_nonce` over the OS rng: 96 bits
/// of fresh randomness.  Nothing can be promised of the value itself.
#[verifier::external_body]
fn fresh_nonce() -> (r: Vec<u8>)
    ensures
        r@.len() == 12,
{
    Aes256Gcm::generate_nonce(&mut OsRng).to_vec()
}

/// The mathematical content of an [`Entry`].
#[verifier::ext_equal]
pub struct EntryView {
    pub password_ct: Seq<u8>,
    pub username_ct: Option<Seq<u8>>,
    pub nonce: Seq<u8>,
}

/// One secret record: the authenticated ciphertext of the password, the
/// authenticated ciphertext of the username when one was supplied, and the
/// 96-bit nonce both ciphertexts were produced under.
#[derive(Clone, Debug, PartialEq, Eq)]
pub struct Entry {
    pub password_ct: Vec<u8>,
    pub username_ct: Option<Vec<u8>>,
    pub nonce: Vec<u8>,
}

/// The view of an optional byte buffer.
pub open spec fn opt_bytes_view(o: Option<Vec<u8>>) -> Option<Seq<u8>> {
    match o {
        Option::Some(v) => Option::Some(v@),
        Option::None => Option::None,
    }
}

impl View for Entry {
    type V = EntryView;

    open spec fn view(&self) -> EntryView {
        EntryView {
            password_ct: self.password_ct@,
            username_ct: opt_bytes_view(self.username_ct),
            nonce: self.nonce@,
        }
    }
}

/// The read-only projection of an entry: the recovered plaintexts.
#[derive(Clone, Debug, PartialEq, Eq)]
pub struct DecryptedEntry {
    pub password: Vec<u8>,
    pub username: Option<Vec<u8>>,
}

/// The mathematical content of a [`DecryptedEntry`].
#[verifier::ext_equal]
pub struct DecryptedEntryView {
    pub password: Seq<u8>,
    pub username: Option<Seq<u8>>,
}

impl View for DecryptedEntry {
    type V = DecryptedEntryView;

    open spec fn view(&self) -> DecryptedEntryView {
        DecryptedEntryView {
            password: self.password@,
            username: opt_bytes_view(self.username),
        }
    }
}

/// What decrypting an entry under a 32-byte key yields: the two plaintexts
/// when every present ciphertext authenticates, and an authentication
/// failure — with no partial plaintext — otherwise.
pub open spec fn decrypt_spec(e: EntryView, key: Seq<u8>) -> Result<
    DecryptedEntryView,
    VaultError,
> {
    match aead_dec(key, e.nonce, e.password_ct) {
        Option::None => Result::Err(VaultError::Authentication),
        Option::Some(p) => match e.username_ct {
            Option::None => Result::Ok(
                DecryptedEntryView { password: p, username: Option::None },
            ),
            Option::Some(uct) => match aead_dec(key, e.nonce, uct) {
                Option::None => Result::Err(VaultError::Authentication),
                Option::Some(u) => Result::Ok(
                    DecryptedEntryView { password: p, username: Option::Some(u) },
                ),
            },
        },
    }
}

impl Entry {
    /// Assembles an entry from already-encrypted fields under a freshly
    /// drawn nonce.
    pub fn new(password_encrypted: Vec<u8>, username_encrypted: Option<Vec<u8>>) -> (r: Entry)
        ensures
            r@.password_ct == password_encrypted@,
            r@.username_ct == opt_bytes_view(username_encrypted),
            r@.nonce.len() == 12,
    {
        let nonce = fresh_nonce();
        Entry { password_ct: password_encrypted, username_ct: username_encrypted, nonce }
    }

    /// Encrypts one field under this entry's nonce.  Fails exactly when the
    /// key is not 32 bytes long.
    pub fn encrypt(&self, data: &[u8], master_password: &[u8]) -> (r: Result<Vec<u8>, VaultError>)
        requires
            self@.nonce.len() == 12,
            data@.len() <= 0xffff_ffff,
        ensures
            master_password@.len() == 32 ==> (r matches Ok(c) && c@ == aead_enc(
                master_password@,
                self@.nonce,
                data@,
            ) && aead_dec(master_password@, self@.nonce, c@) == Some(data@)),
            master_password@.len() != 32 ==> (r matches Err(e) && e == VaultError::Crypto),
    {
        if master_password.len() != 32 {
            return Err(VaultError::Crypto);
        }
        Ok(aes256_gcm_encrypt(master_password, self.nonce.as_slice(), data))
    }

    /// Decrypts this entry's ciphertexts under the key and this entry's
    /// nonce.  Fails with an authentication error — never with altered
    /// plaintext — when either tag fails to verify, and with a crypto error
    /// when the key is not 32 bytes long.
    pub fn decrypt(&self, master_password: &[u8]) -> (r: Result<DecryptedEntry, VaultError>)
        requires
            self@.nonce.len() == 12,
        ensures
            master_password@.len() == 32 ==> (match r {
                Ok(d) => decrypt_spec(self@, master_password@) == Result::Ok::<
                    DecryptedEntryView,
                    VaultError,
                >(d@),
                Err(e) => decrypt_spec(self@, master_password@) == Result::Err::<
                    DecryptedEntryView,
                    VaultError,
                >(e),
            }),
            master_password@.len() != 32 ==> (r matches Err(e) && e == VaultError::Crypto),
    {
        if master_password.len() != 32 {
            return Err(VaultError::Crypto);
        }
        let password = match aes256_gcm_decrypt(
            master_password,
            self.nonce.as_slice(),
            self.password_ct.as_slice(),
        ) {
            Some(p) => p,
            None => {
                return Err(VaultError::Authentication);
            },
        };
        let username = match &self.username_ct {
            Some(uct) => {
                match aes256_gcm_decrypt(master_password, self.nonce.as_slice(), uct.as_slice()) {
                    Some(u) => Some(u),
                    None => {
                        return Err(VaultError::Authentication);
                    },
                }
            },
            None => None,
        };
        Ok(DecryptedEntry { password, username })
    }

    /// Creates an entry from plaintexts: draws one fresh nonce and encrypts
    /// the password — and the username when present — each independently
    /// under `(key, nonce)`.  Fails exactly when the key is not 32 bytes
    /// long.  Decrypting the result under the same key recovers the
    /// plaintexts exactly.
    pub fn from_unencrypted(username: Option<&[u8]>, password: &[u8], master_password: &[u8]) -> (r:
        Result<Entry, VaultError>)
        requires
            password@.len() <= 0xffff_ffff,
            username matches Some(u) ==> u@.len() <= 0xffff_ffff,
        ensures
            master_password@.len() != 32 ==> (r matches Err(e) && e == VaultError::Crypto),
            master_password@.len() == 32 ==> (r matches Ok(en) && en@.nonce.len() == 12
                && en@.password_ct == aead_enc(master_password@, en@.nonce, password@) && (
            match username {
                Some(u) => en@.username_ct matches Some(uct) && uct == aead_enc(
                    master_password@,
                    en@.nonce,
                    u@,
                ),
                None => en@.username_ct is None,
            }) && decrypt_spec(en@, master_password@) == Result::Ok::<
                DecryptedEntryView,
                VaultError,
            >(
                DecryptedEntryView {
                    password: password@,
                    username: match username {
                        Some(u) => Option::Some(u@),
                        None => Option::None,
                    },
                },
            )),
    {
        if master_password.len() != 32 {
            return Err(VaultError::Crypto);
        }
        let mut entry = Entry::new(Vec::new(), None);
        let password_ct = entry.encrypt(password, master_password)?;
        entry.password_ct = password_ct;
        match username {
            Some(u) => {
                let username_ct = entry.encrypt(u, master_password)?;
                entry.username_ct = Some(username_ct);
            },
            None => {},
        }
        Ok(entry)
    }
}

/// No two positions of the entry sequence carry the same name.
pub open spec fn names_unique(s: Seq<(Seq<char>, EntryView)>) -> bool {
    forall|i: int, j: int|
        #![trigger s[i], s[j]]
        0 <= i < j < s.len() ==> s[i].0 != s[j].0
}

/// Some position of the entry sequence carries this name.
pub open spec fn has_name(s: Seq<(Seq<char>, EntryView)>, name: Seq<char>) -> bool {
    exists|i: int| 0 <= i < s.len() && (#[trigger] s[i]).0 == name
}

/// The entry sequence read as a finite map from names to entries; a later
/// position would override an earlier one, though well-formed stores never
/// hold two positions with one name.
pub open spec fn entries_map(s: Seq<(Seq<char>, EntryView)>) -> Map<Seq<char>, EntryView>
    decreases s.len(),
{
    if s.len() == 0 {
        Map::empty()
    } else {
        entries_map(s.drop_last()).insert(s.last().0, s.last().1)
    }
}

/// A name is in the map exactly when some position carries it.
pub proof fn lemma_entries_map_has(s: Seq<(Seq<char>, EntryView)>, name: Seq<char>)
    ensures
        entries_map(s).contains_key(name) <==> has_name(s, name),
    decreases s.len(),
{
    if s.len() > 0 {
        lemma_entries_map_has(s.drop_last(), name);
        if has_name(s, name) {
            let i = choose|i: int| 0 <= i < s.len() && (#[trigger] s[i]).0 == name;
            if i < s.len() - 1 {
                assert(s.drop_last()[i] == s[i]);
                assert(has_name(s.drop_last(), name));
            }
        }
        if has_name(s.drop_last(), name) {
            let i = choose|i: int|
                0 <= i < s.drop_last().len() && (#[trigger] s.drop_last()[i]).0 == name;
            assert(s[i] == s.drop_last()[i]);
            assert(has_name(s, name));
        }
    }
}

/// Under unique names, the map sends the name at position `i` to the entry
/// at position `i`.
pub proof fn lemma_entries_map_at(s: Seq<(Seq<char>, EntryView)>, i: int)
    requires
        names_unique(s),
        0 <= i < s.len(),
    ensures
        entries_map(s).contains_key(s[i].0),
        entries_map(s)[s[i].0] == s[i].1,
    decreases s.len(),
{
    if i < s.len() - 1 {
        assert(names_unique(s.drop_last())) by {
            assert(forall|x: int|
                0 <= x < s.drop_last().len() ==> s.drop_last()[x] == s[x]);
        }
        assert(s.drop_last()[i] == s[i]);
        lemma_entries_map_at(s.drop_last(), i);
        assert(s.last() == s[s.len() - 1]);
        assert(s.last().0 != s[i].0);
    }
}

/// Appending a pair inserts it into the map.
pub proof fn lemma_entries_map_push(s: Seq<(Seq<char>, EntryView)>, p: (Seq<char>, EntryView))
    ensures
        entries_map(s.push(p)) == entries_map(s).insert(p.0, p.1),
{
    assert(s.push(p).drop_last() =~= s);
    assert(s.push(p).last() == p);
}

/// Under unique names, dropping position `i` removes exactly its name from
/// the map.
pub proof fn lemma_entries_map_remove(s: Seq<(Seq<char>, EntryView)>, i: int)
    requires
        names_unique(s),
        0 <= i < s.len(),
    ensures
        entries_map(s.remove(i)) == entries_map(s).remove(s[i].0),
    decreases s.len(),
{
    let n = s[i].0;
    if i == s.len() - 1 {
        assert(s.remove(i) =~= s.drop_last());
        assert(!has_name(s.drop_last(), n)) by {
            assert(forall|x: int|
                0 <= x < s.drop_last().len() ==> s.drop_last()[x] == s[x]);
        }
        lemma_entries_map_has(s.drop_last(), n);
        assert(entries_map(s.drop_last()) =~= entries_map(s.drop_last()).insert(
            s.last().0,
            s.last().1,
        ).remove(n));
    } else {
        assert(names_unique(s.drop_last())) by {
            assert(forall|x: int|
                0 <= x < s.drop_last().len() ==> s.drop_last()[x] == s[x]);
        }
        assert(s.drop_last()[i] == s[i]);
        lemma_entries_map_remove(s.drop_last(), i);
        assert(s.remove(i).drop_last() =~= s.drop_last().remove(i));
        assert(s.remove(i).last() == s.last());
        assert(s.last() == s[s.len() - 1]);
        assert(s.last().0 != n);
        assert(entries_map(s.drop_last()).remove(n).insert(s.last().0, s.last().1)
            =~= entries_map(s.drop_last()).insert(s.last().0, s.last().1).remove(n));
    }
}

/// The mathematical content of a [`Store`].
#[verifier::ext_equal]
pub struct StoreView {
    pub master: Option<Seq<u8>>,
    pub master_salt: Option<Seq<u8>>,
    pub entries: Seq<(Seq<char>, EntryView)>,
}

impl StoreView {
    /// Well-formedness: the verifier and its salt are both set or both
    /// unset, entry names are unique, and every nonce is 96 bits.
    pub open spec fn wf(self) -> bool {
        &&& (self.master is Some <==> self.master_salt is Some)
        &&& names_unique(self.entries)
        &&& (forall|i: int|
            0 <= i < self.entries.len() ==> (#[trigger] self.entries[i]).1.nonce.len() == 12)
    }
}

/// The full persisted state: the master-passphrase verifier with its salt,
/// and the name-to-entry mapping.
#[derive(Clone, Debug, PartialEq, Eq)]
pub struct Store {
    pub master: Option<Vec<u8>>,
    pub master_salt: Option<Vec<u8>>,
    pub entries: Vec<(String, Entry)>,
}

/// The view of an entry sequence: each name as its characters, each entry
/// as its mathematical content.
pub open spec fn entries_view(v: Seq<(String, Entry)>) -> Seq<(Seq<char>, EntryView)> {
    Seq::new(v.len(), |i: int| (v[i].0@, v[i].1@))
}

impl View for Store {
    type V = StoreView;

    open spec fn view(&self) -> StoreView {
        StoreView {
            master: opt_bytes_view(self.master),
            master_salt: opt_bytes_view(self.master_salt),
            entries: entries_view(self.entries@),
        }
    }
}

/// True when the passphrase's salted digest equals the stored verifier:
/// exactly the logins that succeed.
pub open spec fn verify_ok(s: StoreView, passphrase: Seq<u8>) -> bool {
    s.master matches Some(v) && s.master_salt matches Some(salt) && v == sha256_of(
        passphrase + salt,
    )
}

impl Store {
    /// The uninitialized store: no verifier, no salt, no entries.
    pub fn empty() -> (s: Store)
        ensures
            s@.master is None,
            s@.master_salt is None,
            s@.entries.len() == 0,
            s@.wf(),
    {
        Store { master: None, master_salt: None, entries: Vec::new() }
    }

    /// True exactly when a master-passphrase verifier has been set.
    pub fn is_initialized(&self) -> (r: bool)
        ensures
            r == (self@.master is Some),
    {
        self.master.is_some()
    }

    /// Sets the master passphrase of an uninitialized store: draws a fresh
    /// random salt, stores the salted digest as the verifier, and returns
    /// the derived 32-byte session key.
    pub fn set_passphrase(&mut self, passphrase: &[u8]) -> (r: Vec<u8>)
        requires
            old(self)@.wf(),
            old(self)@.master is None,
            passphrase@.len() <= 32,
        ensures
            final(self)@.wf(),
            final(self)@.entries == old(self)@.entries,
            final(self)@.master_salt matches Some(salt) && salt.len() == passphrase@.len()
                && final(self)@.master == Some(sha256_of(passphrase@ + salt)),
            verify_ok(final(self)@, passphrase@),
            r@ == derive_key_spec(passphrase@),
            r@.len() == 32,
    {
        let salt = generate_salt(passphrase.len());
        let verifier = hash_and_salt(passphrase, salt.as_slice());
        self.master = Some(verifier);
        self.master_salt = Some(salt);
        derive_key(passphrase)
    }

    /// Recomputes the salted digest of the attempted passphrase and compares
    /// it to the stored verifier without an early exit; on a match returns
    /// the derived session key, otherwise an authentication error — and
    /// never which byte differed.
    pub fn verify_passphrase(&self, passphrase: &[u8]) -> (r: Result<Vec<u8>, VaultError>)
        requires
            self@.wf(),
            self@.master is Some,
            passphrase@.len() <= 32,
        ensures
            verify_ok(self@, passphrase@) ==> (r matches Ok(k) && k@ == derive_key_spec(
                passphrase@,
            )),
            !verify_ok(self@, passphrase@) ==> (r matches Err(e) && e
                == VaultError::Authentication),
    {
        let salt = match &self.master_salt {
            Some(s) => s,
            None => vstd::pervasive::unreached(),
        };
        let expected = match &self.master {
            Some(m) => m,
            None => vstd::pervasive::unreached(),
        };
        let computed = hash_and_salt(passphrase, salt.as_slice());
        if ct_eq(computed.as_slice(), expected.as_slice()) {
            Ok(derive_key(passphrase))
        } else {
            Err(VaultError::Authentication)
        }
    }

    /// Looks an entry up by name.
    pub fn get(&self, name: &str) -> (r: Option<&Entry>)
        requires
            self@.wf(),
        ensures
            (match r {
                Some(e) => entries_map(self@.entries).contains_key(name@) && e@ == entries_map(
                    self@.entries,
                )[name@],
                None => !entries_map(self@.entries).contains_key(name@),
            }),
    {
        let mut i: usize = 0;
        while i < self.entries.len()
            invariant
                self@.wf(),
                0 <= i <= self@.entries.len(),
                forall|j: int| 0 <= j < i ==> (#[trigger] self@.entries[j]).0 != name@,
            decreases self@.entries.len() - i,
        {
            if str_eq(self.entries[i].0.as_str(), name) {
                proof {
                    lemma_entries_map_at(self@.entries, i as int);
                }
                return Some(&self.entries[i].1);
            }
            i = i + 1;
        }
        proof {
            lemma_entries_map_has(self@.entries, name@);
        }
        None
    }

    /// Inserts an entry under a name, overwriting whole any entry the name
    /// already held; there is no merge.
    pub fn put(&mut self, name: String, entry: Entry)
        requires
            old(self)@.wf(),
            entry@.nonce.len() == 12,
        ensures
            final(self)@.wf(),
            final(self)@.master == old(self)@.master,
            final(self)@.master_salt == old(self)@.master_salt,
            entries_map(final(self)@.entries) == entries_map(old(self)@.entries).insert(
                name@,
                entry@,
            ),
            entries_map(old(self)@.entries).contains_key(name@) ==> final(self)@.entries.len()
                == old(self)@.entries.len(),
            !entries_map(old(self)@.entries).contains_key(name@) ==> final(self)@.entries.len()
                == old(self)@.entries.len() + 1,
    {
        let ghost s0 = self@.entries;
        let mut i: usize = 0;
        while i < self.entries.len()
            invariant
                self@.wf(),
                self@ == old(self)@,
                self@.entries == s0,
                entry@.nonce.len() == 12,
                0 <= i <= s0.len(),
                forall|j: int| 0 <= j < i ==> (#[trigger] s0[j]).0 != name@,
            decreases s0.len() - i,
        {
            if str_eq(self.entries[i].0.as_str(), name.as_str()) {
                proof {
                    lemma_entries_map_has(s0, name@);
                    lemma_entries_map_remove(s0, i as int);
                }
                self.entries.remove(i);
                proof {
                    assert(self@.entries =~= s0.remove(i as int));
                    assert(forall|j: int|
                        0 <= j < s0.remove(i as int).len() ==> (#[trigger] s0.remove(
                            i as int,
                        )[j]).0 != name@) by {
                        assert(forall|j: int|
                            0 <= j < s0.remove(i as int).len() ==> s0.remove(i as int)[j] == (
                            if j < i { s0[j] } else { s0[j + 1] }));
                    }
                }
                let ghost s1 = self@.entries;
                self.entries.push((name, entry));
                proof {
                    assert(self@.entries =~= s1.push((name@, entry@)));
                    lemma_entries_map_push(s1, (name@, entry@));
                    lemma_entries_map_has(s1, name@);
                    assert(entries_map(self@.entries) =~= entries_map(s0).insert(name@, entry@));
                    assert(names_unique(self@.entries)) by {
                        assert(forall|x: int|
                            0 <= x < s1.len() ==> self@.entries[x] == s1[x]);
                    }
                    assert forall|x: int|
                        0 <= x < self@.entries.len() implies (#[trigger] self@.entries[x]).1.nonce.len()
                        == 12 by {
                        if x < s1.len() {
                            assert(self@.entries[x] == s1[x]);
                            if x < i {
                                assert(s1[x] == s0[x]);
                            } else {
                                assert(s1[x] == s0[x + 1]);
                            }
                        } else {
                            assert(self@.entries[x] == (name@, entry@));
                        }
                    }
                }
                return ;
            }
            i = i + 1;
        }
        proof {
            lemma_entries_map_has(s0, name@);
        }
        let ghost s1 = self@.entries;
        self.entries.push((name, entry));
        proof {
            assert(self@.entries =~= s1.push((name@, entry@)));
            lemma_entries_map_push(s1, (name@, entry@));
            assert(names_unique(self@.entries)) by {
                assert(forall|x: int| 0 <= x < s1.len() ==> self@.entries[x] == s1[x]);
            }
        }
    }

    /// Removes the entry under a name; reports whether one existed.
    pub fn remove(&mut self, name: &str) -> (r: bool)
        requires
            old(self)@.wf(),
        ensures
            final(self)@.wf(),
            final(self)@.master == old(self)@.master,
            final(self)@.master_salt == old(self)@.master_salt,
            entries_map(final(self)@.entries) == entries_map(old(self)@.entries).remove(name@),
            r == entries_map(old(self)@.entries).contains_key(name@),
            r ==> final(self)@.entries.len() == old(self)@.entries.len() - 1,
            !r ==> final(self)@.entries == old(self)@.entries,
    {
        let ghost s0 = self@.entries;
        let mut i: usize = 0;
        while i < self.entries.len()
            invariant
                self@.wf(),
                self@ == old(self)@,
                self@.entries == s0,
                0 <= i <= s0.len(),
                forall|j: int| 0 <= j < i ==> (#[trigger] s0[j]).0 != name@,
            decreases s0.len() - i,
        {
            if str_eq(self.entries[i].0.as_str(), name) {
                proof {
                    lemma_entries_map_has(s0, name@);
                    lemma_entries_map_remove(s0, i as int);
                }
                self.entries.remove(i);
                proof {
                    assert(self@.entries =~= s0.remove(i as int));
                    assert(names_unique(self@.entries) && forall|x: int|
                        0 <= x < self@.entries.len() ==> (#[trigger] self@.entries[x]).1.nonce.len()
                            == 12) by {
                        assert(forall|j: int|
                            0 <= j < s0.remove(i as int).len() ==> s0.remove(i as int)[j] == (
                            if j < i { s0[j] } else { s0[j + 1] }));
                    }
                }
                return true;
            }
            i = i + 1;
        }
        proof {
            lemma_entries_map_has(s0, name@);
            assert(entries_map(s0) =~= entries_map(s0).remove(name@));
        }
        false
    }

    /// All entry names, lexicographically sorted, recomputed on each call.
    pub fn list_names(&self) -> (r: Vec<String>)
        requires
            self@.wf(),
        ensures
            r@.len() == self@.entries.len(),
            sorted_strings(r@),
            forall|k: int| 0 <= k < r@.len() ==> has_name(self@.entries, (#[trigger] r@[k])@),
            forall|i: int|
                0 <= i < self@.entries.len() ==> has_listed(r@, (#[trigger] self@.entries[i]).0),
    {
        let mut out: Vec<String> = Vec::new();
        let mut t: usize = 0;
        while t < self.entries.len()
            invariant
                self@.wf(),
                0 <= t <= self@.entries.len(),
                out@.len() == t,
                sorted_strings(out@),
                forall|k: int|
                    0 <= k < out@.len() ==> exists|i: int|
                        0 <= i < t && (#[trigger] self@.entries[i]).0 == (#[trigger] out@[k])@,
                forall|i: int| 0 <= i < t ==> has_listed(out@, (#[trigger] self@.entries[i]).0),
            decreases self@.entries.len() - t,
        {
            let name = self.entries[t].0.clone();
            let ghost nv = name@;
            proof {
                assert(nv == self@.entries[t as int].0);
            }
            let p = find_insert_pos(&out, name.as_str());
            let ghost o0 = out@;
            proof {
                assert forall|k: int| 0 <= k < o0.len() implies (#[trigger] o0[k])@ != nv by {
                    let i = choose|i: int|
                        0 <= i < t && (#[trigger] self@.entries[i]).0 == o0[k]@;
                    assert(self@.entries[i].0 != self@.entries[t as int].0);
                }
                if (p as int) < o0.len() {
                    lemma_lex_total(nv, o0[p as int]@);
                    assert(lex_lt(nv, o0[p as int]@));
                }
                o0.insert_ensures(p as int, name);
            }
            out.insert(p, name);
            t = t + 1;
            proof {
                let o1 = out@;
                assert(o1 == o0.insert(p as int, o1[p as int]));
                assert(o1[p as int]@ == nv);
                assert forall|a: int, b: int|
                    #![trigger o1[a], o1[b]]
                    0 <= a < b < o1.len() implies lex_lt(o1[a]@, o1[b]@) by {
                    if b < p {
                        assert(o1[a] == o0[a] && o1[b] == o0[b]);
                    } else if b == p {
                        assert(o1[a] == o0[a]);
                        assert(lex_lt(o0[a]@, nv));
                    } else {
                        assert(o1[b] == o0[b - 1]);
                        if a == p {
                            if b - 1 == p {
                                assert(lex_lt(nv, o0[p as int]@));
                            } else {
                                assert(lex_lt(o0[p as int]@, o0[b - 1]@));
                                lemma_lex_lt_trans(nv, o0[p as int]@, o0[b - 1]@);
                            }
                        } else if a < p {
                            assert(o1[a] == o0[a]);
                            if a < b - 1 {
                                assert(lex_lt(o0[a]@, o0[b - 1]@));
                            } else {
                                assert(lex_lt(o0[a]@, nv));
                                assert(lex_lt(nv, o0[b - 1]@));
                            }
                        } else {
                            assert(o1[a] == o0[a - 1]);
                            assert(lex_lt(o0[a - 1]@, o0[b - 1]@));
                        }
                    }
                }
                assert forall|k: int| 0 <= k < o1.len() implies exists|i: int|
                    0 <= i < t && (#[trigger] self@.entries[i]).0 == (#[trigger] o1[k])@ by {
                    if k < p {
                        assert(o1[k] == o0[k]);
                        let i = choose|i: int|
                            0 <= i < t - 1 && (#[trigger] self@.entries[i]).0 == o0[k]@;
                        assert(self@.entries[i].0 == o1[k]@);
                    } else if k == p {
                        assert(self@.entries[t - 1].0 == o1[k]@);
                    } else {
                        assert(o1[k] == o0[k - 1]);
                        let i = choose|i: int|
                            0 <= i < t - 1 && (#[trigger] self@.entries[i]).0 == o0[k - 1]@;
                        assert(self@.entries[i].0 == o1[k]@);
                    }
                }
                assert forall|i: int| 0 <= i < t implies has_listed(
                    o1,
                    (#[trigger] self@.entries[i]).0,
                ) by {
                    if i == t - 1 {
                        assert(o1[p as int]@ == self@.entries[i].0);
                    } else {
                        let k = choose|k: int|
                            0 <= k < o0.len() && (#[trigger] o0[k])@ == self@.entries[i].0;
                        if k < p {
                            assert(o1[k]@ == self@.entries[i].0);
                        } else {
                            assert(o1[k + 1]@ == self@.entries[i].0);
                        }
                    }
                }
            }
        }
        out
    }
}

/// Pairwise strictly sorted in the lexicographic order.
pub open spec fn sorted_strings(r: Seq<String>) -> bool {
    forall|i: int, j: int|
        #![trigger r[i], r[j]]
        0 <= i < j < r.len() ==> lex_lt(r[i]@, r[j]@)
}

/// Some listed string reads as this name.
pub open spec fn has_listed(r: Seq<String>, name: Seq<char>) -> bool {
    exists|k: int| 0 <= k < r.len() && (#[trigger] r[k])@ == name
}

/// The position a new name takes in a sorted listing: past every listed
/// name that comes lexicographically before it.
fn find_insert_pos(out: &Vec<String>, name: &str) -> (p: usize)
    requires
        sorted_strings(out@),
    ensures
        0 <= p <= out@.len(),
        forall|j: int| 0 <= j < p ==> lex_lt((#[trigger] out@[j])@, name@),
        p < out@.len() ==> !lex_lt(out@[p as int]@, name@),
{
    let mut p: usize = 0;
    loop
        invariant
            sorted_strings(out@),
            0 <= p <= out@.len(),
            forall|j: int| 0 <= j < p ==> lex_lt((#[trigger] out@[j])@, name@),
        decreases out@.len() - p,
    {
        if p == out.len() {
            return p;
        }
        if !str_lt(out[p].as_str(), name) {
            return p;
        }
        p = p + 1;
    }
}

/// For every passphrase and salt, a store whose verifier was set from them
/// verifies that same passphrase — and verification hands back the very key
/// that setting the passphrase returned, since both sides derive it from the
/// passphrase alone.
pub proof fn lemma_set_then_verify(
    passphrase: Seq<u8>,
    salt: Seq<u8>,
    entries: Seq<(Seq<char>, EntryView)>,
)
    ensures
        verify_ok(
            StoreView {
                master: Some(sha256_of(passphrase + salt)),
                master_salt: Some(salt),
                entries,
            },
            passphrase,
        ),
{
}

/// A passphrase whose salted digest differs from the one the verifier was
/// set from is rejected.  Two distinct passphrases are assumed not to
/// collide under the digest: collision-freedom of SHA-256 is a cryptographic
/// assumption, not a provable fact, so it stands here as the hypothesis.
pub proof fn lemma_verify_wrong_passphrase(
    set_passphrase: Seq<u8>,
    attempt: Seq<u8>,
    salt: Seq<u8>,
    entries: Seq<(Seq<char>, EntryView)>,
)
    requires
        sha256_of(attempt + salt) != sha256_of(set_passphrase + salt),
    ensures
        !verify_ok(
            StoreView {
                master: Some(sha256_of(set_passphrase + salt)),
                master_salt: Some(salt),
                entries,
            },
            attempt,
        ),
{
}

} // verus!
