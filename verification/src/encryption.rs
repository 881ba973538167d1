//! Encryption at rest: AES-256-GCM with keys derived from a master key by HKDF-SHA256,
//! and the byte format of encrypted data.
use vstd::prelude::*;
use vstd::string::StringExecFns;
use crate::text::{decimal, decimal_string};
use crate::hash::strings_view;
use aes_gcm::aead::{Aead, KeyInit};
use base64::Engine;
use rand::RngCore;

verus! {

/// Size of an AES-256 key.
pub const KEY_SIZE: usize = 32;
/// Size of a GCM nonce.
pub const NONCE_SIZE: usize = 12;
/// Size of a GCM authentication tag.
pub const TAG_SIZE: usize = 16;

/// The bytes that mark encrypted data: `MKVENC01`.
pub open spec fn encryption_magic() -> Seq<u8> {
    seq![0x4Du8, 0x4Bu8, 0x56u8, 0x45u8, 0x4Eu8, 0x43u8, 0x30u8, 0x31u8]
}

fn magic_bytes() -> (r: [u8; 8])
    ensures
        r@ == encryption_magic(),
{
    let r: [u8; 8] = [0x4D, 0x4B, 0x56, 0x45, 0x4E, 0x43, 0x30, 0x31];
    proof { assert(r@ =~= encryption_magic()); }
    r
}

/// How encryption is configured.
#[derive(Debug)]
pub struct EncryptionConfig {
    pub enabled: bool,
    /// Master key, base64 encoded.
    pub master_key: Option<String>,
    /// Key derivation contexts.
    pub key_contexts: Vec<String>,
}

/// The default key derivation contexts.
pub open spec fn default_key_contexts() -> Seq<Seq<char>> {
    seq!["minikv-data"@, "minikv-wal"@, "minikv-index"@]
}

impl Default for EncryptionConfig {
    /// Disabled, without key, with the data, WAL and index contexts.
    fn default() -> (r: EncryptionConfig)
        ensures
            !r.enabled,
            r.master_key is None,
            strings_view(r.key_contexts@) == default_key_contexts(),
    {
        let mut contexts: Vec<String> = Vec::new();
        contexts.push(String::from_str("minikv-data"));
        contexts.push(String::from_str("minikv-wal"));
        contexts.push(String::from_str("minikv-index"));
        proof { assert(strings_view(contexts@) =~= default_key_contexts()); }
        EncryptionConfig { enabled: false, master_key: None, key_contexts: contexts }
    }
}

/// Failures of encryption.
#[derive(Debug)]
pub enum EncryptionError {
    NotEnabled,
    InvalidKey(String),
    EncryptionFailed(String),
    DecryptionFailed(String),
    InvalidFormat(String),
    KeyDerivationFailed(String),
}

/// The message an encryption failure is displayed with.
pub open spec fn encryption_error_message(e: EncryptionError) -> Seq<char> {
    match e {
        EncryptionError::NotEnabled => "Encryption is not enabled"@,
        EncryptionError::InvalidKey(m) => "Invalid encryption key: "@ + m@,
        EncryptionError::EncryptionFailed(m) => "Encryption failed: "@ + m@,
        EncryptionError::DecryptionFailed(m) => "Decryption failed: "@ + m@,
        EncryptionError::InvalidFormat(m) => "Invalid encrypted data format: "@ + m@,
        EncryptionError::KeyDerivationFailed(m) => "Key derivation failed: "@ + m@,
    }
}

fn with_prefix(prefix: &str, m: &String) -> (r: String)
    ensures
        r@ == prefix@ + m@,
{
    let mut s = prefix.to_string();
    s.append(m.as_str());
    s
}

impl EncryptionError {
    /// The message this failure is displayed with.
    pub fn message(&self) -> (r: String)
        ensures
            r@ == encryption_error_message(*self),
    {
        match self {
            EncryptionError::NotEnabled => String::from_str("Encryption is not enabled"),
            EncryptionError::InvalidKey(m) => with_prefix("Invalid encryption key: ", m),
            EncryptionError::EncryptionFailed(m) => with_prefix("Encryption failed: ", m),
            EncryptionError::DecryptionFailed(m) => with_prefix("Decryption failed: ", m),
            EncryptionError::InvalidFormat(m) => with_prefix("Invalid encrypted data format: ", m),
            EncryptionError::KeyDerivationFailed(m) => with_prefix("Key derivation failed: ", m),
        }
    }
}

/// Encrypted data: the nonce and the ciphertext with its tag.
#[derive(Debug)]
pub struct EncryptedData {
    pub nonce: [u8; 12],
    pub ciphertext: Vec<u8>,
}

/// The byte form of encrypted data: the magic, the nonce, the ciphertext.
pub open spec fn encrypted_bytes(nonce: Seq<u8>, ciphertext: Seq<u8>) -> Seq<u8> {
    encryption_magic() + nonce + ciphertext
}

/// Whether bytes start with the magic of encrypted data.
pub open spec fn looks_encrypted(bytes: Seq<u8>) -> bool {
    bytes.len() >= 8 && bytes.subrange(0, 8) == encryption_magic()
}

/// The smallest encrypted data: magic, nonce and tag.
pub open spec fn min_encrypted_len() -> int {
    36int
}

fn append_slice(v: &mut Vec<u8>, s: &[u8])
    ensures
        final(v)@ == old(v)@ + s@,
{
    let mut i: usize = 0;
    while i < s.len()
        invariant
            i <= s@.len(),
            v@ == old(v)@ + s@.subrange(0, i as int),
        decreases s@.len() - i,
    {
        v.push(s[i]);
        i = i + 1;
        proof { assert(v@ =~= old(v)@ + s@.subrange(0, i as int)); }
    }
    proof { assert(s@.subrange(0, s@.len() as int) =~= s@); }
}

fn equal_bytes(a: &[u8], b: &[u8]) -> (r: bool)
    ensures
        r == (a@ == b@),
{
    if a.len() != b.len() {
        return false;
    }
    let mut i: usize = 0;
    while i < a.len()
        invariant
            i <= a@.len() == b@.len(),
            a@.subrange(0, i as int) == b@.subrange(0, i as int),
        decreases a@.len() - i,
    {
        if a[i] != b[i] {
            return false;
        }
        i = i + 1;
        proof { assert(a@.subrange(0, i as int) =~= a@.subrange(0, i as int - 1).push(a@[i - 1])); assert(b@.subrange(0, i as int) =~= b@.subrange(0, i as int - 1).push(b@[i - 1])); }
    }
    proof { assert(a@ =~= a@.subrange(0, a@.len() as int)); assert(b@ =~= b@.subrange(0, b@.len() as int)); }
    true
}

impl EncryptedData {
    /// The byte form: magic, nonce, ciphertext.
    pub fn to_bytes(&self) -> (r: Vec<u8>)
        ensures
            r@ == encrypted_bytes(self.nonce@, self.ciphertext@),
    {
        let mut bytes: Vec<u8> = Vec::new();
        let magic = magic_bytes();
        append_slice(&mut bytes, magic.as_slice());
        append_slice(&mut bytes, self.nonce.as_slice());
        append_slice(&mut bytes, self.ciphertext.as_slice());
        bytes
    }

    /// Reads the byte form. Data shorter than magic, nonce and tag, or without the
    /// magic, is refused.
    pub fn from_bytes(bytes: &[u8]) -> (r: Result<EncryptedData, EncryptionError>)
        ensures
            bytes@.len() < min_encrypted_len() ==> (r matches Err(EncryptionError::InvalidFormat(m))
                && m@ == "Data too short: "@ + decimal(bytes@.len()) + " bytes, minimum 36 bytes"@),
            bytes@.len() >= min_encrypted_len() && !looks_encrypted(bytes@) ==> (r matches Err(EncryptionError::InvalidFormat(m))
                && m@ == "Invalid magic bytes - data may not be encrypted"@),
            bytes@.len() >= min_encrypted_len() && looks_encrypted(bytes@) ==> r is Ok
                && r->Ok_0.nonce@ == bytes@.subrange(8, 20)
                && r->Ok_0.ciphertext@ == bytes@.subrange(20, bytes@.len() as int),
    {
        let n = bytes.len();
        if n < 36 {
            let mut m = String::from_str("Data too short: ");
            proof { reveal_strlit("Data too short: "); reveal_strlit(" bytes, minimum 36 bytes"); }
            let d = decimal_string(n as u64);
            m.append(d.as_str());
            m.append(" bytes, minimum 36 bytes");
            return Err(EncryptionError::InvalidFormat(m));
        }
        let magic = magic_bytes();
        if !equal_bytes(vstd::slice::slice_subrange(bytes, 0, 8), magic.as_slice()) {
            proof { reveal_strlit("Invalid magic bytes - data may not be encrypted"); }
            return Err(EncryptionError::InvalidFormat(String::from_str("Invalid magic bytes - data may not be encrypted")));
        }
        let mut nonce: [u8; 12] = [0u8; 12];
        let mut i: usize = 0;
        while i < 12
            invariant
                i <= 12,
                n == bytes@.len() >= 36,
                forall|k: int| 0 <= k < i ==> nonce@[k] == bytes@[8 + k],
            decreases 12 - i,
        {
            nonce[i] = bytes[8 + i];
            i = i + 1;
        }
        proof { assert(nonce@ =~= bytes@.subrange(8, 20)); }
        let ciphertext = vstd::slice::slice_to_vec(vstd::slice::slice_subrange(bytes, 20, n));
        Ok(EncryptedData { nonce, ciphertext })
    }

    /// Whether the bytes start with the magic of encrypted data.
    pub fn is_encrypted(bytes: &[u8]) -> (r: bool)
        ensures
            r == looks_encrypted(bytes@),
    {
        if bytes.len() < 8 {
            return false;
        }
        let magic = magic_bytes();
        equal_bytes(vstd::slice::slice_subrange(bytes, 0, 8), magic.as_slice())
    }
}

/// Encrypted data reads back as what was written, whenever the ciphertext holds at
/// least a tag, and is recognised as encrypted.
pub proof fn law_encrypted_data_roundtrip(nonce: Seq<u8>, ciphertext: Seq<u8>)
    requires
        nonce.len() == 12,
        ciphertext.len() >= 16,
    ensures
        looks_encrypted(encrypted_bytes(nonce, ciphertext)),
        encrypted_bytes(nonce, ciphertext).len() >= min_encrypted_len(),
        encrypted_bytes(nonce, ciphertext).subrange(8, 20) == nonce,
        encrypted_bytes(nonce, ciphertext).subrange(20, encrypted_bytes(nonce, ciphertext).len() as int) == ciphertext,
{
    let b = encrypted_bytes(nonce, ciphertext);
    assert(b.subrange(0, 8) =~= encryption_magic());
    assert(b.subrange(8, 20) =~= nonce);
    assert(b.subrange(20, b.len() as int) =~= ciphertext);
}


/// The AES-256-GCM ciphertext (tag appended, no associated data) of `plaintext` under
/// `key` and `nonce`, as `aes_gcm` computes it.
pub uninterp spec fn aes_gcm_seal(key: Seq<u8>, nonce: Seq<u8>, plaintext: Seq<u8>) -> Seq<u8>;

/// The plaintext that AES-256-GCM recovers from `ciphertext` under `key` and `nonce`,
/// `None` when the tag does not authenticate it.
pub uninterp spec fn aes_gcm_open(key: Seq<u8>, nonce: Seq<u8>, ciphertext: Seq<u8>) -> Option<Seq<u8>>;

/// The 32-byte key that HKDF-SHA256 (no salt) expands from `ikm` for `info`.
pub uninterp spec fn hkdf_sha256_key(ikm: Seq<u8>, info: Seq<u8>) -> Seq<u8>;

/// The bytes that standard base64 (padded) decodes `text` to, `None` if it is not valid.
pub uninterp spec fn base64_standard_decoded(text: Seq<char>) -> Option<Seq<u8>>;

/// The standard base64 (padded) text of `bytes`.
pub uninterp spec fn base64_standard_encoded(bytes: Seq<u8>) -> Seq<char>;

/// `Aes256Gcm::encrypt` with an empty associated data: it fails only for a plaintext
/// longer than 2^36 bytes; the ciphertext carries the 16-byte tag and opens back to the
/// plaintext. The error's message is not stated.
#[verifier::external_body]
fn aes256gcm_seal(key: &[u8; 32], nonce: &[u8; 12], plaintext: &[u8]) -> (r: Result<Vec<u8>, String>)
    ensures
        plaintext@.len() <= 0x10_0000_0000 ==> r is Ok,
        r matches Ok(ct) ==> ct@ == aes_gcm_seal(key@, nonce@, plaintext@)
            && ct@.len() == plaintext@.len() + 16
            && aes_gcm_open(key@, nonce@, ct@) == Some(plaintext@),
{
    let cipher = aes_gcm::Aes256Gcm::new(key.into());
    cipher.encrypt(aes_gcm::Nonce::from_slice(nonce), plaintext).map_err(|e| e.to_string())
}

/// `Aes256Gcm::decrypt` with an empty associated data. The error's message is not stated.
#[verifier::external_body]
fn aes256gcm_open(key: &[u8; 32], nonce: &[u8; 12], ciphertext: &[u8]) -> (r: Result<Vec<u8>, String>)
    ensures
        match r {
            Ok(pt) => aes_gcm_open(key@, nonce@, ciphertext@) == Some(pt@),
            Err(_) => aes_gcm_open(key@, nonce@, ciphertext@) is None,
        },
{
    let cipher = aes_gcm::Aes256Gcm::new(key.into());
    cipher.decrypt(aes_gcm::Nonce::from_slice(nonce), ciphertext).map_err(|e| e.to_string())
}

/// `Hkdf::<Sha256>::new(None, ikm).expand(info, ..)` into 32 bytes, which never fails
/// (HKDF-SHA256 expands up to 255 * 32 bytes).
#[verifier::external_body]
fn hkdf_sha256_expand(ikm: &[u8], info: &[u8]) -> (r: Result<[u8; 32], String>)
    ensures
        r is Ok,
        r matches Ok(k) ==> k@ == hkdf_sha256_key(ikm@, info@),
{
    let hk = hkdf::Hkdf::<sha2::Sha256>::new(None, ikm);
    let mut okm = [0u8; 32];
    match hk.expand(info, &mut okm) {
        Ok(()) => Ok(okm),
        Err(e) => Err(e.to_string()),
    }
}

/// `base64::engine::general_purpose::STANDARD.decode`. The error's message is not stated.
#[verifier::external_body]
fn base64_decode(text: &str) -> (r: Result<Vec<u8>, String>)
    ensures
        match r {
            Ok(b) => base64_standard_decoded(text@) == Some(b@),
            Err(_) => base64_standard_decoded(text@) is None,
        },
{
    base64::engine::general_purpose::STANDARD.decode(text).map_err(|e| e.to_string())
}

/// `base64::engine::general_purpose::STANDARD.encode`, whose text decodes back to the bytes.
#[verifier::external_body]
fn base64_encode(bytes: &[u8]) -> (r: String)
    ensures
        r@ == base64_standard_encoded(bytes@),
        base64_standard_decoded(r@) == Some(bytes@),
{
    base64::engine::general_purpose::STANDARD.encode(bytes)
}

/// `N` fresh random bytes from the thread's generator (`rand::thread_rng().fill_bytes`).
/// They come from chance, so nothing is stated of them.
#[verifier::external_body]
fn random_bytes<const N: usize>() -> (r: [u8; N])
{
    let mut b = [0u8; N];
    rand::thread_rng().fill_bytes(&mut b);
    b
}

/// The UTF-8 bytes of the data key's context, `minikv-data`.
pub open spec fn data_context() -> Seq<u8> {
    seq![0x6Du8, 0x69u8, 0x6Eu8, 0x69u8, 0x6Bu8, 0x76u8, 0x2Du8, 0x64u8, 0x61u8, 0x74u8, 0x61u8]
}

/// The UTF-8 bytes of the WAL key's context, `minikv-wal`.
pub open spec fn wal_context() -> Seq<u8> {
    seq![0x6Du8, 0x69u8, 0x6Eu8, 0x69u8, 0x6Bu8, 0x76u8, 0x2Du8, 0x77u8, 0x61u8, 0x6Cu8]
}

/// Encrypts and decrypts stored data and WAL entries with keys derived from a master key.
pub struct EncryptionManager {
    config: EncryptionConfig,
    data_key: Option<[u8; 32]>,
    wal_key: Option<[u8; 32]>,
}

/// The state of an encryption manager: whether it is enabled and its two keys.
pub struct EncryptionView {
    pub enabled: bool,
    pub data_key: Option<Seq<u8>>,
    pub wal_key: Option<Seq<u8>>,
}

/// Whether an encryption manager encrypts: enabled and holding a data key.
pub open spec fn encrypting(v: EncryptionView) -> bool {
    v.enabled && v.data_key is Some
}

/// What `decrypt_bytes` gives for `data`: the data itself when encryption is off or the data
/// is not marked encrypted, else the decrypted plaintext (`None` when that fails).
pub open spec fn decrypted_bytes(v: EncryptionView, data: Seq<u8>) -> Option<Seq<u8>> {
    if !encrypting(v) || !looks_encrypted(data) {
        Some(data)
    } else if data.len() < min_encrypted_len() {
        None
    } else {
        aes_gcm_open(v.data_key->0, data.subrange(8, 20), data.subrange(20, data.len() as int))
    }
}

/// The encryption status shown to operators.
#[derive(Debug)]
pub struct EncryptionStatus {
    pub enabled: bool,
    pub algorithm: Option<String>,
    pub key_derivation: Option<String>,
}

fn copy_key(k: &[u8; 32]) -> (r: [u8; 32])
    ensures
        r@ == k@,
{
    *k
}

impl EncryptionManager {
    /// The state of this manager.
    pub closed spec fn view(&self) -> EncryptionView {
        EncryptionView {
            enabled: self.config.enabled,
            data_key: match self.data_key { Some(k) => Some(k@), None => None },
            wal_key: match self.wal_key { Some(k) => Some(k@), None => None },
        }
    }

    /// A manager with encryption disabled.
    pub fn new() -> (r: EncryptionManager)
        ensures
            !r.view().enabled,
            r.view().data_key is None,
            r.view().wal_key is None,
    {
        EncryptionManager { config: EncryptionConfig::default(), data_key: None, wal_key: None }
    }

    /// Enables encryption with a base64 master key of at least 32 bytes, deriving the data
    /// and WAL keys from it with HKDF-SHA256.
    pub fn initialize(&mut self, master_key: &str) -> (r: Result<(), EncryptionError>)
        ensures
            match base64_standard_decoded(master_key@) {
                None => r matches Err(EncryptionError::InvalidKey(_)) && final(self).view() == old(self).view(),
                Some(b) => if b.len() < 32 {
                    (r matches Err(EncryptionError::InvalidKey(m))
                        && m@ == "Master key too short: "@ + decimal(b.len()) + " bytes, minimum 32 bytes"@)
                        && final(self).view() == old(self).view()
                } else {
                    r is Ok && final(self).view() == (EncryptionView {
                        enabled: true,
                        data_key: Some(hkdf_sha256_key(b, data_context())),
                        wal_key: Some(hkdf_sha256_key(b, wal_context())),
                    })
                },
            },
    {
        let key_bytes = match base64_decode(master_key) {
            Ok(b) => b,
            Err(e) => {
                let mut m = String::from_str("Invalid base64: ");
                m.append(e.as_str());
                return Err(EncryptionError::InvalidKey(m));
            },
        };
        self.initialize_with_key(key_bytes.as_slice(), master_key)
    }

    /// Enables encryption with the decoded master key `key_bytes` (given as `master_key` in
    /// base64), of at least 32 bytes, deriving the data and WAL keys from it with
    /// HKDF-SHA256.
    pub fn initialize_with_key(&mut self, key_bytes: &[u8], master_key: &str) -> (r: Result<(), EncryptionError>)
        ensures
            if key_bytes@.len() < 32 {
                (r matches Err(EncryptionError::InvalidKey(m))
                    && m@ == "Master key too short: "@ + decimal(key_bytes@.len()) + " bytes, minimum 32 bytes"@)
                    && final(self).view() == old(self).view()
            } else {
                r is Ok && final(self).view() == (EncryptionView {
                    enabled: true,
                    data_key: Some(hkdf_sha256_key(key_bytes@, data_context())),
                    wal_key: Some(hkdf_sha256_key(key_bytes@, wal_context())),
                })
            },
    {
        if key_bytes.len() < 32 {
            let mut m = String::from_str("Master key too short: ");
            proof { reveal_strlit("Master key too short: "); reveal_strlit(" bytes, minimum 32 bytes"); }
            let d = decimal_string(key_bytes.len() as u64);
            m.append(d.as_str());
            m.append(" bytes, minimum 32 bytes");
            return Err(EncryptionError::InvalidKey(m));
        }
        let data_info: [u8; 11] = [0x6D, 0x69, 0x6E, 0x69, 0x6B, 0x76, 0x2D, 0x64, 0x61, 0x74, 0x61];
        let wal_info: [u8; 10] = [0x6D, 0x69, 0x6E, 0x69, 0x6B, 0x76, 0x2D, 0x77, 0x61, 0x6C];
        proof {
            assert(data_info@ =~= data_context());
            assert(wal_info@ =~= wal_context());
        }
        match hkdf_sha256_expand(key_bytes, data_info.as_slice()) {
            Ok(k) => { self.data_key = Some(k); },
            Err(e) => { return Err(EncryptionError::KeyDerivationFailed(e)); },
        }
        match hkdf_sha256_expand(key_bytes, wal_info.as_slice()) {
            Ok(k) => { self.wal_key = Some(k); },
            Err(e) => { return Err(EncryptionError::KeyDerivationFailed(e)); },
        }
        self.config.enabled = true;
        self.config.master_key = Some(String::from_str(master_key));
        Ok(())
    }

    /// Whether data is encrypted: enabled and keyed.
    pub fn is_enabled(&self) -> (r: bool)
        ensures
            r == encrypting(self.view()),
    {
        self.config.enabled && self.data_key.is_some()
    }

    /// Encrypts `plaintext` with the data key and a fresh random nonce.
    pub fn encrypt(&self, plaintext: &[u8]) -> (r: Result<EncryptedData, EncryptionError>)
        ensures
            self.view().data_key is None ==> r matches Err(EncryptionError::NotEnabled),
            self.view().data_key is Some && plaintext@.len() <= 0x10_0000_0000 ==> r is Ok,
            r matches Ok(d) ==> self.view().data_key is Some
                && d.ciphertext@ == aes_gcm_seal(self.view().data_key->0, d.nonce@, plaintext@)
                && d.ciphertext@.len() == plaintext@.len() + 16
                && aes_gcm_open(self.view().data_key->0, d.nonce@, d.ciphertext@) == Some(plaintext@),
    {
        match &self.data_key {
            None => Err(EncryptionError::NotEnabled),
            Some(key) => {
                let nonce = random_bytes::<12>();
                match aes256gcm_seal(key, &nonce, plaintext) {
                    Ok(ciphertext) => Ok(EncryptedData { nonce, ciphertext }),
                    Err(e) => Err(EncryptionError::EncryptionFailed(e)),
                }
            },
        }
    }

    /// Decrypts data encrypted with the data key.
    pub fn decrypt(&self, encrypted: &EncryptedData) -> (r: Result<Vec<u8>, EncryptionError>)
        ensures
            self.view().data_key is None ==> r matches Err(EncryptionError::NotEnabled),
            self.view().data_key is Some ==> match aes_gcm_open(self.view().data_key->0, encrypted.nonce@, encrypted.ciphertext@) {
                Some(pt) => r is Ok && r->Ok_0@ == pt,
                None => r matches Err(EncryptionError::DecryptionFailed(_)),
            },
    {
        match &self.data_key {
            None => Err(EncryptionError::NotEnabled),
            Some(key) => match aes256gcm_open(key, &encrypted.nonce, encrypted.ciphertext.as_slice()) {
                Ok(pt) => Ok(pt),
                Err(e) => Err(EncryptionError::DecryptionFailed(e)),
            },
        }
    }

    /// Encrypts `plaintext` into the byte form, or returns it unchanged when encryption is off.
    pub fn encrypt_bytes(&self, plaintext: &[u8]) -> (r: Result<Vec<u8>, EncryptionError>)
        ensures
            !encrypting(self.view()) ==> r is Ok && r->Ok_0@ == plaintext@,
            encrypting(self.view()) && plaintext@.len() <= 0x10_0000_0000 ==> r is Ok,
            encrypting(self.view()) ==> (r matches Ok(b) ==> exists|n: Seq<u8>| n.len() == 12
                && #[trigger] encrypted_bytes(n, aes_gcm_seal(self.view().data_key->0, n, plaintext@)) == b@
                && aes_gcm_open(self.view().data_key->0, n, aes_gcm_seal(self.view().data_key->0, n, plaintext@)) == Some(plaintext@)
                && aes_gcm_seal(self.view().data_key->0, n, plaintext@).len() == plaintext@.len() + 16),
    {
        if !self.is_enabled() {
            return Ok(vstd::slice::slice_to_vec(plaintext));
        }
        match self.encrypt(plaintext) {
            Ok(d) => {
                let b = d.to_bytes();
                proof {
                    assert(encrypted_bytes(d.nonce@, aes_gcm_seal(self.view().data_key->0, d.nonce@, plaintext@)) == b@);
                }
                Ok(b)
            },
            Err(e) => Err(e),
        }
    }

    /// Decrypts bytes in the byte form; bytes not marked encrypted, and any bytes while
    /// encryption is off, are returned unchanged.
    pub fn decrypt_bytes(&self, data: &[u8]) -> (r: Result<Vec<u8>, EncryptionError>)
        ensures
            match decrypted_bytes(self.view(), data@) {
                Some(pt) => r is Ok && r->Ok_0@ == pt,
                None => r is Err,
            },
    {
        if !self.is_enabled() {
            return Ok(vstd::slice::slice_to_vec(data));
        }
        if !EncryptedData::is_encrypted(data) {
            return Ok(vstd::slice::slice_to_vec(data));
        }
        match EncryptedData::from_bytes(data) {
            Ok(encrypted) => self.decrypt(&encrypted),
            Err(e) => Err(e),
        }
    }

    /// Encrypts a WAL entry with the WAL key and a fresh random nonce.
    pub fn encrypt_wal(&self, plaintext: &[u8]) -> (r: Result<EncryptedData, EncryptionError>)
        ensures
            self.view().wal_key is None ==> r matches Err(EncryptionError::NotEnabled),
            self.view().wal_key is Some && plaintext@.len() <= 0x10_0000_0000 ==> r is Ok,
            r matches Ok(d) ==> self.view().wal_key is Some
                && d.ciphertext@ == aes_gcm_seal(self.view().wal_key->0, d.nonce@, plaintext@)
                && aes_gcm_open(self.view().wal_key->0, d.nonce@, d.ciphertext@) == Some(plaintext@),
    {
        match &self.wal_key {
            None => Err(EncryptionError::NotEnabled),
            Some(key) => {
                let nonce = random_bytes::<12>();
                match aes256gcm_seal(key, &nonce, plaintext) {
                    Ok(ciphertext) => Ok(EncryptedData { nonce, ciphertext }),
                    Err(e) => Err(EncryptionError::EncryptionFailed(e)),
                }
            },
        }
    }

    /// Decrypts a WAL entry encrypted with the WAL key.
    pub fn decrypt_wal(&self, encrypted: &EncryptedData) -> (r: Result<Vec<u8>, EncryptionError>)
        ensures
            self.view().wal_key is None ==> r matches Err(EncryptionError::NotEnabled),
            self.view().wal_key is Some ==> match aes_gcm_open(self.view().wal_key->0, encrypted.nonce@, encrypted.ciphertext@) {
                Some(pt) => r is Ok && r->Ok_0@ == pt,
                None => r matches Err(EncryptionError::DecryptionFailed(_)),
            },
    {
        match &self.wal_key {
            None => Err(EncryptionError::NotEnabled),
            Some(key) => match aes256gcm_open(key, &encrypted.nonce, encrypted.ciphertext.as_slice()) {
                Ok(pt) => Ok(pt),
                Err(e) => Err(EncryptionError::DecryptionFailed(e)),
            },
        }
    }

    /// A fresh random 32-byte master key in standard base64.
    pub fn generate_master_key() -> (r: String)
        ensures
            base64_standard_decoded(r@) is Some,
            base64_standard_decoded(r@)->0.len() == 32,
    {
        let key = random_bytes::<32>();
        base64_encode(key.as_slice())
    }

    /// The status: whether encryption is on, and if so its algorithm and key derivation.
    pub fn status(&self) -> (r: EncryptionStatus)
        ensures
            r.enabled == encrypting(self.view()),
            r.enabled ==> r.algorithm is Some && r.algorithm->0@ == "AES-256-GCM"@
                && r.key_derivation is Some && r.key_derivation->0@ == "HKDF-SHA256"@,
            !r.enabled ==> r.algorithm is None && r.key_derivation is None,
    {
        let enabled = self.is_enabled();
        EncryptionStatus {
            enabled,
            algorithm: if enabled { Some(String::from_str("AES-256-GCM")) } else { None },
            key_derivation: if enabled { Some(String::from_str("HKDF-SHA256")) } else { None },
        }
    }

    /// The data key, if any (for operators that check key separation).
    pub fn data_key(&self) -> (r: Option<[u8; 32]>)
        ensures
            match r { Some(k) => self.view().data_key == Some(k@), None => self.view().data_key is None },
    {
        match &self.data_key { Some(k) => Some(copy_key(k)), None => None }
    }

    /// The WAL key, if any.
    pub fn wal_key(&self) -> (r: Option<[u8; 32]>)
        ensures
            match r { Some(k) => self.view().wal_key == Some(k@), None => self.view().wal_key is None },
    {
        match &self.wal_key { Some(k) => Some(copy_key(k)), None => None }
    }
}

/// Whether `r` is `data` sealed with the data key of `v` under some 12-byte nonce, in the
/// byte form: the sealed text opens back to the data and is 16 bytes longer.
pub open spec fn sealed_form(v: EncryptionView, data: Seq<u8>, r: Seq<u8>) -> bool {
    exists|n: Seq<u8>| n.len() == 12
        && #[trigger] encrypted_bytes(n, aes_gcm_seal(v.data_key->0, n, data)) == r
        && aes_gcm_open(v.data_key->0, n, aes_gcm_seal(v.data_key->0, n, data)) == Some(data)
        && aes_gcm_seal(v.data_key->0, n, data).len() == data.len() + 16
}

/// What `maybe_decrypt` gives for `data`: the decrypted data, or the data unchanged where
/// it cannot be decrypted.
pub open spec fn maybe_decrypted(v: EncryptionView, data: Seq<u8>) -> Seq<u8> {
    match decrypted_bytes(v, data) {
        Some(pt) => pt,
        None => data,
    }
}

/// Encrypts `data` if `manager` encrypts; on any failure returns the data unchanged.
pub fn maybe_encrypt(manager: &EncryptionManager, data: &[u8]) -> (r: Vec<u8>)
    ensures
        !encrypting(manager.view()) ==> r@ == data@,
        encrypting(manager.view()) && data@.len() <= 0x10_0000_0000 ==> sealed_form(manager.view(), data@, r@)
            && r@.len() == data@.len() + min_encrypted_len() && looks_encrypted(r@),
        encrypting(manager.view()) && data@.len() > 0x10_0000_0000 ==> sealed_form(manager.view(), data@, r@) || r@ == data@,
{
    match manager.encrypt_bytes(data) {
        Ok(b) => {
            proof {
                if encrypting(manager.view()) {
                    let v = manager.view();
                    let n = choose|n: Seq<u8>| n.len() == 12
                        && #[trigger] encrypted_bytes(n, aes_gcm_seal(v.data_key->0, n, data@)) == b@
                        && aes_gcm_open(v.data_key->0, n, aes_gcm_seal(v.data_key->0, n, data@)) == Some(data@)
                        && aes_gcm_seal(v.data_key->0, n, data@).len() == data@.len() + 16;
                    assert(b@.subrange(0, 8) =~= encryption_magic());
                }
            }
            b
        },
        Err(_) => vstd::slice::slice_to_vec(data),
    }
}

/// Decrypts `data` if needed; on any failure returns the data unchanged.
pub fn maybe_decrypt(manager: &EncryptionManager, data: &[u8]) -> (r: Vec<u8>)
    ensures
        r@ == maybe_decrypted(manager.view(), data@),
{
    match manager.decrypt_bytes(data) {
        Ok(b) => b,
        Err(_) => vstd::slice::slice_to_vec(data),
    }
}

/// What `maybe_encrypt` gives, `maybe_decrypt` turns back into the data, with the same
/// manager: with encryption off both hand the data through; with it on, the data sealed
/// under any nonce decrypts back.
pub proof fn law_maybe_decrypt_inverts_maybe_encrypt(v: EncryptionView, data: Seq<u8>, r: Seq<u8>)
    requires
        !encrypting(v) ==> r == data,
        encrypting(v) ==> sealed_form(v, data, r),
    ensures
        maybe_decrypted(v, r) == data,
{
    if encrypting(v) {
        let n = choose|n: Seq<u8>| n.len() == 12
            && #[trigger] encrypted_bytes(n, aes_gcm_seal(v.data_key->0, n, data)) == r
            && aes_gcm_open(v.data_key->0, n, aes_gcm_seal(v.data_key->0, n, data)) == Some(data)
            && aes_gcm_seal(v.data_key->0, n, data).len() == data.len() + 16;
        law_decrypt_inverts_encrypt(v, n, data);
    }
}

/// Data encrypted by a manager decrypts back to the plaintext with that manager: for every
/// nonce, the byte form of the sealed plaintext decrypts to the plaintext.
pub proof fn law_decrypt_inverts_encrypt(v: EncryptionView, nonce: Seq<u8>, plaintext: Seq<u8>)
    requires
        encrypting(v),
        nonce.len() == 12,
        aes_gcm_open(v.data_key->0, nonce, aes_gcm_seal(v.data_key->0, nonce, plaintext)) == Some(plaintext),
        aes_gcm_seal(v.data_key->0, nonce, plaintext).len() == plaintext.len() + 16,
    ensures
        decrypted_bytes(v, encrypted_bytes(nonce, aes_gcm_seal(v.data_key->0, nonce, plaintext))) == Some(plaintext),
{
    law_encrypted_data_roundtrip(nonce, aes_gcm_seal(v.data_key->0, nonce, plaintext));
}

} // verus!
