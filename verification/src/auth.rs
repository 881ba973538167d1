//! Roles, API keys and authentication results.
use vstd::prelude::*;
use vstd::string::StringExecFns;
use crate::hash::strings_view;
use crate::text::{chars_of, lowercase, lowercase_of};
use argon2::password_hash::{rand_core::OsRng, PasswordHash, PasswordHasher, PasswordVerifier, SaltString};
use base64::Engine;
use rand::Rng;

verus! {

/// An access level.
#[derive(Debug, Clone, Copy, PartialEq, Eq, Structural)]
pub enum Role {
    /// Full access, administration included.
    Admin,
    /// Reads and writes data.
    ReadWrite,
    /// Reads data (the default).
    ReadOnly,
}

impl Role {
    /// Whether this role may write data.
    pub fn can_write(&self) -> (r: bool)
        ensures
            r == (*self == Role::Admin || *self == Role::ReadWrite),
    {
        matches!(self, Role::Admin | Role::ReadWrite)
    }

    /// Whether this role may administer the store.
    pub fn can_admin(&self) -> (r: bool)
        ensures
            r == (*self == Role::Admin),
    {
        matches!(self, Role::Admin)
    }

    /// Whether this role may read data: every role may.
    pub fn can_read(&self) -> (r: bool)
        ensures
            r,
    {
        true
    }
}

impl Default for Role {
    fn default() -> (r: Role)
        ensures
            r == Role::ReadOnly,
    {
        Role::ReadOnly
    }
}

/// An API key and what is known of it (the key itself is stored only hashed).
#[derive(Debug)]
pub struct ApiKey {
    pub id: String,
    pub name: String,
    pub key_hash: String,
    pub tenant: String,
    pub role: Role,
    /// Creation time, Unix milliseconds.
    pub created_at: u64,
    /// Expiration time, Unix milliseconds; `None` never expires.
    pub expires_at: Option<u64>,
    pub active: bool,
    pub last_used_at: Option<u64>,
}

/// Whether a key, active or not, with expiration `expires_at` is valid at `now`: active and
/// not expired.
pub open spec fn valid_key_at(active: bool, expires_at: Option<u64>, now: u64) -> bool {
    active && !expired_at(expires_at, now)
}

/// Whether a key with expiration `expires_at` is expired at `now`.
pub open spec fn expired_at(expires_at: Option<u64>, now: u64) -> bool {
    match expires_at {
        Some(t) => now >= t,
        None => false,
    }
}

impl ApiKey {
    /// Whether the key is expired at `now` (Unix milliseconds).
    pub fn is_expired_at(&self, now: u64) -> (r: bool)
        ensures
            r == expired_at(self.expires_at, now),
    {
        match self.expires_at {
            Some(t) => now >= t,
            None => false,
        }
    }

    /// Whether the key is expired now: whether it is expired at the clock's reading in
    /// Unix milliseconds. A key without expiration never is.
    pub fn is_expired(&self) -> (r: bool)
        ensures
            exists|now: u64| r == #[trigger] expired_at(self.expires_at, now),
            self.expires_at is None ==> !r,
    {
        let now = crate::utils::timestamp_now_millis();
        let r = self.is_expired_at(now);
        assert(r == expired_at(self.expires_at, now));
        r
    }

    /// Whether the key is active and not expired at `now`.
    pub fn is_valid_at(&self, now: u64) -> (r: bool)
        ensures
            r == (self.active && !expired_at(self.expires_at, now)),
    {
        self.active && !self.is_expired_at(now)
    }

    /// Whether the key is active and not expired now. An inactive key never is.
    pub fn is_valid(&self) -> (r: bool)
        ensures
            exists|now: u64| r == #[trigger] valid_key_at(self.active, self.expires_at, now),
            !self.active ==> !r,
            self.active && self.expires_at is None ==> r,
    {
        if !self.active {
            assert(false == valid_key_at(self.active, self.expires_at, 0));
            return false;
        }
        let expired = self.is_expired();
        proof {
            let now = choose|now: u64| expired == expired_at(self.expires_at, now);
            assert(!expired == valid_key_at(self.active, self.expires_at, now));
        }
        !expired
    }
}

/// The claims carried by a JWT.
#[derive(Debug)]
pub struct Claims {
    /// Subject: the key id.
    pub sub: String,
    pub tenant: String,
    pub role: Role,
    /// Expiration, Unix seconds.
    pub exp: u64,
    /// Issue time, Unix seconds.
    pub iat: u64,
}

/// Who a request is from, once authenticated.
#[derive(Debug)]
pub struct AuthContext {
    pub key_id: String,
    pub tenant: String,
    pub role: Role,
}

impl AuthContext {
    /// Whether this context may write data.
    pub fn can_write(&self) -> (r: bool)
        ensures
            r == (self.role == Role::Admin || self.role == Role::ReadWrite),
    {
        self.role.can_write()
    }

    /// Whether this context may administer the store.
    pub fn can_admin(&self) -> (r: bool)
        ensures
            r == (self.role == Role::Admin),
    {
        self.role.can_admin()
    }
}

/// The identity a request carries past the authentication middleware, if any.
#[derive(Debug)]
pub struct AuthExtension(pub Option<AuthContext>);

/// The outcome of an authentication attempt.
#[derive(Debug)]
pub enum AuthResult {
    /// Authentication succeeded, as this context.
    Authenticated(AuthContext),
    /// No credentials were given.
    Missing,
    Invalid(String),
    Expired,
    Forbidden(String),
}

/// Failures of key management.
#[derive(Debug)]
pub enum AuthError {
    HashError(String),
    JwtError(String),
    KeyNotFound(String),
    Unauthorized(String),
    Forbidden(String),
}

/// How authentication is configured.
#[derive(Debug)]
pub struct AuthConfig {
    pub enabled: bool,
    /// JWT secret, base64 encoded.
    pub jwt_secret: Option<String>,
    pub require_auth_for_reads: bool,
    /// Paths that need no authentication.
    pub public_paths: Vec<String>,
}

/// The paths open without authentication by default.
pub open spec fn default_public_paths() -> Seq<Seq<char>> {
    seq!["/health"@, "/health/ready"@, "/health/live"@, "/metrics"@]
}

impl Default for AuthConfig {
    /// Authentication off, reads open, and the health and metrics paths public.
    fn default() -> (r: AuthConfig)
        ensures
            !r.enabled,
            r.jwt_secret is None,
            !r.require_auth_for_reads,
            strings_view(r.public_paths@) == default_public_paths(),
    {
        let mut paths: Vec<String> = Vec::new();
        paths.push(String::from_str("/health"));
        paths.push(String::from_str("/health/ready"));
        paths.push(String::from_str("/health/live"));
        paths.push(String::from_str("/metrics"));
        proof { assert(strings_view(paths@) =~= default_public_paths()); }
        AuthConfig { enabled: false, jwt_secret: None, require_auth_for_reads: false, public_paths: paths }
    }
}

/// `a + b`, or `u64::MAX` where that overflows.
pub open spec fn saturating_sum(a: u64, b: u64) -> u64 {
    if a + b > u64::MAX { u64::MAX } else { (a + b) as u64 }
}

/// The prefix of every API key.
pub open spec fn api_key_prefix() -> Seq<char> {
    "mkv_"@
}

/// How long a JWT is valid, in seconds (24 hours).
pub const JWT_LIFETIME_SECS: u64 = 86_400;

/// The message an authentication error is displayed with.
pub open spec fn auth_error_message(e: AuthError) -> Seq<char> {
    match e {
        AuthError::HashError(m) => "Hash error: "@ + m@,
        AuthError::JwtError(m) => "JWT error: "@ + m@,
        AuthError::KeyNotFound(m) => "Key not found: "@ + m@,
        AuthError::Unauthorized(m) => "Unauthorized: "@ + m@,
        AuthError::Forbidden(m) => "Forbidden: "@ + m@,
    }
}

fn prefixed(prefix: &str, m: &String) -> (r: String)
    ensures
        r@ == prefix@ + m@,
{
    let mut s = prefix.to_string();
    s.append(m.as_str());
    s
}

impl AuthError {
    /// The message this error is displayed with.
    pub fn message(&self) -> (r: String)
        ensures
            r@ == auth_error_message(*self),
    {
        match self {
            AuthError::HashError(m) => prefixed("Hash error: ", m),
            AuthError::JwtError(m) => prefixed("JWT error: ", m),
            AuthError::KeyNotFound(m) => prefixed("Key not found: ", m),
            AuthError::Unauthorized(m) => prefixed("Unauthorized: ", m),
            AuthError::Forbidden(m) => prefixed("Forbidden: ", m),
        }
    }
}

/// The value of an API key record.
pub struct ApiKeyView {
    pub id: Seq<char>,
    pub name: Seq<char>,
    pub key_hash: Seq<char>,
    pub tenant: Seq<char>,
    pub role: Role,
    pub created_at: u64,
    pub expires_at: Option<u64>,
    pub active: bool,
    pub last_used_at: Option<u64>,
}

impl ApiKey {
    /// The value of this record.
    pub open spec fn view(&self) -> ApiKeyView {
        ApiKeyView {
            id: self.id@,
            name: self.name@,
            key_hash: self.key_hash@,
            tenant: self.tenant@,
            role: self.role,
            created_at: self.created_at,
            expires_at: self.expires_at,
            active: self.active,
            last_used_at: self.last_used_at,
        }
    }

    /// A copy of this record.
    pub fn duplicate(&self) -> (r: ApiKey)
        ensures
            r.view() == self.view(),
    {
        ApiKey {
            id: self.id.clone(),
            name: self.name.clone(),
            key_hash: self.key_hash.clone(),
            tenant: self.tenant.clone(),
            role: self.role,
            created_at: self.created_at,
            expires_at: self.expires_at,
            active: self.active,
            last_used_at: self.last_used_at,
        }
    }
}

/// Whether `password` matches the Argon2 hash string `hash` (the hash parses as a PHC
/// string and `Argon2::default().verify_password` accepts the password).
pub uninterp spec fn argon2_verifies(password: Seq<u8>, hash: Seq<char>) -> bool;

/// Hashes `password` with Argon2 and a fresh random salt (`SaltString::generate` with
/// `OsRng`, then `Argon2::default().hash_password`), as a PHC string; the error's message
/// where hashing fails. The salt is random, so of the hash only this is stated: the
/// password verifies against it. Hashing fails only for a password longer than
/// `0xFFFF_FFFF` bytes (the generated salt always has a valid length).
#[verifier::external_body]
fn argon2_hash(password: &[u8]) -> (r: Result<String, String>)
    ensures
        r matches Ok(h) ==> argon2_verifies(password@, h@),
        password@.len() <= 0xFFFF_FFFF ==> r is Ok,
{
    let salt = SaltString::generate(&mut OsRng);
    argon2::Argon2::default().hash_password(password, &salt).map(|h| h.to_string()).map_err(|e| e.to_string())
}

/// Whether `password` matches the hash string `hash`: `PasswordHash::new(hash)` parses it
/// and `Argon2::default().verify_password` accepts the password.
#[verifier::external_body]
fn argon2_check(password: &[u8], hash: &str) -> (r: bool)
    ensures
        r == argon2_verifies(password@, hash@),
{
    match PasswordHash::new(hash) {
        Ok(parsed) => argon2::Argon2::default().verify_password(password, &parsed).is_ok(),
        Err(_) => false,
    }
}

/// 32 random bytes from the thread's generator (`rand::thread_rng().gen()`).
#[verifier::external_body]
fn random_key_bytes() -> (r: [u8; 32])
{
    rand::thread_rng().gen()
}

/// The URL-safe base64 encoding of `bytes`, without padding.
pub uninterp spec fn base64_url_no_pad(bytes: Seq<u8>) -> Seq<char>;

/// `URL_SAFE_NO_PAD.encode(bytes)`: four characters for every three bytes, and two or
/// three for a last group of one or two bytes.
#[verifier::external_body]
fn base64_url_encode(bytes: &[u8]) -> (r: String)
    ensures
        r@ == base64_url_no_pad(bytes@),
        r@.len() == (4 * bytes@.len() + 2) / 3,
{
    base64::engine::general_purpose::URL_SAFE_NO_PAD.encode(bytes)
}

/// Whether `c` is a lowercase hexadecimal digit.
pub open spec fn is_lower_hex_digit(c: char) -> bool {
    ('0' <= c && c <= '9') || ('a' <= c && c <= 'f')
}

/// Whether `s` is a version-4 UUID in its hyphenated lowercase form: 36 characters,
/// hyphens at positions 8, 13, 18 and 23, lowercase hexadecimal digits elsewhere, the
/// version digit `4` at position 14 and the variant digit (`8`, `9`, `a` or `b`) at 19.
pub open spec fn is_uuid_v4_text(s: Seq<char>) -> bool {
    &&& s.len() == 36
    &&& forall|i: int| 0 <= i < 36 ==> if i == 8 || i == 13 || i == 18 || i == 23 {
        #[trigger] s[i] == '-'
    } else {
        is_lower_hex_digit(s[i])
    }
    &&& s[14] == '4'
    &&& (s[19] == '8' || s[19] == '9' || s[19] == 'a' || s[19] == 'b')
}

/// A fresh random version-4 UUID, hyphenated in lowercase (`Uuid::new_v4().to_string()`).
/// Its digits come from chance; its form is fixed.
#[verifier::external_body]
fn new_uuid() -> (r: String)
    ensures
        r@.len() == 36,
        is_uuid_v4_text(r@),
{
    uuid::Uuid::new_v4().to_string()
}

/// Whether `p` starts `s`.
pub open spec fn is_prefix(p: Seq<char>, s: Seq<char>) -> bool {
    p.len() <= s.len() && s.subrange(0, p.len() as int) == p
}

/// Whether the characters `p` start the characters `s`.
pub fn starts_with_chars(s: &Vec<char>, p: &Vec<char>) -> (r: bool)
    ensures
        r == is_prefix(p@, s@),
{
    if p.len() > s.len() {
        return false;
    }
    let mut i: usize = 0;
    while i < p.len()
        invariant
            p@.len() <= s@.len(),
            i <= p@.len(),
            forall|j: int| 0 <= j < i ==> s@[j] == p@[j],
        decreases p@.len() - i,
    {
        if s[i] != p[i] {
            proof {
                if is_prefix(p@, s@) { assert(s@.subrange(0, p@.len() as int)[i as int] == s@[i as int]); }
            }
            return false;
        }
        i = i + 1;
    }
    proof { assert(s@.subrange(0, p@.len() as int) =~= p@); }
    true
}

/// The position of the first key record whose hash `key` matches, if any.
pub open spec fn first_match(keys: Seq<ApiKeyView>, key: Seq<u8>) -> Option<int>
    decreases keys.len(),
{
    if keys.len() == 0 {
        None
    } else if argon2_verifies(key, keys[0].key_hash) {
        Some(0)
    } else {
        match first_match(keys.drop_first(), key) {
            Some(i) => Some(i + 1),
            None => None,
        }
    }
}

/// What validating the API key `key` against the records `keys` gives at time `now`.
pub open spec fn key_validation(keys: Seq<ApiKeyView>, key: Seq<char>, now: u64) -> AuthOutcome {
    if !is_prefix(api_key_prefix(), key) {
        AuthOutcome::Invalid("Invalid key format"@)
    } else {
        match first_match(keys, vstd::utf8::encode_utf8(key)) {
            None => AuthOutcome::Invalid("Invalid API key"@),
            Some(i) => if !keys[i].active {
                AuthOutcome::Invalid("Key is disabled"@)
            } else if expired_at(keys[i].expires_at, now) {
                AuthOutcome::Expired
            } else {
                AuthOutcome::Authenticated(keys[i].id, keys[i].tenant, keys[i].role)
            },
        }
    }
}

/// The value of an authentication outcome.
pub enum AuthOutcome {
    Authenticated(Seq<char>, Seq<char>, Role),
    Missing,
    Invalid(Seq<char>),
    Expired,
    Forbidden(Seq<char>),
}

impl AuthResult {
    /// The value of this outcome.
    pub open spec fn view(&self) -> AuthOutcome {
        match self {
            AuthResult::Authenticated(c) => AuthOutcome::Authenticated(c.key_id@, c.tenant@, c.role),
            AuthResult::Missing => AuthOutcome::Missing,
            AuthResult::Invalid(m) => AuthOutcome::Invalid(m@),
            AuthResult::Expired => AuthOutcome::Expired,
            AuthResult::Forbidden(m) => AuthOutcome::Forbidden(m@),
        }
    }
}

/// The id of each record.
pub open spec fn key_ids(keys: Seq<ApiKeyView>) -> Seq<Seq<char>> {
    keys.map_values(|k: ApiKeyView| k.id)
}

/// The record `k`, last used at `now`.
pub open spec fn used_at(k: ApiKeyView, now: u64) -> ApiKeyView {
    ApiKeyView { last_used_at: Some(now), ..k }
}

/// The records with `k` added: in place of the record with its id, or else at the end.
pub open spec fn with_key(keys: Seq<ApiKeyView>, k: ApiKeyView) -> Seq<ApiKeyView> {
    if key_ids(keys).contains(k.id) {
        keys.update(key_ids(keys).index_of(k.id), k)
    } else {
        keys.push(k)
    }
}

/// The API keys a node knows, in the order they were made, and the JWT secret.
pub struct KeyStore {
    keys: Vec<ApiKey>,
    jwt_secret: Vec<u8>,
}

/// The secret that signs JWTs unless another is configured.
pub open spec fn default_jwt_secret() -> Seq<u8> {
    vstd::utf8::encode_utf8("minikv-default-secret-change-in-production"@)
}

impl KeyStore {
    /// The records, in the order they were made.
    pub closed spec fn view(&self) -> Seq<ApiKeyView> {
        self.keys@.map_values(|k: ApiKey| k.view())
    }

    /// The secret that signs and checks JWTs.
    pub closed spec fn secret(&self) -> Seq<u8> {
        self.jwt_secret@
    }

    /// The internal invariant: each id names one record.
    pub open spec fn wf(&self) -> bool {
        key_ids(self@).no_duplicates()
    }

    /// An empty store whose JWTs are signed with `secret`.
    pub fn with_secret(secret: &[u8]) -> (r: Self)
        ensures
            r.wf(),
            r@ == Seq::<ApiKeyView>::empty(),
            r.secret() == secret@,
    {
        let r = KeyStore { keys: Vec::new(), jwt_secret: vstd::slice::slice_to_vec(secret) };
        proof { assert(r@ =~= Seq::<ApiKeyView>::empty()); }
        r
    }

    /// An empty store with the default JWT secret.
    pub fn new() -> (r: Self)
        ensures
            r.wf(),
            r@ == Seq::<ApiKeyView>::empty(),
            r.secret() == default_jwt_secret(),
    {
        let secret = "minikv-default-secret-change-in-production".as_bytes();
        Self::with_secret(secret)
    }

    /// The secret that signs and checks JWTs.
    pub fn jwt_secret(&self) -> (r: &[u8])
        ensures
            r@ == self.secret(),
    {
        self.jwt_secret.as_slice()
    }

    /// The position of the record with id `key_id`, if any.
    fn position(&self, key_id: &str) -> (r: Option<usize>)
        requires
            self.wf(),
        ensures
            match r {
                Some(i) => i < self@.len() && self@[i as int].id == key_id@,
                None => !key_ids(self@).contains(key_id@),
            },
    {
        let wanted = key_id.to_string();
        let mut i: usize = 0;
        while i < self.keys.len()
            invariant
                wanted@ == key_id@,
                i <= self.keys@.len(),
                forall|j: int| 0 <= j < i ==> #[trigger] self.keys@[j].id@ != key_id@,
            decreases self.keys@.len() - i,
        {
            if self.keys[i].id == wanted {
                return Some(i);
            }
            i = i + 1;
        }
        proof {
            if key_ids(self@).contains(key_id@) {
                let j = choose|j: int| 0 <= j < key_ids(self@).len() && key_ids(self@)[j] == key_id@;
                assert(self.keys@[j].id@ == key_ids(self@)[j]);
            }
        }
        None
    }

    /// Puts `key` at position `i`, in place of a record with the same id.
    fn replace_at(&mut self, i: usize, key: ApiKey)
        requires
            old(self).wf(),
            i < old(self)@.len(),
            key.id@ == old(self)@[i as int].id,
        ensures
            final(self).wf(),
            final(self)@ == old(self)@.update(i as int, key.view()),
    {
        let ghost kv = key.view();
        self.keys.set(i, key);
        proof {
            assert(self@ =~= old(self)@.update(i as int, kv));
            assert(key_ids(self@) =~= key_ids(old(self)@));
        }
    }

    /// Adds a record, in place of any with the same id.
    fn put(&mut self, key: ApiKey)
        requires
            old(self).wf(),
        ensures
            final(self).wf(),
            key_ids(old(self)@).contains(key.id@) ==> exists|i: int| 0 <= i < old(self)@.len() && old(self)@[i].id == key.id@
                && final(self)@ == old(self)@.update(i, key.view()),
            !key_ids(old(self)@).contains(key.id@) ==> final(self)@ == old(self)@.push(key.view()),
    {
        match self.position(key.id.as_str()) {
            Some(i) => {
                let ghost kv = key.view();
                proof { assert(key_ids(old(self)@)[i as int] == kv.id); }
                self.keys.set(i, key);
                proof {
                    assert(self@ =~= old(self)@.update(i as int, kv));
                    assert(key_ids(self@) =~= key_ids(old(self)@).update(i as int, kv.id));
                    assert forall|a: int, b: int| 0 <= a < b < key_ids(self@).len() implies key_ids(self@)[a] != key_ids(self@)[b] by {
                        if a != i && b != i {
                            assert(key_ids(self@)[a] == key_ids(old(self)@)[a]);
                            assert(key_ids(self@)[b] == key_ids(old(self)@)[b]);
                        } else if a == i {
                            assert(key_ids(self@)[b] == key_ids(old(self)@)[b]);
                            assert(key_ids(old(self)@)[i as int] == kv.id);
                        } else {
                            assert(key_ids(self@)[a] == key_ids(old(self)@)[a]);
                            assert(key_ids(old(self)@)[i as int] == kv.id);
                        }
                    }
                }
            },
            None => {
                let ghost kv = key.view();
                self.keys.push(key);
                proof {
                    assert(self@ =~= old(self)@.push(kv));
                    assert(key_ids(self@) =~= key_ids(old(self)@).push(kv.id));
                    assert forall|a: int, b: int| 0 <= a < b < key_ids(self@).len() implies key_ids(self@)[a] != key_ids(self@)[b] by {
                        if b == key_ids(self@).len() - 1 {
                            assert(key_ids(old(self)@).contains(key_ids(self@)[a]));
                        }
                    }
                }
            },
        }
    }

    /// Makes a new API key: `mkv_` and the URL-safe base64 of 32 random bytes; records
    /// it under a fresh UUID, active, with its Argon2 hash, made now and expiring after
    /// `expires_in_ms` if given (saturating). Gives the id and the key, which is shown this
    /// once; the hashing error, if hashing fails.
    pub fn generate_key(&mut self, name: &str, tenant: &str, role: Role, expires_in_ms: Option<u64>) -> (r: Result<(String, String), AuthError>)
        requires
            old(self).wf(),
        ensures
            final(self).wf(),
            r is Ok,
            r matches Ok((id, key)) ==> ({
                &&& is_uuid_v4_text(id@)
                &&& is_prefix(api_key_prefix(), key@)
                &&& exists|k: ApiKeyView| {
                    &&& #[trigger] with_key(old(self)@, k) == final(self)@
                    &&& k.id == id@
                    &&& k.name == name@
                    &&& k.tenant == tenant@
                    &&& k.role == role
                    &&& k.active
                    &&& k.last_used_at is None
                    &&& argon2_verifies(vstd::utf8::encode_utf8(key@), k.key_hash)
                    &&& (expires_in_ms is None <==> k.expires_at is None)
                    &&& (k.expires_at matches Some(t) ==> t == saturating_sum(k.created_at, expires_in_ms->0))
                }
            }),
    {
        let bytes = random_key_bytes();
        let suffix = base64_url_encode(&bytes);
        let mut plaintext = String::from_str("mkv_");
        plaintext.append(suffix.as_str());
        proof {
            reveal_strlit("mkv_");
            assert(plaintext@.subrange(0, 4) =~= api_key_prefix());
        }
        let key_id = new_uuid();
        proof {
            crate::text::lemma_utf8_len_bound(plaintext@);
        }
        let key_hash = match argon2_hash(plaintext.as_str().as_bytes()) {
            Ok(h) => h,
            Err(e) => { return Err(AuthError::HashError(e)); },
        };
        let now = crate::utils::timestamp_now_millis();
        let expires_at = match expires_in_ms {
            Some(d) => Some(now.saturating_add(d)),
            None => None,
        };
        let record = ApiKey {
            id: key_id.clone(),
            name: name.to_string(),
            key_hash,
            tenant: tenant.to_string(),
            role,
            created_at: now,
            expires_at,
            active: true,
            last_used_at: None,
        };
        let ghost rv = record.view();
        self.put(record);
        proof {
            let ids = key_ids(old(self)@);
            if ids.contains(rv.id) {
                let i = choose|i: int| 0 <= i < old(self)@.len() && old(self)@[i].id == rv.id && self@ == old(self)@.update(i, rv);
                let j = ids.index_of(rv.id);
                assert(ids[i] == rv.id);
                assert(ids[j] == rv.id);
                assert(i == j);
            }
            assert(with_key(old(self)@, rv) == self@);
        }
        Ok((key_id, plaintext))
    }

    /// Validates the API key `key` at time `now` (Unix milliseconds): it must start with
    /// `mkv_` and match the hash of a record; that record must be active and not expired.
    pub fn validate_key_at(&self, key: &str, now: u64) -> (r: AuthResult)
        requires
            self.wf(),
        ensures
            r.view() == key_validation(self@, key@, now),
    {
        proof {
            reveal_strlit("mkv_");
            reveal_strlit("Invalid key format");
            reveal_strlit("Invalid API key");
            reveal_strlit("Key is disabled");
        }
        let cs = chars_of(key);
        let prefix = chars_of("mkv_");
        if !starts_with_chars(&cs, &prefix) {
            return AuthResult::Invalid(String::from_str("Invalid key format"));
        }
        let bytes = key.as_bytes();
        let mut i: usize = 0;
        proof { assert(self@.subrange(0, self@.len() as int) =~= self@); }
        while i < self.keys.len()
            invariant
                i <= self.keys@.len(),
                is_prefix(api_key_prefix(), key@),
                bytes@ == vstd::utf8::encode_utf8(key@),
                first_match(self@, bytes@) == match first_match(self@.subrange(i as int, self@.len() as int), bytes@) {
                    Some(j) => Some(j + i),
                    None => None,
                },
            decreases self.keys@.len() - i,
        {
            let k = &self.keys[i];
            proof {
                let rest = self@.subrange(i as int, self@.len() as int);
                assert(rest[0] == k.view());
                assert(rest.drop_first() =~= self@.subrange(i + 1, self@.len() as int));
            }
            if argon2_check(bytes, k.key_hash.as_str()) {
                if !k.active {
                    return AuthResult::Invalid(String::from_str("Key is disabled"));
                }
                if k.is_expired_at(now) {
                    return AuthResult::Expired;
                }
                return AuthResult::Authenticated(AuthContext { key_id: k.id.clone(), tenant: k.tenant.clone(), role: k.role });
            }
            i = i + 1;
        }
        AuthResult::Invalid(String::from_str("Invalid API key"))
    }

    /// Validates the API key `key` now.
    pub fn validate_key(&self, key: &str) -> (r: AuthResult)
        requires
            self.wf(),
        ensures
            exists|now: u64| r.view() == key_validation(self@, key@, now),
    {
        let now = crate::utils::timestamp_now_millis();
        let r = self.validate_key_at(key, now);
        assert(r.view() == key_validation(self@, key@, now));
        r
    }

    /// A copy of the record with id `key_id`, if any.
    pub fn get_key(&self, key_id: &str) -> (r: Option<ApiKey>)
        requires
            self.wf(),
        ensures
            match r {
                Some(k) => exists|i: int| 0 <= i < self@.len() && self@[i] == k.view() && k.view().id == key_id@,
                None => !key_ids(self@).contains(key_id@),
            },
    {
        match self.position(key_id) {
            Some(i) => Some(self.keys[i].duplicate()),
            None => None,
        }
    }

    /// Copies of the records for which `keep` holds, in order.
    fn copies(&self, tenant: Option<&str>) -> (r: Vec<ApiKey>)
        ensures
            r@.map_values(|k: ApiKey| k.view()) == match tenant {
                Some(t) => self@.filter(|k: ApiKeyView| k.tenant == t@),
                None => self@,
            },
    {
        let ghost keep = |k: ApiKeyView| match tenant { Some(t) => k.tenant == t@, None => true };
        let mut out: Vec<ApiKey> = Vec::new();
        let mut i: usize = 0;
        while i < self.keys.len()
            invariant
                i <= self.keys@.len(),
                keep == (|k: ApiKeyView| match tenant { Some(t) => k.tenant == t@, None => true }),
                out@.map_values(|k: ApiKey| k.view()) == self@.take(i as int).filter(keep),
            decreases self.keys@.len() - i,
        {
            proof {
                reveal(Seq::filter);
                assert(self@.take(i as int + 1).drop_last() =~= self@.take(i as int));
                assert(self@.take(i as int + 1).last() == self.keys@[i as int].view());
            }
            let take = match tenant {
                Some(t) => {
                    let owned = t.to_string();
                    self.keys[i].tenant == owned
                },
                None => true,
            };
            if take {
                let c = self.keys[i].duplicate();
                let ghost before = out@;
                out.push(c);
                proof {
                    assert(out@.map_values(|k: ApiKey| k.view()) =~= before.map_values(|k: ApiKey| k.view()).push(c.view()));
                }
            }
            i = i + 1;
        }
        proof {
            assert(self@.take(i as int) =~= self@);
            if tenant is None {
                lemma_filter_all(self@, keep);
            } else {
                assert(keep == (|k: ApiKeyView| k.tenant == tenant->0@));
            }
        }
        out
    }

    /// Copies of all records, in the order they were made.
    pub fn list_keys(&self) -> (r: Vec<ApiKey>)
        ensures
            r@.map_values(|k: ApiKey| k.view()) == self@,
    {
        self.copies(None)
    }

    /// Copies of the records of `tenant`, in the order they were made.
    pub fn list_keys_for_tenant(&self, tenant: &str) -> (r: Vec<ApiKey>)
        ensures
            r@.map_values(|k: ApiKey| k.view()) == self@.filter(|k: ApiKeyView| k.tenant == tenant@),
    {
        self.copies(Some(tenant))
    }

    /// Disables the record with id `key_id`; fails where there is none.
    pub fn revoke_key(&mut self, key_id: &str) -> (r: Result<(), AuthError>)
        requires
            old(self).wf(),
        ensures
            final(self).wf(),
            key_ids(old(self)@).contains(key_id@) ==> (r is Ok && exists|i: int| 0 <= i < old(self)@.len()
                && old(self)@[i].id == key_id@
                && final(self)@ == old(self)@.update(i, ApiKeyView { active: false, ..old(self)@[i] })),
            !key_ids(old(self)@).contains(key_id@) ==> (r matches Err(AuthError::KeyNotFound(m)) && m@ == key_id@)
                && final(self)@ == old(self)@,
    {
        match self.position(key_id) {
            Some(i) => {
                let mut k = self.keys[i].duplicate();
                k.active = false;
                proof {
                    assert(key_ids(old(self)@)[i as int] == key_id@);
                    assert(k.view() == ApiKeyView { active: false, ..old(self)@[i as int] });
                }
                self.replace_at(i, k);
                Ok(())
            },
            None => Err(AuthError::KeyNotFound(key_id.to_string())),
        }
    }

    /// Deletes the record with id `key_id`; fails where there is none.
    pub fn delete_key(&mut self, key_id: &str) -> (r: Result<(), AuthError>)
        requires
            old(self).wf(),
        ensures
            final(self).wf(),
            key_ids(old(self)@).contains(key_id@) ==> (r is Ok && exists|i: int| 0 <= i < old(self)@.len()
                && old(self)@[i].id == key_id@ && final(self)@ == old(self)@.remove(i)),
            !key_ids(old(self)@).contains(key_id@) ==> (r matches Err(AuthError::KeyNotFound(m)) && m@ == key_id@)
                && final(self)@ == old(self)@,
    {
        match self.position(key_id) {
            Some(i) => {
                let ghost before = self@;
                proof { assert(key_ids(before)[i as int] == key_id@); }
                self.keys.remove(i);
                proof {
                    assert(self@ =~= before.remove(i as int));
                    let ids0 = key_ids(before);
                    let ids1 = key_ids(self@);
                    assert(ids1 =~= ids0.remove(i as int));
                    assert forall|a: int, b: int| 0 <= a < b < ids1.len() implies ids1[a] != ids1[b] by {
                        let a2 = if a < i { a } else { a + 1 };
                        let b2 = if b < i { b } else { b + 1 };
                        assert(ids1[a] == ids0[a2]);
                        assert(ids1[b] == ids0[b2]);
                    }
                }
                Ok(())
            },
            None => Err(AuthError::KeyNotFound(key_id.to_string())),
        }
    }

    /// Records that the key with id `key_id` was used at `now`; nothing where there is no
    /// such key.
    pub fn touch_key_at(&mut self, key_id: &str, now: u64)
        requires
            old(self).wf(),
        ensures
            final(self).wf(),
            key_ids(old(self)@).contains(key_id@) ==> exists|i: int| 0 <= i < old(self)@.len()
                && old(self)@[i].id == key_id@
                && final(self)@ == old(self)@.update(i, ApiKeyView { last_used_at: Some(now), ..old(self)@[i] }),
            !key_ids(old(self)@).contains(key_id@) ==> final(self)@ == old(self)@,
    {
        match self.position(key_id) {
            Some(i) => {
                let mut k = self.keys[i].duplicate();
                k.last_used_at = Some(now);
                proof {
                    assert(key_ids(old(self)@)[i as int] == key_id@);
                    assert(k.view() == ApiKeyView { last_used_at: Some(now), ..old(self)@[i as int] });
                }
                self.replace_at(i, k);
            },
            None => {},
        }
    }

    /// Records that the key with id `key_id` was used now.
    pub fn touch_key(&mut self, key_id: &str)
        requires
            old(self).wf(),
        ensures
            final(self).wf(),
            key_ids(old(self)@).contains(key_id@) ==> exists|now: u64, i: int| 0 <= i < old(self)@.len()
                && old(self)@[i].id == key_id@
                && final(self)@ == old(self)@.update(i, #[trigger] used_at(old(self)@[i], now)),
            !key_ids(old(self)@).contains(key_id@) ==> final(self)@ == old(self)@,
    {
        let now = crate::utils::timestamp_now_millis();
        self.touch_key_at(key_id, now);
        proof {
            if key_ids(old(self)@).contains(key_id@) {
                let i = choose|i: int| 0 <= i < old(self)@.len() && old(self)@[i].id == key_id@
                    && self@ == old(self)@.update(i, ApiKeyView { last_used_at: Some(now), ..old(self)@[i] });
                assert(self@ == old(self)@.update(i, used_at(old(self)@[i], now)));
            }
        }
    }
}

proof fn lemma_filter_all(s: Seq<ApiKeyView>, f: spec_fn(ApiKeyView) -> bool)
    requires
        forall|k: ApiKeyView| #[trigger] f(k),
    ensures
        s.filter(f) == s,
    decreases s.len(),
{
    reveal(Seq::filter);
    if s.len() > 0 {
        lemma_filter_all(s.drop_last(), f);
        assert(s.drop_last().push(s.last()) =~= s);
    }
}

/// A key made by `generate_key` is accepted by `validate_key_at` as long as it is the
/// first record its hash matches, it is active and not expired: the key authenticates as
/// its record's id, tenant and role.
pub proof fn law_generated_key_validates(keys: Seq<ApiKeyView>, key: Seq<char>, i: int, now: u64)
    requires
        0 <= i < keys.len(),
        is_prefix(api_key_prefix(), key),
        first_match(keys, vstd::utf8::encode_utf8(key)) == Some(i),
        keys[i].active,
        !expired_at(keys[i].expires_at, now),
    ensures
        key_validation(keys, key, now) == AuthOutcome::Authenticated(keys[i].id, keys[i].tenant, keys[i].role),
{
}

/// A revoked key is refused as disabled.
pub proof fn law_revoked_key_is_refused(keys: Seq<ApiKeyView>, key: Seq<char>, i: int, now: u64)
    requires
        0 <= i < keys.len(),
        is_prefix(api_key_prefix(), key),
        first_match(keys, vstd::utf8::encode_utf8(key)) == Some(i),
    ensures
        key_validation(keys.update(i, ApiKeyView { active: false, ..keys[i] }), key, now) == AuthOutcome::Invalid("Key is disabled"@),
{
    lemma_first_match_update(keys, vstd::utf8::encode_utf8(key), i, ApiKeyView { active: false, ..keys[i] });
}

proof fn lemma_first_match_update(keys: Seq<ApiKeyView>, key: Seq<u8>, i: int, k: ApiKeyView)
    requires
        0 <= i < keys.len(),
        k.key_hash == keys[i].key_hash,
    ensures
        first_match(keys.update(i, k), key) == first_match(keys, key),
    decreases keys.len(),
{
    if keys.len() > 0 && i > 0 {
        assert(keys.update(i, k).drop_first() =~= keys.drop_first().update(i - 1, k));
        lemma_first_match_update(keys.drop_first(), key, i - 1, k);
    } else if keys.len() > 0 {
        assert(keys.update(i, k).drop_first() =~= keys.drop_first());
    }
}


/// The credentials an `Authorization` header carries.
pub enum AuthHeader {
    /// `Bearer <jwt>`.
    Bearer(String),
    /// `ApiKey <key>`.
    ApiKey(String),
    /// Neither; why.
    Invalid(String),
}

/// The value of what an `Authorization` header carries.
pub enum AuthHeaderView {
    Bearer(Seq<char>),
    ApiKey(Seq<char>),
    Invalid(Seq<char>),
}

impl AuthHeader {
    /// The value of this header.
    pub open spec fn view(&self) -> AuthHeaderView {
        match self {
            AuthHeader::Bearer(t) => AuthHeaderView::Bearer(t@),
            AuthHeader::ApiKey(k) => AuthHeaderView::ApiKey(k@),
            AuthHeader::Invalid(m) => AuthHeaderView::Invalid(m@),
        }
    }
}

/// The position of the first space in `h`, if any.
pub open spec fn first_space(h: Seq<char>) -> Option<int> {
    if exists|i: int| 0 <= i < h.len() && h[i] == ' ' {
        Some(choose|i: int| 0 <= i < h.len() && h[i] == ' ' && forall|j: int| 0 <= j < i ==> h[j] != ' ')
    } else {
        None
    }
}

/// What an `Authorization` header carries: it is split at its first space into a scheme,
/// matched without regard to case, and the credentials.
pub open spec fn authorization_of(h: Seq<char>) -> AuthHeaderView {
    match first_space(h) {
        None => AuthHeaderView::Invalid("Invalid Authorization header format"@),
        Some(i) => {
            let scheme = h.subrange(0, i);
            let rest = h.subrange(i + 1, h.len() as int);
            if lowercase_of(scheme) == "bearer"@ {
                AuthHeaderView::Bearer(rest)
            } else if lowercase_of(scheme) == "apikey"@ {
                AuthHeaderView::ApiKey(rest)
            } else {
                AuthHeaderView::Invalid("Unknown auth scheme: "@ + scheme)
            }
        },
    }
}

/// Reads an `Authorization` header: `Bearer <jwt>` or `ApiKey <key>`.
pub fn parse_authorization(header: &str) -> (r: AuthHeader)
    ensures
        r.view() == authorization_of(header@),
{
    proof {
        reveal_strlit("Invalid Authorization header format");
        reveal_strlit("Unknown auth scheme: ");
        reveal_strlit("bearer");
        reveal_strlit("apikey");
    }
    let cs = chars_of(header);
    let mut i: usize = 0;
    while i < cs.len()
        invariant
            cs@ == header@,
            i <= cs@.len(),
            forall|j: int| 0 <= j < i ==> cs@[j] != ' ',
        ensures
            cs@ == header@,
            i <= cs@.len(),
            forall|j: int| 0 <= j < i ==> cs@[j] != ' ',
            i < cs@.len() ==> cs@[i as int] == ' ',
        decreases cs@.len() - i,
    {
        if cs[i] == ' ' {
            break;
        }
        i = i + 1;
    }
    if i == cs.len() {
        return AuthHeader::Invalid(String::from_str("Invalid Authorization header format"));
    }
    proof {
        assert(header@[i as int] == ' ');
        let k = choose|k: int| 0 <= k < header@.len() && header@[k] == ' ' && forall|j: int| 0 <= j < k ==> header@[j] != ' ';
        assert(k == i) by {
            if k < i { assert(cs@[k] != ' '); }
            if k > i { assert(header@[i as int] != ' '); }
        }
    }
    let mut scheme_cs: Vec<char> = Vec::new();
    let mut j: usize = 0;
    while j < i
        invariant
            j <= i < cs@.len(),
            scheme_cs@ == cs@.subrange(0, j as int),
        decreases i - j,
    {
        scheme_cs.push(cs[j]);
        j = j + 1;
        proof { assert(scheme_cs@ =~= cs@.subrange(0, j as int)); }
    }
    let mut rest_cs: Vec<char> = Vec::new();
    let mut k: usize = i + 1;
    while k < cs.len()
        invariant
            i < k <= cs@.len() || k == i + 1,
            i + 1 <= k <= cs@.len(),
            rest_cs@ == cs@.subrange(i + 1, k as int),
        decreases cs@.len() - k,
    {
        rest_cs.push(cs[k]);
        k = k + 1;
        proof { assert(rest_cs@ =~= cs@.subrange(i + 1, k as int)); }
    }
    let scheme = crate::text::string_from_chars(&scheme_cs);
    let rest = crate::text::string_from_chars(&rest_cs);
    let lower = lowercase(scheme.as_str());
    if lower == String::from_str("bearer") {
        AuthHeader::Bearer(rest)
    } else if lower == String::from_str("apikey") {
        AuthHeader::ApiKey(rest)
    } else {
        let mut m = String::from_str("Unknown auth scheme: ");
        m.append(scheme.as_str());
        AuthHeader::Invalid(m)
    }
}

/// The claims of a JWT issued at `now` (Unix seconds) for `auth`: valid 24 hours.
pub fn claims_for(auth: &AuthContext, now: u64) -> (r: Claims)
    requires
        now <= u64::MAX - JWT_LIFETIME_SECS,
    ensures
        r.sub@ == auth.key_id@,
        r.tenant@ == auth.tenant@,
        r.role == auth.role,
        r.exp == now + JWT_LIFETIME_SECS,
        r.iat == now,
{
    Claims {
        sub: auth.key_id.clone(),
        tenant: auth.tenant.clone(),
        role: auth.role,
        exp: now + JWT_LIFETIME_SECS,
        iat: now,
    }
}

/// What the claims of a JWT whose signature checked out give at `now` (Unix seconds):
/// expired from their expiration on, else the identity they carry.
pub fn check_claims(claims: Claims, now: u64) -> (r: AuthResult)
    ensures
        now >= claims.exp ==> r is Expired,
        now < claims.exp ==> r.view() == AuthOutcome::Authenticated(claims.sub@, claims.tenant@, claims.role),
{
    if now >= claims.exp {
        return AuthResult::Expired;
    }
    AuthResult::Authenticated(AuthContext { key_id: claims.sub, tenant: claims.tenant, role: claims.role })
}

/// What the authentication middleware does with a request before asking the key store.
pub enum AuthStep {
    /// Let the request through with no identity.
    Pass,
    /// Authenticate with the value of the `Authorization` header.
    Authorization(String),
    /// Validate the value of the `X-API-Key` header.
    ApiKeyHeader(String),
    /// Refuse: no credentials.
    Missing,
}

/// Whether a path is public: it starts with one of the public paths.
pub open spec fn is_public(public_paths: Seq<Seq<char>>, path: Seq<char>) -> bool {
    exists|i: int| 0 <= i < public_paths.len() && is_prefix(#[trigger] public_paths[i], path)
}

/// Whether a method only reads: `GET`, `HEAD` or `OPTIONS`.
pub open spec fn is_read_method(method: Seq<char>) -> bool {
    method == "GET"@ || method == "HEAD"@ || method == "OPTIONS"@
}

/// What the middleware does with a request for `path` with `method` and the given
/// headers: with authentication off, or on a public path, it lets it through; else it
/// authenticates with the `Authorization` header, or else the `X-API-Key` header; with
/// neither, it lets reads through unless reads need authentication, and refuses the rest.
pub fn auth_step(config: &AuthConfig, path: &str, method: &str, authorization: Option<String>, api_key: Option<String>) -> (r: AuthStep)
    ensures
        !config.enabled ==> r is Pass,
        config.enabled && is_public(strings_view(config.public_paths@), path@) ==> r is Pass,
        config.enabled && !is_public(strings_view(config.public_paths@), path@) ==> match authorization {
            Some(h) => r matches AuthStep::Authorization(x) && x@ == h@,
            None => match api_key {
                Some(k) => r matches AuthStep::ApiKeyHeader(x) && x@ == k@,
                None => if is_read_method(method@) && !config.require_auth_for_reads { r is Pass } else { r is Missing },
            },
        },
{
    if !config.enabled {
        return AuthStep::Pass;
    }
    let p = chars_of(path);
    let mut i: usize = 0;
    while i < config.public_paths.len()
        invariant
            p@ == path@,
            i <= config.public_paths@.len(),
            forall|j: int| 0 <= j < i ==> !is_prefix(#[trigger] strings_view(config.public_paths@)[j], path@),
        decreases config.public_paths@.len() - i,
    {
        let pp = chars_of(config.public_paths[i].as_str());
        if starts_with_chars(&p, &pp) {
            proof { assert(strings_view(config.public_paths@)[i as int] == pp@); }
            return AuthStep::Pass;
        }
        proof { assert(strings_view(config.public_paths@)[i as int] == pp@); }
        i = i + 1;
    }
    proof {
        if is_public(strings_view(config.public_paths@), path@) {
            let j = choose|j: int| 0 <= j < strings_view(config.public_paths@).len() && is_prefix(#[trigger] strings_view(config.public_paths@)[j], path@);
            assert(!is_prefix(strings_view(config.public_paths@)[j], path@));
        }
    }
    match authorization {
        Some(h) => AuthStep::Authorization(h),
        None => match api_key {
            Some(k) => AuthStep::ApiKeyHeader(k),
            None => {
                proof {
                    reveal_strlit("GET");
                    reveal_strlit("HEAD");
                    reveal_strlit("OPTIONS");
                }
                let m = method.to_string();
                let is_read = m == String::from_str("GET") || m == String::from_str("HEAD") || m == String::from_str("OPTIONS");
                if is_read && !config.require_auth_for_reads {
                    AuthStep::Pass
                } else {
                    AuthStep::Missing
                }
            },
        },
    }
}

/// A refusal of a request: the HTTP status, the error, and one more field of the JSON
/// body (`hint`, `message` or `role`) with its value.
pub struct Rejection {
    pub status: u16,
    pub error: String,
    pub detail_field: String,
    pub detail: String,
}

/// What the middleware answers to an authentication outcome: the identity to go on
/// with, or a refusal.
pub enum AuthReply {
    Proceed(AuthContext),
    Reject(Rejection),
}

fn rejection(status: u16, error: &str, field: &str, detail: String) -> (r: Rejection)
    ensures
        r.status == status,
        r.error@ == error@,
        r.detail_field@ == field@,
        r.detail@ == detail@,
{
    Rejection { status, error: error.to_string(), detail_field: field.to_string(), detail }
}

/// Whether `r` is the refusal with these parts.
pub open spec fn is_rejection(r: Rejection, status: u16, error: Seq<char>, field: Seq<char>, detail: Seq<char>) -> bool {
    r.status == status && r.error@ == error && r.detail_field@ == field && r.detail@ == detail
}

/// The answer to an authentication outcome: go on with the identity, or 401 (403 for a
/// forbidden request) with the reason.
pub fn auth_reply(result: AuthResult) -> (r: AuthReply)
    ensures
        match result {
            AuthResult::Authenticated(c) => r matches AuthReply::Proceed(x) && x.key_id@ == c.key_id@ && x.tenant@ == c.tenant@ && x.role == c.role,
            AuthResult::Missing => r matches AuthReply::Reject(j) && is_rejection(j, 401, "Authentication required"@, "hint"@,
                "Provide Authorization header with 'Bearer <jwt>' or 'ApiKey <key>'"@),
            AuthResult::Invalid(m) => r matches AuthReply::Reject(j) && is_rejection(j, 401, "Invalid credentials"@, "message"@, m@),
            AuthResult::Expired => r matches AuthReply::Reject(j) && is_rejection(j, 401, "Credentials expired"@, "hint"@,
                "Please generate a new API key or refresh your token"@),
            AuthResult::Forbidden(m) => r matches AuthReply::Reject(j) && is_rejection(j, 403, "Access denied"@, "message"@, m@),
        },
{
    match result {
        AuthResult::Authenticated(c) => AuthReply::Proceed(c),
        AuthResult::Missing => AuthReply::Reject(rejection(401, "Authentication required", "hint",
            String::from_str("Provide Authorization header with 'Bearer <jwt>' or 'ApiKey <key>'"))),
        AuthResult::Invalid(m) => AuthReply::Reject(rejection(401, "Invalid credentials", "message", m)),
        AuthResult::Expired => AuthReply::Reject(rejection(401, "Credentials expired", "hint",
            String::from_str("Please generate a new API key or refresh your token"))),
        AuthResult::Forbidden(m) => AuthReply::Reject(rejection(403, "Access denied", "message", m)),
    }
}

/// The name of a role as `{:?}` prints it.
pub open spec fn role_name(r: Role) -> Seq<char> {
    match r {
        Role::Admin => "Admin"@,
        Role::ReadWrite => "ReadWrite"@,
        Role::ReadOnly => "ReadOnly"@,
    }
}

impl Role {
    /// The role's name as `{:?}` prints it.
    pub fn debug_name(&self) -> (r: String)
        ensures
            r@ == role_name(*self),
    {
        match self {
            Role::Admin => String::from_str("Admin"),
            Role::ReadWrite => String::from_str("ReadWrite"),
            Role::ReadOnly => String::from_str("ReadOnly"),
        }
    }
}

/// Whether a request with identity `ctx` may write: yes without an identity (the
/// middleware let it through), else as its role says; the refusal otherwise.
pub fn require_write(ctx: Option<&AuthContext>) -> (r: Option<Rejection>)
    ensures
        match ctx {
            Some(c) => if c.role == Role::Admin || c.role == Role::ReadWrite { r is None } else {
                r matches Some(j) && is_rejection(j, 403, "Write permission required"@, "role"@, role_name(c.role))
            },
            None => r is None,
        },
{
    match ctx {
        Some(c) => {
            if !c.can_write() {
                return Some(rejection(403, "Write permission required", "role", c.role.debug_name()));
            }
            None
        },
        None => None,
    }
}

/// Whether a request with identity `ctx` may administer: only an admin identity may; the
/// refusal otherwise.
pub fn require_admin(ctx: Option<&AuthContext>) -> (r: Option<Rejection>)
    ensures
        match ctx {
            Some(c) => if c.role == Role::Admin { r is None } else {
                r matches Some(j) && is_rejection(j, 403, "Admin permission required"@, "role"@, role_name(c.role))
            },
            None => r matches Some(j) && is_rejection(j, 403, "Admin permission required"@, "hint"@,
                "Authenticate with an admin API key"@),
        },
{
    match ctx {
        Some(c) => {
            if !c.can_admin() {
                return Some(rejection(403, "Admin permission required", "role", c.role.debug_name()));
            }
            None
        },
        None => Some(rejection(403, "Admin permission required", "hint", String::from_str("Authenticate with an admin API key"))),
    }
}

/// The tenant of a request: its identity's, or `default` without one.
pub fn tenant_of(ctx: Option<&AuthContext>) -> (r: String)
    ensures
        r@ == match ctx { Some(c) => c.tenant@, None => "default"@ },
{
    match ctx {
        Some(c) => c.tenant.clone(),
        None => String::from_str("default"),
    }
}

/// Whether a request has administrator access.
pub fn is_admin(ctx: Option<&AuthContext>) -> (r: bool)
    ensures
        r == match ctx { Some(c) => c.role == Role::Admin, None => false },
{
    match ctx {
        Some(c) => c.can_admin(),
        None => false,
    }
}


/// The role a name asks for, without regard to case: `admin`; `read_write`, `readwrite` or
/// `rw`; `read_only`, `readonly`, `ro` or nothing; any other name asks for no role.
pub open spec fn role_named(name: Seq<char>) -> Option<Role> {
    let n = lowercase_of(name);
    if n == "admin"@ {
        Some(Role::Admin)
    } else if n == "read_write"@ || n == "readwrite"@ || n == "rw"@ {
        Some(Role::ReadWrite)
    } else if n == "read_only"@ || n == "readonly"@ || n == "ro"@ || n == ""@ {
        Some(Role::ReadOnly)
    } else {
        None
    }
}

/// Whether `s` is the text `lit`.
fn is_text(s: &String, lit: &str) -> (r: bool)
    ensures
        r == (s@ == lit@),
{
    let t = lit.to_string();
    *s == t
}

/// The role a key request names, if it names one.
pub fn parse_role(name: &str) -> (r: Option<Role>)
    ensures
        r == role_named(name@),
{
    let n = lowercase(name);
    if is_text(&n, "admin") {
        Some(Role::Admin)
    } else if is_text(&n, "read_write") || is_text(&n, "readwrite") || is_text(&n, "rw") {
        Some(Role::ReadWrite)
    } else if is_text(&n, "read_only") || is_text(&n, "readonly") || is_text(&n, "ro") || is_text(&n, "") {
        Some(Role::ReadOnly)
    } else {
        None
    }
}

} // verus!
