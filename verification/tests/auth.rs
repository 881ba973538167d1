use minikv::auth::parse_role;
use minikv::auth::{
    auth_reply, auth_step, check_claims, claims_for, parse_authorization, require_admin, require_write,
    tenant_of, AuthConfig, AuthContext, AuthError, AuthHeader, AuthReply, AuthResult, AuthStep, Claims, KeyStore, Role,
};

#[test]
fn test_roles() {
    assert!(Role::Admin.can_read());
    assert!(Role::Admin.can_write());
    assert!(Role::Admin.can_admin());

    assert!(Role::ReadWrite.can_read());
    assert!(Role::ReadWrite.can_write());
    assert!(!Role::ReadWrite.can_admin());

    assert!(Role::ReadOnly.can_read());
    assert!(!Role::ReadOnly.can_write());
    assert!(!Role::ReadOnly.can_admin());
}

#[test]
fn test_public_paths() {
    let config = AuthConfig::default();
    assert!(config.public_paths.contains(&"/health".to_string()));
    assert!(config.public_paths.contains(&"/metrics".to_string()));
}

#[test]
fn test_generate_and_validate_key() {
    let mut store = KeyStore::new();

    let (key_id, plaintext) = store.generate_key("test-key", "default", Role::ReadWrite, None).unwrap();

    assert!(!key_id.is_empty());
    assert!(plaintext.starts_with("mkv_"));

    match store.validate_key(&plaintext) {
        AuthResult::Authenticated(ctx) => {
            assert_eq!(ctx.key_id, key_id);
            assert_eq!(ctx.tenant, "default");
            assert_eq!(ctx.role, Role::ReadWrite);
        }
        _ => panic!("Expected valid key"),
    }
}

#[test]
fn auth_test_invalid_key() {
    let store = KeyStore::new();

    match store.validate_key("mkv_invalid_key_here") {
        AuthResult::Invalid(_) => {}
        _ => panic!("Expected invalid key"),
    }
}

#[test]
fn test_revoke_key() {
    let mut store = KeyStore::new();

    let (key_id, plaintext) = store.generate_key("test-key", "default", Role::ReadWrite, None).unwrap();

    store.revoke_key(&key_id).unwrap();

    match store.validate_key(&plaintext) {
        AuthResult::Invalid(msg) => {
            assert!(msg.contains("disabled"));
        }
        _ => panic!("Expected disabled key"),
    }
}

#[test]
fn keys_without_the_prefix_are_refused_before_any_lookup() {
    let store = KeyStore::new();
    match store.validate_key("abc") {
        AuthResult::Invalid(msg) => assert_eq!(msg, "Invalid key format"),
        _ => panic!("Expected invalid format"),
    }
}

#[test]
fn expired_keys_are_refused_and_unknown_ids_are_reported() {
    let mut store = KeyStore::new();
    let (id, key) = store.generate_key("short", "t1", Role::Admin, Some(0)).unwrap();
    assert!(matches!(store.validate_key(&key), AuthResult::Expired));
    let record = store.get_key(&id).unwrap();
    assert_eq!(record.expires_at, Some(record.created_at));
    assert!(matches!(store.revoke_key("nope"), Err(AuthError::KeyNotFound(ref m)) if m == "nope"));
    assert!(matches!(store.delete_key("nope"), Err(AuthError::KeyNotFound(_))));
    store.delete_key(&id).unwrap();
    assert!(store.get_key(&id).is_none());
    assert!(matches!(store.validate_key(&key), AuthResult::Invalid(ref m) if m == "Invalid API key"));
}

#[test]
fn keys_are_listed_per_tenant_and_touched() {
    let mut store = KeyStore::new();
    let (a, _) = store.generate_key("a", "t1", Role::ReadOnly, None).unwrap();
    let (_b, _) = store.generate_key("b", "t2", Role::ReadOnly, None).unwrap();
    assert_eq!(store.list_keys().len(), 2);
    let t1 = store.list_keys_for_tenant("t1");
    assert_eq!(t1.len(), 1);
    assert_eq!(t1[0].id, a);
    assert!(t1[0].last_used_at.is_none());
    store.touch_key_at(&a, 1234);
    assert_eq!(store.get_key(&a).unwrap().last_used_at, Some(1234));
    assert_eq!(AuthError::KeyNotFound("x".to_string()).message(), "Key not found: x");
}

#[test]
fn authorization_headers_name_their_scheme() {
    assert!(matches!(parse_authorization("Bearer abc.def"), AuthHeader::Bearer(ref t) if t == "abc.def"));
    assert!(matches!(parse_authorization("APIKEY mkv_x y"), AuthHeader::ApiKey(ref k) if k == "mkv_x y"));
    assert!(matches!(parse_authorization("token"), AuthHeader::Invalid(ref m) if m == "Invalid Authorization header format"));
    assert!(matches!(parse_authorization("Basic xyz"), AuthHeader::Invalid(ref m) if m == "Unknown auth scheme: Basic"));
}

#[test]
fn claims_expire_after_a_day() {
    let ctx = AuthContext { key_id: "k".to_string(), tenant: "t".to_string(), role: Role::Admin };
    let claims = claims_for(&ctx, 1000);
    assert_eq!(claims.exp, 1000 + 86_400);
    assert_eq!(claims.iat, 1000);
    assert!(matches!(check_claims(claims, 1000), AuthResult::Authenticated(ref c) if c.key_id == "k" && c.tenant == "t"));
    let late = Claims { sub: "k".to_string(), tenant: "t".to_string(), role: Role::Admin, exp: 5, iat: 0 };
    assert!(matches!(check_claims(late, 5), AuthResult::Expired));
}

#[test]
fn the_middleware_lets_public_paths_and_open_reads_through() {
    let mut config = AuthConfig::default();
    assert!(matches!(auth_step(&config, "/anything", "POST", None, None), AuthStep::Pass));
    config.enabled = true;
    assert!(matches!(auth_step(&config, "/health/ready", "POST", None, None), AuthStep::Pass));
    assert!(matches!(auth_step(&config, "/kv/x", "GET", None, None), AuthStep::Pass));
    assert!(matches!(auth_step(&config, "/kv/x", "PUT", None, None), AuthStep::Missing));
    assert!(matches!(auth_step(&config, "/kv/x", "PUT", Some("Bearer t".to_string()), None), AuthStep::Authorization(ref h) if h == "Bearer t"));
    assert!(matches!(auth_step(&config, "/kv/x", "PUT", None, Some("mkv_k".to_string())), AuthStep::ApiKeyHeader(ref k) if k == "mkv_k"));
    config.require_auth_for_reads = true;
    assert!(matches!(auth_step(&config, "/kv/x", "GET", None, None), AuthStep::Missing));
}

#[test]
fn refusals_carry_status_and_reason() {
    match auth_reply(AuthResult::Missing) {
        AuthReply::Reject(r) => {
            assert_eq!(r.status, 401);
            assert_eq!(r.error, "Authentication required");
            assert_eq!(r.detail_field, "hint");
        }
        _ => panic!("expected a refusal"),
    }
    match auth_reply(AuthResult::Forbidden("no".to_string())) {
        AuthReply::Reject(r) => {
            assert_eq!(r.status, 403);
            assert_eq!(r.detail, "no");
        }
        _ => panic!("expected a refusal"),
    }
    let reader = AuthContext { key_id: "k".to_string(), tenant: "t".to_string(), role: Role::ReadOnly };
    let refused = require_write(Some(&reader)).unwrap();
    assert_eq!(refused.detail, "ReadOnly");
    assert!(require_write(None).is_none());
    assert_eq!(require_admin(None).unwrap().detail, "Authenticate with an admin API key");
    assert_eq!(tenant_of(None), "default");
    assert_eq!(tenant_of(Some(&reader)), "t");
}

#[test]
fn key_requests_name_their_role_in_any_case() {
    assert_eq!(parse_role("ADMIN"), Some(Role::Admin));
    assert_eq!(parse_role("Read_Write"), Some(Role::ReadWrite));
    assert_eq!(parse_role("rw"), Some(Role::ReadWrite));
    assert_eq!(parse_role(""), Some(Role::ReadOnly));
    assert_eq!(parse_role("readonly"), Some(Role::ReadOnly));
    assert_eq!(parse_role("superuser"), None);
}
