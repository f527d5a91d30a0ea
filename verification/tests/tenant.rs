use cerveau::ids::Uuid;
use cerveau::server::{allowed_origins, shared_secret, SecretError};
use cerveau::tenant::{
    constant_time_eq, read_header, user_of, AuthMethod, AuthenticatedUser, TenantHeaderResolver,
};

fn resolve(secret: &[u8], tenant: &[u8], agent: &[u8]) -> Option<AuthenticatedUser> {
    let resolver = TenantHeaderResolver { shared_secret: "s3cret".to_string() };
    resolver.resolve(Some(secret), Some(tenant), Some(agent))
}

#[test]
fn bytes_are_equal_or_not() {
    assert!(constant_time_eq(b"", b""));
    assert!(constant_time_eq(b"abc", b"abc"));
    assert!(!constant_time_eq(b"abc", b"abd"));
    assert!(!constant_time_eq(b"xbc", b"abc"));
    assert!(!constant_time_eq(b"abc", b"ab"));
    assert!(!constant_time_eq(b"\x80\x00", b"\x00\x80"));
}

#[test]
fn a_tenant_is_resolved() {
    let user = resolve(b"s3cret", b" 42 ", b"sales").unwrap();
    let id = uuid::Uuid::new_v5(&uuid::Uuid::NAMESPACE_OID, b"t_42.sales");
    assert_eq!(user.id.value, id.as_u128());
    assert_eq!(user.email, "t_42.sales@cerveau.internal");
    assert!(!user.is_superuser);
    assert!(user.is_verified);
    assert!(user.is_active);
    assert_eq!(user.tenant_id, None);
    assert_eq!(user.auth_method, AuthMethod::ApiKey);
}

#[test]
fn tenants_and_agents_are_kept_apart() {
    let base = resolve(b"s3cret", b"1", b"sales").unwrap();
    assert_eq!(resolve(b"s3cret", b"1", b"sales").unwrap().id, base.id);
    assert_ne!(resolve(b"s3cret", b"2", b"sales").unwrap().id, base.id);
    assert_ne!(resolve(b"s3cret", b"1", b"support").unwrap().id, base.id);
    let dotted = resolve(b"s3cret", b"a.b", b"c").unwrap();
    assert_eq!(resolve(b"s3cret", b"a", b"b.c").unwrap().id, dotted.id);
}

#[test]
fn without_the_secret_nobody_is_resolved() {
    let resolver = TenantHeaderResolver { shared_secret: "s3cret".to_string() };
    assert!(resolver.resolve(None, Some(b"1"), Some(b"sales")).is_none());
    assert!(resolve(b"", b"1", b"sales").is_none());
    assert!(resolve(b"s3cres", b"1", b"sales").is_none());
    assert!(resolve(b" s3cret", b"1", b"sales").is_none());
    assert!(resolve(b"s3cret\xff", b"1", b"sales").is_none());
}

#[test]
fn without_tenant_or_agent_nobody_is_resolved() {
    let resolver = TenantHeaderResolver { shared_secret: "s3cret".to_string() };
    assert!(resolver.resolve(Some(b"s3cret"), None, Some(b"sales")).is_none());
    assert!(resolver.resolve(Some(b"s3cret"), Some(b"1"), None).is_none());
    assert!(resolve(b"s3cret", b" \t", b"sales").is_none());
    assert!(resolve(b"s3cret", b"1", b"").is_none());
    assert!(resolve(b"s3cret", b"\xc3\xa9", b"sales").is_none());
}

#[test]
fn a_secret_beyond_ascii_is_never_matched() {
    let resolver = TenantHeaderResolver { shared_secret: "é".to_string() };
    assert!(resolver.resolve(Some("é".as_bytes()), Some(b"1"), Some(b"sales")).is_none());
}

#[test]
fn headers_are_visible_ascii() {
    assert_eq!(read_header(Some(b"a\tb ~")).as_deref(), Some("a\tb ~"));
    assert_eq!(read_header(Some(b"")).as_deref(), Some(""));
    assert_eq!(read_header(Some(b"\x7f")), None);
    assert_eq!(read_header(Some(b"a\nb")), None);
    assert_eq!(read_header(None), None);
}

#[test]
fn a_user_follows_from_identifier_and_alias() {
    let user = user_of(Uuid { value: 5 }, "t_1.a");
    assert_eq!(user.id, Uuid { value: 5 });
    assert_eq!(user.email, "t_1.a@cerveau.internal");
}

#[test]
fn the_server_needs_a_secret() {
    assert_eq!(shared_secret(None), Err(SecretError::Missing));
    assert_eq!(shared_secret(Some(" \n".to_string())), Err(SecretError::Blank));
    assert_eq!(shared_secret(Some("".to_string())), Err(SecretError::Blank));
    assert_eq!(shared_secret(Some(" s ".to_string())), Ok(" s ".to_string()));
}

#[test]
fn origins_are_split_and_trimmed() {
    assert_eq!(allowed_origins(" http://a , ,http://b,"), vec!["http://a", "http://b"]);
    assert!(allowed_origins("").is_empty());
    assert!(allowed_origins(" , ").is_empty());
}
