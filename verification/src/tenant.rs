//! Who a request acts for, by the headers that a trusted caller sets.
//!
//! The tenant headers mean something only next to the shared secret; without it a request acts
//! for nobody.

use vstd::prelude::*;
use vstd::string::*;
use vstd::utf8::*;

use crate::ids;
use crate::ids::Uuid;
use crate::text;

verus! {

/// How a user was authenticated.
#[derive(Debug, Clone, Copy, PartialEq, Eq, Structural)]
pub enum AuthMethod {
    /// By a secret that the caller holds.
    ApiKey,
}

/// The user that a request acts for. The identifier is what records are owned by.
#[derive(Debug)]
pub struct AuthenticatedUser {
    pub id: Uuid,
    pub email: String,
    pub is_superuser: bool,
    pub is_verified: bool,
    pub is_active: bool,
    pub tenant_id: Option<Uuid>,
    pub auth_method: AuthMethod,
}

/// Whether the byte may stand in the text of a header: visible ASCII, the space and the tab.
pub open spec fn is_header_text(b: u8) -> bool {
    32 <= b < 127 || b == 9
}

/// The text of a header's value; nothing where a byte of it may not stand there.
pub open spec fn header_text(value: Seq<u8>) -> Option<Seq<char>> {
    if forall|i: int| 0 <= i < value.len() ==> is_header_text(#[trigger] value[i]) {
        Some(Seq::new(value.len(), |i: int| value[i] as char))
    } else {
        None
    }
}

/// The text of a header that may be missing.
pub open spec fn header(value: Option<&[u8]>) -> Option<Seq<char>> {
    match value {
        Some(bytes) => header_text(bytes@),
        None => None,
    }
}

/// The name under which a tenant's agent is known: `t_<tenant>.<agent type>`.
pub open spec fn alias_of(tenant: Seq<char>, agent: Seq<char>) -> Seq<char> {
    "t_"@ + tenant + "."@ + agent
}

/// The alias that a request with these headers acts under. There is one exactly if the secret
/// is the shared one and neither tenant nor agent type is blank.
pub open spec fn claimed_alias(
    shared_secret: Seq<char>,
    secret: Option<Seq<char>>,
    tenant: Option<Seq<char>>,
    agent: Option<Seq<char>>,
) -> Option<Seq<char>> {
    if secret == Some(shared_secret) && tenant is Some && agent is Some && text::trimmed(
        tenant->Some_0,
    ).len() > 0 && text::trimmed(agent->Some_0).len() > 0 {
        Some(alias_of(text::trimmed(tenant->Some_0), text::trimmed(agent->Some_0)))
    } else {
        None
    }
}

/// Whether this is the user known under the alias and this identifier: an ordinary, verified,
/// active user.
pub open spec fn is_user_of(user: AuthenticatedUser, id: u128, alias: Seq<char>) -> bool {
    &&& user.id.value == id
    &&& user.email@ == alias + "@cerveau.internal"@
    &&& !user.is_superuser
    &&& user.is_verified
    &&& user.is_active
    &&& user.tenant_id is None
    &&& user.auth_method == AuthMethod::ApiKey
}

/// The identifier of the user known under the alias.
pub open spec fn user_id(alias: Seq<char>) -> u128 {
    ids::uuid_v5(ids::NAMESPACE_OID, encode_utf8(alias))
}

/// Compares bytes in a time that depends on their number alone: every byte is looked at
/// whether or not an earlier one differs.
pub fn constant_time_eq(a: &[u8], b: &[u8]) -> (same: bool)
    ensures
        same == (a@ == b@),
{
    if a.len() != b.len() {
        return false;
    }
    let mut difference: u8 = 0;
    let mut i: usize = 0;
    assert(a@.take(0) == b@.take(0));
    while i < a.len()
        invariant
            i <= a@.len(),
            a@.len() == b@.len(),
            difference == 0 <==> a@.take(i as int) == b@.take(i as int),
        decreases a@.len() - i,
    {
        let x: u8 = a[i];
        let y: u8 = b[i];
        assert(difference | (x ^ y) == 0 <==> difference == 0 && x == y) by (bit_vector);
        assert(a@.take(i + 1) == a@.take(i as int).push(x));
        assert(b@.take(i + 1) == b@.take(i as int).push(y));
        assert(a@.take(i + 1) == b@.take(i + 1) ==> a@.take(i as int) == b@.take(i as int) && x
            == y) by {
            if a@.take(i + 1) == b@.take(i + 1) {
                assert(a@.take(i + 1)[i as int] == b@.take(i + 1)[i as int]);
                assert(a@.take(i + 1).take(i as int) == a@.take(i as int));
                assert(b@.take(i + 1).take(i as int) == b@.take(i as int));
            }
        }
        difference = difference | (x ^ y);
        i = i + 1;
    }
    assert(a@.take(i as int) == a@);
    assert(b@.take(i as int) == b@);
    difference == 0
}

/// The text of a header's value, where it is text.
pub fn read_header(value: Option<&[u8]>) -> (read: Option<String>)
    ensures
        text::owned_text(read) == header(value),
        read is Some <==> value is Some && forall|i: int|
            0 <= i < value->Some_0@.len() ==> (32 <= #[trigger] value->Some_0@[i] <= 126
                || value->Some_0@[i] == 9),
        read matches Some(held) ==> held@.len() == value->Some_0@.len() && forall|i: int|
            0 <= i < held@.len() ==> #[trigger] held@[i] as u32 == value->Some_0@[i] as u32,
{
    let bytes = match value {
        Some(bytes) => bytes,
        None => {
            return None;
        },
    };
    let mut read = String::new();
    let mut i: usize = 0;
    while i < bytes.len()
        invariant
            value == Some(bytes),
            i <= bytes@.len(),
            read@ == Seq::new(i as nat, |j: int| bytes@[j] as char),
            forall|j: int| 0 <= j < i ==> is_header_text(#[trigger] bytes@[j]),
        decreases bytes@.len() - i,
    {
        let b: u8 = bytes[i];
        if !((32 <= b && b < 127) || b == 9) {
            assert(!is_header_text(bytes@[i as int]));
            return None;
        }
        read.push(b as char);
        assert(read@ == Seq::new((i + 1) as nat, |j: int| bytes@[j] as char));
        i = i + 1;
    }
    Some(read)
}

/// The user known under an alias, once its identifier is derived.
pub fn user_of(id: Uuid, alias: &str) -> (user: AuthenticatedUser)
    ensures
        is_user_of(user, id.value, alias@),
        user.id == id,
        user.email@ == alias@ + "@cerveau.internal"@,
        !user.is_superuser && user.is_verified && user.is_active,
        user.tenant_id is None && user.auth_method == AuthMethod::ApiKey,
{
    let mut email = alias.to_owned();
    email.append("@cerveau.internal");
    AuthenticatedUser {
        id,
        email,
        is_superuser: false,
        is_verified: true,
        is_active: true,
        tenant_id: None,
        auth_method: AuthMethod::ApiKey,
    }
}

/// Finds out who a request acts for by the secret that it shares with its caller and by the
/// tenant and agent type that the caller names.
#[derive(Debug)]
pub struct TenantHeaderResolver {
    pub shared_secret: String,
}

impl TenantHeaderResolver {
    /// The user that a request with these header values acts for; nobody where the secret is
    /// not the shared one, or tenant or agent type are missing, blank or not text.
    pub fn resolve(
        &self,
        secret: Option<&[u8]>,
        tenant_id: Option<&[u8]>,
        agent_type: Option<&[u8]>,
    ) -> (user: Option<AuthenticatedUser>)
        ensures
            match claimed_alias(
                self.shared_secret@,
                header(secret),
                header(tenant_id),
                header(agent_type),
            ) {
                Some(alias) => user is Some && is_user_of(user->Some_0, user_id(alias), alias),
                None => user is None,
            },
            user is Some <==> {
                &&& header(secret) == Some(self.shared_secret@)
                &&& header(tenant_id) matches Some(tenant)
                &&& text::trimmed(tenant).len() > 0
                &&& header(agent_type) matches Some(agent)
                &&& text::trimmed(agent).len() > 0
            },
            user matches Some(u) ==> {
                let alias = "t_"@ + text::trimmed(header(tenant_id)->Some_0) + "."@
                    + text::trimmed(header(agent_type)->Some_0);
                &&& u.email@ == alias + "@cerveau.internal"@
                &&& u.id.value == ids::uuid_v5(
                    0x6ba7_b812_9dad_11d1_80b4_00c0_4fd4_30c8,
                    encode_utf8(alias),
                )
                &&& !u.is_superuser && u.is_verified && u.is_active
                &&& u.tenant_id is None && u.auth_method == AuthMethod::ApiKey
            },
    {
        let secret = match read_header(secret) {
            Some(secret) => secret,
            None => {
                return None;
            },
        };
        proof {
            encode_utf8_decode_utf8(secret@);
            encode_utf8_decode_utf8(self.shared_secret@);
        }
        if !constant_time_eq(secret.as_str().as_bytes(), self.shared_secret.as_str().as_bytes()) {
            return None;
        }
        let tenant_id = match read_header(tenant_id) {
            Some(tenant_id) => tenant_id,
            None => {
                return None;
            },
        };
        let agent_type = match read_header(agent_type) {
            Some(agent_type) => agent_type,
            None => {
                return None;
            },
        };
        let tenant = text::trim(tenant_id.as_str());
        let agent = text::trim(agent_type.as_str());
        if tenant.is_empty() || agent.is_empty() {
            return None;
        }
        let mut alias = "t_".to_owned();
        alias.append(tenant);
        alias.append(".");
        alias.append(agent);
        let id = ids::new_v5(ids::NAMESPACE_OID, alias.as_str().as_bytes());
        Some(user_of(id, alias.as_str()))
    }
}

/// A request without the shared secret acts for nobody, whatever its tenant headers say; and
/// where the shared secret is not blank, neither a missing nor a blank secret is enough.
pub proof fn lemma_no_secret_no_user(
    shared_secret: Seq<char>,
    secret: Option<Seq<char>>,
    tenant: Option<Seq<char>>,
    agent: Option<Seq<char>>,
)
    ensures
        secret != Some(shared_secret) ==> claimed_alias(shared_secret, secret, tenant, agent)
            is None,
        text::trimmed(shared_secret).len() > 0 && (secret is None || text::trimmed(
            secret->Some_0,
        ).len() == 0) ==> claimed_alias(shared_secret, secret, tenant, agent) is None,
{
}

/// Two aliases are the same only for the same tenant and agent type, or where one tenant is
/// the other followed by a dot and the front of the other's agent type.
pub proof fn lemma_aliases_keep_tenants_apart(
    tenant1: Seq<char>,
    agent1: Seq<char>,
    tenant2: Seq<char>,
    agent2: Seq<char>,
)
    requires
        alias_of(tenant1, agent1) == alias_of(tenant2, agent2),
    ensures
        (tenant1 == tenant2 && agent1 == agent2) || (exists|middle: Seq<char>|
            tenant2 == tenant1 + "."@ + middle && agent1 == #[trigger] (middle + "."@ + agent2))
            || (exists|middle: Seq<char>|
            tenant1 == tenant2 + "."@ + middle && agent2 == #[trigger] (middle + "."@ + agent1)),
{
    reveal_strlit("t_");
    reveal_strlit(".");
    let a = alias_of(tenant1, agent1);
    let b = alias_of(tenant2, agent2);
    let n1 = tenant1.len() as int;
    let n2 = tenant2.len() as int;
    assert(a.subrange(2, 2 + n1) == tenant1);
    assert(b.subrange(2, 2 + n2) == tenant2);
    assert(a.skip(3 + n1) == agent1);
    assert(b.skip(3 + n2) == agent2);
    assert(a[2 + n1] == '.');
    assert(b[2 + n2] == '.');
    if n1 < n2 {
        let middle = a.subrange(3 + n1, 2 + n2);
        assert(tenant2 == tenant1 + "."@ + middle);
        assert(agent1 == middle + "."@ + agent2);
    } else if n2 < n1 {
        let middle = a.subrange(3 + n2, 2 + n1);
        assert(tenant1 == tenant2 + "."@ + middle);
        assert(agent2 == middle + "."@ + agent1);
    }
}

/// Tenants without a dot in their names never share an alias.
pub proof fn lemma_dotless_tenants_never_share_an_alias(
    tenant1: Seq<char>,
    agent1: Seq<char>,
    tenant2: Seq<char>,
    agent2: Seq<char>,
)
    requires
        !tenant1.contains('.'),
        !tenant2.contains('.'),
        alias_of(tenant1, agent1) == alias_of(tenant2, agent2),
    ensures
        tenant1 == tenant2,
        agent1 == agent2,
{
    reveal_strlit(".");
    lemma_aliases_keep_tenants_apart(tenant1, agent1, tenant2, agent2);
    if tenant1.len() < tenant2.len() {
        assert(tenant2[tenant1.len() as int] == '.');
    } else if tenant2.len() < tenant1.len() {
        assert(tenant1[tenant2.len() as int] == '.');
    }
}

/// A header is text exactly if it is there and each of its bytes is visible ASCII, a space or a
/// tab, and its text is then its bytes, one character for each.
pub proof fn lemma_header_is_its_bytes(value: Option<&[u8]>)
    ensures
        header(value) is Some <==> value is Some && forall|i: int|
            0 <= i < value->Some_0@.len() ==> (32 <= #[trigger] value->Some_0@[i] <= 126
                || value->Some_0@[i] == 9),
        header(value) matches Some(held) ==> held.len() == value->Some_0@.len() && forall|i: int|
            0 <= i < held.len() ==> #[trigger] held[i] as u32 == value->Some_0@[i] as u32,
{
    if let Some(bytes) = value {
        assert(forall|i: int|
            0 <= i < bytes@.len() ==> is_header_text(#[trigger] bytes@[i]) == (32 <= bytes@[i]
                <= 126 || bytes@[i] == 9));
    }
}

/// The alias is made of the whole tenant and the whole agent type: where the secret is the
/// shared one and neither header is blank, it is `t_`, the tenant header without the white space
/// at its ends, a dot, and the agent header without the white space at its ends. In every other
/// case there is none.
pub proof fn lemma_alias_holds_the_whole_headers(
    shared_secret: Seq<char>,
    secret: Option<Seq<char>>,
    tenant: Option<Seq<char>>,
    agent: Option<Seq<char>>,
)
    ensures
        claimed_alias(shared_secret, secret, tenant, agent) is Some <==> {
            &&& secret == Some(shared_secret)
            &&& tenant matches Some(t)
            &&& text::trimmed(t).len() > 0
            &&& agent matches Some(a)
            &&& text::trimmed(a).len() > 0
        },
        claimed_alias(shared_secret, secret, tenant, agent) matches Some(alias) ==> {
            let t = text::trimmed(tenant->Some_0);
            let a = text::trimmed(agent->Some_0);
            &&& alias == "t_"@ + t + "."@ + a
            &&& alias.len() == 3 + t.len() + a.len()
            &&& alias.subrange(2, 2 + t.len() as int) == t
            &&& alias.skip(3 + t.len() as int) == a
        },
{
    reveal_strlit("t_");
    reveal_strlit(".");
    if let Some(alias) = claimed_alias(shared_secret, secret, tenant, agent) {
        let t = text::trimmed(tenant->Some_0);
        let a = text::trimmed(agent->Some_0);
        assert(alias.subrange(2, 2 + t.len() as int) == t);
        assert(alias.skip(3 + t.len() as int) == a);
    }
}

/// Two requests of different tenants act under different addresses: where both act for
/// somebody, and the tenants that they name, without the white space at their ends, hold no dot
/// and differ, the users that they act for differ in their addresses.
pub proof fn lemma_requests_of_different_tenants_act_apart(
    shared_secret: Seq<char>,
    secret1: Option<&[u8]>,
    tenant1: Option<&[u8]>,
    agent1: Option<&[u8]>,
    user1: AuthenticatedUser,
    secret2: Option<&[u8]>,
    tenant2: Option<&[u8]>,
    agent2: Option<&[u8]>,
    user2: AuthenticatedUser,
)
    requires
        claimed_alias(shared_secret, header(secret1), header(tenant1), header(agent1)) matches Some(
            alias,
        ) && is_user_of(user1, user_id(alias), alias),
        claimed_alias(shared_secret, header(secret2), header(tenant2), header(agent2)) matches Some(
            alias,
        ) && is_user_of(user2, user_id(alias), alias),
        !text::trimmed(header(tenant1)->Some_0).contains('.'),
        !text::trimmed(header(tenant2)->Some_0).contains('.'),
        text::trimmed(header(tenant1)->Some_0) != text::trimmed(header(tenant2)->Some_0),
    ensures
        user1.email@ != user2.email@,
{
    let t1 = text::trimmed(header(tenant1)->Some_0);
    let a1 = text::trimmed(header(agent1)->Some_0);
    let t2 = text::trimmed(header(tenant2)->Some_0);
    let a2 = text::trimmed(header(agent2)->Some_0);
    let alias1 = "t_"@ + t1 + "."@ + a1;
    let alias2 = "t_"@ + t2 + "."@ + a2;
    if user1.email@ == user2.email@ {
        let domain = "@cerveau.internal"@;
        assert(user1.email@.take(user1.email@.len() - domain.len()) == alias1);
        assert(user2.email@.take(user2.email@.len() - domain.len()) == alias2);
        lemma_dotless_tenants_never_share_an_alias(t1, a1, t2, a2);
    }
}

}
