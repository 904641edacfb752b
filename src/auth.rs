use vstd::prelude::*;
use vstd::string::{StrSliceExecFns, StringExecFns};
use vstd::utf8::encode_utf8;

use crate::runtime::{bcrypt_hash, bcrypt_of, new_identifier, now_timestamp};

verus! {

/// How long a token stays valid after it is issued, in seconds.
pub const TOKEN_LIFETIME: i64 = 86_400;

/// The outcome of checking a presented token.
#[derive(Clone, Copy, Debug, PartialEq, Eq, Structural)]
pub enum TokenResponse {
    /// The token is the one stored on its identity and has not expired.
    Valid,
    /// No identity holds this token.
    Invalid,
    /// The token is the stored one, but its expiry has passed.
    Expired,
}

/// A bearer credential issued at login, bound to one identity.
#[derive(Clone, Debug)]
pub struct Token {
    pub uuid: String,
    pub token: [u8; 32],
    pub expirery: i64,
}

/// A credential record: a unique username, its salted password hash and the
/// token issued at the last login.
#[derive(Clone, Debug)]
pub struct User {
    pub uuid: String,
    pub username: String,
    pub password_hash: [u8; 24],
    pub salt: [u8; 16],
    pub tokens: Vec<Token>,
}

/// Why a registration was refused.
#[derive(Clone, Copy, Debug, PartialEq, Eq, Structural)]
pub enum UserError {
    /// The username is already in the registry.
    UsernameDuplicate,
    /// The password is empty or longer than the 72 bytes the hash takes.
    PasswordLength,
}

/// Token `t` was issued at time `now`: it expires a day later.
pub open spec fn issued_at(t: Token, now: i64) -> bool {
    t.expirery == now + TOKEN_LIFETIME
}

/// Two tokens are the same: same owner, same bytes, same expiry.
pub open spec fn same_token(a: Token, b: Token) -> bool {
    &&& a.uuid@ == b.uuid@
    &&& a.token@ == b.token@
    &&& a.expirery == b.expirery
}

/// Some token of the list is the same as `t`.
pub open spec fn holds_token(ts: Seq<Token>, t: Token) -> bool {
    exists|k: int| 0 <= k < ts.len() && same_token(#[trigger] ts[k], t)
}

/// The position of the first identity with identifier `id`, if any.
pub open spec fn first_with_uuid(ids: Seq<User>, id: Seq<char>) -> Option<int>
    decreases ids.len(),
{
    if ids.len() == 0 {
        None
    } else {
        match first_with_uuid(ids.drop_last(), id) {
            Some(p) => Some(p),
            None => if ids.last().uuid@ == id { Some(ids.len() - 1) } else { None },
        }
    }
}

/// What checking token `t` at time `now` against the identities gives.
pub open spec fn token_state(t: Token, ids: Seq<User>, now: int) -> TokenResponse {
    match first_with_uuid(ids, t.uuid@) {
        None => TokenResponse::Invalid,
        Some(p) => if !holds_token(ids[p].tokens@, t) {
            TokenResponse::Invalid
        } else if now <= t.expirery {
            TokenResponse::Valid
        } else {
            TokenResponse::Expired
        },
    }
}

/// The identities after storing `u`: it replaces the first record with its
/// identifier, or is appended when there is none.
pub open spec fn upsert(ids: Seq<User>, u: User) -> Seq<User> {
    match first_with_uuid(ids, u.uuid@) {
        Some(p) => ids.update(p, u),
        None => ids.push(u),
    }
}

/// `after` is identity `before` with `t` as its one live token.
pub open spec fn token_replaced(after: User, before: User, t: Token) -> bool {
    &&& after.uuid == before.uuid
    &&& after.username == before.username
    &&& after.password_hash == before.password_hash
    &&& after.salt == before.salt
    &&& after.tokens@ == seq![t]
}

/// The login `name` / `password` matches identity `u`: the names are equal,
/// the password's UTF-8 encoding is 1 to 72 bytes long (what the hash takes),
/// and it hashes with the identity's salt to its stored hash.
pub open spec fn login_matches(u: User, name: Seq<char>, password: Seq<char>) -> bool {
    &&& u.username@ == name
    &&& 0 < encode_utf8(password).len() <= 72
    &&& u.password_hash@ == bcrypt_of(u.salt@, encode_utf8(password))
}

/// How many identities the login matches.
pub open spec fn count_matches(ids: Seq<User>, name: Seq<char>, password: Seq<char>) -> nat
    decreases ids.len(),
{
    if ids.len() == 0 {
        0
    } else {
        count_matches(ids.drop_last(), name, password) + if login_matches(ids.last(), name, password) {
            1nat
        } else {
            0nat
        }
    }
}

/// `reg[a..c]` is one field of the comma-separated registry `reg`.
pub open spec fn is_field(reg: Seq<char>, a: int, c: int) -> bool {
    &&& 0 <= a <= c <= reg.len()
    &&& (a == 0 || reg[a - 1] == ',')
    &&& (c == reg.len() || reg[c] == ',')
    &&& forall|k: int| a <= k < c ==> reg[k] != ','
}

/// The comma-separated registry `reg` has `name` as one of its fields.
pub open spec fn registry_has(reg: Seq<char>, name: Seq<char>) -> bool {
    exists|a: int, c: int| is_field(reg, a, c) && #[trigger] reg.subrange(a, c) == name
}

/// Whether `registry`, a comma-separated list of usernames, holds `username`.
pub fn username_taken(registry: &str, username: &str) -> (r: bool)
    ensures
        r == registry_has(registry@, username@),
{
    let ghost reg = registry@;
    let len = registry.unicode_len();
    let name_len = username.unicode_len();
    let mut start: usize = 0;
    loop
        invariant
            len as int == reg.len(),
            name_len as int == username@.len(),
            reg == registry@,
            start <= len,
            start == 0 || reg[start - 1] == ',',
            forall|a: int, c: int| is_field(reg, a, c) && a < start ==> #[trigger] reg.subrange(a, c)
                != username@,
        decreases len - start,
    {
        let mut end: usize = start;
        while end < len && registry.get_char(end) != ','
            invariant
                len as int == reg.len(),
                reg == registry@,
                start <= end <= len,
                forall|k: int| start <= k < end ==> reg[k] != ',',
            decreases len - end,
        {
            end = end + 1;
        }
        let mut same = end - start == name_len;
        let mut k: usize = 0;
        while same && k < name_len
            invariant
                len as int == reg.len(),
                reg == registry@,
                name_len as int == username@.len(),
                start <= end <= len,
                k <= name_len,
                same ==> end - start == name_len,
                same ==> forall|j: int| 0 <= j < k ==> reg[start + j] == username@[j],
                !same ==> reg.subrange(start as int, end as int) != username@,
            decreases name_len - k,
        {
            if registry.get_char(start + k) != username.get_char(k) {
                same = false;
                proof {
                    assert(reg.subrange(start as int, end as int)[k as int] != username@[k as int]);
                }
            }
            k = k + 1;
        }
        if same {
            proof {
                assert(reg.subrange(start as int, end as int) =~= username@);
            }
            return true;
        }
        proof {
            assert forall|a: int, c: int| is_field(reg, a, c) && a < end + 1 implies #[trigger] reg.subrange(a, c)
                != username@ by {
                if a == start {
                    if c < end {
                        assert(reg[c] == ',');
                    } else if c > end {
                        assert(reg[end as int] == ',');
                    }
                } else if a > start {
                    assert(reg[a - 1] == ',');
                }
            }
        }
        if end == len {
            proof {
                assert forall|a: int, c: int| is_field(reg, a, c) implies #[trigger] reg.subrange(a, c)
                    != username@ by {
                    if a >= end + 1 {
                    }
                }
            }
            return false;
        }
        start = end + 1;
    }
}

/// Whether two byte sequences are equal.
fn bytes_equal(a: &[u8], b: &[u8]) -> (r: bool)
    ensures
        r == (a@ == b@),
{
    if a.len() != b.len() {
        return false;
    }
    let mut i: usize = 0;
    while i < a.len()
        invariant
            a@.len() == b@.len(),
            i <= a@.len(),
            forall|k: int| 0 <= k < i ==> a@[k] == b@[k],
        decreases a@.len() - i,
    {
        if a[i] != b[i] {
            return false;
        }
        i = i + 1;
    }
    proof {
        assert(a@ =~= b@);
    }
    true
}

/// Whether two strings hold the same characters.
fn str_equal(a: &str, b: &str) -> (r: bool)
    ensures
        r == (a@ == b@),
{
    let n = a.unicode_len();
    if n != b.unicode_len() {
        return false;
    }
    let mut i: usize = 0;
    while i < n
        invariant
            n as int == a@.len(),
            a@.len() == b@.len(),
            i <= n,
            forall|k: int| 0 <= k < i ==> a@[k] == b@[k],
        decreases n - i,
    {
        if a.get_char(i) != b.get_char(i) {
            return false;
        }
        i = i + 1;
    }
    proof {
        assert(a@ =~= b@);
    }
    true
}

impl Token {
    /// A token for identity `uuid` with the given bytes, issued at time `now`.
    pub fn issued(uuid: String, token: [u8; 32], now: i64) -> (r: Token)
        requires
            now <= i64::MAX - TOKEN_LIFETIME,
        ensures
            r.uuid == uuid,
            r.token == token,
            r.expirery == now + TOKEN_LIFETIME,
    {
        Token { uuid, token, expirery: now + TOKEN_LIFETIME }
    }

    /// A fresh token for identity `uuid`: 32 random bytes, expiring a day
    /// from now.
    pub fn new(uuid: String) -> (r: Token)
        ensures
            r.uuid == uuid,
            exists|now: i64| #[trigger] issued_at(r, now),
    {
        let token: [u8; 32] = rand::random();
        let now = now_timestamp();
        if now <= i64::MAX - TOKEN_LIFETIME {
            let r = Token::issued(uuid, token, now);
            assert(issued_at(r, now));
            r
        } else {
            let r = Token { uuid, token, expirery: i64::MAX };
            assert(issued_at(r, (i64::MAX - TOKEN_LIFETIME) as i64));
            r
        }
    }

    /// A copy of this token.
    pub fn duplicate(&self) -> (r: Token)
        ensures
            r == *self,
    {
        Token { uuid: self.uuid.clone(), token: self.token, expirery: self.expirery }
    }

    /// Whether `other` is the same token as this one.
    pub fn same_as(&self, other: &Token) -> (r: bool)
        ensures
            r == same_token(*self, *other),
    {
        self.uuid == other.uuid && self.expirery == other.expirery && bytes_equal(
            self.token.as_slice(),
            other.token.as_slice(),
        )
    }

    /// Checks this token at time `now` against the stored identities:
    /// `Invalid` when no identity has its owner's identifier or the first
    /// such identity does not hold it, `Expired` when it is held but `now`
    /// is past its expiry, `Valid` otherwise.
    pub fn check_token_at(&self, identities: &Vec<User>, now: i64) -> (r: TokenResponse)
        ensures
            r == token_state(*self, identities@, now as int),
    {
        match find_by_uuid(identities, &self.uuid) {
            None => TokenResponse::Invalid,
            Some(p) => {
                let tokens = &identities[p].tokens;
                let mut present = false;
                let mut k: usize = 0;
                while k < tokens.len()
                    invariant
                        k <= tokens@.len(),
                        present == exists|j: int| 0 <= j < k && same_token(#[trigger] tokens@[j], *self),
                    decreases tokens@.len() - k,
                {
                    if tokens[k].same_as(self) {
                        present = true;
                    }
                    k = k + 1;
                }
                assert(present == holds_token(identities@[p as int].tokens@, *self));
                if !present {
                    TokenResponse::Invalid
                } else if now <= self.expirery {
                    TokenResponse::Valid
                } else {
                    TokenResponse::Expired
                }
            },
        }
    }

    /// Checks this token against the stored identities at the current time.
    pub fn check_token_validy(&self, identities: &Vec<User>) -> (r: TokenResponse)
        ensures
            exists|now: i64| r == token_state(*self, identities@, now as int),
    {
        let now = now_timestamp();
        self.check_token_at(identities, now)
    }
}

/// The position of the first identity with identifier `id`, if any.
fn find_by_uuid(identities: &Vec<User>, id: &String) -> (r: Option<usize>)
    ensures
        match first_with_uuid(identities@, id@) {
            Some(p) => r is Some && r->Some_0 as int == p && p < identities@.len(),
            None => r is None,
        },
{
    let ghost ids = identities@;
    let mut i: usize = 0;
    while i < identities.len()
        invariant
            i <= ids.len(),
            ids == identities@,
            first_with_uuid(ids.take(i as int), id@) is None,
        decreases ids.len() - i,
    {
        proof {
            assert(ids.take(i + 1).drop_last() =~= ids.take(i as int));
        }
        if identities[i].uuid == *id {
            proof {
                lemma_first_with_uuid_prefix(ids, i + 1, id@);
            }
            return Some(i);
        }
        i = i + 1;
    }
    proof {
        assert(ids.take(i as int) =~= ids);
    }
    None
}

/// Where a prefix already has a record with identifier `id`, the whole list
/// has its first one at the same place.
proof fn lemma_first_with_uuid_prefix(ids: Seq<User>, n: int, id: Seq<char>)
    requires
        0 <= n <= ids.len(),
        first_with_uuid(ids.take(n), id) is Some,
    ensures
        first_with_uuid(ids, id) == first_with_uuid(ids.take(n), id),
        0 <= first_with_uuid(ids, id)->Some_0 < n,
    decreases ids.len() - n,
{
    lemma_first_with_uuid_range(ids.take(n), id);
    if n < ids.len() {
        assert(ids.take(n + 1).drop_last() =~= ids.take(n));
        lemma_first_with_uuid_prefix(ids, n + 1, id);
    } else {
        assert(ids.take(n) =~= ids);
    }
}

/// The first record with identifier `id` lies in the list and has it.
proof fn lemma_first_with_uuid_range(ids: Seq<User>, id: Seq<char>)
    ensures
        first_with_uuid(ids, id) matches Some(p) ==> 0 <= p < ids.len() && ids[p].uuid@ == id,
        first_with_uuid(ids, id) is None ==> forall|k: int| 0 <= k < ids.len() ==> (#[trigger] ids[k]).uuid@ != id,
    decreases ids.len(),
{
    if ids.len() > 0 {
        let d = ids.drop_last();
        lemma_first_with_uuid_range(d, id);
        assert forall|k: int| 0 <= k < d.len() implies #[trigger] ids[k] == d[k] by {}
    }
}

impl User {
    /// Makes `token` the one live token of this identity; any earlier token
    /// stops being valid.
    pub fn set_token(&mut self, token: Token)
        ensures
            token_replaced(*final(self), *old(self), token),
    {
        self.tokens = Vec::new();
        self.tokens.push(token);
        assert(self.tokens@ =~= seq![token]);
    }

    /// Issues a fresh token to this identity, replacing any earlier one.
    pub fn accosiate_token(&mut self)
        ensures
            final(self).tokens@.len() == 1,
            final(self).tokens@[0].uuid == old(self).uuid,
            exists|now: i64| #[trigger] issued_at(final(self).tokens@[0], now),
            token_replaced(*final(self), *old(self), final(self).tokens@[0]),
    {
        let token = Token::new(self.uuid.clone());
        self.set_token(token);
    }

    /// Stores this identity among `identities`: it replaces the first record
    /// with the same identifier, or is appended when there is none.
    pub fn push_to_disk(self, identities: &mut Vec<User>)
        ensures
            final(identities)@ == upsert(old(identities)@, self),
    {
        match find_by_uuid(identities, &self.uuid) {
            Some(p) => {
                identities[p] = self;
            },
            None => {
                identities.push(self);
            },
        }
    }

    /// Whether this identity has username `username` and stored hash `hash`.
    pub fn credentials_match(&self, username: &str, hash: &[u8]) -> (r: bool)
        ensures
            r == (self.username@ == username@ && self.password_hash@ == hash@),
    {
        let same_name = str_equal(self.username.as_str(), username);
        same_name && bytes_equal(self.password_hash.as_slice(), hash)
    }

    /// Whether the login `username` / `password` matches this identity: the
    /// username is equal, and hashing the password with this identity's salt
    /// gives its stored hash. A password the hash cannot take never matches.
    pub fn password_matches(&self, username: &str, password: &str) -> (r: bool)
        ensures
            r == login_matches(*self, username@, password@),
    {
        let same_name = str_equal(self.username.as_str(), username);
        if !same_name {
            return false;
        }
        let bytes = password.as_bytes_vec();
        if bytes.len() == 0 || bytes.len() > 72 {
            return false;
        }
        let hash = bcrypt_hash(&self.salt, bytes.as_slice());
        self.credentials_match(username, hash.as_slice())
    }

    /// The identity that the login matches; of several, the last.
    pub fn get_user(identities: Vec<User>, username: &str, password: &str) -> (r: Option<User>)
        ensures
            r is None <==> forall|k: int| 0 <= k < identities@.len() ==> !login_matches(
                #[trigger] identities@[k],
                username@,
                password@,
            ),
            r matches Some(u) ==> exists|k: int| 0 <= k < identities@.len() && u == identities@[k]
                && login_matches(identities@[k], username@, password@)
                && forall|j: int| k < j < identities@.len() ==> !login_matches(
                    #[trigger] identities@[j],
                    username@,
                    password@,
                ),
    {
        let mut identities = identities;
        let ghost ids = identities@;
        let mut found: Option<usize> = None;
        let mut i: usize = 0;
        while i < identities.len()
            invariant
                ids == identities@,
                i <= ids.len(),
                found is None ==> forall|k: int| 0 <= k < i ==> !login_matches(
                    #[trigger] ids[k],
                    username@,
                    password@,
                ),
                found matches Some(f) ==> f < i && login_matches(ids[f as int], username@, password@)
                    && forall|j: int| f < j < i ==> !login_matches(
                    #[trigger] ids[j],
                    username@,
                    password@,
                ),
            decreases ids.len() - i,
        {
            if identities[i].password_matches(username, password) {
                found = Some(i);
            }
            i = i + 1;
        }
        match found {
            Some(f) => Some(identities.remove(f)),
            None => None,
        }
    }

    /// Whether the login matches exactly one identity.
    pub fn authenticate_user(identities: &Vec<User>, username: &str, password: &str) -> (r: bool)
        ensures
            r == (count_matches(identities@, username@, password@) == 1),
    {
        let ghost ids = identities@;
        let mut count: usize = 0;
        let mut i: usize = 0;
        while i < identities.len()
            invariant
                ids == identities@,
                i <= ids.len(),
                count as nat == count_matches(ids.take(i as int), username@, password@),
                count <= i,
            decreases ids.len() - i,
        {
            proof {
                assert(ids.take(i + 1).drop_last() =~= ids.take(i as int));
            }
            if identities[i].password_matches(username, password) {
                count = count + 1;
            }
            i = i + 1;
        }
        proof {
            assert(ids.take(i as int) =~= ids);
        }
        count == 1
    }
}

/// An identity registered under `username` with `password`: a fresh
/// identifier, no token, and a hash that the same login matches.
pub open spec fn registered(u: User, username: Seq<char>, password: Seq<char>) -> bool {
    &&& u.username@ == username
    &&& u.uuid@.len() == 36
    &&& u.tokens@.len() == 0
    &&& login_matches(u, username, password)
}

impl User {
    /// Registers a new identity. A username already in the comma-separated
    /// registry `usernames` is refused, as is a password the hash cannot take
    /// (empty, or over 72 bytes); the registry is then left as it is.
    /// Otherwise the username is appended to the registry, and the identity
    /// gets a fresh identifier and a random salt.
    pub fn new(username: String, password: String, usernames: &mut String) -> (r: Result<User, UserError>)
        ensures
            registry_has(old(usernames)@, username@) ==> r == Err::<User, UserError>(UserError::UsernameDuplicate),
            !registry_has(old(usernames)@, username@) && !(0 < encode_utf8(password@).len() <= 72)
                ==> r == Err::<User, UserError>(UserError::PasswordLength),
            r is Err ==> final(usernames)@ == old(usernames)@,
            !registry_has(old(usernames)@, username@) && 0 < encode_utf8(password@).len() <= 72 ==> r is Ok,
            r matches Ok(u) ==> registered(u, username@, password@)
                && final(usernames)@ == old(usernames)@ + seq![','] + username@,
    {
        if username_taken(usernames.as_str(), username.as_str()) {
            return Err(UserError::UsernameDuplicate);
        }
        let bytes = password.as_str().as_bytes_vec();
        if bytes.len() == 0 || bytes.len() > 72 {
            return Err(UserError::PasswordLength);
        }
        let salt: [u8; 16] = rand::random();
        let password_hash = bcrypt_hash(&salt, bytes.as_slice());
        let separator = ",";
        proof {
            reveal_strlit(",");
        }
        usernames.append(separator);
        usernames.append(username.as_str());
        Ok(User { uuid: new_identifier(), username, password_hash, salt, tokens: Vec::new() })
    }
}

/// After a username without a comma is appended to the registry, the
/// registry has it: registering the same username again is refused.
pub proof fn lemma_registered_name_is_taken(reg: Seq<char>, name: Seq<char>)
    requires
        !name.contains(','),
    ensures
        registry_has(reg + seq![','] + name, name),
{
    let full = reg + seq![','] + name;
    let a = reg.len() + 1;
    assert(full.subrange(a as int, full.len() as int) =~= name);
    assert forall|k: int| a <= k < full.len() implies full[k] != ',' by {
        assert(full[k] == name[k - a]);
    }
    assert(is_field(full, a as int, full.len() as int));
}

/// Replacing the first record with `v`'s identifier (or appending `v`) leaves
/// `v` as the first record with that identifier.
proof fn lemma_upsert_finds_record(ids: Seq<User>, v: User)
    ensures
        first_with_uuid(upsert(ids, v), v.uuid@) matches Some(p) && 0 <= p < upsert(ids, v).len()
            && upsert(ids, v)[p] == v,
{
    match first_with_uuid(ids, v.uuid@) {
        Some(p) => {
            lemma_first_with_uuid_range(ids, v.uuid@);
            lemma_first_with_uuid_update(ids, p, v);
        },
        None => {
            assert(ids.push(v).drop_last() =~= ids);
        },
    }
}

/// Overwriting the first record with identifier `id` by another record with
/// that identifier keeps it the first.
proof fn lemma_first_with_uuid_update(ids: Seq<User>, p: int, v: User)
    requires
        first_with_uuid(ids, v.uuid@) == Some(p),
        0 <= p < ids.len(),
    ensures
        first_with_uuid(ids.update(p, v), v.uuid@) == Some(p),
    decreases ids.len(),
{
    let u = ids.update(p, v);
    let d = ids.drop_last();
    if p == ids.len() - 1 {
        assert(u.drop_last() =~= d);
    } else {
        assert(u.drop_last() =~= d.update(p, v));
        lemma_first_with_uuid_range(d, v.uuid@);
        lemma_first_with_uuid_update(d, p, v);
    }
}

/// A token stored as the one live token of its own identity checks valid
/// at any time up to its expiry.
pub proof fn lemma_stored_token_valid(ids: Seq<User>, v: User, t: Token, now: int)
    requires
        v.tokens@ == seq![t],
        t.uuid@ == v.uuid@,
        now <= t.expirery,
    ensures
        token_state(t, upsert(ids, v), now) == TokenResponse::Valid,
{
    lemma_upsert_finds_record(ids, v);
    let p = first_with_uuid(upsert(ids, v), v.uuid@)->Some_0;
    assert(upsert(ids, v)[p].tokens@[0] == t);
}

/// A token issued to an identity and stored with it is valid until its
/// expiry and expired after it; once a different token is issued to the same
/// identity and stored, the first one is invalid.
pub proof fn lemma_token_lifecycle(
    ids: Seq<User>,
    u: User,
    first: User,
    t: Token,
    second: User,
    t2: Token,
    now: int,
    later: int,
)
    requires
        t.uuid@ == u.uuid@,
        t.expirery == now + TOKEN_LIFETIME,
        token_replaced(first, u, t),
        token_replaced(second, first, t2),
        !same_token(t2, t),
        later > now + TOKEN_LIFETIME,
    ensures
        token_state(t, upsert(ids, first), now) == TokenResponse::Valid,
        token_state(t, upsert(ids, first), later) == TokenResponse::Expired,
        token_state(t, upsert(upsert(ids, first), second), now) == TokenResponse::Invalid,
{
    lemma_upsert_finds_record(ids, first);
    let p = first_with_uuid(upsert(ids, first), first.uuid@)->Some_0;
    assert(upsert(ids, first)[p].tokens@[0] == t);
    lemma_upsert_finds_record(upsert(ids, first), second);
    let q = first_with_uuid(upsert(upsert(ids, first), second), second.uuid@)->Some_0;
    let ts = upsert(upsert(ids, first), second)[q].tokens@;
    assert(ts == seq![t2]);
    assert(!holds_token(ts, t)) by {
        if holds_token(ts, t) {
            let k = choose|k: int| 0 <= k < ts.len() && same_token(#[trigger] ts[k], t);
            assert(ts[k] == t2);
        }
    }
}

} // verus!
