use vstd::prelude::*;
use vstd::string::StringExecFns;

use crate::auth::{self, issued_at, lemma_stored_token_valid, login_matches, token_state, registered, registry_has, token_replaced, upsert, Token, TokenResponse, UserError};
use crate::database::{copy_name, newest_first, recorded, scored, Flight, Inspection, RequestError, User};
use crate::runtime::{qr_svg, qr_svg_of};

verus! {

/// The error a request meets for a token in state `access`, if any.
pub open spec fn access_error(access: TokenResponse) -> Option<RequestError> {
    match access {
        TokenResponse::Valid => None,
        TokenResponse::Invalid => Some(RequestError::Forbidden),
        TokenResponse::Expired => Some(RequestError::Unauthorized),
    }
}

/// Lets a protected request through on a valid token: an unknown token is
/// forbidden, an expired one unauthorized.
pub fn authorize(access: TokenResponse) -> (r: Result<(), RequestError>)
    ensures
        access_error(access) matches Some(e) ==> r == Err::<(), RequestError>(e),
        access_error(access) is None ==> r is Ok,
{
    match access {
        TokenResponse::Valid => Ok(()),
        TokenResponse::Invalid => Err(RequestError::Forbidden),
        TokenResponse::Expired => Err(RequestError::Unauthorized),
    }
}

/// Whether the stored document can be served: it is present and its scores
/// fit their fields.
pub open spec fn readable(stored: Option<User>) -> bool {
    stored matches Some(u) && u.fits()
}

/// Records an inspection on a stored user, given the state of the presented
/// token. Returns the user document to write back: the stored one read as
/// `User::read_from_database` reads it, with the inspection appended.
pub fn add_inspection_to_user(access: TokenResponse, stored: Option<User>, inspection: Inspection) -> (r: Result<User, RequestError>)
    ensures
        access_error(access) matches Some(e) ==> r == Err::<User, RequestError>(e),
        access_error(access) is None && !readable(stored) ==> r == Err::<User, RequestError>(RequestError::NotFound),
        access_error(access) is None && readable(stored) && !inspection.fits()
            ==> r == Err::<User, RequestError>(RequestError::MalformedInput),
        access_error(access) is None && readable(stored) && inspection.fits() ==> r is Ok,
        r matches Ok(v) ==> v.uuid == stored->Some_0.uuid && v.username == stored->Some_0.username
            && v.flight == stored->Some_0.flight && v.dev_user == stored->Some_0.dev_user,
        r matches Ok(v) ==> v.fits() && v.inspections@.len() == stored->Some_0.inspections@.len() + 1,
        r matches Ok(v) ==> newest_first(v.inspections@.drop_last()),
        r matches Ok(v) ==> v.inspections@.drop_last().to_multiset() =~= stored->Some_0.inspections@.map_values(
            |i: Inspection| scored(i),
        ).to_multiset(),
        r matches Ok(v) ==> exists|now: i64| v.inspections@.last() == #[trigger] recorded(inspection, now),
{
    authorize(access)?;
    let mut user = User::read_from_database(stored)?;
    if !inspection.score_fits() {
        return Err(RequestError::MalformedInput);
    }
    let ghost before = user.inspections@;
    let ghost ins = inspection;
    user.push_inspection(inspection);
    proof {
        let now = choose|now: i64| user.inspections@ == before.push(#[trigger] recorded(ins, now));
        assert(user.inspections@.drop_last() =~= before);
        assert(user.inspections@.last() == recorded(ins, now));
        assert forall|k: int| 0 <= k < user.inspections@.len() implies (#[trigger] user.inspections@[k]).fits() by {
            if k < before.len() {
                assert(user.inspections@[k] == before[k]);
            }
        }
    }
    Ok(user)
}

/// Sets the display name of a stored user, which can be done once only.
/// Returns the user document to write back.
pub fn claim_user(stored: Option<User>, name: String) -> (r: Result<User, RequestError>)
    ensures
        !readable(stored) ==> r == Err::<User, RequestError>(RequestError::NotFound),
        readable(stored) && stored->Some_0.username is Some ==> r == Err::<User, RequestError>(RequestError::Conflict),
        readable(stored) && stored->Some_0.username is None ==> r is Ok,
        r matches Ok(v) ==> v.username == Some(name) && v.uuid == stored->Some_0.uuid
            && v.flight == stored->Some_0.flight && v.dev_user == stored->Some_0.dev_user,
        r matches Ok(v) ==> v.fits() && newest_first(v.inspections@)
            && v.inspections@.len() == stored->Some_0.inspections@.len()
            && v.inspections@.to_multiset() =~= stored->Some_0.inspections@.map_values(
            |i: Inspection| scored(i),
        ).to_multiset(),
{
    let mut user = User::read_from_database(stored)?;
    user.claim_username(name)?;
    Ok(user)
}

/// Places a stored user in a flight. Returns the user document to write back.
pub fn set_user_flight(stored: Option<User>, flight: Flight) -> (r: Result<User, RequestError>)
    ensures
        !readable(stored) ==> r == Err::<User, RequestError>(RequestError::NotFound),
        readable(stored) ==> r is Ok,
        r matches Ok(v) ==> v.flight == Some(flight) && v.uuid == stored->Some_0.uuid
            && v.username == stored->Some_0.username && v.dev_user == stored->Some_0.dev_user,
        r matches Ok(v) ==> v.fits() && newest_first(v.inspections@)
            && v.inspections@.len() == stored->Some_0.inspections@.len()
            && v.inspections@.to_multiset() =~= stored->Some_0.inspections@.map_values(
            |i: Inspection| scored(i),
        ).to_multiset(),
{
    let mut user = User::read_from_database(stored)?;
    user.set_flight(flight);
    Ok(user)
}

/// Creates one user per name, all in `flight`, given the state of the
/// presented token. Returns the new user documents, in the order of `names`.
pub fn bulk_new_user(access: TokenResponse, flight: Option<Flight>, names: &Vec<Option<String>>) -> (r: Result<Vec<User>, RequestError>)
    ensures
        access_error(access) matches Some(e) ==> r == Err::<Vec<User>, RequestError>(e),
        access_error(access) is None ==> r is Ok,
        r matches Ok(us) ==> us@.len() == names@.len() && forall|k: int| 0 <= k < us@.len() ==> {
            &&& (#[trigger] us@[k]).username == names@[k]
            &&& us@[k].flight == flight
            &&& us@[k].uuid@.len() == 36
            &&& us@[k].inspections@.len() == 0
        },
{
    authorize(access)?;
    let mut users: Vec<User> = Vec::new();
    let mut i: usize = 0;
    while i < names.len()
        invariant
            i <= names@.len(),
            users@.len() == i,
            forall|k: int| 0 <= k < i ==> {
                &&& (#[trigger] users@[k]).username == names@[k]
                &&& users@[k].flight == flight
                &&& users@[k].uuid@.len() == 36
                &&& users@[k].inspections@.len() == 0
            },
        decreases names@.len() - i,
    {
        let mut user = User::new();
        user.username = copy_name(&names[i]);
        user.flight = flight;
        users.push(user);
        i = i + 1;
    }
    Ok(users)
}

/// The position of the identity that the login matches; of several, the last.
fn find_login(identities: &Vec<auth::User>, username: &str, password: &str) -> (r: Option<usize>)
    ensures
        r is None <==> forall|k: int| 0 <= k < identities@.len() ==> !login_matches(
            #[trigger] identities@[k],
            username@,
            password@,
        ),
        r matches Some(f) ==> f < identities@.len() && login_matches(identities@[f as int], username@, password@)
            && forall|j: int| f < j < identities@.len() ==> !login_matches(#[trigger] identities@[j], username@, password@),
{
    let mut found: Option<usize> = None;
    let mut i: usize = 0;
    while i < identities.len()
        invariant
            i <= identities@.len(),
            found is None ==> forall|k: int| 0 <= k < i ==> !login_matches(#[trigger] identities@[k], username@, password@),
            found matches Some(f) ==> f < i && login_matches(identities@[f as int], username@, password@)
                && forall|j: int| f < j < i ==> !login_matches(#[trigger] identities@[j], username@, password@),
        decreases identities@.len() - i,
    {
        if identities[i].password_matches(username, password) {
            found = Some(i);
        }
        i = i + 1;
    }
    found
}

/// `after` is `before` once the login `name` / `password` has been served
/// token `t`: `t` belongs to the last identity the login matches, and that
/// identity, with `t` as its one live token, was stored back.
pub open spec fn logged_in(before: Seq<auth::User>, after: Seq<auth::User>, name: Seq<char>, password: Seq<char>, t: Token) -> bool {
    exists|k: int, v: auth::User| {
        &&& 0 <= k < before.len()
        &&& login_matches(before[k], name, password)
        &&& forall|j: int| k < j < before.len() ==> !login_matches(#[trigger] before[j], name, password)
        &&& #[trigger] token_replaced(v, before[k], t)
        &&& t.uuid == before[k].uuid
        &&& after == upsert(before, v)
    }
}

/// Token `t` was issued a day before it expires, and checks valid against
/// `ids` at the time it was issued.
pub open spec fn valid_when_issued(t: Token, ids: Seq<auth::User>) -> bool {
    exists|now: i64| #[trigger] issued_at(t, now) && token_state(t, ids, now as int) == TokenResponse::Valid
}

/// Logs in: when the login matches an identity (of several, the last), a
/// fresh token replaces its earlier one, the identity is stored back among
/// `identities`, and the token is returned.
pub fn login(identities: &mut Vec<auth::User>, username: &str, password: &str) -> (r: Option<Token>)
    ensures
        r is None <==> forall|k: int| 0 <= k < old(identities)@.len() ==> !login_matches(
            #[trigger] old(identities)@[k],
            username@,
            password@,
        ),
        r is None ==> final(identities)@ == old(identities)@,
        r matches Some(t) ==> logged_in(old(identities)@, final(identities)@, username@, password@, t),
        r matches Some(t) ==> valid_when_issued(t, final(identities)@),
{
    match find_login(identities, username, password) {
        None => None,
        Some(p) => {
            let ghost before = identities@;
            let found = &identities[p];
            let mut v = auth::User {
                uuid: found.uuid.clone(),
                username: found.username.clone(),
                password_hash: found.password_hash,
                salt: found.salt,
                tokens: Vec::new(),
            };
            v.accosiate_token();
            let t = v.tokens[0].duplicate();
            let ghost vv = v;
            v.push_to_disk(identities);
            assert(logged_in(before, identities@, username@, password@, t)) by {
                assert(token_replaced(vv, before[p as int], t));
            }
            proof {
                let now = choose|now: i64| #[trigger] issued_at(t, now);
                lemma_stored_token_valid(before, vv, t, now as int);
                assert(identities@ == upsert(before, vv));
                assert(issued_at(t, now) && token_state(t, identities@, now as int) == TokenResponse::Valid);
                assert(valid_when_issued(t, identities@));
            }
            Some(t)
        },
    }
}

/// Registers a new identity and stores it among `identities`; the refusals
/// are those of `auth::User::new`, and leave everything as it was.
pub fn signup(identities: &mut Vec<auth::User>, usernames: &mut String, username: String, password: String) -> (r: Result<(), UserError>)
    ensures
        registry_has(old(usernames)@, username@) ==> r == Err::<(), UserError>(UserError::UsernameDuplicate),
        !registry_has(old(usernames)@, username@) && !(0 < vstd::utf8::encode_utf8(password@).len() <= 72)
            ==> r == Err::<(), UserError>(UserError::PasswordLength),
        r is Err ==> final(usernames)@ == old(usernames)@ && final(identities)@ == old(identities)@,
        !registry_has(old(usernames)@, username@) && 0 < vstd::utf8::encode_utf8(password@).len() <= 72 ==> r is Ok,
        r is Ok ==> final(usernames)@ == old(usernames)@ + seq![','] + username@ && exists|u: auth::User|
            registered(u, username@, password@) && final(identities)@ == upsert(old(identities)@, u),
{
    let ghost name = username@;
    let ghost pw = password@;
    let user = auth::User::new(username, password, usernames)?;
    let ghost u = user;
    user.push_to_disk(identities);
    assert(registered(u, name, pw));
    Ok(())
}

/// The address a user's QR code points to.
pub fn user_link(user_id: &str) -> (r: String)
    ensures
        r@ == "https://uniform.952aircadets.ca/u/"@ + user_id@,
{
    let link = String::from_str("https://uniform.952aircadets.ca/u/");
    link.concat(user_id)
}

/// The SVG QR code of a user's address, for a user that exists.
pub fn get_qrcode_for_user(user_found: bool, user_id: &str) -> (r: Result<String, RequestError>)
    ensures
        !user_found ==> r == Err::<String, RequestError>(RequestError::NotFound),
        user_found ==> (r is Ok || r == Err::<String, RequestError>(RequestError::MalformedInput)),
        r matches Ok(svg) ==> svg@ == qr_svg_of("https://uniform.952aircadets.ca/u/"@ + user_id@),
{
    if !user_found {
        return Err(RequestError::NotFound);
    }
    let link = user_link(user_id);
    match qr_svg(link.as_str()) {
        Some(svg) => Ok(svg),
        None => Err(RequestError::MalformedInput),
    }
}

} // verus!
