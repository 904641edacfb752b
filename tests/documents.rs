use uuis::api::{add_inspection_to_user, bulk_new_user, claim_user, set_user_flight};
use uuis::auth::TokenResponse;
use uuis::database::{
    index_users, Criteria, CriteriaPassFail, Flight, FlightIndexItem, Inspection, InspectionScore,
    RequestError, User,
};

fn check(state: Option<bool>) -> Criteria {
    Criteria::PassFail(CriteriaPassFail {
        category_name: "Dress".to_string(),
        description: "Beret".to_string(),
        state,
    })
}

fn dated(name: &str, date: Option<i64>, criteria: Vec<Criteria>) -> Inspection {
    Inspection { name: name.to_string(), criteria, date, out_of: None, score: None }
}

fn user(id: &str, inspections: Vec<Inspection>) -> User {
    User {
        username: None,
        uuid: id.to_string(),
        inspections,
        flight: None,
        dev_user: false,
    }
}

#[test]
fn new_user_is_blank_with_fresh_identifier() {
    let a = User::new();
    let b = User::new();
    assert_eq!(a.uuid.len(), 36);
    assert_ne!(a.uuid, b.uuid);
    assert!(a.username.is_none() && a.flight.is_none() && a.inspections.is_empty());
    assert!(!a.dev_user);
}

#[test]
fn read_missing_document_is_not_found() {
    assert_eq!(User::read_from_database(None).unwrap_err(), RequestError::NotFound);
}

#[test]
fn read_sorts_newest_first_and_rescores() {
    let mut stored = user(
        "u-1",
        vec![
            dated("old", Some(100), vec![check(Some(true))]),
            dated("undated", None, vec![check(None)]),
            dated("new", Some(300), vec![check(Some(true)), check(Some(true))]),
            dated("mid", Some(200), vec![]),
        ],
    );
    stored.username = Some("Bob".to_string());
    stored.flight = Some(Flight::Spear);
    stored.inspections[0].score = Some(42);
    let read = User::read_from_database(Some(stored)).unwrap();
    assert_eq!(read.uuid, "u-1");
    assert_eq!(read.username, Some("Bob".to_string()));
    assert_eq!(read.flight, Some(Flight::Spear));
    let names: Vec<&str> = read.inspections.iter().map(|i| i.name.as_str()).collect();
    assert_eq!(names, vec!["new", "mid", "old", "undated"]);
    let scores: Vec<(Option<u16>, Option<u16>)> =
        read.inspections.iter().map(|i| (i.score, i.out_of)).collect();
    assert_eq!(scores, vec![(Some(2), Some(2)), (Some(0), Some(0)), (Some(1), Some(1)), (Some(0), Some(1))]);
}

#[test]
fn read_document_with_oversized_scores_is_not_found() {
    let big = Criteria::Graded(uuis::database::CriteriaGraded {
        category_name: "x".to_string(),
        description: vec!["d".to_string(); 70_000],
        state: None,
    });
    let stored = user("u-2", vec![dated("huge", Some(1), vec![big])]);
    assert!(!stored.scores_fit());
    assert_eq!(User::read_from_database(Some(stored)).unwrap_err(), RequestError::NotFound);
}

#[test]
fn push_inspection_at_dates_and_scores() {
    let mut u = user("u-3", vec![]);
    u.push_inspection_at(dated("a", None, vec![check(Some(true))]), 5_000);
    u.push_inspection_at(dated("b", Some(10), vec![check(Some(false))]), 5_000);
    assert_eq!(u.inspections[0].date, Some(5_000));
    assert_eq!(u.inspections[0].score, Some(1));
    assert_eq!(u.inspections[1].date, Some(10));
    assert_eq!(u.inspections[1].out_of, Some(1));
    assert_eq!(u.inspections[1].score, Some(0));
}

#[test]
fn push_inspection_fills_missing_date() {
    let mut u = user("u-4", vec![]);
    u.push_inspection(dated("a", None, vec![check(Some(true))]));
    assert!(u.inspections[0].date.is_some());
    assert_eq!(u.inspections[0].score, Some(1));
}

#[test]
fn latest_inspection_is_the_most_recent() {
    let u = user(
        "u-5",
        vec![
            dated("b", Some(200), vec![check(Some(true))]),
            dated("a", Some(100), vec![check(None)]),
            dated("c", None, vec![]),
        ],
    );
    assert_eq!(u.get_latest_inspection_date(), Some(200));
    assert_eq!(u.get_latest_inspection_score(), Some(InspectionScore { score: 1, out_of: 1 }));
    let empty = user("u-6", vec![]);
    assert_eq!(empty.get_latest_inspection_date(), None);
    assert_eq!(empty.get_latest_inspection_score(), None);
}

#[test]
fn index_row_summarises_user() {
    let mut u = user("u-7", vec![dated("a", Some(7), vec![check(Some(true)), check(None)])]);
    u.username = Some("Ann".to_string());
    u.flight = Some(Flight::Hill);
    let row = FlightIndexItem::from(&u);
    assert_eq!(row.user_uuid, "u-7");
    assert_eq!(row.name, Some("Ann".to_string()));
    assert_eq!(row.flight, Some(Flight::Hill));
    assert_eq!(row.latest_inspection_date, Some(7));
    assert_eq!(row.latest_inspection_score, Some(InspectionScore { score: 1, out_of: 2 }));
}

#[test]
fn index_has_one_row_per_created_user() {
    let created: Vec<User> = (0..3).map(|_| User::new()).collect();
    let ids: Vec<String> = created.iter().map(|u| u.uuid.clone()).collect();
    let docs: Vec<Option<User>> = created.into_iter().rev().map(Some).collect();
    let rows = index_users(&docs);
    assert_eq!(rows.len(), 3);
    let mut row_ids: Vec<String> = rows.iter().map(|r| r.user_uuid.clone()).collect();
    let mut want = ids.clone();
    row_ids.sort();
    want.sort();
    assert_eq!(row_ids, want);
}

#[test]
fn index_skips_unreadable_documents() {
    let docs = vec![Some(user("a", vec![])), None, Some(user("b", vec![]))];
    let rows = index_users(&docs);
    let ids: Vec<&str> = rows.iter().map(|r| r.user_uuid.as_str()).collect();
    assert_eq!(ids, vec!["a", "b"]);
    assert!(index_users(&vec![]).is_empty());
}

#[test]
fn claim_username_only_once() {
    let mut u = user("u-8", vec![]);
    assert_eq!(u.claim_username("Bob".to_string()), Ok(()));
    assert_eq!(u.username, Some("Bob".to_string()));
    assert_eq!(u.claim_username("Other".to_string()), Err(RequestError::Conflict));
    assert_eq!(u.claim_username("Bob".to_string()), Err(RequestError::Conflict));
    assert_eq!(u.username, Some("Bob".to_string()));
}

#[test]
fn claim_user_on_stored_documents() {
    let claimed = claim_user(Some(user("u-9", vec![])), "Bob".to_string()).unwrap();
    assert_eq!(claimed.username, Some("Bob".to_string()));
    assert_eq!(claim_user(Some(claimed), "Eve".to_string()).unwrap_err(), RequestError::Conflict);
    assert_eq!(claim_user(None, "Bob".to_string()).unwrap_err(), RequestError::NotFound);
}

#[test]
fn set_flight_on_stored_document() {
    let u = set_user_flight(Some(user("u-10", vec![])), Flight::Bell).unwrap();
    assert_eq!(u.flight, Some(Flight::Bell));
    assert_eq!(set_user_flight(None, Flight::Bell).unwrap_err(), RequestError::NotFound);
    let mut v = user("u-11", vec![]);
    v.set_flight(Flight::Morgan);
    assert_eq!(v.flight, Some(Flight::Morgan));
}

#[test]
fn submit_inspection_checks_token_then_user() {
    let i = dated("w", Some(50), vec![check(Some(true))]);
    let stored = Some(user("u-12", vec![dated("v", Some(10), vec![])]));
    assert_eq!(
        add_inspection_to_user(TokenResponse::Invalid, stored.clone(), i.clone()).unwrap_err(),
        RequestError::Forbidden
    );
    assert_eq!(
        add_inspection_to_user(TokenResponse::Expired, stored.clone(), i.clone()).unwrap_err(),
        RequestError::Unauthorized
    );
    assert_eq!(
        add_inspection_to_user(TokenResponse::Valid, None, i.clone()).unwrap_err(),
        RequestError::NotFound
    );
    let u = add_inspection_to_user(TokenResponse::Valid, stored, i).unwrap();
    assert_eq!(u.inspections.len(), 2);
    assert_eq!(u.inspections[1].name, "w");
    assert_eq!(u.inspections[1].score, Some(1));
}

#[test]
fn submit_oversized_inspection_is_malformed() {
    let big = Criteria::Graded(uuis::database::CriteriaGraded {
        category_name: "x".to_string(),
        description: vec!["d".to_string(); 70_000],
        state: None,
    });
    let r = add_inspection_to_user(TokenResponse::Valid, Some(user("u-13", vec![])), dated("h", None, vec![big]));
    assert_eq!(r.unwrap_err(), RequestError::MalformedInput);
}

#[test]
fn bulk_creation_names_and_places_users() {
    let names = vec![Some("A".to_string()), None, Some("C".to_string())];
    let users = bulk_new_user(TokenResponse::Valid, Some(Flight::Beddoe), &names).unwrap();
    assert_eq!(users.len(), 3);
    for (u, n) in users.iter().zip(names.iter()) {
        assert_eq!(&u.username, n);
        assert_eq!(u.flight, Some(Flight::Beddoe));
        assert_eq!(u.uuid.len(), 36);
    }
    assert_eq!(
        bulk_new_user(TokenResponse::Expired, None, &names).unwrap_err(),
        RequestError::Unauthorized
    );
    assert_eq!(
        bulk_new_user(TokenResponse::Invalid, None, &names).unwrap_err(),
        RequestError::Forbidden
    );
}

#[test]
fn claimed_user_reads_back_and_cannot_be_claimed_again() {
    let stored = user("u-14", vec![dated("a", Some(3), vec![check(Some(true))])]);
    let claimed = claim_user(Some(stored), "Bob".to_string()).unwrap();
    assert_eq!(claimed.inspections.len(), 1);
    assert_eq!(claimed.inspections[0].score, Some(1));
    let read = User::read_from_database(Some(claimed)).unwrap();
    assert_eq!(read.username, Some("Bob".to_string()));
    assert_eq!(claim_user(Some(read), "Eve".to_string()).unwrap_err(), RequestError::Conflict);
}

#[test]
fn set_flight_keeps_inspections() {
    let stored = user(
        "u-15",
        vec![dated("a", Some(1), vec![check(None)]), dated("b", Some(2), vec![check(Some(true))])],
    );
    let u = set_user_flight(Some(stored), Flight::Spear).unwrap();
    let names: Vec<&str> = u.inspections.iter().map(|i| i.name.as_str()).collect();
    assert_eq!(names, vec!["b", "a"]);
    assert_eq!(u.inspections[0].score, Some(1));
}
