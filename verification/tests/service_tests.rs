use league_core::auth::{UserToken, ONE_WEEK};
use league_core::fixture::Fixture;
use league_core::index;
use league_core::league::League;
use league_core::responses::{CustomResponse, ErrorResponse, HTTPException, HTTPSuccessResponse};
use league_core::team::Team;
use league_core::tournament::{Tournament, TournamentEditDTO};
use league_core::user::User;

#[test]
fn index_greets() {
    assert_eq!(index(), "Hello, world!");
}

#[test]
fn exception_status_codes() {
    assert_eq!(HTTPException::Internal(String::from("x")).get_http_status(), 500);
    assert_eq!(HTTPException::NotFound(String::from("x")).get_http_status(), 404);
    assert_eq!(HTTPException::BadRequest(String::from("x")).get_http_status(), 400);
    assert_eq!(HTTPException::Conflict(String::from("x")).get_http_status(), 409);
    assert_eq!(HTTPException::Unauthorized(String::from("x")).get_http_status(), 401);
}

#[test]
fn exception_message_is_kept() {
    let e = HTTPException::Conflict(String::from("already registered"));
    assert_eq!(e.message(), "already registered");
}

#[test]
fn token_expires_one_week_after_issue() {
    let t = UserToken::new(42, 1_700_000_000);
    assert_eq!(t.user_id, 42);
    assert_eq!(t.iat, 1_700_000_000);
    assert_eq!(t.exp, 1_700_000_000 + ONE_WEEK);
    assert_eq!(t.exp - t.iat, 60 * 60 * 24 * 7);
}

#[test]
fn token_currency() {
    let t = UserToken::new(1, 1000);
    assert!(t.is_current(1000));
    assert!(t.is_current(t.exp - 1));
    assert!(!t.is_current(t.exp));
}

#[test]
fn user_id_from_valid_token() {
    let t = UserToken::new(7, 0);
    assert_eq!(User::get_user_id_by_token(Ok(t)), Ok(7));
}

#[test]
fn user_id_from_invalid_token_is_unauthorized() {
    let err = ErrorResponse { message: String::from("Unauthorized operation") };
    match User::get_user_id_by_token(Err(err)) {
        Err(HTTPException::Unauthorized(m)) => assert_eq!(m, "Unauthorized operation"),
        other => panic!("unexpected outcome: {:?}", other),
    }
}

#[test]
fn league_name_length_rule() {
    assert!(League::name_is_valid(&String::from("")));
    assert!(League::name_is_valid(&String::from("exactly twenty chars")));
    assert!(!League::name_is_valid(&String::from("one more than twenty!")));
}

#[test]
fn league_capacity_rule() {
    assert!(!League::is_full(0));
    assert!(!League::is_full(23));
    assert!(League::is_full(24));
    assert!(League::is_full(25));
}

#[test]
fn signup_gate_decisions() {
    assert!(matches!(User::signup_gate(false, false), Err(HTTPException::BadRequest(_))));
    assert!(matches!(User::signup_gate(false, true), Err(HTTPException::BadRequest(_))));
    assert!(matches!(User::signup_gate(true, true), Err(HTTPException::Conflict(_))));
    assert_eq!(User::signup_gate(true, false), Ok(()));
    match User::signup_gate(false, false) {
        Err(HTTPException::BadRequest(m)) => assert_eq!(m, "Invalid e-mail address"),
        other => panic!("unexpected outcome: {:?}", other),
    }
}

#[test]
fn authenticate_gate_decisions() {
    assert!(matches!(User::authenticate_gate(None, None), Err(HTTPException::NotFound(_))));
    assert!(matches!(
        User::authenticate_gate(None, Some(true)),
        Err(HTTPException::NotFound(_))
    ));
    assert_eq!(User::authenticate_gate(Some(7), Some(true)), Ok(7));
    assert!(matches!(
        User::authenticate_gate(Some(7), Some(false)),
        Err(HTTPException::BadRequest(_))
    ));
    assert!(matches!(
        User::authenticate_gate(Some(7), None),
        Err(HTTPException::Internal(_))
    ));
}

#[test]
fn tournament_name_length_rule() {
    assert!(Tournament::name_is_valid(&String::from("Summer Cup")));
    assert!(Tournament::name_is_valid(&String::from("exactly twenty chars")));
    assert!(!Tournament::name_is_valid(&String::from("one more than twenty!")));
}

#[test]
fn team_name_length_rule() {
    assert!(Team::name_is_valid(&String::from("")));
    assert!(Team::name_is_valid(&String::from("exactly forty characters, which is fine!")));
    assert!(!Team::name_is_valid(&String::from(
        "forty-one characters, one past the limit!"
    )));
}

#[test]
fn tournament_edit_must_change_something() {
    let empty = TournamentEditDTO { name: None, public: None };
    assert!(!empty.has_changes());
    let named = TournamentEditDTO { name: Some(String::from("Cup")), public: None };
    assert!(named.has_changes());
    let published = TournamentEditDTO { name: None, public: Some(true) };
    assert!(published.has_changes());
}

#[test]
fn success_status_codes_and_body() {
    let body = CustomResponse { message: String::from("done"), data: String::from("{}") };
    let ok = HTTPSuccessResponse::Okay(body.clone());
    let created = HTTPSuccessResponse::Created(body.clone());
    assert_eq!(ok.get_http_status(), 200);
    assert_eq!(created.get_http_status(), 201);
    assert_eq!(ok.get_http_response(), &body);
    assert_eq!(created.get_http_response().message, "done");
}

#[test]
fn stored_fixture_carries_its_fields() {
    let f = Fixture {
        id: 11,
        home_team_id: 1,
        away_team_id: 2,
        league_id: 3,
        playing_data: Some(1_700_000_000),
        home_score: 2,
        away_score: 2,
        played: true,
        round: 5,
    };
    assert_eq!(f.playing_data, Some(1_700_000_000));
    assert_eq!(f.round, 5);
}

#[test]
fn team_duplicate_keeps_fields() {
    let t = Team { id: 9, name: String::from("Reds"), tournament_id: 4 };
    let copy = t.duplicate();
    assert_eq!(copy.id, 9);
    assert_eq!(copy.name, "Reds");
    assert_eq!(copy.tournament_id, 4);
}
