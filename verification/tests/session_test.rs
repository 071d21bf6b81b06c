use voxel::error::ClientError;
use voxel::session::{Answer, ClientEvent, Session, Step};

const TOKEN: [u8; 16] = [7; 16];

#[test]
fn requests_before_login_are_violations() {
    let mut s = Session::new();
    assert!(matches!(s.on_event(ClientEvent::Move), Step::Violation));
    assert!(matches!(s.on_event(ClientEvent::PlaceStructure), Step::Violation));
    assert!(matches!(s.on_event(ClientEvent::Disconnect), Step::Close));
    assert!(s.token.is_none());
}

#[test]
fn registering_gives_the_token_and_acts_for_the_user() {
    let mut s = Session::new();
    match s.on_event(ClientEvent::Register { name: String::from("ann") }) {
        Step::AskRegister { name } => assert_eq!(name, "ann"),
        _ => panic!("unexpected step"),
    }
    assert!(matches!(s.registered(String::from("ann"), Some(TOKEN)), Answer::Token(t) if t == TOKEN));
    assert_eq!(s.name.as_deref(), Some("ann"));
    assert!(matches!(s.on_event(ClientEvent::Move), Step::ActFor { token } if token == TOKEN));
}

#[test]
fn refused_registration_changes_nothing() {
    let mut s = Session::new();
    assert!(matches!(s.registered(String::from("bob"), None), Answer::Refused(ClientError::Register)));
    assert!(s.token.is_none());
    assert!(s.name.is_none());
}

#[test]
fn login_speaks_for_the_token_even_when_refused() {
    let mut s = Session::new();
    assert!(matches!(s.on_event(ClientEvent::Login { token: TOKEN }), Step::AskLogin { token } if token == TOKEN));
    assert_eq!(s.token, Some(TOKEN));
    assert!(matches!(s.logged_in(false, None), Some(Answer::Refused(ClientError::Login))));
    assert!(s.name.is_none());
    assert!(s.logged_in(true, Some(String::from("cy"))).is_none());
    assert_eq!(s.name.as_deref(), Some("cy"));
    assert!(matches!(s.on_event(ClientEvent::PlaceStructure), Step::ActFor { token } if token == TOKEN));
}
