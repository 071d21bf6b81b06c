use voxel::users::{User, UserModInstruction, Users};

type Pos = [f64; 3];

#[test]
fn new_user_is_offline_with_full_health() {
    let (token, user) = User::<Pos>::new(String::from("alice"), [1.0, 2.0, 3.0]);
    assert_eq!(user.name, "alice");
    assert_eq!(user.pos, [1.0, 2.0, 3.0]);
    assert_eq!(user.health, 100);
    assert!(!user.online);
    let (other, _) = User::<Pos>::new(String::from("bob"), [0.0, 0.0, 0.0]);
    assert_ne!(token, other);
}

#[test]
fn register_then_login_once_until_logoff() {
    let mut users: Users<Pos> = Users::init();
    let (token, user) = User::new(String::from("alice"), [0.0, 0.0, 0.0]);
    assert_eq!(users.register(token, user), Some(token));
    assert!(users.login(token));
    assert!(users.get_user(token).unwrap().online);
    assert!(!users.login(token));
    assert!(users.logoff(token));
    assert!(!users.get_user(token).unwrap().online);
    assert!(users.login(token));
}

#[test]
fn register_refuses_a_taken_name() {
    let mut users: Users<Pos> = Users::init();
    let (t1, u1) = User::new(String::from("alice"), [0.0, 0.0, 0.0]);
    let (t2, u2) = User::new(String::from("alice"), [5.0, 0.0, 0.0]);
    assert_eq!(users.register(t1, u1), Some(t1));
    assert_eq!(users.register(t2, u2), None);
    assert!(users.get_user(t2).is_none());
    assert_eq!(users.get_user(t1).unwrap().pos, [0.0, 0.0, 0.0]);
}

#[test]
fn unknown_tokens_are_refused() {
    let mut users: Users<Pos> = Users::init();
    let token = [7u8; 16];
    assert!(!users.login(token));
    assert!(!users.logoff(token));
    assert!(users.get_user(token).is_none());
    users.mod_user(token, UserModInstruction::Move([1.0, 1.0, 1.0]));
    assert!(users.get_user(token).is_none());
}

#[test]
fn move_changes_only_the_position() {
    let mut users: Users<Pos> = Users::init();
    let (token, user) = User::new(String::from("carol"), [0.0, 0.0, 0.0]);
    users.register(token, user);
    users.login(token);
    users.mod_user(token, UserModInstruction::Move([4.5, -2.0, 8.25]));
    let u = users.get_user(token).unwrap();
    assert_eq!(u.pos, [4.5, -2.0, 8.25]);
    assert_eq!(u.name, "carol");
    assert!(u.online);
    assert_eq!(u.health, 100);
}
