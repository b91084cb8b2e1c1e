use brain::session::{
    decide_login, logout_cookie, session_cookie, session_is_valid, session_token_from_cookie,
    sign_session, LoginOutcome, MAX_BAD_LOGINS,
};

#[test]
fn signs_sessions_with_hmac_sha256() {
    let token = sign_session("admin", &[0u8; 32]);
    assert_eq!(token, "jV-K7rZOPOILU30ExIZAfq9IlkZhfPz0k-dvW3lPoIA");
}

#[test]
fn session_cookie_round_trip() {
    let secret = [7u8; 32];
    let token = sign_session("admin", &secret);
    let cookie = session_cookie(&token);
    assert_eq!(
        cookie,
        format!("brain_session={token}; HttpOnly; SameSite=Lax; Path=/; Max-Age=604800")
    );
    let header = format!("theme=dark; brain_session={token}");
    assert_eq!(session_token_from_cookie(&header), Some(token.clone()));
    assert!(session_is_valid(Some(&header), Some("admin"), &secret));
    assert!(!session_is_valid(Some(&header), Some("other"), &secret));
    assert!(!session_is_valid(Some(&header), None, &secret));
    assert!(!session_is_valid(None, Some("admin"), &secret));
    assert!(!session_is_valid(Some("theme=dark"), Some("admin"), &secret));
}

#[test]
fn logout_clears_cookie() {
    assert_eq!(
        logout_cookie(),
        "brain_session=; HttpOnly; SameSite=Lax; Path=/; Max-Age=0"
    );
}

#[test]
fn login_decisions() {
    let admin = Some(("admin", "pw"));
    assert_eq!(decide_login(MAX_BAD_LOGINS, admin, "admin", "pw"), LoginOutcome::Banned);
    assert_eq!(decide_login(4, admin, "admin", "pw"), LoginOutcome::Accepted);
    assert_eq!(decide_login(0, admin, "admin", "no"), LoginOutcome::Rejected);
    assert_eq!(decide_login(0, None, "admin", "pw"), LoginOutcome::CredentialsUnavailable);
}
