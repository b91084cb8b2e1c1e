use brain::admin::{
    check_new_credentials, check_stored_credentials, clean_brain_dir, clean_project_name,
    credentials_path, deletion_confirmed, environment_credentials, has_selection, parse_cli,
    CliCommand, CredentialsError, ProjectNameError,
};

#[test]
fn project_names() {
    assert_eq!(clean_project_name("  brain ").unwrap(), "brain");
    assert_eq!(clean_project_name("   ").unwrap_err(), ProjectNameError::Required);
    assert_eq!(clean_project_name("a/b").unwrap_err(), ProjectNameError::PathSeparator);
    assert_eq!(clean_project_name("a\\b").unwrap_err(), ProjectNameError::PathSeparator);
    assert_eq!(clean_project_name(" .. ").unwrap_err(), ProjectNameError::PathSeparator);
    assert_eq!(clean_project_name("...").unwrap(), "...");
    assert_eq!(
        ProjectNameError::PathSeparator.message(),
        "project name cannot contain path separators"
    );
}

#[test]
fn brain_dir_and_confirmations() {
    assert_eq!(clean_brain_dir("  /tmp/x "), Some("/tmp/x".to_string()));
    assert_eq!(clean_brain_dir("  "), None);
    assert!(deletion_confirmed(" yes I want to delete that\n"));
    assert!(!deletion_confirmed("yes"));
    assert!(!has_selection(&vec![]));
    assert!(has_selection(&vec!["a".to_string()]));
}

#[test]
fn credentials_checks() {
    assert!(check_new_credentials("admin", "pw").is_ok());
    assert_eq!(check_new_credentials("", "pw").unwrap_err(), CredentialsError::Required);
    assert_eq!(check_stored_credentials("a", "").unwrap_err(), CredentialsError::EmptyStored);
    assert_eq!(
        environment_credentials(Some("u"), Some("p")),
        Some(("u".to_string(), "p".to_string()))
    );
    assert_eq!(environment_credentials(Some("u"), None), None);
    assert_eq!(credentials_path("/home/x/.brain"), "/home/x/.brain/credentials.json");
}

#[test]
fn command_line() {
    let args = |v: &[&str]| v.iter().map(|s| s.to_string()).collect::<Vec<_>>();
    assert!(matches!(parse_cli(&args(&["help"])), CliCommand::Help));
    assert!(matches!(parse_cli(&args(&["what"])), CliCommand::Help));
    assert!(matches!(parse_cli(&args(&["credentials", "status"])), CliCommand::CredentialsStatus));
    assert!(matches!(parse_cli(&args(&["credentials", "set"])), CliCommand::MissingUsername));
    assert!(matches!(parse_cli(&args(&["credentials", "set", "u"])), CliCommand::MissingPassword));
    match parse_cli(&args(&["credentials", "set", "u", "p"])) {
        CliCommand::SetCredentials { username, password } => {
            assert_eq!(username, "u");
            assert_eq!(password, "p");
        }
        other => panic!("unexpected {other:?}"),
    }
}
