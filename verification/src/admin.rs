//! Administration rules: project names, the brain directory setting, confirmations,
//! admin credentials and the command line.
use vstd::prelude::*;
use crate::text::{
    chars_of, contains, contains_chars, eq_chars, literal, starts_with, string_of, trim,
    trim_chars,
};

verus! {

/// Why a project name is refused.
#[derive(Clone, Copy, Debug, PartialEq, Eq, Structural)]
pub enum ProjectNameError {
    /// The name is blank.
    Required,
    /// The name holds a path separator or is `.` or `..`.
    PathSeparator,
}

pub open spec fn project_name_message(e: ProjectNameError) -> Seq<char> {
    match e {
        ProjectNameError::Required => "project name is required"@,
        ProjectNameError::PathSeparator => "project name cannot contain path separators"@,
    }
}

impl ProjectNameError {
    pub fn message(&self) -> (s: String)
        ensures
            s@ == project_name_message(*self),
    {
        let v = match self {
            ProjectNameError::Required => literal("project name is required"),
            ProjectNameError::PathSeparator => literal(
                "project name cannot contain path separators",
            ),
        };
        string_of(&v)
    }
}

/// What `clean_project_name` answers: the trimmed name, or why it is refused.
pub open spec fn spec_clean_project_name(name: Seq<char>) -> Result<Seq<char>, ProjectNameError> {
    let n = trim(name);
    if n.len() == 0 {
        Err(ProjectNameError::Required)
    } else if contains(n, seq!['/']) || contains(n, seq!['\\']) || n == seq!['.'] || n == seq![
        '.',
        '.',
    ] {
        Err(ProjectNameError::PathSeparator)
    } else {
        Ok(n)
    }
}

/// A project name as a directory name: trimmed, not blank, no path separator, not `.`/`..`.
pub fn clean_project_name(name: &str) -> (r: Result<String, ProjectNameError>)
    ensures
        match r {
            Ok(s) => spec_clean_project_name(name@) == Ok::<Seq<char>, ProjectNameError>(s@),
            Err(e) => spec_clean_project_name(name@) == Err::<Seq<char>, ProjectNameError>(e),
        },
{
    let v = chars_of(name);
    let n = trim_chars(&v);
    if n.len() == 0 {
        return Err(ProjectNameError::Required);
    }
    let slash = vec!['/'];
    let backslash = vec!['\\'];
    let dot = vec!['.'];
    let dots = vec!['.', '.'];
    assert(slash@ =~= seq!['/']);
    assert(backslash@ =~= seq!['\\']);
    assert(dot@ =~= seq!['.']);
    assert(dots@ =~= seq!['.', '.']);
    if contains_chars(&n, &slash) || contains_chars(&n, &backslash) || eq_chars(&n, &dot)
        || eq_chars(&n, &dots) {
        return Err(ProjectNameError::PathSeparator);
    }
    Ok(string_of(&n))
}

/// The brain directory a settings request asks for: the trimmed path, where it is not
/// blank ("brain directory is required" otherwise).
pub fn clean_brain_dir(dir: &str) -> (r: Option<String>)
    ensures
        match r {
            Some(s) => trim(dir@).len() > 0 && s@ == trim(dir@),
            None => trim(dir@).len() == 0,
        },
{
    let v = chars_of(dir);
    let t = trim_chars(&v);
    if t.len() == 0 {
        None
    } else {
        Some(string_of(&t))
    }
}

/// The phrase that confirms the deletion of a project.
pub open spec fn delete_phrase() -> Seq<char> {
    "yes I want to delete that"@
}

/// Whether a deletion request is confirmed: its text, trimmed, is the phrase exactly.
pub fn deletion_confirmed(confirm: &str) -> (r: bool)
    ensures
        r == (trim(confirm@) == delete_phrase()),
{
    let v = chars_of(confirm);
    let t = trim_chars(&v);
    let phrase = literal("yes I want to delete that");
    eq_chars(&t, &phrase)
}

/// Whether a request to delete ideas selects any ("select at least one idea to delete"
/// otherwise).
pub fn has_selection(ids: &Vec<String>) -> (r: bool)
    ensures
        r == (ids.len() > 0),
{
    ids.len() > 0
}

/// Why admin credentials are refused.
#[derive(Clone, Copy, Debug, PartialEq, Eq, Structural)]
pub enum CredentialsError {
    /// New credentials with an empty user name or password.
    Required,
    /// A credentials file with an empty user name or password.
    EmptyStored,
}

pub open spec fn credentials_message(e: CredentialsError) -> Seq<char> {
    match e {
        CredentialsError::Required => "username and password are required"@,
        CredentialsError::EmptyStored => "credentials file has empty username or password"@,
    }
}

impl CredentialsError {
    pub fn message(&self) -> (s: String)
        ensures
            s@ == credentials_message(*self),
    {
        let v = match self {
            CredentialsError::Required => literal("username and password are required"),
            CredentialsError::EmptyStored => literal(
                "credentials file has empty username or password",
            ),
        };
        string_of(&v)
    }
}

/// Accepts credentials read from the credentials file when neither part is empty.
pub fn check_stored_credentials(username: &str, password: &str) -> (r: Result<(), CredentialsError>)
    ensures
        r is Ok <==> (username@.len() > 0 && password@.len() > 0),
        r is Err ==> r == Err::<(), CredentialsError>(CredentialsError::EmptyStored),
{
    if username.is_empty() || password.is_empty() {
        Err(CredentialsError::EmptyStored)
    } else {
        Ok(())
    }
}

/// Accepts credentials to be written when neither part is empty.
pub fn check_new_credentials(username: &str, password: &str) -> (r: Result<(), CredentialsError>)
    ensures
        r is Ok <==> (username@.len() > 0 && password@.len() > 0),
        r is Err ==> r == Err::<(), CredentialsError>(CredentialsError::Required),
{
    if username.is_empty() || password.is_empty() {
        Err(CredentialsError::Required)
    } else {
        Ok(())
    }
}

/// The credentials set in the environment, which take precedence over the credentials
/// file: both variables must be set.
pub fn environment_credentials(username: Option<&str>, password: Option<&str>) -> (r: Option<
    (String, String),
>)
    ensures
        match r {
            Some((u, p)) => username is Some && password is Some && u@ == username->0@ && p@
                == password->0@,
            None => username is None || password is None,
        },
{
    match (username, password) {
        (Some(u), Some(p)) => {
            let uv = chars_of(u);
            let pv = chars_of(p);
            Some((string_of(&uv), string_of(&pv)))
        },
        _ => None,
    }
}

/// A file name that `Path::join` appends as it is: not empty, not `.` or `..`, and without
/// `/`, `\` or `:` (so without a root or a drive prefix on any platform).
pub open spec fn plain_file_name(name: Seq<char>) -> bool {
    &&& name.len() > 0
    &&& name != seq!['.']
    &&& name != seq!['.', '.']
    &&& forall|i: int| 0 <= i < name.len() ==> name[i] != '/' && name[i] != '\\' && name[i] != ':'
}

/// The start of a Windows verbatim path (`\\?\`), whose components `Path::join`
/// rebuilds.
pub open spec fn verbatim_start() -> Seq<char> {
    seq!['\\', '\\', '?', '\\']
}

/// A base path with a plain file name appended by `Path::join`, on every platform: the name
/// alone after an empty base; directly after a trailing `/`; after a separator (`/` or
/// `\`) when the base ends otherwise than in `/`, `\` or `:`; and in the remaining cases
/// (a trailing `\`, or `:` as in a drive `C:`) directly or after a separator. Nothing is
/// said of a Windows verbatim base.
pub open spec fn joined_path(base: Seq<char>, name: Seq<char>, r: Seq<char>) -> bool {
    if starts_with(base, verbatim_start()) {
        true
    } else if base.len() == 0 {
        r == name
    } else if base.last() == '/' {
        r == base + name
    } else if base.last() == '\\' || base.last() == ':' {
        ||| r == base + name
        ||| r == base + seq!['/'] + name
        ||| r == base + seq!['\\'] + name
    } else {
        ||| r == base + seq!['/'] + name
        ||| r == base + seq!['\\'] + name
    }
}

/// Calls `std::path::Path::join` and reads the joined path back as text
/// (`to_string_lossy`; the join of two texts is itself text). The contract states how a
/// plain file name is appended to the base (see `joined_path`); which separator is used
/// (the platform's), and the join onto a Windows verbatim base, are left unsaid.
#[verifier::external_body]
fn join_path(base: &str, name: &str) -> (r: String)
    requires
        plain_file_name(name@),
    ensures
        joined_path(base@, name@, r@),
{
    std::path::Path::new(base).join(name).to_string_lossy().into_owned()
}

/// The name of the credentials file in the app home.
pub open spec fn credentials_file_name() -> Seq<char> {
    "credentials.json"@
}

/// The path of the credentials file inside the app home.
pub fn credentials_path(app_home: &str) -> (r: String)
    ensures
        joined_path(app_home@, credentials_file_name(), r@),
{
    let name = "credentials.json";
    proof {
        reveal_strlit("credentials.json");
        assert(name@.len() == 16);
        assert(name@ != seq!['.']);
        assert(name@ != seq!['.', '.']);
        assert(plain_file_name(name@));
    }
    join_path(app_home, name)
}

/// A command given on the command line.
#[derive(Debug)]
pub enum CliCommand {
    /// Print the usage (`help`, `--help`, `-h`, or anything not understood).
    Help,
    /// Show whether credentials are set (`credentials status`).
    CredentialsStatus,
    /// Persist credentials (`credentials set USER PASS`).
    SetCredentials { username: String, password: String },
    /// `credentials set` without a user name.
    MissingUsername,
    /// `credentials set USER` without a password.
    MissingPassword,
}

pub open spec fn arg_is(args: Seq<String>, i: int, word: Seq<char>) -> bool {
    0 <= i < args.len() && args[i]@ == word
}

/// The command that arguments give (the program name left out; at least one argument).
pub open spec fn cli_matches(args: Seq<String>, c: CliCommand) -> bool {
    if arg_is(args, 0, "help"@) || arg_is(args, 0, "--help"@) || arg_is(args, 0, "-h"@) {
        c is Help
    } else if arg_is(args, 0, "credentials"@) && arg_is(args, 1, "status"@) {
        c is CredentialsStatus
    } else if arg_is(args, 0, "credentials"@) && arg_is(args, 1, "set"@) {
        if args.len() < 3 {
            c is MissingUsername
        } else if args.len() < 4 {
            c is MissingPassword
        } else {
            c matches CliCommand::SetCredentials { username, password } && username@ == args[2]@
                && password@ == args[3]@
        }
    } else {
        c is Help
    }
}

fn arg_is_exec(args: &Vec<String>, i: usize, word: &str) -> (r: bool)
    ensures
        r == arg_is(args@, i as int, word@),
{
    if i >= args.len() {
        return false;
    }
    let a = chars_of(args[i].as_str());
    let w = chars_of(word);
    eq_chars(&a, &w)
}

/// Reads the command from the arguments after the program name.
pub fn parse_cli(args: &Vec<String>) -> (c: CliCommand)
    ensures
        cli_matches(args@, c),
{
    if arg_is_exec(args, 0, "help") || arg_is_exec(args, 0, "--help") || arg_is_exec(args, 0, "-h") {
        return CliCommand::Help;
    }
    if arg_is_exec(args, 0, "credentials") && arg_is_exec(args, 1, "status") {
        return CliCommand::CredentialsStatus;
    }
    if arg_is_exec(args, 0, "credentials") && arg_is_exec(args, 1, "set") {
        if args.len() < 3 {
            return CliCommand::MissingUsername;
        }
        if args.len() < 4 {
            return CliCommand::MissingPassword;
        }
        return CliCommand::SetCredentials { username: args[2].clone(), password: args[3].clone() };
    }
    CliCommand::Help
}

} // verus!

verus! {

/// Cleaning a project name twice is cleaning it once: a cleaned name is accepted unchanged.
pub proof fn lemma_clean_project_name_idempotent(name: Seq<char>)
    requires
        spec_clean_project_name(name) is Ok,
    ensures
        spec_clean_project_name(spec_clean_project_name(name)->Ok_0) == spec_clean_project_name(
            name,
        ),
{
    crate::text::lemma_trim_idempotent(name);
}

} // verus!

verus! {

proof fn lemma_contains_char(n: Seq<char>, c: char)
    ensures
        crate::text::contains(n, seq![c]) <==> exists|i: int| 0 <= i < n.len() && #[trigger] n[i] == c,
{
    if crate::text::contains(n, seq![c]) {
        let i = choose|i: int| crate::text::occurs_at(n, seq![c], i);
        assert(n.subrange(i, i + 1)[0] == n[i]);
    }
    if exists|i: int| 0 <= i < n.len() && #[trigger] n[i] == c {
        let i = choose|i: int| 0 <= i < n.len() && #[trigger] n[i] == c;
        assert(n.subrange(i, i + 1) =~= seq![c]);
        assert(crate::text::occurs_at(n, seq![c], i));
    }
}

/// Which project names are accepted: a name is trimmed; a blank one is refused as required,
/// one holding `/` or `\` or being `.` or `..` is refused as a path, and every other name
/// is accepted as it stands once trimmed (spaces and any other characters included).
pub proof fn lemma_project_names_accepted(name: Seq<char>)
    ensures
        spec_clean_project_name(name) == (if trim(name).len() == 0 {
            Err::<Seq<char>, ProjectNameError>(ProjectNameError::Required)
        } else if (exists|i: int|
            0 <= i < trim(name).len() && (#[trigger] trim(name)[i] == '/' || trim(name)[i] == '\\'))
            || trim(name) == seq!['.'] || trim(name) == seq!['.', '.'] {
            Err(ProjectNameError::PathSeparator)
        } else {
            Ok(trim(name))
        }),
{
    let n = trim(name);
    lemma_contains_char(n, '/');
    lemma_contains_char(n, '\\');
    if exists|i: int| 0 <= i < n.len() && (#[trigger] n[i] == '/' || n[i] == '\\') {
        let i = choose|i: int| 0 <= i < n.len() && (#[trigger] n[i] == '/' || n[i] == '\\');
        if n[i] == '/' {
            assert(exists|j: int| 0 <= j < n.len() && #[trigger] n[j] == '/');
        } else {
            assert(exists|j: int| 0 <= j < n.len() && #[trigger] n[j] == '\\');
        }
    }
}

} // verus!
