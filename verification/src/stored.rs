//! Ideas as they are stored on disk: a metadata block (`id`, `title`, `created_at`)
//! followed by the idea's markdown, and the file name an idea is saved under.
use vstd::prelude::*;
use crate::markdown::{spec_validate_markdown, validate_chars, MarkdownError};
use crate::text::{
    append_chars, chars_of, eq_chars, lines, lines_of, literal, lowercase,
    split_once, split_once_chars, starts_with, starts_with_chars, string_of, to_lowercase, trim,
    trim_chars, views,
};

verus! {

/// An instant, as seconds since the Unix epoch and the nanoseconds within that second
/// (a leap second has `nanos` of a billion or more); instants are ordered by the pair.
#[derive(Clone, Copy, Debug, PartialEq, Eq, Structural)]
pub struct Timestamp {
    pub secs: i64,
    pub nanos: u32,
}

/// Why chrono refuses a time text: the kinds of `chrono::format::ParseErrorKind`.
#[derive(Clone, Copy, Debug, PartialEq, Eq, Structural)]
pub enum TimeParseError {
    OutOfRange,
    Impossible,
    NotEnough,
    Invalid,
    TooShort,
    TooLong,
    BadFormat,
}

/// The text chrono gives for each kind of refusal (`Display` of `chrono::ParseError`).
pub open spec fn time_error_message(e: TimeParseError) -> Seq<char> {
    match e {
        TimeParseError::OutOfRange => "input is out of range"@,
        TimeParseError::Impossible => "no possible date and time matching input"@,
        TimeParseError::NotEnough => "input is not enough for unique date and time"@,
        TimeParseError::Invalid => "input contains invalid characters"@,
        TimeParseError::TooShort => "premature end of input"@,
        TimeParseError::TooLong => "trailing input"@,
        TimeParseError::BadFormat => "bad or unsupported format string"@,
    }
}

/// The instant that chrono reads from a text (`DateTime<Utc>`'s `FromStr`), as
/// (seconds, nanoseconds), or the kind of error where chrono refuses the text.
pub uninterp spec fn parsed_utc(text: Seq<char>) -> Result<(i64, u32), TimeParseError>;

/// The RFC 3339 text of an instant as chrono writes it (`DateTime::from_timestamp` then
/// `to_rfc3339`), or `None` where chrono cannot represent the instant.
pub uninterp spec fn rfc3339_of(secs: i64, nanos: u32) -> Option<Seq<char>>;

/// Calls `str::parse::<chrono::DateTime<Utc>>` and reads the instant back with
/// `timestamp` and `timestamp_subsec_nanos`, or the error's kind (`ParseError::kind`).
/// The contract only ties the result to the name `parsed_utc` of the text; chrono's grammar
/// is not restated.
#[verifier::external_body]
fn parse_utc_timestamp(text: &str) -> (r: Result<Timestamp, TimeParseError>)
    ensures
        match r {
            Ok(t) => parsed_utc(text@) == Ok::<(i64, u32), TimeParseError>((t.secs, t.nanos)),
            Err(e) => parsed_utc(text@) == Err::<(i64, u32), TimeParseError>(e),
        },
{
    match text.parse::<chrono::DateTime<chrono::Utc>>() {
        Ok(d) => Ok(Timestamp { secs: d.timestamp(), nanos: d.timestamp_subsec_nanos() }),
        Err(e) => Err(match e.kind() {
            chrono::format::ParseErrorKind::OutOfRange => TimeParseError::OutOfRange,
            chrono::format::ParseErrorKind::Impossible => TimeParseError::Impossible,
            chrono::format::ParseErrorKind::NotEnough => TimeParseError::NotEnough,
            chrono::format::ParseErrorKind::Invalid => TimeParseError::Invalid,
            chrono::format::ParseErrorKind::TooShort => TimeParseError::TooShort,
            chrono::format::ParseErrorKind::TooLong => TimeParseError::TooLong,
            _ => TimeParseError::BadFormat,
        }),
    }
}

/// An instant from 0000-01-01T00:00:00Z through 9999-12-31T23:59:59.999999999Z, not a leap
/// second: chrono writes its year with four digits.
pub open spec fn plain_instant(secs: i64, nanos: u32) -> bool {
    -62167219200 <= secs <= 253402300799 && nanos < 1_000_000_000
}

/// A character of chrono's RFC 3339 text of such an instant.
pub open spec fn is_rfc3339_char(c: char) -> bool {
    ('0' <= c && c <= '9') || c == '-' || c == ':' || c == 'T' || c == '.' || c == '+'
}

/// Calls `chrono::DateTime::from_timestamp` and `to_rfc3339`. The contract only ties the
/// result to the name `rfc3339_of` of the instant; the format is not restated.
/// For an instant of `plain_instant` the contract also states what chrono's source shows:
/// the text is `YYYY-MM-DDTHH:MM:SS[.fraction]+00:00` (digits and `-`, `T`, `:`, `.`, `+`
/// only), and chrono's parsing reads it back as the same instant.
#[verifier::external_body]
fn rfc3339_text(t: Timestamp) -> (r: Option<String>)
    ensures
        match r {
            Some(s) => rfc3339_of(t.secs, t.nanos) == Some(s@),
            None => rfc3339_of(t.secs, t.nanos) is None,
        },
        match r {
            Some(s) => plain_instant(t.secs, t.nanos) ==> parsed_utc(s@) == Ok::<
                (i64, u32),
                TimeParseError,
            >((t.secs, t.nanos)) && forall|i: int|
                0 <= i < s@.len() ==> is_rfc3339_char(#[trigger] s@[i]),
            None => !plain_instant(t.secs, t.nanos),
        },
{
    match chrono::DateTime::from_timestamp(t.secs, t.nanos) {
        Some(d) => Some(d.to_rfc3339()),
        None => None,
    }
}

/// The single-line form of a title: newlines become spaces, colons become ` -`.
pub open spec fn one_line_spec(s: Seq<char>) -> Seq<char>
    decreases s.len(),
{
    if s.len() == 0 {
        seq![]
    } else {
        one_line_spec(s.drop_last()) + one_line_piece(s.last())
    }
}

pub open spec fn one_line_piece(c: char) -> Seq<char> {
    if c == '\n' {
        seq![' ']
    } else if c == ':' {
        seq![' ', '-']
    } else {
        seq![c]
    }
}

fn one_line_chars(v: &Vec<char>) -> (r: Vec<char>)
    ensures
        r@ == one_line_spec(v@),
{
    let mut out: Vec<char> = Vec::new();
    let mut i: usize = 0;
    assert(v@.take(0) =~= seq![]);
    while i < v.len()
        invariant
            i <= v.len(),
            out@ == one_line_spec(v@.take(i as int)),
        decreases v.len() - i,
    {
        let ghost before = out@;
        let c = v[i];
        if c == '\n' {
            out.push(' ');
        } else if c == ':' {
            out.push(' ');
            out.push('-');
        } else {
            out.push(c);
        }
        proof {
            let t = v@.take(i + 1);
            assert(t.drop_last() =~= v@.take(i as int));
            assert(t.last() == c);
            assert(out@ =~= before + one_line_piece(c));
        }
        i = i + 1;
    }
    assert(v@.take(i as int) =~= v@);
    out
}

/// The title as it is written in the metadata block: on one line and without colons.
pub fn one_line(value: &str) -> (r: String)
    ensures
        r@ == one_line_spec(value@),
{
    let v = chars_of(value);
    let r = one_line_chars(&v);
    string_of(&r)
}

/// A character kept in a slug.
pub open spec fn is_ascii_alnum(c: char) -> bool {
    ('a' <= c && c <= 'z') || ('A' <= c && c <= 'Z') || ('0' <= c && c <= '9')
}

/// The parts of `s[i..]` between dashes, after non-alphanumeric characters became dashes;
/// `done` holds the parts found so far and `cur` the open one. Empty parts are dropped.
pub open spec fn slug_parts_from(s: Seq<char>, i: int, done: Seq<Seq<char>>, cur: Seq<char>) -> Seq<
    Seq<char>,
>
    decreases s.len() - i,
{
    if i >= s.len() {
        if cur.len() > 0 {
            done.push(cur)
        } else {
            done
        }
    } else if is_ascii_alnum(s[i]) {
        slug_parts_from(s, i + 1, done, cur.push(s[i]))
    } else if cur.len() > 0 {
        slug_parts_from(s, i + 1, done.push(cur), seq![])
    } else {
        slug_parts_from(s, i + 1, done, cur)
    }
}

/// The slug of a title: its lower-case form cut at every character that is not an ASCII
/// letter or digit, the non-empty parts joined by `-`; `idea` where nothing is left.
pub open spec fn slug(value: Seq<char>) -> Seq<char> {
    let parts = slug_parts_from(lowercase(value), 0, seq![], seq![]);
    if parts.len() == 0 {
        seq!['i', 'd', 'e', 'a']
    } else {
        crate::text::join(parts, seq!['-'])
    }
}

fn join_dash(parts: &Vec<Vec<char>>) -> (r: Vec<char>)
    ensures
        r@ == crate::text::join(views(parts@), seq!['-']),
{
    let ghost pv = views(parts@);
    let mut out: Vec<char> = Vec::new();
    let mut k: usize = 0;
    assert(pv.take(0) =~= seq![]);
    while k < parts.len()
        invariant
            k <= parts.len(),
            pv == views(parts@),
            out@ == crate::text::join(pv.take(k as int), seq!['-']),
        decreases parts.len() - k,
    {
        if k > 0 {
            out.push('-');
        }
        append_chars(&mut out, &parts[k]);
        proof {
            let t = pv.take(k + 1);
            assert(t.drop_last() =~= pv.take(k as int));
            assert(t.last() == parts@[k as int]@);
            if k == 0 {
                assert(out@ =~= t[0]);
            } else {
                assert(out@ =~= crate::text::join(t.drop_last(), seq!['-']) + seq!['-'] + t.last());
            }
        }
        k = k + 1;
    }
    assert(pv.take(k as int) =~= pv);
    out
}

fn slug_chars(value: &str) -> (r: Vec<char>)
    ensures
        r@ == slug(value@),
        forall|i: int| 0 <= i < r@.len() ==> is_lower_alnum(#[trigger] r@[i]) || r@[i] == '-',
{
    let lower_s = to_lowercase(value);
    proof {
        lemma_slug_is_lower_case(value@);
    }
    let lower = chars_of(lower_s.as_str());
    let mut parts: Vec<Vec<char>> = Vec::new();
    let mut cur: Vec<char> = Vec::new();
    let mut i: usize = 0;
    assert(views(parts@) =~= seq![]);
    while i < lower.len()
        invariant
            i <= lower.len(),
            lower@ == lowercase(value@),
            slug_parts_from(lower@, 0, seq![], seq![]) == slug_parts_from(
                lower@,
                i as int,
                views(parts@),
                cur@,
            ),
        decreases lower.len() - i,
    {
        let c = lower[i];
        if ('a' <= c && c <= 'z') || ('A' <= c && c <= 'Z') || ('0' <= c && c <= '9') {
            cur.push(c);
        } else if cur.len() > 0 {
            let ghost before = parts@;
            parts.push(cur);
            proof {
                crate::text::lemma_views_push(before, cur);
            }
            cur = Vec::new();
            assert(cur@ =~= seq![]);
        }
        i = i + 1;
    }
    if cur.len() > 0 {
        let ghost before = parts@;
        parts.push(cur);
        proof {
            crate::text::lemma_views_push(before, cur);
        }
    }
    if parts.len() == 0 {
        let r = vec!['i', 'd', 'e', 'a'];
        assert(r@ =~= seq!['i', 'd', 'e', 'a']);
        r
    } else {
        join_dash(&parts)
    }
}

/// The slug used in an idea's file name: lower-case ASCII letters, digits and dashes.
pub fn slugify(value: &str) -> (r: String)
    ensures
        r@ == slug(value@),
        forall|i: int| 0 <= i < r@.len() ==> is_lower_alnum(#[trigger] r@[i]) || r@[i] == '-',
{
    let v = slug_chars(value);
    string_of(&v)
}

/// An idea of a project.
#[derive(Debug)]
pub struct Idea {
    pub id: String,
    pub project: String,
    pub title: String,
    pub markdown: String,
    pub created_at: Timestamp,
}

/// The contents of an idea.
pub ghost struct IdeaView {
    pub id: Seq<char>,
    pub project: Seq<char>,
    pub title: Seq<char>,
    pub markdown: Seq<char>,
    pub created_at: Timestamp,
}

impl View for Idea {
    type V = IdeaView;

    open spec fn view(&self) -> IdeaView {
        IdeaView {
            id: self.id@,
            project: self.project@,
            title: self.title@,
            markdown: self.markdown@,
            created_at: self.created_at,
        }
    }
}

} // verus!

verus! {

/// Why a stored idea file cannot be read.
#[derive(Clone, Copy, Debug, PartialEq, Eq, Structural)]
pub enum StoredIdeaError {
    /// The file does not start with a `---` line.
    MissingMetadata,
    /// The metadata block is not closed by a `---` line and an empty line.
    IncompleteMetadata,
    /// The `created_at` value is not a time chrono can read, and why.
    InvalidCreatedAt(TimeParseError),
    MissingId,
    MissingTitle,
    MissingCreatedAt,
}

pub open spec fn stored_error_message(e: StoredIdeaError) -> Seq<char> {
    match e {
        StoredIdeaError::MissingMetadata => "idea is missing metadata"@,
        StoredIdeaError::IncompleteMetadata => "idea metadata is incomplete"@,
        StoredIdeaError::InvalidCreatedAt(e) => time_error_message(e),
        StoredIdeaError::MissingId => "idea is missing id"@,
        StoredIdeaError::MissingTitle => "idea is missing title"@,
        StoredIdeaError::MissingCreatedAt => "idea is missing created_at"@,
    }
}

impl StoredIdeaError {
    pub fn message(&self) -> (s: String)
        ensures
            s@ == stored_error_message(*self),
    {
        let v = match self {
            StoredIdeaError::MissingMetadata => literal("idea is missing metadata"),
            StoredIdeaError::IncompleteMetadata => literal("idea metadata is incomplete"),
            StoredIdeaError::InvalidCreatedAt(e) => match e {
                TimeParseError::OutOfRange => literal("input is out of range"),
                TimeParseError::Impossible => literal("no possible date and time matching input"),
                TimeParseError::NotEnough => literal(
                    "input is not enough for unique date and time",
                ),
                TimeParseError::Invalid => literal("input contains invalid characters"),
                TimeParseError::TooShort => literal("premature end of input"),
                TimeParseError::TooLong => literal("trailing input"),
                TimeParseError::BadFormat => literal("bad or unsupported format string"),
            },
            StoredIdeaError::MissingId => literal("idea is missing id"),
            StoredIdeaError::MissingTitle => literal("idea is missing title"),
            StoredIdeaError::MissingCreatedAt => literal("idea is missing created_at"),
        };
        string_of(&v)
    }
}

/// The line that opens the metadata block.
pub open spec fn metadata_open() -> Seq<char> {
    seq!['-', '-', '-', '\n']
}

/// What closes the metadata block: a `---` line and an empty line.
pub open spec fn metadata_close() -> Seq<char> {
    seq!['\n', '-', '-', '-', '\n', '\n']
}

pub open spec fn key_id() -> Seq<char> {
    seq!['i', 'd']
}

pub open spec fn key_title() -> Seq<char> {
    seq!['t', 'i', 't', 'l', 'e']
}

pub open spec fn key_created_at() -> Seq<char> {
    seq!['c', 'r', 'e', 'a', 't', 'e', 'd', '_', 'a', 't']
}

/// The metadata values read so far: id, title and creation time.
pub type Metadata = (Option<Seq<char>>, Option<Seq<char>>, Option<Timestamp>);

/// Reads the metadata lines `ls[i..]`: each `key: value` line sets its key (a later line
/// wins), other lines are skipped, and an unreadable `created_at` stops the reading.
pub open spec fn metadata_from(ls: Seq<Seq<char>>, i: int, acc: Metadata) -> Result<
    Metadata,
    StoredIdeaError,
>
    decreases ls.len() - i,
{
    if i >= ls.len() {
        Ok(acc)
    } else {
        match split_once(ls[i], seq![':']) {
            None => metadata_from(ls, i + 1, acc),
            Some((k, v)) => {
                let key = trim(k);
                let value = trim(v);
                if key == key_id() {
                    metadata_from(ls, i + 1, (Some(value), acc.1, acc.2))
                } else if key == key_title() {
                    metadata_from(ls, i + 1, (acc.0, Some(value), acc.2))
                } else if key == key_created_at() {
                    match parsed_utc(value) {
                        Err(e) => Err(StoredIdeaError::InvalidCreatedAt(e)),
                        Ok(t) => metadata_from(
                            ls,
                            i + 1,
                            (acc.0, acc.1, Some(Timestamp { secs: t.0, nanos: t.1 })),
                        ),
                    }
                } else {
                    metadata_from(ls, i + 1, acc)
                }
            },
        }
    }
}

/// What `parse_stored_idea` reads from a stored idea file of a project.
pub open spec fn spec_parse_stored(project: Seq<char>, content: Seq<char>) -> Result<
    IdeaView,
    StoredIdeaError,
> {
    if !starts_with(content, metadata_open()) {
        Err(StoredIdeaError::MissingMetadata)
    } else {
        let rest = content.subrange(4, content.len() as int);
        match split_once(rest, metadata_close()) {
            None => Err(StoredIdeaError::IncompleteMetadata),
            Some((front, md)) => match metadata_from(lines(front), 0, (None, None, None)) {
                Err(e) => Err(e),
                Ok(meta) => match meta.0 {
                    None => Err(StoredIdeaError::MissingId),
                    Some(id) => match meta.1 {
                        None => Err(StoredIdeaError::MissingTitle),
                        Some(title) => match meta.2 {
                            None => Err(StoredIdeaError::MissingCreatedAt),
                            Some(t) => Ok(
                                IdeaView {
                                    id: id,
                                    project: project,
                                    title: title,
                                    markdown: trim(md),
                                    created_at: t,
                                },
                            ),
                        },
                    },
                },
            },
        }
    }
}

pub open spec fn view_idea_result(r: Result<Idea, StoredIdeaError>) -> Result<
    IdeaView,
    StoredIdeaError,
> {
    match r {
        Ok(idea) => Ok(idea@),
        Err(e) => Err(e),
    }
}

/// Reads the metadata lines of a stored idea.
fn read_metadata(ls: &Vec<Vec<char>>) -> (r: Result<
    (Option<Vec<char>>, Option<Vec<char>>, Option<Timestamp>),
    StoredIdeaError,
>)
    ensures
        match r {
            Ok(m) => metadata_from(views(ls@), 0, (None, None, None)) == Ok::<
                Metadata,
                StoredIdeaError,
            >(
                (
                    match m.0 {
                        Some(v) => Some(v@),
                        None => None,
                    },
                    match m.1 {
                        Some(v) => Some(v@),
                        None => None,
                    },
                    m.2,
                ),
            ),
            Err(e) => metadata_from(views(ls@), 0, (None, None, None)) == Err::<
                Metadata,
                StoredIdeaError,
            >(e),
        },
{
    let ghost lv = views(ls@);
    let mut id: Option<Vec<char>> = None;
    let mut title: Option<Vec<char>> = None;
    let mut created: Option<Timestamp> = None;
    let colon = vec![':'];
    assert(colon@ =~= seq![':']);
    let kid = vec!['i', 'd'];
    let ktitle = vec!['t', 'i', 't', 'l', 'e'];
    let kcreated = vec!['c', 'r', 'e', 'a', 't', 'e', 'd', '_', 'a', 't'];
    assert(kid@ =~= key_id());
    assert(ktitle@ =~= key_title());
    assert(kcreated@ =~= key_created_at());
    let mut i: usize = 0;
    while i < ls.len()
        invariant
            i <= ls.len(),
            lv == views(ls@),
            colon@ == seq![':'],
            kid@ == key_id(),
            ktitle@ == key_title(),
            kcreated@ == key_created_at(),
            metadata_from(lv, 0, (None, None, None)) == metadata_from(
                lv,
                i as int,
                (
                    match id {
                        Some(v) => Some(v@),
                        None => None,
                    },
                    match title {
                        Some(v) => Some(v@),
                        None => None,
                    },
                    created,
                ),
            ),
        decreases ls.len() - i,
    {
        assert(lv[i as int] == ls@[i as int]@);
        match split_once_chars(&ls[i], &colon) {
            None => {},
            Some((k, v)) => {
                let key = trim_chars(&k);
                let value = trim_chars(&v);
                if eq_chars(&key, &kid) {
                    id = Some(value);
                } else if eq_chars(&key, &ktitle) {
                    title = Some(value);
                } else if eq_chars(&key, &kcreated) {
                    let text = string_of(&value);
                    match parse_utc_timestamp(text.as_str()) {
                        Err(e) => {
                            return Err(StoredIdeaError::InvalidCreatedAt(e));
                        },
                        Ok(t) => {
                            created = Some(t);
                        },
                    }
                }
            },
        }
        i = i + 1;
    }
    Ok((id, title, created))
}

fn parse_stored_chars(project: &str, content: &Vec<char>) -> (r: Result<Idea, StoredIdeaError>)
    ensures
        view_idea_result(r) == spec_parse_stored(project@, content@),
{
    let open = vec!['-', '-', '-', '\n'];
    assert(open@ =~= metadata_open());
    if !starts_with_chars(content, &open) {
        return Err(StoredIdeaError::MissingMetadata);
    }
    let rest = crate::text::slice_copy(content, 4, content.len());
    let close = vec!['\n', '-', '-', '-', '\n', '\n'];
    assert(close@ =~= metadata_close());
    match split_once_chars(&rest, &close) {
        None => Err(StoredIdeaError::IncompleteMetadata),
        Some((front, md)) => {
            let ls = lines_of(&front);
            match read_metadata(&ls) {
                Err(e) => Err(e),
                Ok((id, title, created)) => match id {
                    None => Err(StoredIdeaError::MissingId),
                    Some(id) => match title {
                        None => Err(StoredIdeaError::MissingTitle),
                        Some(title) => match created {
                            None => Err(StoredIdeaError::MissingCreatedAt),
                            Some(t) => {
                                let markdown = trim_chars(&md);
                                let project_s = chars_of(project);
                                Ok(
                                    Idea {
                                        id: string_of(&id),
                                        project: string_of(&project_s),
                                        title: string_of(&title),
                                        markdown: string_of(&markdown),
                                        created_at: t,
                                    },
                                )
                            },
                        },
                    },
                },
            }
        },
    }
}

/// Reads a stored idea file of a project: the metadata block gives id, title and creation
/// time, the rest (trimmed) is the idea's markdown.
pub fn parse_stored_idea(project: &str, content: &str) -> (r: Result<Idea, StoredIdeaError>)
    ensures
        view_idea_result(r) == spec_parse_stored(project@, content@),
{
    let c = chars_of(content);
    parse_stored_chars(project, &c)
}

} // verus!

verus! {

/// The text of a stored idea file.
pub open spec fn stored_text(id: Seq<char>, title: Seq<char>, created: Seq<char>, markdown: Seq<
    char,
>) -> Seq<char> {
    metadata_open() + key_id() + seq![':', ' '] + id + seq!['\n'] + key_title() + seq![':', ' ']
        + one_line_spec(title) + seq!['\n'] + key_created_at() + seq![':', ' '] + created
        + metadata_close() + trim(markdown)
}

/// The file name an idea is saved under: `<slug of title>-<id>.md`.
pub open spec fn idea_file_name(title: Seq<char>, id: Seq<char>) -> Seq<char> {
    slug(title) + seq!['-'] + id + seq!['.', 'm', 'd']
}

fn push_key(out: &mut Vec<char>, key: &Vec<char>)
    ensures
        final(out)@ == old(out)@ + key@ + seq![':', ' '],
{
    append_chars(out, key);
    out.push(':');
    out.push(' ');
    assert(out@ =~= old(out)@ + key@ + seq![':', ' ']);
}

/// The text of a stored idea file with the given metadata and markdown.
pub fn stored_idea_text(id: &str, title: &str, created_at: &str, markdown: &str) -> (r: String)
    ensures
        r@ == stored_text(id@, title@, created_at@, markdown@),
{
    let mut out = vec!['-', '-', '-', '\n'];
    assert(out@ =~= metadata_open());
    let kid = vec!['i', 'd'];
    let ktitle = vec!['t', 'i', 't', 'l', 'e'];
    let kcreated = vec!['c', 'r', 'e', 'a', 't', 'e', 'd', '_', 'a', 't'];
    assert(kid@ =~= key_id());
    assert(ktitle@ =~= key_title());
    assert(kcreated@ =~= key_created_at());
    push_key(&mut out, &kid);
    let idv = chars_of(id);
    append_chars(&mut out, &idv);
    out.push('\n');
    push_key(&mut out, &ktitle);
    let tv = chars_of(title);
    let one = one_line_chars(&tv);
    append_chars(&mut out, &one);
    out.push('\n');
    push_key(&mut out, &kcreated);
    let cv = chars_of(created_at);
    append_chars(&mut out, &cv);
    let close = vec!['\n', '-', '-', '-', '\n', '\n'];
    assert(close@ =~= metadata_close());
    append_chars(&mut out, &close);
    let mv = chars_of(markdown);
    let body = trim_chars(&mv);
    append_chars(&mut out, &body);
    assert(out@ =~= stored_text(id@, title@, created_at@, markdown@));
    string_of(&out)
}

/// The file name of an idea with the given title and id.
pub fn idea_file_name_of(title: &str, id: &str) -> (r: String)
    ensures
        r@ == idea_file_name(title@, id@),
{
    let mut out = slug_chars(title);
    out.push('-');
    let idv = chars_of(id);
    append_chars(&mut out, &idv);
    out.push('.');
    out.push('m');
    out.push('d');
    assert(out@ =~= idea_file_name(title@, id@));
    string_of(&out)
}

/// Position `d` holds the last `.` of a file name.
pub open spec fn is_last_dot(name: Seq<char>, d: int) -> bool {
    0 <= d < name.len() && name[d] == '.' && forall|j: int| d < j < name.len() ==> name[j] != '.'
}

/// The extension of a file name, as `Path::extension` reads it: the text after the last
/// `.`, where there is one that is not the first character (and the name is not `..`).
pub open spec fn file_extension(name: Seq<char>) -> Option<Seq<char>> {
    if name == seq!['.', '.'] || !(exists|d: int| is_last_dot(name, d)) {
        None
    } else {
        let d = choose|d: int| is_last_dot(name, d);
        if d == 0 {
            None
        } else {
            Some(name.subrange(d + 1, name.len() as int))
        }
    }
}

/// Whether a file of a project directory holds an idea: its extension is `md`.
pub fn is_idea_file_name(name: &str) -> (r: bool)
    ensures
        r == (file_extension(name@) == Some(seq!['m', 'd'])),
{
    let v = chars_of(name);
    let n = v.len();
    let ghost s = v@;
    let r = n > 3 && v[n - 3] == '.' && v[n - 2] == 'm' && v[n - 1] == 'd';
    proof {
        let md = seq!['m', 'd'];
        if r {
            let d = n - 3;
            assert(is_last_dot(s, d));
            let c = choose|d: int| is_last_dot(s, d);
            assert(c == d) by {
                if c < d {
                    assert(s[d] != '.');
                } else if c > d {
                    assert(s[c] != '.');
                }
            }
            assert(s.subrange(d + 1, s.len() as int) =~= md);
        } else if file_extension(s) == Some(md) {
            let c = choose|d: int| is_last_dot(s, d);
            let e = s.subrange(c + 1, s.len() as int);
            assert(e.len() == 2);
            assert(e[0] == s[c + 1] && e[1] == s[c + 2]);
        }
    }
    r
}

/// Why an idea cannot be saved.
#[derive(Clone, Copy, Debug, PartialEq, Eq, Structural)]
pub enum SaveIdeaError {
    /// The markdown is not an idea.
    Markdown(MarkdownError),
    /// The creation time cannot be written as a date.
    TimestampOutOfRange,
}

/// An idea ready to be written: its file name, the file's text, and the idea itself.
#[derive(Debug)]
pub struct PreparedIdea {
    pub file_name: String,
    pub stored: String,
    pub idea: Idea,
}

/// What `prepare_markdown_idea` answers: file name, file text and idea, or the refusal.
pub open spec fn spec_prepare(project: Seq<char>, markdown: Seq<char>, id: Seq<char>, t: Timestamp) -> Result<
    (Seq<char>, Seq<char>, IdeaView),
    SaveIdeaError,
> {
    match spec_validate_markdown(markdown) {
        Err(e) => Err(SaveIdeaError::Markdown(e)),
        Ok(title) => match rfc3339_of(t.secs, t.nanos) {
            None => Err(SaveIdeaError::TimestampOutOfRange),
            Some(created) => Ok(
                (
                    idea_file_name(title, id),
                    stored_text(id, title, created, markdown),
                    IdeaView {
                        id: id,
                        project: project,
                        title: title,
                        markdown: trim(markdown),
                        created_at: t,
                    },
                ),
            ),
        },
    }
}

pub open spec fn view_prepared(r: Result<PreparedIdea, SaveIdeaError>) -> Result<
    (Seq<char>, Seq<char>, IdeaView),
    SaveIdeaError,
> {
    match r {
        Ok(p) => Ok((p.file_name@, p.stored@, p.idea@)),
        Err(e) => Err(e),
    }
}

/// Prepares the saving of a markdown idea in a project under a fresh id and creation time:
/// the markdown must be a valid idea; the file holds the metadata and the trimmed markdown.
/// A saved idea is listed back as it was saved: for a creation time with a four-digit year
/// (not a leap second) and a one-line, trimmed id, reading the file gives the same id,
/// project, markdown and creation time, and the title as written on one line.
pub fn prepare_markdown_idea(project: &str, markdown: &str, id: &str, created_at: Timestamp) -> (r:
    Result<PreparedIdea, SaveIdeaError>)
    ensures
        view_prepared(r) == spec_prepare(project@, markdown@, id@, created_at),
        plain_instant(created_at.secs, created_at.nanos) && has_no_newline(id@) && trim(id@)
            == id@ ==> match r {
            Ok(p) => spec_read_idea_file(project@, p.stored@) == Ok::<IdeaView, IdeaFileError>(
                (IdeaView { title: trim(one_line_spec(p.idea.title@)), ..p.idea@ }),
            ),
            Err(e) => e is Markdown,
        },
{
    let mv = chars_of(markdown);
    let title_v = match validate_chars(&mv) {
        Err(e) => {
            return Err(SaveIdeaError::Markdown(e));
        },
        Ok(t) => t,
    };
    let title = string_of(&title_v);
    let created = match rfc3339_text(created_at) {
        None => {
            return Err(SaveIdeaError::TimestampOutOfRange);
        },
        Some(c) => c,
    };
    proof {
        if plain_instant(created_at.secs, created_at.nanos) && has_no_newline(id@) && trim(id@)
            == id@ {
            let c = created@;
            assert forall|i: int| 0 <= i < c.len() implies !crate::text::is_ws(c[i]) && c[i]
                != '\n' by {
                assert(is_rfc3339_char(c[i]));
            }
            crate::text::lemma_trim_no_ws(c);
            lemma_saved_idea_is_listed(project@, markdown@, id@, created_at);
        }
    }
    let stored = stored_idea_text(id, title.as_str(), created.as_str(), markdown);
    let file_name = idea_file_name_of(title.as_str(), id);
    let body = trim_chars(&mv);
    let idv = chars_of(id);
    let pv = chars_of(project);
    Ok(
        PreparedIdea {
            file_name,
            stored,
            idea: Idea {
                id: string_of(&idv),
                project: string_of(&pv),
                title,
                markdown: string_of(&body),
                created_at,
            },
        },
    )
}

/// Why a stored idea is not listed: the file cannot be read, or its markdown is not an idea.
#[derive(Clone, Copy, Debug, PartialEq, Eq, Structural)]
pub enum IdeaFileError {
    Stored(StoredIdeaError),
    Markdown(MarkdownError),
}

pub open spec fn spec_read_idea_file(project: Seq<char>, content: Seq<char>) -> Result<
    IdeaView,
    IdeaFileError,
> {
    match spec_parse_stored(project, content) {
        Err(e) => Err(IdeaFileError::Stored(e)),
        Ok(idea) => match spec_validate_markdown(idea.markdown) {
            Err(e) => Err(IdeaFileError::Markdown(e)),
            Ok(_) => Ok(idea),
        },
    }
}

/// Reads a stored idea and checks that its markdown is still a valid idea, as listing a
/// project does.
pub fn read_idea_file(project: &str, content: &str) -> (r: Result<Idea, IdeaFileError>)
    ensures
        match r {
            Ok(idea) => spec_read_idea_file(project@, content@) == Ok::<IdeaView, IdeaFileError>(
                idea@,
            ),
            Err(e) => spec_read_idea_file(project@, content@) == Err::<IdeaView, IdeaFileError>(e),
        },
{
    match parse_stored_idea(project, content) {
        Err(e) => Err(IdeaFileError::Stored(e)),
        Ok(idea) => {
            let mv = chars_of(idea.markdown.as_str());
            match validate_chars(&mv) {
                Err(e) => Err(IdeaFileError::Markdown(e)),
                Ok(_) => Ok(idea),
            }
        },
    }
}

/// Whether a stored idea file is kept: it reads, and its markdown is a valid idea.
pub fn stored_idea_is_valid(project: &str, content: &str) -> (r: bool)
    ensures
        r == (spec_read_idea_file(project@, content@) is Ok),
{
    read_idea_file(project, content).is_ok()
}

} // verus!

verus! {

pub open spec fn has_no_newline(s: Seq<char>) -> bool {
    forall|i: int| 0 <= i < s.len() ==> s[i] != '\n'
}

pub proof fn lemma_one_line_no_newline(s: Seq<char>)
    ensures
        has_no_newline(one_line_spec(s)),
    decreases s.len(),
{
    if s.len() > 0 {
        lemma_one_line_no_newline(s.drop_last());
        let a = one_line_spec(s.drop_last());
        let b = one_line_piece(s.last());
        assert forall|i: int| 0 <= i < (a + b).len() implies (a + b)[i] != '\n' by {
            if i < a.len() {
                assert((a + b)[i] == a[i]);
            } else {
                assert((a + b)[i] == b[i - a.len()]);
            }
        }
    }
}

/// A `\r` at the end of a line with a non-empty prefix comes from the suffix.
proof fn lemma_strip_cr_after(p: Seq<char>, x: Seq<char>)
    requires
        p.len() > 0,
        p.last() != '\r',
    ensures
        crate::text::strip_cr(p + x) == p + crate::text::strip_cr(x),
{
    if x.len() > 0 {
        assert((p + x).last() == x.last());
        assert((p + x).drop_last() =~= p + x.drop_last());
    } else {
        assert(p + x =~= p);
    }
}

/// A metadata line `key: x` splits at its first colon into the key and ` x`.
proof fn lemma_metadata_line(key: Seq<char>, x: Seq<char>)
    requires
        key.len() > 0,
        forall|i: int| 0 <= i < key.len() ==> key[i] != ':' && !crate::text::is_ws(key[i]),
    ensures
        split_once(key + seq![':', ' '] + x, seq![':']) == Some((key, seq![' '] + x)),
        trim(key) == key,
{
    let l = key + seq![':', ' '] + x;
    let n = key.len() as int;
    assert(l.subrange(n, n + 1) =~= seq![':']);
    assert forall|m: int| 0 <= m < n implies !crate::text::occurs_at(l, seq![':'], m) by {
        assert(l.subrange(m, m + 1)[0] == l[m]);
        assert(l[m] == key[m]);
    }
    crate::text::lemma_find_first(l, seq![':'], 0, n);
    assert(l.subrange(0, n) =~= key);
    assert(l.subrange(n + 1, l.len() as int) =~= seq![' '] + x);
    crate::text::lemma_trim_no_ws(key);
}

/// The value of a metadata line, once read, is the trimmed text written after the key.
proof fn lemma_metadata_value(x: Seq<char>)
    ensures
        trim(seq![' '] + crate::text::strip_cr(x)) == trim(x),
        trim(seq![' '] + x) == trim(x),
{
    crate::text::lemma_trim_space_prefix(crate::text::strip_cr(x));
    crate::text::lemma_trim_space_prefix(x);
    crate::text::lemma_trim_strip_cr(x);
}

/// What reading back the stored text of an idea gives.
pub open spec fn stored_read_back(
    project: Seq<char>,
    id: Seq<char>,
    title: Seq<char>,
    created: Seq<char>,
    markdown: Seq<char>,
) -> Result<IdeaView, StoredIdeaError> {
    match parsed_utc(trim(created)) {
        Err(e) => Err(StoredIdeaError::InvalidCreatedAt(e)),
        Ok(t) => Ok(
            IdeaView {
                id: trim(id),
                project: project,
                title: trim(one_line_spec(title)),
                markdown: trim(markdown),
                created_at: Timestamp { secs: t.0, nanos: t.1 },
            },
        ),
    }
}

/// A metadata line.
pub open spec fn meta_line(key: Seq<char>, value: Seq<char>) -> Seq<char> {
    key + seq![':', ' '] + value
}

/// The metadata block written for an idea (without its opening and closing lines).
pub open spec fn metadata_block(id: Seq<char>, t: Seq<char>, created: Seq<char>) -> Seq<char> {
    meta_line(key_id(), id) + seq!['\n'] + meta_line(key_title(), t) + seq!['\n'] + meta_line(
        key_created_at(),
        created,
    )
}

/// The metadata block holds newlines only between its three lines.
proof fn lemma_block_newlines(id: Seq<char>, t: Seq<char>, created: Seq<char>)
    requires
        has_no_newline(id),
        has_no_newline(t),
        has_no_newline(created),
    ensures
        ({
            let f = metadata_block(id, t, created);
            let a = meta_line(key_id(), id).len() as int;
            let b = a + 1 + meta_line(key_title(), t).len();
            &&& f.len() == b + 1 + meta_line(key_created_at(), created).len()
            &&& f[a] == '\n' && f[b] == '\n'
            &&& f[a + 1] == 't' && f[b + 1] == 'c'
            &&& forall|m: int| 0 <= m < f.len() && f[m] == '\n' ==> m == a || m == b
        }),
{
    let l1 = meta_line(key_id(), id);
    let l2 = meta_line(key_title(), t);
    let l3 = meta_line(key_created_at(), created);
    let f = metadata_block(id, t, created);
    let a = l1.len() as int;
    let b = a + 1 + l2.len();
    assert(f =~= l1 + seq!['\n'] + l2 + seq!['\n'] + l3);
    assert(f[a + 1] == l2[0]);
    assert(f[b + 1] == l3[0]);
    assert forall|m: int| 0 <= m < f.len() && f[m] == '\n' implies m == a || m == b by {
        if m < a {
            assert(f[m] == l1[m]);
            if m >= 4 {
                assert(l1[m] == id[m - 4]);
            }
        } else if a < m < b {
            assert(f[m] == l2[m - a - 1]);
            if m - a - 1 >= 7 {
                assert(l2[m - a - 1] == t[m - a - 1 - 7]);
            }
        } else if m > b {
            assert(f[m] == l3[m - b - 1]);
            if m - b - 1 >= 12 {
                assert(l3[m - b - 1] == created[m - b - 1 - 12]);
            }
        }
    }
}

/// The stored text, past its opening line, splits at the end of the metadata block.
proof fn lemma_block_split(id: Seq<char>, t: Seq<char>, created: Seq<char>, body: Seq<char>)
    requires
        has_no_newline(id),
        has_no_newline(t),
        has_no_newline(created),
    ensures
        split_once(metadata_block(id, t, created) + metadata_close() + body, metadata_close())
            == Some((metadata_block(id, t, created), body)),
{
    let f = metadata_block(id, t, created);
    let close = metadata_close();
    let rest = f + close + body;
    lemma_block_newlines(id, t, created);
    let a = meta_line(key_id(), id).len() as int;
    let b = a + 1 + meta_line(key_title(), t).len();
    assert(rest.subrange(f.len() as int, f.len() as int + 6) =~= close);
    assert forall|m: int| 0 <= m < f.len() implies !crate::text::occurs_at(rest, close, m) by {
        if crate::text::occurs_at(rest, close, m) {
            assert(rest.subrange(m, m + 6)[0] == rest[m]);
            assert(rest.subrange(m, m + 6)[1] == rest[m + 1]);
            assert(rest[m] == f[m]);
            if m + 1 < f.len() {
                assert(rest[m + 1] == f[m + 1]);
            }
        }
    }
    crate::text::lemma_find_first(rest, close, 0, f.len() as int);
    assert(rest.subrange(0, f.len() as int) =~= f);
    assert(rest.subrange(f.len() as int + close.len(), rest.len() as int) =~= body);
}

/// The lines of the metadata block.
proof fn lemma_block_lines(id: Seq<char>, t: Seq<char>, created: Seq<char>)
    requires
        has_no_newline(id),
        has_no_newline(t),
        has_no_newline(created),
    ensures
        lines(metadata_block(id, t, created)) == seq![
            crate::text::strip_cr(meta_line(key_id(), id)),
            crate::text::strip_cr(meta_line(key_title(), t)),
            meta_line(key_created_at(), created),
        ],
{
    let l1 = meta_line(key_id(), id);
    let l2 = meta_line(key_title(), t);
    let l3 = meta_line(key_created_at(), created);
    let f = metadata_block(id, t, created);
    lemma_block_newlines(id, t, created);
    let a = l1.len() as int;
    let b = a + 1 + l2.len();
    assert(f =~= l1 + seq!['\n'] + l2 + seq!['\n'] + l3);
    crate::text::lemma_lines_segment(f, 0, a, seq![], seq![]);
    assert(seq![] + f.subrange(0, a) =~= l1);
    crate::text::lemma_lines_segment(f, a + 1, b, seq![crate::text::strip_cr(l1)], seq![]);
    assert(seq![] + f.subrange(a + 1, b) =~= l2);
    crate::text::lemma_lines_segment(
        f,
        b + 1,
        f.len() as int,
        seq![crate::text::strip_cr(l1), crate::text::strip_cr(l2)],
        seq![],
    );
    assert(seq![] + f.subrange(b + 1, f.len() as int) =~= l3);
    assert(seq![crate::text::strip_cr(l1)].push(crate::text::strip_cr(l2)) =~= seq![
        crate::text::strip_cr(l1),
        crate::text::strip_cr(l2),
    ]);
    assert(seq![crate::text::strip_cr(l1), crate::text::strip_cr(l2)].push(l3) =~= seq![
        crate::text::strip_cr(l1),
        crate::text::strip_cr(l2),
        l3,
    ]);
}

/// Reading the three metadata lines sets id, title and creation time.
proof fn lemma_block_metadata(id: Seq<char>, t: Seq<char>, created: Seq<char>)
    ensures
        metadata_from(
            seq![
                crate::text::strip_cr(meta_line(key_id(), id)),
                crate::text::strip_cr(meta_line(key_title(), t)),
                meta_line(key_created_at(), created),
            ],
            0,
            (None, None, None),
        ) == match parsed_utc(trim(created)) {
            Err(e) => Err(StoredIdeaError::InvalidCreatedAt(e)),
            Ok(p) => Ok::<Metadata, StoredIdeaError>(
                (Some(trim(id)), Some(trim(t)), Some(Timestamp { secs: p.0, nanos: p.1 })),
            ),
        },
{
    let sep = seq![':', ' '];
    let ls = seq![
        crate::text::strip_cr(meta_line(key_id(), id)),
        crate::text::strip_cr(meta_line(key_title(), t)),
        meta_line(key_created_at(), created),
    ];
    lemma_strip_cr_after(key_id() + sep, id);
    lemma_strip_cr_after(key_title() + sep, t);
    lemma_metadata_line(key_id(), crate::text::strip_cr(id));
    lemma_metadata_line(key_title(), crate::text::strip_cr(t));
    lemma_metadata_line(key_created_at(), created);
    lemma_metadata_value(id);
    lemma_metadata_value(t);
    lemma_metadata_value(created);
    assert(key_id() != key_title());
    assert(key_id() != key_created_at());
    assert(key_title() != key_created_at());
    let m1: Metadata = (Some(trim(id)), None, None);
    let m2: Metadata = (Some(trim(id)), Some(trim(t)), None);
    assert(metadata_from(ls, 0, (None, None, None)) == metadata_from(ls, 1, m1));
    assert(metadata_from(ls, 1, m1) == metadata_from(ls, 2, m2));
    assert(ls[2] == key_created_at() + sep + created);
    assert(split_once(ls[2], seq![':']) == Some((key_created_at(), seq![' '] + created)));
    assert(trim(seq![' '] + created) == trim(created));
    match parsed_utc(trim(created)) {
        Err(_) => {},
        Ok(p) => {
            let m3: Metadata = (
                Some(trim(id)),
                Some(trim(t)),
                Some(Timestamp { secs: p.0, nanos: p.1 }),
            );
            assert(metadata_from(ls, 2, m2) == metadata_from(ls, 3, m3));
        },
    }
}

/// A saved idea reads back: the stored text of an idea parses to the idea's id and title
/// (trimmed, the title on one line), its trimmed markdown, and the time that chrono reads
/// from the creation text; where chrono cannot read that text, the read fails on it.
/// Holds whenever the id and the creation text are single lines.
pub proof fn lemma_stored_idea_round_trip(
    project: Seq<char>,
    id: Seq<char>,
    title: Seq<char>,
    created: Seq<char>,
    markdown: Seq<char>,
)
    requires
        has_no_newline(id),
        has_no_newline(created),
    ensures
        spec_parse_stored(project, stored_text(id, title, created, markdown)) == stored_read_back(
            project,
            id,
            title,
            created,
            markdown,
        ),
{
    let t = one_line_spec(title);
    lemma_one_line_no_newline(title);
    let f = metadata_block(id, t, created);
    let body = trim(markdown);
    let content = stored_text(id, title, created, markdown);
    assert(content =~= metadata_open() + f + metadata_close() + body);
    assert(content.subrange(0, 4) =~= metadata_open());
    let rest = content.subrange(4, content.len() as int);
    assert(rest =~= f + metadata_close() + body);
    lemma_block_split(id, t, created, body);
    lemma_block_lines(id, t, created);
    lemma_block_metadata(id, t, created);
    crate::text::lemma_trim_idempotent(markdown);
}

} // verus!

verus! {

/// Checking an idea's markdown is the same before and after trimming it.
pub proof fn lemma_validate_trimmed(markdown: Seq<char>)
    ensures
        spec_validate_markdown(trim(markdown)) == spec_validate_markdown(markdown),
{
    crate::text::lemma_trim_idempotent(markdown);
}

/// A saved idea is listed back as it was saved: reading the file that saving prepares gives
/// the same id, project, markdown and creation time, and the title on one line — whenever
/// the id is a single line and chrono reads its own RFC 3339 text of the creation time back
/// as that time.
pub proof fn lemma_saved_idea_is_listed(
    project: Seq<char>,
    markdown: Seq<char>,
    id: Seq<char>,
    t: Timestamp,
)
    requires
        spec_prepare(project, markdown, id, t) is Ok,
        has_no_newline(id),
        trim(id) == id,
        has_no_newline(rfc3339_of(t.secs, t.nanos)->0),
        parsed_utc(trim(rfc3339_of(t.secs, t.nanos)->0)) == Ok::<(i64, u32), TimeParseError>(
            (t.secs, t.nanos),
        ),
    ensures
        ({
            let saved = spec_prepare(project, markdown, id, t)->Ok_0;
            spec_read_idea_file(project, saved.1) == Ok::<IdeaView, IdeaFileError>(
                IdeaView { title: trim(one_line_spec(saved.2.title)), ..saved.2 },
            )
        }),
{
    let title = spec_validate_markdown(markdown)->Ok_0;
    let created = rfc3339_of(t.secs, t.nanos)->0;
    lemma_stored_idea_round_trip(project, id, title, created, markdown);
    lemma_validate_trimmed(markdown);
}

} // verus!

verus! {

/// Every character of `x` satisfies `ok`.
pub open spec fn all_chars(x: Seq<char>, ok: spec_fn(char) -> bool) -> bool {
    forall|j: int| 0 <= j < x.len() ==> ok(#[trigger] x[j])
}

/// No two dashes stand next to each other.
pub open spec fn no_double_dash(x: Seq<char>) -> bool {
    forall|i: int| #![trigger x[i], x[i + 1]] 0 <= i && i + 1 < x.len() ==> !(x[i] == '-' && x[i + 1] == '-')
}

/// A character of a slug part that is a lower-case ASCII letter or a digit.
pub open spec fn is_lower_alnum(c: char) -> bool {
    ('a' <= c && c <= 'z') || ('0' <= c && c <= '9')
}

/// The parts found in a text are not empty and hold characters of the text kept by the
/// split (ASCII letters and digits), each satisfying `ok` where those of the text do.
proof fn lemma_slug_parts(
    s: Seq<char>,
    i: int,
    done: Seq<Seq<char>>,
    cur: Seq<char>,
    ok: spec_fn(char) -> bool,
)
    requires
        0 <= i,
        forall|c: char| #[trigger] ok(c) ==> is_ascii_alnum(c),
        forall|j: int| i <= j < s.len() && is_ascii_alnum(s[j]) ==> ok(#[trigger] s[j]),
        forall|k: int| 0 <= k < done.len() ==> (#[trigger] done[k]).len() > 0 && all_chars(
            done[k],
            ok,
        ),
        all_chars(cur, ok),
    ensures
        forall|k: int|
            0 <= k < slug_parts_from(s, i, done, cur).len() ==> (#[trigger] slug_parts_from(
                s,
                i,
                done,
                cur,
            )[k]).len() > 0 && all_chars(slug_parts_from(s, i, done, cur)[k], ok),
    decreases s.len() - i,
{
    if i >= s.len() {
        if cur.len() > 0 {
            let r = done.push(cur);
            assert forall|k: int| 0 <= k < r.len() implies (#[trigger] r[k]).len() > 0
                && all_chars(r[k], ok) by {
                if k < done.len() {
                    assert(r[k] == done[k]);
                }
            }
        }
    } else {
        if is_ascii_alnum(s[i]) {
            assert(ok(s[i]));
            assert(all_chars(cur.push(s[i]), ok));
            lemma_slug_parts(s, i + 1, done, cur.push(s[i]), ok);
            assert(slug_parts_from(s, i, done, cur) == slug_parts_from(
                s,
                i + 1,
                done,
                cur.push(s[i]),
            ));
        } else if cur.len() > 0 {
            let d2 = done.push(cur);
            assert forall|k: int| 0 <= k < d2.len() implies (#[trigger] d2[k]).len() > 0
                && all_chars(d2[k], ok) by {
                if k < done.len() {
                    assert(d2[k] == done[k]);
                }
            }
            assert(all_chars(seq![], ok));
            lemma_slug_parts(s, i + 1, d2, seq![], ok);
            assert(slug_parts_from(s, i, done, cur) == slug_parts_from(s, i + 1, d2, seq![]));
        } else {
            lemma_slug_parts(s, i + 1, done, cur, ok);
            assert(slug_parts_from(s, i, done, cur) == slug_parts_from(s, i + 1, done, cur));
        }
    }
}

proof fn lemma_join_parts(parts: Seq<Seq<char>>, ok: spec_fn(char) -> bool)
    requires
        parts.len() > 0,
        forall|c: char| #[trigger] ok(c) ==> is_ascii_alnum(c),
        forall|k: int| 0 <= k < parts.len() ==> (#[trigger] parts[k]).len() > 0 && all_chars(
            parts[k],
            ok,
        ),
    ensures
        ({
            let j = crate::text::join(parts, seq!['-']);
            &&& j.len() > 0
            &&& forall|i: int| 0 <= i < j.len() ==> ok(#[trigger] j[i]) || j[i] == '-'
            &&& ok(j[0])
            &&& ok(j.last())
            &&& no_double_dash(j)
        }),
    decreases parts.len(),
{
    let last = parts.last();
    assert(last.len() > 0 && all_chars(last, ok));
    assert(ok(last[last.len() - 1]));
    if parts.len() == 1 {
        assert(ok(parts[0][0]));
        let j = parts[0];
        assert forall|i: int| #![trigger j[i], j[i + 1]] 0 <= i && i + 1 < j.len() implies !(j[i]
            == '-' && j[i + 1] == '-') by {
            assert(ok(j[i]));
        }
    } else {
        let dl = parts.drop_last();
        assert forall|k: int| 0 <= k < dl.len() implies (#[trigger] dl[k]).len() > 0 && all_chars(
            dl[k],
            ok,
        ) by {
            assert(dl[k] == parts[k]);
        }
        lemma_join_parts(dl, ok);
        let a = crate::text::join(dl, seq!['-']);
        let j = a + seq!['-'] + last;
        assert forall|i: int| 0 <= i < j.len() implies ok(#[trigger] j[i]) || j[i] == '-' by {
            if i < a.len() {
                assert(j[i] == a[i]);
            } else if i > a.len() {
                assert(j[i] == last[i - a.len() - 1]);
            }
        }
        assert forall|i: int| #![trigger j[i], j[i + 1]] 0 <= i && i + 1 < j.len() implies !(j[i]
            == '-' && j[i + 1] == '-') by {
            if i + 1 < a.len() {
                assert(j[i] == a[i] && j[i + 1] == a[i + 1]);
            } else if i + 1 == a.len() {
                assert(j[i] == a.last());
                assert(ok(a.last()));
            } else if i == a.len() {
                assert(j[i + 1] == last[0]);
                assert(ok(last[0]));
            } else {
                assert(j[i] == last[i - a.len() - 1]);
                assert(ok(last[i - a.len() - 1]));
            }
        }
        assert(j[0] == a[0]);
        assert(j.last() == last.last());
    }
}

proof fn lemma_slug_chars(value: Seq<char>, ok: spec_fn(char) -> bool)
    requires
        forall|c: char| #[trigger] ok(c) ==> is_ascii_alnum(c),
        forall|j: int|
            0 <= j < lowercase(value).len() && is_ascii_alnum(lowercase(value)[j]) ==> ok(
                #[trigger] lowercase(value)[j],
            ),
        ok('i') && ok('d') && ok('e') && ok('a'),
    ensures
        slug(value).len() > 0,
        forall|i: int| 0 <= i < slug(value).len() ==> ok(#[trigger] slug(value)[i]) || slug(value)[i]
            == '-',
        ok(slug(value)[0]),
        ok(slug(value).last()),
        no_double_dash(slug(value)),
{
    let parts = slug_parts_from(lowercase(value), 0, seq![], seq![]);
    lemma_slug_parts(lowercase(value), 0, seq![], seq![], ok);
    if parts.len() == 0 {
        let s = seq!['i', 'd', 'e', 'a'];
        assert(slug(value) == s);
        assert forall|i: int| 0 <= i < s.len() implies ok(#[trigger] s[i]) by {}
        assert forall|i: int| #![trigger s[i], s[i + 1]] 0 <= i && i + 1 < s.len() implies !(s[i]
            == '-' && s[i + 1] == '-') by {}
    } else {
        lemma_join_parts(parts, ok);
    }
}

/// A slug is never empty and holds only ASCII letters, digits and dashes, with no dash at
/// either end and no two dashes together: the file name of an idea cannot leave its
/// project's directory.
pub proof fn lemma_slug_is_safe(value: Seq<char>)
    ensures
        slug(value).len() > 0,
        forall|i: int|
            0 <= i < slug(value).len() ==> is_ascii_alnum(#[trigger] slug(value)[i]) || slug(
                value,
            )[i] == '-',
        is_ascii_alnum(slug(value)[0]),
        is_ascii_alnum(slug(value).last()),
        no_double_dash(slug(value)),
{
    let ok = |c: char| is_ascii_alnum(c);
    lemma_slug_chars(value, ok);
}

/// The slug of a text whose lower-case form holds no upper-case ASCII letter (as
/// `str::to_lowercase` gives) holds only lower-case ASCII letters, digits and dashes.
proof fn lemma_slug_is_lower_case(value: Seq<char>)
    requires
        forall|j: int|
            0 <= j < lowercase(value).len() ==> !('A' <= #[trigger] lowercase(value)[j] && lowercase(
                value,
            )[j] <= 'Z'),
    ensures
        forall|i: int|
            0 <= i < slug(value).len() ==> is_lower_alnum(#[trigger] slug(value)[i]) || slug(
                value,
            )[i] == '-',
{
    let ok = |c: char| is_lower_alnum(c);
    lemma_slug_chars(value, ok);
}

} // verus!

verus! {

proof fn lemma_slug_parts_alnum(s: Seq<char>, i: int, done: Seq<Seq<char>>, cur: Seq<char>)
    requires
        0 <= i <= s.len(),
        forall|j: int| i <= j < s.len() ==> is_ascii_alnum(#[trigger] s[j]),
        cur.len() + s.len() - i > 0,
    ensures
        slug_parts_from(s, i, done, cur) == done.push(cur + s.subrange(i, s.len() as int)),
    decreases s.len() - i,
{
    if i == s.len() {
        assert(cur + s.subrange(i, s.len() as int) =~= cur);
    } else {
        lemma_slug_parts_alnum(s, i + 1, done, cur.push(s[i]));
        assert(cur.push(s[i]) + s.subrange(i + 1, s.len() as int) =~= cur + s.subrange(
            i,
            s.len() as int,
        ));
    }
}

/// A title whose lower-case form is one word of ASCII letters and digits is its own slug,
/// and one of two such words with one other character between them is slugged as the two
/// words joined by `-`.
pub proof fn lemma_slug_of_words(value: Seq<char>, a: Seq<char>, c: char, b: Seq<char>)
    requires
        a.len() > 0,
        forall|j: int| 0 <= j < a.len() ==> is_ascii_alnum(#[trigger] a[j]),
        forall|j: int| 0 <= j < b.len() ==> is_ascii_alnum(#[trigger] b[j]),
        lowercase(value) == a || (lowercase(value) == a + seq![c] + b && !is_ascii_alnum(c)
            && b.len() > 0),
    ensures
        lowercase(value) == a ==> slug(value) == a,
        lowercase(value) != a ==> slug(value) == a + seq!['-'] + b,
{
    let s = lowercase(value);
    if s == a {
        lemma_slug_parts_alnum(s, 0, seq![], seq![]);
        assert(seq![] + s.subrange(0, s.len() as int) =~= s);
        assert(seq![].push(s) =~= seq![s]);
    } else {
        let n = a.len() as int;
        let ga: Seq<Seq<char>> = seq![];
        assert(s[n] == c);
        assert forall|j: int| n + 1 <= j < s.len() implies is_ascii_alnum(#[trigger] s[j]) by {
            assert(s[j] == b[j - n - 1]);
        }
        lemma_slug_parts_alnum(s, n + 1, seq![a], seq![]);
        assert(seq![] + s.subrange(n + 1, s.len() as int) =~= b);
        // Reading `a` character by character keeps one open part.
        assert forall|j: int| 0 <= j <= n implies slug_parts_from(s, 0, ga, seq![])
            == #[trigger] slug_parts_from(s, j, ga, a.subrange(0, j)) by {
            lemma_slug_prefix_run(s, a, j);
        }
        assert(a.subrange(0, n) =~= a);
        assert(slug_parts_from(s, n, ga, a) == slug_parts_from(s, n + 1, ga.push(a), seq![]));
        assert(ga.push(a) =~= seq![a]);
        assert(seq![a].push(b) =~= seq![a, b]);
        assert(seq![a, b].drop_last() =~= seq![a]);
        let parts = slug_parts_from(s, 0, seq![], seq![]);
        assert(slug_parts_from(s, 0, ga, seq![]) == slug_parts_from(s, 0, ga, a.subrange(0, 0)));
        assert(parts == seq![a, b]);
        assert(crate::text::join(parts, seq!['-']) == crate::text::join(seq![a], seq!['-'])
            + seq!['-'] + b);
    }
}

proof fn lemma_slug_prefix_run(s: Seq<char>, a: Seq<char>, j: int)
    requires
        0 <= j <= a.len() <= s.len(),
        forall|m: int| 0 <= m < a.len() ==> is_ascii_alnum(#[trigger] a[m]),
        forall|m: int| 0 <= m < a.len() ==> s[m] == a[m],
    ensures
        slug_parts_from(s, 0, seq![], seq![]) == slug_parts_from(s, j, seq![], a.subrange(0, j)),
    decreases j,
{
    if j == 0 {
        assert(a.subrange(0, 0) =~= seq![]);
    } else {
        lemma_slug_prefix_run(s, a, j - 1);
        assert(a.subrange(0, j - 1).push(s[j - 1]) =~= a.subrange(0, j));
    }
}

} // verus!

verus! {

/// The single-line form of a title holds no newline and no colon, and a title that holds
/// neither is its own single-line form; a newline becomes a space and a colon ` -`.
pub proof fn lemma_one_line_form(s: Seq<char>, a: Seq<char>, b: Seq<char>)
    ensures
        forall|i: int|
            0 <= i < one_line_spec(s).len() ==> #[trigger] one_line_spec(s)[i] != '\n'
                && one_line_spec(s)[i] != ':',
        (forall|i: int| 0 <= i < s.len() ==> #[trigger] s[i] != '\n' && s[i] != ':')
            ==> one_line_spec(s) == s,
        one_line_spec(a + seq!['\n'] + b) == one_line_spec(a) + seq![' '] + one_line_spec(b),
        one_line_spec(a + seq![':'] + b) == one_line_spec(a) + seq![' ', '-'] + one_line_spec(b),
    decreases s.len() + b.len(),
{
    if s.len() > 0 {
        lemma_one_line_form(s.drop_last(), a, seq![]);
        let x = one_line_spec(s.drop_last());
        let y = one_line_piece(s.last());
        assert forall|i: int| 0 <= i < (x + y).len() implies #[trigger] (x + y)[i] != '\n' && (x
            + y)[i] != ':' by {
            if i < x.len() {
                assert((x + y)[i] == x[i]);
            } else {
                assert((x + y)[i] == y[i - x.len()]);
            }
        }
        if forall|i: int| 0 <= i < s.len() ==> #[trigger] s[i] != '\n' && s[i] != ':' {
            assert(s.drop_last().len() < s.len());
            assert forall|i: int| 0 <= i < s.drop_last().len() implies #[trigger] s.drop_last()[i]
                != '\n' && s.drop_last()[i] != ':' by {
                assert(s.drop_last()[i] == s[i]);
            }
            assert(s.drop_last().push(s.last()) =~= s);
        }
    }
    lemma_one_line_concat(a, seq!['\n'], b);
    lemma_one_line_concat(a, seq![':'], b);
    let nl: Seq<char> = seq!['\n'];
    let colon: Seq<char> = seq![':'];
    assert(nl.drop_last() =~= Seq::<char>::empty());
    assert(colon.drop_last() =~= Seq::<char>::empty());
    assert(nl.last() == '\n');
    assert(colon.last() == ':');
    assert(one_line_spec(Seq::<char>::empty()) == Seq::<char>::empty());
    assert(one_line_spec(nl) == one_line_spec(nl.drop_last()) + one_line_piece('\n'));
    assert(one_line_spec(nl) =~= seq![' ']);
    assert(one_line_spec(colon) == one_line_spec(colon.drop_last()) + one_line_piece(':'));
    assert(one_line_spec(colon) =~= seq![' ', '-']);
}

/// The single-line form of joined texts is the join of their single-line forms.
proof fn lemma_one_line_concat(a: Seq<char>, m: Seq<char>, b: Seq<char>)
    ensures
        one_line_spec(a + m + b) == one_line_spec(a) + one_line_spec(m) + one_line_spec(b),
    decreases b.len(),
{
    if b.len() == 0 {
        assert(a + m + b =~= a + m);
        lemma_one_line_append(a, m);
        assert(one_line_spec(a) + one_line_spec(m) + one_line_spec(b) =~= one_line_spec(a)
            + one_line_spec(m));
    } else {
        lemma_one_line_concat(a, m, b.drop_last());
        assert((a + m + b).drop_last() =~= a + m + b.drop_last());
        assert((a + m + b).last() == b.last());
        assert(one_line_spec(a) + one_line_spec(m) + one_line_spec(b.drop_last()) + one_line_piece(
            b.last(),
        ) =~= one_line_spec(a) + one_line_spec(m) + one_line_spec(b));
    }
}

proof fn lemma_one_line_append(a: Seq<char>, m: Seq<char>)
    ensures
        one_line_spec(a + m) == one_line_spec(a) + one_line_spec(m),
    decreases m.len(),
{
    if m.len() == 0 {
        assert(a + m =~= a);
        assert(one_line_spec(a) + one_line_spec(m) =~= one_line_spec(a));
    } else {
        lemma_one_line_append(a, m.drop_last());
        assert((a + m).drop_last() =~= a + m.drop_last());
        assert((a + m).last() == m.last());
        assert(one_line_spec(a) + one_line_spec(m.drop_last()) + one_line_piece(m.last())
            =~= one_line_spec(a) + one_line_spec(m));
    }
}

} // verus!

verus! {

/// A file holds an idea exactly when its name is some non-empty name followed by `.md`.
pub proof fn lemma_idea_file_names(name: Seq<char>)
    ensures
        file_extension(name) == Some(seq!['m', 'd']) <==> name.len() > 3 && name.subrange(
            name.len() - 3,
            name.len() as int,
        ) == seq!['.', 'm', 'd'],
{
    let md = seq!['m', 'd'];
    let n = name.len() as int;
    if n > 3 && name.subrange(n - 3, n) == seq!['.', 'm', 'd'] {
        assert(name[n - 3] == name.subrange(n - 3, n)[0]);
        assert(name[n - 2] == name.subrange(n - 3, n)[1]);
        assert(name[n - 1] == name.subrange(n - 3, n)[2]);
        let d = n - 3;
        assert(is_last_dot(name, d));
        let c = choose|d: int| is_last_dot(name, d);
        assert(c == d) by {
            if c < d {
                assert(name[d] != '.');
            } else if c > d {
                assert(name[c] != '.');
            }
        }
        assert(name.subrange(d + 1, n) =~= md);
    }
    if file_extension(name) == Some(md) {
        let c = choose|d: int| is_last_dot(name, d);
        let e = name.subrange(c + 1, n);
        assert(e.len() == 2);
        assert(e[0] == name[c + 1] && e[1] == name[c + 2]);
        assert(name.subrange(n - 3, n) =~= seq!['.', 'm', 'd']);
    }
}

} // verus!
