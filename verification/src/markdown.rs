//! The idea format: one `# Title` header followed by paragraphs, and the splitting of an
//! imported markdown document (or a bulk export) into such ideas.
use vstd::prelude::*;
use crate::text::{
    all_chars_are, append_chars, chars_of, copy_chars, decimal, ends_with, ends_with_chars,
    has_no_cr, is_ws, join, lemma_join_ends, lemma_join_lines, lemma_join_starts,
    lemma_lines_concat, lemma_trim_unchanged, lemma_lines_nonempty, lemma_trim_end_keeps_first,
    lemma_trim_end_shape, lemma_views_push, lines, lines_of, literal,
    push_decimal, slice_copy, starts_with, starts_with_chars, string_of, strip_all_prefix, trim,
    trim_chars, trim_start, views,
};

verus! {

/// Why a markdown text is not an idea, or an import cannot be split into ideas.
#[derive(Clone, Copy, Debug, PartialEq, Eq, Structural)]
pub enum MarkdownError {
    /// The text is blank.
    MarkdownRequired,
    /// The first line is not a `# ` header.
    MissingTitleHeader,
    /// The first header has no title text.
    EmptyTitle,
    /// A header other than the title, at a 1-based line number.
    ExtraHeader { line: usize },
    /// A line that is not a paragraph line (a list item, quote, fence, table or rule).
    NotParagraph { line: usize },
    /// The title is not followed by any text.
    MissingBody,
    /// The first line of an import with content is not a `# ` header.
    ImportMissingTitle,
    /// A `---` separator ends an idea that has no text yet.
    SeparatorBeforeText { line: usize },
    /// A header in an import that is not a single `# Title` header.
    NotSingleTitleHeader { line: usize },
    /// A header starts an idea while the previous one has no text yet.
    HeaderBeforeText { line: usize },
    /// The import holds no idea.
    NoIdeas,
    /// The last idea of an import has no text after its header.
    LastIdeaWithoutText,
}

/// The message shown to the user for each error.
pub open spec fn error_message(e: MarkdownError) -> Seq<char> {
    match e {
        MarkdownError::MarkdownRequired => "markdown is required"@,
        MarkdownError::MissingTitleHeader => "markdown must start with a single '# Title' header"@,
        MarkdownError::EmptyTitle => "first header must include a title"@,
        MarkdownError::ExtraHeader { line } => "line "@ + decimal(line as nat)
            + " is not allowed; an idea can only have one '# Title' header"@,
        MarkdownError::NotParagraph { line } => "line "@ + decimal(line as nat)
            + " is not a paragraph; only title headers and paragraphs are accepted"@,
        MarkdownError::MissingBody => "idea must include text after its title"@,
        MarkdownError::ImportMissingTitle =>
            "markdown import must start with a single '# Title' header"@,
        MarkdownError::SeparatorBeforeText { line } => "line "@ + decimal(line as nat)
            + " separates an idea before it has text"@,
        MarkdownError::NotSingleTitleHeader { line } => "line "@ + decimal(line as nat)
            + " must be a single '# Title' header"@,
        MarkdownError::HeaderBeforeText { line } => "line "@ + decimal(line as nat)
            + " starts a new idea before the previous idea has text"@,
        MarkdownError::NoIdeas => "markdown import must include at least one idea"@,
        MarkdownError::LastIdeaWithoutText => "last idea must include text after its header"@,
    }
}

fn line_message(before: &str, line: usize, after: &str) -> (s: String)
    ensures
        s@ == before@ + decimal(line as nat) + after@,
{
    let mut v = literal(before);
    push_decimal(&mut v, line);
    let tail = literal(after);
    append_chars(&mut v, &tail);
    string_of(&v)
}

impl MarkdownError {
    /// The error's message, as the user reads it.
    pub fn message(&self) -> (s: String)
        ensures
            s@ == error_message(*self),
    {
        match self {
            MarkdownError::MarkdownRequired => {
                let v = literal("markdown is required");
                string_of(&v)
            },
            MarkdownError::MissingTitleHeader => {
                let v = literal("markdown must start with a single '# Title' header");
                string_of(&v)
            },
            MarkdownError::EmptyTitle => {
                let v = literal("first header must include a title");
                string_of(&v)
            },
            MarkdownError::ExtraHeader { line } => line_message(
                "line ",
                *line,
                " is not allowed; an idea can only have one '# Title' header",
            ),
            MarkdownError::NotParagraph { line } => line_message(
                "line ",
                *line,
                " is not a paragraph; only title headers and paragraphs are accepted",
            ),
            MarkdownError::MissingBody => {
                let v = literal("idea must include text after its title");
                string_of(&v)
            },
            MarkdownError::ImportMissingTitle => {
                let v = literal("markdown import must start with a single '# Title' header");
                string_of(&v)
            },
            MarkdownError::SeparatorBeforeText { line } => line_message(
                "line ",
                *line,
                " separates an idea before it has text",
            ),
            MarkdownError::NotSingleTitleHeader { line } => line_message(
                "line ",
                *line,
                " must be a single '# Title' header",
            ),
            MarkdownError::HeaderBeforeText { line } => line_message(
                "line ",
                *line,
                " starts a new idea before the previous idea has text",
            ),
            MarkdownError::NoIdeas => {
                let v = literal("markdown import must include at least one idea");
                string_of(&v)
            },
            MarkdownError::LastIdeaWithoutText => {
                let v = literal("last idea must include text after its header");
                string_of(&v)
            },
        }
    }
}

pub open spec fn title_prefix() -> Seq<char> {
    seq!['#', ' ']
}

pub open spec fn subtitle_prefix() -> Seq<char> {
    seq!['#', '#', ' ']
}

pub open spec fn separator() -> Seq<char> {
    seq!['-', '-', '-']
}

/// A line that is a `# Title` header and not a `## ` one.
pub open spec fn single_title(t: Seq<char>) -> bool {
    starts_with(t, title_prefix()) && !starts_with(t, subtitle_prefix())
}

/// The position of the first character of `t[i..]` that is not `#` (or the end).
pub open spec fn hashes_end(t: Seq<char>, i: int) -> int
    decreases t.len() - i,
{
    if 0 <= i < t.len() && t[i] == '#' {
        hashes_end(t, i + 1)
    } else {
        i
    }
}

/// A (trimmed) line that is a markdown section header below the title: two to six `#`
/// followed by a space or by nothing.
pub open spec fn is_subheader(t: Seq<char>) -> bool {
    let n = hashes_end(t, 0);
    2 <= n <= 6 && (n == t.len() || t[n] == ' ')
}

fn is_subheader_chars(t: &Vec<char>) -> (r: bool)
    ensures
        r == is_subheader(t@),
{
    let mut k: usize = 0;
    while k < t.len() && t[k] == '#'
        invariant
            k <= t.len(),
            hashes_end(t@, 0) == hashes_end(t@, k as int),
        decreases t.len() - k,
    {
        k = k + 1;
    }
    2 <= k && k <= 6 && (k == t.len() || t[k] == ' ')
}

/// Characters that open a list item, quote, code fence or table.
pub open spec fn is_block_marker(c: char) -> bool {
    c == '-' || c == '*' || c == '>' || c == '`' || c == '|'
}

/// A (trimmed) line that is not a paragraph line.
pub open spec fn not_paragraph(t: Seq<char>) -> bool {
    ||| (t.len() > 0 && is_block_marker(t[0]))
    ||| all_chars_are(t, '-')
    ||| all_chars_are(t, '=')
}

pub open spec fn starts_header(t: Seq<char>) -> bool {
    t.len() > 0 && t[0] == '#'
}

/// The check of the lines `ls[i..]` of an idea: the first offending line's error, or whether
/// any of them is a body line.
pub open spec fn body_scan(ls: Seq<Seq<char>>, i: int) -> Result<bool, MarkdownError>
    decreases ls.len() - i,
{
    if i >= ls.len() {
        Ok(false)
    } else {
        let t = trim(ls[i]);
        if t.len() == 0 {
            body_scan(ls, i + 1)
        } else if starts_header(t) {
            if i == 0 && single_title(t) {
                body_scan(ls, i + 1)
            } else if i > 0 && is_subheader(t) {
                body_scan(ls, i + 1)
            } else {
                Err(MarkdownError::ExtraHeader { line: (i + 1) as usize })
            }
        } else if not_paragraph(t) {
            Err(MarkdownError::NotParagraph { line: (i + 1) as usize })
        } else {
            match body_scan(ls, i + 1) {
                Ok(_) => Ok(true),
                Err(e) => Err(e),
            }
        }
    }
}

/// What `validate_markdown` answers: the idea's title, or why the text is not an idea.
pub open spec fn spec_validate_markdown(md: Seq<char>) -> Result<Seq<char>, MarkdownError> {
    let m = trim(md);
    if m.len() == 0 {
        Err(MarkdownError::MarkdownRequired)
    } else {
        let ls = lines(m);
        let first = if ls.len() > 0 {
            ls[0]
        } else {
            seq![]
        };
        if !starts_with(first, title_prefix()) {
            Err(MarkdownError::MissingTitleHeader)
        } else {
            let title = trim(strip_all_prefix(first, title_prefix()));
            if title.len() == 0 {
                Err(MarkdownError::EmptyTitle)
            } else {
                match body_scan(ls, 0) {
                    Err(e) => Err(e),
                    Ok(has_body) => if has_body {
                        Ok(title)
                    } else {
                        Err(MarkdownError::MissingBody)
                    },
                }
            }
        }
    }
}

pub open spec fn view_result(r: Result<String, MarkdownError>) -> Result<Seq<char>, MarkdownError> {
    match r {
        Ok(s) => Ok(s@),
        Err(e) => Err(e),
    }
}

pub open spec fn view_chars_result(r: Result<Vec<char>, MarkdownError>) -> Result<
    Seq<char>,
    MarkdownError,
> {
    match r {
        Ok(s) => Ok(s@),
        Err(e) => Err(e),
    }
}

fn is_single_title_chars(t: &Vec<char>) -> (r: bool)
    ensures
        r == single_title(t@),
{
    let title = vec!['#', ' '];
    let sub = vec!['#', '#', ' '];
    assert(title@ =~= title_prefix());
    assert(sub@ =~= subtitle_prefix());
    starts_with_chars(t, &title) && !starts_with_chars(t, &sub)
}

/// Whether a (trimmed) line is a single `# Title` header.
pub fn is_single_title_header(line: &str) -> (r: bool)
    ensures
        r == single_title(line@),
{
    let t = chars_of(line);
    is_single_title_chars(&t)
}

fn all_chars_are_exec(t: &Vec<char>, c: char) -> (r: bool)
    ensures
        r == all_chars_are(t@, c),
{
    let mut i: usize = 0;
    while i < t.len()
        invariant
            i <= t.len(),
            forall|k: int| 0 <= k < i ==> t@[k] == c,
        decreases t.len() - i,
    {
        if t[i] != c {
            return false;
        }
        i = i + 1;
    }
    true
}

fn not_paragraph_chars(t: &Vec<char>) -> (r: bool)
    ensures
        r == not_paragraph(t@),
{
    let marker = t.len() > 0 && (t[0] == '-' || t[0] == '*' || t[0] == '>' || t[0] == '`' || t[0]
        == '|');
    marker || all_chars_are_exec(t, '-') || all_chars_are_exec(t, '=')
}

/// Accepts a (trimmed, non-blank) line as a paragraph line, or rejects it with its number.
pub fn validate_paragraph_line(line: &str, line_number: usize) -> (r: Result<(), MarkdownError>)
    ensures
        r is Err <==> not_paragraph(line@),
        r is Err ==> r == Err::<(), MarkdownError>(
            MarkdownError::NotParagraph { line: line_number },
        ),
{
    let t = chars_of(line);
    if not_paragraph_chars(&t) {
        Err(MarkdownError::NotParagraph { line: line_number })
    } else {
        Ok(())
    }
}

fn strip_all_title_prefix(first: &Vec<char>) -> (r: Vec<char>)
    ensures
        r@ == strip_all_prefix(first@, title_prefix()),
{
    let mut i: usize = 0;
    assert(first@.subrange(0, first.len() as int) =~= first@);
    while first.len() - i >= 2 && first[i] == '#' && first[i + 1] == ' '
        invariant
            i <= first.len(),
            strip_all_prefix(first@, title_prefix()) == strip_all_prefix(
                first@.subrange(i as int, first.len() as int),
                title_prefix(),
            ),
        decreases first.len() - i,
    {
        let ghost rest = first@.subrange(i as int, first.len() as int);
        assert(rest.subrange(0, 2) =~= title_prefix());
        assert(rest.subrange(2, rest.len() as int) =~= first@.subrange(i + 2, first.len() as int));
        i = i + 2;
    }
    proof {
        let rest = first@.subrange(i as int, first.len() as int);
        if starts_with(rest, title_prefix()) {
            assert(rest.subrange(0, 2)[0] == '#');
            assert(rest.subrange(0, 2)[1] == ' ');
        }
    }
    slice_copy(first, i, first.len())
}

/// The checks of `validate_markdown` on characters.
pub fn validate_chars(md: &Vec<char>) -> (r: Result<Vec<char>, MarkdownError>)
    ensures
        view_chars_result(r) == spec_validate_markdown(md@),
{
    let m = trim_chars(md);
    if m.len() == 0 {
        return Err(MarkdownError::MarkdownRequired);
    }
    let ls = lines_of(&m);
    let first = if ls.len() > 0 {
        copy_chars(&ls[0])
    } else {
        Vec::new()
    };
    proof {
        if ls.len() > 0 {
            assert(views(ls@)[0] == ls@[0]@);
        } else {
            assert(first@ =~= seq![]);
        }
    }
    let title_pre = vec!['#', ' '];
    assert(title_pre@ =~= title_prefix());
    if !starts_with_chars(&first, &title_pre) {
        return Err(MarkdownError::MissingTitleHeader);
    }
    let stripped = strip_all_title_prefix(&first);
    let title = trim_chars(&stripped);
    if title.len() == 0 {
        return Err(MarkdownError::EmptyTitle);
    }
    let ghost lv = views(ls@);
    let ghost outcome = match body_scan(lv, 0) {
        Err(e) => Err(e),
        Ok(has_body) => if has_body {
            Ok(title@)
        } else {
            Err(MarkdownError::MissingBody)
        },
    };
    assert(spec_validate_markdown(md@) == outcome);
    let mut has_body = false;
    let mut i: usize = 0;
    while i < ls.len()
        invariant
            i <= ls.len(),
            lv == views(ls@),
            spec_validate_markdown(md@) == outcome,
            outcome == match body_scan(lv, 0) {
                Err(e) => Err(e),
                Ok(has_body) => if has_body {
                    Ok(title@)
                } else {
                    Err(MarkdownError::MissingBody)
                },
            },
            body_scan(lv, 0) == match body_scan(lv, i as int) {
                Ok(b) => Ok(has_body || b),
                Err(e) => Err(e),
            },
        decreases ls.len() - i,
    {
        assert(lv[i as int] == ls@[i as int]@);
        let t = trim_chars(&ls[i]);
        if t.len() == 0 {
        } else if t[0] == '#' {
            if i == 0 && is_single_title_chars(&t) {
            } else if i > 0 && is_subheader_chars(&t) {
            } else {
                assert(body_scan(lv, i as int) == Err::<bool, MarkdownError>(
                    MarkdownError::ExtraHeader { line: (i + 1) as usize },
                ));
                return Err(MarkdownError::ExtraHeader { line: i + 1 });
            }
        } else if not_paragraph_chars(&t) {
            assert(body_scan(lv, i as int) == Err::<bool, MarkdownError>(
                MarkdownError::NotParagraph { line: (i + 1) as usize },
            ));
            return Err(MarkdownError::NotParagraph { line: i + 1 });
        } else {
            has_body = true;
        }
        i = i + 1;
    }
    if !has_body {
        return Err(MarkdownError::MissingBody);
    }
    Ok(title)
}

/// Checks that a markdown text is one idea: a single `# Title` header first, then only
/// section headers (`##` to `######`) and paragraph lines, at least one paragraph line;
/// answers the title.
pub fn validate_markdown(markdown: &str) -> (r: Result<String, MarkdownError>)
    ensures
        view_result(r) == spec_validate_markdown(markdown@),
{
    let md = chars_of(markdown);
    match validate_chars(&md) {
        Ok(t) => Ok(string_of(&t)),
        Err(e) => Err(e),
    }
}

} // verus!

verus! {

/// A comment line that a bulk export puts above each idea.
pub open spec fn is_project_comment(t: Seq<char>) -> bool {
    starts_with(t, "<!-- project:"@) && ends_with(t, "-->"@)
}

/// The lines `ls[i..]` with their 0-based numbers, without the export comment lines.
pub open spec fn numbered_from(ls: Seq<Seq<char>>, i: int) -> Seq<(usize, Seq<char>)>
    decreases ls.len() - i,
{
    if i >= ls.len() {
        seq![]
    } else if is_project_comment(trim(ls[i])) {
        numbered_from(ls, i + 1)
    } else {
        seq![(i as usize, ls[i])] + numbered_from(ls, i + 1)
    }
}

/// The lines an import reads: every line of the text with its number, except export comments.
pub open spec fn import_lines(md: Seq<char>) -> Seq<(usize, Seq<char>)> {
    numbered_from(lines(md), 0)
}

pub open spec fn numbered_views(v: Seq<(usize, Vec<char>)>) -> Seq<(usize, Seq<char>)> {
    Seq::new(v.len(), |i: int| (v[i].0, v[i].1@))
}

pub open spec fn numbered_string_views(v: Seq<(usize, String)>) -> Seq<(usize, Seq<char>)> {
    Seq::new(v.len(), |i: int| (v[i].0, v[i].1@))
}

pub open spec fn string_views(v: Seq<String>) -> Seq<Seq<char>> {
    Seq::new(v.len(), |i: int| v[i]@)
}

/// Whether the first line with content (not blank, not `---`) is a `# ` header.
pub open spec fn first_content_is_title(nl: Seq<(usize, Seq<char>)>, i: int) -> bool
    decreases nl.len() - i,
{
    if i >= nl.len() {
        false
    } else {
        let t = trim(nl[i].1);
        if t.len() > 0 && t != separator() {
            starts_with(t, title_prefix())
        } else {
            first_content_is_title(nl, i + 1)
        }
    }
}

/// An idea's text: its lines joined by newlines, trimmed.
pub open spec fn idea_text(current: Seq<Seq<char>>) -> Seq<char> {
    trim(join(current, seq!['\n']))
}

/// The state of an import after some lines: the ideas closed so far, the lines of the open
/// idea, and whether the open idea has text.
pub type ImportState = (Seq<Seq<char>>, Seq<Seq<char>>, bool);

/// How an import reads one line (numbered from 0).
pub open spec fn import_step(st: ImportState, idx: usize, line: Seq<char>) -> Result<
    ImportState,
    MarkdownError,
> {
    let (ideas, current, has_body) = st;
    let t = trim(line);
    let n = (idx + 1) as usize;
    if t.len() == 0 && current.len() == 0 {
        Ok(st)
    } else if t == separator() {
        if current.len() == 0 {
            Ok(st)
        } else if !has_body {
            Err(MarkdownError::SeparatorBeforeText { line: n })
        } else {
            Ok((ideas.push(idea_text(current)), seq![], false))
        }
    } else if starts_header(t) {
        if !single_title(t) {
            Err(MarkdownError::NotSingleTitleHeader { line: n })
        } else if current.len() > 0 {
            if !has_body {
                Err(MarkdownError::HeaderBeforeText { line: n })
            } else {
                Ok((ideas.push(idea_text(current)), seq![line], false))
            }
        } else {
            Ok((ideas, current.push(line), has_body))
        }
    } else if t.len() > 0 {
        if not_paragraph(t) {
            Err(MarkdownError::NotParagraph { line: n })
        } else {
            Ok((ideas, current.push(line), true))
        }
    } else {
        Ok((ideas, current.push(line), has_body))
    }
}

/// The first idea of `ideas[i..]` that is not a valid idea, with the reason.
pub open spec fn first_invalid(ideas: Seq<Seq<char>>, i: int) -> Option<MarkdownError>
    decreases ideas.len() - i,
{
    if i >= ideas.len() {
        None
    } else {
        match spec_validate_markdown(ideas[i]) {
            Err(e) => Some(e),
            Ok(_) => first_invalid(ideas, i + 1),
        }
    }
}

/// How an import ends once every line is read: the open idea (if any) is closed, and
/// every idea must be a valid idea.
pub open spec fn import_finish(st: ImportState) -> Result<Seq<Seq<char>>, MarkdownError> {
    let (ideas, current, has_body) = st;
    if current.len() == 0 && ideas.len() == 0 {
        Err(MarkdownError::NoIdeas)
    } else if current.len() > 0 && !has_body {
        Err(MarkdownError::LastIdeaWithoutText)
    } else {
        let all = if current.len() == 0 {
            ideas
        } else {
            ideas.push(idea_text(current))
        };
        match first_invalid(all, 0) {
            Some(e) => Err(e),
            None => Ok(all),
        }
    }
}

/// The import of the lines `nl[i..]` from state `st`.
pub open spec fn import_from(nl: Seq<(usize, Seq<char>)>, i: int, st: ImportState) -> Result<
    Seq<Seq<char>>,
    MarkdownError,
>
    decreases nl.len() - i,
{
    if i >= nl.len() {
        import_finish(st)
    } else {
        match import_step(st, nl[i].0, nl[i].1) {
            Err(e) => Err(e),
            Ok(next) => import_from(nl, i + 1, next),
        }
    }
}

/// What `split_import_markdown` answers: the ideas of an import, or why it is refused.
pub open spec fn spec_split_import(md: Seq<char>) -> Result<Seq<Seq<char>>, MarkdownError> {
    let m = trim(md);
    if m.len() == 0 {
        Err(MarkdownError::MarkdownRequired)
    } else {
        let nl = import_lines(m);
        if !first_content_is_title(nl, 0) {
            Err(MarkdownError::ImportMissingTitle)
        } else {
            import_from(nl, 0, (seq![], seq![], false))
        }
    }
}

fn is_project_comment_chars(t: &Vec<char>) -> (r: bool)
    ensures
        r == is_project_comment(t@),
{
    let open = literal("<!-- project:");
    let close = literal("-->");
    starts_with_chars(t, &open) && ends_with_chars(t, &close)
}

fn numbered_lines(md: &Vec<char>) -> (r: Vec<(usize, Vec<char>)>)
    ensures
        numbered_views(r@) == import_lines(md@),
        forall|k: int| 0 <= k < r.len() ==> r@[k].0 < usize::MAX,
{
    let ls = lines_of(md);
    let ghost lv = views(ls@);
    let mut r: Vec<(usize, Vec<char>)> = Vec::new();
    let mut i: usize = 0;
    assert(numbered_views(r@) =~= seq![]);
    assert(numbered_from(lv, 0) =~= seq![] + numbered_from(lv, 0));
    while i < ls.len()
        invariant
            i <= ls.len(),
            lv == views(ls@),
            lv == lines(md@),
            import_lines(md@) == numbered_views(r@) + numbered_from(lv, i as int),
            forall|k: int| 0 <= k < r.len() ==> r@[k].0 < ls.len(),
        decreases ls.len() - i,
    {
        assert(lv[i as int] == ls@[i as int]@);
        let t = trim_chars(&ls[i]);
        if !is_project_comment_chars(&t) {
            let line = copy_chars(&ls[i]);
            let ghost before = r@;
            r.push((i, line));
            assert(numbered_views(r@) =~= numbered_views(before).push((i, lv[i as int])));
            assert(numbered_views(r@) + numbered_from(lv, i + 1) =~= numbered_views(before) + (
            seq![(i as usize, lv[i as int])] + numbered_from(lv, i + 1)));
        }
        i = i + 1;
    }
    assert(numbered_views(r@) + numbered_from(lv, i as int) =~= numbered_views(r@));
    r
}

/// The lines of a markdown text with their 0-based numbers, leaving out the
/// `<!-- project: ... -->` comment lines of a bulk export.
pub fn normalized_import_lines(markdown: &str) -> (r: Vec<(usize, String)>)
    ensures
        numbered_string_views(r@) == import_lines(markdown@),
{
    let md = chars_of(markdown);
    let nl = numbered_lines(&md);
    let mut r: Vec<(usize, String)> = Vec::new();
    let mut i: usize = 0;
    while i < nl.len()
        invariant
            i <= nl.len(),
            r.len() == i,
            numbered_string_views(r@) == numbered_views(nl@).take(i as int),
        decreases nl.len() - i,
    {
        let ghost before = r@;
        let s = string_of(&nl[i].1);
        let pair = (nl[i].0, s);
        r.push(pair);
        assert(r@ == before.push(pair));
        assert(numbered_string_views(r@)[i as int] == numbered_views(nl@)[i as int]);
        assert(numbered_string_views(r@) =~= numbered_views(nl@).take(i + 1));
        i = i + 1;
    }
    assert(numbered_views(nl@).take(i as int) =~= numbered_views(nl@));
    r
}

fn is_separator_chars(t: &Vec<char>) -> (r: bool)
    ensures
        r == (t@ == separator()),
{
    if t.len() == 3 && t[0] == '-' && t[1] == '-' && t[2] == '-' {
        assert(t@ =~= separator());
        true
    } else {
        false
    }
}

fn first_content_is_title_exec(nl: &Vec<(usize, Vec<char>)>) -> (r: bool)
    ensures
        r == first_content_is_title(numbered_views(nl@), 0),
{
    let ghost nv = numbered_views(nl@);
    let title = vec!['#', ' '];
    assert(title@ =~= title_prefix());
    let mut k: usize = 0;
    while k < nl.len()
        invariant
            k <= nl.len(),
            nv == numbered_views(nl@),
            title@ == title_prefix(),
            first_content_is_title(nv, 0) == first_content_is_title(nv, k as int),
        decreases nl.len() - k,
    {
        let t = trim_chars(&nl[k].1);
        if t.len() > 0 && !is_separator_chars(&t) {
            return starts_with_chars(&t, &title);
        }
        k = k + 1;
    }
    false
}

/// The lines of `current` joined by newlines.
fn join_lines(current: &Vec<Vec<char>>) -> (r: Vec<char>)
    ensures
        r@ == join(views(current@), seq!['\n']),
{
    let ghost cv = views(current@);
    let mut out: Vec<char> = Vec::new();
    let mut k: usize = 0;
    assert(cv.take(0) =~= seq![]);
    while k < current.len()
        invariant
            k <= current.len(),
            cv == views(current@),
            out@ == join(cv.take(k as int), seq!['\n']),
        decreases current.len() - k,
    {
        let ghost before = out@;
        if k > 0 {
            out.push('\n');
        }
        append_chars(&mut out, &current[k]);
        proof {
            let t = cv.take(k + 1);
            assert(t.drop_last() =~= cv.take(k as int));
            assert(t.last() == current@[k as int]@);
            if k == 0 {
                assert(out@ =~= t[0]);
            } else {
                assert(out@ =~= join(t.drop_last(), seq!['\n']) + seq!['\n'] + t.last());
            }
        }
        k = k + 1;
    }
    assert(cv.take(k as int) =~= cv);
    out
}

fn idea_text_exec(current: &Vec<Vec<char>>) -> (r: Vec<char>)
    ensures
        r@ == idea_text(views(current@)),
{
    let joined = join_lines(current);
    trim_chars(&joined)
}

fn push_line(v: &mut Vec<Vec<char>>, line: Vec<char>)
    ensures
        views(final(v)@) == views(old(v)@).push(line@),
{
    let ghost before = v@;
    v.push(line);
    proof {
        lemma_views_push(before, line);
    }
}

/// Splits the characters of an import into ideas.
pub fn split_import_chars(md: &Vec<char>) -> (r: Result<Vec<Vec<char>>, MarkdownError>)
    ensures
        match r {
            Ok(v) => spec_split_import(md@) == Ok::<Seq<Seq<char>>, MarkdownError>(views(v@)),
            Err(e) => spec_split_import(md@) == Err::<Seq<Seq<char>>, MarkdownError>(e),
        },
{
    let m = trim_chars(md);
    if m.len() == 0 {
        return Err(MarkdownError::MarkdownRequired);
    }
    let nl = numbered_lines(&m);
    let ghost nv = numbered_views(nl@);
    if !first_content_is_title_exec(&nl) {
        return Err(MarkdownError::ImportMissingTitle);
    }
    let mut ideas: Vec<Vec<char>> = Vec::new();
    let mut current: Vec<Vec<char>> = Vec::new();
    let mut has_body = false;
    assert(views(ideas@) =~= seq![]);
    assert(views(current@) =~= seq![]);
    let ghost goal = spec_split_import(md@);
    assert(goal == import_from(nv, 0, (views(ideas@), views(current@), has_body)));
    let mut i: usize = 0;
    while i < nl.len()
        invariant
            i <= nl.len(),
            nv == numbered_views(nl@),
            forall|k: int| 0 <= k < nl.len() ==> nl@[k].0 < usize::MAX,
            goal == spec_split_import(md@),
            goal == import_from(nv, i as int, (views(ideas@), views(current@), has_body)),
        decreases nl.len() - i,
    {
        let idx = nl[i].0;
        let n = idx + 1;
        let ghost st = (views(ideas@), views(current@), has_body);
        let ghost line_v = nl@[i as int].1@;
        assert(nv[i as int] == (idx, line_v));
        let t = trim_chars(&nl[i].1);
        if t.len() == 0 && current.len() == 0 {
        } else if is_separator_chars(&t) {
            if current.len() == 0 {
            } else if !has_body {
                return Err(MarkdownError::SeparatorBeforeText { line: n });
            } else {
                let idea = idea_text_exec(&current);
                push_line(&mut ideas, idea);
                current = Vec::new();
                assert(views(current@) =~= seq![]);
                has_body = false;
            }
        } else if t.len() > 0 && t[0] == '#' {
            if !is_single_title_chars(&t) {
                return Err(MarkdownError::NotSingleTitleHeader { line: n });
            } else if current.len() > 0 {
                if !has_body {
                    return Err(MarkdownError::HeaderBeforeText { line: n });
                }
                let idea = idea_text_exec(&current);
                push_line(&mut ideas, idea);
                current = Vec::new();
                assert(views(current@) =~= seq![]);
                has_body = false;
                let line = copy_chars(&nl[i].1);
                push_line(&mut current, line);
                assert(views(current@) =~= seq![line_v]);
            } else {
                let line = copy_chars(&nl[i].1);
                push_line(&mut current, line);
            }
        } else if t.len() > 0 {
            if not_paragraph_chars(&t) {
                return Err(MarkdownError::NotParagraph { line: n });
            }
            let line = copy_chars(&nl[i].1);
            push_line(&mut current, line);
            has_body = true;
        } else {
            let line = copy_chars(&nl[i].1);
            push_line(&mut current, line);
        }
        assert(import_step(st, idx, line_v) == Ok::<ImportState, MarkdownError>(
            (views(ideas@), views(current@), has_body),
        ));
        i = i + 1;
    }
    if current.len() == 0 {
        if ideas.len() == 0 {
            return Err(MarkdownError::NoIdeas);
        }
    } else {
        if !has_body {
            return Err(MarkdownError::LastIdeaWithoutText);
        }
        let idea = idea_text_exec(&current);
        push_line(&mut ideas, idea);
    }
    let ghost all = views(ideas@);
    let mut k: usize = 0;
    while k < ideas.len()
        invariant
            k <= ideas.len(),
            all == views(ideas@),
            goal == spec_split_import(md@),
            goal == match first_invalid(all, 0) {
                Some(e) => Err(e),
                None => Ok(all),
            },
            first_invalid(all, 0) == first_invalid(all, k as int),
        decreases ideas.len() - k,
    {
        assert(all[k as int] == ideas@[k as int]@);
        match validate_chars(&ideas[k]) {
            Err(e) => {
                assert(spec_validate_markdown(all[k as int]) == Err::<Seq<char>, MarkdownError>(e));
                assert(first_invalid(all, k as int) == Some(e));
                return Err(e);
            },
            Ok(_) => {},
        }
        k = k + 1;
    }
    Ok(ideas)
}

/// Splits an imported markdown document into ideas: `# Title` headers start ideas, `---`
/// lines separate them, the comment lines of a bulk export are skipped, every idea must
/// have text, and every resulting idea (trimmed) must be a valid idea.
pub fn split_import_markdown(markdown: &str) -> (r: Result<Vec<String>, MarkdownError>)
    ensures
        match r {
            Ok(v) => spec_split_import(markdown@) == Ok::<Seq<Seq<char>>, MarkdownError>(
                string_views(v@),
            ),
            Err(e) => spec_split_import(markdown@) == Err::<Seq<Seq<char>>, MarkdownError>(e),
        },
{
    let md = chars_of(markdown);
    match split_import_chars(&md) {
        Err(e) => Err(e),
        Ok(ideas) => {
            let mut r: Vec<String> = Vec::new();
            let mut i: usize = 0;
            while i < ideas.len()
                invariant
                    i <= ideas.len(),
                    r.len() == i,
                    string_views(r@) == views(ideas@).take(i as int),
                decreases ideas.len() - i,
            {
                let ghost before = r@;
                let s = string_of(&ideas[i]);
                r.push(s);
                assert(r@ == before.push(s));
                assert(string_views(r@)[i as int] == views(ideas@)[i as int]);
                assert(string_views(r@) =~= views(ideas@).take(i + 1));
                i = i + 1;
            }
            assert(views(ideas@).take(i as int) =~= views(ideas@));
            Ok(r)
        },
    }
}

} // verus!

verus! {

proof fn lemma_first_invalid_none(ideas: Seq<Seq<char>>, i: int)
    requires
        0 <= i,
        first_invalid(ideas, i) is None,
    ensures
        forall|k: int| i <= k < ideas.len() ==> spec_validate_markdown(#[trigger] ideas[k]) is Ok,
    decreases ideas.len() - i,
{
    if i < ideas.len() {
        lemma_first_invalid_none(ideas, i + 1);
    }
}

proof fn lemma_import_from_valid(nl: Seq<(usize, Seq<char>)>, i: int, st: ImportState)
    requires
        0 <= i <= nl.len(),
        import_from(nl, i, st) is Ok,
    ensures
        forall|k: int|
            0 <= k < import_from(nl, i, st)->Ok_0.len() ==> spec_validate_markdown(
                #[trigger] import_from(nl, i, st)->Ok_0[k],
            ) is Ok,
    decreases nl.len() - i,
{
    if i >= nl.len() {
        let (ideas, current, has_body) = st;
        let all = if current.len() == 0 {
            ideas
        } else {
            ideas.push(idea_text(current))
        };
        lemma_first_invalid_none(all, 0);
    } else {
        let next = import_step(st, nl[i].0, nl[i].1)->Ok_0;
        lemma_import_from_valid(nl, i + 1, next);
    }
}

/// Every idea that an import yields is itself a valid idea.
pub proof fn lemma_imported_ideas_are_valid(md: Seq<char>)
    requires
        spec_split_import(md) is Ok,
    ensures
        forall|k: int|
            0 <= k < spec_split_import(md)->Ok_0.len() ==> spec_validate_markdown(
                #[trigger] spec_split_import(md)->Ok_0[k],
            ) is Ok,
{
    let nl = import_lines(trim(md));
    lemma_import_from_valid(nl, 0, (seq![], seq![], false));
}

} // verus!

verus! {

/// Blocks of lines, one block after another.
pub open spec fn concat_blocks(bs: Seq<Seq<Seq<char>>>) -> Seq<Seq<char>>
    decreases bs.len(),
{
    if bs.len() == 0 {
        seq![]
    } else {
        concat_blocks(bs.drop_last()) + bs.last()
    }
}

/// The lines of each text.
pub open spec fn line_blocks(texts: Seq<Seq<char>>) -> Seq<Seq<Seq<char>>> {
    Seq::new(texts.len(), |k: int| lines(texts[k]))
}

/// The lines of several texts, one text after another.
pub open spec fn concat_lines(texts: Seq<Seq<char>>) -> Seq<Seq<char>> {
    concat_blocks(line_blocks(texts))
}

/// Where block `k` starts among `concat_blocks(bs)`.
pub open spec fn block_start(bs: Seq<Seq<Seq<char>>>, k: int) -> nat {
    concat_blocks(bs.take(k)).len()
}

proof fn lemma_concat_step(bs: Seq<Seq<Seq<char>>>, k: int)
    requires
        0 <= k < bs.len(),
    ensures
        concat_blocks(bs.take(k + 1)) == concat_blocks(bs.take(k)) + bs[k],
{
    assert(bs.take(k + 1).drop_last() =~= bs.take(k));
}

proof fn lemma_concat_prefix(bs: Seq<Seq<Seq<char>>>, k: int)
    requires
        0 <= k <= bs.len(),
    ensures
        concat_blocks(bs.take(k)).len() <= concat_blocks(bs).len(),
        forall|g: int|
            0 <= g < concat_blocks(bs.take(k)).len() ==> #[trigger] concat_blocks(bs.take(k))[g]
                == concat_blocks(bs)[g],
    decreases bs.len() - k,
{
    if k == bs.len() {
        assert(bs.take(k) =~= bs);
    } else {
        lemma_concat_prefix(bs, k + 1);
        lemma_concat_step(bs, k);
        assert forall|g: int| 0 <= g < concat_blocks(bs.take(k)).len() implies #[trigger] concat_blocks(
            bs.take(k),
        )[g] == concat_blocks(bs)[g] by {
            assert(concat_blocks(bs.take(k + 1))[g] == concat_blocks(bs.take(k))[g]);
        }
    }
}

/// Block `k` stands in `concat_blocks(bs)` from `block_start(bs, k)` on.
pub(crate) proof fn lemma_block_lines(bs: Seq<Seq<Seq<char>>>, k: int)
    requires
        0 <= k < bs.len(),
    ensures
        block_start(bs, k + 1) == block_start(bs, k) + bs[k].len(),
        block_start(bs, k + 1) <= concat_blocks(bs).len(),
        forall|m: int|
            0 <= m < bs[k].len() ==> concat_blocks(bs)[block_start(bs, k) + m] == #[trigger] bs[k][m],
{
    lemma_concat_step(bs, k);
    lemma_concat_prefix(bs, k + 1);
    assert forall|m: int| 0 <= m < bs[k].len() implies concat_blocks(bs)[block_start(bs, k) + m]
        == #[trigger] bs[k][m] by {
        assert(concat_blocks(bs.take(k + 1))[block_start(bs, k) + m] == bs[k][m]);
    }
}

/// All blocks end where the concatenation ends.
pub(crate) proof fn lemma_block_end(bs: Seq<Seq<Seq<char>>>)
    ensures
        block_start(bs, bs.len() as int) == concat_blocks(bs).len(),
{
    assert(bs.take(bs.len() as int) =~= bs);
}

proof fn lemma_numbered_all(ls: Seq<Seq<char>>, i: int)
    requires
        0 <= i <= ls.len(),
        forall|j: int| i <= j < ls.len() ==> !is_project_comment(#[trigger] trim(ls[j])),
    ensures
        numbered_from(ls, i).len() == ls.len() - i,
        forall|k: int|
            0 <= k < ls.len() - i ==> #[trigger] numbered_from(ls, i)[k].1 == ls[i + k],
    decreases ls.len() - i,
{
    if i < ls.len() {
        lemma_numbered_all(ls, i + 1);
        assert(!is_project_comment(trim(ls[i])));
        let rest = numbered_from(ls, i + 1);
        assert forall|k: int| 0 <= k < ls.len() - i implies #[trigger] numbered_from(ls, i)[k].1
            == ls[i + k] by {
            if k > 0 {
                assert(numbered_from(ls, i)[k] == rest[k - 1]);
            }
        }
    }
}

/// What a valid, trimmed idea's lines look like.
pub(crate) proof fn lemma_valid_idea_lines(idea: Seq<char>)
    requires
        spec_validate_markdown(idea) is Ok,
        trim(idea) == idea,
    ensures
        lines(idea).len() > 0,
        body_scan(lines(idea), 0) == Ok::<bool, MarkdownError>(true),
        starts_with(lines(idea)[0], title_prefix()),
{
    lemma_lines_nonempty(idea);
}

/// The first line of an idea is its title header.
pub(crate) proof fn lemma_title_line(li: Seq<Seq<char>>)
    requires
        li.len() > 0,
        body_scan(li, 0) is Ok,
        starts_with(li[0], title_prefix()),
    ensures
        ({
            let t = trim(li[0]);
            &&& t.len() > 0
            &&& starts_header(t)
            &&& single_title(t)
            &&& t != separator()
            &&& body_scan(li, 0) == body_scan(li, 1)
        }),
{
    let l = li[0];
    assert(l.subrange(0, 2)[0] == l[0]);
    assert(l[0] == '#');
    assert(!is_ws(l[0]));
    assert(trim_start(l) == l);
    lemma_trim_end_keeps_first(l);
    let t = trim(l);
    assert(t[0] == '#');
    if t == separator() {
        assert(separator()[0] == '-');
    }
}

/// Reading the lines after the title of an idea adds each of them to the open idea.
proof fn lemma_import_body(
    nl: Seq<(usize, Seq<char>)>,
    p: int,
    li: Seq<Seq<char>>,
    j: int,
    ideas: Seq<Seq<char>>,
    hb: bool,
)
    requires
        1 <= j <= li.len(),
        0 <= p,
        p + li.len() <= nl.len(),
        forall|m: int| 0 <= m < li.len() ==> #[trigger] nl[p + m].1 == li[m],
        forall|m: int| 1 <= m < li.len() ==> !starts_header(#[trigger] trim(li[m])),
        body_scan(li, j) is Ok,
        hb || body_scan(li, j)->Ok_0,
    ensures
        import_from(nl, p + j, (ideas, li.take(j), hb)) == import_from(
            nl,
            p + li.len(),
            (ideas, li, true),
        ),
    decreases li.len() - j,
{
    if j == li.len() {
        assert(li.take(j) =~= li);
    } else {
        let line = li[j];
        assert(nl[p + j].1 == line);
        let t = trim(line);
        assert(li.take(j).push(line) =~= li.take(j + 1));
        assert(all_chars_are(separator(), '-'));
        assert(not_paragraph(separator()));
        if t.len() == 0 {
            lemma_import_body(nl, p, li, j + 1, ideas, hb);
        } else {
            lemma_import_body(nl, p, li, j + 1, ideas, true);
        }
    }
}

/// Reading the lines of a valid idea closes the open idea (if any) and leaves this one open,
/// with text.
pub(crate) proof fn lemma_import_block(
    nl: Seq<(usize, Seq<char>)>,
    p: int,
    li: Seq<Seq<char>>,
    st: ImportState,
)
    requires
        0 <= p,
        p + li.len() <= nl.len(),
        li.len() > 0,
        forall|m: int| 0 <= m < li.len() ==> #[trigger] nl[p + m].1 == li[m],
        forall|m: int| 1 <= m < li.len() ==> !starts_header(#[trigger] trim(li[m])),
        body_scan(li, 0) == Ok::<bool, MarkdownError>(true),
        starts_with(li[0], title_prefix()),
        (st.1.len() == 0 && !st.2) || (st.1.len() > 0 && st.2),
    ensures
        import_from(nl, p, st) == import_from(
            nl,
            p + li.len(),
            (
                if st.1.len() == 0 {
                    st.0
                } else {
                    st.0.push(idea_text(st.1))
                },
                li,
                true,
            ),
        ),
{
    lemma_title_line(li);
    assert(nl[p + 0].1 == li[0]);
    let ideas2 = if st.1.len() == 0 {
        st.0
    } else {
        st.0.push(idea_text(st.1))
    };
    assert(seq![li[0]] =~= li.take(1));
    assert(st.1.push(li[0]) =~= li.take(1) || st.1.len() > 0);
    lemma_import_body(nl, p, li, 1, ideas2, false);
}

pub(crate) proof fn lemma_all_valid_first_invalid(ideas: Seq<Seq<char>>, i: int)
    requires
        0 <= i,
        forall|k: int| 0 <= k < ideas.len() ==> spec_validate_markdown(#[trigger] ideas[k]) is Ok,
    ensures
        first_invalid(ideas, i) is None,
    decreases ideas.len() - i,
{
    if i < ideas.len() {
        lemma_all_valid_first_invalid(ideas, i + 1);
    }
}

/// The requirements on ideas written one after another for an import to give them back:
/// each is a valid idea, trimmed, without `\r`, with no header line after its title (an
/// import refuses the `##` sections that a single idea may hold), and no line of them reads
/// as an export comment.
pub open spec fn importable_ideas(ideas: Seq<Seq<char>>) -> bool {
    &&& forall|k: int| 0 <= k < ideas.len() ==> spec_validate_markdown(#[trigger] ideas[k]) is Ok
    &&& forall|k: int, m: int|
        0 <= k < ideas.len() && 1 <= m < lines(ideas[k]).len() ==> !starts_header(
            #[trigger] trim(lines(#[trigger] ideas[k])[m]),
        )
    &&& forall|k: int| 0 <= k < ideas.len() ==> trim(#[trigger] ideas[k]) == ideas[k]
    &&& forall|k: int| 0 <= k < ideas.len() ==> has_no_cr(#[trigger] ideas[k])
    &&& forall|g: int|
        0 <= g < concat_lines(ideas).len() ==> !is_project_comment(
            #[trigger] trim(concat_lines(ideas)[g]),
        )
}

/// A trimmed valid idea is its own idea text.
pub(crate) proof fn lemma_idea_text_of_lines(idea: Seq<char>)
    requires
        spec_validate_markdown(idea) is Ok,
        trim(idea) == idea,
        has_no_cr(idea),
    ensures
        idea_text(lines(idea)) == idea,
{
    lemma_trim_end_shape(trim_start(idea));
    assert(idea.last() != '\n') by {
        assert(is_ws('\n'));
    }
    lemma_join_lines(idea);
}

proof fn lemma_import_blocks(nl: Seq<(usize, Seq<char>)>, ideas: Seq<Seq<char>>, k: int)
    requires
        1 <= k <= ideas.len(),
        importable_ideas(ideas),
        nl.len() == concat_lines(ideas).len(),
        forall|g: int| 0 <= g < nl.len() ==> #[trigger] nl[g].1 == concat_lines(ideas)[g],
    ensures
        import_from(nl, 0, (seq![], seq![], false)) == import_from(
            nl,
            block_start(line_blocks(ideas), k) as int,
            (ideas.take(k - 1), lines(ideas[k - 1]), true),
        ),
    decreases k,
{
    let li = lines(ideas[k - 1]);
    lemma_valid_idea_lines(ideas[k - 1]);
    let lb = line_blocks(ideas);
    lemma_block_lines(lb, k - 1);
    let p = block_start(lb, k - 1) as int;
    assert forall|m: int| 0 <= m < li.len() implies #[trigger] nl[p + m].1 == li[m] by {
        assert(concat_lines(ideas)[p + m] == li[m]);
    }
    if k == 1 {
        assert(ideas.take(0) =~= seq![]);
        assert(lb.take(0) =~= seq![]);
        lemma_import_block(nl, 0, li, (seq![], seq![], false));
    } else {
        lemma_import_blocks(nl, ideas, k - 1);
        let prev = lines(ideas[k - 2]);
        lemma_valid_idea_lines(ideas[k - 2]);
        lemma_import_block(nl, p, li, (ideas.take(k - 2), prev, true));
        lemma_idea_text_of_lines(ideas[k - 2]);
        assert(ideas.take(k - 2).push(ideas[k - 2]) =~= ideas.take(k - 1));
    }
}

/// Ideas written one after another are imported back as those ideas: when the lines of an
/// import are the lines of valid ideas (trimmed, without `\r`, without a header line after
/// the title and without export comment lines), one idea after another, the import yields
/// exactly these ideas.
pub proof fn lemma_ideas_import_back(md: Seq<char>, ideas: Seq<Seq<char>>)
    requires
        ideas.len() > 0,
        importable_ideas(ideas),
        lines(trim(md)) == concat_lines(ideas),
    ensures
        spec_split_import(md) == Ok::<Seq<Seq<char>>, MarkdownError>(ideas),
{
    let l = concat_lines(ideas);
    let n = ideas.len() as int;
    lemma_valid_idea_lines(ideas[0]);
    let lb = line_blocks(ideas);
    lemma_block_lines(lb, 0);
    assert(lb.take(0) =~= seq![]);
    assert(block_start(lb, 0) == 0);
    assert(l.len() > 0);
    assert(trim(md).len() > 0) by {
        if trim(md).len() == 0 {
            assert(lines(trim(md)) =~= seq![]);
        }
    }
    let nl = import_lines(trim(md));
    lemma_numbered_all(l, 0);
    assert forall|g: int| 0 <= g < nl.len() implies #[trigger] nl[g].1 == l[g] by {
        assert(numbered_from(l, 0)[g].1 == l[0 + g]);
    }
    lemma_title_line(lines(ideas[0]));
    assert(nl[0].1 == lines(ideas[0])[0]);
    assert(first_content_is_title(nl, 0));
    lemma_import_blocks(nl, ideas, n);
    lemma_block_end(lb);
    lemma_valid_idea_lines(ideas[n - 1]);
    lemma_idea_text_of_lines(ideas[n - 1]);
    assert(ideas.take(n - 1).push(ideas[n - 1]) =~= ideas);
    lemma_all_valid_first_invalid(ideas, 0);
}

} // verus!

verus! {

pub(crate) proof fn lemma_trimmed_ends(s: Seq<char>)
    requires
        trim(s) == s,
        s.len() > 0,
    ensures
        !is_ws(s[0]),
        !is_ws(s.last()),
{
    // `s` is the trimmed form of itself: a prefix of `trim_start(s)`, ending with a
    // non-whitespace character, and no shorter than `s`.
    lemma_trim_end_shape(trim_start(s));
    crate::text::lemma_trim_start_shape(s);
    if is_ws(s[0]) {
        crate::text::lemma_trim_start_shape(s.drop_first());
    }
}

proof fn lemma_lines_of_joined(ideas: Seq<Seq<char>>)
    requires
        ideas.len() > 0,
        forall|k: int| 0 <= k < ideas.len() ==> trim(#[trigger] ideas[k]) == ideas[k],
        forall|k: int| 0 <= k < ideas.len() ==> (#[trigger] ideas[k]).len() > 0,
    ensures
        lines(join(ideas, seq!['\n'])) == concat_lines(ideas),
    decreases ideas.len(),
{
    let nl = seq!['\n'];
    if ideas.len() == 1 {
        assert(ideas.drop_last() =~= seq![]);
        let lb = line_blocks(ideas);
        assert(lb.drop_last() =~= seq![]);
        assert(concat_blocks(lb.drop_last()) =~= seq![]);
        assert(lb.last() == lines(ideas[0]));
        assert(concat_lines(ideas) =~= lines(ideas[0]));
    } else {
        let dl = ideas.drop_last();
        lemma_lines_of_joined(dl);
        assert(line_blocks(ideas).drop_last() =~= line_blocks(dl));
        lemma_join_ends(dl, nl);
        lemma_trimmed_ends(dl.last());
        assert('\n' == '\n' && is_ws('\n') && is_ws('\r'));
        lemma_lines_concat(join(dl, nl), ideas.last());
    }
}

/// A document of valid ideas written one after another, each starting on a new line, is
/// imported back as those ideas (ideas trimmed, without `\r`, without a header line after
/// the title and without export comment lines).
pub proof fn lemma_joined_ideas_import_back(ideas: Seq<Seq<char>>)
    requires
        ideas.len() > 0,
        importable_ideas(ideas),
    ensures
        spec_split_import(join(ideas, seq!['\n'])) == Ok::<Seq<Seq<char>>, MarkdownError>(ideas),
{
    let nl = seq!['\n'];
    assert forall|k: int| 0 <= k < ideas.len() implies (#[trigger] ideas[k]).len() > 0 by {
        assert(spec_validate_markdown(ideas[k]) is Ok);
        if ideas[k].len() == 0 {
            assert(trim(ideas[k]) =~= seq![]);
        }
    }
    lemma_lines_of_joined(ideas);
    let doc = join(ideas, nl);
    lemma_join_starts(ideas, nl);
    lemma_join_ends(ideas, nl);
    lemma_trimmed_ends(ideas[0]);
    lemma_trimmed_ends(ideas.last());
    lemma_trim_unchanged(doc);
    lemma_ideas_import_back(doc, ideas);
}

} // verus!

verus! {

/// Which lines are paragraph lines: a (trimmed, non-blank) line is refused only when it
/// starts with a list, quote, code or table marker (`-`, `*`, `>`, `` ` ``, `|`) or is made
/// only of `-` or only of `=`; every other line, whatever its first character, is a
/// paragraph line.
pub proof fn lemma_paragraph_lines(t: Seq<char>)
    requires
        t.len() > 0,
    ensures
        not_paragraph(t) <==> ({
            ||| t[0] == '-'
            ||| t[0] == '*'
            ||| t[0] == '>'
            ||| t[0] == '`'
            ||| t[0] == '|'
            ||| forall|j: int| 0 <= j < t.len() ==> #[trigger] t[j] == '-'
            ||| forall|j: int| 0 <= j < t.len() ==> #[trigger] t[j] == '='
        }),
{
}

/// A title line `# T` followed by one paragraph line is an idea with title `T`, for every
/// one-line title that does not start with `#` and every one-line paragraph line (trimmed,
/// not starting with `#` or a block marker, and not made only of `=`).
pub proof fn lemma_title_and_paragraph_is_idea(title: Seq<char>, x: Seq<char>)
    requires
        title.len() > 0,
        trim(title) == title,
        title[0] != '#',
        forall|j: int| 0 <= j < title.len() ==> #[trigger] title[j] != '\n',
        x.len() > 0,
        trim(x) == x,
        forall|j: int| 0 <= j < x.len() ==> #[trigger] x[j] != '\n',
        x[0] != '#',
        x[0] != '-' && x[0] != '*' && x[0] != '>' && x[0] != '`' && x[0] != '|',
        exists|j: int| 0 <= j < x.len() && #[trigger] x[j] != '=',
    ensures
        spec_validate_markdown(seq!['#', ' '] + title + seq!['\n'] + x) == Ok::<
            Seq<char>,
            MarkdownError,
        >(title),
{
    let h = seq!['#', ' '] + title;
    let md = h + seq!['\n'] + x;
    lemma_trimmed_ends(title);
    lemma_trimmed_ends(x);
    assert(h.last() == title.last());
    assert(is_ws('\n') && is_ws('\r'));
    assert(md[0] == '#');
    assert(md.last() == x.last());
    lemma_trim_unchanged(md);
    assert forall|j: int| 0 <= j < h.len() implies #[trigger] h[j] != '\n' by {
        if j >= 2 {
            assert(h[j] == title[j - 2]);
        }
    }
    crate::text::lemma_lines_single(h);
    crate::text::lemma_lines_single(x);
    lemma_lines_concat(h, x);
    let ls = lines(md);
    assert(ls =~= seq![h, x]);
    assert(starts_with(h, title_prefix())) by {
        assert(h.subrange(0, 2) =~= title_prefix());
    }
    assert(h.subrange(2, h.len() as int) =~= title);
    assert(!starts_with(title, title_prefix()));
    assert(title_prefix().len() == 2);
    assert(strip_all_prefix(h, title_prefix()) == strip_all_prefix(
        h.subrange(2, h.len() as int),
        title_prefix(),
    ));
    assert(strip_all_prefix(title, title_prefix()) == title);
    assert(strip_all_prefix(h, title_prefix()) == title);
    lemma_trim_unchanged(h);
    assert(!starts_with(h, subtitle_prefix())) by {
        assert(h[1] == ' ');
        if starts_with(h, subtitle_prefix()) {
            assert(h.subrange(0, 3)[1] == h[1]);
        }
    }
    assert(single_title(h));
    lemma_paragraph_lines(x);
    let w = choose|j: int| 0 <= j < x.len() && #[trigger] x[j] != '=';
    assert(!all_chars_are(x, '='));
    assert(!all_chars_are(x, '-'));
    assert(!not_paragraph(x));
    assert(body_scan(ls, 2) == Ok::<bool, MarkdownError>(false));
    assert(body_scan(ls, 1) == Ok::<bool, MarkdownError>(true));
    assert(body_scan(ls, 0) == Ok::<bool, MarkdownError>(true));
}

} // verus!
