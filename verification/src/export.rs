//! Ideas written one after another: separated by a blank line, by a `---` line, or as a
//! bulk export (each idea under a comment line that names its project, creation time and
//! id, with a `---` line between two entries); and the laws that importing any of these
//! gives back the ideas.
use vstd::prelude::*;
use crate::markdown::{
    block_start, concat_blocks, importable_ideas, is_project_comment,
    lemma_all_valid_first_invalid, lemma_block_end, lemma_block_lines, lemma_idea_text_of_lines,
    lemma_import_block, lemma_title_line, lemma_trimmed_ends, lemma_valid_idea_lines,
    line_blocks, concat_lines, first_content_is_title, idea_text, import_from, import_lines,
    numbered_from, separator, spec_split_import, spec_validate_markdown, ImportState,
    MarkdownError,
};
use crate::text::{
    has_no_cr, is_ws, join, lemma_join_ends, lemma_join_lines, lemma_join_push,
    lemma_join_starts, lemma_lines_concat, lemma_lines_newline_prefix, lemma_lines_single,
    lemma_trim_newline_suffix, lemma_trim_unchanged, lines, trim,
};

verus! {

/// A comment line of an export: an HTML comment `<!-- project: ... -->` on a line of its own.
pub open spec fn comment_line(c: Seq<char>) -> bool {
    &&& is_project_comment(c)
    &&& trim(c) == c
    &&& forall|i: int| 0 <= i < c.len() ==> c[i] != '\n'
}

/// What a bulk export puts between two entries: a `---` line between blank lines.
pub open spec fn export_separator() -> Seq<char> {
    seq!['\n', '\n', '-', '-', '-', '\n', '\n']
}

/// One entry of a bulk export: the comment line, a blank line, then the idea.
pub open spec fn export_entry(comment: Seq<char>, idea: Seq<char>) -> Seq<char> {
    comment + seq!['\n', '\n'] + idea
}

/// The entries of a bulk export of `ideas`, each under its comment line.
pub open spec fn export_entries(comments: Seq<Seq<char>>, ideas: Seq<Seq<char>>) -> Seq<
    Seq<char>,
> {
    Seq::new(ideas.len(), |k: int| export_entry(comments[k], ideas[k]))
}

/// A bulk export of `ideas`, each under its comment line.
pub open spec fn export_text(comments: Seq<Seq<char>>, ideas: Seq<Seq<char>>) -> Seq<char> {
    join(export_entries(comments, ideas), export_separator())
}

/// The lines of entry `k` of an export; every entry but the first starts with the
/// separator lines.
pub open spec fn export_block(comments: Seq<Seq<char>>, ideas: Seq<Seq<char>>, k: int) -> Seq<
    Seq<char>,
> {
    if k == 0 {
        seq![comments[0], seq![]] + lines(ideas[0])
    } else {
        seq![seq![], separator(), seq![], comments[k], seq![]] + lines(ideas[k])
    }
}

pub open spec fn export_blocks(comments: Seq<Seq<char>>, ideas: Seq<Seq<char>>) -> Seq<
    Seq<Seq<char>>,
> {
    Seq::new(ideas.len(), |k: int| export_block(comments, ideas, k))
}

proof fn lemma_comment_ends(c: Seq<char>)
    requires
        comment_line(c),
    ensures
        c.len() > 0,
        c[0] == '<',
        c.last() == '>',
{
    reveal_strlit("<!-- project:");
    reveal_strlit("-->");
    assert(c.subrange(0, 13)[0] == c[0]);
    assert(c.subrange(c.len() - 3, c.len() as int)[2] == c.last());
}

proof fn lemma_entry_lines(c: Seq<char>, idea: Seq<char>)
    requires
        comment_line(c),
    ensures
        lines(export_entry(c, idea)) == seq![c, seq![]] + lines(idea),
{
    lemma_comment_ends(c);
    let rest = seq!['\n'] + idea;
    assert(export_entry(c, idea) =~= c + seq!['\n'] + rest);
    lemma_lines_concat(c, rest);
    lemma_lines_single(c);
    lemma_lines_newline_prefix(idea);
    assert(seq![c] + (seq![seq![]] + lines(idea)) =~= seq![c, seq![]] + lines(idea));
}

proof fn lemma_separator_lines(x: Seq<char>, s: Seq<char>)
    requires
        x.len() > 0,
        x.last() != '\n',
        x.last() != '\r',
    ensures
        lines(x + export_separator() + s) == lines(x) + seq![seq![], separator(), seq![]]
            + lines(s),
{
    let dashes = seq!['-', '-', '-'];
    let y2 = seq!['\n'] + s;
    let y1 = dashes + seq!['\n'] + y2;
    let y = seq!['\n'] + y1;
    assert(x + export_separator() + s =~= x + seq!['\n'] + y);
    lemma_lines_concat(x, y);
    lemma_lines_newline_prefix(y1);
    lemma_lines_concat(dashes, y2);
    lemma_lines_single(dashes);
    lemma_lines_newline_prefix(s);
    assert(lines(x) + (seq![seq![]] + (seq![dashes] + (seq![seq![]] + lines(s)))) =~= lines(x)
        + seq![seq![], separator(), seq![]] + lines(s));
}

/// The lines of an export are the blocks of its entries, one after another.
proof fn lemma_export_lines(comments: Seq<Seq<char>>, ideas: Seq<Seq<char>>)
    requires
        ideas.len() > 0,
        comments.len() == ideas.len(),
        forall|k: int| 0 <= k < comments.len() ==> comment_line(#[trigger] comments[k]),
        forall|k: int| 0 <= k < ideas.len() ==> trim(#[trigger] ideas[k]) == ideas[k],
        forall|k: int| 0 <= k < ideas.len() ==> (#[trigger] ideas[k]).len() > 0,
    ensures
        lines(export_text(comments, ideas)) == concat_blocks(export_blocks(comments, ideas)),
    decreases ideas.len(),
{
    let n = ideas.len() as int;
    let es = export_entries(comments, ideas);
    let bs = export_blocks(comments, ideas);
    lemma_entry_lines(comments[n - 1], ideas[n - 1]);
    if n == 1 {
        assert(bs.drop_last() =~= seq![]);
        assert(concat_blocks(bs.drop_last()) =~= seq![]);
        assert(concat_blocks(bs) =~= bs[0]);
    } else {
        let cs = comments.drop_last();
        let is = ideas.drop_last();
        lemma_export_lines(cs, is);
        assert(es.drop_last() =~= export_entries(cs, is));
        assert(bs.drop_last() =~= export_blocks(cs, is));
        let x = export_text(cs, is);
        let ex = export_entries(cs, is);
        lemma_trimmed_ends(is.last());
        assert(ex.last() == export_entry(cs.last(), is.last()));
        assert(ex.last().last() == is.last().last());
        lemma_join_ends(ex, export_separator());
        assert(is_ws('\n') && is_ws('\r'));
        lemma_separator_lines(x, es.last());
        assert(bs.last() =~= seq![seq![], separator(), seq![]] + (seq![comments[n - 1], seq![]]
            + lines(ideas[n - 1])));
    }
}

/// The lines `ls[i..]` that an import reads: all but the export comment lines.
pub open spec fn kept_from(ls: Seq<Seq<char>>, i: int) -> Seq<Seq<char>>
    decreases ls.len() - i,
{
    if i >= ls.len() {
        seq![]
    } else if is_project_comment(trim(ls[i])) {
        kept_from(ls, i + 1)
    } else {
        seq![ls[i]] + kept_from(ls, i + 1)
    }
}

/// The lines an import reads of ideas written one after another: `lead` before the
/// first idea and `gap` between two ideas.
pub open spec fn gap_block(ideas: Seq<Seq<char>>, lead: Seq<Seq<char>>, gap: Seq<Seq<char>>, k: int) -> Seq<
    Seq<char>,
> {
    if k == 0 {
        lead + lines(ideas[0])
    } else {
        gap + lines(ideas[k])
    }
}

pub open spec fn gap_blocks(ideas: Seq<Seq<char>>, lead: Seq<Seq<char>>, gap: Seq<Seq<char>>) -> Seq<
    Seq<Seq<char>>,
> {
    Seq::new(ideas.len(), |k: int| gap_block(ideas, lead, gap, k))
}

/// Lines that are all empty.
pub open spec fn blank_lines(ls: Seq<Seq<char>>) -> bool {
    forall|j: int| 0 <= j < ls.len() ==> #[trigger] ls[j] == Seq::<char>::empty()
}

/// A gap between two ideas that an import passes over: an empty line, then either nothing
/// more or a `---` line followed by empty lines.
pub open spec fn closing_gap(gap: Seq<Seq<char>>) -> bool {
    &&& gap.len() > 0
    &&& gap[0] == Seq::<char>::empty()
    &&& (gap.len() == 1 || (gap[1] == separator() && blank_lines(gap.subrange(2, gap.len() as int))))
}

/// What an import reads before the first idea of an export: the empty line after its comment.
pub open spec fn export_lead() -> Seq<Seq<char>> {
    seq![seq![]]
}

/// What an import reads between two ideas of an export: an empty line, `---`, an empty
/// line, and the empty line after the comment.
pub open spec fn export_gap() -> Seq<Seq<char>> {
    seq![seq![], separator(), seq![], seq![]]
}

proof fn lemma_numbered_kept(ls: Seq<Seq<char>>, i: int)
    requires
        0 <= i,
    ensures
        numbered_from(ls, i).len() == kept_from(ls, i).len(),
        forall|g: int|
            0 <= g < kept_from(ls, i).len() ==> #[trigger] numbered_from(ls, i)[g].1 == kept_from(
                ls,
                i,
            )[g],
    decreases ls.len() - i,
{
    if i < ls.len() {
        lemma_numbered_kept(ls, i + 1);
        if !is_project_comment(trim(ls[i])) {
            assert forall|g: int| 0 <= g < kept_from(ls, i).len() implies #[trigger] numbered_from(
                ls,
                i,
            )[g].1 == kept_from(ls, i)[g] by {
                if g > 0 {
                    assert(numbered_from(ls, i)[g] == numbered_from(ls, i + 1)[g - 1]);
                    assert(kept_from(ls, i)[g] == kept_from(ls, i + 1)[g - 1]);
                }
            }
        }
    }
}

proof fn lemma_kept_shift(a: Seq<Seq<char>>, b: Seq<Seq<char>>, j: int)
    requires
        0 <= j <= b.len(),
    ensures
        kept_from(a + b, a.len() + j) == kept_from(b, j),
    decreases b.len() - j,
{
    if j < b.len() {
        assert((a + b)[a.len() + j] == b[j]);
        lemma_kept_shift(a, b, j + 1);
    }
}

proof fn lemma_kept_concat(a: Seq<Seq<char>>, b: Seq<Seq<char>>, i: int)
    requires
        0 <= i <= a.len(),
    ensures
        kept_from(a + b, i) == kept_from(a, i) + kept_from(b, 0),
    decreases a.len() - i,
{
    if i == a.len() {
        lemma_kept_shift(a, b, 0);
        assert(kept_from(a, i) + kept_from(b, 0) =~= kept_from(b, 0));
    } else {
        assert((a + b)[i] == a[i]);
        lemma_kept_concat(a, b, i + 1);
        assert(seq![a[i]] + (kept_from(a, i + 1) + kept_from(b, 0)) =~= (seq![a[i]] + kept_from(
            a,
            i + 1,
        )) + kept_from(b, 0));
    }
}

proof fn lemma_kept_all(ls: Seq<Seq<char>>, i: int)
    requires
        0 <= i <= ls.len(),
        forall|j: int| i <= j < ls.len() ==> !is_project_comment(#[trigger] trim(ls[j])),
    ensures
        kept_from(ls, i) == ls.subrange(i, ls.len() as int),
    decreases ls.len() - i,
{
    if i < ls.len() {
        lemma_kept_all(ls, i + 1);
        assert(seq![ls[i]] + ls.subrange(i + 1, ls.len() as int) =~= ls.subrange(
            i,
            ls.len() as int,
        ));
    } else {
        assert(ls.subrange(i, i) =~= seq![]);
    }
}

proof fn lemma_kept_blocks(bs: Seq<Seq<Seq<char>>>, fs: Seq<Seq<Seq<char>>>)
    requires
        bs.len() == fs.len(),
        forall|k: int| 0 <= k < bs.len() ==> kept_from(#[trigger] bs[k], 0) == fs[k],
    ensures
        kept_from(concat_blocks(bs), 0) == concat_blocks(fs),
    decreases bs.len(),
{
    if bs.len() > 0 {
        let bd = bs.drop_last();
        let fd = fs.drop_last();
        assert forall|k: int| 0 <= k < bd.len() implies kept_from(#[trigger] bd[k], 0) == fd[k] by {
            assert(bd[k] == bs[k]);
        }
        lemma_kept_blocks(bd, fd);
        lemma_kept_concat(concat_blocks(bd), bs.last(), 0);
        assert(kept_from(bs[bs.len() - 1], 0) == fs[fs.len() - 1]);
    }
}

/// No line of an idea is an export comment line.
proof fn lemma_idea_lines_kept(ideas: Seq<Seq<char>>, k: int)
    requires
        0 <= k < ideas.len(),
        importable_ideas(ideas),
    ensures
        forall|m: int|
            0 <= m < lines(ideas[k]).len() ==> !is_project_comment(
                #[trigger] trim(lines(ideas[k])[m]),
            ),
{
    let lb = line_blocks(ideas);
    lemma_block_lines(lb, k);
    assert forall|m: int| 0 <= m < lines(ideas[k]).len() implies !is_project_comment(
        #[trigger] trim(lines(ideas[k])[m]),
    ) by {
        assert(lb[k] == lines(ideas[k]));
        assert(concat_lines(ideas)[block_start(lb, k) + m] == lines(ideas[k])[m]);
    }
}

/// What an import reads of one entry of an export: its lines without the comment line.
proof fn lemma_kept_block(comments: Seq<Seq<char>>, ideas: Seq<Seq<char>>, k: int)
    requires
        0 <= k < ideas.len(),
        comments.len() == ideas.len(),
        comment_line(comments[k]),
        importable_ideas(ideas),
    ensures
        kept_from(export_block(comments, ideas, k), 0) == gap_block(
            ideas,
            export_lead(),
            export_gap(),
            k,
        ),
{
    reveal_strlit("<!-- project:");
    let li = lines(ideas[k]);
    lemma_idea_lines_kept(ideas, k);
    lemma_kept_all(li, 0);
    assert(li.subrange(0, li.len() as int) =~= li);
    let e: Seq<char> = seq![];
    assert(trim(e) =~= e);
    assert(!is_project_comment(trim(e)));
    assert(trim(separator()) =~= separator());
    assert(!is_project_comment(trim(separator())));
    let c = comments[k];
    if k == 0 {
        let head = seq![c, e];
        lemma_kept_concat(head, li, 0);
        assert(kept_from(head, 1) =~= seq![e] + kept_from(head, 2));
        assert(kept_from(head, 0) =~= seq![e]);
    } else {
        let head = seq![e, separator(), e, c, e];
        lemma_kept_concat(head, li, 0);
        assert(kept_from(head, 4) =~= seq![e] + kept_from(head, 5));
        assert(kept_from(head, 3) =~= seq![e]);
        assert(kept_from(head, 2) =~= seq![e, e]);
        assert(kept_from(head, 1) =~= seq![separator(), e, e]);
        assert(kept_from(head, 0) =~= seq![e, separator(), e, e]);
    }
}

/// The open idea's lines with a blank line after them make the same idea.
proof fn lemma_idea_text_blank_after(idea: Seq<char>)
    requires
        idea.len() > 0,
        trim(idea) == idea,
        has_no_cr(idea),
    ensures
        idea_text(lines(idea).push(seq![])) == idea,
{
    let nl = seq!['\n'];
    lemma_trimmed_ends(idea);
    assert(is_ws('\n'));
    lemma_join_lines(idea);
    crate::text::lemma_lines_nonempty(idea);
    lemma_join_push(lines(idea), seq![], nl);
    assert(idea + nl + seq![] =~= idea.push('\n'));
    lemma_trim_newline_suffix(idea);
}

/// Empty lines read while no idea is open change nothing.
proof fn lemma_skip_blanks(nl: Seq<(usize, Seq<char>)>, p: int, m: int, st: ImportState)
    requires
        0 <= p,
        0 <= m,
        p + m <= nl.len(),
        st.1.len() == 0,
        forall|j: int| 0 <= j < m ==> #[trigger] nl[p + j].1 == Seq::<char>::empty(),
    ensures
        import_from(nl, p, st) == import_from(nl, p + m, st),
    decreases m,
{
    if m > 0 {
        let e: Seq<char> = seq![];
        assert(trim(e) =~= e);
        assert(nl[p + 0].1 == e);
        assert forall|j: int| 0 <= j < m - 1 implies #[trigger] nl[(p + 1) + j].1
            == Seq::<char>::empty() by {
            assert(nl[p + (j + 1)].1 == Seq::<char>::empty());
        }
        lemma_skip_blanks(nl, p + 1, m - 1, st);
    }
}

/// Reading the lines of the first `k` ideas, with `lead` before the first and `gap` between
/// two, leaves the first `k - 1` ideas closed and the lines of idea `k - 1` open, with text.
proof fn lemma_gap_run(
    nl: Seq<(usize, Seq<char>)>,
    ideas: Seq<Seq<char>>,
    lead: Seq<Seq<char>>,
    gap: Seq<Seq<char>>,
    k: int,
)
    requires
        1 <= k <= ideas.len(),
        importable_ideas(ideas),
        blank_lines(lead),
        closing_gap(gap),
        nl.len() == concat_blocks(gap_blocks(ideas, lead, gap)).len(),
        forall|g: int|
            0 <= g < nl.len() ==> #[trigger] nl[g].1 == concat_blocks(gap_blocks(ideas, lead, gap))[g],
    ensures
        import_from(nl, 0, (seq![], seq![], false)) == import_from(
            nl,
            block_start(gap_blocks(ideas, lead, gap), k) as int,
            (ideas.take(k - 1), lines(ideas[k - 1]), true),
        ),
    decreases k,
{
    let gb = gap_blocks(ideas, lead, gap);
    let fl = concat_blocks(gb);
    let j = k - 1;
    let li = lines(ideas[j]);
    lemma_valid_idea_lines(ideas[j]);
    lemma_block_lines(gb, j);
    let p = block_start(gb, j) as int;
    let e: Seq<char> = seq![];
    assert(trim(e) =~= e);
    if k == 1 {
        let init = (Seq::<Seq<char>>::empty(), Seq::<Seq<char>>::empty(), false);
        assert(gb.take(0) =~= seq![]);
        assert(p == 0);
        assert(gb[0] == lead + li);
        assert forall|m: int| 0 <= m < lead.len() implies #[trigger] nl[0 + m].1
            == Seq::<char>::empty() by {
            assert(fl[p + m] == gb[0][m]);
            assert(lead[m] == Seq::<char>::empty());
        }
        lemma_skip_blanks(nl, 0, lead.len() as int, init);
        let q = lead.len() as int;
        assert forall|m: int| 0 <= m < li.len() implies #[trigger] nl[q + m].1 == li[m] by {
            assert(fl[p + (q + m)] == gb[0][q + m]);
        }
        lemma_import_block(nl, q, li, init);
        assert(ideas.take(0) =~= seq![]);
    } else {
        lemma_gap_run(nl, ideas, lead, gap, k - 1);
        let prev = lines(ideas[j - 1]);
        let st = (ideas.take(j - 1), prev, true);
        lemma_valid_idea_lines(ideas[j - 1]);
        assert(gb[j] == gap + li);
        assert(nl[p].1 == fl[p + 0] && fl[p + 0] == gb[j][0] && gb[j][0] == e);
        assert(prev.len() > 0);
        assert(e != separator());
        let st1 = (ideas.take(j - 1), prev.push(e), true);
        let closed = ideas.take(j - 1).push(idea_text(prev.push(e)));
        let st2 = (closed, Seq::<Seq<char>>::empty(), false);
        assert(import_from(nl, p, st) == import_from(nl, p + 1, st1));
        let q = p + gap.len();
        assert forall|m: int| 0 <= m < li.len() implies #[trigger] nl[q + m].1 == li[m] by {
            assert(fl[p + (gap.len() + m)] == gb[j][gap.len() + m]);
        }
        if gap.len() == 1 {
            lemma_import_block(nl, q, li, st1);
        } else {
            assert(nl[p + 1].1 == fl[p + 1] && fl[p + 1] == gb[j][1] && gb[j][1] == separator());
            assert(trim(separator()) =~= separator());
            assert(import_from(nl, p + 1, st1) == import_from(nl, p + 2, st2));
            let rest = gap.subrange(2, gap.len() as int);
            assert forall|m: int| 0 <= m < gap.len() - 2 implies #[trigger] nl[(p + 2) + m].1
                == Seq::<char>::empty() by {
                assert(fl[p + (2 + m)] == gb[j][2 + m]);
                assert(gap[2 + m] == rest[m]);
            }
            lemma_skip_blanks(nl, p + 2, gap.len() - 2, st2);
            lemma_import_block(nl, q, li, st2);
        }
        assert(ideas[j - 1].len() > 0) by {
            if ideas[j - 1].len() == 0 {
                assert(lines(ideas[j - 1]) =~= seq![]);
            }
        }
        lemma_idea_text_blank_after(ideas[j - 1]);
        assert(ideas.take(j - 1).push(ideas[j - 1]) =~= ideas.take(j));
    }
}

proof fn lemma_first_content(
    nl: Seq<(usize, Seq<char>)>,
    ideas: Seq<Seq<char>>,
    lead: Seq<Seq<char>>,
    i: int,
)
    requires
        0 <= i <= lead.len(),
        ideas.len() > 0,
        blank_lines(lead),
        spec_validate_markdown(ideas[0]) is Ok,
        trim(ideas[0]) == ideas[0],
        lead.len() < nl.len(),
        forall|m: int| 0 <= m < lead.len() ==> #[trigger] nl[m].1 == lead[m],
        nl[lead.len() as int].1 == lines(ideas[0])[0],
    ensures
        first_content_is_title(nl, i),
    decreases lead.len() - i,
{
    if i == lead.len() {
        lemma_valid_idea_lines(ideas[0]);
        lemma_title_line(lines(ideas[0]));
    } else {
        let e: Seq<char> = seq![];
        assert(trim(e) =~= e);
        assert(nl[i].1 == lead[i]);
        lemma_first_content(nl, ideas, lead, i + 1);
    }
}

/// An import whose lines (comment lines left out) are ideas with `lead` before the first
/// and `gap` between two yields exactly these ideas.
proof fn lemma_gap_import(
    md: Seq<char>,
    ideas: Seq<Seq<char>>,
    lead: Seq<Seq<char>>,
    gap: Seq<Seq<char>>,
)
    requires
        ideas.len() > 0,
        importable_ideas(ideas),
        blank_lines(lead),
        closing_gap(gap),
        md.len() > 0,
        trim(md) == md,
        import_lines(md).len() == concat_blocks(gap_blocks(ideas, lead, gap)).len(),
        forall|g: int|
            0 <= g < import_lines(md).len() ==> #[trigger] import_lines(md)[g].1 == concat_blocks(
                gap_blocks(ideas, lead, gap),
            )[g],
    ensures
        spec_split_import(md) == Ok::<Seq<Seq<char>>, MarkdownError>(ideas),
{
    let n = ideas.len() as int;
    let nl = import_lines(md);
    let gb = gap_blocks(ideas, lead, gap);
    let fl = concat_blocks(gb);
    let l0 = lines(ideas[0]);
    lemma_valid_idea_lines(ideas[0]);
    lemma_block_lines(gb, 0);
    assert(gb.take(0) =~= seq![]);
    assert(block_start(gb, 0) == 0);
    assert(gb[0] == lead + l0);
    assert forall|m: int| 0 <= m < lead.len() implies #[trigger] nl[m].1 == lead[m] by {
        assert(fl[block_start(gb, 0) + m] == gb[0][m]);
    }
    assert(fl[block_start(gb, 0) + (lead.len() as int)] == gb[0][lead.len() as int]);
    lemma_first_content(nl, ideas, lead, 0);
    lemma_gap_run(nl, ideas, lead, gap, n);
    lemma_block_end(gb);
    lemma_valid_idea_lines(ideas[n - 1]);
    lemma_idea_text_of_lines(ideas[n - 1]);
    assert(ideas.take(n - 1).push(ideas[n - 1]) =~= ideas);
    lemma_all_valid_first_invalid(ideas, 0);
}

/// Valid trimmed ideas are not empty, and a text joined from them is its own trimmed form.
proof fn lemma_joined_trimmed(ideas: Seq<Seq<char>>, sep: Seq<char>)
    requires
        ideas.len() > 0,
        importable_ideas(ideas),
    ensures
        forall|k: int| 0 <= k < ideas.len() ==> (#[trigger] ideas[k]).len() > 0,
        join(ideas, sep).len() > 0,
        trim(join(ideas, sep)) == join(ideas, sep),
{
    assert forall|k: int| 0 <= k < ideas.len() implies (#[trigger] ideas[k]).len() > 0 by {
        lemma_valid_idea_lines(ideas[k]);
        if ideas[k].len() == 0 {
            assert(lines(ideas[k]) =~= seq![]);
        }
    }
    lemma_join_starts(ideas, sep);
    lemma_join_ends(ideas, sep);
    lemma_trimmed_ends(ideas[0]);
    lemma_trimmed_ends(ideas.last());
    lemma_trim_unchanged(join(ideas, sep));
}

/// The import lines of a text without comment lines are all of its lines.
proof fn lemma_import_lines_all(md: Seq<char>, ideas: Seq<Seq<char>>, gap: Seq<Seq<char>>)
    requires
        importable_ideas(ideas),
        closing_gap(gap),
        lines(md) == concat_blocks(gap_blocks(ideas, seq![], gap)),
    ensures
        import_lines(md).len() == lines(md).len(),
        forall|g: int| 0 <= g < lines(md).len() ==> #[trigger] import_lines(md)[g].1 == lines(md)[g],
{
    reveal_strlit("<!-- project:");
    let gb = gap_blocks(ideas, seq![], gap);
    let e: Seq<char> = seq![];
    assert(trim(e) =~= e);
    assert(trim(separator()) =~= separator());
    assert forall|k: int| 0 <= k < gb.len() implies kept_from(#[trigger] gb[k], 0) == gb[k] by {
        let b = gb[k];
        lemma_idea_lines_kept(ideas, k);
        let li = lines(ideas[k]);
        let head: Seq<Seq<char>> = if k == 0 {
            seq![]
        } else {
            gap
        };
        assert(b == head + li);
        assert forall|j: int| 0 <= j < b.len() implies !is_project_comment(#[trigger] trim(b[j])) by {
            if j < head.len() {
                assert(head[j] == e || head[j] == separator()) by {
                    if j >= 2 {
                        assert(gap.subrange(2, gap.len() as int)[j - 2] == gap[j]);
                    }
                }
            } else {
                assert(b[j] == li[j - head.len()]);
            }
        }
        lemma_kept_all(b, 0);
        assert(b.subrange(0, b.len() as int) =~= b);
    }
    lemma_kept_blocks(gb, gb);
    let ls = lines(md);
    lemma_numbered_kept(ls, 0);
    assert forall|g: int| 0 <= g < ls.len() implies #[trigger] import_lines(md)[g].1 == ls[g] by {
        assert(numbered_from(ls, 0)[g].1 == kept_from(ls, 0)[g]);
    }
}

/// The lines of ideas joined by a blank line, or by a `---` line between blank lines.
proof fn lemma_joined_lines(ideas: Seq<Seq<char>>, dashed: bool)
    requires
        ideas.len() > 0,
        importable_ideas(ideas),
    ensures
        lines(join(ideas, if dashed { export_separator() } else { blank_line_separator() }))
            == concat_blocks(gap_blocks(ideas, seq![], if dashed { dash_gap() } else { blank_gap() })),
    decreases ideas.len(),
{
    let sep = if dashed {
        export_separator()
    } else {
        blank_line_separator()
    };
    let gap = if dashed {
        dash_gap()
    } else {
        blank_gap()
    };
    let n = ideas.len() as int;
    let gb = gap_blocks(ideas, seq![], gap);
    lemma_joined_trimmed(ideas, sep);
    if n == 1 {
        assert(gb.drop_last() =~= seq![]);
        assert(concat_blocks(gb.drop_last()) =~= seq![]);
        assert(gb[0] =~= lines(ideas[0]));
        assert(concat_blocks(gb) =~= lines(ideas[0]));
    } else {
        let is = ideas.drop_last();
        assert(importable_ideas(is)) by {
            let lb = line_blocks(ideas);
            let lbd = line_blocks(is);
            assert(lb.drop_last() =~= lbd);
            assert(concat_lines(ideas) == concat_lines(is) + lines(ideas[n - 1]));
            assert forall|g: int| 0 <= g < concat_lines(is).len() implies !is_project_comment(
                #[trigger] trim(concat_lines(is)[g]),
            ) by {
                assert(concat_lines(ideas)[g] == concat_lines(is)[g]);
            }
        }
        lemma_joined_lines(is, dashed);
        assert(gb.drop_last() =~= gap_blocks(is, seq![], gap));
        let x = join(is, sep);
        lemma_joined_trimmed(is, sep);
        lemma_trimmed_ends(x);
        assert(is_ws('\n') && is_ws('\r'));
        let s = ideas[n - 1];
        if dashed {
            lemma_separator_lines(x, s);
        } else {
            let y = seq!['\n'] + s;
            assert(x + sep + s =~= x + seq!['\n'] + y);
            lemma_lines_concat(x, y);
            lemma_lines_newline_prefix(s);
        }
        assert(gb.last() =~= gap + lines(s));
        assert(lines(x) + gap + lines(s) =~= lines(x) + (gap + lines(s)));
    }
}

/// What separates two ideas written with a blank line between them.
pub open spec fn blank_line_separator() -> Seq<char> {
    seq!['\n', '\n']
}

pub open spec fn blank_gap() -> Seq<Seq<char>> {
    seq![seq![]]
}

pub open spec fn dash_gap() -> Seq<Seq<char>> {
    seq![seq![], separator(), seq![]]
}

/// Ideas written one after another with a blank line between two are imported back as
/// those ideas, when each is a valid idea (trimmed, without `\r`, without a header line
/// after its title, and without lines that read as export comments).
pub proof fn lemma_blank_separated_ideas_import_back(ideas: Seq<Seq<char>>)
    requires
        ideas.len() > 0,
        importable_ideas(ideas),
    ensures
        spec_split_import(join(ideas, blank_line_separator())) == Ok::<
            Seq<Seq<char>>,
            MarkdownError,
        >(ideas),
{
    let doc = join(ideas, blank_line_separator());
    lemma_joined_trimmed(ideas, blank_line_separator());
    lemma_joined_lines(ideas, false);
    lemma_import_lines_all(doc, ideas, blank_gap());
    lemma_gap_import(doc, ideas, seq![], blank_gap());
}

/// Ideas written one after another with a `---` line between blank lines between two are
/// imported back as those ideas, under the same conditions.
pub proof fn lemma_dash_separated_ideas_import_back(ideas: Seq<Seq<char>>)
    requires
        ideas.len() > 0,
        importable_ideas(ideas),
    ensures
        spec_split_import(join(ideas, export_separator())) == Ok::<
            Seq<Seq<char>>,
            MarkdownError,
        >(ideas),
{
    let doc = join(ideas, export_separator());
    lemma_joined_trimmed(ideas, export_separator());
    lemma_joined_lines(ideas, true);
    assert(blank_lines(dash_gap().subrange(2, 3)));
    lemma_import_lines_all(doc, ideas, dash_gap());
    lemma_gap_import(doc, ideas, seq![], dash_gap());
}

/// A bulk export is imported back as the ideas it holds, in their order: when each idea
/// is a valid idea (trimmed, without `\r`, without a header line after its title, and
/// without lines that read as export comments) and stands under a one-line
/// `<!-- project: ... -->` comment, importing the export yields exactly those ideas. A valid
/// idea with a `##` section is exported but not imported back: an import refuses every
/// header but `# Title`.
pub proof fn lemma_export_imports_back(comments: Seq<Seq<char>>, ideas: Seq<Seq<char>>)
    requires
        ideas.len() > 0,
        comments.len() == ideas.len(),
        forall|k: int| 0 <= k < comments.len() ==> comment_line(#[trigger] comments[k]),
        importable_ideas(ideas),
    ensures
        spec_split_import(export_text(comments, ideas)) == Ok::<
            Seq<Seq<char>>,
            MarkdownError,
        >(ideas),
{
    let n = ideas.len() as int;
    assert forall|k: int| 0 <= k < ideas.len() implies (#[trigger] ideas[k]).len() > 0 by {
        lemma_valid_idea_lines(ideas[k]);
        if ideas[k].len() == 0 {
            assert(lines(ideas[k]) =~= seq![]);
        }
    }
    let es = export_entries(comments, ideas);
    let doc = export_text(comments, ideas);
    lemma_export_lines(comments, ideas);
    // The export is its own trimmed form: it starts with `<` and ends with the last idea.
    lemma_comment_ends(comments[0]);
    assert(es[0][0] == comments[0][0]);
    lemma_join_starts(es, export_separator());
    lemma_trimmed_ends(ideas[n - 1]);
    assert(es.last().last() == ideas[n - 1].last());
    lemma_join_ends(es, export_separator());
    assert(is_ws(doc[0]) == is_ws('<'));
    lemma_trim_unchanged(doc);
    // What the import reads: the blocks of the entries without their comment lines.
    let eb = export_blocks(comments, ideas);
    let rb = gap_blocks(ideas, export_lead(), export_gap());
    assert forall|k: int| 0 <= k < eb.len() implies kept_from(#[trigger] eb[k], 0) == rb[k] by {
        lemma_kept_block(comments, ideas, k);
    }
    lemma_kept_blocks(eb, rb);
    let ls = lines(doc);
    let nl = import_lines(doc);
    lemma_numbered_kept(ls, 0);
    let fl = concat_blocks(rb);
    assert forall|g: int| 0 <= g < nl.len() implies #[trigger] nl[g].1 == fl[g] by {
        assert(numbered_from(ls, 0)[g].1 == kept_from(ls, 0)[g]);
    }
    assert(blank_lines(export_lead()));
    assert(blank_lines(export_gap().subrange(2, 4)));
    lemma_gap_import(doc, ideas, export_lead(), export_gap());
}

} // verus!
