//! Searching ideas: the query filter and listing order, keywords of a spoken text, and the
//! ideas related to it.
use vstd::prelude::*;
use crate::markdown::string_views;
use crate::rank::{
    index_view, is_listing, key_views, listing_order, RankKey, RankView,
};
use crate::stored::{Idea, IdeaView, Timestamp};
use crate::text::{
    chars_of, contains, contains_chars, eq_chars, literal, lowercase, string_of, to_lowercase,
    trim, trim_chars,
};

verus! {

/// Whether a character is alphabetic or numeric in Unicode (`char::is_alphanumeric`),
/// named because the property takes Unicode's tables to state.
pub uninterp spec fn alphanumeric(c: char) -> bool;

/// Calls `char::is_alphanumeric`; its result is the name `alphanumeric` of the character.
#[verifier::external_body]
fn is_alphanumeric(c: char) -> (r: bool)
    ensures
        r == alphanumeric(c),
{
    c.is_alphanumeric()
}

/// The pieces of `s[i..]` between non-alphanumeric characters (`str::split` with a
/// predicate, empty pieces included); `done` holds the pieces so far, `cur` the open one.
pub open spec fn pieces_from(s: Seq<char>, i: int, done: Seq<Seq<char>>, cur: Seq<char>) -> Seq<
    Seq<char>,
>
    decreases s.len() - i,
{
    if i >= s.len() {
        done.push(cur)
    } else if !alphanumeric(s[i]) {
        pieces_from(s, i + 1, done.push(cur), seq![])
    } else {
        pieces_from(s, i + 1, done, cur.push(s[i]))
    }
}

/// The number of bytes UTF-8 takes for a character (`char::len_utf8`).
pub open spec fn utf8_width(c: char) -> nat {
    if (c as u32) < 0x80 {
        1
    } else if (c as u32) < 0x800 {
        2
    } else if (c as u32) < 0x10000 {
        3
    } else {
        4
    }
}

/// The length of a text in UTF-8 bytes (`String::len`).
pub open spec fn utf8_len(w: Seq<char>) -> nat
    decreases w.len(),
{
    if w.len() == 0 {
        0
    } else {
        utf8_len(w.drop_last()) + utf8_width(w.last())
    }
}

proof fn lemma_utf8_len_prefix(w: Seq<char>, i: int)
    requires
        0 <= i <= w.len(),
    ensures
        utf8_len(w.take(i)) <= utf8_len(w),
    decreases w.len() - i,
{
    if i < w.len() {
        lemma_utf8_len_prefix(w, i + 1);
        assert(w.take(i + 1).drop_last() =~= w.take(i));
    } else {
        assert(w.take(i) =~= w);
    }
}

/// Whether a text takes more than three bytes in UTF-8.
fn longer_than_three_bytes(w: &Vec<char>) -> (r: bool)
    ensures
        r == (utf8_len(w@) > 3),
{
    let mut total: usize = 0;
    let mut i: usize = 0;
    assert(w@.take(0) =~= seq![]);
    while i < w.len()
        invariant
            i <= w.len(),
            total == utf8_len(w@.take(i as int)),
            total <= 3,
        decreases w.len() - i,
    {
        let c = w[i];
        let width: usize = if (c as u32) < 0x80 {
            1
        } else if (c as u32) < 0x800 {
            2
        } else if (c as u32) < 0x10000 {
            3
        } else {
            4
        };
        assert(w@.take(i + 1).drop_last() =~= w@.take(i as int));
        total = total + width;
        i = i + 1;
        if total > 3 {
            proof {
                lemma_utf8_len_prefix(w@, i as int);
            }
            return true;
        }
    }
    assert(w@.take(i as int) =~= w@);
    false
}

/// Words too common to relate ideas.
pub open spec fn is_stop_word(w: Seq<char>) -> bool {
    ||| w == "about"@
    ||| w == "after"@
    ||| w == "again"@
    ||| w == "also"@
    ||| w == "because"@
    ||| w == "before"@
    ||| w == "being"@
    ||| w == "could"@
    ||| w == "from"@
    ||| w == "have"@
    ||| w == "into"@
    ||| w == "just"@
    ||| w == "like"@
    ||| w == "that"@
    ||| w == "their"@
    ||| w == "there"@
    ||| w == "these"@
    ||| w == "this"@
    ||| w == "with"@
    ||| w == "would"@
    ||| w == "your"@
}

/// A lower-case word that counts as a keyword: longer than three bytes and not a stop word.
pub open spec fn is_keyword(w: Seq<char>) -> bool {
    utf8_len(w) > 3 && !is_stop_word(w)
}

/// The keywords among the lower-case forms of `ps[i..]`, in order.
pub open spec fn keywords_from(ps: Seq<Seq<char>>, i: int) -> Seq<Seq<char>>
    decreases ps.len() - i,
{
    if i >= ps.len() {
        seq![]
    } else if is_keyword(lowercase(ps[i])) {
        seq![lowercase(ps[i])] + keywords_from(ps, i + 1)
    } else {
        keywords_from(ps, i + 1)
    }
}

/// The most keywords taken from a text.
pub open spec fn max_keywords() -> nat {
    24
}

/// The keywords of a text: the first 24 of its lower-cased words that count as keywords.
pub open spec fn spec_keywords(text: Seq<char>) -> Seq<Seq<char>> {
    let all = keywords_from(pieces_from(text, 0, seq![], seq![]), 0);
    if all.len() > max_keywords() {
        all.take(max_keywords() as int)
    } else {
        all
    }
}

fn is_stop_word_exec(w: &Vec<char>) -> (r: bool)
    ensures
        r == is_stop_word(w@),
{
    eq_chars(w, &literal("about")) || eq_chars(w, &literal("after")) || eq_chars(
        w,
        &literal("again"),
    ) || eq_chars(w, &literal("also")) || eq_chars(w, &literal("because")) || eq_chars(
        w,
        &literal("before"),
    ) || eq_chars(w, &literal("being")) || eq_chars(w, &literal("could")) || eq_chars(
        w,
        &literal("from"),
    ) || eq_chars(w, &literal("have")) || eq_chars(w, &literal("into")) || eq_chars(
        w,
        &literal("just"),
    ) || eq_chars(w, &literal("like")) || eq_chars(w, &literal("that")) || eq_chars(
        w,
        &literal("their"),
    ) || eq_chars(w, &literal("there")) || eq_chars(w, &literal("these")) || eq_chars(
        w,
        &literal("this"),
    ) || eq_chars(w, &literal("with")) || eq_chars(w, &literal("would")) || eq_chars(
        w,
        &literal("your"),
    )
}

fn text_pieces(s: &Vec<char>) -> (r: Vec<Vec<char>>)
    ensures
        crate::text::views(r@) == pieces_from(s@, 0, seq![], seq![]),
{
    let mut done: Vec<Vec<char>> = Vec::new();
    let mut cur: Vec<char> = Vec::new();
    let mut i: usize = 0;
    assert(crate::text::views(done@) =~= seq![]);
    while i < s.len()
        invariant
            i <= s.len(),
            pieces_from(s@, 0, seq![], seq![]) == pieces_from(
                s@,
                i as int,
                crate::text::views(done@),
                cur@,
            ),
        decreases s.len() - i,
    {
        if !is_alphanumeric(s[i]) {
            let ghost before = done@;
            done.push(cur);
            proof {
                crate::text::lemma_views_push(before, cur);
            }
            cur = Vec::new();
            assert(cur@ =~= seq![]);
        } else {
            cur.push(s[i]);
        }
        i = i + 1;
    }
    let ghost before = done@;
    done.push(cur);
    proof {
        crate::text::lemma_views_push(before, cur);
    }
    done
}

/// The keywords of a text, used to find related ideas while an idea is spoken.
pub fn keywords(text: &str) -> (r: Vec<String>)
    ensures
        string_views(r@) == spec_keywords(text@),
{
    let s = chars_of(text);
    let ps = text_pieces(&s);
    let ghost pv = crate::text::views(ps@);
    let mut all: Vec<String> = Vec::new();
    let mut i: usize = 0;
    assert(keywords_from(pv, 0) =~= string_views(all@) + keywords_from(pv, 0));
    while i < ps.len()
        invariant
            i <= ps.len(),
            pv == crate::text::views(ps@),
            keywords_from(pv, 0) == string_views(all@) + keywords_from(pv, i as int),
        decreases ps.len() - i,
    {
        assert(pv[i as int] == ps@[i as int]@);
        let piece = string_of(&ps[i]);
        let word = to_lowercase(piece.as_str());
        let wv = chars_of(word.as_str());
        if longer_than_three_bytes(&wv) && !is_stop_word_exec(&wv) {
            let ghost before = all@;
            all.push(word);
            assert(string_views(all@) =~= string_views(before).push(wv@));
            assert(string_views(all@) + keywords_from(pv, i + 1) =~= string_views(before) + (seq![
                wv@,
            ] + keywords_from(pv, i + 1)));
        }
        i = i + 1;
    }
    assert(string_views(all@) + keywords_from(pv, i as int) =~= string_views(all@));
    let mut r: Vec<String> = Vec::new();
    let mut k: usize = 0;
    while k < all.len() && k < 24
        invariant
            k <= all.len(),
            k <= 24,
            r.len() == k,
            string_views(r@) == string_views(all@).take(k as int),
        decreases all.len() - k,
    {
        let ghost before = r@;
        let w = all[k].clone();
        r.push(w);
        assert(r@ == before.push(w));
        assert(string_views(r@) =~= string_views(all@).take(k + 1));
        k = k + 1;
    }
    assert(s@ == text@);
    assert(pv == pieces_from(text@, 0, seq![], seq![]));
    assert(string_views(all@) == keywords_from(pv, 0));
    if all.len() <= 24 {
        assert(string_views(all@).take(k as int) =~= string_views(all@));
    } else {
        assert(k == 24);
    }
    r
}

pub open spec fn idea_views(v: Seq<Idea>) -> Seq<IdeaView> {
    Seq::new(v.len(), |i: int| v[i]@)
}

/// A copy of an idea.
pub fn copy_idea(idea: &Idea) -> (r: Idea)
    ensures
        r@ == idea@,
{
    Idea {
        id: idea.id.clone(),
        project: idea.project.clone(),
        title: idea.title.clone(),
        markdown: idea.markdown.clone(),
        created_at: idea.created_at,
    }
}

/// The search text of a query: the trimmed query, lower-cased, where it is not blank.
pub open spec fn active_query(query: Option<Seq<char>>) -> Option<Seq<char>> {
    match query {
        None => None,
        Some(q) => if trim(q).len() == 0 {
            None
        } else {
            Some(lowercase(trim(q)))
        },
    }
}

/// An idea matches a search text when its project, id, title or markdown contains it,
/// compared in lower case.
pub open spec fn idea_matches(idea: IdeaView, q: Seq<char>) -> bool {
    ||| contains(lowercase(idea.project), q)
    ||| contains(lowercase(idea.id), q)
    ||| contains(lowercase(idea.title), q)
    ||| contains(lowercase(idea.markdown), q)
}

/// The ideas of `ideas[i..]` that match `q`, in order.
pub open spec fn matching_from(ideas: Seq<IdeaView>, q: Seq<char>, i: int) -> Seq<IdeaView>
    decreases ideas.len() - i,
{
    if i >= ideas.len() {
        seq![]
    } else if idea_matches(ideas[i], q) {
        seq![ideas[i]] + matching_from(ideas, q, i + 1)
    } else {
        matching_from(ideas, q, i + 1)
    }
}

/// The ideas a query keeps: all of them without a search text.
pub open spec fn query_matches(ideas: Seq<IdeaView>, query: Option<Seq<char>>) -> Seq<IdeaView> {
    match active_query(query) {
        None => ideas,
        Some(q) => matching_from(ideas, q, 0),
    }
}

/// Listing keys of ideas: newest first, then by title.
pub open spec fn newest_first_keys(ideas: Seq<IdeaView>) -> Seq<RankView> {
    Seq::new(
        ideas.len(),
        |i: int| RankView { score: 0, created: ideas[i].created_at, title: ideas[i].title },
    )
}

/// `result` holds the first `limit` of `items` in the order of `keys`.
pub open spec fn listed_top(
    result: Seq<IdeaView>,
    items: Seq<IdeaView>,
    keys: Seq<RankView>,
    limit: nat,
) -> bool {
    exists|p: Seq<int>|
        is_listing(keys, p) && result.len() == (if p.len() < limit {
            p.len()
        } else {
            limit
        }) && forall|k: int| 0 <= k < result.len() ==> #[trigger] result[k] == items[p[k]]
}

/// `result` lists all of `items` in the order of `keys`.
pub open spec fn listed_as(result: Seq<IdeaView>, items: Seq<IdeaView>, keys: Seq<RankView>) -> bool {
    listed_top(result, items, keys, items.len())
}

pub open spec fn query_view(query: Option<&str>) -> Option<Seq<char>> {
    match query {
        Some(q) => Some(q@),
        None => None,
    }
}

fn idea_matches_exec(idea: &Idea, q: &Vec<char>) -> (r: bool)
    ensures
        r == idea_matches(idea@, q@),
{
    let p = to_lowercase(idea.project.as_str());
    if contains_chars(&chars_of(p.as_str()), q) {
        return true;
    }
    let i = to_lowercase(idea.id.as_str());
    if contains_chars(&chars_of(i.as_str()), q) {
        return true;
    }
    let t = to_lowercase(idea.title.as_str());
    if contains_chars(&chars_of(t.as_str()), q) {
        return true;
    }
    let m = to_lowercase(idea.markdown.as_str());
    contains_chars(&chars_of(m.as_str()), q)
}

/// The first `limit` ideas in listing order by the given keys.
fn list_by(items: &Vec<Idea>, keys: &Vec<RankKey>, limit: usize) -> (r: Vec<Idea>)
    requires
        keys.len() == items.len(),
    ensures
        listed_top(idea_views(r@), idea_views(items@), key_views(keys@), limit as nat),
{
    let p = listing_order(keys);
    let ghost pv = index_view(p@);
    let mut r: Vec<Idea> = Vec::new();
    let mut k: usize = 0;
    while k < p.len() && k < limit
        invariant
            k <= p.len(),
            k <= limit,
            p.len() == items.len(),
            pv == index_view(p@),
            is_listing(key_views(keys@), pv),
            keys.len() == items.len(),
            r.len() == k,
            forall|m: int| 0 <= m < k ==> #[trigger] idea_views(r@)[m] == idea_views(items@)[pv[m]],
        decreases p.len() - k,
    {
        assert(pv[k as int] == p@[k as int] as int);
        assert(0 <= pv[k as int] < key_views(keys@).len());
        let ghost before = r@;
        let idea = copy_idea(&items[p[k]]);
        r.push(idea);
        assert(r@ == before.push(idea));
        assert forall|m: int| 0 <= m < k + 1 implies #[trigger] idea_views(r@)[m] == idea_views(
            items@,
        )[pv[m]] by {
            if m < k {
                assert(idea_views(r@)[m] == idea_views(before)[m]);
            }
        }
        k = k + 1;
    }
    r
}

/// Filters ideas by a search query (matching project, id, title or markdown, ignoring case)
/// and lists them newest first, then by title; equal ideas keep their order.
pub fn filter_sort_ideas(ideas: Vec<Idea>, query: Option<&str>) -> (r: Vec<Idea>)
    ensures
        ({
            let kept = query_matches(idea_views(ideas@), query_view(query));
            listed_as(idea_views(r@), kept, newest_first_keys(kept))
        }),
{
    let ghost all = idea_views(ideas@);
    let mut kept: Vec<Idea> = Vec::new();
    let q = match query {
        None => None,
        Some(q) => {
            let qv = chars_of(q);
            let t = trim_chars(&qv);
            if t.len() == 0 {
                None
            } else {
                let ts = string_of(&t);
                let low = to_lowercase(ts.as_str());
                Some(chars_of(low.as_str()))
            }
        },
    };
    match q {
        None => {
            let mut i: usize = 0;
            while i < ideas.len()
                invariant
                    i <= ideas.len(),
                    all == idea_views(ideas@),
                    kept.len() == i,
                    idea_views(kept@) == all.take(i as int),
                decreases ideas.len() - i,
            {
                let ghost before = kept@;
                let idea = copy_idea(&ideas[i]);
                kept.push(idea);
                assert(kept@ == before.push(idea));
                assert(idea_views(kept@) =~= all.take(i + 1));
                i = i + 1;
            }
            assert(all.take(i as int) =~= all);
        },
        Some(qv) => {
            let mut i: usize = 0;
            assert(matching_from(all, qv@, 0) =~= idea_views(kept@) + matching_from(all, qv@, 0));
            while i < ideas.len()
                invariant
                    i <= ideas.len(),
                    all == idea_views(ideas@),
                    matching_from(all, qv@, 0) == idea_views(kept@) + matching_from(
                        all,
                        qv@,
                        i as int,
                    ),
                decreases ideas.len() - i,
            {
                if idea_matches_exec(&ideas[i], &qv) {
                    let ghost before = kept@;
                    let idea = copy_idea(&ideas[i]);
                    kept.push(idea);
                    assert(kept@ == before.push(idea));
                    assert(idea_views(kept@) =~= idea_views(before).push(all[i as int]));
                    assert(idea_views(kept@) + matching_from(all, qv@, i + 1) =~= idea_views(before)
                        + (seq![all[i as int]] + matching_from(all, qv@, i + 1)));
                }
                i = i + 1;
            }
            assert(idea_views(kept@) + matching_from(all, qv@, i as int) =~= idea_views(kept@));
        },
    }
    let ghost kv = idea_views(kept@);
    assert(kv == query_matches(all, query_view(query)));
    let mut keys: Vec<RankKey> = Vec::new();
    let mut i: usize = 0;
    while i < kept.len()
        invariant
            i <= kept.len(),
            kv == idea_views(kept@),
            keys.len() == i,
            forall|m: int| 0 <= m < i ==> #[trigger] key_views(keys@)[m] == newest_first_keys(kv)[m],
        decreases kept.len() - i,
    {
        let ghost before = keys@;
        let key = RankKey {
            score: 0,
            created: kept[i].created_at,
            title: chars_of(kept[i].title.as_str()),
        };
        keys.push(key);
        assert(keys@ == before.push(key));
        assert forall|m: int| 0 <= m < i + 1 implies #[trigger] key_views(keys@)[m]
            == newest_first_keys(kv)[m] by {
            if m < i {
                assert(key_views(keys@)[m] == key_views(before)[m]);
            }
        }
        i = i + 1;
    }
    assert(key_views(keys@) =~= newest_first_keys(kv));
    list_by(&kept, &keys, kept.len())
}

} // verus!

verus! {

/// The text an idea is searched in for related keywords: title and markdown, lower-cased.
pub open spec fn related_text(idea: IdeaView) -> Seq<char> {
    lowercase(idea.title + seq![' '] + idea.markdown)
}

/// How many of the words (counted with repeats) occur in the text.
pub open spec fn hits(hay: Seq<char>, words: Seq<Seq<char>>) -> nat
    decreases words.len(),
{
    if words.len() == 0 {
        0
    } else {
        hits(hay, words.drop_last()) + (if contains(hay, words.last()) {
            1nat
        } else {
            0nat
        })
    }
}

/// The ideas of `ideas[i..]` that contain at least one word, with their number of hits.
pub open spec fn scored_from(ideas: Seq<IdeaView>, words: Seq<Seq<char>>, i: int) -> Seq<
    (IdeaView, nat),
>
    decreases ideas.len() - i,
{
    if i >= ideas.len() {
        seq![]
    } else {
        let n = hits(related_text(ideas[i]), words);
        if n > 0 {
            seq![(ideas[i], n)] + scored_from(ideas, words, i + 1)
        } else {
            scored_from(ideas, words, i + 1)
        }
    }
}

/// Listing keys of related ideas: most hits first, then newest first.
pub open spec fn related_keys(sc: Seq<(IdeaView, nat)>) -> Seq<RankView> {
    Seq::new(
        sc.len(),
        |i: int| RankView { score: sc[i].1 as int, created: sc[i].0.created_at, title: seq![] },
    )
}

pub open spec fn scored_ideas(sc: Seq<(IdeaView, nat)>) -> Seq<IdeaView> {
    Seq::new(sc.len(), |i: int| sc[i].0)
}

/// The most related ideas listed.
pub open spec fn max_related() -> nat {
    8
}

fn hits_exec(hay: &Vec<char>, words: &Vec<Vec<char>>) -> (r: usize)
    ensures
        r == hits(hay@, crate::text::views(words@)),
        r <= words.len(),
{
    let ghost wv = crate::text::views(words@);
    let mut n: usize = 0;
    let mut k: usize = 0;
    assert(wv.take(0) =~= seq![]);
    while k < words.len()
        invariant
            k <= words.len(),
            wv == crate::text::views(words@),
            n == hits(hay@, wv.take(k as int)),
            n <= k,
        decreases words.len() - k,
    {
        assert(wv.take(k + 1).drop_last() =~= wv.take(k as int));
        assert(wv.take(k + 1).last() == words@[k as int]@);
        if contains_chars(hay, &words[k]) {
            n = n + 1;
        }
        k = k + 1;
    }
    assert(wv.take(k as int) =~= wv);
    n
}

/// The ideas related to a spoken text, given its keywords: those whose title or markdown
/// contains at least one keyword, most hits first, then newest first, at most eight.
pub fn related_ideas(words: &Vec<String>, ideas: &Vec<Idea>) -> (r: Vec<Idea>)
    ensures
        ({
            let sc = scored_from(idea_views(ideas@), string_views(words@), 0);
            listed_top(idea_views(r@), scored_ideas(sc), related_keys(sc), max_related())
        }),
{
    let ghost all = idea_views(ideas@);
    let ghost ws = string_views(words@);
    let mut wv: Vec<Vec<char>> = Vec::new();
    let mut k: usize = 0;
    while k < words.len()
        invariant
            k <= words.len(),
            ws == string_views(words@),
            wv.len() == k,
            crate::text::views(wv@) == ws.take(k as int),
        decreases words.len() - k,
    {
        let ghost before = wv@;
        let w = chars_of(words[k].as_str());
        wv.push(w);
        proof {
            crate::text::lemma_views_push(before, w);
        }
        assert(crate::text::views(wv@) =~= ws.take(k + 1));
        k = k + 1;
    }
    assert(ws.take(k as int) =~= ws);
    let mut items: Vec<Idea> = Vec::new();
    let mut keys: Vec<RankKey> = Vec::new();
    let ghost mut sc: Seq<(IdeaView, nat)> = seq![];
    let mut i: usize = 0;
    assert(scored_from(all, ws, 0) =~= sc + scored_from(all, ws, 0));
    while i < ideas.len()
        invariant
            i <= ideas.len(),
            all == idea_views(ideas@),
            crate::text::views(wv@) == ws,
            scored_from(all, ws, 0) == sc + scored_from(all, ws, i as int),
            items.len() == sc.len(),
            keys.len() == sc.len(),
            idea_views(items@) == scored_ideas(sc),
            key_views(keys@) == related_keys(sc),
        decreases ideas.len() - i,
    {
        let mut hay_v = chars_of(ideas[i].title.as_str());
        hay_v.push(' ');
        let md = chars_of(ideas[i].markdown.as_str());
        crate::text::append_chars(&mut hay_v, &md);
        assert(hay_v@ =~= all[i as int].title + seq![' '] + all[i as int].markdown);
        let hay_s = string_of(&hay_v);
        let low = to_lowercase(hay_s.as_str());
        let hay = chars_of(low.as_str());
        assert(hay@ == related_text(all[i as int]));
        let n = hits_exec(&hay, &wv);
        if n > 0 {
            let ghost entry = (all[i as int], n as nat);
            let ghost before_items = items@;
            let ghost before_keys = keys@;
            let idea = copy_idea(&ideas[i]);
            assert(idea@ == all[i as int]);
            let key = RankKey { score: n, created: ideas[i].created_at, title: Vec::new() };
            items.push(idea);
            keys.push(key);
            proof {
                assert(items@ == before_items.push(idea));
                assert(keys@ == before_keys.push(key));
                let sc2 = sc.push(entry);
                assert forall|j: int| 0 <= j < sc2.len() implies idea_views(items@)[j]
                    == scored_ideas(sc2)[j] by {
                    if j < sc.len() {
                        assert(idea_views(items@)[j] == idea_views(before_items)[j]);
                        assert(scored_ideas(sc)[j] == scored_ideas(sc2)[j]);
                    }
                }
                assert(idea_views(items@) =~= scored_ideas(sc2));
                assert(key@.title =~= seq![]);
                assert forall|j: int| 0 <= j < sc2.len() implies key_views(keys@)[j]
                    == related_keys(sc2)[j] by {
                    if j < sc.len() {
                        assert(key_views(keys@)[j] == key_views(before_keys)[j]);
                        assert(related_keys(sc)[j] == related_keys(sc2)[j]);
                    }
                }
                assert(key_views(keys@) =~= related_keys(sc2));
                assert(sc2 + scored_from(all, ws, i + 1) =~= sc + (seq![entry] + scored_from(
                    all,
                    ws,
                    i + 1,
                )));
                sc = sc2;
            }
        }
        i = i + 1;
    }
    assert(sc + scored_from(all, ws, i as int) =~= sc);
    list_by(&items, &keys, 8)
}

/// The first idea with the given id, as importing an idea from another project picks it.
pub fn find_idea_by_id(ideas: &Vec<Idea>, id: &str) -> (r: Option<usize>)
    ensures
        match r {
            Some(k) => k < ideas.len() && ideas@[k as int].id@ == id@ && forall|m: int|
                0 <= m < k ==> ideas@[m].id@ != id@,
            None => forall|m: int| 0 <= m < ideas.len() ==> ideas@[m].id@ != id@,
        },
{
    let idv = chars_of(id);
    let mut k: usize = 0;
    while k < ideas.len()
        invariant
            k <= ideas.len(),
            idv@ == id@,
            forall|m: int| 0 <= m < k ==> ideas@[m].id@ != id@,
        decreases ideas.len() - k,
    {
        let cur = chars_of(ideas[k].id.as_str());
        if eq_chars(&cur, &idv) {
            return Some(k);
        }
        k = k + 1;
    }
    None
}

/// Whether an idea id is among the ids selected for deletion.
pub fn is_selected_id(ids: &Vec<String>, id: &str) -> (r: bool)
    ensures
        r == exists|m: int| 0 <= m < ids.len() && #[trigger] ids@[m]@ == id@,
{
    let idv = chars_of(id);
    let mut k: usize = 0;
    while k < ids.len()
        invariant
            k <= ids.len(),
            idv@ == id@,
            forall|m: int| 0 <= m < k ==> ids@[m]@ != id@,
        decreases ids.len() - k,
    {
        let cur = chars_of(ids[k].as_str());
        if eq_chars(&cur, &idv) {
            return true;
        }
        k = k + 1;
    }
    false
}

} // verus!

verus! {

/// Listing keys of projects: by name.
pub open spec fn name_keys(names: Seq<Seq<char>>) -> Seq<RankView> {
    Seq::new(
        names.len(),
        |i: int| RankView { score: 0, created: Timestamp { secs: 0, nanos: 0 }, title: names[i] },
    )
}

/// The order in which projects are listed: by name; a stable sort of the positions.
pub fn project_listing_order(names: &Vec<String>) -> (p: Vec<usize>)
    ensures
        is_listing(name_keys(string_views(names@)), index_view(p@)),
{
    let ghost nv = string_views(names@);
    let mut keys: Vec<RankKey> = Vec::new();
    let mut i: usize = 0;
    while i < names.len()
        invariant
            i <= names.len(),
            nv == string_views(names@),
            keys.len() == i,
            forall|m: int| 0 <= m < i ==> #[trigger] key_views(keys@)[m] == name_keys(nv)[m],
        decreases names.len() - i,
    {
        let ghost before = keys@;
        let key = RankKey {
            score: 0,
            created: Timestamp { secs: 0, nanos: 0 },
            title: chars_of(names[i].as_str()),
        };
        keys.push(key);
        assert(keys@ == before.push(key));
        assert forall|m: int| 0 <= m < i + 1 implies #[trigger] key_views(keys@)[m] == name_keys(
            nv,
        )[m] by {
            if m < i {
                assert(key_views(keys@)[m] == key_views(before)[m]);
            }
        }
        i = i + 1;
    }
    assert(key_views(keys@) =~= name_keys(nv));
    listing_order(&keys)
}

} // verus!

verus! {

proof fn lemma_matching_contains(ideas: Seq<IdeaView>, q: Seq<char>, i: int, x: IdeaView)
    requires
        0 <= i <= ideas.len(),
    ensures
        matching_from(ideas, q, i).contains(x) <==> (exists|j: int|
            i <= j < ideas.len() && ideas[j] == x) && idea_matches(x, q),
    decreases ideas.len() - i,
{
    if i < ideas.len() {
        lemma_matching_contains(ideas, q, i + 1, x);
        let rest = matching_from(ideas, q, i + 1);
        let all = matching_from(ideas, q, i);
        if exists|j: int| i <= j < ideas.len() && ideas[j] == x {
            let j = choose|j: int| i <= j < ideas.len() && ideas[j] == x;
            if idea_matches(x, q) {
                if j == i {
                    assert(all[0] == x);
                } else {
                    assert(rest.contains(x));
                    let k = choose|k: int| 0 <= k < rest.len() && rest[k] == x;
                    if idea_matches(ideas[i], q) {
                        assert(all[k + 1] == x);
                    } else {
                        assert(all[k] == x);
                    }
                }
            }
        }
        if all.contains(x) {
            let k = choose|k: int| 0 <= k < all.len() && all[k] == x;
            if idea_matches(ideas[i], q) {
                if k == 0 {
                    assert(ideas[i] == x);
                } else {
                    assert(rest[k - 1] == x);
                    assert(rest.contains(x));
                }
            } else {
                assert(rest[k] == x);
                assert(rest.contains(x));
            }
        }
    }
}

proof fn lemma_listed_as_contains(
    result: Seq<IdeaView>,
    items: Seq<IdeaView>,
    keys: Seq<RankView>,
    x: IdeaView,
)
    requires
        keys.len() == items.len(),
        listed_as(result, items, keys),
    ensures
        result.contains(x) <==> items.contains(x),
{
    let p = choose|p: Seq<int>|
        is_listing(keys, p) && result.len() == (if p.len() < items.len() {
            p.len()
        } else {
            items.len()
        }) && forall|k: int| 0 <= k < result.len() ==> #[trigger] result[k] == items[p[k]];
    if result.contains(x) {
        let k = choose|k: int| 0 <= k < result.len() && result[k] == x;
        assert(result[k] == items[p[k]]);
        assert(0 <= p[k] < items.len());
    }
    if items.contains(x) {
        let i = choose|i: int| 0 <= i < items.len() && items[i] == x;
        crate::rank::lemma_listing_covers(keys, p, i);
        let k = choose|k: int| 0 <= k < p.len() && p[k] == i;
        assert(result[k] == items[p[k]]);
    }
}

/// A search finds exactly the ideas it should: without a search text (no query, or a blank
/// one) every idea is listed; with one, exactly the ideas whose project, id, title or
/// markdown, in lower case, contains the trimmed, lower-cased query.
pub proof fn lemma_search_lists_matching_ideas(
    ideas: Seq<IdeaView>,
    query: Option<Seq<char>>,
    result: Seq<IdeaView>,
    x: IdeaView,
)
    requires
        ({
            let kept = query_matches(ideas, query);
            listed_as(result, kept, newest_first_keys(kept))
        }),
    ensures
        (query is None || trim(query->0).len() == 0) ==> (result.contains(x) <==> ideas.contains(
            x,
        )),
        (query is Some && trim(query->0).len() > 0) ==> (result.contains(x) <==> ideas.contains(x)
            && ({
            let q = lowercase(trim(query->0));
            ||| contains(lowercase(x.project), q)
            ||| contains(lowercase(x.id), q)
            ||| contains(lowercase(x.title), q)
            ||| contains(lowercase(x.markdown), q)
        })),
{
    let kept = query_matches(ideas, query);
    lemma_listed_as_contains(result, kept, newest_first_keys(kept), x);
    if query is Some && trim(query->0).len() > 0 {
        let q = lowercase(trim(query->0));
        lemma_matching_contains(ideas, q, 0, x);
    }
}

} // verus!

verus! {

/// `a` comes no later than `b` in the order of `String` (by character code): `a` is a
/// prefix of `b`, or at the first position where they differ `a` has the smaller character.
pub open spec fn name_not_after(a: Seq<char>, b: Seq<char>) -> bool {
    exists|j: int|
        0 <= j <= a.len() && j <= b.len() && #[trigger] a.subrange(0, j) == b.subrange(0, j) && (j
            == a.len() || (j < b.len() && a[j] < b[j]))
}

proof fn lemma_text_lt_not_after(a: Seq<char>, b: Seq<char>)
    requires
        crate::rank::text_lt(a, b),
    ensures
        name_not_after(a, b),
    decreases a.len(),
{
    if a.len() == 0 || a[0] < b[0] {
        assert(a.subrange(0, 0) =~= b.subrange(0, 0));
    } else {
        let a1 = a.drop_first();
        let b1 = b.drop_first();
        lemma_text_lt_not_after(a1, b1);
        let j = choose|j: int|
            0 <= j <= a1.len() && j <= b1.len() && #[trigger] a1.subrange(0, j) == b1.subrange(
                0,
                j,
            ) && (j == a1.len() || (j < b1.len() && a1[j] < b1[j]));
        assert(a.subrange(0, j + 1) =~= seq![a[0]] + a1.subrange(0, j));
        assert(b.subrange(0, j + 1) =~= seq![b[0]] + b1.subrange(0, j));
        assert(a.subrange(0, j + 1) == b.subrange(0, j + 1));
    }
}

/// Projects are listed by name: every project once, and each no later, in the order of
/// `String`, than every project listed after it.
pub proof fn lemma_projects_listed_by_name(names: Seq<Seq<char>>, p: Seq<int>)
    requires
        is_listing(name_keys(names), p),
    ensures
        p.len() == names.len(),
        forall|i: int| 0 <= i < names.len() ==> #[trigger] p.contains(i),
        forall|k: int, m: int|
            0 <= k < m < p.len() ==> name_not_after(#[trigger] names[p[k]], #[trigger] names[p[m]]),
{
    let keys = name_keys(names);
    assert forall|i: int| 0 <= i < names.len() implies #[trigger] p.contains(i) by {
        crate::rank::lemma_listing_covers(keys, p, i);
    }
    assert forall|k: int, m: int| 0 <= k < m < p.len() implies name_not_after(
        #[trigger] names[p[k]],
        #[trigger] names[p[m]],
    ) by {
        let a = names[p[k]];
        let b = names[p[m]];
        assert(crate::rank::listed_before(keys, p[k], p[m]));
        assert(keys[p[k]].title == a && keys[p[m]].title == b);
        if crate::rank::text_lt(a, b) {
            lemma_text_lt_not_after(a, b);
        } else {
            assert(a == b);
            assert(a.subrange(0, a.len() as int) == b.subrange(0, a.len() as int));
        }
    }
}

} // verus!

verus! {

proof fn lemma_keywords_from_are_keywords(ps: Seq<Seq<char>>, i: int)
    requires
        0 <= i,
    ensures
        forall|k: int|
            0 <= k < keywords_from(ps, i).len() ==> is_keyword(#[trigger] keywords_from(ps, i)[k]),
    decreases ps.len() - i,
{
    if i < ps.len() {
        lemma_keywords_from_are_keywords(ps, i + 1);
        let rest = keywords_from(ps, i + 1);
        if is_keyword(lowercase(ps[i])) {
            assert forall|k: int| 0 <= k < keywords_from(ps, i).len() implies is_keyword(
                #[trigger] keywords_from(ps, i)[k],
            ) by {
                if k > 0 {
                    assert(keywords_from(ps, i)[k] == rest[k - 1]);
                }
            }
        }
    }
}

/// The keywords of a text are at most 24 words, each longer than three bytes and none of
/// them a stop word: about, after, again, also, because, before, being, could, from, have,
/// into, just, like, that, their, there, these, this, with, would, your.
pub proof fn lemma_keywords_skip_stop_words(text: Seq<char>)
    ensures
        spec_keywords(text).len() <= 24,
        forall|k: int|
            0 <= k < spec_keywords(text).len() ==> ({
                let w = #[trigger] spec_keywords(text)[k];
                &&& utf8_len(w) > 3
                &&& w != "about"@
                &&& w != "after"@
                &&& w != "again"@
                &&& w != "also"@
                &&& w != "because"@
                &&& w != "before"@
                &&& w != "being"@
                &&& w != "could"@
                &&& w != "from"@
                &&& w != "have"@
                &&& w != "into"@
                &&& w != "just"@
                &&& w != "like"@
                &&& w != "that"@
                &&& w != "their"@
                &&& w != "there"@
                &&& w != "these"@
                &&& w != "this"@
                &&& w != "with"@
                &&& w != "would"@
                &&& w != "your"@
            }),
{
    let all = keywords_from(pieces_from(text, 0, seq![], seq![]), 0);
    lemma_keywords_from_are_keywords(pieces_from(text, 0, seq![], seq![]), 0);
    assert forall|k: int| 0 <= k < spec_keywords(text).len() implies is_keyword(
        #[trigger] spec_keywords(text)[k],
    ) by {
        assert(spec_keywords(text)[k] == all[k]);
    }
}

} // verus!

verus! {

proof fn lemma_hits_positive(hay: Seq<char>, words: Seq<Seq<char>>)
    ensures
        hits(hay, words) > 0 <==> exists|k: int| 0 <= k < words.len() && contains(hay, #[trigger] words[k]),
    decreases words.len(),
{
    if words.len() > 0 {
        let d = words.drop_last();
        lemma_hits_positive(hay, d);
        if exists|k: int| 0 <= k < d.len() && contains(hay, #[trigger] d[k]) {
            let k = choose|k: int| 0 <= k < d.len() && contains(hay, #[trigger] d[k]);
            assert(words[k] == d[k]);
        }
        if exists|k: int| 0 <= k < words.len() && contains(hay, #[trigger] words[k]) {
            let k = choose|k: int| 0 <= k < words.len() && contains(hay, #[trigger] words[k]);
            if k < d.len() {
                assert(d[k] == words[k]);
            }
        }
    }
}

proof fn lemma_scored_contains(ideas: Seq<IdeaView>, words: Seq<Seq<char>>, i: int, x: IdeaView)
    requires
        0 <= i <= ideas.len(),
    ensures
        scored_ideas(scored_from(ideas, words, i)).contains(x) <==> (exists|j: int|
            i <= j < ideas.len() && ideas[j] == x) && hits(related_text(x), words) > 0,
    decreases ideas.len() - i,
{
    if i < ideas.len() {
        lemma_scored_contains(ideas, words, i + 1, x);
        let rest = scored_ideas(scored_from(ideas, words, i + 1));
        let all = scored_ideas(scored_from(ideas, words, i));
        let hit = hits(related_text(ideas[i]), words) > 0;
        if hit {
            assert(all =~= seq![ideas[i]] + rest);
        } else {
            assert(all =~= rest);
        }
        if exists|j: int| i <= j < ideas.len() && ideas[j] == x {
            let j = choose|j: int| i <= j < ideas.len() && ideas[j] == x;
            if hits(related_text(x), words) > 0 {
                if j == i {
                    assert(all[0] == x);
                } else {
                    assert(rest.contains(x));
                    let k = choose|k: int| 0 <= k < rest.len() && rest[k] == x;
                    if hit {
                        assert(all[k + 1] == x);
                    } else {
                        assert(all[k] == x);
                    }
                }
            }
        }
        if all.contains(x) {
            let k = choose|k: int| 0 <= k < all.len() && all[k] == x;
            if hit {
                if k == 0 {
                    assert(ideas[i] == x);
                } else {
                    assert(rest[k - 1] == x);
                    assert(rest.contains(x));
                }
            } else {
                assert(rest[k] == x);
                assert(rest.contains(x));
            }
        }
    }
}

/// Related ideas are ideas whose title or markdown, in lower case, contains one of the
/// keywords: at most eight of them; and when fewer than eight are given, every such idea is
/// among them.
pub proof fn lemma_related_ideas_hold_keywords(
    words: Seq<Seq<char>>,
    ideas: Seq<IdeaView>,
    result: Seq<IdeaView>,
    x: IdeaView,
)
    requires
        ({
            let sc = scored_from(ideas, words, 0);
            listed_top(result, scored_ideas(sc), related_keys(sc), max_related())
        }),
    ensures
        result.len() <= 8,
        result.contains(x) ==> ideas.contains(x) && exists|k: int|
            0 <= k < words.len() && contains(
                lowercase(x.title + seq![' '] + x.markdown),
                #[trigger] words[k],
            ),
        result.len() < 8 && ideas.contains(x) && (exists|k: int|
            0 <= k < words.len() && contains(
                lowercase(x.title + seq![' '] + x.markdown),
                #[trigger] words[k],
            )) ==> result.contains(x),
{
    let sc = scored_from(ideas, words, 0);
    let items = scored_ideas(sc);
    let keys = related_keys(sc);
    let p = choose|p: Seq<int>|
        is_listing(keys, p) && result.len() == (if p.len() < max_related() {
            p.len()
        } else {
            max_related()
        }) && forall|k: int| 0 <= k < result.len() ==> #[trigger] result[k] == items[p[k]];
    lemma_hits_positive(related_text(x), words);
    lemma_scored_contains(ideas, words, 0, x);
    if result.contains(x) {
        let k = choose|k: int| 0 <= k < result.len() && result[k] == x;
        assert(result[k] == items[p[k]]);
        assert(0 <= p[k] < items.len());
        assert(items.contains(x));
    }
    if result.len() < 8 && items.contains(x) {
        let i = choose|i: int| 0 <= i < items.len() && items[i] == x;
        crate::rank::lemma_listing_covers(keys, p, i);
        let k = choose|k: int| 0 <= k < p.len() && p[k] == i;
        assert(result[k] == items[p[k]]);
    }
}

} // verus!
