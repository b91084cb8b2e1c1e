//! Ordering of listed ideas: by score (highest first), then creation time (newest first),
//! then title (alphabetical); equal keys keep their input order, as a stable sort does.
use vstd::prelude::*;
use crate::stored::Timestamp;

verus! {

/// Lexicographic order of texts by character code, the order of `String`'s `Ord`
/// (UTF-8 byte order and code point order agree).
pub open spec fn text_lt(a: Seq<char>, b: Seq<char>) -> bool
    decreases a.len(),
{
    if a.len() == 0 {
        b.len() > 0
    } else if b.len() == 0 {
        false
    } else if a[0] < b[0] {
        true
    } else if a[0] == b[0] {
        text_lt(a.drop_first(), b.drop_first())
    } else {
        false
    }
}

pub proof fn lemma_text_lt_irreflexive(a: Seq<char>)
    ensures
        !text_lt(a, a),
    decreases a.len(),
{
    if a.len() > 0 {
        lemma_text_lt_irreflexive(a.drop_first());
    }
}

pub proof fn lemma_text_lt_transitive(a: Seq<char>, b: Seq<char>, c: Seq<char>)
    requires
        text_lt(a, b),
        text_lt(b, c),
    ensures
        text_lt(a, c),
    decreases a.len(),
{
    if a.len() > 0 && b.len() > 0 && c.len() > 0 && a[0] == b[0] && b[0] == c[0] {
        lemma_text_lt_transitive(a.drop_first(), b.drop_first(), c.drop_first());
    }
}

pub proof fn lemma_text_lt_total(a: Seq<char>, b: Seq<char>)
    ensures
        text_lt(a, b) || text_lt(b, a) || a == b,
    decreases a.len(),
{
    if a.len() > 0 && b.len() > 0 {
        if a[0] == b[0] {
            lemma_text_lt_total(a.drop_first(), b.drop_first());
            if a.drop_first() == b.drop_first() {
                assert(a =~= seq![a[0]] + a.drop_first());
                assert(b =~= seq![b[0]] + b.drop_first());
            }
        }
    } else if a.len() == 0 && b.len() == 0 {
        assert(a =~= b);
    }
}

/// What listed ideas are ordered by.
pub ghost struct RankView {
    pub score: int,
    pub created: Timestamp,
    pub title: Seq<char>,
}

/// The executable form of a rank key.
pub struct RankKey {
    pub score: usize,
    pub created: Timestamp,
    pub title: Vec<char>,
}

impl View for RankKey {
    type V = RankView;

    open spec fn view(&self) -> RankView {
        RankView { score: self.score as int, created: self.created, title: self.title@ }
    }
}

pub open spec fn later(a: Timestamp, b: Timestamp) -> bool {
    a.secs > b.secs || (a.secs == b.secs && a.nanos > b.nanos)
}

/// `a` is listed before `b` by its key alone.
pub open spec fn rank_before(a: RankView, b: RankView) -> bool {
    ||| a.score > b.score
    ||| (a.score == b.score && later(a.created, b.created))
    ||| (a.score == b.score && a.created == b.created && text_lt(a.title, b.title))
}

pub open spec fn rank_same(a: RankView, b: RankView) -> bool {
    a.score == b.score && a.created == b.created && a.title == b.title
}

/// Item `i` is listed before item `j`: by key, and by input position where keys are equal.
pub open spec fn listed_before(keys: Seq<RankView>, i: int, j: int) -> bool {
    rank_before(keys[i], keys[j]) || (rank_same(keys[i], keys[j]) && i < j)
}

/// `p` lists every position of `keys` once, in the listing order.
pub open spec fn is_listing(keys: Seq<RankView>, p: Seq<int>) -> bool {
    &&& p.len() == keys.len()
    &&& forall|k: int| 0 <= k < p.len() ==> 0 <= #[trigger] p[k] < keys.len()
    &&& forall|k: int, m: int|
        0 <= k < m < p.len() ==> listed_before(keys, #[trigger] p[k], #[trigger] p[m])
}

pub proof fn lemma_rank_transitive(a: RankView, b: RankView, c: RankView)
    requires
        rank_before(a, b),
        rank_before(b, c),
    ensures
        rank_before(a, c),
{
    if a.score == b.score && b.score == c.score && a.created == b.created && b.created
        == c.created {
        lemma_text_lt_transitive(a.title, b.title, c.title);
    }
}

pub proof fn lemma_listed_transitive(keys: Seq<RankView>, i: int, j: int, k: int)
    requires
        listed_before(keys, i, j),
        listed_before(keys, j, k),
    ensures
        listed_before(keys, i, k),
{
    if rank_before(keys[i], keys[j]) && rank_before(keys[j], keys[k]) {
        lemma_rank_transitive(keys[i], keys[j], keys[k]);
    }
}

pub proof fn lemma_listed_total(keys: Seq<RankView>, i: int, j: int)
    requires
        i != j,
    ensures
        listed_before(keys, i, j) || listed_before(keys, j, i),
{
    lemma_text_lt_total(keys[i].title, keys[j].title);
}

pub proof fn lemma_listed_irreflexive(keys: Seq<RankView>, i: int)
    ensures
        !listed_before(keys, i, i),
{
    lemma_text_lt_irreflexive(keys[i].title);
}

fn text_lt_exec(a: &Vec<char>, b: &Vec<char>) -> (r: bool)
    ensures
        r == text_lt(a@, b@),
{
    let mut i: usize = 0;
    assert(a@.subrange(0, a.len() as int) =~= a@);
    assert(b@.subrange(0, b.len() as int) =~= b@);
    while i < a.len() && i < b.len() && a[i] == b[i]
        invariant
            i <= a.len(),
            i <= b.len(),
            text_lt(a@, b@) == text_lt(a@.subrange(i as int, a.len() as int), b@.subrange(
                i as int,
                b.len() as int,
            )),
        decreases a.len() - i,
    {
        assert(a@.subrange(i as int, a.len() as int).drop_first() =~= a@.subrange(
            i + 1,
            a.len() as int,
        ));
        assert(b@.subrange(i as int, b.len() as int).drop_first() =~= b@.subrange(
            i + 1,
            b.len() as int,
        ));
        i = i + 1;
    }
    if i == a.len() {
        i < b.len()
    } else if i == b.len() {
        false
    } else {
        a[i] < b[i]
    }
}

fn rank_before_exec(a: &RankKey, b: &RankKey) -> (r: bool)
    ensures
        r == rank_before(a@, b@),
{
    if a.score != b.score {
        return a.score > b.score;
    }
    if a.created.secs != b.created.secs {
        return a.created.secs > b.created.secs;
    }
    if a.created.nanos != b.created.nanos {
        return a.created.nanos > b.created.nanos;
    }
    text_lt_exec(&a.title, &b.title)
}

pub open spec fn key_views(keys: Seq<RankKey>) -> Seq<RankView> {
    Seq::new(keys.len(), |i: int| keys[i]@)
}

pub open spec fn index_view(p: Seq<usize>) -> Seq<int> {
    Seq::new(p.len(), |i: int| p[i] as int)
}

/// The listing order of the given keys (a stable sort of the positions by key).
pub fn listing_order(keys: &Vec<RankKey>) -> (p: Vec<usize>)
    ensures
        is_listing(key_views(keys@), index_view(p@)),
{
    let ghost kv = key_views(keys@);
    let mut p: Vec<usize> = Vec::new();
    let mut i: usize = 0;
    while i < keys.len()
        invariant
            i <= keys.len(),
            kv == key_views(keys@),
            p.len() == i,
            forall|k: int| 0 <= k < p.len() ==> #[trigger] p@[k] < i,
            forall|k: int, m: int|
                0 <= k < m < p.len() ==> listed_before(
                    kv,
                    #[trigger] p@[k] as int,
                    #[trigger] p@[m] as int,
                ),
        decreases keys.len() - i,
    {
        let mut pos: usize = 0;
        while pos < p.len() && !rank_before_exec(&keys[i], &keys[p[pos]])
            invariant
                pos <= p.len(),
                p.len() == i,
                i < keys.len(),
                kv == key_views(keys@),
                forall|k: int| 0 <= k < p.len() ==> #[trigger] p@[k] < i,
                forall|k: int| 0 <= k < pos ==> listed_before(kv, #[trigger] p@[k] as int, i as int),
            decreases p.len() - pos,
        {
            proof {
                let j = p@[pos as int] as int;
                assert(kv[i as int] == keys@[i as int]@);
                assert(kv[j] == keys@[j]@);
                lemma_listed_total(kv, j, i as int);
            }
            pos = pos + 1;
        }
        proof {
            if pos < p.len() {
                let j = p@[pos as int] as int;
                assert(kv[i as int] == keys@[i as int]@);
                assert(kv[j] == keys@[j]@);
                assert(listed_before(kv, i as int, j));
                assert forall|m: int| pos <= m < p.len() implies listed_before(
                    kv,
                    i as int,
                    #[trigger] p@[m] as int,
                ) by {
                    if m > pos {
                        lemma_listed_transitive(kv, i as int, j, p@[m] as int);
                    }
                }
            }
        }
        let ghost before = p@;
        p.insert(pos, i);
        assert forall|k: int, m: int| 0 <= k < m < p.len() implies listed_before(
            kv,
            #[trigger] p@[k] as int,
            #[trigger] p@[m] as int,
        ) by {
            if k < pos && m < pos {
                assert(p@[k] == before[k] && p@[m] == before[m]);
            } else if k < pos && m == pos {
            } else if k < pos {
                assert(p@[k] == before[k] && p@[m] == before[m - 1]);
            } else if k == pos {
                assert(p@[m] == before[m - 1]);
            } else {
                assert(p@[k] == before[k - 1] && p@[m] == before[m - 1]);
            }
        }
        assert forall|k: int| 0 <= k < p.len() implies #[trigger] p@[k] < i + 1 by {
            if k < pos {
                assert(p@[k] == before[k]);
            } else if k > pos {
                assert(p@[k] == before[k - 1]);
            }
        }
        i = i + 1;
    }
    p
}

} // verus!

verus! {

/// A listing holds every position exactly once: each position of `keys` is listed.
pub proof fn lemma_listing_covers(keys: Seq<RankView>, p: Seq<int>, i: int)
    requires
        is_listing(keys, p),
        0 <= i < keys.len(),
    ensures
        exists|k: int| 0 <= k < p.len() && p[k] == i,
{
    let n = keys.len() as int;
    assert(p.no_duplicates()) by {
        assert forall|a: int, b: int| 0 <= a < p.len() && 0 <= b < p.len() && a != b implies p[a]
            != p[b] by {
            if a < b {
                assert(listed_before(keys, p[a], p[b]));
            } else {
                assert(listed_before(keys, p[b], p[a]));
            }
            lemma_listed_irreflexive(keys, p[a]);
        }
    }
    p.unique_seq_to_set();
    vstd::set_lib::lemma_int_range(0, n);
    let range = vstd::set_lib::set_int_range(0, n);
    assert(p.to_set().subset_of(range)) by {
        assert forall|x: int| p.to_set().contains(x) implies range.contains(x) by {
            let k = choose|k: int| 0 <= k < p.len() && p[k] == x;
            assert(0 <= p[k] < n);
        }
    }
    vstd::set_lib::lemma_len_subset(p.to_set(), range);
    vstd::set_lib::lemma_subset_equality(p.to_set(), range);
    assert(range.contains(i));
    assert(p.to_set().contains(i));
}

} // verus!
