//! Character-level text model: whitespace, trimming, line splitting and
//! substring search over `Seq<char>`, with executable counterparts on `Vec<char>`.
use vstd::prelude::*;

verus! {

/// Unicode `White_Space`, the property that `char::is_whitespace` and `str::trim` use.
pub open spec fn is_ws(c: char) -> bool {
    let u = c as u32;
    ||| 0x09 <= u <= 0x0d
    ||| u == 0x20
    ||| u == 0x85
    ||| u == 0xa0
    ||| u == 0x1680
    ||| 0x2000 <= u <= 0x200a
    ||| u == 0x2028
    ||| u == 0x2029
    ||| u == 0x202f
    ||| u == 0x205f
    ||| u == 0x3000
}

pub fn is_whitespace(c: char) -> (r: bool)
    ensures
        r == is_ws(c),
{
    let u = c as u32;
    (0x09 <= u && u <= 0x0d) || u == 0x20 || u == 0x85 || u == 0xa0 || u == 0x1680 || (0x2000
        <= u && u <= 0x200a) || u == 0x2028 || u == 0x2029 || u == 0x202f || u == 0x205f || u
        == 0x3000
}

/// The text with leading whitespace removed (`str::trim_start`).
pub open spec fn trim_start(s: Seq<char>) -> Seq<char>
    decreases s.len(),
{
    if s.len() > 0 && is_ws(s[0]) {
        trim_start(s.drop_first())
    } else {
        s
    }
}

/// The text with trailing whitespace removed (`str::trim_end`).
pub open spec fn trim_end(s: Seq<char>) -> Seq<char>
    decreases s.len(),
{
    if s.len() > 0 && is_ws(s.last()) {
        trim_end(s.drop_last())
    } else {
        s
    }
}

/// The text with whitespace removed at both ends (`str::trim`).
pub open spec fn trim(s: Seq<char>) -> Seq<char> {
    trim_end(trim_start(s))
}

pub open spec fn starts_with(s: Seq<char>, p: Seq<char>) -> bool {
    p.len() <= s.len() && s.subrange(0, p.len() as int) == p
}

pub open spec fn ends_with(s: Seq<char>, p: Seq<char>) -> bool {
    p.len() <= s.len() && s.subrange(s.len() - p.len(), s.len() as int) == p
}

/// `str::trim_start_matches` with a text pattern: the prefix removed as often as it occurs.
pub open spec fn strip_all_prefix(s: Seq<char>, p: Seq<char>) -> Seq<char>
    decreases s.len(),
{
    if p.len() > 0 && starts_with(s, p) {
        strip_all_prefix(s.subrange(p.len() as int, s.len() as int), p)
    } else {
        s
    }
}

/// Every character of `s` is `c` (true of the empty text).
pub open spec fn all_chars_are(s: Seq<char>, c: char) -> bool {
    forall|i: int| 0 <= i < s.len() ==> s[i] == c
}

/// A line as `str::lines` yields it: a `\r` before the `\n` that ends it is dropped.
pub open spec fn strip_cr(line: Seq<char>) -> Seq<char> {
    if line.len() > 0 && line.last() == '\r' {
        line.drop_last()
    } else {
        line
    }
}

/// Lines of `s[i..]`, given the lines `done` already ended and the open line `cur`.
pub open spec fn lines_from(s: Seq<char>, i: int, done: Seq<Seq<char>>, cur: Seq<char>) -> Seq<
    Seq<char>,
>
    decreases s.len() - i,
{
    if i >= s.len() {
        if cur.len() > 0 {
            done.push(cur)
        } else {
            done
        }
    } else if s[i] == '\n' {
        lines_from(s, i + 1, done.push(strip_cr(cur)), seq![])
    } else {
        lines_from(s, i + 1, done, cur.push(s[i]))
    }
}

/// `str::lines`: the text split at `\n`, without a final empty line.
pub open spec fn lines(s: Seq<char>) -> Seq<Seq<char>> {
    lines_from(s, 0, seq![], seq![])
}

/// `needle` occurs in `hay` at position `i`.
pub open spec fn occurs_at(hay: Seq<char>, needle: Seq<char>, i: int) -> bool {
    0 <= i && i + needle.len() <= hay.len() && hay.subrange(i, i + needle.len()) == needle
}

/// `str::contains` with a text pattern.
pub open spec fn contains(hay: Seq<char>, needle: Seq<char>) -> bool {
    exists|i: int| occurs_at(hay, needle, i)
}

/// The first position at or after `i` where `needle` occurs.
pub open spec fn find_from(hay: Seq<char>, needle: Seq<char>, i: int) -> Option<int>
    decreases hay.len() + 1 - i,
{
    if i < 0 || i + needle.len() > hay.len() {
        None
    } else if occurs_at(hay, needle, i) {
        Some(i)
    } else {
        find_from(hay, needle, i + 1)
    }
}

/// `str::find` with a text pattern.
pub open spec fn find(hay: Seq<char>, needle: Seq<char>) -> Option<int> {
    find_from(hay, needle, 0)
}

/// `str::split_once` with a text pattern.
pub open spec fn split_once(s: Seq<char>, pat: Seq<char>) -> Option<(Seq<char>, Seq<char>)> {
    match find(s, pat) {
        Some(i) => Some((s.subrange(0, i), s.subrange(i + pat.len(), s.len() as int))),
        None => None,
    }
}

/// The lines `ls[from..]` joined, each after a `sep` (the joined text of `ls` is built by
/// `join`).
pub open spec fn join(ls: Seq<Seq<char>>, sep: Seq<char>) -> Seq<char>
    decreases ls.len(),
{
    if ls.len() == 0 {
        seq![]
    } else if ls.len() == 1 {
        ls[0]
    } else {
        join(ls.drop_last(), sep) + sep + ls.last()
    }
}

/// The views of a vector of character vectors.
pub open spec fn views(v: Seq<Vec<char>>) -> Seq<Seq<char>> {
    Seq::new(v.len(), |i: int| v[i]@)
}

/// The decimal digits of `n`, as `usize`'s `Display` writes them.
pub open spec fn decimal(n: nat) -> Seq<char>
    decreases n,
{
    if n < 10 {
        seq![digit_char(n)]
    } else {
        decimal(n / 10).push(digit_char(n % 10))
    }
}

pub open spec fn digit_char(d: nat) -> char {
    (48 + d) as char
}

pub proof fn lemma_views_push(v: Seq<Vec<char>>, x: Vec<char>)
    ensures
        views(v.push(x)) == views(v).push(x@),
{
    assert(views(v.push(x)) =~= views(v).push(x@));
}

/// The characters of a text.
pub fn chars_of(s: &str) -> (v: Vec<char>)
    ensures
        v@ == s@,
{
    let mut v: Vec<char> = Vec::new();
    for c in it: s.chars()
        invariant
            v@ == it.seq().take(it.index() as int),
    {
        v.push(c);
    }
    v
}

/// Calls `String::push`, which appends one character.
#[verifier::external_body]
fn push_char(s: &mut String, c: char)
    ensures
        final(s)@ == old(s)@.push(c),
{
    s.push(c)
}

/// A `String` holding the given characters.
pub fn string_of(v: &Vec<char>) -> (s: String)
    ensures
        s@ == v@,
{
    let mut s = String::new();
    let mut i: usize = 0;
    while i < v.len()
        invariant
            i <= v.len(),
            s@ == v@.take(i as int),
        decreases v.len() - i,
    {
        push_char(&mut s, v[i]);
        i = i + 1;
        assert(s@ =~= v@.take(i as int));
    }
    assert(v@.take(i as int) =~= v@);
    s
}

/// A copy of `s[a..b]`.
pub fn slice_copy(s: &Vec<char>, a: usize, b: usize) -> (r: Vec<char>)
    requires
        a <= b <= s.len(),
    ensures
        r@ == s@.subrange(a as int, b as int),
{
    let mut r: Vec<char> = Vec::new();
    let mut i = a;
    while i < b
        invariant
            a <= i <= b <= s.len(),
            r@ == s@.subrange(a as int, i as int),
        decreases b - i,
    {
        r.push(s[i]);
        i = i + 1;
        assert(r@ =~= s@.subrange(a as int, i as int));
    }
    r
}

pub fn copy_chars(s: &Vec<char>) -> (r: Vec<char>)
    ensures
        r@ == s@,
{
    let r = slice_copy(s, 0, s.len());
    assert(s@.subrange(0, s@.len() as int) =~= s@);
    r
}

/// Appends `t` to `out`.
pub fn append_chars(out: &mut Vec<char>, t: &Vec<char>)
    ensures
        final(out)@ == old(out)@ + t@,
{
    let mut i: usize = 0;
    let ghost start = out@;
    while i < t.len()
        invariant
            i <= t.len(),
            out@ == start + t@.subrange(0, i as int),
        decreases t.len() - i,
    {
        out.push(t[i]);
        i = i + 1;
        assert(out@ =~= start + t@.subrange(0, i as int));
    }
    assert(t@.subrange(0, t@.len() as int) =~= t@);
}

/// The index of the first non-whitespace character, from which `trim_start` keeps the text.
pub fn trim_start_index(s: &Vec<char>, from: usize) -> (i: usize)
    requires
        from <= s.len(),
    ensures
        from <= i <= s.len(),
        trim_start(s@.subrange(from as int, s.len() as int)) == s@.subrange(i as int, s.len() as int),
{
    let mut i = from;
    while i < s.len() && is_whitespace(s[i])
        invariant
            from <= i <= s.len(),
            trim_start(s@.subrange(from as int, s.len() as int)) == trim_start(
                s@.subrange(i as int, s.len() as int),
            ),
        decreases s.len() - i,
    {
        assert(s@.subrange(i as int, s.len() as int).drop_first() =~= s@.subrange(
            i + 1,
            s.len() as int,
        ));
        i = i + 1;
    }
    i
}

/// The end of `s[from..to]` once trailing whitespace is removed.
pub fn trim_end_index(s: &Vec<char>, from: usize, to: usize) -> (j: usize)
    requires
        from <= to <= s.len(),
    ensures
        from <= j <= to,
        trim_end(s@.subrange(from as int, to as int)) == s@.subrange(from as int, j as int),
{
    let mut j = to;
    while j > from && is_whitespace(s[j - 1])
        invariant
            from <= j <= to <= s.len(),
            trim_end(s@.subrange(from as int, to as int)) == trim_end(
                s@.subrange(from as int, j as int),
            ),
        decreases j - from,
    {
        assert(s@.subrange(from as int, j as int).drop_last() =~= s@.subrange(
            from as int,
            j - 1,
        ));
        j = j - 1;
    }
    j
}

/// The bounds of the trimmed text inside `s`.
pub fn trim_bounds(s: &Vec<char>) -> (r: (usize, usize))
    ensures
        r.0 <= r.1 <= s.len(),
        trim(s@) == s@.subrange(r.0 as int, r.1 as int),
{
    let i = trim_start_index(s, 0);
    assert(s@.subrange(0, s.len() as int) =~= s@);
    let j = trim_end_index(s, i, s.len());
    (i, j)
}

pub fn trim_chars(s: &Vec<char>) -> (r: Vec<char>)
    ensures
        r@ == trim(s@),
{
    let (i, j) = trim_bounds(s);
    slice_copy(s, i, j)
}

pub fn starts_with_chars(s: &Vec<char>, p: &Vec<char>) -> (r: bool)
    ensures
        r == starts_with(s@, p@),
{
    if p.len() > s.len() {
        return false;
    }
    let mut i: usize = 0;
    while i < p.len()
        invariant
            p.len() <= s.len(),
            i <= p.len(),
            forall|k: int| 0 <= k < i ==> s@[k] == p@[k],
        decreases p.len() - i,
    {
        if s[i] != p[i] {
            assert(s@.subrange(0, p.len() as int)[i as int] != p@[i as int]);
            return false;
        }
        i = i + 1;
    }
    assert(s@.subrange(0, p.len() as int) =~= p@);
    true
}

pub fn ends_with_chars(s: &Vec<char>, p: &Vec<char>) -> (r: bool)
    ensures
        r == ends_with(s@, p@),
{
    if p.len() > s.len() {
        return false;
    }
    let off = s.len() - p.len();
    let mut i: usize = 0;
    while i < p.len()
        invariant
            p.len() <= s.len(),
            off == s.len() - p.len(),
            i <= p.len(),
            forall|k: int| 0 <= k < i ==> s@[off + k] == p@[k],
        decreases p.len() - i,
    {
        if s[off + i] != p[i] {
            assert(s@.subrange(off as int, s.len() as int)[i as int] != p@[i as int]);
            return false;
        }
        i = i + 1;
    }
    assert(s@.subrange(off as int, s.len() as int) =~= p@);
    true
}

/// Whether `needle` occurs in `hay` at position `i`.
pub fn occurs_at_exec(hay: &Vec<char>, needle: &Vec<char>, i: usize) -> (r: bool)
    ensures
        r == occurs_at(hay@, needle@, i as int),
{
    if needle.len() > hay.len() || i > hay.len() - needle.len() {
        return false;
    }
    let mut k: usize = 0;
    while k < needle.len()
        invariant
            i + needle.len() <= hay.len(),
            k <= needle.len(),
            forall|m: int| 0 <= m < k ==> hay@[i + m] == needle@[m],
        decreases needle.len() - k,
    {
        if hay[i + k] != needle[k] {
            assert(hay@.subrange(i as int, i + needle.len())[k as int] != needle@[k as int]);
            return false;
        }
        k = k + 1;
    }
    assert(hay@.subrange(i as int, i + needle.len()) =~= needle@);
    true
}

/// The first position where `needle` occurs in `hay`.
pub fn find_chars(hay: &Vec<char>, needle: &Vec<char>) -> (r: Option<usize>)
    ensures
        match r {
            Some(i) => find(hay@, needle@) == Some(i as int),
            None => find(hay@, needle@) is None,
        },
{
    if needle.len() > hay.len() {
        return None;
    }
    if needle.len() == 0 {
        assert(hay@.subrange(0, 0) =~= needle@);
        assert(occurs_at(hay@, needle@, 0));
        return Some(0);
    }
    let mut i: usize = 0;
    while i <= hay.len() - needle.len()
        invariant
            0 < needle.len() <= hay.len(),
            i <= hay.len() - needle.len() + 1,
            find(hay@, needle@) == find_from(hay@, needle@, i as int),
        decreases hay.len() - needle.len() + 1 - i,
    {
        if occurs_at_exec(hay, needle, i) {
            return Some(i);
        }
        i = i + 1;
    }
    None
}

pub fn contains_chars(hay: &Vec<char>, needle: &Vec<char>) -> (r: bool)
    ensures
        r == contains(hay@, needle@),
{
    let r = find_chars(hay, needle);
    proof {
        lemma_find_from_contains(hay@, needle@, 0);
    }
    r.is_some()
}

/// `find_from` finds an occurrence exactly when one exists at or after `i`.
pub proof fn lemma_find_from_contains(hay: Seq<char>, needle: Seq<char>, i: int)
    requires
        0 <= i,
    ensures
        match find_from(hay, needle, i) {
            Some(k) => i <= k && occurs_at(hay, needle, k) && forall|m: int|
                i <= m < k ==> !occurs_at(hay, needle, m),
            None => forall|m: int| i <= m ==> !occurs_at(hay, needle, m),
        },
    decreases hay.len() + 1 - i,
{
    if i + needle.len() > hay.len() {
    } else if occurs_at(hay, needle, i) {
    } else {
        lemma_find_from_contains(hay, needle, i + 1);
    }
}

/// The lines of `s`, as `str::lines` yields them.
pub fn lines_of(s: &Vec<char>) -> (r: Vec<Vec<char>>)
    ensures
        views(r@) == lines(s@),
{
    let mut done: Vec<Vec<char>> = Vec::new();
    let mut cur: Vec<char> = Vec::new();
    let mut i: usize = 0;
    assert(views(done@) =~= seq![]);
    while i < s.len()
        invariant
            i <= s.len(),
            lines(s@) == lines_from(s@, i as int, views(done@), cur@),
        decreases s.len() - i,
    {
        if s[i] == '\n' {
            let ghost old_done = done@;
            let line = if cur.len() > 0 && cur[cur.len() - 1] == '\r' {
                slice_copy(&cur, 0, cur.len() - 1)
            } else {
                copy_chars(&cur)
            };
            proof {
                if cur@.len() > 0 && cur@.last() == '\r' {
                    assert(cur@.subrange(0, cur@.len() - 1) =~= cur@.drop_last());
                }
            }
            done.push(line);
            proof {
                lemma_views_push(old_done, line);
            }
            cur = Vec::new();
            assert(cur@ =~= seq![]);
        } else {
            cur.push(s[i]);
        }
        i = i + 1;
    }
    if cur.len() > 0 {
        let ghost old_done = done@;
        done.push(cur);
        proof {
            lemma_views_push(old_done, cur);
        }
    }
    done
}

/// The decimal digits of `n` appended to `out`.
pub fn push_decimal(out: &mut Vec<char>, n: usize)
    ensures
        final(out)@ == old(out)@ + decimal(n as nat),
    decreases n,
{
    if n >= 10 {
        push_decimal(out, n / 10);
    }
    let d = (n % 10) as u8;
    let c = (48u8 + d) as char;
    out.push(c);
    assert(out@ =~= old(out)@ + decimal(n as nat));
}

pub fn eq_chars(a: &Vec<char>, b: &Vec<char>) -> (r: bool)
    ensures
        r == (a@ == b@),
{
    if a.len() != b.len() {
        return false;
    }
    let mut i: usize = 0;
    while i < a.len()
        invariant
            a.len() == b.len(),
            i <= a.len(),
            forall|k: int| 0 <= k < i ==> a@[k] == b@[k],
        decreases a.len() - i,
    {
        if a[i] != b[i] {
            return false;
        }
        i = i + 1;
    }
    assert(a@ =~= b@);
    true
}

/// `str::split_once` on characters.
pub fn split_once_chars(s: &Vec<char>, pat: &Vec<char>) -> (r: Option<(Vec<char>, Vec<char>)>)
    ensures
        match r {
            Some((a, b)) => split_once(s@, pat@) == Some((a@, b@)),
            None => split_once(s@, pat@) is None,
        },
{
    match find_chars(s, pat) {
        None => None,
        Some(i) => {
            proof {
                lemma_find_from_contains(s@, pat@, 0);
                assert(find_from(s@, pat@, 0) == Some(i as int));
                assert(occurs_at(s@, pat@, i as int));
            }
            let a = slice_copy(s, 0, i);
            let b = slice_copy(s, i + pat.len(), s.len());
            Some((a, b))
        },
    }
}

/// The lower-case form of a text (`str::to_lowercase`), named because the Unicode case
/// mapping it applies takes tables to state.
pub uninterp spec fn lowercase(s: Seq<char>) -> Seq<char>;

/// Calls `str::to_lowercase`; its result is the name `lowercase` of the input, and holds no
/// upper-case ASCII letter (each of them maps to its lower-case letter, and no character
/// maps to one).
#[verifier::external_body]
pub(crate) fn to_lowercase(s: &str) -> (r: String)
    ensures
        r@ == lowercase(s@),
        forall|i: int| 0 <= i < r@.len() ==> !('A' <= #[trigger] r@[i] && r@[i] <= 'Z'),
{
    s.to_lowercase()
}

/// The text of a literal as characters.
pub fn literal(s: &str) -> (v: Vec<char>)
    ensures
        v@ == s@,
{
    chars_of(s)
}

} // verus!

verus! {

/// `find_from` answers the first occurrence at or after `i`.
pub proof fn lemma_find_first(hay: Seq<char>, needle: Seq<char>, i: int, k: int)
    requires
        0 <= i <= k,
        occurs_at(hay, needle, k),
        forall|m: int| i <= m < k ==> !occurs_at(hay, needle, m),
    ensures
        find_from(hay, needle, i) == Some(k),
    decreases k - i,
{
    if i < k {
        assert(!occurs_at(hay, needle, i));
        lemma_find_first(hay, needle, i + 1, k);
    }
}

/// Reading characters other than `\n` only extends the open line.
pub proof fn lemma_lines_segment(
    s: Seq<char>,
    i: int,
    j: int,
    done: Seq<Seq<char>>,
    cur: Seq<char>,
)
    requires
        0 <= i <= j <= s.len(),
        forall|k: int| i <= k < j ==> s[k] != '\n',
    ensures
        lines_from(s, i, done, cur) == lines_from(s, j, done, cur + s.subrange(i, j)),
    decreases j - i,
{
    if i == j {
        assert(cur + s.subrange(i, j) =~= cur);
    } else {
        lemma_lines_segment(s, i + 1, j, done, cur.push(s[i]));
        assert(cur.push(s[i]) + s.subrange(i + 1, j) =~= cur + s.subrange(i, j));
    }
}

/// Leading whitespace of a text with one whitespace character appended.
pub proof fn lemma_trim_start_push_ws(y: Seq<char>, c: char)
    requires
        is_ws(c),
    ensures
        trim_start(y.push(c)) == if trim_start(y).len() == 0 {
            seq![]
        } else {
            trim_start(y).push(c)
        },
    decreases y.len(),
{
    if y.len() == 0 {
        assert(y.push(c).drop_first() =~= seq![]);
        assert(trim_start(seq![]) =~= seq![]);
    } else if is_ws(y[0]) {
        assert(y.push(c).drop_first() =~= y.drop_first().push(c));
        lemma_trim_start_push_ws(y.drop_first(), c);
    } else {
    }
}

/// A `\r` at the end changes nothing once the text is trimmed.
pub proof fn lemma_trim_strip_cr(x: Seq<char>)
    ensures
        trim(strip_cr(x)) == trim(x),
{
    if x.len() > 0 && x.last() == '\r' {
        let y = x.drop_last();
        assert(y.push('\r') =~= x);
        lemma_trim_start_push_ws(y, '\r');
        if trim_start(y).len() == 0 {
            assert(trim_end(seq![]) =~= seq![]);
        } else {
            assert(trim_start(y).push('\r').drop_last() =~= trim_start(y));
        }
    }
}

/// A leading space changes nothing once the text is trimmed.
pub proof fn lemma_trim_space_prefix(x: Seq<char>)
    ensures
        trim(seq![' '] + x) == trim(x),
{
    assert((seq![' '] + x).drop_first() =~= x);
}

pub proof fn lemma_trim_start_shape(s: Seq<char>)
    ensures
        trim_start(s).len() == 0 || !is_ws(trim_start(s)[0]),
        trim_start(s).len() <= s.len(),
    decreases s.len(),
{
    if s.len() > 0 && is_ws(s[0]) {
        lemma_trim_start_shape(s.drop_first());
    }
}

pub proof fn lemma_trim_end_shape(s: Seq<char>)
    ensures
        trim_end(s).len() <= s.len(),
        trim_end(s) == s.subrange(0, trim_end(s).len() as int),
        trim_end(s).len() == 0 || !is_ws(trim_end(s).last()),
    decreases s.len(),
{
    if s.len() > 0 && is_ws(s.last()) {
        lemma_trim_end_shape(s.drop_last());
        assert(s.drop_last().subrange(0, trim_end(s).len() as int) =~= s.subrange(
            0,
            trim_end(s).len() as int,
        ));
    } else {
        assert(s.subrange(0, s.len() as int) =~= s);
    }
}

/// Trimming twice is trimming once.
pub proof fn lemma_trim_idempotent(s: Seq<char>)
    ensures
        trim(trim(s)) == trim(s),
{
    let a = trim_start(s);
    let b = trim_end(a);
    lemma_trim_start_shape(s);
    lemma_trim_end_shape(a);
    if b.len() > 0 {
        assert(b[0] == a[0]);
    }
}

/// A text with no whitespace character is its own trimmed form.
pub proof fn lemma_trim_no_ws(k: Seq<char>)
    requires
        forall|i: int| 0 <= i < k.len() ==> !is_ws(k[i]),
    ensures
        trim(k) == k,
{
}

} // verus!

verus! {

pub open spec fn has_no_cr(s: Seq<char>) -> bool {
    forall|i: int| 0 <= i < s.len() ==> s[i] != '\r'
}

/// Joining one more text.
pub proof fn lemma_join_push(x: Seq<Seq<char>>, y: Seq<char>, sep: Seq<char>)
    ensures
        join(x.push(y), sep) == if x.len() == 0 {
            y
        } else {
            join(x, sep) + sep + y
        },
{
    assert(x.push(y).drop_last() =~= x);
}

proof fn lemma_join_lines_from(s: Seq<char>, i: int, done: Seq<Seq<char>>, cur: Seq<char>)
    requires
        0 <= i <= s.len(),
        has_no_cr(s),
        has_no_cr(cur),
        s.len() == 0 || s.last() != '\n',
        join(done.push(cur), seq!['\n']) == s.take(i),
    ensures
        join(lines_from(s, i, done, cur), seq!['\n']) == s,
    decreases s.len() - i,
{
    let nl = seq!['\n'];
    if i >= s.len() {
        assert(s.take(i) =~= s);
        lemma_join_push(done, cur, nl);
        if cur.len() == 0 && done.len() > 0 {
            assert(s.last() == (join(done, nl) + nl + cur).last());
        }
    } else if s[i] == '\n' {
        let d2 = done.push(strip_cr(cur));
        assert(strip_cr(cur) == cur);
        lemma_join_push(done, cur, nl);
        lemma_join_push(d2, seq![], nl);
        assert(s.take(i + 1) =~= s.take(i).push('\n'));
        assert(join(d2.push(seq![]), nl) =~= s.take(i + 1));
        lemma_join_lines_from(s, i + 1, d2, seq![]);
    } else {
        let c2 = cur.push(s[i]);
        lemma_join_push(done, cur, nl);
        lemma_join_push(done, c2, nl);
        assert(s.take(i + 1) =~= s.take(i).push(s[i]));
        assert(join(done.push(c2), nl) =~= s.take(i + 1));
        lemma_join_lines_from(s, i + 1, done, c2);
    }
}

/// Joining the lines of a text by newlines gives the text back, when it holds no `\r` and
/// does not end with a newline.
pub proof fn lemma_join_lines(s: Seq<char>)
    requires
        has_no_cr(s),
        s.len() == 0 || s.last() != '\n',
    ensures
        join(lines(s), seq!['\n']) == s,
{
    assert(join(seq![].push(seq![]), seq!['\n']) =~= s.take(0));
    lemma_join_lines_from(s, 0, seq![], seq![]);
}

proof fn lemma_lines_from_len(s: Seq<char>, i: int, done: Seq<Seq<char>>, cur: Seq<char>)
    requires
        0 <= i,
    ensures
        lines_from(s, i, done, cur).len() >= done.len() + (if cur.len() > 0 || i < s.len() {
            1int
        } else {
            0int
        }),
    decreases s.len() - i,
{
    if i < s.len() {
        if s[i] == '\n' {
            lemma_lines_from_len(s, i + 1, done.push(strip_cr(cur)), seq![]);
        } else {
            lemma_lines_from_len(s, i + 1, done, cur.push(s[i]));
        }
    }
}

/// A text that is not empty has a line.
pub proof fn lemma_lines_nonempty(s: Seq<char>)
    requires
        s.len() > 0,
    ensures
        lines(s).len() > 0,
{
    lemma_lines_from_len(s, 0, seq![], seq![]);
}

/// Trimming the end of a text that starts with a non-whitespace character keeps that
/// character.
pub proof fn lemma_trim_end_keeps_first(s: Seq<char>)
    requires
        s.len() > 0,
        !is_ws(s[0]),
    ensures
        trim_end(s).len() > 0,
        trim_end(s)[0] == s[0],
    decreases s.len(),
{
    if s.len() > 1 && is_ws(s.last()) {
        lemma_trim_end_keeps_first(s.drop_last());
    }
}

} // verus!

verus! {

/// How reading one character changes the lines ended so far and the open line.
pub open spec fn line_step(st: (Seq<Seq<char>>, Seq<char>), c: char) -> (Seq<Seq<char>>, Seq<char>) {
    if c == '\n' {
        (st.0.push(strip_cr(st.1)), seq![])
    } else {
        (st.0, st.1.push(c))
    }
}

/// The lines ended and the open line after reading `s[..j]`.
pub open spec fn lines_run(s: Seq<char>, j: int) -> (Seq<Seq<char>>, Seq<char>)
    decreases j,
{
    if j <= 0 {
        (seq![], seq![])
    } else {
        line_step(lines_run(s, j - 1), s[j - 1])
    }
}

proof fn lemma_lines_run(s: Seq<char>, i: int)
    requires
        0 <= i <= s.len(),
    ensures
        lines(s) == lines_from(s, i, lines_run(s, i).0, lines_run(s, i).1),
    decreases i,
{
    if i > 0 {
        lemma_lines_run(s, i - 1);
    }
}

proof fn lemma_lines_run_prefix(a: Seq<char>, t: Seq<char>, j: int)
    requires
        0 <= j <= a.len(),
    ensures
        lines_run(a + t, j) == lines_run(a, j),
    decreases j,
{
    if j > 0 {
        lemma_lines_run_prefix(a, t, j - 1);
        assert((a + t)[j - 1] == a[j - 1]);
    }
}

proof fn lemma_lines_from_done(s: Seq<char>, i: int, e: Seq<Seq<char>>, d: Seq<Seq<char>>, c: Seq<
    char,
>)
    requires
        0 <= i,
    ensures
        lines_from(s, i, e + d, c) == e + lines_from(s, i, d, c),
    decreases s.len() - i,
{
    if i >= s.len() {
        if c.len() > 0 {
            assert((e + d).push(c) =~= e + d.push(c));
        }
    } else if s[i] == '\n' {
        assert((e + d).push(strip_cr(c)) =~= e + d.push(strip_cr(c)));
        lemma_lines_from_done(s, i + 1, e, d.push(strip_cr(c)), seq![]);
    } else {
        lemma_lines_from_done(s, i + 1, e, d, c.push(s[i]));
    }
}

proof fn lemma_lines_from_shift(a: Seq<char>, b: Seq<char>, i: int, d: Seq<Seq<char>>, c: Seq<char>)
    requires
        0 <= i <= b.len(),
    ensures
        lines_from(a + b, a.len() + i, d, c) == lines_from(b, i, d, c),
    decreases b.len() - i,
{
    if i < b.len() {
        assert((a + b)[a.len() + i] == b[i]);
        if b[i] == '\n' {
            lemma_lines_from_shift(a, b, i + 1, d.push(strip_cr(c)), seq![]);
        } else {
            lemma_lines_from_shift(a, b, i + 1, d, c.push(b[i]));
        }
    }
}

/// Two texts joined by a newline have the lines of the first, then those of the second,
/// when the first does not end with a line break.
pub proof fn lemma_lines_concat(x: Seq<char>, y: Seq<char>)
    requires
        x.len() > 0,
        x.last() != '\n',
        x.last() != '\r',
    ensures
        lines(x + seq!['\n'] + y) == lines(x) + lines(y),
{
    let n = x.len() as int;
    let run = lines_run(x, n);
    assert(run == line_step(lines_run(x, n - 1), x[n - 1]));
    assert(run.1.len() > 0 && run.1.last() == x.last());
    lemma_lines_run(x, n);
    let s = x + seq!['\n'] + y;
    let t = seq!['\n'] + y;
    assert(s =~= x + t);
    lemma_lines_run(s, n);
    lemma_lines_run_prefix(x, t, n);
    assert(s[n] == '\n');
    let d2 = run.0.push(strip_cr(run.1));
    assert(strip_cr(run.1) == run.1);
    assert(lines(s) == lines_from(s, n + 1, d2, seq![]));
    let a = x + seq!['\n'];
    assert(s =~= a + y);
    lemma_lines_from_shift(a, y, 0, d2, seq![]);
    assert(d2 + seq![] =~= d2);
    lemma_lines_from_done(y, 0, d2, seq![], seq![]);
}

/// The joined texts end with the last text, when that is not empty.
pub proof fn lemma_join_ends(ls: Seq<Seq<char>>, sep: Seq<char>)
    requires
        ls.len() > 0,
        ls.last().len() > 0,
    ensures
        join(ls, sep).len() > 0,
        join(ls, sep).last() == ls.last().last(),
{
}

/// The joined texts start with the first text, when that is not empty.
pub proof fn lemma_join_starts(ls: Seq<Seq<char>>, sep: Seq<char>)
    requires
        ls.len() > 0,
        ls[0].len() > 0,
    ensures
        join(ls, sep).len() > 0,
        join(ls, sep)[0] == ls[0][0],
    decreases ls.len(),
{
    if ls.len() > 1 {
        lemma_join_starts(ls.drop_last(), sep);
    }
}

/// A text that starts and ends with non-whitespace characters is its own trimmed form.
pub proof fn lemma_trim_unchanged(s: Seq<char>)
    requires
        s.len() > 0,
        !is_ws(s[0]),
        !is_ws(s.last()),
    ensures
        trim(s) == s,
{
}

} // verus!

verus! {

/// A text that starts with a newline has an empty first line.
pub proof fn lemma_lines_newline_prefix(y: Seq<char>)
    ensures
        lines(seq!['\n'] + y) == seq![seq![]] + lines(y),
{
    let s = seq!['\n'] + y;
    assert(s[0] == '\n');
    assert(strip_cr(seq![]) =~= seq![]);
    assert(lines(s) == lines_from(s, 1, seq![seq![]], seq![]));
    lemma_lines_from_shift(seq!['\n'], y, 0, seq![seq![]], seq![]);
    let one: Seq<Seq<char>> = seq![seq![]];
    assert(one + Seq::<Seq<char>>::empty() =~= one);
    lemma_lines_from_done(y, 0, seq![seq![]], seq![], seq![]);
}

/// A non-empty text without newlines is a single line.
pub proof fn lemma_lines_single(s: Seq<char>)
    requires
        s.len() > 0,
        forall|i: int| 0 <= i < s.len() ==> s[i] != '\n',
    ensures
        lines(s) == seq![s],
{
    lemma_lines_segment(s, 0, s.len() as int, seq![], seq![]);
    assert(seq![] + s.subrange(0, s.len() as int) =~= s);
    assert(seq![].push(s) =~= seq![s]);
}

/// A trimmed text followed by a newline trims back to itself.
pub proof fn lemma_trim_newline_suffix(s: Seq<char>)
    requires
        s.len() > 0,
        !is_ws(s[0]),
        !is_ws(s.last()),
    ensures
        trim(s.push('\n')) == s,
{
    let t = s.push('\n');
    assert(t[0] == s[0]);
    assert(trim_start(t) == t);
    assert(('\n' as u32) == 0x0a);
    assert(is_ws(t.last()));
    assert(t.drop_last() =~= s);
    assert(trim_end(t) == trim_end(s));
    assert(trim_end(s) == s);
}

} // verus!
