//! Character-level text primitives shared by the query parser and the page
//! scrapers: whitespace splitting, joining, substring search and trimming, all
//! stated over `Seq<char>`.
use vstd::prelude::*;

verus! {

broadcast use vstd::string::group_string_axioms;

/// `String::push` appends one character to the end of the string (std docs:
/// "Appends the given char to the end of this String").
pub assume_specification[ String::push ](s: &mut String, ch: char)
    ensures
        final(s)@ == old(s)@.push(ch),
;

/// What `str::to_lowercase` returns for a string with the given characters
/// (the Unicode `Lowercase` mapping, including its context rules).
pub uninterp spec fn str_lowercase(s: Seq<char>) -> Seq<char>;

/// What `char::to_uppercase` yields for a character (the Unicode uppercase
/// mapping, which may be several characters long).
pub uninterp spec fn char_uppercase(c: char) -> Seq<char>;

/// Calls `str::to_lowercase`. Claims only that the result is the Unicode
/// lowercase mapping of the argument's characters, named `str_lowercase`.
#[verifier::external_body]
pub fn lowercase(s: &str) -> (r: String)
    ensures
        r@ == str_lowercase(s@),
{
    s.to_lowercase()
}

/// Calls `char::to_uppercase` and collects the yielded characters. Claims only
/// that they are the Unicode uppercase mapping of `c`, named `char_uppercase`.
#[verifier::external_body]
pub fn uppercase_char(c: char) -> (r: String)
    ensures
        r@ == char_uppercase(c),
{
    c.to_uppercase().collect()
}

/// The Unicode `White_Space` property, which is what `char::is_whitespace`,
/// `str::split_whitespace` and `str::trim` go by.
pub open spec fn is_ws(c: char) -> bool {
    let u = c as u32;
    ||| 0x9 <= u <= 0xd
    ||| u == 0x20
    ||| u == 0x85
    ||| u == 0xa0
    ||| u == 0x1680
    ||| 0x2000 <= u <= 0x200a
    ||| u == 0x2028
    ||| u == 0x2029
    ||| u == 0x202f
    ||| u == 0x205f
    ||| u == 0x3000
}

pub fn is_whitespace(c: char) -> (r: bool)
    ensures
        r == is_ws(c),
{
    let u = c as u32;
    (0x9 <= u && u <= 0xd) || u == 0x20 || u == 0x85 || u == 0xa0 || u == 0x1680 || (0x2000 <= u
        && u <= 0x200a) || u == 0x2028 || u == 0x2029 || u == 0x202f || u == 0x205f || u == 0x3000
}

/// ASCII letters and digits.
pub open spec fn is_ascii_alnum(c: char) -> bool {
    ('0' <= c && c <= '9') || ('a' <= c && c <= 'z') || ('A' <= c && c <= 'Z')
}

pub fn is_ascii_alphanumeric(c: char) -> (r: bool)
    ensures
        r == is_ascii_alnum(c),
{
    ('0' <= c && c <= '9') || ('a' <= c && c <= 'z') || ('A' <= c && c <= 'Z')
}

/// The character sequences of a vector of character vectors.
pub open spec fn views(ws: Seq<Vec<char>>) -> Seq<Seq<char>> {
    ws.map_values(|w: Vec<char>| w@)
}

/// The character sequences of a vector of strings.
pub open spec fn string_views(ws: Seq<String>) -> Seq<Seq<char>> {
    ws.map_values(|w: String| w@)
}

/// An optional string taken by its characters.
pub open spec fn opt_view(o: Option<String>) -> Option<Seq<char>> {
    match o {
        Some(s) => Some(s@),
        None => None,
    }
}

/// The characters of `s`, in order.
pub fn chars_of(s: &str) -> (r: Vec<char>)
    ensures
        r@ == s@,
{
    let mut out: Vec<char> = Vec::new();
    for c in it: s.chars()
        invariant
            out@ == it.seq().take(it.index() as int),
            it.seq() == s@,
    {
        out.push(c);
    }
    out
}

/// The string made of the characters of `cs`, in order.
pub fn string_of(cs: &Vec<char>) -> (r: String)
    ensures
        r@ == cs@,
{
    let mut out = String::new();
    let mut i: usize = 0;
    while i < cs.len()
        invariant
            i <= cs.len(),
            out@ == cs@.take(i as int),
        decreases cs.len() - i,
    {
        out.push(cs[i]);
        i += 1;
        assert(out@ =~= cs@.take(i as int));
    }
    assert(cs@.take(cs.len() as int) =~= cs@);
    out
}

/// Appends the characters of `w` to `out`.
pub fn append_chars(out: &mut Vec<char>, w: &Vec<char>)
    ensures
        final(out)@ == old(out)@ + w@,
{
    let ghost start = out@;
    let mut i: usize = 0;
    while i < w.len()
        invariant
            i <= w.len(),
            out@ == start + w@.take(i as int),
        decreases w.len() - i,
    {
        out.push(w[i]);
        i += 1;
        assert(out@ =~= start + w@.take(i as int));
    }
    assert(w@.take(w.len() as int) =~= w@);
}

/// Whether two character sequences are equal.
pub fn chars_eq(a: &Vec<char>, b: &Vec<char>) -> (r: bool)
    ensures
        r == (a@ == b@),
{
    if a.len() != b.len() {
        return false;
    }
    let mut i: usize = 0;
    while i < a.len()
        invariant
            a.len() == b.len(),
            i <= a.len(),
            forall|j: int| 0 <= j < i ==> a@[j] == b@[j],
        decreases a.len() - i,
    {
        if a[i] != b[i] {
            return false;
        }
        i += 1;
    }
    assert(a@ =~= b@);
    true
}

// ---------------------------------------------------------------------------
// Whitespace splitting
// ---------------------------------------------------------------------------
/// End (exclusive) of the run of non-whitespace characters that starts at `k`.
pub open spec fn word_end(s: Seq<char>, k: int) -> int
    decreases s.len() - k,
{
    if 0 <= k < s.len() && !is_ws(s[k]) {
        word_end(s, k + 1)
    } else {
        k
    }
}

pub proof fn lemma_word_end_bounds(s: Seq<char>, k: int)
    requires
        0 <= k <= s.len(),
    ensures
        k <= word_end(s, k) <= s.len(),
        k < s.len() && !is_ws(s[k]) ==> k < word_end(s, k),
        forall|m: int| k <= m < word_end(s, k) ==> !is_ws(#[trigger] s[m]),
    decreases s.len() - k,
{
    if k < s.len() && !is_ws(s[k]) {
        lemma_word_end_bounds(s, k + 1);
    }
}

/// The whitespace-separated words of `s` from index `k` on: maximal runs of
/// non-whitespace characters, in order.
pub open spec fn words_from(s: Seq<char>, k: int) -> Seq<Seq<char>>
    decreases s.len() - k,
{
    if k < 0 || k >= s.len() {
        seq![]
    } else if is_ws(s[k]) {
        words_from(s, k + 1)
    } else {
        let e = word_end(s, k);
        proof {
            lemma_word_end_bounds(s, k);
        }
        seq![s.subrange(k, e)] + words_from(s, e)
    }
}

/// `str::split_whitespace`: the maximal runs of non-whitespace characters.
pub open spec fn split_ws(s: Seq<char>) -> Seq<Seq<char>> {
    words_from(s, 0)
}

/// Splits `c` into its whitespace-separated words.
pub fn split_whitespace(c: &Vec<char>) -> (r: Vec<Vec<char>>)
    ensures
        views(r@) == split_ws(c@),
{
    let mut out: Vec<Vec<char>> = Vec::new();
    let mut i: usize = 0;
    while i < c.len()
        invariant
            i <= c.len(),
            views(out@) + words_from(c@, i as int) == words_from(c@, 0),
        decreases c.len() - i,
    {
        if is_whitespace(c[i]) {
            i += 1;
        } else {
            let mut w: Vec<char> = Vec::new();
            let mut j: usize = i;
            while j < c.len() && !is_whitespace(c[j])
                invariant
                    i <= j <= c.len(),
                    w@ == c@.subrange(i as int, j as int),
                    word_end(c@, i as int) == word_end(c@, j as int),
                decreases c.len() - j,
            {
                w.push(c[j]);
                j += 1;
                assert(w@ =~= c@.subrange(i as int, j as int));
            }
            let ghost before = views(out@);
            out.push(w);
            assert(views(out@) =~= before.push(c@.subrange(i as int, j as int)));
            assert(views(out@) + words_from(c@, j as int) =~= before + words_from(
                c@,
                i as int,
            ));
            i = j;
        }
    }
    assert(views(out@) + words_from(c@, i as int) =~= views(out@));
    out
}

// ---------------------------------------------------------------------------
// Joining
// ---------------------------------------------------------------------------
/// `[T]::join`: the words with `sep` between consecutive ones.
pub open spec fn join(ws: Seq<Seq<char>>, sep: Seq<char>) -> Seq<char>
    decreases ws.len(),
{
    if ws.len() == 0 {
        seq![]
    } else if ws.len() == 1 {
        ws[0]
    } else {
        join(ws.drop_last(), sep) + sep + ws.last()
    }
}

/// Joins `ws[lo..hi]` with single spaces.
pub fn join_words(ws: &Vec<Vec<char>>, lo: usize, hi: usize) -> (r: Vec<char>)
    requires
        lo <= hi <= ws.len(),
    ensures
        r@ == join(views(ws@).subrange(lo as int, hi as int), seq![' ']),
{
    let mut out: Vec<char> = Vec::new();
    let mut k: usize = lo;
    while k < hi
        invariant
            lo <= k <= hi <= ws.len(),
            out@ == join(views(ws@).subrange(lo as int, k as int), seq![' ']),
        decreases hi - k,
    {
        let ghost prev = views(ws@).subrange(lo as int, k as int);
        let ghost next = views(ws@).subrange(lo as int, k + 1);
        assert(next.drop_last() =~= prev);
        if k > lo {
            out.push(' ');
        }
        append_chars(&mut out, &ws[k]);
        assert(out@ =~= join(next, seq![' ']));
        k += 1;
    }
    out
}

// ---------------------------------------------------------------------------
// Substring search
// ---------------------------------------------------------------------------
/// `p` occurs in `s` starting at index `i`.
pub open spec fn occurs_at(s: Seq<char>, p: Seq<char>, i: int) -> bool {
    0 <= i && i + p.len() <= s.len() && s.subrange(i, i + p.len()) == p
}

/// `str::contains`: `p` occurs somewhere in `s`.
pub open spec fn contains_sub(s: Seq<char>, p: Seq<char>) -> bool {
    exists|i: int| occurs_at(s, p, i)
}

/// `i` is the first index at or after `k` where `p` occurs in `s`.
pub open spec fn is_first_from(s: Seq<char>, p: Seq<char>, k: int, i: int) -> bool {
    &&& k <= i
    &&& occurs_at(s, p, i)
    &&& forall|j: int| k <= j < i ==> !occurs_at(s, p, j)
}

/// `str::find` on the suffix that starts at `k`, as an index into `s`.
pub open spec fn first_occurrence_from(s: Seq<char>, p: Seq<char>, k: int) -> Option<int> {
    if exists|i: int| is_first_from(s, p, k, i) {
        Some(choose|i: int| is_first_from(s, p, k, i))
    } else {
        None
    }
}

pub proof fn lemma_first_unique(s: Seq<char>, p: Seq<char>, k: int, i: int)
    requires
        is_first_from(s, p, k, i),
    ensures
        first_occurrence_from(s, p, k) == Some(i),
{
    let w = choose|w: int| is_first_from(s, p, k, w);
    assert(is_first_from(s, p, k, w));
    if w < i {
        assert(!occurs_at(s, p, w));
    } else if w > i {
        assert(!occurs_at(s, p, i));
    }
}

pub proof fn lemma_no_first(s: Seq<char>, p: Seq<char>, k: int)
    requires
        forall|j: int| k <= j ==> !occurs_at(s, p, j),
    ensures
        first_occurrence_from(s, p, k) is None,
{
    if exists|i: int| is_first_from(s, p, k, i) {
        let w = choose|w: int| is_first_from(s, p, k, w);
        assert(occurs_at(s, p, w));
    }
}

/// Whether `p` occurs in `c` at index `i`.
pub fn matches_at(c: &Vec<char>, p: &Vec<char>, i: usize) -> (r: bool)
    ensures
        r == occurs_at(c@, p@, i as int),
{
    if i > c.len() || p.len() > c.len() - i {
        return false;
    }
    let mut m: usize = 0;
    while m < p.len()
        invariant
            i + p.len() <= c.len(),
            m <= p.len(),
            forall|t: int| 0 <= t < m ==> c@[i + t] == p@[t],
        decreases p.len() - m,
    {
        if c[i + m] != p[m] {
            assert(c@.subrange(i as int, i + p.len())[m as int] != p@[m as int]);
            return false;
        }
        m += 1;
    }
    assert(c@.subrange(i as int, i + p.len()) =~= p@);
    true
}

/// The first index at or after `k` where `p` occurs in `c`.
pub fn find_from(c: &Vec<char>, p: &Vec<char>, k: usize) -> (r: Option<usize>)
    ensures
        match r {
            Some(i) => first_occurrence_from(c@, p@, k as int) == Some(i as int) && is_first_from(
                c@,
                p@,
                k as int,
                i as int,
            ),
            None => first_occurrence_from(c@, p@, k as int) is None && forall|j: int|
                k <= j ==> !occurs_at(c@, p@, j),
        },
{
    if p.len() > c.len() {
        proof {
            lemma_no_first(c@, p@, k as int);
        }
        return None;
    }
    if p.len() == 0 {
        if k <= c.len() {
            assert(c@.subrange(k as int, k as int) =~= p@);
            proof {
                lemma_first_unique(c@, p@, k as int, k as int);
            }
            return Some(k);
        } else {
            proof {
                lemma_no_first(c@, p@, k as int);
            }
            return None;
        }
    }
    let mut i: usize = k;
    while i <= c.len() - p.len()
        invariant
            k <= i,
            1 <= p.len() <= c.len(),
            forall|j: int| k <= j < i ==> !occurs_at(c@, p@, j),
        decreases c.len() - i,
    {
        if matches_at(c, p, i) {
            proof {
                lemma_first_unique(c@, p@, k as int, i as int);
            }
            return Some(i);
        }
        i += 1;
    }
    proof {
        lemma_no_first(c@, p@, k as int);
    }
    None
}

/// Whether `p` occurs anywhere in `c`.
pub fn contains_chars(c: &Vec<char>, p: &Vec<char>) -> (r: bool)
    ensures
        r == contains_sub(c@, p@),
{
    match find_from(c, p, 0) {
        Some(i) => true,
        None => false,
    }
}

/// `str::ends_with`.
pub open spec fn ends_with(s: Seq<char>, suf: Seq<char>) -> bool {
    s.len() >= suf.len() && s.subrange(s.len() - suf.len(), s.len() as int) == suf
}

pub fn ends_with_chars(c: &Vec<char>, suf: &Vec<char>) -> (r: bool)
    ensures
        r == ends_with(c@, suf@),
{
    if suf.len() > c.len() {
        return false;
    }
    let r = matches_at(c, suf, c.len() - suf.len());
    r
}

/// `str::replacen(from, to, 1)`: the first occurrence of `from` replaced by `to`.
pub open spec fn replace_first(s: Seq<char>, from: Seq<char>, to: Seq<char>) -> Seq<char> {
    match first_occurrence_from(s, from, 0) {
        Some(i) => s.subrange(0, i) + to + s.subrange(i + from.len(), s.len() as int),
        None => s,
    }
}

pub fn replace_first_chars(c: &Vec<char>, from: &Vec<char>, to: &Vec<char>) -> (r: Vec<char>)
    ensures
        r@ == replace_first(c@, from@, to@),
{
    match find_from(c, from, 0) {
        None => c.clone(),
        Some(i) => {
            let mut out: Vec<char> = Vec::new();
            let mut m: usize = 0;
            while m < i
                invariant
                    i + from.len() <= c.len(),
                    m <= i,
                    out@ == c@.subrange(0, m as int),
                decreases i - m,
            {
                out.push(c[m]);
                m += 1;
                assert(out@ =~= c@.subrange(0, m as int));
            }
            append_chars(&mut out, to);
            let mut m: usize = i + from.len();
            let ghost mid = out@;
            while m < c.len()
                invariant
                    i + from.len() <= m <= c.len(),
                    out@ == mid + c@.subrange(i + from.len(), m as int),
                decreases c.len() - m,
            {
                out.push(c[m]);
                m += 1;
                assert(out@ =~= mid + c@.subrange(i + from.len(), m as int));
            }
            out
        },
    }
}

// ---------------------------------------------------------------------------
// Trimming
// ---------------------------------------------------------------------------
/// Index of the first non-whitespace character at or after `k` (or the length).
pub open spec fn skip_ws_from(s: Seq<char>, k: int) -> int
    decreases s.len() - k,
{
    if 0 <= k < s.len() && is_ws(s[k]) {
        skip_ws_from(s, k + 1)
    } else {
        k
    }
}

/// End (exclusive) of `s[..e]` once trailing whitespace is dropped.
pub open spec fn trim_end_from(s: Seq<char>, e: int) -> int
    decreases e,
{
    if 0 < e <= s.len() && is_ws(s[e - 1]) {
        trim_end_from(s, e - 1)
    } else {
        e
    }
}

/// `str::trim`: `s` without leading and trailing whitespace.
pub open spec fn trim_ws(s: Seq<char>) -> Seq<char> {
    let a = skip_ws_from(s, 0);
    let b = trim_end_from(s, s.len() as int);
    if a < b {
        s.subrange(a, b)
    } else {
        seq![]
    }
}

pub fn trim(c: &Vec<char>) -> (r: Vec<char>)
    ensures
        r@ == trim_ws(c@),
{
    let mut a: usize = 0;
    while a < c.len() && is_whitespace(c[a])
        invariant
            a <= c.len(),
            skip_ws_from(c@, 0) == skip_ws_from(c@, a as int),
        decreases c.len() - a,
    {
        a += 1;
    }
    let mut b: usize = c.len();
    while b > 0 && is_whitespace(c[b - 1])
        invariant
            b <= c.len(),
            trim_end_from(c@, c.len() as int) == trim_end_from(c@, b as int),
        decreases b,
    {
        b -= 1;
    }
    let mut out: Vec<char> = Vec::new();
    if a < b {
        let mut m: usize = a;
        while m < b
            invariant
                a <= m <= b <= c.len(),
                out@ == c@.subrange(a as int, m as int),
            decreases b - m,
        {
            out.push(c[m]);
            m += 1;
            assert(out@ =~= c@.subrange(a as int, m as int));
        }
    }
    out
}

// ---------------------------------------------------------------------------
// Splitting what was joined
// ---------------------------------------------------------------------------
/// Every word is non-empty and holds no whitespace.
pub open spec fn plain_words(ws: Seq<Seq<char>>) -> bool {
    forall|i: int|
        0 <= i < ws.len() ==> (#[trigger] ws[i]).len() > 0 && forall|m: int|
            0 <= m < ws[i].len() ==> !is_ws(#[trigger] ws[i][m])
}

proof fn lemma_word_end_at(s: Seq<char>, k: int, e: int)
    requires
        0 <= k <= e <= s.len(),
        forall|m: int| k <= m < e ==> !is_ws(#[trigger] s[m]),
        e == s.len() || is_ws(s[e]),
    ensures
        word_end(s, k) == e,
    decreases e - k,
{
    if k < e {
        lemma_word_end_at(s, k + 1, e);
    }
}

proof fn lemma_word_end_shift(s: Seq<char>, k: int, j: int)
    requires
        0 <= k <= j <= s.len(),
    ensures
        word_end(s, j) == k + word_end(s.subrange(k, s.len() as int), j - k),
    decreases s.len() - j,
{
    let t = s.subrange(k, s.len() as int);
    if j < s.len() {
        assert(t[j - k] == s[j]);
        lemma_word_end_shift(s, k, j + 1);
    }
}

proof fn lemma_words_from_shift(s: Seq<char>, k: int, j: int)
    requires
        0 <= k <= j <= s.len(),
    ensures
        words_from(s, j) == words_from(s.subrange(k, s.len() as int), j - k),
    decreases s.len() - j,
{
    let t = s.subrange(k, s.len() as int);
    if j < s.len() {
        assert(t[j - k] == s[j]);
        if is_ws(s[j]) {
            lemma_words_from_shift(s, k, j + 1);
        } else {
            let e = word_end(s, j);
            lemma_word_end_bounds(s, j);
            lemma_word_end_shift(s, k, j);
            lemma_words_from_shift(s, k, e);
            assert(t.subrange(j - k, e - k) =~= s.subrange(j, e));
        }
    }
}

/// The words that splitting yields are non-empty and hold no whitespace.
pub proof fn lemma_split_plain(s: Seq<char>, k: int)
    requires
        0 <= k <= s.len(),
    ensures
        plain_words(words_from(s, k)),
    decreases s.len() - k,
{
    if k < s.len() {
        if is_ws(s[k]) {
            lemma_split_plain(s, k + 1);
        } else {
            let e = word_end(s, k);
            lemma_word_end_bounds(s, k);
            lemma_split_plain(s, e);
            let ws = words_from(s, k);
            let rest = words_from(s, e);
            assert forall|i: int| 0 <= i < ws.len() implies (#[trigger] ws[i]).len() > 0 && forall|
                m: int,
            | 0 <= m < ws[i].len() ==> !is_ws(#[trigger] ws[i][m]) by {
                if i == 0 {
                    assert forall|m: int| 0 <= m < ws[i].len() implies !is_ws(#[trigger] ws[i][m]) by {
                        assert(ws[0][m] == s[k + m]);
                    }
                } else {
                    assert(ws[i] == rest[i - 1]);
                }
            }
        }
    }
}

proof fn lemma_join_front(ws: Seq<Seq<char>>, sep: Seq<char>)
    requires
        ws.len() >= 2,
    ensures
        join(ws, sep) == ws[0] + sep + join(ws.drop_first(), sep),
    decreases ws.len(),
{
    if ws.len() == 2 {
        assert(ws.drop_last().len() == 1 && ws.drop_last()[0] == ws[0]);
        assert(ws.drop_first().len() == 1 && ws.drop_first()[0] == ws[1]);
        assert(join(ws.drop_last(), sep) == ws[0]);
        assert(join(ws.drop_first(), sep) == ws[1]);
    } else {
        lemma_join_front(ws.drop_last(), sep);
        assert(ws.drop_last().drop_first() =~= ws.drop_first().drop_last());
        assert(join(ws, sep) =~= ws[0] + sep + join(ws.drop_first(), sep));
    }
}

/// Splitting words joined by single spaces gives the words back.
pub proof fn lemma_split_join(ws: Seq<Seq<char>>)
    requires
        plain_words(ws),
    ensures
        split_ws(join(ws, seq![' '])) == ws,
    decreases ws.len(),
{
    let s = join(ws, seq![' ']);
    if ws.len() == 0 {
        assert(split_ws(s) =~= ws);
    } else if ws.len() == 1 {
        let w = ws[0];
        assert(w.len() > 0);
        assert(!is_ws(w[0]));
        assert(s == w);
        lemma_word_end_at(w, 0, w.len() as int);
        assert(w.subrange(0, w.len() as int) =~= w);
        assert(words_from(w, w.len() as int) =~= Seq::<Seq<char>>::empty());
        assert(words_from(w, 0) =~= seq![w]);
        assert(split_ws(s) =~= ws);
    } else {
        let w = ws[0];
        let rest = ws.drop_first();
        lemma_join_front(ws, seq![' ']);
        let j = join(rest, seq![' ']);
        assert(s == w + seq![' '] + j);
        assert(plain_words(rest)) by {
            assert forall|i: int| 0 <= i < rest.len() implies (#[trigger] rest[i]).len() > 0 && forall|
                m: int,
            | 0 <= m < rest[i].len() ==> !is_ws(#[trigger] rest[i][m]) by {
                assert(rest[i] == ws[i + 1]);
            }
        }
        lemma_split_join(rest);
        let n = w.len() as int;
        assert forall|m: int| 0 <= m < n implies !is_ws(#[trigger] s[m]) by {
            assert(s[m] == w[m]);
        }
        assert(s[n] == ' ');
        assert(is_ws(' '));
        lemma_word_end_at(s, 0, n);
        assert(!is_ws(s[0])) by {
            assert(s[0] == w[0]);
        }
        assert(s.subrange(0, n) =~= w);
        lemma_words_from_shift(s, n + 1, n + 1);
        assert(s.subrange(n + 1, s.len() as int) =~= j);
        assert(words_from(s, n) == words_from(s, n + 1));
        assert(split_ws(s) =~= seq![w] + rest);
        assert(seq![w] + rest =~= ws);
    }
}

// ---------------------------------------------------------------------------
// Searching text with a word appended
// ---------------------------------------------------------------------------
/// Where `p` occurs at `i`, its characters are those of `s` from `i` on.
pub proof fn lemma_occurs_chars(s: Seq<char>, p: Seq<char>, i: int)
    requires
        occurs_at(s, p, i),
    ensures
        forall|m: int| 0 <= m < p.len() ==> s[i + m] == #[trigger] p[m],
{
    assert forall|m: int| 0 <= m < p.len() implies s[i + m] == #[trigger] p[m] by {
        assert(s.subrange(i, i + p.len())[m] == s[i + m]);
    }
}

/// Appending a space and a word `f` to `a` changes whether `p` occurs when
/// `p` neither occurs in `f` nor has a space followed by a start of `f`.
pub proof fn lemma_contains_append_word(a: Seq<char>, f: Seq<char>, p: Seq<char>)
    requires
        !contains_sub(f, p),
        forall|j: int|
            0 <= j < p.len() && p[j] == ' ' ==> p.len() - j - 1 > f.len() || f.take(p.len() - j - 1)
                != p.subrange(j + 1, p.len() as int),
    ensures
        contains_sub(a + seq![' '] + f, p) == contains_sub(a, p),
{
    let s = a + seq![' '] + f;
    let n = a.len() as int;
    if contains_sub(a, p) {
        let i = choose|i: int| occurs_at(a, p, i);
        assert(s.subrange(i, i + p.len()) =~= a.subrange(i, i + p.len()));
        assert(occurs_at(s, p, i));
    }
    if contains_sub(s, p) {
        let i = choose|i: int| occurs_at(s, p, i);
        lemma_occurs_chars(s, p, i);
        if i + p.len() <= n {
            assert(a.subrange(i, i + p.len()) =~= s.subrange(i, i + p.len()));
            assert(occurs_at(a, p, i));
        } else if i > n {
            let i2 = i - n - 1;
            assert(f.subrange(i2, i2 + p.len()) =~= p) by {
                assert forall|m: int| 0 <= m < p.len() implies f.subrange(i2, i2 + p.len())[m]
                    == p[m] by {
                    assert(s[i + m] == f[i2 + m]);
                }
            }
            assert(occurs_at(f, p, i2));
        } else {
            let j = n - i;
            assert(p[j] == s[n]);
            let t = p.subrange(j + 1, p.len() as int);
            assert(f.take(p.len() - j - 1) =~= t) by {
                assert forall|m: int| 0 <= m < t.len() implies f.take(p.len() - j - 1)[m] == t[m] by {
                    assert(s[n + 1 + m] == f[m]);
                    assert(p[j + 1 + m] == s[i + j + 1 + m]);
                }
            }
        }
    }
}

} // verus!
