//! Plain-English query parsing into the structured inputs `find` takes.
//!
//! Local and rule-based: keyword-spot the colouring/ethnicity attributes, and
//! split `"<trait> like <name>"` clauses into face references ("looks like X")
//! and body references ("butt like Y", "built like Z"). Names are resolved
//! against the library later by `find`.
use vstd::prelude::*;
use crate::text::{
    char_uppercase, chars_eq, chars_of, contains_chars, contains_sub, join, join_words,
    opt_view, split_ws, split_whitespace, string_of, string_views, uppercase_char, views, lowercase,
    str_lowercase, lemma_split_join, lemma_split_plain, occurs_at, lemma_occurs_chars,
    lemma_contains_append_word,
};

verus! {

broadcast use vstd::string::group_string_axioms;

/// The structured pieces parsed out of a plain-English query.
#[derive(Debug, Default, PartialEq, Eq)]
pub struct ParsedQuery {
    /// Face references ("looks like X").
    pub looks_like: Vec<String>,
    /// Body/butt references ("butt like Y", "built like Z").
    pub body_like: Vec<String>,
    pub hair: Option<String>,
    pub eye: Option<String>,
    pub ethnicity: Option<String>,
}

/// A parsed query with every string taken by its characters.
pub struct ParsedQueryView {
    pub looks_like: Seq<Seq<char>>,
    pub body_like: Seq<Seq<char>>,
    pub hair: Option<Seq<char>>,
    pub eye: Option<Seq<char>>,
    pub ethnicity: Option<Seq<char>>,
}

impl View for ParsedQuery {
    type V = ParsedQueryView;

    open spec fn view(&self) -> ParsedQueryView {
        ParsedQueryView {
            looks_like: string_views(self.looks_like@),
            body_like: string_views(self.body_like@),
            hair: opt_view(self.hair),
            eye: opt_view(self.eye),
            ethnicity: opt_view(self.ethnicity),
        }
    }
}

// ---------------------------------------------------------------------------
// Word tables
// ---------------------------------------------------------------------------
/// Filler words skipped when finding a clause's qualifier, and dropped from the
/// attribute head.
pub open spec fn stop_words() -> Seq<&'static str> {
    seq!["a", "an", "the", "with", "of", "her", "his", "is", "are", "that"]
}

/// Qualifiers that make a clause a face reference.
pub open spec fn face_quals() -> Seq<&'static str> {
    seq!["look", "looks", "looking", "face", "resembles", "resembling"]
}

/// Qualifiers that make a clause a body reference.
pub open spec fn body_quals() -> Seq<&'static str> {
    seq!["butt", "ass", "booty", "rear", "body", "build", "built", "figure", "frame", "shape"]
}

/// Words that end a reference name.
pub open spec fn break_words() -> Seq<&'static str> {
    seq!["with", "and", "that", "who", "but", "plus"]
}

/// Eye-colour keywords and the value each stands for.
pub open spec fn eye_table() -> Seq<(&'static str, &'static str)> {
    seq![
        ("blue", "Blue"),
        ("green", "Green"),
        ("hazel", "Hazel"),
        ("grey", "Grey"),
        ("gray", "Grey"),
        ("brown eye", "Brown"),
    ]
}

/// Hair-colour keywords and the value each stands for.
pub open spec fn hair_table() -> Seq<(&'static str, &'static str)> {
    seq![
        ("blonde", "Blonde"),
        ("blond", "Blonde"),
        ("brunette", "Brunette"),
        ("redhead", "Red"),
        ("red hair", "Red"),
        ("black hair", "Black"),
        ("auburn", "Auburn"),
    ]
}

/// Ethnicity keywords and the value each stands for.
pub open spec fn ethnicity_table() -> Seq<(&'static str, &'static str)> {
    seq![
        ("caucasian", "Caucasian"),
        ("latina", "Latin"),
        ("latin", "Latin"),
        ("ebony", "Black"),
        ("asian", "Asian"),
        ("indian", "Indian"),
    ]
}

fn stop_list() -> (r: Vec<&'static str>)
    ensures
        r@ == stop_words(),
{
    vec!["a", "an", "the", "with", "of", "her", "his", "is", "are", "that"]
}

fn face_list() -> (r: Vec<&'static str>)
    ensures
        r@ == face_quals(),
{
    vec!["look", "looks", "looking", "face", "resembles", "resembling"]
}

fn body_list() -> (r: Vec<&'static str>)
    ensures
        r@ == body_quals(),
{
    vec!["butt", "ass", "booty", "rear", "body", "build", "built", "figure", "frame", "shape"]
}

fn break_list() -> (r: Vec<&'static str>)
    ensures
        r@ == break_words(),
{
    vec!["with", "and", "that", "who", "but", "plus"]
}

fn eye_list() -> (r: Vec<(&'static str, &'static str)>)
    ensures
        r@ == eye_table(),
{
    vec![
        ("blue", "Blue"),
        ("green", "Green"),
        ("hazel", "Hazel"),
        ("grey", "Grey"),
        ("gray", "Grey"),
        ("brown eye", "Brown"),
    ]
}

fn hair_list() -> (r: Vec<(&'static str, &'static str)>)
    ensures
        r@ == hair_table(),
{
    vec![
        ("blonde", "Blonde"),
        ("blond", "Blonde"),
        ("brunette", "Brunette"),
        ("redhead", "Red"),
        ("red hair", "Red"),
        ("black hair", "Black"),
        ("auburn", "Auburn"),
    ]
}

fn ethnicity_list() -> (r: Vec<(&'static str, &'static str)>)
    ensures
        r@ == ethnicity_table(),
{
    vec![
        ("caucasian", "Caucasian"),
        ("latina", "Latin"),
        ("latin", "Latin"),
        ("ebony", "Black"),
        ("asian", "Asian"),
        ("indian", "Indian"),
    ]
}

/// `w` is one of the words of table `t`.
pub open spec fn in_words<'a>(w: Seq<char>, t: Seq<&'a str>) -> bool {
    exists|k: int| 0 <= k < t.len() && (#[trigger] t[k])@ == w
}

fn in_list(w: &Vec<char>, t: &Vec<&'static str>) -> (r: bool)
    ensures
        r == in_words(w@, t@),
{
    let mut k: usize = 0;
    while k < t.len()
        invariant
            k <= t.len(),
            forall|m: int| 0 <= m < k ==> (#[trigger] t@[m])@ != w@,
        decreases t.len() - k,
    {
        let cs = chars_of(t[k]);
        if chars_eq(&cs, w) {
            return true;
        }
        k += 1;
    }
    false
}

// ---------------------------------------------------------------------------
// Title case
// ---------------------------------------------------------------------------
/// A word with its first character upper-cased.
pub open spec fn cap_word(w: Seq<char>) -> Seq<char> {
    if w.len() == 0 {
        w
    } else {
        char_uppercase(w[0]) + w.drop_first()
    }
}

/// Each whitespace-separated word capitalised, joined by single spaces.
pub open spec fn titlecase_spec(s: Seq<char>) -> Seq<char> {
    join(split_ws(s).map_values(|w: Seq<char>| cap_word(w)), seq![' '])
}

fn cap_chars(w: &Vec<char>) -> (r: Vec<char>)
    ensures
        r@ == cap_word(w@),
{
    if w.len() == 0 {
        return Vec::new();
    }
    let up = uppercase_char(w[0]);
    let mut out = chars_of(up.as_str());
    let ghost head = out@;
    let mut m: usize = 1;
    while m < w.len()
        invariant
            1 <= m <= w.len(),
            out@ == head + w@.subrange(1, m as int),
        decreases w.len() - m,
    {
        out.push(w[m]);
        m += 1;
        assert(out@ =~= head + w@.subrange(1, m as int));
    }
    assert(w@.drop_first() =~= w@.subrange(1, w.len() as int));
    out
}

fn titlecase_chars(c: &Vec<char>) -> (r: Vec<char>)
    ensures
        r@ == titlecase_spec(c@),
{
    let words = split_whitespace(c);
    let ghost ws = split_ws(c@);
    let mut caps: Vec<Vec<char>> = Vec::new();
    let mut k: usize = 0;
    while k < words.len()
        invariant
            k <= words.len(),
            views(words@) == ws,
            views(caps@) == ws.take(k as int).map_values(|w: Seq<char>| cap_word(w)),
        decreases words.len() - k,
    {
        let cw = cap_chars(&words[k]);
        let ghost before = views(caps@);
        caps.push(cw);
        assert(views(words@)[k as int] == words@[k as int]@);
        assert(views(caps@) =~= before.push(cw@));
        assert(ws.take(k + 1).map_values(|w: Seq<char>| cap_word(w)) =~= ws.take(k as int).map_values(
            |w: Seq<char>| cap_word(w),
        ).push(cap_word(ws[k as int])));
        k += 1;
    }
    assert(ws.take(words.len() as int) =~= ws);
    let n = caps.len();
    let r = join_words(&caps, 0, n);
    assert(views(caps@).subrange(0, n as int) =~= views(caps@));
    r
}

/// Title-cases each word of a name ("naughty alysha" -> "Naughty Alysha").
pub fn titlecase(s: &str) -> (r: String)
    ensures
        r@ == titlecase_spec(s@),
{
    let c = chars_of(s);
    let t = titlecase_chars(&c);
    string_of(&t)
}

// ---------------------------------------------------------------------------
// Attribute tables
// ---------------------------------------------------------------------------
/// The value of the first entry of `t` at or after `k` whose keyword occurs in
/// `head`.
pub open spec fn pick_from<'a, 'b>(head: Seq<char>, t: Seq<(&'a str, &'b str)>, k: int) -> Option<
    Seq<char>,
>
    decreases t.len() - k,
{
    if k < 0 || k >= t.len() {
        None
    } else if contains_sub(head, t[k].0@) {
        Some(t[k].1@)
    } else {
        pick_from(head, t, k + 1)
    }
}

/// First table entry whose keyword appears in `head`.
pub fn pick(head: &str, table: &[(&str, &str)]) -> (r: Option<String>)
    ensures
        opt_view(r) == pick_from(head@, table@, 0),
{
    let h = chars_of(head);
    let mut k: usize = 0;
    while k < table.len()
        invariant
            k <= table.len(),
            h@ == head@,
            pick_from(head@, table@, 0) == pick_from(head@, table@, k as int),
        decreases table.len() - k,
    {
        let kw = chars_of(table[k].0);
        if contains_chars(&h, &kw) {
            let v = table[k].1.to_string();
            return Some(v);
        }
        k += 1;
    }
    None
}

// ---------------------------------------------------------------------------
// Parsing
// ---------------------------------------------------------------------------
/// Index of the first break word at or after `k` (the number of words if none).
pub open spec fn break_index(words: Seq<Seq<char>>, k: int) -> int
    decreases words.len() - k,
{
    if 0 <= k < words.len() && !in_words(words[k], break_words()) {
        break_index(words, k + 1)
    } else {
        k
    }
}

pub proof fn lemma_break_index(words: Seq<Seq<char>>, k: int)
    requires
        0 <= k <= words.len(),
    ensures
        k <= break_index(words, k) <= words.len(),
    decreases words.len() - k,
{
    if k < words.len() && !in_words(words[k], break_words()) {
        lemma_break_index(words, k + 1);
    }
}

/// The nearest word before index `i` that is not a filler word ("look" if none).
pub open spec fn qualifier_before(words: Seq<Seq<char>>, i: int) -> Seq<char>
    decreases i,
{
    if i <= 0 {
        "look"@
    } else if in_words(words[i - 1], stop_words()) {
        qualifier_before(words, i - 1)
    } else {
        words[i - 1]
    }
}

/// The reference names of the `like` clauses that start at or after word `i`:
/// face references first, body references second. A clause is a `like` that
/// is not the last word; its name runs to the next break word, and it is a
/// body reference when its qualifier is a body word.
pub open spec fn clauses_from(words: Seq<Seq<char>>, i: int) -> (Seq<Seq<char>>, Seq<Seq<char>>)
    decreases words.len() - i,
{
    if i < 0 || i + 1 >= words.len() {
        (seq![], seq![])
    } else if words[i] != "like"@ {
        clauses_from(words, i + 1)
    } else {
        let j = break_index(words, i + 1);
        proof {
            lemma_break_index(words, i + 1);
        }
        let name = titlecase_spec(join(words.subrange(i + 1, j), seq![' ']));
        let rest = clauses_from(words, j);
        if name.len() == 0 {
            rest
        } else if in_words(qualifier_before(words, i), body_quals()) {
            (rest.0, seq![name] + rest.1)
        } else {
            (seq![name] + rest.0, rest.1)
        }
    }
}

/// Index of the first `like` at or after word `k`.
pub open spec fn like_position(words: Seq<Seq<char>>, k: int) -> Option<int>
    decreases words.len() - k,
{
    if k < 0 || k >= words.len() {
        None
    } else if words[k] == "like"@ {
        Some(k)
    } else {
        like_position(words, k + 1)
    }
}

/// Filler and qualifier words, dropped from the end of the attribute head.
pub open spec fn is_filler(w: Seq<char>) -> bool {
    in_words(w, stop_words()) || in_words(w, face_quals()) || in_words(w, body_quals())
}

/// `e` moved back over the filler words that end `words[..e]`.
pub open spec fn trim_fillers(words: Seq<Seq<char>>, e: int) -> int
    decreases e,
{
    if 0 < e && is_filler(words[e - 1]) {
        trim_fillers(words, e - 1)
    } else {
        e
    }
}

/// Number of words in the attribute head: those before the first `like`,
/// without the fillers and qualifiers that end them; all words if there is no
/// `like`.
pub open spec fn head_end(words: Seq<Seq<char>>) -> int {
    match like_position(words, 0) {
        Some(li) => trim_fillers(words, li),
        None => words.len() as int,
    }
}

/// The attribute head, its words joined by single spaces.
pub open spec fn attribute_head(words: Seq<Seq<char>>) -> Seq<char> {
    join(words.take(head_end(words)), seq![' '])
}

/// What a query with these words parses to.
pub open spec fn parse_words(words: Seq<Seq<char>>) -> ParsedQueryView {
    let head = attribute_head(words);
    let cl = clauses_from(words, 0);
    ParsedQueryView {
        looks_like: cl.0,
        body_like: cl.1,
        hair: pick_from(head, hair_table(), 0),
        eye: pick_from(head, eye_table(), 0),
        ethnicity: pick_from(head, ethnicity_table(), 0),
    }
}

/// What an already lower-cased query parses to.
pub open spec fn parse_lowered(lower: Seq<char>) -> ParsedQueryView {
    parse_words(split_ws(lower))
}

fn qualifier(words: &Vec<Vec<char>>, i: usize, stop: &Vec<&'static str>) -> (r: Vec<char>)
    requires
        i <= words.len(),
        stop@ == stop_words(),
    ensures
        r@ == qualifier_before(views(words@), i as int),
{
    let ghost w = views(words@);
    let mut m: usize = i;
    while m > 0 && in_list(&words[m - 1], stop)
        invariant
            m <= i <= words.len(),
            stop@ == stop_words(),
            w == views(words@),
            qualifier_before(w, i as int) == qualifier_before(w, m as int),
        decreases m,
    {
        assert(w[m - 1] == words@[m - 1]@);
        m -= 1;
    }
    if m == 0 {
        chars_of("look")
    } else {
        assert(w[m - 1] == words@[m - 1]@);
        words[m - 1].clone()
    }
}

fn break_at(words: &Vec<Vec<char>>, k: usize, brk: &Vec<&'static str>) -> (r: usize)
    requires
        k <= words.len(),
        brk@ == break_words(),
    ensures
        r == break_index(views(words@), k as int),
        k <= r <= words.len(),
{
    let ghost w = views(words@);
    let mut j: usize = k;
    while j < words.len() && !in_list(&words[j], brk)
        invariant
            k <= j <= words.len(),
            brk@ == break_words(),
            w == views(words@),
            break_index(w, k as int) == break_index(w, j as int),
        decreases words.len() - j,
    {
        assert(w[j as int] == words@[j as int]@);
        j += 1;
    }
    if j < words.len() {
        assert(w[j as int] == words@[j as int]@);
    }
    j
}

fn first_like(words: &Vec<Vec<char>>, like: &Vec<char>) -> (r: Option<usize>)
    requires
        like@ == "like"@,
    ensures
        match r {
            Some(l) => like_position(views(words@), 0) == Some(l as int) && l < words.len(),
            None => like_position(views(words@), 0) is None,
        },
{
    let ghost w = views(words@);
    let mut k: usize = 0;
    while k < words.len()
        invariant
            k <= words.len(),
            like@ == "like"@,
            w == views(words@),
            like_position(w, 0) == like_position(w, k as int),
        decreases words.len() - k,
    {
        assert(w[k as int] == words@[k as int]@);
        if chars_eq(&words[k], like) {
            return Some(k);
        }
        k += 1;
    }
    None
}

fn trim_filler_words(
    words: &Vec<Vec<char>>,
    e: usize,
    stop: &Vec<&'static str>,
    face: &Vec<&'static str>,
    body: &Vec<&'static str>,
) -> (r: usize)
    requires
        e <= words.len(),
        stop@ == stop_words(),
        face@ == face_quals(),
        body@ == body_quals(),
    ensures
        r == trim_fillers(views(words@), e as int),
        r <= e,
{
    let ghost w = views(words@);
    let mut end: usize = e;
    while end > 0 && (in_list(&words[end - 1], stop) || in_list(&words[end - 1], face) || in_list(
        &words[end - 1],
        body,
    ))
        invariant
            end <= e <= words.len(),
            stop@ == stop_words(),
            face@ == face_quals(),
            body@ == body_quals(),
            w == views(words@),
            trim_fillers(w, e as int) == trim_fillers(w, end as int),
        decreases end,
    {
        assert(w[end - 1] == words@[end - 1]@);
        end -= 1;
    }
    if end > 0 {
        assert(w[end - 1] == words@[end - 1]@);
    }
    end
}

/// Parses an already lower-cased query.
pub fn parse_lowercase(lower: &str) -> (q: ParsedQuery)
    ensures
        q@ == parse_lowered(lower@),
{
    let c = chars_of(lower);
    let words = split_whitespace(&c);
    let ghost w = views(words@);
    let like = chars_of("like");
    let stop = stop_list();
    let face = face_list();
    let bodyq = body_list();
    let brk = break_list();

    // Reference clauses: each "like <name>" preceded by a trait qualifier.
    let mut looks: Vec<String> = Vec::new();
    let mut body: Vec<String> = Vec::new();
    let mut i: usize = 0;
    while i < words.len() && i + 1 < words.len()
        invariant
            i <= words.len(),
            w == views(words@),
            like@ == "like"@,
            stop@ == stop_words(),
            bodyq@ == body_quals(),
            brk@ == break_words(),
            string_views(looks@) + clauses_from(w, i as int).0 == clauses_from(w, 0).0,
            string_views(body@) + clauses_from(w, i as int).1 == clauses_from(w, 0).1,
        decreases words.len() - i,
    {
        assert(w[i as int] == words@[i as int]@);
        if !chars_eq(&words[i], &like) {
            i += 1;
        } else {
            let qual = qualifier(&words, i, &stop);
            let is_body = in_list(&qual, &bodyq);
            let j = break_at(&words, i + 1, &brk);
            let joined = join_words(&words, i + 1, j);
            let name_c = titlecase_chars(&joined);
            let ghost rest = clauses_from(w, j as int);
            let ghost lv = string_views(looks@);
            let ghost bv = string_views(body@);
            if name_c.len() > 0 {
                let name = string_of(&name_c);
                if is_body {
                    body.push(name);
                    assert(string_views(body@) =~= bv.push(name_c@));
                    assert(string_views(body@) + rest.1 =~= bv + (seq![name_c@] + rest.1));
                } else {
                    looks.push(name);
                    assert(string_views(looks@) =~= lv.push(name_c@));
                    assert(string_views(looks@) + rest.0 =~= lv + (seq![name_c@] + rest.0));
                }
            }
            i = j;
        }
    }
    assert(string_views(looks@) + seq![] =~= string_views(looks@));
    assert(string_views(body@) + seq![] =~= string_views(body@));

    // Attribute head: everything before the first clause's qualifier.
    let end = match first_like(&words, &like) {
        Some(li) => trim_filler_words(&words, li, &stop, &face, &bodyq),
        None => words.len(),
    };
    let head_c = join_words(&words, 0, end);
    assert(w.subrange(0, end as int) =~= w.take(end as int));
    let head = string_of(&head_c);
    let eyes = eye_list();
    let hairs = hair_list();
    let eths = ethnicity_list();
    let eye = pick(head.as_str(), eyes.as_slice());
    let hair = pick(head.as_str(), hairs.as_slice());
    let ethnicity = pick(head.as_str(), eths.as_slice());
    ParsedQuery { looks_like: looks, body_like: body, hair, eye, ethnicity }
}

/// Parses a free-text query into [`ParsedQuery`]: the text is lower-cased,
/// then parsed as [`parse_lowercase`] does.
pub fn parse(text: &str) -> (q: ParsedQuery)
    ensures
        q@ == parse_lowered(str_lowercase(text@)),
{
    let lower = lowercase(text);
    parse_lowercase(lower.as_str())
}

// ---------------------------------------------------------------------------
// Laws of the parser
// ---------------------------------------------------------------------------
/// Two lower-cased queries with the same words parse alike: how the words
/// are spaced (runs of spaces, tabs, newlines, leading or trailing
/// whitespace) never changes the result.
pub proof fn lemma_parse_whitespace_layout(a: Seq<char>, b: Seq<char>)
    requires
        split_ws(a) == split_ws(b),
    ensures
        parse_lowered(a) == parse_lowered(b),
{
}

/// A lower-cased query parses as its words joined by single spaces.
pub proof fn lemma_parse_normalised(s: Seq<char>)
    ensures
        parse_lowered(join(split_ws(s), seq![' '])) == parse_lowered(s),
{
    lemma_split_plain(s, 0);
    lemma_split_join(split_ws(s));
}

/// A query whose lower-cased text has the same words as another's parses
/// alike.
pub proof fn lemma_parse_same_words(a: Seq<char>, b: Seq<char>)
    requires
        split_ws(str_lowercase(a)) == split_ws(str_lowercase(b)),
    ensures
        parse_lowered(str_lowercase(a)) == parse_lowered(str_lowercase(b)),
{
}

/// The hair, eye and ethnicity attributes of a parsed query.
pub open spec fn attributes(q: ParsedQueryView) -> (Option<Seq<char>>, Option<Seq<char>>, Option<
    Seq<char>,
>) {
    (q.hair, q.eye, q.ethnicity)
}

proof fn lemma_like_at(p: Seq<Seq<char>>, w: Seq<Seq<char>>, k: int)
    requires
        0 <= k <= p.len() < w.len(),
        w.take(p.len() as int) == p,
        w[p.len() as int] == "like"@,
        forall|i: int| 0 <= i < p.len() ==> p[i] != "like"@,
    ensures
        like_position(w, k) == Some(p.len() as int),
    decreases p.len() - k,
{
    if k < p.len() {
        assert(w[k] == p[k]);
        lemma_like_at(p, w, k + 1);
    }
}

proof fn lemma_trim_fillers_prefix(p: Seq<Seq<char>>, w: Seq<Seq<char>>, e: int)
    requires
        0 <= e <= p.len() <= w.len(),
        w.take(p.len() as int) == p,
    ensures
        trim_fillers(w, e) == trim_fillers(p, e),
        0 <= trim_fillers(w, e) <= e,
    decreases e,
{
    if e > 0 {
        assert(w[e - 1] == p[e - 1]);
        lemma_trim_fillers_prefix(p, w, e - 1);
    }
}

proof fn lemma_no_like(p: Seq<Seq<char>>, k: int)
    requires
        0 <= k,
        forall|i: int| 0 <= i < p.len() ==> p[i] != "like"@,
    ensures
        like_position(p, k) is None,
    decreases p.len() - k,
{
    if k < p.len() {
        lemma_no_like(p, k + 1);
    }
}

/// Keyword `kw` can neither occur inside word `f` nor run from a space into
/// the start of `f`.
pub open spec fn clear_of(kw: Seq<char>, f: Seq<char>) -> bool {
    &&& !contains_sub(f, kw)
    &&& forall|j: int|
        0 <= j < kw.len() && kw[j] == ' ' ==> kw.len() - j - 1 > f.len() || f.take(kw.len() - j - 1)
            != kw.subrange(j + 1, kw.len() as int)
}

/// An attribute keyword.
pub open spec fn is_keyword(t: Seq<(&'static str, &'static str)>, k: int) -> bool {
    (t == eye_table() || t == hair_table() || t == ethnicity_table()) && 0 <= k < t.len()
}

proof fn lemma_filler_is_listed(f: Seq<char>) -> (w: &'static str)
    requires
        is_filler(f),
    ensures
        w@ == f,
        stop_words().contains(w) || face_quals().contains(w) || body_quals().contains(w),
{
    if in_words(f, stop_words()) {
        let k = choose|k: int| 0 <= k < stop_words().len() && (#[trigger] stop_words()[k])@ == f;
        stop_words()[k]
    } else if in_words(f, face_quals()) {
        let k = choose|k: int| 0 <= k < face_quals().len() && (#[trigger] face_quals()[k])@ == f;
        face_quals()[k]
    } else {
        let k = choose|k: int| 0 <= k < body_quals().len() && (#[trigger] body_quals()[k])@ == f;
        body_quals()[k]
    }
}

/// No attribute keyword occurs inside a filler or qualifier word, or runs
/// from a space into one.
#[verifier::rlimit(100)]
pub proof fn lemma_keyword_clear_of_filler(t: Seq<(&'static str, &'static str)>, k: int, f: Seq<char>)
    requires
        is_keyword(t, k),
        is_filler(f),
    ensures
        clear_of(t[k].0@, f),
        t[k].0@.len() > 0,
{
    reveal_strlit("blue");
    reveal_strlit("green");
    reveal_strlit("hazel");
    reveal_strlit("grey");
    reveal_strlit("gray");
    reveal_strlit("brown eye");
    reveal_strlit("blonde");
    reveal_strlit("blond");
    reveal_strlit("brunette");
    reveal_strlit("redhead");
    reveal_strlit("red hair");
    reveal_strlit("black hair");
    reveal_strlit("auburn");
    reveal_strlit("caucasian");
    reveal_strlit("latina");
    reveal_strlit("latin");
    reveal_strlit("ebony");
    reveal_strlit("asian");
    reveal_strlit("indian");
    reveal_strlit("a");
    reveal_strlit("an");
    reveal_strlit("the");
    reveal_strlit("with");
    reveal_strlit("of");
    reveal_strlit("her");
    reveal_strlit("his");
    reveal_strlit("is");
    reveal_strlit("are");
    reveal_strlit("that");
    reveal_strlit("look");
    reveal_strlit("looks");
    reveal_strlit("looking");
    reveal_strlit("face");
    reveal_strlit("resembles");
    reveal_strlit("resembling");
    reveal_strlit("butt");
    reveal_strlit("ass");
    reveal_strlit("booty");
    reveal_strlit("rear");
    reveal_strlit("body");
    reveal_strlit("build");
    reveal_strlit("built");
    reveal_strlit("figure");
    reveal_strlit("frame");
    reveal_strlit("shape");
    let w = lemma_filler_is_listed(f);
    let kw = t[k].0@;
    if contains_sub(f, kw) {
        let i = choose|i: int| occurs_at(f, kw, i);
        lemma_occurs_chars(f, kw, i);
        assert(f[i] == kw[0] && f[i + 1] == kw[1] && f[i + 2] == kw[2]);
    }
    assert forall|j: int| 0 <= j < kw.len() && kw[j] == ' ' implies kw.len() - j - 1 > f.len()
        || f.take(kw.len() - j - 1) != kw.subrange(j + 1, kw.len() as int) by {
        if kw.len() - j - 1 <= f.len() {
            assert(f.take(kw.len() - j - 1)[0] == f[0]);
            assert(kw.subrange(j + 1, kw.len() as int)[0] == kw[j + 1]);
        }
    }
}

/// Adding a filler or qualifier word to the end of the head never changes
/// what an attribute table picks from it.
proof fn lemma_pick_ignores_filler(
    q: Seq<Seq<char>>,
    f: Seq<char>,
    t: Seq<(&'static str, &'static str)>,
    k: int,
)
    requires
        is_filler(f),
        t == eye_table() || t == hair_table() || t == ethnicity_table(),
        0 <= k,
    ensures
        pick_from(join(q.push(f), seq![' ']), t, k) == pick_from(join(q, seq![' ']), t, k),
    decreases t.len() - k,
{
    if k < t.len() {
        lemma_keyword_clear_of_filler(t, k, f);
        let kw = t[k].0@;
        let longer = join(q.push(f), seq![' ']);
        if q.len() == 0 {
            assert(q.push(f).len() == 1 && q.push(f)[0] == f);
            assert(longer == f);
            assert(join(q, seq![' ']) == Seq::<char>::empty());
            assert(!contains_sub(Seq::<char>::empty(), kw));
        } else {
            assert(q.push(f).drop_last() =~= q);
            assert(longer == join(q, seq![' ']) + seq![' '] + f);
            lemma_contains_append_word(join(q, seq![' ']), f, kw);
        }
        lemma_pick_ignores_filler(q, f, t, k + 1);
    }
}

proof fn lemma_pick_trim(p: Seq<Seq<char>>, e: int, t: Seq<(&'static str, &'static str)>)
    requires
        0 <= e <= p.len(),
        t == eye_table() || t == hair_table() || t == ethnicity_table(),
    ensures
        pick_from(join(p.take(trim_fillers(p, e)), seq![' ']), t, 0) == pick_from(
            join(p.take(e), seq![' ']),
            t,
            0,
        ),
    decreases e,
{
    if e > 0 && is_filler(p[e - 1]) {
        lemma_pick_trim(p, e - 1, t);
        assert(p.take(e) =~= p.take(e - 1).push(p[e - 1]));
        lemma_pick_ignores_filler(p.take(e - 1), p[e - 1], t, 0);
    }
}

/// The reference clause and everything after the first `like` never change
/// the attributes: a query's hair, eye and ethnicity are those of the words
/// before its first `like`, parsed alone.
pub proof fn lemma_attributes_ignore_like_clause(p: Seq<Seq<char>>, r: Seq<Seq<char>>)
    requires
        forall|i: int| 0 <= i < p.len() ==> p[i] != "like"@,
    ensures
        attributes(parse_words(p + seq!["like"@] + r)) == attributes(parse_words(p)),
{
    let w = p + seq!["like"@] + r;
    let n = p.len() as int;
    assert(w.take(n) =~= p);
    lemma_like_at(p, w, 0);
    lemma_trim_fillers_prefix(p, w, n);
    let h = trim_fillers(p, n);
    assert(head_end(w) == h);
    assert(w.take(h) =~= p.take(h));
    lemma_no_like(p, 0);
    assert(head_end(p) == n);
    assert(p.take(n) =~= p);
    lemma_pick_trim(p, n, eye_table());
    lemma_pick_trim(p, n, hair_table());
    lemma_pick_trim(p, n, ethnicity_table());
}

proof fn lemma_clauses_skip(w: Seq<Seq<char>>, k: int, l: int)
    requires
        0 <= k <= l,
        l + 1 < w.len(),
        forall|m: int| k <= m < l ==> w[m] != "like"@,
    ensures
        clauses_from(w, k) == clauses_from(w, l),
    decreases l - k,
{
    if k < l {
        lemma_clauses_skip(w, k + 1, l);
    }
}

proof fn lemma_no_break_to_end(w: Seq<Seq<char>>, k: int)
    requires
        0 <= k <= w.len(),
        forall|m: int| k <= m < w.len() ==> !in_words(#[trigger] w[m], break_words()),
    ensures
        break_index(w, k) == w.len(),
    decreases w.len() - k,
{
    if k < w.len() {
        lemma_no_break_to_end(w, k + 1);
    }
}

/// Every word from a `like` to the next break word (here, the end of the
/// query) belongs to the reference name, whatever the number of words: a
/// query of words `p` (no `like`), `like`, and words `n` (no break word)
/// holds exactly one reference, `n` title-cased and joined by spaces (none
/// if that comes out empty). It is a body reference when the last word of
/// `p` is a body qualifier, and a face reference when `p` is empty or ends
/// in a word that is neither a filler nor a body qualifier.
pub proof fn lemma_reference_runs_to_break(p: Seq<Seq<char>>, n: Seq<Seq<char>>)
    requires
        forall|i: int| 0 <= i < p.len() ==> p[i] != "like"@,
        n.len() > 0,
        forall|i: int| 0 <= i < n.len() ==> !in_words(#[trigger] n[i], break_words()),
    ensures
        ({
            let q = parse_words(p + seq!["like"@] + n);
            let name = titlecase_spec(join(n, seq![' ']));
            &&& q.looks_like + q.body_like == (if name.len() > 0 {
                seq![name]
            } else {
                Seq::<Seq<char>>::empty()
            })
            &&& p.len() > 0 && !in_words(p.last(), stop_words()) && in_words(p.last(), body_quals())
                ==> q.looks_like.len() == 0
            &&& (p.len() == 0 || (!in_words(p.last(), stop_words()) && !in_words(
                p.last(),
                body_quals(),
            ))) ==> q.body_like.len() == 0
        }),
{
    let w = p + seq!["like"@] + n;
    let l = p.len() as int;
    let len = w.len() as int;
    assert forall|m: int| 0 <= m < l implies w[m] != "like"@ by {
        assert(w[m] == p[m]);
    }
    lemma_clauses_skip(w, 0, l);
    assert(w[l] == "like"@);
    assert forall|m: int| l + 1 <= m < len implies !in_words(#[trigger] w[m], break_words()) by {
        assert(w[m] == n[m - l - 1]);
    }
    lemma_no_break_to_end(w, l + 1);
    assert(w.subrange(l + 1, len) =~= n);
    assert(clauses_from(w, len) == (Seq::<Seq<char>>::empty(), Seq::<Seq<char>>::empty()));
    if l > 0 {
        assert(w[l - 1] == p.last());
    } else {
        reveal_strlit("look");
        reveal_strlit("butt");
        reveal_strlit("ass");
        reveal_strlit("booty");
        reveal_strlit("rear");
        reveal_strlit("body");
        reveal_strlit("build");
        reveal_strlit("built");
        reveal_strlit("figure");
        reveal_strlit("frame");
        reveal_strlit("shape");
        assert(qualifier_before(w, 0) == "look"@);
        assert(!in_words("look"@, body_quals())) by {
            if in_words("look"@, body_quals()) {
                let k = choose|k: int| 0 <= k < body_quals().len() && (#[trigger] body_quals()[k])@
                    == "look"@;
                assert(body_quals()[k]@[0] == "look"@[0]);
                assert("look"@[0] == 'l');
            }
        }
    }
    let q = parse_words(w);
    let name = titlecase_spec(join(n, seq![' ']));
    if name.len() > 0 {
        assert(q.looks_like + q.body_like =~= seq![name]);
    } else {
        assert(q.looks_like + q.body_like =~= Seq::<Seq<char>>::empty());
    }
}

proof fn lemma_no_break_until(w: Seq<Seq<char>>, k: int, e: int)
    requires
        0 <= k <= e < w.len(),
        forall|m: int| k <= m < e ==> !in_words(#[trigger] w[m], break_words()),
        in_words(w[e], break_words()),
    ensures
        break_index(w, k) == e,
    decreases e - k,
{
    if k < e {
        lemma_no_break_until(w, k + 1, e);
    }
}

/// A reference name stops at the first break word after its `like`: in a
/// query of words `p` (no `like`), `like`, words `n` (no break word), a break
/// word `b` (with, and, that, who, but or plus) and any words `r`, the first
/// reference is `n` title-cased and joined by spaces (when that is not
/// empty): the first body reference when
/// `p` ends in a body qualifier, the first face reference when `p` is empty or
/// ends in a word that is neither a filler nor a body qualifier.
pub proof fn lemma_reference_stops_at_break(
    p: Seq<Seq<char>>,
    n: Seq<Seq<char>>,
    b: Seq<char>,
    r: Seq<Seq<char>>,
)
    requires
        forall|i: int| 0 <= i < p.len() ==> p[i] != "like"@,
        forall|i: int| 0 <= i < n.len() ==> !in_words(#[trigger] n[i], break_words()),
        b == "with"@ || b == "and"@ || b == "that"@ || b == "who"@ || b == "but"@ || b == "plus"@,
        titlecase_spec(join(n, seq![' '])).len() > 0,
    ensures
        ({
            let q = parse_words(p + seq!["like"@] + n + seq![b] + r);
            let name = titlecase_spec(join(n, seq![' ']));
            &&& p.len() > 0 && !in_words(p.last(), stop_words()) && in_words(p.last(), body_quals())
                ==> q.body_like.len() > 0 && q.body_like[0] == name
            &&& (p.len() == 0 || (!in_words(p.last(), stop_words()) && !in_words(
                p.last(),
                body_quals(),
            ))) ==> q.looks_like.len() > 0 && q.looks_like[0] == name
        }),
{
    let w = p + seq!["like"@] + n + seq![b] + r;
    let l = p.len() as int;
    let e = l + 1 + n.len();
    assert forall|m: int| 0 <= m < l implies w[m] != "like"@ by {
        assert(w[m] == p[m]);
    }
    lemma_clauses_skip(w, 0, l);
    assert(w[l] == "like"@);
    assert forall|m: int| l + 1 <= m < e implies !in_words(#[trigger] w[m], break_words()) by {
        assert(w[m] == n[m - l - 1]);
    }
    assert(w[e] == b);
    assert(in_words(b, break_words())) by {
        if b == "with"@ {
            assert(break_words()[0]@ == b);
        } else if b == "and"@ {
            assert(break_words()[1]@ == b);
        } else if b == "that"@ {
            assert(break_words()[2]@ == b);
        } else if b == "who"@ {
            assert(break_words()[3]@ == b);
        } else if b == "but"@ {
            assert(break_words()[4]@ == b);
        } else {
            assert(break_words()[5]@ == b);
        }
    }
    lemma_no_break_until(w, l + 1, e);
    assert(w.subrange(l + 1, e) =~= n);
    if l > 0 {
        assert(w[l - 1] == p.last());
    } else {
        reveal_strlit("look");
        reveal_strlit("butt");
        reveal_strlit("ass");
        reveal_strlit("booty");
        reveal_strlit("rear");
        reveal_strlit("body");
        reveal_strlit("build");
        reveal_strlit("built");
        reveal_strlit("figure");
        reveal_strlit("frame");
        reveal_strlit("shape");
        assert(qualifier_before(w, 0) == "look"@);
        assert(!in_words("look"@, body_quals())) by {
            if in_words("look"@, body_quals()) {
                let k = choose|k: int| 0 <= k < body_quals().len() && (#[trigger] body_quals()[k])@
                    == "look"@;
                assert(body_quals()[k]@[0] == "look"@[0]);
                assert("look"@[0] == 'l');
            }
        }
    }
}

} // verus!
