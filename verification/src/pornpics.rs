//! The text side of the pornpics.com image source: the pornstar page address
//! for a performer name, and the full-size image URLs read out of that page's
//! HTML. Fetching the page is the caller's part.
use vstd::prelude::*;
use crate::text::{
    chars_of, ends_with, ends_with_chars, lemma_first_unique, lemma_occurs_chars, occurs_at, find_from, first_occurrence_from,
    is_ascii_alnum, is_ascii_alphanumeric, is_first_from, is_whitespace, is_ws, lowercase,
    replace_first, replace_first_chars, str_lowercase, string_of, string_views, trim,
    trim_ws,
};

verus! {

broadcast use vstd::string::group_string_axioms;

// ---------------------------------------------------------------------------
// Slugs
// ---------------------------------------------------------------------------
/// The characters of `s` from index `k` on with every ASCII letter or digit
/// kept and every run of other characters replaced by one `-` (no `-` opens
/// the output when `prev_dash` holds).
pub open spec fn collapse_from(s: Seq<char>, k: int, prev_dash: bool) -> Seq<char>
    decreases s.len() - k,
{
    if k < 0 || k >= s.len() {
        seq![]
    } else if is_ascii_alnum(s[k]) {
        seq![s[k]] + collapse_from(s, k + 1, false)
    } else if !prev_dash {
        seq!['-'] + collapse_from(s, k + 1, true)
    } else {
        collapse_from(s, k + 1, true)
    }
}

/// Index of the first character at or after `k` that is not `-`.
pub open spec fn skip_dashes_from(s: Seq<char>, k: int) -> int
    decreases s.len() - k,
{
    if 0 <= k < s.len() && s[k] == '-' {
        skip_dashes_from(s, k + 1)
    } else {
        k
    }
}

/// End (exclusive) of `s[..e]` once trailing `-` are dropped.
pub open spec fn trim_dash_end(s: Seq<char>, e: int) -> int
    decreases e,
{
    if 0 < e <= s.len() && s[e - 1] == '-' {
        trim_dash_end(s, e - 1)
    } else {
        e
    }
}

/// `str::trim_matches('-')`.
pub open spec fn trim_dashes(s: Seq<char>) -> Seq<char> {
    let a = skip_dashes_from(s, 0);
    let b = trim_dash_end(s, s.len() as int);
    if a < b {
        s.subrange(a, b)
    } else {
        seq![]
    }
}

/// The slug of an already lower-cased name: runs of characters other than
/// ASCII letters and digits collapsed to a single `-`, and `-` trimmed from
/// both ends.
pub open spec fn slug_of(lower: Seq<char>) -> Seq<char> {
    trim_dashes(collapse_from(lower, 0, false))
}

/// A well-formed slug: only ASCII letters, digits and `-`, no `-` at either
/// end and never two in a row.
pub open spec fn is_slug(s: Seq<char>) -> bool {
    &&& forall|i: int| 0 <= i < s.len() ==> is_ascii_alnum(#[trigger] s[i]) || s[i] == '-'
    &&& s.len() > 0 ==> s[0] != '-' && s[s.len() - 1] != '-'
    &&& forall|i: int| 0 <= i < s.len() - 1 ==> !(#[trigger] s[i] == '-' && s[i + 1] == '-')
}

proof fn lemma_collapse_shape(s: Seq<char>, k: int, prev_dash: bool)
    requires
        0 <= k <= s.len(),
    ensures
        ({
            let c = collapse_from(s, k, prev_dash);
            &&& forall|i: int| 0 <= i < c.len() ==> is_ascii_alnum(#[trigger] c[i]) || c[i] == '-'
            &&& forall|i: int| 0 <= i < c.len() - 1 ==> !(#[trigger] c[i] == '-' && c[i + 1] == '-')
            &&& prev_dash && c.len() > 0 ==> c[0] != '-'
        }),
    decreases s.len() - k,
{
    if k < s.len() {
        let c = collapse_from(s, k, prev_dash);
        if is_ascii_alnum(s[k]) {
            lemma_collapse_shape(s, k + 1, false);
            let r = collapse_from(s, k + 1, false);
            assert forall|i: int| 0 <= i < c.len() - 1 implies !(#[trigger] c[i] == '-' && c[i + 1]
                == '-') by {
                if i > 0 {
                    assert(c[i] == r[i - 1] && c[i + 1] == r[i]);
                }
            }
            assert forall|i: int| 0 <= i < c.len() implies is_ascii_alnum(#[trigger] c[i]) || c[i]
                == '-' by {
                if i > 0 {
                    assert(c[i] == r[i - 1]);
                }
            }
        } else if !prev_dash {
            lemma_collapse_shape(s, k + 1, true);
            let r = collapse_from(s, k + 1, true);
            assert forall|i: int| 0 <= i < c.len() - 1 implies !(#[trigger] c[i] == '-' && c[i + 1]
                == '-') by {
                if i > 0 {
                    assert(c[i] == r[i - 1] && c[i + 1] == r[i]);
                }
            }
            assert forall|i: int| 0 <= i < c.len() implies is_ascii_alnum(#[trigger] c[i]) || c[i]
                == '-' by {
                if i > 0 {
                    assert(c[i] == r[i - 1]);
                }
            }
        } else {
            lemma_collapse_shape(s, k + 1, true);
        }
    }
}

proof fn lemma_skip_dashes(s: Seq<char>, k: int)
    requires
        0 <= k <= s.len(),
    ensures
        k <= skip_dashes_from(s, k) <= s.len(),
        skip_dashes_from(s, k) < s.len() ==> s[skip_dashes_from(s, k)] != '-',
    decreases s.len() - k,
{
    if k < s.len() && s[k] == '-' {
        lemma_skip_dashes(s, k + 1);
    }
}

proof fn lemma_trim_dash_end(s: Seq<char>, e: int)
    requires
        0 <= e <= s.len(),
    ensures
        0 <= trim_dash_end(s, e) <= e,
        trim_dash_end(s, e) > 0 ==> s[trim_dash_end(s, e) - 1] != '-',
    decreases e,
{
    if 0 < e && s[e - 1] == '-' {
        lemma_trim_dash_end(s, e - 1);
    }
}

/// Every slug is well formed.
pub proof fn lemma_slug_is_slug(lower: Seq<char>)
    ensures
        is_slug(slug_of(lower)),
{
    let c = collapse_from(lower, 0, false);
    lemma_collapse_shape(lower, 0, false);
    lemma_skip_dashes(c, 0);
    lemma_trim_dash_end(c, c.len() as int);
    let a = skip_dashes_from(c, 0);
    let b = trim_dash_end(c, c.len() as int);
    let t = slug_of(lower);
    if a < b {
        assert forall|i: int| 0 <= i < t.len() implies is_ascii_alnum(#[trigger] t[i]) || t[i]
            == '-' by {
            assert(t[i] == c[a + i]);
        }
        assert forall|i: int| 0 <= i < t.len() - 1 implies !(#[trigger] t[i] == '-' && t[i + 1]
            == '-') by {
            assert(t[i] == c[a + i] && t[i + 1] == c[a + i + 1]);
        }
    }
}

proof fn lemma_collapse_of_slug(s: Seq<char>, k: int)
    requires
        is_slug(s),
        0 <= k <= s.len(),
    ensures
        collapse_from(s, k, k > 0 && s[k - 1] == '-') == s.subrange(k, s.len() as int),
    decreases s.len() - k,
{
    if k < s.len() {
        lemma_collapse_of_slug(s, k + 1);
        if k > 0 && s[k - 1] == '-' {
            assert(!(s[k - 1] == '-' && s[k] == '-'));
        }
        assert(s.subrange(k, s.len() as int) =~= seq![s[k]] + s.subrange(k + 1, s.len() as int));
    } else {
        assert(s.subrange(k, s.len() as int) =~= Seq::<char>::empty());
    }
}

/// Slugging a slug gives it back unchanged, so a slug is a fixed point and
/// slugging twice is slugging once.
pub proof fn lemma_slug_idempotent(lower: Seq<char>)
    ensures
        is_slug(lower) ==> slug_of(lower) == lower,
        slug_of(slug_of(lower)) == slug_of(lower),
{
    lemma_slug_is_slug(lower);
    assert forall|s: Seq<char>| is_slug(s) implies slug_of(s) == s by {
        lemma_collapse_of_slug(s, 0);
        assert(s.subrange(0, s.len() as int) =~= s);
        if s.len() > 0 {
            assert(skip_dashes_from(s, 0) == 0);
            assert(trim_dash_end(s, s.len() as int) == s.len());
        } else {
            assert(trim_dashes(s) =~= s);
        }
    }
}

proof fn lemma_collapse_alnum_run(s: Seq<char>, k: int, e: int, prev_dash: bool)
    requires
        0 <= k < e <= s.len(),
        forall|m: int| k <= m < e ==> is_ascii_alnum(#[trigger] s[m]),
    ensures
        collapse_from(s, k, prev_dash) == s.subrange(k, e) + collapse_from(s, e, false),
    decreases e - k,
{
    if k + 1 < e {
        lemma_collapse_alnum_run(s, k + 1, e, false);
    }
    assert(s.subrange(k, e) =~= seq![s[k]] + s.subrange(k + 1, e));
}

/// Every character other than an ASCII letter or digit separates: two runs
/// of letters and digits with any such character between them slug to the
/// runs joined by one hyphen.
pub proof fn lemma_slug_separator(a: Seq<char>, c: char, b: Seq<char>)
    requires
        a.len() > 0,
        b.len() > 0,
        forall|i: int| 0 <= i < a.len() ==> is_ascii_alnum(#[trigger] a[i]),
        forall|i: int| 0 <= i < b.len() ==> is_ascii_alnum(#[trigger] b[i]),
        !is_ascii_alnum(c),
    ensures
        slug_of(a + seq![c] + b) == a + seq!['-'] + b,
{
    let s = a + seq![c] + b;
    let n = a.len() as int;
    let len = s.len() as int;
    assert forall|m: int| 0 <= m < n implies is_ascii_alnum(#[trigger] s[m]) by {
        assert(s[m] == a[m]);
    }
    assert forall|m: int| n + 1 <= m < len implies is_ascii_alnum(#[trigger] s[m]) by {
        assert(s[m] == b[m - n - 1]);
    }
    lemma_collapse_alnum_run(s, 0, n, false);
    assert(s[n] == c);
    lemma_collapse_alnum_run(s, n + 1, len, true);
    assert(collapse_from(s, len, false) == Seq::<char>::empty());
    let col = collapse_from(s, 0, false);
    assert(s.subrange(0, n) =~= a);
    assert(s.subrange(n + 1, len) =~= b);
    assert(col =~= a + seq!['-'] + b);
    assert(col[0] == a[0]);
    assert(skip_dashes_from(col, 0) == 0);
    assert(col[col.len() - 1] == b[b.len() - 1]);
    assert(trim_dash_end(col, col.len() as int) == col.len());
    assert(trim_dashes(col) =~= col);
}

proof fn lemma_collapse_sep_run(s: Seq<char>, k: int, e: int, prev_dash: bool)
    requires
        0 <= k <= e <= s.len(),
        forall|m: int| k <= m < e ==> !is_ascii_alnum(#[trigger] s[m]),
    ensures
        collapse_from(s, k, prev_dash) == (if prev_dash || k == e {
            Seq::<char>::empty()
        } else {
            seq!['-']
        }) + collapse_from(s, e, prev_dash || k < e),
    decreases e - k,
{
    if k < e {
        lemma_collapse_sep_run(s, k + 1, e, true);
        if k + 1 == e {
            assert(collapse_from(s, k + 1, true) == collapse_from(s, e, true));
        }
    } else {
        assert(Seq::<char>::empty() + collapse_from(s, e, prev_dash) =~= collapse_from(s, e, prev_dash));
    }
}

/// Runs of characters other than ASCII letters and digits slug to a single
/// hyphen between words and to nothing at either end: with `c`, `d`, `x`
/// made of such characters (`x` not empty) and `a`, `b` of letters and
/// digits, `c + a + x + b + d` slugs to `a + "-" + b`, and `c + a + d` to `a`.
pub proof fn lemma_slug_runs(c: Seq<char>, a: Seq<char>, x: Seq<char>, b: Seq<char>, d: Seq<char>)
    requires
        a.len() > 0,
        b.len() > 0,
        x.len() > 0,
        forall|i: int| 0 <= i < a.len() ==> is_ascii_alnum(#[trigger] a[i]),
        forall|i: int| 0 <= i < b.len() ==> is_ascii_alnum(#[trigger] b[i]),
        forall|i: int| 0 <= i < c.len() ==> !is_ascii_alnum(#[trigger] c[i]),
        forall|i: int| 0 <= i < x.len() ==> !is_ascii_alnum(#[trigger] x[i]),
        forall|i: int| 0 <= i < d.len() ==> !is_ascii_alnum(#[trigger] d[i]),
    ensures
        slug_of(c + a + x + b + d) == a + seq!['-'] + b,
        slug_of(c + a + d) == a,
{
    // c + a + x + b + d
    let s = c + a + x + b + d;
    let p0 = c.len() as int;
    let p1 = p0 + a.len();
    let p2 = p1 + x.len();
    let p3 = p2 + b.len();
    let len = s.len() as int;
    assert forall|m: int| 0 <= m < p0 implies !is_ascii_alnum(#[trigger] s[m]) by {
        assert(s[m] == c[m]);
    }
    assert forall|m: int| p0 <= m < p1 implies is_ascii_alnum(#[trigger] s[m]) by {
        assert(s[m] == a[m - p0]);
    }
    assert forall|m: int| p1 <= m < p2 implies !is_ascii_alnum(#[trigger] s[m]) by {
        assert(s[m] == x[m - p1]);
    }
    assert forall|m: int| p2 <= m < p3 implies is_ascii_alnum(#[trigger] s[m]) by {
        assert(s[m] == b[m - p2]);
    }
    assert forall|m: int| p3 <= m < len implies !is_ascii_alnum(#[trigger] s[m]) by {
        assert(s[m] == d[m - p3]);
    }
    lemma_collapse_sep_run(s, 0, p0, false);
    lemma_collapse_alnum_run(s, p0, p1, p0 > 0);
    lemma_collapse_sep_run(s, p1, p2, false);
    lemma_collapse_alnum_run(s, p2, p3, true);
    lemma_collapse_sep_run(s, p3, len, false);
    assert(collapse_from(s, len, p3 < len) == Seq::<char>::empty());
    let col = collapse_from(s, 0, false);
    assert(s.subrange(p0, p1) =~= a);
    assert(s.subrange(p2, p3) =~= b);
    let lead: Seq<char> = if p0 > 0 {
        seq!['-']
    } else {
        Seq::<char>::empty()
    };
    let trail: Seq<char> = if p3 < len {
        seq!['-']
    } else {
        Seq::<char>::empty()
    };
    assert(col =~= lead + a + seq!['-'] + b + trail);
    let core = a + seq!['-'] + b;
    assert(col =~= lead + core + trail);
    lemma_trim_dashes_around(lead, core, trail);

    // c + a + d
    let t = c + a + d;
    let q1 = p0 + a.len();
    let tlen = t.len() as int;
    assert forall|m: int| 0 <= m < p0 implies !is_ascii_alnum(#[trigger] t[m]) by {
        assert(t[m] == c[m]);
    }
    assert forall|m: int| p0 <= m < q1 implies is_ascii_alnum(#[trigger] t[m]) by {
        assert(t[m] == a[m - p0]);
    }
    assert forall|m: int| q1 <= m < tlen implies !is_ascii_alnum(#[trigger] t[m]) by {
        assert(t[m] == d[m - q1]);
    }
    lemma_collapse_sep_run(t, 0, p0, false);
    lemma_collapse_alnum_run(t, p0, q1, p0 > 0);
    lemma_collapse_sep_run(t, q1, tlen, false);
    assert(collapse_from(t, tlen, q1 < tlen) == Seq::<char>::empty());
    assert(t.subrange(p0, q1) =~= a);
    let trail2: Seq<char> = if q1 < tlen {
        seq!['-']
    } else {
        Seq::<char>::empty()
    };
    assert(collapse_from(t, 0, false) =~= lead + a + trail2);
    lemma_trim_dashes_around(lead, a, trail2);
}

/// Trimming hyphens from a text that does not start or end with one, with at
/// most one hyphen added on either side, gives the text back.
proof fn lemma_trim_dashes_around(lead: Seq<char>, core: Seq<char>, trail: Seq<char>)
    requires
        lead == Seq::<char>::empty() || lead == seq!['-'],
        trail == Seq::<char>::empty() || trail == seq!['-'],
        core.len() > 0,
        core[0] != '-',
        core[core.len() - 1] != '-',
    ensures
        trim_dashes(lead + core + trail) == core,
{
    let s = lead + core + trail;
    let a = lead.len() as int;
    let b = a + core.len();
    if a == 1 {
        assert(s[0] == '-');
        assert(s[1] == core[0]);
        assert(skip_dashes_from(s, 1) == 1);
    } else {
        assert(s[0] == core[0]);
    }
    assert(skip_dashes_from(s, 0) == a);
    assert(s[b - 1] == core[core.len() - 1]);
    if trail.len() == 1 {
        assert(s[b] == '-');
        assert(trim_dash_end(s, b) == b);
    }
    assert(trim_dash_end(s, s.len() as int) == b);
    assert(s.subrange(a, b) =~= core);
}

fn collapse(c: &Vec<char>) -> (r: Vec<char>)
    ensures
        r@ == collapse_from(c@, 0, false),
{
    let mut out: Vec<char> = Vec::new();
    let mut prev_dash = false;
    let mut k: usize = 0;
    while k < c.len()
        invariant
            k <= c.len(),
            out@ + collapse_from(c@, k as int, prev_dash) == collapse_from(c@, 0, false),
        decreases c.len() - k,
    {
        let ghost before = out@;
        let ghost was_dash = prev_dash;
        let ch = c[k];
        if is_ascii_alphanumeric(ch) {
            out.push(ch);
            prev_dash = false;
            assert(out@ + collapse_from(c@, k + 1, prev_dash) =~= before + collapse_from(
                c@,
                k as int,
                was_dash,
            ));
        } else if !prev_dash {
            out.push('-');
            prev_dash = true;
            assert(out@ + collapse_from(c@, k + 1, prev_dash) =~= before + collapse_from(
                c@,
                k as int,
                was_dash,
            ));
        }
        k += 1;
    }
    assert(out@ + collapse_from(c@, k as int, prev_dash) =~= out@);
    out
}

fn trim_dash_chars(c: &Vec<char>) -> (r: Vec<char>)
    ensures
        r@ == trim_dashes(c@),
{
    let mut a: usize = 0;
    while a < c.len() && c[a] == '-'
        invariant
            a <= c.len(),
            skip_dashes_from(c@, 0) == skip_dashes_from(c@, a as int),
        decreases c.len() - a,
    {
        a += 1;
    }
    let mut b: usize = c.len();
    while b > 0 && c[b - 1] == '-'
        invariant
            b <= c.len(),
            trim_dash_end(c@, c.len() as int) == trim_dash_end(c@, b as int),
        decreases b,
    {
        b -= 1;
    }
    let mut out: Vec<char> = Vec::new();
    if a < b {
        let mut m: usize = a;
        while m < b
            invariant
                a <= m <= b <= c.len(),
                out@ == c@.subrange(a as int, m as int),
            decreases b - m,
        {
            out.push(c[m]);
            m += 1;
            assert(out@ =~= c@.subrange(a as int, m as int));
        }
    }
    out
}

/// The slug of an already lower-cased name.
pub fn slugify_lowercase(lower: &str) -> (r: String)
    ensures
        r@ == slug_of(lower@),
        is_slug(r@),
{
    let c = chars_of(lower);
    let col = collapse(&c);
    let t = trim_dash_chars(&col);
    proof {
        lemma_slug_is_slug(lower@);
    }
    string_of(&t)
}

/// "Christina Sapphire" -> "christina-sapphire": the name trimmed of
/// whitespace and lower-cased, then runs of characters other than ASCII
/// letters and digits collapsed to a single hyphen, and hyphens trimmed.
pub fn slugify(name: &str) -> (r: String)
    ensures
        r@ == slug_of(str_lowercase(trim_ws(name@))),
        is_slug(r@),
{
    let c = chars_of(name);
    let t = trim(&c);
    let ts = string_of(&t);
    let lower = lowercase(ts.as_str());
    slugify_lowercase(lower.as_str())
}

/// The pornstar gallery-index page of a performer.
pub open spec fn page_url(name: Seq<char>) -> Seq<char> {
    "https://www.pornpics.com"@ + "/pornstars/"@ + slug_of(str_lowercase(trim_ws(name))) + "/"@
}

/// Address of the pornstar gallery-index page for `name`.
pub fn pornstar_page_url(name: &str) -> (r: String)
    ensures
        r@ == page_url(name@),
{
    let slug = slugify(name);
    let mut url = String::new();
    url.append("https://www.pornpics.com");
    url.append("/pornstars/");
    url.append(slug.as_str());
    url.append("/");
    url
}

// ---------------------------------------------------------------------------
// Image URLs in a gallery-index page
// ---------------------------------------------------------------------------
/// Where gallery thumbnails start: the CDN host and the thumbnail width.
pub open spec fn thumb_marker() -> Seq<char> {
    "https://cdni.pornpics.com/460/"@
}

/// The thumbnail size segment, and the larger one it is swapped for.
pub open spec fn thumb_seg() -> Seq<char> {
    "/460/"@
}

pub open spec fn full_seg() -> Seq<char> {
    "/1280/"@
}

/// Characters that end a URL in the page: quotes, backslash, `)` and
/// whitespace.
pub open spec fn is_delim(c: char) -> bool {
    c == '"' || c == '\'' || c == '\\' || c == ')' || is_ws(c)
}

/// Index of the first URL delimiter at or after `k` (or the length).
pub open spec fn url_end_from(s: Seq<char>, k: int) -> int
    decreases s.len() - k,
{
    if 0 <= k < s.len() && !is_delim(s[k]) {
        url_end_from(s, k + 1)
    } else {
        k
    }
}

pub proof fn lemma_url_end(s: Seq<char>, k: int)
    requires
        0 <= k <= s.len(),
    ensures
        k <= url_end_from(s, k) <= s.len(),
        k < s.len() && !is_delim(s[k]) ==> k < url_end_from(s, k),
    decreases s.len() - k,
{
    if k < s.len() && !is_delim(s[k]) {
        lemma_url_end(s, k + 1);
    }
}

pub proof fn lemma_first_is_first(s: Seq<char>, p: Seq<char>, k: int)
    ensures
        first_occurrence_from(s, p, k) matches Some(i) ==> is_first_from(s, p, k, i),
{
}

/// The thumbnail URLs of the page from index `k` on, in page order: each runs
/// from an occurrence of the thumbnail marker to the next delimiter, and the
/// search goes on after it.
pub open spec fn raw_urls_from(s: Seq<char>, k: int) -> Seq<Seq<char>>
    decreases s.len() - k,
{
    if k < 0 || k > s.len() {
        seq![]
    } else {
        match first_occurrence_from(s, thumb_marker(), k) {
            None => seq![],
            Some(p) => {
                let e = url_end_from(s, p);
                proof {
                    lemma_first_is_first(s, thumb_marker(), k);
                    reveal_strlit("https://cdni.pornpics.com/460/");
                    assert(s.subrange(p, p + thumb_marker().len())[0] == s[p]);
                    lemma_url_end(s, p);
                }
                seq![s.subrange(p, e)] + raw_urls_from(s, e)
            },
        }
    }
}

/// A URL that names a JPEG or WebP image.
pub open spec fn is_image(u: Seq<char>) -> bool {
    ends_with(u, ".jpg"@) || ends_with(u, ".jpeg"@) || ends_with(u, ".webp"@)
}

/// The image URL with its thumbnail size segment swapped for the larger one.
pub open spec fn upscale(u: Seq<char>) -> Seq<char> {
    replace_first(u, thumb_seg(), full_seg())
}

/// The upscaled image URLs among `raws`, in order.
pub open spec fn candidates(raws: Seq<Seq<char>>) -> Seq<Seq<char>>
    decreases raws.len(),
{
    if raws.len() == 0 {
        seq![]
    } else if is_image(raws.last()) {
        candidates(raws.drop_last()).push(upscale(raws.last()))
    } else {
        candidates(raws.drop_last())
    }
}

/// `xs` with every repeat of an earlier element dropped.
pub open spec fn dedup(xs: Seq<Seq<char>>) -> Seq<Seq<char>>
    decreases xs.len(),
{
    if xs.len() == 0 {
        seq![]
    } else if dedup(xs.drop_last()).contains(xs.last()) {
        dedup(xs.drop_last())
    } else {
        dedup(xs.drop_last()).push(xs.last())
    }
}

/// The first `max` elements of `xs` (all of them if there are fewer).
pub open spec fn cap(xs: Seq<Seq<char>>, max: int) -> Seq<Seq<char>> {
    if xs.len() <= max {
        xs
    } else {
        xs.take(max)
    }
}

/// The full-size image URLs of a gallery-index page: the thumbnail URLs that
/// name images, upscaled, without repeats, in page order.
pub open spec fn page_images(html: Seq<char>) -> Seq<Seq<char>> {
    dedup(candidates(raw_urls_from(html, 0)))
}

proof fn lemma_candidates_push(raws: Seq<Seq<char>>, r: Seq<char>)
    ensures
        candidates(raws.push(r)) == candidates(raws) + (if is_image(r) {
            seq![upscale(r)]
        } else {
            seq![]
        }),
{
    assert(raws.push(r).drop_last() =~= raws);
    if is_image(r) {
        assert(candidates(raws).push(upscale(r)) =~= candidates(raws) + seq![upscale(r)]);
    } else {
        assert(candidates(raws) =~= candidates(raws) + seq![]);
    }
}

proof fn lemma_candidates_add(a: Seq<Seq<char>>, b: Seq<Seq<char>>)
    ensures
        candidates(a + b) == candidates(a) + candidates(b),
    decreases b.len(),
{
    if b.len() == 0 {
        assert(a + b =~= a);
        assert(candidates(a) + candidates(b) =~= candidates(a));
    } else {
        lemma_candidates_add(a, b.drop_last());
        assert((a + b).drop_last() =~= a + b.drop_last());
        assert((a + b).last() == b.last());
        if is_image(b.last()) {
            assert(candidates(a + b) =~= candidates(a) + candidates(b));
        } else {
            assert(candidates(a + b) =~= candidates(a) + candidates(b));
        }
    }
}

proof fn lemma_dedup_prefix(x: Seq<Seq<char>>, y: Seq<Seq<char>>)
    ensures
        dedup(x).len() <= dedup(x + y).len(),
        dedup(x + y).subrange(0, dedup(x).len() as int) == dedup(x),
    decreases y.len(),
{
    if y.len() == 0 {
        assert(x + y =~= x);
        assert(dedup(x).subrange(0, dedup(x).len() as int) =~= dedup(x));
    } else {
        let y2 = y.drop_last();
        lemma_dedup_prefix(x, y2);
        assert((x + y).drop_last() =~= x + y2);
        let d2 = dedup(x + y2);
        let n = dedup(x).len() as int;
        if !d2.contains((x + y).last()) {
            assert(dedup(x + y).subrange(0, n) =~= d2.subrange(0, n));
        }
    }
}

proof fn lemma_dedup_distinct(xs: Seq<Seq<char>>)
    ensures
        forall|i: int, j: int|
            0 <= i < j < dedup(xs).len() ==> #[trigger] dedup(xs)[i] != #[trigger] dedup(xs)[j],
        forall|i: int| 0 <= i < dedup(xs).len() ==> xs.contains(#[trigger] dedup(xs)[i]),
    decreases xs.len(),
{
    if xs.len() > 0 {
        let d = dedup(xs.drop_last());
        lemma_dedup_distinct(xs.drop_last());
        assert forall|i: int| 0 <= i < dedup(xs).len() implies xs.contains(#[trigger] dedup(xs)[i]) by {
            if i < d.len() {
                let w = choose|w: int| 0 <= w < xs.drop_last().len() && xs.drop_last()[w] == d[i];
                assert(xs[w] == d[i]);
            } else {
                assert(xs[xs.len() - 1] == dedup(xs)[i]);
            }
        }
    }
}

/// The URLs read from a page are never more than `max`, never repeat, and
/// each is the upscaled form of an image thumbnail on the page.
pub proof fn lemma_page_images_shape(html: Seq<char>, max: int)
    requires
        0 <= max,
    ensures
        cap(page_images(html), max).len() <= max,
        forall|i: int, j: int|
            0 <= i < j < cap(page_images(html), max).len() ==> #[trigger] cap(page_images(html), max)[i]
                != #[trigger] cap(page_images(html), max)[j],
        forall|i: int|
            0 <= i < cap(page_images(html), max).len() ==> candidates(raw_urls_from(html, 0)).contains(
                #[trigger] cap(page_images(html), max)[i],
            ),
{
    let d = page_images(html);
    lemma_dedup_distinct(candidates(raw_urls_from(html, 0)));
    let c = cap(d, max);
    assert forall|i: int| 0 <= i < c.len() implies #[trigger] c[i] == d[i] by {}
}

proof fn lemma_url_end_at(s: Seq<char>, k: int, e: int)
    requires
        0 <= k <= e < s.len(),
        forall|m: int| k <= m < e ==> !is_delim(#[trigger] s[m]),
        is_delim(s[e]),
    ensures
        url_end_from(s, k) == e,
    decreases e - k,
{
    if k < e {
        lemma_url_end_at(s, k + 1, e);
    }
}

/// A thumbnail URL ends at the first quote, apostrophe, backslash, `)` or
/// whitespace: when a page opens with a thumbnail URL `u` that names an image
/// and holds none of those characters, and one of them follows it, the first
/// URL read from the page is `u` upscaled: the CDN host, `/1280/`, and what
/// followed the thumbnail width in `u`.
pub proof fn lemma_url_ends_at_delimiter(u: Seq<char>, d: char, rest: Seq<char>)
    requires
        occurs_at(u, thumb_marker(), 0),
        ends_with(u, ".jpg"@) || ends_with(u, ".jpeg"@) || ends_with(u, ".webp"@),
        forall|i: int|
            0 <= i < u.len() ==> #[trigger] u[i] != '"' && u[i] != '\'' && u[i] != '\\' && u[i]
                != ')' && !is_ws(u[i]),
        d == '"' || d == '\'' || d == '\\' || d == ')' || is_ws(d),
    ensures
        page_images(u + seq![d] + rest).len() > 0,
        page_images(u + seq![d] + rest)[0] == upscale(u),
        page_images(u + seq![d] + rest)[0] == "https://cdni.pornpics.com"@ + "/1280/"@ + u.subrange(
            30,
            u.len() as int,
        ),
{
    lemma_upscale_swaps_width(u);
    let html = u + seq![d] + rest;
    let n = u.len() as int;
    assert(html.subrange(0, thumb_marker().len() as int) =~= u.subrange(
        0,
        thumb_marker().len() as int,
    ));
    assert(occurs_at(html, thumb_marker(), 0));
    lemma_first_unique(html, thumb_marker(), 0, 0);
    assert forall|m: int| 0 <= m < n implies !is_delim(#[trigger] html[m]) by {
        assert(html[m] == u[m]);
    }
    assert(html[n] == d);
    lemma_url_end_at(html, 0, n);
    assert(html.subrange(0, n) =~= u);
    let tail = raw_urls_from(html, n);
    assert(raw_urls_from(html, 0) == seq![u] + tail);
    lemma_candidates_add(seq![u], tail);
    let one = seq![u];
    assert(one.drop_last().len() == 0);
    assert(candidates(one.drop_last()) == Seq::<Seq<char>>::empty());
    assert(one.last() == u);
    assert(candidates(one) =~= seq![upscale(u)]);
    lemma_dedup_prefix(seq![upscale(u)], candidates(tail));
    let up = seq![upscale(u)];
    assert(up.drop_last().len() == 0);
    assert(dedup(up.drop_last()) == Seq::<Seq<char>>::empty());
    assert(!dedup(up.drop_last()).contains(up.last()));
    assert(dedup(up) =~= seq![upscale(u)]);
    let d2 = page_images(html);
    assert(d2.subrange(0, 1) =~= seq![upscale(u)]);
    assert(d2[0] == d2.subrange(0, 1)[0]);
}

/// Upscaling a thumbnail URL keeps the CDN host and everything after the
/// thumbnail width, and swaps the `/460/` width segment for `/1280/`.
pub proof fn lemma_upscale_swaps_width(u: Seq<char>)
    requires
        occurs_at(u, thumb_marker(), 0),
    ensures
        upscale(u) == "https://cdni.pornpics.com"@ + "/1280/"@ + u.subrange(30, u.len() as int),
{
    reveal_strlit("https://cdni.pornpics.com/460/");
    reveal_strlit("https://cdni.pornpics.com");
    reveal_strlit("/460/");
    reveal_strlit("/1280/");
    let mk = thumb_marker();
    let seg = thumb_seg();
    lemma_occurs_chars(u, mk, 0);
    assert forall|m: int| 0 <= m < 30 implies u[m] == #[trigger] mk[m] by {
        assert(u[0 + m] == mk[m]);
    }
    assert(u.subrange(25, 30) =~= seg) by {
        assert forall|m: int| 0 <= m < 5 implies u.subrange(25, 30)[m] == seg[m] by {
            assert(u[25 + m] == mk[25 + m]);
        }
    }
    assert(occurs_at(u, seg, 25));
    assert forall|j: int| 0 <= j < 25 implies !occurs_at(u, seg, j) by {
        if occurs_at(u, seg, j) {
            lemma_occurs_chars(u, seg, j);
            assert(u[j + 0] == seg[0] && u[j + 1] == seg[1]);
            assert(u[j] == mk[j] && u[j + 1] == mk[j + 1]);
        }
    }
    lemma_first_unique(u, seg, 0, 25);
    assert(u.subrange(0, 25) =~= "https://cdni.pornpics.com"@) by {
        assert forall|m: int| 0 <= m < 25 implies u.subrange(0, 25)[m] == "https://cdni.pornpics.com"@[m] by {
            assert(u[m] == mk[m]);
        }
    }
}

fn is_delimiter(c: char) -> (r: bool)
    ensures
        r == is_delim(c),
{
    c == '"' || c == '\'' || c == '\\' || c == ')' || is_whitespace(c)
}

fn url_end(c: &Vec<char>, k: usize) -> (r: usize)
    requires
        k <= c.len(),
    ensures
        r == url_end_from(c@, k as int),
        k <= r <= c.len(),
{
    let mut j: usize = k;
    while j < c.len() && !is_delimiter(c[j])
        invariant
            k <= j <= c.len(),
            url_end_from(c@, k as int) == url_end_from(c@, j as int),
        decreases c.len() - j,
    {
        j += 1;
    }
    j
}

fn contains_string(v: &Vec<String>, x: &String) -> (r: bool)
    ensures
        r == string_views(v@).contains(x@),
{
    let mut m: usize = 0;
    while m < v.len()
        invariant
            m <= v.len(),
            forall|t: int| 0 <= t < m ==> (#[trigger] v@[t])@ != x@,
        decreases v.len() - m,
    {
        if v[m] == *x {
            assert(string_views(v@)[m as int] == x@);
            return true;
        }
        m += 1;
    }
    proof {
        if string_views(v@).contains(x@) {
            let t = choose|t: int| 0 <= t < v@.len() && string_views(v@)[t] == x@;
            assert(v@[t]@ == x@);
        }
    }
    false
}

fn copy_range(c: &Vec<char>, a: usize, b: usize) -> (r: Vec<char>)
    requires
        a <= b <= c.len(),
    ensures
        r@ == c@.subrange(a as int, b as int),
{
    let mut out: Vec<char> = Vec::new();
    let mut m: usize = a;
    while m < b
        invariant
            a <= m <= b <= c.len(),
            out@ == c@.subrange(a as int, m as int),
        decreases b - m,
    {
        out.push(c[m]);
        m += 1;
        assert(out@ =~= c@.subrange(a as int, m as int));
    }
    out
}

/// Scans raw HTML for `cdni.pornpics.com/460/...` gallery thumbnails and
/// upscales each to a pose-usable width by swapping the size segment.
/// Deduplicated, preserving page order, capped at `max`.
pub fn extract_image_urls(html: &str, max: usize) -> (r: Vec<String>)
    ensures
        string_views(r@) == cap(page_images(html@), max as int),
        r@.len() <= max,
        forall|i: int, j: int| 0 <= i < j < r@.len() ==> r@[i]@ != r@[j]@,
{
    let c = chars_of(html);
    let marker = chars_of("https://cdni.pornpics.com/460/");
    let thumb = chars_of("/460/");
    let full = chars_of("/1280/");
    let ghost all = raw_urls_from(c@, 0);
    let ghost mut processed: Seq<Seq<char>> = seq![];
    let mut urls: Vec<String> = Vec::new();
    let mut rest: usize = 0;
    let mut done = false;
    while !done && urls.len() < max
        invariant
            rest <= c.len(),
            c@ == html@,
            marker@ == thumb_marker(),
            thumb@ == thumb_seg(),
            full@ == full_seg(),
            all == raw_urls_from(c@, 0),
            processed + raw_urls_from(c@, rest as int) == all,
            string_views(urls@) == dedup(candidates(processed)),
            urls.len() <= max,
            done ==> raw_urls_from(c@, rest as int) == Seq::<Seq<char>>::empty(),
        decreases c.len() - rest + (if done {
            0int
        } else {
            1int
        }),
    {
        match find_from(&c, &marker, rest) {
            None => {
                done = true;
            },
            Some(pos) => {
                proof {
                    reveal_strlit("https://cdni.pornpics.com/460/");
                    assert(c@.subrange(pos as int, pos + thumb_marker().len())[0] == c@[pos as int]);
                }
                let end = url_end(&c, pos);
                let raw = copy_range(&c, pos, end);
                let ghost old_urls = string_views(urls@);
                let ghost prev = processed;
                proof {
                    lemma_candidates_push(processed, raw@);
                    assert(processed.push(raw@) + raw_urls_from(c@, end as int) =~= processed
                        + raw_urls_from(c@, rest as int));
                    processed = processed.push(raw@);
                }
                if ends_with_chars(&raw, &chars_of(".jpg")) || ends_with_chars(
                    &raw,
                    &chars_of(".jpeg"),
                ) || ends_with_chars(&raw, &chars_of(".webp")) {
                    let big = replace_first_chars(&raw, &thumb, &full);
                    let big_s = string_of(&big);
                    let ghost cand = candidates(processed);
                    assert(cand =~= candidates(prev).push(upscale(raw@)));
                    assert(cand.drop_last() =~= candidates(prev));
                    assert(cand.last() == big@);
                    if !contains_string(&urls, &big_s) {
                        urls.push(big_s);
                        assert(string_views(urls@) =~= old_urls.push(big@));
                    }
                } else {
                    assert(candidates(processed) =~= candidates(prev));
                }
                rest = end;
            },
        }
    }
    proof {
        let d = dedup(candidates(processed));
        if done {
            assert(processed + seq![] =~= processed);
        } else {
            let tail = raw_urls_from(c@, rest as int);
            lemma_candidates_add(processed, tail);
            lemma_dedup_prefix(candidates(processed), candidates(tail));
            let full_d = dedup(candidates(all));
            assert(full_d.take(max as int) =~= full_d.subrange(0, d.len() as int));
        }
        lemma_page_images_shape(html@, max as int);
        assert forall|i: int, j: int| 0 <= i < j < urls@.len() implies urls@[i]@ != urls@[j]@ by {
            assert(string_views(urls@)[i] == urls@[i]@ && string_views(urls@)[j] == urls@[j]@);
        }
    }
    urls
}

} // verus!
