//! The request and decision side of the ThePornDB client: the addresses it
//! queries and the body type it infers from a performer's measurements.
//! Sending the requests and decoding the JSON replies is the caller's part.
use vstd::prelude::*;
use crate::text::{
    chars_of, contains_chars, contains_sub, lemma_occurs_chars, occurs_at, opt_view, string_views,
};

verus! {

broadcast use vstd::string::group_string_axioms;

/// Bytes that `urlencoding::encode` leaves as they are: ASCII letters and
/// digits, `-`, `.`, `_` and `~`.
pub open spec fn is_unreserved(b: u8) -> bool {
    (48 <= b <= 57) || (65 <= b <= 90) || (97 <= b <= 122) || b == 45 || b == 46 || b == 95 || b
        == 126
}

/// An upper-case hexadecimal digit.
pub open spec fn hex_digit(d: u8) -> char {
    if d < 10 {
        (48 + d) as char
    } else {
        (55 + d) as char
    }
}

/// Percent-encoding of a byte string: unreserved bytes kept, every other byte
/// written as `%` and two upper-case hex digits.
pub open spec fn percent_encode(bytes: Seq<u8>) -> Seq<char>
    decreases bytes.len(),
{
    if bytes.len() == 0 {
        seq![]
    } else {
        let b = bytes[0];
        (if is_unreserved(b) {
            seq![b as char]
        } else {
            seq!['%', hex_digit(b / 16), hex_digit(b % 16)]
        }) + percent_encode(bytes.drop_first())
    }
}

/// Calls `urlencoding::encode`, which percent-encodes every byte of the UTF-8
/// encoding of `s` except ASCII letters, digits, `-`, `.`, `_` and `~`, with
/// upper-case hex digits. The contract claims exactly that.
#[verifier::external_body]
fn url_encode(s: &str) -> (r: String)
    ensures
        r@ == percent_encode(vstd::utf8::encode_utf8(s@)),
{
    urlencoding::encode(s).into_owned()
}

/// Address of the ThePornDB performer search for `name`.
pub open spec fn search_url_spec(name: Seq<char>) -> Seq<char> {
    "https://api.theporndb.net"@ + "/performers?q="@ + percent_encode(vstd::utf8::encode_utf8(name))
}

/// The search request address: the API base, `/performers?q=` and the
/// percent-encoded name.
pub fn search_url(name: &str) -> (r: String)
    ensures
        r@ == search_url_spec(name@),
{
    let enc = url_encode(name);
    let mut url = String::new();
    url.append("https://api.theporndb.net");
    url.append("/performers?q=");
    url.append(enc.as_str());
    url
}

/// The detail request address for a performer id.
pub fn performer_url(id: &str) -> (r: String)
    ensures
        r@ == "https://api.theporndb.net"@ + "/performers/"@ + id@,
{
    let mut url = String::new();
    url.append("https://api.theporndb.net");
    url.append("/performers/");
    url.append(id);
    url
}

/// The public page of a performer id, recorded as the performer's source URL.
pub fn performer_page_url(id: &str) -> (r: String)
    ensures
        r@ == "https://theporndb.net/performers/"@ + id@,
{
    let mut url = String::new();
    url.append("https://theporndb.net/performers/");
    url.append(id);
    url
}

/// The body type inferred from a measurement string: "Curvy" when it holds
/// "DD", "E" or "F", "Average" otherwise or when there are no measurements.
pub open spec fn body_type_of(measurements: Option<Seq<char>>) -> Seq<char> {
    match measurements {
        Some(m) => if contains_sub(m, "DD"@) || contains_sub(m, "E"@) || contains_sub(m, "F"@) {
            "Curvy"@
        } else {
            "Average"@
        },
        None => "Average"@,
    }
}

/// Infers a body type from the available measurements.
pub fn infer_body_type(measurements: Option<&str>) -> (r: String)
    ensures
        r@ == body_type_of(
            match measurements {
                Some(m) => Some(m@),
                None => None,
            },
        ),
{
    if let Some(m) = measurements {
        let mc = chars_of(m);
        if contains_chars(&mc, &chars_of("DD")) || contains_chars(&mc, &chars_of("E"))
            || contains_chars(&mc, &chars_of("F")) {
            return "Curvy".to_string();
        }
    }
    "Average".to_string()
}

/// The profile image of a performer record: its main image, else the first
/// gallery image, else none.
pub open spec fn profile_image_of(image: Option<Seq<char>>, images: Seq<Seq<char>>) -> Option<
    Seq<char>,
> {
    match image {
        Some(i) => Some(i),
        None => if images.len() > 0 {
            Some(images[0])
        } else {
            None
        },
    }
}

/// Picks the profile image: the main image, else the first gallery image.
pub fn profile_image_url(image: Option<String>, images: &Vec<String>) -> (r: Option<String>)
    ensures
        opt_view(r) == profile_image_of(opt_view(image), string_views(images@)),
{
    match image {
        Some(i) => Some(i),
        None => if images.len() > 0 {
            let u = images[0].clone();
            assert(string_views(images@)[0] == images@[0]@);
            Some(u)
        } else {
            None
        },
    }
}

/// A measurement string with "DD", "E" or "F" anywhere in it is "Curvy":
/// whatever stands before and after the mark.
pub proof fn lemma_cup_marks_are_curvy(a: Seq<char>, b: Seq<char>)
    ensures
        body_type_of(Some(a + "DD"@ + b)) == "Curvy"@,
        body_type_of(Some(a + "E"@ + b)) == "Curvy"@,
        body_type_of(Some(a + "F"@ + b)) == "Curvy"@,
{
    let n = a.len() as int;
    let dd = a + "DD"@ + b;
    let e = a + "E"@ + b;
    let f = a + "F"@ + b;
    assert(dd.subrange(n, n + "DD"@.len()) =~= "DD"@);
    assert(occurs_at(dd, "DD"@, n));
    assert(e.subrange(n, n + "E"@.len()) =~= "E"@);
    assert(occurs_at(e, "E"@, n));
    assert(f.subrange(n, n + "F"@.len()) =~= "F"@);
    assert(occurs_at(f, "F"@, n));
}

/// Measurements with none of "DD", "E" or "F" anywhere, or no measurements,
/// are "Average".
pub proof fn lemma_no_cup_mark_is_average(m: Seq<char>)
    requires
        forall|i: int| 0 <= i < m.len() ==> m[i] != 'E' && m[i] != 'F',
        forall|i: int| 0 <= i < m.len() - 1 ==> !(#[trigger] m[i] == 'D' && m[i + 1] == 'D'),
    ensures
        body_type_of(Some(m)) == "Average"@,
        body_type_of(None) == "Average"@,
{
    reveal_strlit("DD");
    reveal_strlit("E");
    reveal_strlit("F");
    if contains_sub(m, "DD"@) {
        let i = choose|i: int| occurs_at(m, "DD"@, i);
        lemma_occurs_chars(m, "DD"@, i);
        assert("DD"@[0] == 'D' && "DD"@[1] == 'D');
        assert(m[i + 0] == 'D' && m[i + 1] == 'D');
    }
    if contains_sub(m, "E"@) {
        let i = choose|i: int| occurs_at(m, "E"@, i);
        lemma_occurs_chars(m, "E"@, i);
        assert("E"@[0] == 'E');
        assert(m[i + 0] == 'E');
    }
    if contains_sub(m, "F"@) {
        let i = choose|i: int| occurs_at(m, "F"@, i);
        lemma_occurs_chars(m, "F"@, i);
        assert("F"@[0] == 'F');
        assert(m[i + 0] == 'F');
    }
}

} // verus!
