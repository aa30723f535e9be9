//! Image sources for the ingest pipeline and the pure decisions ingest applies
//! to each gathered image.
//!
//! Every place performer images come from implements [`ImageSource`], so ingest
//! can gather from all of them in one loop and tag each stored row with its
//! origin. [`classify_view`] is the front/rear/side rule.
use vstd::prelude::*;
use crate::text::{chars_of, chars_eq, string_views};

verus! {

broadcast use vstd::string::group_string_axioms;

/// A place performer images can be gathered from. Implementations are
/// best-effort: a lookup failure yields an empty vec, never an error, so one
/// dead source never aborts an ingest run.
pub trait ImageSource {
    /// Stable identifier written to the `images.source` column.
    fn name(&self) -> &'static str;

    /// Up to `max` multi-angle image URLs for `performer`.
    fn gather(&self, performer: &str, max: usize) -> Vec<String>;
}

/// Images taken from each gallery by the gallery-based sources.
pub const PER_GALLERY: usize = 6;

/// `(galleries, per_gallery)` for a target image count: enough galleries of
/// six to cover `max`, and never fewer than one.
pub open spec fn gallery_split_spec(max: int) -> (int, int) {
    let g = (max + 5) / 6;
    (if g < 1 {
        1
    } else {
        g
    }, 6)
}

/// Splits a target image count into (galleries, per_gallery) for the gallery-
/// based sources: a handful of images from each of several shoots.
pub fn gallery_split(max: usize) -> (r: (usize, usize))
    ensures
        (r.0 as int, r.1 as int) == gallery_split_spec(max as int),
        r.1 == PER_GALLERY,
        r.0 >= 1,
        r.0 * r.1 >= max,
        max > 0 ==> (r.0 - 1) * r.1 < max,
        max == 0 ==> r.0 == 1,
{
    let q = max / PER_GALLERY;
    let rem = max % PER_GALLERY;
    let c = if rem == 0 {
        q
    } else {
        q + 1
    };
    assert(c as int == (max as int + 5) / 6 && c * 6 >= max && (max > 0 ==> (c - 1) * 6 < max))
        by (nonlinear_arith)
        requires
            q as int == max as int / 6,
            rem as int == max as int % 6,
            c as int == q as int + (if rem == 0 {
                0int
            } else {
                1int
            }),
    ;
    let g = if c < 1 {
        1
    } else {
        c
    };
    (g, PER_GALLERY)
}

/// A fixed list of hand-picked URLs. Ignores `performer` and `max`: these
/// were chosen by hand.
pub struct ManualSource {
    pub urls: Vec<String>,
}

impl ImageSource for ManualSource {
    fn name(&self) -> (r: &'static str)
        ensures
            r@ == "manual"@,
    {
        "manual"
    }

    fn gather(&self, performer: &str, max: usize) -> (r: Vec<String>)
        ensures
            string_views(r@) == string_views(self.urls@),
    {
        let mut out: Vec<String> = Vec::new();
        let mut k: usize = 0;
        while k < self.urls.len()
            invariant
                k <= self.urls.len(),
                string_views(out@) == string_views(self.urls@).take(k as int),
            decreases self.urls.len() - k,
        {
            let u = self.urls[k].clone();
            let ghost before = string_views(out@);
            assert(u@ == self.urls@[k as int]@);
            out.push(u);
            assert(string_views(out@) =~= before.push(self.urls@[k as int]@));
            assert(string_views(out@) =~= string_views(self.urls@).take(k + 1));
            k += 1;
        }
        assert(string_views(self.urls@).take(k as int) =~= string_views(self.urls@));
        out
    }
}

/// The view of an image from the pose classifier's coarse output and whether
/// a face was detected: pose alone only tells `side` from `frontal`; a frontal
/// body with a face is a front shot, without one a rear shot; with no usable
/// pose a face is still a frontal crop, and nothing at all is `unknown`.
pub open spec fn view_of(pose_view: Option<Seq<char>>, has_face: bool) -> Seq<char> {
    match pose_view {
        Some(p) if p == "side"@ => "side"@,
        Some(p) if p == "frontal"@ => if has_face {
            "front"@
        } else {
            "rear"@
        },
        _ => if has_face {
            "front"@
        } else {
            "unknown"@
        },
    }
}

/// Resolves an image's view from the pose classifier's coarse output and whether
/// a face was detected.
pub fn classify_view(pose_view: Option<&str>, has_face: bool) -> (r: &'static str)
    ensures
        r@ == view_of(
            match pose_view {
                Some(p) => Some(p@),
                None => None,
            },
            has_face,
        ),
{
    let side = chars_of("side");
    let frontal = chars_of("frontal");
    match pose_view {
        Some(p) => {
            let pc = chars_of(p);
            if chars_eq(&pc, &side) {
                "side"
            } else if chars_eq(&pc, &frontal) {
                if has_face {
                    "front"
                } else {
                    "rear"
                }
            } else if has_face {
                "front"
            } else {
                "unknown"
            }
        },
        None => if has_face {
            "front"
        } else {
            "unknown"
        },
    }
}

/// Front and rear come from the face, side from the pose alone: a side pose
/// is "side" whether or not a face was seen; a frontal pose is "front" with a
/// face and "rear" without; any other pose, or none, is read as no pose at
/// all, where a face still makes a "front" crop and nothing is "unknown".
pub proof fn lemma_view_rule(other: Seq<char>, has_face: bool)
    requires
        other != "side"@,
        other != "frontal"@,
    ensures
        view_of(Some("side"@), true) == "side"@,
        view_of(Some("side"@), false) == "side"@,
        view_of(Some("frontal"@), true) == "front"@,
        view_of(Some("frontal"@), false) == "rear"@,
        view_of(Some(other), has_face) == view_of(None, has_face),
        view_of(None, true) == "front"@,
        view_of(None, false) == "unknown"@,
{
    reveal_strlit("side");
    reveal_strlit("frontal");
}

} // verus!
