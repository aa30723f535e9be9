//! The decision side of the StashDB image enrichment: which image URLs of a
//! performer search to use, largest images first. Sending the GraphQL query
//! and decoding its JSON reply is the caller's part.
use vstd::prelude::*;
use crate::text::string_views;

verus! {

broadcast use vstd::string::group_string_axioms;

/// One image of a StashDB performer.
pub struct StashImage {
    pub url: String,
    pub width: u32,
    pub height: u32,
}

/// A StashDB performer, as far as the image search reads it.
pub struct StashPerformer {
    pub images: Vec<StashImage>,
}

/// The pixel count of each image.
pub open spec fn areas(imgs: Seq<StashImage>) -> Seq<int> {
    imgs.map_values(|i: StashImage| i.width * i.height)
}

/// First position at or after `k` in `order` that holds an image smaller than
/// image `i` (the length of `order` if none does).
pub open spec fn insert_pos(order: Seq<int>, area: Seq<int>, i: int, k: int) -> int
    decreases order.len() - k,
{
    if 0 <= k < order.len() && area[order[k]] >= area[i] {
        insert_pos(order, area, i, k + 1)
    } else {
        k
    }
}

/// The indices `0..n` of the images, largest image first; images of equal
/// size keep their input order (a stable sort by descending size).
pub open spec fn largest_first(area: Seq<int>, n: int) -> Seq<int>
    decreases n,
{
    if n <= 0 {
        seq![]
    } else {
        let prev = largest_first(area, n - 1);
        prev.insert(insert_pos(prev, area, n - 1, 0), n - 1)
    }
}

/// `order` lists every index below `n` exactly once, largest image first,
/// equal sizes in index order.
pub open spec fn is_largest_first_order(area: Seq<int>, n: int, order: Seq<int>) -> bool {
    &&& order.len() == n
    &&& forall|k: int| 0 <= k < n ==> 0 <= #[trigger] order[k] < n
    &&& forall|a: int, b: int| 0 <= a < b < n ==> #[trigger] order[a] != #[trigger] order[b]
    &&& forall|a: int, b: int|
        0 <= a < b < n ==> area[#[trigger] order[a]] > area[#[trigger] order[b]] || (area[order[a]]
            == area[order[b]] && order[a] < order[b])
}

pub proof fn lemma_insert_pos(order: Seq<int>, area: Seq<int>, i: int, k: int)
    requires
        0 <= k <= order.len(),
    ensures
        k <= insert_pos(order, area, i, k) <= order.len(),
        forall|m: int| k <= m < insert_pos(order, area, i, k) ==> area[#[trigger] order[m]] >= area[i],
        insert_pos(order, area, i, k) < order.len() ==> area[order[insert_pos(order, area, i, k)]]
            < area[i],
    decreases order.len() - k,
{
    if k < order.len() && area[order[k]] >= area[i] {
        lemma_insert_pos(order, area, i, k + 1);
    }
}

/// The order built by `largest_first` lists every image once, largest first,
/// and keeps images of equal size in their input order.
pub proof fn lemma_largest_first_order(area: Seq<int>, n: int)
    requires
        0 <= n <= area.len(),
    ensures
        is_largest_first_order(area, n, largest_first(area, n)),
    decreases n,
{
    if n > 0 {
        let prev = largest_first(area, n - 1);
        lemma_largest_first_order(area, n - 1);
        let i = n - 1;
        let p = insert_pos(prev, area, i, 0);
        lemma_insert_pos(prev, area, i, 0);
        let o = prev.insert(p, i);
        assert(o == largest_first(area, n));
        assert forall|k: int| 0 <= k < n implies 0 <= #[trigger] o[k] < n by {
            if k < p {
                assert(o[k] == prev[k]);
            } else if k > p {
                assert(o[k] == prev[k - 1]);
            }
        }
        assert forall|a: int, b: int| 0 <= a < b < n implies #[trigger] o[a] != #[trigger] o[b] by {
            if a < p && b < p {
                assert(o[a] == prev[a] && o[b] == prev[b]);
            } else if a < p && b == p {
                assert(o[a] == prev[a]);
            } else if a < p && b > p {
                assert(o[a] == prev[a] && o[b] == prev[b - 1]);
            } else if a == p {
                assert(o[b] == prev[b - 1]);
            } else {
                assert(o[a] == prev[a - 1] && o[b] == prev[b - 1]);
            }
        }
        assert forall|a: int, b: int| 0 <= a < b < n implies area[#[trigger] o[a]] > area[
            #[trigger] o[b]] || (area[o[a]] == area[o[b]] && o[a] < o[b]) by {
            if a < p && b < p {
                assert(o[a] == prev[a] && o[b] == prev[b]);
            } else if a < p && b == p {
                assert(o[a] == prev[a]);
                assert(area[prev[a]] >= area[i]);
            } else if a < p && b > p {
                assert(o[a] == prev[a] && o[b] == prev[b - 1]);
            } else if a == p {
                assert(o[b] == prev[b - 1]);
                assert(area[prev[p]] < area[i]);
                if b - 1 > p {
                    assert(area[prev[p]] > area[prev[b - 1]] || area[prev[p]] == area[prev[b
                        - 1]]);
                }
            } else {
                assert(o[a] == prev[a - 1] && o[b] == prev[b - 1]);
            }
        }
    }
}

/// The URLs of the images of `imgs`, largest first, at most `max` of them.
pub open spec fn largest_urls(imgs: Seq<StashImage>, max: int) -> Seq<Seq<char>> {
    let order = largest_first(areas(imgs), imgs.len() as int);
    let m = if max < imgs.len() {
        max
    } else {
        imgs.len() as int
    };
    order.take(m).map_values(|i: int| imgs[i].url@)
}

/// The pixel count of an image.
pub open spec fn pixels(img: StashImage) -> int {
    img.width * img.height
}

/// `order` lists every image of `imgs` exactly once, an image with more
/// pixels (width times height) before one with fewer, images with as many
/// pixels in input order.
pub open spec fn is_pixel_order(imgs: Seq<StashImage>, order: Seq<int>) -> bool {
    &&& order.len() == imgs.len()
    &&& forall|k: int| 0 <= k < order.len() ==> 0 <= #[trigger] order[k] < imgs.len()
    &&& forall|a: int, b: int| 0 <= a < b < order.len() ==> #[trigger] order[a] != #[trigger] order[b]
    &&& forall|a: int, b: int|
        0 <= a < b < order.len() ==> pixels(imgs[#[trigger] order[a]]) > pixels(
            imgs[#[trigger] order[b]],
        ) || (pixels(imgs[order[a]]) == pixels(imgs[order[b]]) && order[a] < order[b])
}

/// `urls` are the URLs of at most `max` images of `imgs`, listed in an order
/// that holds every image once, most pixels first, equal pixel counts in
/// input order.
pub open spec fn is_largest_first_urls(imgs: Seq<StashImage>, max: int, urls: Seq<Seq<char>>) -> bool {
    let m = if max < imgs.len() {
        max
    } else {
        imgs.len() as int
    };
    exists|order: Seq<int>|
        is_pixel_order(imgs, order) && urls == order.take(m).map_values(|i: int| imgs[i].url@)
}

/// The URLs chosen are those of the images with the most pixels (width
/// times height), most first, ties in input order, at most `max` of them.
pub proof fn lemma_largest_urls_by_pixels(imgs: Seq<StashImage>, max: int)
    ensures
        is_largest_first_urls(imgs, max, largest_urls(imgs, max)),
{
    let n = imgs.len() as int;
    let ar = areas(imgs);
    lemma_largest_first_order(ar, n);
    let order = largest_first(ar, n);
    assert forall|i: int| 0 <= i < n implies #[trigger] ar[i] == pixels(imgs[i]) by {}
    assert forall|a: int, b: int| 0 <= a < b < order.len() implies pixels(
        imgs[#[trigger] order[a]],
    ) > pixels(imgs[#[trigger] order[b]]) || (pixels(imgs[order[a]]) == pixels(imgs[order[b]])
        && order[a] < order[b]) by {
        assert(ar[order[a]] == pixels(imgs[order[a]]));
        assert(ar[order[b]] == pixels(imgs[order[b]]));
    }
    assert(is_pixel_order(imgs, order));
}

/// The image URLs used for a search: those of the best (first) match, largest
/// first, at most `max`; none when nothing matched.
pub open spec fn match_image_urls(performers: Seq<StashPerformer>, max: int) -> Seq<Seq<char>> {
    if performers.len() == 0 {
        seq![]
    } else {
        largest_urls(performers[0].images@, max)
    }
}

fn area_of(img: &StashImage) -> (r: u64)
    ensures
        r == img.width * img.height,
{
    assert(img.width * img.height <= u32::MAX * u32::MAX) by (nonlinear_arith)
        requires
            img.width <= u32::MAX,
            img.height <= u32::MAX,
    ;
    img.width as u64 * img.height as u64
}

/// Up to `max` image URLs of `imgs`, largest first; equal sizes keep their
/// order.
pub fn largest_image_urls(imgs: &Vec<StashImage>, max: usize) -> (r: Vec<String>)
    ensures
        string_views(r@) == largest_urls(imgs@, max as int),
        is_largest_first_urls(imgs@, max as int, string_views(r@)),
{
    let n = imgs.len();
    let mut area: Vec<u64> = Vec::new();
    let mut k: usize = 0;
    while k < n
        invariant
            k <= n == imgs.len(),
            area@.len() == k,
            forall|m: int| 0 <= m < k ==> area@[m] == areas(imgs@)[m],
        decreases n - k,
    {
        let a = area_of(&imgs[k]);
        area.push(a);
        k += 1;
    }
    let ghost ar = areas(imgs@);
    let mut order: Vec<usize> = Vec::new();
    let mut i: usize = 0;
    while i < n
        invariant
            i <= n == imgs.len(),
            area@.len() == n,
            ar == areas(imgs@),
            forall|m: int| 0 <= m < n ==> area@[m] == ar[m],
            order@.map_values(|x: usize| x as int) == largest_first(ar, i as int),
            forall|m: int| 0 <= m < order@.len() ==> (#[trigger] order@[m]) < i,
        decreases n - i,
    {
        let ghost prev = order@.map_values(|x: usize| x as int);
        let mut p: usize = 0;
        while p < order.len() && area[order[p]] >= area[i]
            invariant
                i < n,
                area@.len() == n,
                forall|m: int| 0 <= m < n ==> area@[m] == ar[m],
                p <= order.len(),
                prev == order@.map_values(|x: usize| x as int),
                forall|m: int| 0 <= m < order@.len() ==> (#[trigger] order@[m]) < i,
                insert_pos(prev, ar, i as int, 0) == insert_pos(prev, ar, i as int, p as int),
            decreases order.len() - p,
        {
            p += 1;
        }
        order.insert(p, i);
        assert(order@.map_values(|x: usize| x as int) =~= prev.insert(p as int, i as int));
        i += 1;
    }
    let m = if max < n {
        max
    } else {
        n
    };
    let mut out: Vec<String> = Vec::new();
    let mut t: usize = 0;
    proof {
        lemma_largest_first_order(ar, n as int);
    }
    while t < m
        invariant
            t <= m <= n == imgs.len(),
            m as int == (if max < imgs@.len() {
                max as int
            } else {
                imgs@.len() as int
            }),
            ar == areas(imgs@),
            order@.map_values(|x: usize| x as int) == largest_first(ar, n as int),
            is_largest_first_order(ar, n as int, largest_first(ar, n as int)),
            string_views(out@) == largest_first(ar, n as int).take(t as int).map_values(
                |x: int| imgs@[x].url@,
            ),
        decreases m - t,
    {
        let ghost ord = largest_first(ar, n as int);
        assert(order@.map_values(|x: usize| x as int)[t as int] == ord[t as int]);
        let idx = order[t];
        let u = imgs[idx].url.clone();
        let ghost before = string_views(out@);
        out.push(u);
        assert(string_views(out@) =~= before.push(imgs@[ord[t as int]].url@));
        assert(ord.take(t + 1).map_values(|x: int| imgs@[x].url@) =~= ord.take(t as int).map_values(
            |x: int| imgs@[x].url@,
        ).push(imgs@[ord[t as int]].url@));
        t += 1;
    }
    proof {
        lemma_largest_urls_by_pixels(imgs@, max as int);
    }
    out
}

/// The image URLs for a performer search: up to `max` URLs of the best
/// (first) match's images, largest first; none when nothing matched.
pub fn match_image_urls_of(performers: &Vec<StashPerformer>, max: usize) -> (r: Vec<String>)
    ensures
        string_views(r@) == match_image_urls(performers@, max as int),
        performers@.len() == 0 ==> r@.len() == 0,
        performers@.len() > 0 ==> is_largest_first_urls(
            performers@[0].images@,
            max as int,
            string_views(r@),
        ),
{
    if performers.len() == 0 {
        let v: Vec<String> = Vec::new();
        assert(string_views(v@) =~= Seq::<Seq<char>>::empty());
        v
    } else {
        largest_image_urls(&performers[0].images, max)
    }
}

} // verus!
