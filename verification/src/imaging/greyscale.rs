//! Filling the rounded corners of a card image with its border colour, so
//! that cards printed side by side leave no white seams.
use vstd::prelude::*;

verus! {

/// One pixel.
#[derive(PartialEq, Eq, Structural, Clone, Copy, Debug)]
pub struct Rgb {
    pub r: u8,
    pub g: u8,
    pub b: u8,
}

/// An 8-bit RGB image, row by row from the top, each row from the left:
/// the pixel at (x, y) is `pixels[y * width + x]`.
#[derive(Debug)]
pub struct RgbImage {
    pub width: u32,
    pub height: u32,
    pub pixels: Vec<Rgb>,
}

impl RgbImage {
    /// The pixels fill the image exactly.
    pub open spec fn well_formed(&self) -> bool {
        self.pixels.len() == self.width * self.height
    }

    /// The pixel at (x, y).
    pub open spec fn pixel(&self, x: int, y: int) -> Rgb {
        self.pixels@[y * self.width + x]
    }
}

/// How many of `vals` are below `m`.
pub open spec fn count_below(vals: Seq<u8>, m: int) -> nat
    decreases vals.len(),
{
    if vals.len() == 0 {
        0
    } else {
        count_below(vals.drop_last(), m) + if vals.last() < m {
            1nat
        } else {
            0nat
        }
    }
}

/// `m` is the value at index `k` of `vals` sorted: at most `k` values are
/// below it and more than `k` are at most it.
pub open spec fn is_kth_smallest(vals: Seq<u8>, k: nat, m: u8) -> bool {
    count_below(vals, m as int) <= k && k < count_below(vals, m + 1)
}

proof fn lemma_count_bounds(vals: Seq<u8>, m: int)
    ensures
        count_below(vals, m) <= vals.len(),
        m <= 0 ==> count_below(vals, m) == 0,
        m > 255 ==> count_below(vals, m) == vals.len(),
    decreases vals.len(),
{
    if vals.len() > 0 {
        lemma_count_bounds(vals.drop_last(), m);
    }
}

fn count_below_exec(vals: &Vec<u8>, m: u16) -> (c: usize)
    ensures
        c == count_below(vals@, m as int),
{
    let mut c: usize = 0;
    let mut i: usize = 0;
    proof {
        assert(vals@.take(0) =~= Seq::<u8>::empty());
    }
    while i < vals.len()
        invariant
            i <= vals.len(),
            c == count_below(vals@.take(i as int), m as int),
            c <= i,
        decreases vals.len() - i,
    {
        proof {
            let t = vals@.take(i + 1);
            assert(t.drop_last() =~= vals@.take(i as int));
        }
        if (vals[i] as u16) < m {
            c += 1;
        }
        i += 1;
    }
    proof {
        assert(vals@.take(vals.len() as int) =~= vals@);
    }
    c
}

/// The value at index `k` of `vals` sorted (the median for `k = len / 2`).
pub fn kth_smallest(vals: &Vec<u8>, k: usize) -> (m: u8)
    requires
        k < vals.len(),
    ensures
        is_kth_smallest(vals@, k as nat, m),
{
    let mut v: u16 = 0;
    proof {
        lemma_count_bounds(vals@, 0);
        lemma_count_bounds(vals@, 256);
    }
    while v < 255
        invariant
            k < vals.len(),
            v <= 255,
            count_below(vals@, v as int) <= k,
            count_below(vals@, 256) == vals.len(),
        decreases 255 - v,
    {
        if count_below_exec(vals, v + 1) > k {
            return v as u8;
        }
        v += 1;
    }
    v as u8
}

/// The points sampled for the border colour: three points near the middle
/// of the top and bottom edges, then three near the middle of the left and
/// right edges, each 20 pixels apart where the image allows.
pub open spec fn sample_points(w: int, h: int) -> Seq<(int, int)> {
    let mx = w / 2;
    let my = h / 2;
    let xs = seq![if mx >= 20 { mx - 20 } else { 0 }, mx, if mx + 20 < w - 1 { mx + 20 } else { w - 1 }];
    let ys = seq![if my >= 20 { my - 20 } else { 0 }, my, if my + 20 < h - 1 { my + 20 } else { h - 1 }];
    seq![
        (xs[0], 0), (xs[0], h - 1), (xs[1], 0), (xs[1], h - 1), (xs[2], 0), (xs[2], h - 1),
        (0, ys[0]), (w - 1, ys[0]), (0, ys[1]), (w - 1, ys[1]), (0, ys[2]), (w - 1, ys[2])
    ]
}

/// The sampled pixels.
pub open spec fn samples(img: RgbImage) -> Seq<Rgb> {
    sample_points(img.width as int, img.height as int).map_values(|p: (int, int)| img.pixel(p.0, p.1))
}

/// The radius of the rounded corners: 4% of the shorter side, rounded down.
pub open spec fn corner_radius(w: int, h: int) -> int {
    (if w < h { w } else { h }) / 25
}

/// (x, y) lies in one of the four corner squares of side `corner_radius`.
pub open spec fn in_corner(w: int, h: int, x: int, y: int) -> bool {
    let r = corner_radius(w, h);
    ||| (x < r && y < r)
    ||| (x >= w - r && y < r)
    ||| (x < r && y >= h - r)
    ||| (x >= w - r && y >= h - r)
}

/// The brightness of a pixel: the mean of its channels, rounded down.
pub open spec fn brightness(p: Rgb) -> int {
    (p.r + p.g + p.b) / 3
}

/// A corner pixel brighter than this is filled with the border colour.
pub open spec fn fill_threshold() -> int {
    180
}

/// The border colour is the per-channel median of the samples: each channel
/// is the value at index 6 of that channel's 12 sampled values sorted.
pub open spec fn is_border_colour(img: RgbImage, c: Rgb) -> bool {
    let s = samples(img);
    &&& is_kth_smallest(s.map_values(|p: Rgb| p.r), 6, c.r)
    &&& is_kth_smallest(s.map_values(|p: Rgb| p.g), 6, c.g)
    &&& is_kth_smallest(s.map_values(|p: Rgb| p.b), 6, c.b)
}

/// Pixel `i` after filling `img`'s corners with `border`: a corner pixel
/// brighter than the threshold becomes `border`, any other stays.
pub open spec fn fill_pixel(img: RgbImage, border: Rgb, i: int) -> Rgb {
    let x = i % (img.width as int);
    let y = i / (img.width as int);
    let p = img.pixels@[i];
    if in_corner(img.width as int, img.height as int, x, y) && brightness(p) > fill_threshold() {
        border
    } else {
        p
    }
}

/// `new` is `old` with its corners filled with `border`, the border colour
/// of `old`.
pub open spec fn filled_with(old: RgbImage, new: RgbImage, border: Rgb) -> bool {
    &&& is_border_colour(old, border)
    &&& forall|i: int| 0 <= i < new.pixels.len() ==> #[trigger] new.pixels@[i] == fill_pixel(old, border, i)
}

proof fn lemma_index_in_image(x: int, y: int, w: int, h: int)
    requires
        0 <= x < w,
        0 <= y < h,
    ensures
        0 <= y * w + x < w * h,
{
    assert(0 <= y * w + x < w * h) by (nonlinear_arith)
        requires
            0 <= x < w,
            0 <= y < h,
    ;
}

fn pixel_at(img: &RgbImage, x: u32, y: u32) -> (p: Rgb)
    requires
        img.well_formed(),
        x < img.width,
        y < img.height,
    ensures
        p == img.pixel(x as int, y as int),
{
    proof {
        lemma_index_in_image(x as int, y as int, img.width as int, img.height as int);
    }
    let i = (y as usize) * (img.width as usize) + (x as usize);
    img.pixels[i]
}

/// Fills the bright pixels in the four rounded corners of a card image with
/// the colour of its border, leaving every other pixel as it was.
pub fn fill_rounded_corners(img: &mut RgbImage)
    requires
        old(img).well_formed(),
        old(img).width > 0,
        old(img).height > 0,
    ensures
        final(img).width == old(img).width,
        final(img).height == old(img).height,
        final(img).well_formed(),
        exists|border: Rgb| filled_with(*old(img), *final(img), border),
{
    let w = img.width;
    let h = img.height;
    let mx = w / 2;
    let my = h / 2;
    let xs: [u32; 3] = [if mx >= 20 { mx - 20 } else { 0 }, mx, if mx + 20 < w - 1 { mx + 20 } else { w - 1 }];
    let ys: [u32; 3] = [if my >= 20 { my - 20 } else { 0 }, my, if my + 20 < h - 1 { my + 20 } else { h - 1 }];
    let mut picked: Vec<Rgb> = Vec::new();
    let mut k: usize = 0;
    let ghost pts = sample_points(w as int, h as int);
    while k < 3
        invariant
            k <= 3,
            img.well_formed(),
            img.width == w,
            img.height == h,
            w > 0,
            h > 0,
            pts == sample_points(w as int, h as int),
            xs@.len() == 3,
            xs@[0] as int == (if mx >= 20 { mx - 20 } else { 0 }),
            xs@[1] == mx,
            xs@[2] as int == (if mx + 20 < w - 1 { mx + 20 } else { w - 1 }),
            mx == w / 2,
            picked.len() == 2 * k,
            forall|j: int| 0 <= j < picked.len() ==> picked@[j] == img.pixel(#[trigger] pts[j].0, pts[j].1),
        decreases 3 - k,
    {
        let x = xs[k];
        picked.push(pixel_at(img, x, 0));
        picked.push(pixel_at(img, x, h - 1));
        k += 1;
    }
    let mut k: usize = 0;
    while k < 3
        invariant
            k <= 3,
            img.well_formed(),
            img.width == w,
            img.height == h,
            w > 0,
            h > 0,
            pts == sample_points(w as int, h as int),
            ys@.len() == 3,
            ys@[0] as int == (if my >= 20 { my - 20 } else { 0 }),
            ys@[1] == my,
            ys@[2] as int == (if my + 20 < h - 1 { my + 20 } else { h - 1 }),
            my == h / 2,
            picked.len() == 6 + 2 * k,
            forall|j: int| 0 <= j < picked.len() ==> picked@[j] == img.pixel(#[trigger] pts[j].0, pts[j].1),
        decreases 3 - k,
    {
        let y = ys[k];
        picked.push(pixel_at(img, 0, y));
        picked.push(pixel_at(img, w - 1, y));
        k += 1;
    }
    proof {
        assert(picked@ =~= samples(*img));
    }
    let mut reds: Vec<u8> = Vec::new();
    let mut greens: Vec<u8> = Vec::new();
    let mut blues: Vec<u8> = Vec::new();
    let mut k: usize = 0;
    while k < picked.len()
        invariant
            k <= picked.len(),
            reds.len() == k,
            greens.len() == k,
            blues.len() == k,
            forall|j: int| 0 <= j < k ==> #[trigger] reds@[j] == picked@[j].r,
            forall|j: int| 0 <= j < k ==> #[trigger] greens@[j] == picked@[j].g,
            forall|j: int| 0 <= j < k ==> #[trigger] blues@[j] == picked@[j].b,
        decreases picked.len() - k,
    {
        reds.push(picked[k].r);
        greens.push(picked[k].g);
        blues.push(picked[k].b);
        k += 1;
    }
    let border = Rgb {
        r: kth_smallest(&reds, 6),
        g: kth_smallest(&greens, 6),
        b: kth_smallest(&blues, 6),
    };
    proof {
        let s = samples(*img);
        assert(reds@ =~= s.map_values(|p: Rgb| p.r));
        assert(greens@ =~= s.map_values(|p: Rgb| p.g));
        assert(blues@ =~= s.map_values(|p: Rgb| p.b));
        assert(is_border_colour(*img, border));
    }
    let radius = (if w < h { w } else { h }) / 25;
    let ghost old_img = *img;
    let mut out: Vec<Rgb> = Vec::new();
    let n = img.pixels.len();
    let mut i: usize = 0;
    while i < n
        invariant
            n == img.pixels.len(),
            img.well_formed(),
            img.width == w,
            img.height == h,
            w > 0,
            *img == old_img,
            radius == corner_radius(w as int, h as int),
            i <= n,
            out.len() == i,
            forall|j: int|
                0 <= j < i ==> {
                    let x = j % (w as int);
                    let y = j / (w as int);
                    let p = old_img.pixels@[j];
                    #[trigger] out@[j] == if in_corner(w as int, h as int, x, y) && brightness(p)
                        > fill_threshold() {
                        border
                    } else {
                        p
                    }
                },
        decreases n - i,
    {
        let x = (i % (w as usize)) as u32;
        let y = (i / (w as usize)) as u32;
        let p = img.pixels[i];
        proof {
            vstd::arithmetic::div_mod::lemma_fundamental_div_mod(i as int, w as int);
            assert((i as int) / (w as int) < h) by (nonlinear_arith)
                requires
                    0 <= i < w * h,
                    (i as int) == (w as int) * ((i as int) / (w as int)) + (i as int) % (w as int),
                    0 <= (i as int) % (w as int),
                    w > 0,
            ;
        }
        let corner = (x < radius && y < radius) || (x >= w - radius && y < radius) || (x < radius
            && y >= h - radius) || (x >= w - radius && y >= h - radius);
        let bright = ((p.r as u16 + p.g as u16 + p.b as u16) / 3) as u8;
        if corner && bright > 180 {
            out.push(border);
        } else {
            out.push(p);
        }
        i += 1;
    }
    img.pixels = out;
    proof {
        assert forall|j: int| 0 <= j < img.pixels.len() implies #[trigger] img.pixels@[j]
            == fill_pixel(old_img, border, j) by {
            assert(out@[j] == img.pixels@[j]);
        }
        assert(filled_with(old_img, *img, border));
    }
}

proof fn lemma_count_mono(vals: Seq<u8>, a: int, b: int)
    requires
        a <= b,
    ensures
        count_below(vals, a) <= count_below(vals, b),
    decreases vals.len(),
{
    if vals.len() > 0 {
        lemma_count_mono(vals.drop_last(), a, b);
    }
}

/// The value at one index of a sorted list is unique.
proof fn lemma_kth_unique(vals: Seq<u8>, k: nat, m1: u8, m2: u8)
    requires
        is_kth_smallest(vals, k, m1),
        is_kth_smallest(vals, k, m2),
    ensures
        m1 == m2,
{
    if m1 < m2 {
        lemma_count_mono(vals, m1 + 1, m2 as int);
    } else if m2 < m1 {
        lemma_count_mono(vals, m2 + 1, m1 as int);
    }
}

/// A sample point of an image of at least 50 x 50 pixels lies in no
/// corner square.
proof fn lemma_samples_off_corners(w: int, h: int, j: int)
    requires
        w >= 50,
        h >= 50,
        0 <= j < 12,
    ensures
        ({
            let p = sample_points(w, h)[j];
            &&& 0 <= p.0 < w
            &&& 0 <= p.1 < h
            &&& !in_corner(w, h, p.0, p.1)
        }),
{
    let r = corner_radius(w, h);
    let m = if w < h { w } else { h };
    vstd::arithmetic::div_mod::lemma_fundamental_div_mod(w, 2);
    vstd::arithmetic::div_mod::lemma_fundamental_div_mod(h, 2);
    vstd::arithmetic::div_mod::lemma_fundamental_div_mod(m, 25);
    assert(r * 25 <= m);
    assert(r <= w / 2 - 20);
    assert(w / 2 + 20 < w - r);
    assert(r <= h / 2 - 20);
    assert(h / 2 + 20 < h - r);
}

/// Filling the corners a second time changes nothing, for images of at
/// least 50 x 50 pixels (whose border samples lie outside the corners).
pub proof fn lemma_fill_twice(a: RgbImage, b: RgbImage, c: RgbImage, border1: Rgb, border2: Rgb)
    requires
        a.well_formed(),
        a.width >= 50,
        a.height >= 50,
        b.width == a.width,
        b.height == a.height,
        b.well_formed(),
        filled_with(a, b, border1),
        c.width == b.width,
        c.height == b.height,
        c.well_formed(),
        filled_with(b, c, border2),
    ensures
        c.pixels@ == b.pixels@,
{
    let w = a.width as int;
    let h = a.height as int;
    let pts = sample_points(w, h);
    assert forall|j: int| 0 <= j < 12 implies #[trigger] samples(b)[j] == samples(a)[j] by {
        lemma_samples_off_corners(w, h, j);
        let (x, y) = pts[j];
        let i = y * w + x;
        assert(0 <= i < w * h) by (nonlinear_arith)
            requires
                0 <= x < w,
                0 <= y < h,
                i == y * w + x,
        ;
        vstd::arithmetic::div_mod::lemma_fundamental_div_mod_converse(i, w, y, x);
        assert(b.pixels@[i] == fill_pixel(a, border1, i));
    }
    assert(samples(b) =~= samples(a));
    let s = samples(a);
    lemma_kth_unique(s.map_values(|p: Rgb| p.r), 6, border1.r, border2.r);
    lemma_kth_unique(s.map_values(|p: Rgb| p.g), 6, border1.g, border2.g);
    lemma_kth_unique(s.map_values(|p: Rgb| p.b), 6, border1.b, border2.b);
    assert(border1 == border2);
    assert forall|i: int| 0 <= i < c.pixels.len() implies c.pixels@[i] == b.pixels@[i] by {
        assert(c.pixels@[i] == fill_pixel(b, border2, i));
        assert(b.pixels@[i] == fill_pixel(a, border1, i));
    }
    assert(c.pixels@ =~= b.pixels@);
}

/// The corner squares are the same at all four corners: a point is in one
/// exactly when its mirror image across the vertical middle is, and when
/// its mirror image across the horizontal middle is.
pub proof fn lemma_corners_mirror(w: int, h: int, x: int, y: int)
    requires
        0 <= x < w,
        0 <= y < h,
    ensures
        in_corner(w, h, x, y) == in_corner(w, h, w - 1 - x, y),
        in_corner(w, h, x, y) == in_corner(w, h, x, h - 1 - y),
{
}

/// Filling changes exactly the bright pixels near a corner: a pixel within
/// the corner radius of the left or right edge and within it of the top
/// or bottom edge (at any of the four corners) becomes the border colour
/// when brighter than the threshold; every other pixel stays.
pub proof fn lemma_fill_all_corners(old: RgbImage, new: RgbImage, border: Rgb)
    requires
        old.well_formed(),
        old.width > 0,
        new.pixels.len() == old.pixels.len(),
        filled_with(old, new, border),
    ensures
        forall|x: int, y: int|
            0 <= x < old.width && 0 <= y < old.height ==> {
                let r = corner_radius(old.width as int, old.height as int);
                let i = y * old.width + x;
                let p = old.pixels@[i];
                let near = (x < r || x >= old.width - r) && (y < r || y >= old.height - r);
                #[trigger] new.pixels@[y * old.width + x] == if near && brightness(p)
                    > fill_threshold() {
                    border
                } else {
                    p
                }
            },
{
    let w = old.width as int;
    let h = old.height as int;
    assert forall|x: int, y: int| 0 <= x < old.width && 0 <= y < old.height implies {
        let r = corner_radius(old.width as int, old.height as int);
        let i = y * old.width + x;
        let p = old.pixels@[i];
        let near = (x < r || x >= old.width - r) && (y < r || y >= old.height - r);
        #[trigger] new.pixels@[y * old.width + x] == if near && brightness(p) > fill_threshold() {
            border
        } else {
            p
        }
    } by {
        let i = y * w + x;
        lemma_index_in_image(x, y, w, h);
        vstd::arithmetic::div_mod::lemma_fundamental_div_mod_converse(i, w, y, x);
        assert(new.pixels@[i] == fill_pixel(old, border, i));
    }
}

} // verus!
