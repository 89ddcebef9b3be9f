//! When a frame is shown, and as what: a frame is passed over only if its reduced picture
//! is taken for the last one, and is shown blurred otherwise.
use vstd::prelude::*;

use crate::blur::blurred;
use crate::frame::Frame;
use crate::place_laws::law_size_of_the_picture;
use crate::reduce::{content_hash, pixel_word, processing, reduction};

verus! {

/// Frames come to something exactly where they can be reduced; and then to a picture
/// exactly where their hash is not the last one's.
pub proof fn law_picture_unless_the_hash_is_the_last(
    frame: Frame,
    target_w: usize,
    sigma_tenths: u32,
    prev_hash: u64,
)
    ensures
        processing(frame, target_w, sigma_tenths, prev_hash) is Some <==> reduction(
            frame,
            target_w as int,
        ) is Some,
        processing(frame, target_w, sigma_tenths, prev_hash) matches Some((hash, image)) ==> (
        image is Some <==> hash != prev_hash),
{
}

/// The hash of a frame depends on its reduced picture alone, and not on the blur or on
/// what was shown before.
pub proof fn law_hash_is_of_the_reduction(
    a: Frame,
    b: Frame,
    target_a: usize,
    target_b: usize,
    sigma_a: u32,
    sigma_b: u32,
    prev_a: u64,
    prev_b: u64,
)
    requires
        reduction(a, target_a as int) is Some,
        reduction(a, target_a as int) == reduction(b, target_b as int),
    ensures
        ({
            let (hash_a, _) = processing(a, target_a, sigma_a, prev_a)->0;
            let (hash_b, _) = processing(b, target_b, sigma_b, prev_b)->0;
            hash_a == hash_b
        }),
{
}

/// The picture that is shown is the reduced one, blurred over the nearest whole number of
/// pixels, one at least.
pub proof fn law_picture_is_the_reduction_blurred(
    frame: Frame,
    target_w: usize,
    sigma_tenths: u32,
    prev_hash: u64,
    r: int,
)
    requires
        r >= 1,
        r == 1 || 10 * r - 5 <= sigma_tenths,
        sigma_tenths < 10 * r + 5,
    ensures
        processing(frame, target_w, sigma_tenths, prev_hash) matches Some((_, Some(image))) ==> {
            let reduced = reduction(frame, target_w as int)->0;
            &&& image.w == reduced.w
            &&& image.h == reduced.h
            &&& image.rgb == blurred(reduced.rgb, reduced.w, reduced.h, r)
        },
{
    assert((sigma_tenths + 5) / 10 == r || r == 1);
}

/// The 64-bit FNV-1a hash of numbers: each is mixed in by exclusive or, and the whole then
/// multiplied by the FNV prime.
pub open spec fn fnv_1a(words: Seq<u64>) -> u64
    decreases words.len(),
{
    if words.len() == 0 {
        14695981039346656037
    } else {
        ((fnv_1a(words.drop_last()) ^ words.last()) * 1099511628211 % 0x1_0000_0000_0000_0000)
            as u64
    }
}

/// The pixels of packed RGB bytes as numbers, red highest.
pub open spec fn words_of(rgb: Seq<u8>) -> Seq<u64> {
    Seq::new(
        rgb.len() / 3,
        |i: int| (rgb[i * 3] * 65536 + rgb[i * 3 + 1] * 256 + rgb[i * 3 + 2]) as u64,
    )
}

proof fn lemma_hash_is_fnv(rgb: Seq<u8>, n: int)
    requires
        0 <= n <= rgb.len() / 3,
    ensures
        content_hash(rgb, n) == fnv_1a(words_of(rgb).take(n)),
    decreases n,
{
    let words = words_of(rgb);
    if n > 0 {
        lemma_hash_is_fnv(rgb, n - 1);
        assert(words.take(n).drop_last() =~= words.take(n - 1));
        assert(words.take(n).last() == pixel_word(rgb, n - 1));
    } else {
        assert(words.take(0) =~= Seq::<u64>::empty());
    }
}

/// The hash of a frame is the FNV-1a hash of all the pixels of its reduced picture, in
/// order.
pub proof fn law_hash_is_fnv_1a(
    frame: Frame,
    target_w: usize,
    sigma_tenths: u32,
    prev_hash: u64,
)
    ensures
        processing(frame, target_w, sigma_tenths, prev_hash) matches Some((hash, _)) ==> hash
            == fnv_1a(words_of(reduction(frame, target_w as int)->0.rgb)),
{
    if reduction(frame, target_w as int) is Some {
        law_size_of_the_picture(frame, target_w as int);
        let image = reduction(frame, target_w as int)->0;
        let n = image.w * image.h;
        assert(0 <= n) by (nonlinear_arith)
            requires
                n == image.w * image.h,
                0 <= image.w,
                0 <= image.h,
        ;
        lemma_hash_is_fnv(image.rgb, n);
        assert(words_of(image.rgb).take(n) =~= words_of(image.rgb));
    }
}

/// Multiplying by the hash's odd factor loses nothing.
proof fn lemma_factor_is_reversible(a: u64, b: u64)
    requires
        a.wrapping_mul(0x0000_0100_0000_01B3) == b.wrapping_mul(0x0000_0100_0000_01B3),
    ensures
        a == b,
{
    let (p, q, m) = (0x0000_0100_0000_01B3int, 0xce96_5057_aff6_957bint, 0x1_0000_0000_0000_0000int);
    assert((a * p) % m == (b * p) % m);
    assert((((a * p) % m) * q) % m == ((a * p) * q) % m) by {
        vstd::arithmetic::div_mod::lemma_mul_mod_noop_left(a * p, q, m);
    }
    assert((((b * p) % m) * q) % m == ((b * p) * q) % m) by {
        vstd::arithmetic::div_mod::lemma_mul_mod_noop_left(b * p, q, m);
    }
    assert(p * q == m * 887285111055 + 1);
    lemma_unfactored(a as int, p, q, m);
    lemma_unfactored(b as int, p, q, m);
}

proof fn lemma_unfactored(a: int, p: int, q: int, m: int)
    requires
        0 <= a < m,
        p * q == m * 887285111055 + 1,
    ensures
        ((a * p) * q) % m == a,
{
    assert((a * p) * q == m * (a * 887285111055) + a) by (nonlinear_arith)
        requires
            p * q == m * 887285111055 + 1,
    ;
    vstd::arithmetic::div_mod::lemma_mod_multiples_vanish(a * 887285111055, a, m);
    vstd::arithmetic::div_mod::lemma_small_mod(a as nat, m as nat);
}

/// From the first difference on, hashes of pictures that agree from there stay different.
proof fn lemma_hash_differs(a: Seq<u8>, b: Seq<u8>, i: int, n: int)
    requires
        0 <= i,
        pixel_word(a, i) != pixel_word(b, i),
        forall|k: int| 0 <= k < n && k != i ==> #[trigger] pixel_word(a, k) == pixel_word(b, k),
    ensures
        n <= i ==> content_hash(a, n) == content_hash(b, n),
        n > i ==> content_hash(a, n) != content_hash(b, n),
    decreases n,
{
    if n > 0 {
        lemma_hash_differs(a, b, i, n - 1);
        let (ha, hb) = (content_hash(a, n - 1), content_hash(b, n - 1));
        let (wa, wb) = (pixel_word(a, n - 1), pixel_word(b, n - 1));
        if n > i {
            assert((ha == hb) != (wa == wb));
            assert(ha ^ wa != hb ^ wb) by (bit_vector)
                requires
                    (ha == hb) != (wa == wb),
            ;
            if content_hash(a, n) == content_hash(b, n) {
                lemma_factor_is_reversible(ha ^ wa, hb ^ wb);
            }
        }
    }
}

/// A change is seen: a frame whose reduced picture differs from that of the frame before
/// in a single pixel, in whichever channel, is never taken for it, and is shown.
pub proof fn law_change_of_a_pixel_is_shown(
    before: Frame,
    after: Frame,
    target_w: usize,
    sigma_tenths: u32,
    prev_hash: u64,
    i: int,
    c: int,
)
    requires
        reduction(before, target_w as int) is Some,
        reduction(after, target_w as int) is Some,
        ({
            let (a, b) = (
                reduction(before, target_w as int)->0,
                reduction(after, target_w as int)->0,
            );
            &&& a.w == b.w
            &&& a.h == b.h
            &&& 0 <= i < a.w * a.h
            &&& 0 <= c < 3
            &&& a.rgb[i * 3 + c] != b.rgb[i * 3 + c]
            &&& forall|j: int|
                0 <= j < a.w * a.h * 3 && j / 3 != i ==> #[trigger] a.rgb[j] == b.rgb[j]
        }),
    ensures
        ({
            let (hash, _) = processing(before, target_w, sigma_tenths, prev_hash)->0;
            processing(after, target_w, sigma_tenths, hash) matches Some((_, Some(_)))
        }),
{
    let (a, b) = (reduction(before, target_w as int)->0, reduction(after, target_w as int)->0);
    let n = a.w * a.h;
    assert(pixel_word(a.rgb, i) != pixel_word(b.rgb, i));
    assert forall|k: int| 0 <= k < n && k != i implies #[trigger] pixel_word(a.rgb, k)
        == pixel_word(b.rgb, k) by {
        assert(a.rgb[k * 3] == b.rgb[k * 3]);
        assert(a.rgb[k * 3 + 1] == b.rgb[k * 3 + 1]);
        assert(a.rgb[k * 3 + 2] == b.rgb[k * 3 + 2]);
    }
    lemma_hash_differs(a.rgb, b.rgb, i, n);
}

} // verus!
