//! Random numbers: the generator behind every random choice of the library,
//! and images of random noise.

use vstd::prelude::*;
use rand::{Rng, SeedableRng, XorShiftRng};
use crate::pixel::{Image, Rgb};

verus! {

/// The generator of random numbers. What it holds is known by `rng_words`
/// alone.
#[verifier::external_type_specification]
#[verifier::external_body]
pub struct ExXorShiftRng(XorShiftRng);

/// The four words that a generator holds, in the order in which the seed
/// gives them. What a generator draws depends on these words and on nothing
/// else.
pub uninterp spec fn rng_words(rng: XorShiftRng) -> Seq<u32>;

/// What drawing one byte does to a generator that holds `words`: the words
/// that the generator holds afterwards, and the byte that is drawn.
pub uninterp spec fn drawn_byte(words: Seq<u32>) -> (Seq<u32>, u8);

/// What a generator starts from.
pub type Seed = [u32; 4];

/// Every word of the seed is zero.
pub open spec fn spec_all_zero(seed: Seed) -> bool {
    seed[0] == 0 && seed[1] == 0 && seed[2] == 0 && seed[3] == 0
}

/// Decides whether every word of the seed is zero.
pub fn all_zero(seed: &Seed) -> (b: bool)
    ensures
        b == spec_all_zero(*seed),
{
    seed[0] == 0 && seed[1] == 0 && seed[2] == 0 && seed[3] == 0
}

/// The words are those of a generator that works: there are four of them,
/// and they are not all zero.
pub open spec fn spec_usable(words: Seq<u32>) -> bool {
    &&& words.len() == 4
    &&& !(words[0] == 0 && words[1] == 0 && words[2] == 0 && words[3] == 0)
}

/// The words that a generator holds after `n` bytes were drawn from one that
/// held `words`.
pub open spec fn spec_words_after(words: Seq<u32>, n: int) -> Seq<u32>
    decreases n,
{
    if n <= 0 {
        words
    } else {
        drawn_byte(spec_words_after(words, n - 1)).0
    }
}

/// The byte that is drawn after `k` others from a generator that held
/// `words`.
pub open spec fn spec_byte(words: Seq<u32>, k: int) -> u8 {
    drawn_byte(spec_words_after(words, k)).1
}

/// The colour made of three bytes drawn in a row, red first, after `cell`
/// colours were drawn before it from a generator that held `words`.
pub open spec fn spec_noise_pixel(words: Seq<u32>, cell: int) -> Rgb {
    Rgb {
        r: spec_byte(words, 3 * cell),
        g: spec_byte(words, 3 * cell + 1),
        b: spec_byte(words, 3 * cell + 2),
    }
}

/// `img` is the noise that a generator draws that holds `words`: its pixels
/// are drawn one after the other, column by column from the left, each column
/// from the top.
pub open spec fn spec_is_noise(img: &Image, words: Seq<u32>) -> bool {
    forall|x: int, y: int|
        img.has(x, y) ==> #[trigger] img.at(x, y) == spec_noise_pixel(
            words,
            x * img.spec_height() + y,
        )
}

/// Create a new random number generator with the specified seed.
///
/// Calls `SeedableRng::from_seed` of `XorShiftRng`, which refuses a seed that
/// is zero throughout, and makes the four words of the seed the four words
/// of the generator.
#[verifier::external_body]
pub fn new_rng(seed: Seed) -> (rng: XorShiftRng)
    requires
        !spec_all_zero(seed),
    ensures
        rng_words(rng) == seed@,
{
    SeedableRng::from_seed(seed)
}

/// Create a new unseeded random number generator, which will always return
/// the same sequence.
///
/// Calls `XorShiftRng::new_unseeded`, which gives the generator four words
/// of its own choice, the same on every call.
#[verifier::external_body]
pub fn new_deterministic_rng() -> (rng: XorShiftRng)
    ensures
        rng_words(rng) == seq![0x193a6754u32, 0xa8a7d469u32, 0x97830e05u32, 0x113ba7bbu32],
{
    XorShiftRng::new_unseeded()
}

/// A seed drawn from the thread's own generator, by `rand::random`. Any seed
/// may come back.
#[verifier::external_body]
fn random_seed() -> (seed: Seed) {
    rand::random::<Seed>()
}

/// Create a new random number generator with a random seed. The generator
/// works whatever seed was drawn: where the seed is zero throughout, the
/// generator is the unseeded one.
pub fn new_rng_random_seed() -> (rng: XorShiftRng)
    ensures
        spec_usable(rng_words(rng)),
{
    let seed = random_seed();
    if all_zero(&seed) {
        new_deterministic_rng()
    } else {
        new_rng(seed)
    }
}

/// A number drawn from `0..bound`, by `Rng::gen_range`, which refuses an
/// empty range and documents that what it returns lies in the range.
#[verifier::external_body]
pub(crate) fn below(rng: &mut XorShiftRng, bound: u32) -> (r: u32)
    requires
        bound > 0,
    ensures
        r < bound,
{
    rng.gen_range(0, bound)
}

/// A byte drawn by `Rng::gen`: the low byte of the generator's next word.
/// Both the byte and the words that the generator holds afterwards depend on
/// the words that it held, and on nothing else.
#[verifier::external_body]
fn random_byte(rng: &mut XorShiftRng) -> (b: u8)
    ensures
        (rng_words(*final(rng)), b) == drawn_byte(rng_words(*old(rng))),
{
    rng.gen()
}

/// Puts `values` in a random order, by `Rng::shuffle`, which only swaps
/// elements of the slice: the vector afterwards holds what it held before.
#[verifier::external_body]
pub(crate) fn shuffle<T>(rng: &mut XorShiftRng, values: &mut Vec<T>)
    ensures
        final(values)@.to_multiset() == old(values)@.to_multiset(),
{
    rng.shuffle(values.as_mut_slice())
}

/// One of `candidates`, chosen at random: they are shuffled, and the last
/// one is taken.
pub fn pick_random<T: Copy>(rng: &mut XorShiftRng, candidates: Vec<T>) -> (chosen: T)
    requires
        candidates@.len() > 0,
    ensures
        candidates@.contains(chosen),
{
    let mut shuffled = candidates;
    shuffle(rng, &mut shuffled);
    proof {
        shuffled@.to_multiset_ensures();
        candidates@.to_multiset_ensures();
    }
    let n = shuffled.len();
    let chosen = shuffled[n - 1];
    proof {
        assert(shuffled@.contains(shuffled@[n - 1]));
        assert(shuffled@.to_multiset().count(chosen) > 0);
        assert(candidates@.to_multiset().count(chosen) > 0);
    }
    chosen
}

/// Fill an RGB image with random noise using the specified generator.
///
/// The pixels are drawn one after the other, column by column from the left
/// and each column from the top, three bytes for each: red, green, blue. So
/// the image is fixed by the words that the generator held, and the
/// generator is left as three draws for each pixel leave it.
pub fn random_image_rgb_with_rng(img: &mut Image, rng: &mut XorShiftRng)
    requires
        old(img).wf(),
    ensures
        final(img).wf(),
        final(img).spec_width() == old(img).spec_width(),
        final(img).spec_height() == old(img).spec_height(),
        spec_is_noise(final(img), rng_words(*old(rng))),
        rng_words(*final(rng)) == spec_words_after(
            rng_words(*old(rng)),
            3 * (old(img).spec_width() * old(img).spec_height()),
        ),
{
    let width = img.width();
    let height = img.height();
    let ghost start = rng_words(*rng);
    let mut x: u32 = 0;
    proof {
        assert(0 * height == 0) by (nonlinear_arith);
    }
    while x < width
        invariant
            img.wf(),
            img.spec_width() == width,
            img.spec_height() == height,
            x <= width,
            rng_words(*rng) == spec_words_after(start, 3 * (x * height)),
            forall|a: int, b: int|
                img.has(a, b) && a < x ==> #[trigger] img.at(a, b) == spec_noise_pixel(
                    start,
                    a * height + b,
                ),
        decreases width - x,
    {
        let mut y: u32 = 0;
        while y < height
            invariant
                img.wf(),
                img.spec_width() == width,
                img.spec_height() == height,
                x < width,
                y <= height,
                rng_words(*rng) == spec_words_after(start, 3 * (x * height + y)),
                forall|a: int, b: int|
                    img.has(a, b) && (a < x || (a == x && b < y)) ==> #[trigger] img.at(a, b)
                        == spec_noise_pixel(start, a * height + b),
            decreases height - y,
        {
            let ghost cell = x * height + y;
            let r = random_byte(rng);
            assert(rng_words(*rng) == spec_words_after(start, 3 * cell + 1));
            let g = random_byte(rng);
            assert(rng_words(*rng) == spec_words_after(start, 3 * cell + 2));
            let b = random_byte(rng);
            assert(rng_words(*rng) == spec_words_after(start, 3 * cell + 3));
            img.put_pixel(x, y, Rgb { r, g, b });
            y += 1;
        }
        proof {
            assert((x + 1) * height == x * height + height) by (nonlinear_arith);
        }
        x += 1;
    }
    proof {
        assert(x * height == width * height);
    }
}

/// Fill an RGB image with random noise using a randomly seeded generator:
/// the image is the noise that some generator that works draws.
pub fn random_image_rgb(img: &mut Image)
    requires
        old(img).wf(),
    ensures
        final(img).wf(),
        final(img).spec_width() == old(img).spec_width(),
        final(img).spec_height() == old(img).spec_height(),
        exists|words: Seq<u32>| spec_usable(words) && #[trigger] spec_is_noise(final(img), words),
{
    let mut rng = new_rng_random_seed();
    let ghost words = rng_words(rng);
    random_image_rgb_with_rng(img, &mut rng);
    proof {
        assert(spec_usable(words) && spec_is_noise(img, words));
    }
}

} // verus!
