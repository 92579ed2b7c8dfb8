//! The beginnings of a multiresolution synthesis: so far it prepares its
//! pyramid and returns an image of random noise.

use vstd::prelude::*;
use crate::grid::{Grid, MAX_CELLS};
use crate::neighbourhood::Neighbourhood;
use crate::pixel::{Image, Rgb};
use crate::pyramid::GaussianPyramid;
use crate::random::{
    Seed,
    new_rng,
    new_rng_random_seed,
    random_image_rgb_with_rng,
    rng_words,
    spec_all_zero,
    spec_is_noise,
    spec_usable,
};

verus! {

/// Parameters of the `WeiLevoy` algorithm.
pub struct WeiLevoyParams {
    /// Size of the image to synthesize
    pub size: (u32, u32),
    /// The search neighbourhoods
    pub neighbourhoods: Vec<Neighbourhood>,
    /// Seed of the internal random number generator
    pub seed: Option<Seed>,
}

impl WeiLevoyParams {
    /// The parameters can be worked with: the image is no larger than a grid
    /// may be, and the seed, if there is one, is not zero throughout.
    pub open spec fn wf(&self) -> bool {
        &&& self.size.0 * self.size.1 <= MAX_CELLS
        &&& self.seed matches Some(s) ==> !spec_all_zero(s)
    }

    /// Create a new `WeiLevoyParams`
    pub fn new(size: (u32, u32), neighbourhoods: Vec<Neighbourhood>, seed: Option<Seed>) -> (p:
        WeiLevoyParams)
        ensures
            p.size == size,
            p.neighbourhoods == neighbourhoods,
            p.seed == seed,
    {
        WeiLevoyParams { size, neighbourhoods, seed }
    }
}

/// Per pixel texture synthesis on a pyramid of the source.
pub struct WeiLevoy {
    pyramid: GaussianPyramid,
    params: WeiLevoyParams,
}

impl WeiLevoy {
    /// The pyramid of the source.
    pub closed spec fn pyramid(&self) -> GaussianPyramid {
        self.pyramid
    }

    /// The parameters.
    pub closed spec fn params(&self) -> WeiLevoyParams {
        self.params
    }

    /// Construct a new WeiLevoy instance on the pyramid of a source.
    pub fn new(pyramid: GaussianPyramid, params: WeiLevoyParams) -> (w: WeiLevoy)
        ensures
            w.pyramid() == pyramid,
            w.params() == params,
    {
        WeiLevoy { pyramid, params }
    }

    /// An image of the size asked for, filled with random noise that follows
    /// the seed: the noise that a generator draws that holds the words of the
    /// seed, or, without a seed, some generator that works.
    pub fn synthesize(&self) -> (img: Image)
        requires
            self.params().wf(),
        ensures
            img.wf(),
            img.spec_width() == self.params().size.0,
            img.spec_height() == self.params().size.1,
            self.params().seed matches Some(seed) ==> spec_is_noise(&img, seed@),
            self.params().seed is None ==> exists|words: Seq<u32>|
                spec_usable(words) && #[trigger] spec_is_noise(&img, words),
    {
        let (w, h) = self.params.size;
        let mut res: Image = Grid::filled(w, h, Rgb { r: 0, g: 0, b: 0 }).unwrap();
        let mut rng = match self.params.seed {
            Some(seed) => new_rng(seed),
            None => new_rng_random_seed(),
        };
        let ghost words = rng_words(rng);
        random_image_rgb_with_rng(&mut res, &mut rng);
        proof {
            assert(spec_is_noise(&res, words));
        }
        res
    }
}

} // verus!
