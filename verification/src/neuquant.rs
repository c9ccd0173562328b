//! The NeuQuant network of the `color_quant` crate, as the quantizer uses it.
//!
//! Training is a floating-point neural-network algorithm, so what it produces
//! is named here rather than stated: the contracts below say which inputs a
//! trained network and its lookups are a function of, and the shapes of the
//! results.

use vstd::prelude::*;
use color_quant::NeuQuant;

verus! {

#[verifier::external_type_specification]
#[verifier::external_body]
pub struct ExNeuQuant(NeuQuant);

/// The RGBA colour map (4 bytes per entry, in lookup-index order) that
/// `NeuQuant::new(samplefac, colors, pixels)` trains.
pub uninterp spec fn neuquant_trained_map(samplefac: i32, colors: usize, pixels: Seq<u8>) -> Seq<
    u8,
>;

/// The RGBA colour map a trained network holds (4 bytes per entry).
pub uninterp spec fn neuquant_map(nq: NeuQuant) -> Seq<u8>;

/// The colour-map index `NeuQuant::index_of` answers for an RGBA pixel, which
/// depends only on the colour map and the pixel.
pub uninterp spec fn neuquant_search(map: Seq<u8>, pixel: Seq<u8>) -> usize;

/// An RGBA colour map without its alpha bytes.
pub open spec fn rgb_of(map: Seq<u8>) -> Seq<u8> {
    Seq::new((map.len() / 4) * 3, |i: int| map[(i / 3) * 4 + i % 3])
}

/// `NeuQuant::new`: trains a network of `colors` entries on the RGBA stream
/// `pixels`, sampling with factor `samplefac`. Claimed: the network's colour map
/// is the trained map named for these three arguments, with one 4-byte entry per
/// colour. A zero factor divides by zero in the training loop and `i32::MIN`
/// overflows in its decay computation; zero colours underflow the index build.
#[verifier::external_body]
pub(crate) fn neuquant_new(samplefac: i32, colors: usize, pixels: &[u8]) -> (nq: NeuQuant)
    requires
        samplefac != 0,
        samplefac != i32::MIN,
        1 <= colors <= 256,
    ensures
        neuquant_map(nq) == neuquant_trained_map(samplefac, colors, pixels@),
        neuquant_map(nq).len() == 4 * colors,
{
    NeuQuant::new(samplefac, colors, pixels)
}

/// `NeuQuant::index_of`: the best-matching colour-map index for an RGBA pixel.
/// Claimed: the search result named for the network's colour map and the
/// pixel; it is one of the map's entries (the search starts at a netindex
/// position and only visits positions below the network size).
#[verifier::external_body]
pub(crate) fn neuquant_index_of(nq: &NeuQuant, pixel: &[u8]) -> (i: usize)
    requires
        pixel@.len() == 4,
        neuquant_map(*nq).len() >= 4,
    ensures
        i == neuquant_search(neuquant_map(*nq), pixel@),
        i < neuquant_map(*nq).len() / 4,
{
    nq.index_of(pixel)
}

/// `NeuQuant::color_map_rgb`: the colour map as RGB triples. Claimed: the
/// network's colour map with the alpha byte of every entry dropped.
#[verifier::external_body]
pub(crate) fn neuquant_color_map_rgb(nq: &NeuQuant) -> (map: Vec<u8>)
    ensures
        map@ == rgb_of(neuquant_map(*nq)),
{
    nq.color_map_rgb()
}

} // verus!
