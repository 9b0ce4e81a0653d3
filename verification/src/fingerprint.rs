//! Perceptual difference hash of an image.
//!
//! An image is decoded, reduced to a single luminance channel, and downscaled
//! with a smoothing filter to a signature of `IMG_HEIGHT` rows of
//! `IMG_WIDTH + 1` samples. Each of the `IMG_WIDTH * IMG_HEIGHT` fingerprint
//! bits records whether one sample is strictly brighter than its right
//! neighbour, scanning row-major. Identical bytes always yield identical
//! fingerprints; the length never depends on the input resolution.

use vstd::prelude::*;

verus! {

use crate::IMG_SIZE;

/// Whether the image decoder accepts these bytes as an image.
pub uninterp spec fn decodes(bytes: Seq<u8>) -> bool;

/// The luminance signature of a decodable image: `IMG_HEIGHT` rows of
/// `IMG_WIDTH + 1` downscaled luminance samples, row-major, 153 in all.
pub uninterp spec fn luminance_signature(bytes: Seq<u8>) -> Seq<u8>;

/// Relies on `image::load_from_memory` (fails exactly on bytes that are no
/// image), `image::imageops::grayscale` and `image::imageops::resize` with the
/// triangle filter: all are functions of the pixel data alone, and `resize`
/// always returns a buffer of the requested 17 x 9 dimensions, so the raw
/// single-channel samples number exactly 153.
#[verifier::external_body]
pub fn to_grey_signature_image(bytes: &Vec<u8>) -> (r: Option<Vec<u8>>)
    ensures
        r is Some <==> decodes(bytes@),
        r matches Some(sig) ==> sig@ == luminance_signature(bytes@) && sig@.len() == 153,
{
    match image::load_from_memory(bytes) {
        Ok(img) => {
            let grey = image::imageops::grayscale(&img);
            let sig =
                image::imageops::resize(&grey, 17, 9, image::imageops::FilterType::Triangle);
            Some(sig.into_raw())
        }
        Err(_) => None,
    }
}

/// The bit at position `i` compares the sample at row `i / 16`, column
/// `i % 16` of the 17-sample-wide signature with its right neighbour.
pub open spec fn fingerprint_bits(sig: Seq<u8>) -> Seq<bool>
    recommends
        sig.len() == 153,
{
    Seq::new(IMG_SIZE as nat, |i: int| sig[(i / 16) * 17 + i % 16] > sig[(i / 16) * 17 + i % 16 + 1])
}

/// The fingerprint that an image with these bytes hashes to.
pub open spec fn fingerprint_of(bytes: Seq<u8>) -> Seq<bool> {
    fingerprint_bits(luminance_signature(bytes))
}

/// A fixed-length bit vector summarizing an image's coarse luminance
/// gradient; two captures with equal fingerprints are treated as duplicates.
pub struct Fingerprint {
    bits: Vec<bool>,
}

impl View for Fingerprint {
    type V = Seq<bool>;

    closed spec fn view(&self) -> Seq<bool> {
        self.bits@
    }
}

impl Fingerprint {
    /// A fingerprint always carries exactly `IMG_SIZE` bits.
    pub open spec fn wf(&self) -> bool {
        self@.len() == IMG_SIZE
    }

    /// How many bits this fingerprint carries.
    pub fn num_bits(&self) -> (r: usize)
        ensures
            r == self@.len(),
    {
        self.bits.len()
    }

    /// Bitwise equality of two fingerprints.
    pub fn equals(&self, other: &Fingerprint) -> (r: bool)
        ensures
            r == (self@ == other@),
    {
        if self.bits.len() != other.bits.len() {
            assert(self@.len() != other@.len());
            return false;
        }
        let n = self.bits.len();
        let mut i: usize = 0;
        while i < n
            invariant
                n == self@.len() == other@.len(),
                i <= n,
                forall|j: int| 0 <= j < i ==> self@[j] == other@[j],
            decreases n - i,
        {
            if self.bits[i] != other.bits[i] {
                return false;
            }
            i += 1;
        }
        proof {
            assert(self@ =~= other@);
        }
        true
    }
}

/// Turn a 153-sample luminance signature into the 144 gradient bits.
fn dhash_bits(sig: &Vec<u8>) -> (r: Fingerprint)
    requires
        sig@.len() == 153,
    ensures
        r@ == fingerprint_bits(sig@),
        r.wf(),
{
    let mut bits: Vec<bool> = Vec::new();
    let mut i: usize = 0;
    while i < IMG_SIZE
        invariant
            sig@.len() == 153,
            i <= IMG_SIZE,
            bits@.len() == i,
            forall|j: int| 0 <= j < i ==> bits@[j] == fingerprint_bits(sig@)[j],
        decreases IMG_SIZE - i,
    {
        let row: usize = i / 16;
        let col: usize = i % 16;
        let left = sig[row * 17 + col];
        let right = sig[row * 17 + col + 1];
        bits.push(left > right);
        i += 1;
    }
    proof {
        assert(bits@ =~= fingerprint_bits(sig@));
    }
    Fingerprint { bits }
}

/// Hash an image's bytes to its fingerprint; `None` exactly when the bytes
/// do not decode as an image.
pub fn get_dhash(bytes: &Vec<u8>) -> (r: Option<Fingerprint>)
    ensures
        r is Some <==> decodes(bytes@),
        r matches Some(fp) ==> fp@ == fingerprint_of(bytes@) && fp.wf(),
{
    match to_grey_signature_image(bytes) {
        None => None,
        Some(sig) => Some(dhash_bits(&sig)),
    }
}

/// Hashing is deterministic: the fingerprint is a function of the image
/// bytes alone (so hashing the same bytes twice yields bit-identical
/// fingerprints), and its length is always `IMG_SIZE` bits, whatever the
/// resolution of the input image.
pub proof fn lemma_fingerprint_deterministic(a: Seq<u8>, b: Seq<u8>)
    requires
        a == b,
    ensures
        fingerprint_of(a) == fingerprint_of(b),
        fingerprint_of(a).len() == IMG_SIZE,
{
}

} // verus!
