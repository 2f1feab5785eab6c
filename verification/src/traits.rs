//! The two kinds of metadata that every image format of this library can
//! carry: an ICC profile and EXIF metadata.

use crate::buf::octets;
use bytes::Bytes;
use vstd::prelude::*;

verus! {

/// The bytes of a buffer that may be absent.
pub open spec fn opt_octets(b: Option<Bytes>) -> Option<Seq<u8>> {
    match b {
        Some(b) => Some(octets(b)),
        None => None,
    }
}

/// Trait to read and write the raw ICC profile of an image
pub trait ImageICC: Sized {
    /// The ICC profile that the image carries.
    spec fn spec_icc_profile(&self) -> Option<Seq<u8>>;

    /// Whether the image has the place at which `profile` is to stand.
    spec fn accepts_icc_profile(&self, profile: Option<Seq<u8>>) -> bool;

    /// Whether `after` is this image with its ICC profile replaced by
    /// `profile`.
    spec fn icc_profile_replaced(&self, profile: Option<Seq<u8>>, after: &Self) -> bool;

    /// Whether `profile` can be given to this image with
    /// [`set_icc_profile`][Self::set_icc_profile].
    fn can_set_icc_profile(&self, profile: &Option<Bytes>) -> (r: bool)
        ensures
            r == self.accepts_icc_profile(opt_octets(*profile)),
    ;

    /// Get the raw ICC profile of this image
    fn icc_profile(&self) -> (r: Option<Bytes>)
        ensures
            opt_octets(r) == self.spec_icc_profile(),
    ;

    /// Overwrites the pre-existing ICC profile of this image.
    ///
    /// Removes any pre-existing ICC profile from this image.
    /// Adds a new ICC profile if `profile` is `Some`.
    fn set_icc_profile(&mut self, profile: Option<Bytes>)
        requires
            old(self).accepts_icc_profile(opt_octets(profile)),
        ensures
            old(self).icc_profile_replaced(opt_octets(profile), final(self)),
    ;
}

/// Trait to read and write the raw EXIF metadata of an image
pub trait ImageEXIF: Sized {
    /// The EXIF metadata that the image carries.
    spec fn spec_exif(&self) -> Option<Seq<u8>>;

    /// Whether the image has the place at which `exif` is to stand.
    spec fn accepts_exif(&self, exif: Option<Seq<u8>>) -> bool;

    /// Whether `after` is this image with its EXIF metadata replaced by
    /// `exif`.
    spec fn exif_replaced(&self, exif: Option<Seq<u8>>, after: &Self) -> bool;

    /// Whether `exif` can be given to this image with
    /// [`set_exif`][Self::set_exif].
    fn can_set_exif(&self, exif: &Option<Bytes>) -> (r: bool)
        ensures
            r == self.accepts_exif(opt_octets(*exif)),
    ;

    /// Get the raw EXIF metadata of this image
    fn exif(&self) -> (r: Option<Bytes>)
        ensures
            opt_octets(r) == self.spec_exif(),
    ;

    /// Overwrites the pre-existing EXIF metadata of this image.
    ///
    /// Removes any pre-existing EXIF metadata from this image.
    /// Adds new EXIF metadata if `exif` is `Some`.
    fn set_exif(&mut self, exif: Option<Bytes>)
        requires
            old(self).accepts_exif(opt_octets(exif)),
        ensures
            old(self).exif_replaced(opt_octets(exif), final(self)),
    ;
}

} // verus!
