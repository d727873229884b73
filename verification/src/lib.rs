//! Photo-consistency space carving.
//!
//! A solid's approximate shape is reconstructed from calibrated photographs
//! by starting from a dense cubic voxel grid and repeatedly carving away
//! cells that are inconsistent with what the photographs show.  The carving
//! engine itself — grid addressing and visibility, pixel-claim bookkeeping,
//! color-consistency judging, and the six-direction sweep loop — is verified
//! here.  Building cameras, projecting voxel centers through their float
//! matrices, decoding image files and exporting meshes are left to the
//! host program, which hands this library plain values.

pub mod carver;
pub mod color;
pub mod image;
pub mod voxel;
