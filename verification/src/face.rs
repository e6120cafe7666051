//! Faces as they are found in a photo.
use crate::single::Single;
use vstd::prelude::*;

verus! {

/// Where a face lies in a photo, in pixels, and how sure the network is of it.
#[derive(Debug, Clone)]
pub struct FaceBox {
    pub x: Single,
    pub y: Single,
    pub width: Single,
    pub height: Single,
    pub confidence: Single,
    /// Eyes, nose tip and mouth corners, where they are known.
    pub landmarks: Option<Vec<(Single, Single)>>,
}

/// A face with its embedding, a vector of length one that is alike for faces of one person.
#[derive(Debug, Clone)]
pub struct FaceData {
    pub bbox: FaceBox,
    pub embedding: Vec<Single>,
}

} // verus!
