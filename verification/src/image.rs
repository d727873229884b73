use vstd::prelude::*;

verus! {

/// Why an evidence buffer could not be built.
#[derive(Clone, Copy, Debug, PartialEq, Eq, Structural)]
pub enum ImageError {
    /// The pixel buffer does not hold `width * height * 3` bytes.
    DataSizeMismatch,
    /// A projection entry names a pixel outside `width * height`.
    ProjectionOutOfFrame,
}

/// One camera's evidence: its photograph, its claim mask, and where each
/// voxel center of the grid lands on its film.
///
/// `data` is the decoded photograph, row-major, three bytes per pixel.
/// `marked` is the claim mask: once a pixel is claimed by a consistent
/// voxel it stays claimed for the rest of the run, starving voxels farther
/// from the camera of that pixel's opinion.  `projection[i]` is the pixel
/// that the center of grid cell `i` projects onto, or `None` when the cell
/// projects out of frame; the host computes it from the camera's view and
/// projection matrices, which only it can hold.  `look_x`, `look_y` and
/// `look_z` are the signs of the camera's look vector along each axis; a
/// sweep reads nothing else of the camera's pose.
pub struct Image {
    pub data: Vec<u8>,
    pub marked: Vec<bool>,
    pub width: usize,
    pub height: usize,
    pub look_x: i8,
    pub look_y: i8,
    pub look_z: i8,
    pub projection: Vec<Option<usize>>,
}

impl Image {
    /// The buffers agree with the stated dimensions and every projection
    /// entry names a real pixel.
    pub open spec fn wf(&self) -> bool {
        &&& self.width * self.height * 3 <= usize::MAX
        &&& self.data@.len() == self.width * self.height * 3
        &&& self.marked@.len() == self.width * self.height
        &&& forall|i: int|
            0 <= i < self.projection@.len() ==> ((#[trigger] self.projection@[i]) matches Some(p)
                ==> p < self.width * self.height)
    }

    /// Build an evidence buffer around a decoded photograph.  The claim
    /// mask starts all-unclaimed.  Construction fails — rather than
    /// producing a silently defaulted buffer — exactly when the pixel
    /// buffer's length does not match the dimensions, or a projection
    /// entry points out of frame.
    pub fn new(
        data: Vec<u8>,
        width: usize,
        height: usize,
        look_x: i8,
        look_y: i8,
        look_z: i8,
        projection: Vec<Option<usize>>,
    ) -> (result: Result<Image, ImageError>)
        requires
            width * height * 3 <= usize::MAX,
        ensures
            match result {
                Ok(image) => {
                    &&& image.wf()
                    &&& image.data@ == data@
                    &&& image.width == width
                    &&& image.height == height
                    &&& image.look_x == look_x
                    &&& image.look_y == look_y
                    &&& image.look_z == look_z
                    &&& image.projection@ == projection@
                    &&& image.marked@.len() == width * height
                    &&& forall|p: int| 0 <= p < image.marked@.len() ==> !image.marked@[p]
                },
                Err(e) => {
                    &&& (data@.len() != width * height * 3 || exists|i: int|
                        0 <= i < projection@.len() && ((#[trigger] projection@[i]) matches Some(p)
                            && p >= width * height))
                    &&& (e == ImageError::DataSizeMismatch <==> data@.len() != width * height * 3)
                },
            },
            result is Err <==> (data@.len() != width * height * 3 || exists|i: int|
                0 <= i < projection@.len() && ((#[trigger] projection@[i]) matches Some(p) && p
                    >= width * height)),
    {
        proof {
            vstd::arithmetic::mul::lemma_mul_nonnegative(width as int, height as int);
        }
        let pixel_count = width * height;
        if data.len() != pixel_count * 3 {
            return Err(ImageError::DataSizeMismatch);
        }
        let mut i: usize = 0;
        while i < projection.len()
            invariant
                pixel_count == width * height,
                data@.len() == width * height * 3,
                forall|k: int|
                    0 <= k < i ==> ((#[trigger] projection@[k]) matches Some(p) ==> p < width
                        * height),
                i <= projection@.len(),
            decreases projection@.len() - i,
        {
            let entry: Option<usize> = projection[i];
            if let Some(p) = entry {
                if p >= pixel_count {
                    proof {
                        assert((projection@[i as int]) matches Some(q) && q >= width * height);
                        assert(exists|k: int|
                            0 <= k < projection@.len() && ((#[trigger] projection@[k]) matches Some(
                                q,
                            ) && q >= width * height));
                    }
                    return Err(ImageError::ProjectionOutOfFrame);
                }
            }
            i = i + 1;
        }
        let mut marked: Vec<bool> = Vec::new();
        let mut m: usize = 0;
        while m < pixel_count
            invariant
                marked@.len() == m,
                m <= pixel_count,
                forall|p: int| 0 <= p < m ==> !marked@[p],
            decreases pixel_count - m,
        {
            marked.push(false);
            m = m + 1;
        }
        Ok(Image { data, marked, width, height, look_x, look_y, look_z, projection })
    }
}

} // verus!
