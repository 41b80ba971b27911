//! The in-memory raster image.

use crate::error::ImageError;
use vstd::prelude::*;

verus! {

/// A raster image: row-major samples, one byte each.
#[derive(Clone, Debug, PartialEq, Eq)]
pub struct IVC {
    /// The samples, row by row, the channels of a pixel side by side.
    pub data: Vec<u8>,
    /// Pixels per row.
    pub width: i32,
    /// Number of rows.
    pub height: i32,
    /// Samples per pixel: 1 (gray or bitmap) or 3 (red, green, blue).
    pub channels: i32,
    /// Number of distinct sample values: 2 for a bitmap, 256 otherwise.
    pub levels: i32,
    /// Samples per row: `width * channels`.
    pub bytesperline: i32,
}

/// What an image is, mathematically.
pub ghost struct ImageView {
    pub data: Seq<u8>,
    pub width: int,
    pub height: int,
    pub channels: int,
    pub levels: int,
    pub bytesperline: int,
}

/// The most samples an image can hold.
pub const MAX_SAMPLES: i32 = 0x7fff_ffff;

/// Whether the four numbers describe an image this library handles:
/// positive dimensions, one or three channels, two or 256 levels, and no
/// more samples in all than an `i32` counts.
pub open spec fn valid_shape(width: int, height: int, channels: int, levels: int) -> bool {
    &&& width > 0
    &&& height > 0
    &&& (channels == 1 || channels == 3)
    &&& (levels == 2 || levels == 256)
    &&& width * height * channels <= MAX_SAMPLES
}

/// In a valid shape, a row and the number of pixels are no larger than the
/// number of samples.
pub proof fn lemma_valid_shape_bounds(width: int, height: int, channels: int, levels: int)
    requires
        valid_shape(width, height, channels, levels),
    ensures
        0 < width <= width * channels <= width * height * channels,
        0 < height <= width * height <= width * height * channels,
{
    assert(0 < width <= width * channels <= width * height * channels) by (nonlinear_arith)
        requires
            width > 0,
            height > 0,
            channels == 1 || channels == 3,
    ;
    assert(0 < height <= width * height <= width * height * channels) by (nonlinear_arith)
        requires
            width > 0,
            height > 0,
            channels == 1 || channels == 3,
    ;
}

impl ImageView {
    /// The number of samples that the dimensions call for.
    pub open spec fn sample_count(self) -> int {
        self.width * self.height * self.channels
    }

    /// The header fields are consistent with one another.
    pub open spec fn shaped(self) -> bool {
        &&& valid_shape(self.width, self.height, self.channels, self.levels)
        &&& self.bytesperline == self.width * self.channels
    }

    /// The image is well formed: consistent header, and exactly as many
    /// samples as the header calls for.
    pub open spec fn wf(self) -> bool {
        &&& self.shaped()
        &&& self.data.len() == self.sample_count()
    }
}

/// What a fallible operation gave, the image taken by its view.
pub open spec fn outcome(result: Result<IVC, ImageError>) -> Result<ImageView, ImageError> {
    match result {
        Ok(image) => Ok(image@),
        Err(e) => Err(e),
    }
}

impl View for IVC {
    type V = ImageView;

    open spec fn view(&self) -> ImageView {
        ImageView {
            data: self.data@,
            width: self.width as int,
            height: self.height as int,
            channels: self.channels as int,
            levels: self.levels as int,
            bytesperline: self.bytesperline as int,
        }
    }
}

impl IVC {
    /// Well-formedness of the image, see [`ImageView::wf`].
    pub open spec fn wf(&self) -> bool {
        self@.wf()
    }

    /// A zero-filled image of the given shape.
    pub fn new(width: i32, height: i32, channels: i32, levels: i32) -> (image: IVC)
        requires
            valid_shape(width as int, height as int, channels as int, levels as int),
        ensures
            image.wf(),
            image.width == width,
            image.height == height,
            image.channels == channels,
            image.levels == levels,
            image.bytesperline == width * channels,
            image.data@ == Seq::new((width * height * channels) as nat, |i: int| 0u8),
    {
        proof {
            lemma_valid_shape_bounds(width as int, height as int, channels as int, levels as int);
        }
        let cells: usize = (width as usize) * (height as usize);
        let data_size: usize = cells * (channels as usize);
        let data: Vec<u8> = vec![0u8; data_size];
        let bytesperline: i32 = width * channels;
        IVC { data, width, height, channels, levels, bytesperline }
    }
}

} // verus!
