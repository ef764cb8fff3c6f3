use vstd::prelude::*;

verus! {

/// The three paths one mosaic run needs: the target image to reproduce, the
/// folder of candidate source images, and where to write the result.
#[derive(Debug)]
pub struct Arguments {
    pub input_image_path: String,
    pub source_image_path: String,
    pub output_image_path: String,
}

} // verus!
