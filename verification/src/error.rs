use vstd::prelude::*;

verus! {

/// The error type of the `image` crate, carried through unchanged.
#[verifier::external_type_specification]
#[verifier::external_body]
pub struct ExImageError(image::ImageError);

/// Errors of the pixel snapper.
#[derive(Debug)]
pub enum PixelSnapperError {
    /// Decoding or encoding failed in the `image` crate.
    ImageError(image::ImageError),
    /// The caller's input was rejected.
    InvalidInput(String),
    /// A step of the pipeline could not be carried out.
    ProcessingError(String),
}

/// Calls the `Display` implementation of `image::ImageError`. Trusted for
/// nothing: no clause is stated of the text it returns.
#[verifier::external_body]
fn image_error_text(e: &image::ImageError) -> String {
    format!("{}", e)
}

impl PixelSnapperError {
    /// The human-readable message of the error: a prefix naming the kind of
    /// error, then its detail.
    pub fn message(&self) -> (m: String)
        ensures
            self matches PixelSnapperError::InvalidInput(d) ==> m@ == "Invalid input: "@ + d@,
            self matches PixelSnapperError::ProcessingError(d) ==> m@ == "Processing error: "@ + d@,
            self matches PixelSnapperError::ImageError(_) ==> m@.len() >= "Image error: "@.len()
                && m@.subrange(0, "Image error: "@.len() as int) == "Image error: "@,
    {
        match self {
            PixelSnapperError::ImageError(e) => {
                let mut m = String::from_str("Image error: ");
                let detail = image_error_text(e);
                m.append(detail.as_str());
                proof {
                    assert(m@.subrange(0, "Image error: "@.len() as int) =~= "Image error: "@);
                }
                m
            },
            PixelSnapperError::InvalidInput(d) => {
                let mut m = String::from_str("Invalid input: ");
                m.append(d.as_str());
                m
            },
            PixelSnapperError::ProcessingError(d) => {
                let mut m = String::from_str("Processing error: ");
                m.append(d.as_str());
                m
            },
        }
    }
}

} // verus!
