use vstd::prelude::*;

verus! {

#[verifier::external_type_specification]
#[verifier::external_body]
pub struct ExIoError(std::io::Error);

#[verifier::external_type_specification]
#[verifier::external_body]
pub struct ExImageError(image::ImageError);

/// What made writing an image fail.
#[derive(Debug)]
pub enum WriteCause {
    /// A file system error.
    Io(std::io::Error),
    /// An error of the image encoder.
    Image(image::ImageError),
}

/// The image could not be written: the file could not be created or
/// written, or the pixels could not be encoded. Holds the underlying error.
#[derive(Debug)]
pub struct WriteImageError {
    pub cause: WriteCause,
}

impl WriteImageError {
    /// The message shown to a user.
    pub fn message(&self) -> (r: String)
        ensures
            r@ == "Failed to write image to file."@,
    {
        proof {
            reveal_strlit("Failed to write image to file.");
        }
        String::from_str("Failed to write image to file.")
    }
}

impl From<std::io::Error> for WriteImageError {
    fn from(error: std::io::Error) -> (r: WriteImageError) {
        WriteImageError { cause: WriteCause::Io(error) }
    }
}

impl vstd::std_specs::convert::FromSpecImpl<std::io::Error> for WriteImageError {
    open spec fn obeys_from_spec() -> bool {
        true
    }

    open spec fn from_spec(v: std::io::Error) -> WriteImageError {
        WriteImageError { cause: WriteCause::Io(v) }
    }
}

impl From<image::ImageError> for WriteImageError {
    fn from(error: image::ImageError) -> (r: WriteImageError) {
        WriteImageError { cause: WriteCause::Image(error) }
    }
}

impl vstd::std_specs::convert::FromSpecImpl<image::ImageError> for WriteImageError {
    open spec fn obeys_from_spec() -> bool {
        true
    }

    open spec fn from_spec(v: image::ImageError) -> WriteImageError {
        WriteImageError { cause: WriteCause::Image(v) }
    }
}

} // verus!
