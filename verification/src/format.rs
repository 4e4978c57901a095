//! Choosing an image file format from the extension of a path.

use vstd::prelude::*;

verus! {

/// The image file formats that can be selected by a file extension.
#[derive(Clone, Copy, Debug, PartialEq, Eq, Structural)]
pub enum ImageFormat {
    Jpeg,
    Png,
    Gif,
    WebP,
    Bmp,
}

/// What `std::path::Path::extension` returns for the path with this text, on
/// the platform the library is built for.
pub uninterp spec fn path_extension(path: Seq<char>) -> Option<Seq<char>>;

/// What `str::to_lowercase` returns for this text.
pub uninterp spec fn lowercase(text: Seq<char>) -> Seq<char>;

/// The format selected by an extension that is already in lower case.
pub open spec fn format_of_extension(ext: Seq<char>) -> Option<ImageFormat> {
    if ext == "jpg"@ || ext == "jpeg"@ {
        Some(ImageFormat::Jpeg)
    } else if ext == "png"@ {
        Some(ImageFormat::Png)
    } else if ext == "gif"@ {
        Some(ImageFormat::Gif)
    } else if ext == "webp"@ {
        Some(ImageFormat::WebP)
    } else if ext == "bmp"@ {
        Some(ImageFormat::Bmp)
    } else {
        None
    }
}

/// The format selected by a path: that of its extension, compared without
/// regard to case. `None` where the path has no extension or the extension
/// names no known format.
pub open spec fn format_of_path(path: Seq<char>) -> Option<ImageFormat> {
    match path_extension(path) {
        Some(ext) => format_of_extension(lowercase(ext)),
        None => None,
    }
}

/// Calls `std::path::Path::extension` on the path and hands the extension out
/// as an owned string. Trusted: the result is the one named by
/// [`path_extension`]. The path is valid UTF-8, so the extension is too.
#[verifier::external_body]
fn extension_of(path: &String) -> (r: Option<String>)
    ensures
        r is Some <==> path_extension(path@) is Some,
        r is Some ==> r->Some_0@ == path_extension(path@)->Some_0,
{
    std::path::Path::new(path).extension().and_then(|e| e.to_str()).map(|s| s.to_string())
}

/// Calls `str::to_lowercase`. Trusted: the result is the one named by
/// [`lowercase`].
#[verifier::external_body]
fn to_lowercase(text: &String) -> (r: String)
    ensures
        r@ == lowercase(text@),
{
    text.to_lowercase()
}

/// Calls `==` of `str`. Trusted: two strings are equal exactly when they hold
/// the same characters.
#[verifier::external_body]
pub(crate) fn str_eq(a: &str, b: &str) -> (r: bool)
    ensures
        r == (a@ == b@),
{
    a == b
}

/// Selects the format for an extension given in lower case.
pub fn format_for_extension(ext: &str) -> (r: Option<ImageFormat>)
    ensures
        r == format_of_extension(ext@),
{
    if str_eq(ext, "jpg") || str_eq(ext, "jpeg") {
        Some(ImageFormat::Jpeg)
    } else if str_eq(ext, "png") {
        Some(ImageFormat::Png)
    } else if str_eq(ext, "gif") {
        Some(ImageFormat::Gif)
    } else if str_eq(ext, "webp") {
        Some(ImageFormat::WebP)
    } else if str_eq(ext, "bmp") {
        Some(ImageFormat::Bmp)
    } else {
        None
    }
}

/// Selects the format for a path whose extension names a known format.
pub fn path_to_image_format(path: &String) -> (r: ImageFormat)
    requires
        format_of_path(path@) is Some,
    ensures
        format_of_path(path@) == Some(r),
{
    match extension_of(path) {
        Some(e) => {
            let lower = to_lowercase(&e);
            match format_for_extension(lower.as_str()) {
                Some(f) => f,
                None => unreached(),
            }
        },
        None => unreached(),
    }
}

/// Selects the format for any path: `None` where the path has no extension or
/// the extension names no known format.
pub fn try_path_to_image_format(path: &String) -> (r: Option<ImageFormat>)
    ensures
        r == format_of_path(path@),
{
    match extension_of(path) {
        Some(e) => {
            let lower = to_lowercase(&e);
            if format_for_extension(lower.as_str()).is_some() {
                Some(path_to_image_format(path))
            } else {
                None
            }
        },
        None => None,
    }
}

} // verus!
