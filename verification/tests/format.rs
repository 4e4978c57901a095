use waifu2x::format::{
    format_for_extension, path_to_image_format, try_path_to_image_format, ImageFormat,
};

#[test]
fn known_extensions_select_their_format() {
    assert_eq!(path_to_image_format(&"a/b/pic.jpg".to_string()), ImageFormat::Jpeg);
    assert_eq!(path_to_image_format(&"pic.jpeg".to_string()), ImageFormat::Jpeg);
    assert_eq!(path_to_image_format(&"pic.png".to_string()), ImageFormat::Png);
    assert_eq!(path_to_image_format(&"pic.gif".to_string()), ImageFormat::Gif);
    assert_eq!(path_to_image_format(&"pic.webp".to_string()), ImageFormat::WebP);
    assert_eq!(path_to_image_format(&"pic.bmp".to_string()), ImageFormat::Bmp);
}

#[test]
fn extension_is_compared_without_regard_to_case() {
    assert_eq!(path_to_image_format(&"a/b/PIC.JPG".to_string()), ImageFormat::Jpeg);
    assert_eq!(try_path_to_image_format(&"photo.PnG".to_string()), Some(ImageFormat::Png));
}

#[test]
fn unknown_or_missing_extension_selects_nothing() {
    assert_eq!(try_path_to_image_format(&"a/b/pic".to_string()), None);
    assert_eq!(try_path_to_image_format(&"pic.tiff".to_string()), None);
    assert_eq!(try_path_to_image_format(&"dir.png/pic".to_string()), None);
    assert_eq!(try_path_to_image_format(&".png".to_string()), None);
}

#[test]
fn extension_given_in_lower_case_is_matched_exactly() {
    assert_eq!(format_for_extension("jpg"), Some(ImageFormat::Jpeg));
    assert_eq!(format_for_extension("JPG"), None);
    assert_eq!(format_for_extension("jpe"), None);
    assert_eq!(format_for_extension(""), None);
}
