use server::mime_type::{mime_type, UNKNOWN_BINARY_MIME};

#[test]
fn test_known_extensions() {
    assert_eq!(mime_type("file.txt"), "text/plain");
    assert_eq!(mime_type("index.html"), "text/html");
    assert_eq!(mime_type("styles.css"), "text/css");
    assert_eq!(mime_type("script.js"), "text/javascript");
    assert_eq!(mime_type("image.png"), "image/png");
    assert_eq!(mime_type("vector.svg"), "image/svg+xml");
    assert_eq!(mime_type("photo.jpg"), "image/jpeg");
    assert_eq!(mime_type("picture.jpeg"), "image/jpeg");
    assert_eq!(mime_type("graphic.webp"), "image/webp");
}

#[test]
fn test_unknown_extension() {
    assert_eq!(mime_type("file.unknown"), UNKNOWN_BINARY_MIME);
    assert_eq!(mime_type("document.doc"), UNKNOWN_BINARY_MIME);
    assert_eq!(mime_type("archive.zip"), UNKNOWN_BINARY_MIME);
    assert_eq!(mime_type("README"), UNKNOWN_BINARY_MIME);
    assert_eq!(mime_type("Makefile"), UNKNOWN_BINARY_MIME);
}

#[test]
fn extension_is_taken_from_the_file_name_only() {
    assert_eq!(mime_type("./static/index.html"), "text/html");
    assert_eq!(mime_type("assets.v2/README"), UNKNOWN_BINARY_MIME);
    assert_eq!(mime_type("dir/archive.tar.css"), "text/css");
}

#[test]
fn leading_dot_is_no_extension() {
    assert_eq!(mime_type(".txt"), UNKNOWN_BINARY_MIME);
    assert_eq!(mime_type("static/.html"), UNKNOWN_BINARY_MIME);
    assert_eq!(mime_type(".hidden.png"), "image/png");
}

#[test]
fn all_jpeg_spellings_and_case() {
    assert_eq!(mime_type("a.jfif"), "image/jpeg");
    assert_eq!(mime_type("a.pjpeg"), "image/jpeg");
    assert_eq!(mime_type("a.pjp"), "image/jpeg");
    assert_eq!(mime_type("a.PNG"), UNKNOWN_BINARY_MIME);
    assert_eq!(mime_type("a."), UNKNOWN_BINARY_MIME);
}

#[test]
fn trailing_separators_and_dot_components_are_skipped() {
    assert_eq!(mime_type("a.txt/"), "text/plain");
    assert_eq!(mime_type("a.txt/."), "text/plain");
    assert_eq!(mime_type("static/a.txt//./"), "text/plain");
    assert_eq!(mime_type("static//index.html"), "text/html");
}

#[test]
fn paths_without_file_name_have_no_extension() {
    assert_eq!(mime_type("/"), UNKNOWN_BINARY_MIME);
    assert_eq!(mime_type(""), UNKNOWN_BINARY_MIME);
    assert_eq!(mime_type("."), UNKNOWN_BINARY_MIME);
    assert_eq!(mime_type(".."), UNKNOWN_BINARY_MIME);
    assert_eq!(mime_type("a.txt/.."), UNKNOWN_BINARY_MIME);
    assert_eq!(mime_type("./"), UNKNOWN_BINARY_MIME);
}
