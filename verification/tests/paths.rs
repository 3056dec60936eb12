use reader_rs::error::Error;
use reader_rs::format::{BookSource, ChapterContent, ChapterRef, Metadata};
use reader_rs::layout::paginate::{
    collapse_segments, decode_cover, demultiply_alpha, image_from_resource, is_svg, resolve_image, resolve_path, ImageSource,
};

#[test]
fn resolve_relative_simple() {
    assert_eq!(
        resolve_path("foo.png", "OEBPS/text/ch1.xhtml"),
        "OEBPS/text/foo.png"
    );
}

#[test]
fn resolve_dotdot() {
    assert_eq!(
        resolve_path("../images/foo.jpg", "OEBPS/text/ch1.xhtml"),
        "OEBPS/images/foo.jpg"
    );
}

#[test]
fn resolve_absolute() {
    assert_eq!(
        resolve_path("/OEBPS/foo.png", "OEBPS/text/ch1.xhtml"),
        "OEBPS/foo.png"
    );
}

#[test]
fn resolve_strips_fragment_and_query() {
    assert_eq!(
        resolve_path("foo.png#frag", "OEBPS/text/ch1.xhtml"),
        "OEBPS/text/foo.png"
    );
    assert_eq!(
        resolve_path("foo.png?v=1", "OEBPS/text/ch1.xhtml"),
        "OEBPS/text/foo.png"
    );
}

#[test]
fn resolve_dot_slash() {
    assert_eq!(
        resolve_path("./foo.png", "OEBPS/text/ch1.xhtml"),
        "OEBPS/text/foo.png"
    );
}

#[test]
fn is_svg_extension() {
    assert!(is_svg("foo.svg", b""));
    assert!(is_svg("FOO.SVG", b""));
    assert!(is_svg("path/to/foo.svgz", b""));
    assert!(!is_svg("foo.png", b""));
}

#[test]
fn is_svg_magic() {
    assert!(is_svg("nope", b"<svg xmlns=\"...\"></svg>"));
    assert!(is_svg(
        "nope",
        b"<?xml version=\"1.0\"?>\n<svg xmlns=\"...\"></svg>"
    ));
    assert!(!is_svg("nope", b"\x89PNG\r\n\x1a\n"));
    assert!(!is_svg("nope", b"<?xml version=\"1.0\"?><html></html>"));
}

#[test]
fn collapse_drops_dot_and_empty_segments() {
    assert_eq!(collapse_segments("a//./b/../c"), "a/c");
    assert_eq!(collapse_segments("../../x"), "x");
    assert_eq!(collapse_segments(""), "");
}

#[test]
fn resolve_without_directory() {
    assert_eq!(resolve_path("img.png", "chapter.xhtml"), "img.png");
}

struct ImageShelf {
    metadata: Metadata,
    png: Vec<u8>,
}

impl BookSource for ImageShelf {
    fn metadata(&self) -> &Metadata {
        &self.metadata
    }
    fn spine(&self) -> &[ChapterRef] {
        &[]
    }
    fn chapter(&mut self, index: usize) -> Result<ChapterContent, Error> {
        Err(Error::InvalidChapter { index, len: 0 })
    }
    fn cover(&mut self) -> Result<Option<Vec<u8>>, Error> {
        Ok(None)
    }
    fn resource(&mut self, path: &str) -> Result<Vec<u8>, Error> {
        if path == "OEBPS/images/dot.png" {
            Ok(self.png.clone())
        } else {
            Err(Error::MissingResource { path: path.to_owned() })
        }
    }
}

fn png_2x3() -> Vec<u8> {
    let img = image::RgbaImage::from_pixel(2, 3, image::Rgba([10, 20, 30, 255]));
    let mut buf = Vec::new();
    img.write_to(&mut std::io::Cursor::new(&mut buf), image::ImageFormat::Png)
        .expect("encode png");
    buf
}

fn shelf() -> ImageShelf {
    ImageShelf {
        metadata: Metadata {
            title: String::new(),
            authors: Vec::new(),
            language: None,
            identifier: None,
            publisher: None,
        },
        png: png_2x3(),
    }
}

#[test]
fn missing_image_resource_is_a_placeholder() {
    let mut book = shelf();
    assert!(matches!(
        resolve_image("missing.png", "OEBPS/test.xhtml", &mut book),
        ImageSource::Placeholder
    ));
    assert!(matches!(
        resolve_image("", "OEBPS/test.xhtml", &mut book),
        ImageSource::Placeholder
    ));
}

#[test]
fn raster_image_is_decoded() {
    let mut book = shelf();
    match resolve_image("../images/dot.png", "OEBPS/text/ch.xhtml", &mut book) {
        ImageSource::Raster { width, height, rgba } => {
            assert_eq!((width, height), (2, 3));
            assert_eq!(rgba.len(), 2 * 3 * 4);
            assert_eq!(&rgba[0..4], &[10, 20, 30, 255]);
        }
        other => panic!("expected raster, got {other:?}"),
    }
}

#[test]
fn undecodable_bytes_are_a_placeholder() {
    let r = image_from_resource("x.png", "x.png".to_owned(), Some(b"not an image".to_vec()));
    assert!(matches!(r, ImageSource::Placeholder));
}

#[test]
fn svg_bytes_are_kept_for_rasterizing() {
    let r = image_from_resource(
        "pic",
        "OEBPS/pic".to_owned(),
        Some(b"<svg xmlns=\"http://www.w3.org/2000/svg\"/>".to_vec()),
    );
    match r {
        ImageSource::Svg { resolved, bytes } => {
            assert_eq!(resolved, "OEBPS/pic");
            assert!(bytes.starts_with(b"<svg"));
        }
        other => panic!("expected svg, got {other:?}"),
    }
}

#[test]
fn svg_pixels_are_demultiplied() {
    let mut data = vec![100, 50, 0, 128, 10, 20, 30, 255, 200, 9, 0, 100, 7, 7, 7, 0, 1, 2];
    demultiply_alpha(&mut data);
    assert_eq!(
        data,
        vec![199, 100, 0, 128, 10, 20, 30, 255, 255, 23, 0, 100, 7, 7, 7, 0, 1, 2]
    );
}

#[test]
fn cover_bytes_decode_to_rgba() {
    let (w, h, px) = decode_cover(&png_2x3()).expect("decodes");
    assert_eq!((w, h), (2, 3));
    assert_eq!(px.len(), 2 * 3 * 4);
    assert_eq!(&px[0..4], &[10, 20, 30, 255]);
    assert!(decode_cover(b"not an image").is_none());
}
