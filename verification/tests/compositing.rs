use cosmic_text::{Attrs, Buffer, FontSystem, Metrics, Shaping, SwashCache};
use reader_rs::render::{
    blank_image, blend, blit_rgba_scaled, composite_glyph, draw_glyph, draw_rasterized, draw_placeholder_box,
    fill_bg, GlyphImage, GlyphKind, PageImage,
};

fn px(img: &PageImage, x: u32, y: u32) -> [u8; 4] {
    let i = ((y * img.width + x) * 4) as usize;
    [img.pixels[i], img.pixels[i + 1], img.pixels[i + 2], img.pixels[i + 3]]
}

#[test]
fn blank_page_is_filled_and_opaque() {
    let img = blank_image(3, 2, (1, 2, 3, 255));
    assert_eq!(img.pixels.len(), 3 * 2 * 4);
    assert!(img.pixels.chunks_exact(4).all(|c| c == [1, 2, 3, 255]));
    let mut zero = PageImage::new(2, 2);
    assert!(zero.pixels.iter().all(|b| *b == 0));
    fill_bg(&mut zero, (9, 9, 9, 255));
    assert_eq!(px(&zero, 1, 1), [9, 9, 9, 255]);
}

#[test]
fn blending_mixes_and_is_opaque() {
    assert_eq!(blend((0, 0, 0, 0), 255, 255, 255, 255), (255, 255, 255, 255));
    assert_eq!(blend((0, 100, 200, 7), 0, 0, 0, 0), (0, 100, 200, 255));
    assert_eq!(blend((0, 0, 0, 9), 128, 128, 128, 128), (128, 128, 128, 255));
    // A pre-multiplied half-covered grey over white stays white.
    assert_eq!(blend((255, 255, 255, 255), 128, 128, 128, 128), (255, 255, 255, 255));
    assert_eq!(blend((200, 100, 0, 255), 10, 20, 30, 64), (159, 94, 30, 255));
}

#[test]
fn blit_stretches_nearest_and_clips() {
    let mut img = blank_image(4, 4, (0, 0, 0, 255));
    let src = vec![
        10, 10, 10, 0, 20, 20, 20, 0, //
        30, 30, 30, 0, 40, 40, 40, 0,
    ];
    blit_rgba_scaled(&mut img, &src, 2, 2, 2, 2, 4, 4);
    assert_eq!(px(&img, 2, 2), [10, 10, 10, 255]);
    assert_eq!(px(&img, 3, 2), [10, 10, 10, 255]);
    assert_eq!(px(&img, 3, 3), [10, 10, 10, 255]);
    assert_eq!(px(&img, 1, 1), [0, 0, 0, 255]);
    let mut img2 = blank_image(2, 2, (0, 0, 0, 255));
    blit_rgba_scaled(&mut img2, &src, 2, 2, -1, 0, 2, 2);
    assert_eq!(px(&img2, 0, 0), [20, 20, 20, 255]);
    assert_eq!(px(&img2, 1, 0), [0, 0, 0, 255]);
    assert_eq!(px(&img2, 0, 1), [40, 40, 40, 255]);
    blit_rgba_scaled(&mut img2, &src, 0, 2, 0, 0, 2, 2);
    assert_eq!(px(&img2, 1, 1), [0, 0, 0, 255]);
}

#[test]
fn placeholder_frame_leaves_inside_alone() {
    let mut img = blank_image(5, 5, (0, 0, 0, 255));
    draw_placeholder_box(&mut img, 1, 1, 3, 3, (200, 100, 50, 7));
    assert_eq!(px(&img, 1, 1), [200, 100, 50, 255]);
    assert_eq!(px(&img, 3, 2), [200, 100, 50, 255]);
    assert_eq!(px(&img, 2, 2), [0, 0, 0, 255]);
    assert_eq!(px(&img, 0, 0), [0, 0, 0, 255]);
    draw_placeholder_box(&mut img, 3, 3, 10, 10, (1, 1, 1, 1));
    assert_eq!(px(&img, 4, 3), [1, 1, 1, 255]);
}

#[test]
fn mask_glyph_is_painted_in_text_colour() {
    let mut img = blank_image(4, 4, (0, 0, 0, 255));
    let glyph = GlyphImage {
        left: 1,
        top: 2,
        width: 2,
        height: 1,
        kind: GlyphKind::Mask,
        data: vec![255, 0],
    };
    composite_glyph(&mut img, &glyph, 0, 3, (250, 240, 230, 255));
    assert_eq!(px(&img, 1, 1), [250, 240, 230, 255]);
    assert_eq!(px(&img, 2, 1), [0, 0, 0, 255]);
    assert!(img.pixels.chunks_exact(4).all(|c| c[3] == 255));
}

#[test]
fn colour_glyph_uses_its_own_pixels() {
    let mut img = blank_image(2, 2, (0, 0, 0, 255));
    let glyph = GlyphImage {
        left: 0,
        top: 0,
        width: 1,
        height: 1,
        kind: GlyphKind::Color,
        data: vec![9, 8, 7, 255],
    };
    composite_glyph(&mut img, &glyph, 1, 1, (1, 1, 1, 255));
    assert_eq!(px(&img, 1, 1), [9, 8, 7, 255]);
    let sub = GlyphImage {
        left: 0,
        top: 0,
        width: 1,
        height: 1,
        kind: GlyphKind::SubpixelMask,
        data: vec![255, 255, 255],
    };
    composite_glyph(&mut img, &sub, 0, 0, (5, 5, 5, 255));
    assert_eq!(px(&img, 0, 0), [0, 0, 0, 255]);
}

#[test]
fn rasterized_glyph_is_drawn_opaque() {
    let mut font_system = FontSystem::new();
    let mut cache = SwashCache::new();
    let mut buffer = Buffer::new(&mut font_system, Metrics::new(32.0, 40.0));
    buffer.set_size(Some(200.0), None);
    buffer.set_text("H", &Attrs::new(), Shaping::Advanced, None);
    buffer.shape_until_scroll(&mut font_system, false);
    let run = buffer.layout_runs().next().expect("one line");
    let glyph = run.glyphs.first().expect("one glyph");
    let physical = glyph.physical((4.0, run.line_y), 1.0);

    let mut img = blank_image(64, 64, (0, 0, 0, 255));
    draw_glyph(
        &mut img,
        &mut font_system,
        &mut cache,
        physical.cache_key,
        physical.x,
        physical.y,
        (255, 255, 255, 255),
    );
    assert!(img.pixels.chunks_exact(4).any(|c| c[0] != 0));
    assert!(img.pixels.chunks_exact(4).all(|c| c[3] == 255));
}

#[test]
fn partly_covered_mask_is_premultiplied() {
    let mut img = blank_image(1, 1, (0, 0, 0, 255));
    let glyph = GlyphImage {
        left: 0,
        top: 0,
        width: 1,
        height: 1,
        kind: GlyphKind::Mask,
        data: vec![128],
    };
    composite_glyph(&mut img, &glyph, 0, 0, (255, 100, 0, 255));
    assert_eq!(px(&img, 0, 0), [128, 50, 0, 255]);
}

#[test]
fn rasterized_glyph_is_drawn_only_when_it_fits() {
    let glyph = GlyphImage {
        left: 0,
        top: 0,
        width: 1,
        height: 1,
        kind: GlyphKind::Mask,
        data: vec![255],
    };
    let mut img = blank_image(2, 2, (0, 0, 0, 255));
    draw_rasterized(&mut img, Some(glyph.clone()), 1, 1, (7, 8, 9, 255));
    assert_eq!(px(&img, 1, 1), [7, 8, 9, 255]);

    let short = GlyphImage { data: Vec::new(), ..glyph };
    let mut img = blank_image(2, 2, (0, 0, 0, 255));
    draw_rasterized(&mut img, Some(short), 1, 1, (7, 8, 9, 255));
    assert!(img.pixels.chunks_exact(4).all(|c| c == [0, 0, 0, 255]));

    draw_rasterized(&mut img, None, 1, 1, (7, 8, 9, 255));
    assert!(img.pixels.chunks_exact(4).all(|c| c == [0, 0, 0, 255]));
}
