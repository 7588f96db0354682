use picunic::chunk::{extract_chunk, patch_luminosity};
use picunic::dither::dither_atkinson;
use picunic::glyph::place_glyph;
use picunic::{
    extract_patches, Converter, EmbeddingMatcher, GrayImage, ImageChunker, PicunicError,
    WasmConverter,
};

fn image_of(width: u32, height: u32, pixels: Vec<u8>) -> GrayImage {
    GrayImage::from_vec(width, height, pixels).unwrap()
}

fn constant_image(width: u32, height: u32, v: u8) -> GrayImage {
    image_of(width, height, vec![v; (width * height) as usize])
}

#[test]
fn patch_shape_every_cell() {
    let pixels: Vec<u8> = (0..70u32).map(|i| (i * 3 % 256) as u8).collect();
    let chunker = ImageChunker::new(image_of(10, 7, pixels), 3, 2);
    for row in 0..2 {
        for col in 0..3 {
            let patch = chunker.get_chunk(col, row);
            assert_eq!(patch.len(), 128);
        }
    }
}

#[test]
fn chunks_read_their_own_quadrant() {
    let mut pixels = Vec::new();
    for y in 0..32u32 {
        for x in 0..16u32 {
            let v = match (x < 8, y < 16) {
                (true, true) => 10u8,
                (false, true) => 20,
                (true, false) => 30,
                (false, false) => 40,
            };
            pixels.push(v);
        }
    }
    let chunker = ImageChunker::new(image_of(16, 32, pixels), 2, 2);
    assert!(chunker.get_chunk(0, 0).iter().all(|&v| v == 10));
    assert!(chunker.get_chunk(1, 0).iter().all(|&v| v == 20));
    assert!(chunker.get_chunk(0, 1).iter().all(|&v| v == 30));
    assert!(chunker.get_chunk(1, 1).iter().all(|&v| v == 40));
}

#[test]
fn patch_luminosity_exact_values() {
    assert_eq!(patch_luminosity(&vec![255u8; 128]), 1_000_000);
    assert_eq!(patch_luminosity(&vec![0u8; 128]), 0);
    let mut half = vec![0u8; 64];
    half.extend(vec![255u8; 64]);
    assert_eq!(patch_luminosity(&half), 500_000);
}

#[test]
fn extract_chunk_reads_rectangle() {
    let pixels: Vec<u8> = (0..16u8).collect();
    let img = image_of(4, 4, pixels);
    assert_eq!(extract_chunk(&img, 1, 1, 2, 2), vec![5, 6, 9, 10]);
}

#[test]
fn dither_keeps_constant_white_and_black() {
    for scale in [1u32, 3] {
        let white = dither_atkinson(&constant_image(9, 5, 255), scale);
        let black = dither_atkinson(&constant_image(9, 5, 0), scale);
        for y in 0..5 {
            for x in 0..9 {
                assert_eq!(white.get(x, y), 255);
                assert_eq!(black.get(x, y), 0);
            }
        }
    }
}

#[test]
fn dither_threshold_at_midpoint() {
    let low = dither_atkinson(&constant_image(1, 1, 127), 1);
    let high = dither_atkinson(&constant_image(1, 1, 128), 1);
    assert_eq!(low.get(0, 0), 0);
    assert_eq!(high.get(0, 0), 255);
}

#[test]
fn dither_diffuses_negative_error_to_six_neighbors() {
    // A lone bright pixel turns white; its negative quantization error is
    // spread to six forward neighbors, which stay black after clamping.
    let mut pixels = vec![0u8; 25];
    pixels[1 + 5] = 200;
    let out = dither_atkinson(&image_of(5, 5, pixels), 1);
    for y in 0..5 {
        for x in 0..5 {
            let expected = if x == 1 && y == 1 { 255 } else { 0 };
            assert_eq!(out.get(x, y), expected);
            assert!(out.get(x, y) == 0 || out.get(x, y) == 255);
        }
    }
}

fn small_catalog() -> EmbeddingMatcher {
    // 'a': pure horizontal signature, dark; 'b': pure vertical, bright.
    EmbeddingMatcher::new(
        vec!['a', 'b'],
        2,
        vec![1_000_000, 0, 0, 1_000_000],
        vec![0, 1_000_000],
    )
    .unwrap()
}

#[test]
fn catalog_rejects_embedding_table_mismatch() {
    let r = EmbeddingMatcher::new(vec!['a', 'b'], 2, vec![1, 2, 3], vec![0, 0]);
    match r {
        Err(e) => assert_eq!(e, PicunicError::EmbeddingLen { chars: 2, dim: 2, actual: 3 }),
        Ok(_) => panic!("mismatched table accepted"),
    }
}

#[test]
fn catalog_rejects_luminosity_count_mismatch() {
    let r = EmbeddingMatcher::new(vec!['a', 'b'], 1, vec![1, 2], vec![0]);
    match r {
        Err(e) => assert_eq!(e, PicunicError::LuminosityCount { expected: 2, actual: 1 }),
        Ok(_) => panic!("mismatched luminosities accepted"),
    }
}

#[test]
fn matcher_rejects_wrong_dimension() {
    let m = small_catalog();
    let r = m.find_best_match(&vec![1_000_000], 0);
    assert_eq!(
        r.unwrap_err(),
        PicunicError::DimensionMismatch { expected: 2, actual: 1 }
    );
}

#[test]
fn empty_catalog_is_an_explicit_error() {
    let m = EmbeddingMatcher::new(vec![], 2, vec![], vec![]).unwrap();
    let r = m.find_best_match(&vec![0, 0], 0);
    assert_eq!(r.unwrap_err(), PicunicError::EmptyCatalog);
}

#[test]
fn matching_is_deterministic_and_ties_go_to_the_lowest_index() {
    // Three identical entries: an exact three-way tie.
    let m = EmbeddingMatcher::new(
        vec!['x', 'y', 'z'],
        2,
        vec![1_000_000, 0, 1_000_000, 0, 1_000_000, 0],
        vec![500_000, 500_000, 500_000],
    )
    .unwrap();
    let first = m.find_best_match(&vec![1_000_000, 0], 500_000).unwrap();
    let second = m.find_best_match(&vec![1_000_000, 0], 500_000).unwrap();
    assert_eq!(first, 'x');
    assert_eq!(first, second);
}

#[test]
fn pure_edge_weight_ignores_luminosity() {
    let m = small_catalog();
    // Patch embedding matches 'b' exactly; luminosity matches 'a' exactly.
    assert_eq!(m.find_best_match(&vec![0, 1_000_000], 0).unwrap(), 'b');
    assert_eq!(
        m.find_best_match(&vec![0, 1_000_000], 1_000_000).unwrap(),
        'b'
    );
}

#[test]
fn pure_luminosity_weight_ignores_embedding() {
    let mut m = small_catalog();
    m.set_edge_weight(0);
    assert_eq!(m.find_best_match(&vec![0, 1_000_000], 0).unwrap(), 'a');
    assert_eq!(m.find_best_match(&vec![1_000_000, 0], 0).unwrap(), 'a');
    assert_eq!(
        m.find_best_match(&vec![1_000_000, 0], 1_000_000).unwrap(),
        'b'
    );
}

#[test]
fn edge_weight_is_clamped() {
    let mut high = small_catalog();
    high.set_edge_weight(2_000_000);
    assert_eq!(high.find_best_match(&vec![0, 1_000_000], 0).unwrap(), 'b');
    let mut low = small_catalog();
    low.set_edge_weight(-5);
    assert_eq!(low.find_best_match(&vec![0, 1_000_000], 0).unwrap(), 'a');
}

#[test]
fn filter_ascii_keeps_order_and_drops_the_rest() {
    let mut m = EmbeddingMatcher::new(
        vec!['\u{3b1}', 'a', '\u{2588}'],
        1,
        vec![1_000_000, 1_000_000, 1_000_000],
        vec![0, 500_000, 1_000_000],
    )
    .unwrap();
    m.filter_ascii();
    assert_eq!(m.len(), 1);
    assert_eq!(m.find_best_match(&vec![1_000_000], 0).unwrap(), 'a');
}

#[test]
fn filter_monochrome_keeps_block_elements() {
    let mut m = EmbeddingMatcher::new(
        vec!['\u{3b1}', 'a', '\u{2588}'],
        1,
        vec![1_000_000, 1_000_000, 1_000_000],
        vec![0, 0, 1_000_000],
    )
    .unwrap();
    m.filter_monochrome();
    assert_eq!(m.len(), 2);
    m.set_edge_weight(0);
    assert_eq!(m.find_best_match(&vec![0], 1_000_000).unwrap(), '\u{2588}');
    assert_eq!(m.find_best_match(&vec![0], 0).unwrap(), 'a');
}

fn space_catalog() -> EmbeddingMatcher {
    EmbeddingMatcher::new(vec![' '], 2, vec![1_000_000, 0], vec![1_000_000]).unwrap()
}

#[test]
fn white_image_two_wide_renders_two_rows_of_spaces() {
    // 16x32 source at width 2: the 1:2 aspect rule gives 2 rows.
    let converter = Converter::new(space_catalog()).with_width(2);
    let image = constant_image(16, 32, 255);
    let cells: Vec<Option<Vec<i32>>> = vec![Some(vec![1_000_000, 0]); 4];
    let out = converter.convert(&image, &cells);
    assert_eq!(out, "  \n  \n");
}

#[test]
fn missing_or_mismatched_embeddings_become_blanks() {
    let m = EmbeddingMatcher::new(vec!['#'], 2, vec![1_000_000, 0], vec![0]).unwrap();
    let converter = Converter::new(m).with_width(2);
    let image = constant_image(16, 32, 0);
    let cells: Vec<Option<Vec<i32>>> = vec![
        Some(vec![1_000_000, 0]),
        None,
        Some(vec![1_000_000]),
        Some(vec![1_000_000, 0]),
    ];
    let out = converter.convert(&image, &cells);
    assert_eq!(out, "# \n #\n");
}

#[test]
fn extract_patches_covers_the_grid() {
    let converter = Converter::new(space_catalog()).with_width(2);
    let image = constant_image(16, 32, 255);
    let (patches, lums, cols, rows) = converter.extract_patches(&image);
    assert_eq!((cols, rows), (2, 2));
    assert_eq!(patches.len(), 4);
    assert_eq!(lums.len(), 4);
    for p in &patches {
        assert_eq!(p.len(), 128);
        assert!(p.iter().all(|&v| v == 255));
    }
    assert!(lums.iter().all(|&l| l == 1_000_000));
}

#[test]
fn output_height_follows_the_aspect_rule() {
    let (_, _, cols, rows) = extract_patches(&constant_image(1, 1, 0), 80, false);
    assert_eq!((cols, rows), (80, 40));
    let (_, _, cols, rows) = extract_patches(&constant_image(100, 10, 0), 10, false);
    // round(10 / (100 / 10) * 0.5) = round(0.5) rounds half up to 1.
    assert_eq!((cols, rows), (10, 1));
}

#[test]
fn converter_width_floor_is_one() {
    let converter = Converter::new(space_catalog()).with_width(0);
    let image = constant_image(4, 4, 255);
    let (_, _, cols, rows) = converter.extract_patches(&image);
    assert_eq!(cols, 1);
    assert!(rows >= 1);
}

#[test]
fn wasm_converter_validates_and_matches() {
    let mut w = WasmConverter::new(
        vec![1_000_000, 0],
        vec!['\u{3b1}', 'a'],
        1,
        vec![1_000_000, 0],
    )
    .unwrap();
    assert_eq!(w.find_best_char(&vec![1_000_000], 0).unwrap(), '\u{3b1}');
    w.set_ascii_only(true);
    assert_eq!(w.find_best_char(&vec![1_000_000], 0).unwrap(), 'a');

    let bad = WasmConverter::new(vec![1, 2, 3], vec!['a'], 2, vec![0]);
    match bad {
        Err(e) => assert_eq!(e, PicunicError::EmbeddingLen { chars: 1, dim: 2, actual: 3 }),
        Ok(_) => panic!("mismatched table accepted"),
    }
}

#[test]
fn wasm_ascii_restriction_without_candidates_returns_first_entry() {
    let mut w = WasmConverter::new(vec![1_000_000], vec!['\u{3b1}'], 1, vec![0]).unwrap();
    w.set_ascii_only(true);
    assert_eq!(w.find_best_char(&vec![1_000_000], 0).unwrap(), '\u{3b1}');
}

#[test]
fn wasm_process_image_decodes_and_chunks() {
    let mut w = WasmConverter::new(vec![1_000_000], vec![' '], 1, vec![1_000_000]).unwrap();
    w.set_width(2);
    let rgba = vec![255u8; 16];
    let (patches, lums, cols, rows) = w.process_image(&rgba, 2, 2).unwrap();
    assert_eq!((cols, rows), (2, 1));
    assert_eq!(patches.len(), 2);
    assert_eq!(lums.len(), 2);
    assert!(patches[0].iter().all(|&v| v == 255));
    assert_eq!(lums[0], 1_000_000);
}

#[test]
fn wasm_process_image_rejects_short_buffers() {
    let w = WasmConverter::new(vec![1_000_000], vec![' '], 1, vec![1_000_000]).unwrap();
    let rgba = vec![255u8; 15];
    let r = w.process_image(&rgba, 2, 2);
    assert_eq!(
        r.unwrap_err(),
        PicunicError::ImageDataLen { width: 2, height: 2, actual: 15 }
    );
}

#[test]
fn glyph_is_centered_on_its_baseline() {
    let bitmap = vec![10u8, 20, 30, 40];
    let img = place_glyph(&bitmap, 2, 2, 0, 4, 4);
    // Baseline at 3 * 4 / 4 = 3, so the glyph occupies rows 1..3 and is
    // centered at columns 1..3.
    for y in 0..4 {
        for x in 0..4 {
            let expected = match (x, y) {
                (1, 1) => 10,
                (2, 1) => 20,
                (1, 2) => 30,
                (2, 2) => 40,
                _ => 0,
            };
            assert_eq!(img.get(x, y), expected);
        }
    }
}

#[test]
fn dithered_conversion_stays_stable_on_white() {
    // Dithering an all-white image leaves it white, so the render matches
    // the undithered one.
    let plain = Converter::new(space_catalog()).with_width(2);
    let dithered = Converter::new(space_catalog()).with_width(2).with_dither(true);
    let image = constant_image(16, 32, 255);
    let cells: Vec<Option<Vec<i32>>> = vec![Some(vec![1_000_000, 0]); 4];
    assert_eq!(plain.convert(&image, &cells), dithered.convert(&image, &cells));
}
