use dzp::dzi::{TileBlob, TileCreator};
use dzp::error::TilingError;
use dzp::raster::{Raster, Rgb};

fn solid(width: u32, height: u32, colour: Rgb) -> Raster {
    let mut raster = Raster::new(width, height);
    for y in 0..height {
        for x in 0..width {
            raster.put_pixel(x, y, colour);
        }
    }
    raster
}

fn creator(width: u32, height: u32, tile: u32, overlap: u32, levels: Option<u32>) -> TileCreator {
    let raster = solid(width, height, Rgb { r: 10, g: 200, b: 90 });
    TileCreator::new_from_image(raster, "t".to_string(), tile, overlap, levels).unwrap()
}

fn paths(blobs: &[TileBlob]) -> Vec<String> {
    blobs.iter().map(|b| b.path.clone()).collect()
}

#[test]
fn dimensions_follow_the_levels() {
    let c = creator(100, 40, 16, 0, Some(4));
    assert_eq!(c.get_dimensions(3).unwrap(), (100, 40));
    assert_eq!(c.get_dimensions(2).unwrap(), (50, 20));
    assert_eq!(c.get_dimensions(1).unwrap(), (25, 10));
    assert_eq!(c.get_dimensions(0).unwrap(), (13, 5));
}

#[test]
fn default_levels_go_down_to_one_pixel() {
    let c = creator(100, 40, 16, 0, None);
    assert!(c.check_level(7).is_ok());
    assert!(c.check_level(8).is_err());
    assert_eq!(c.get_dimensions(0).unwrap(), (1, 1));
    assert_eq!(c.get_dimensions(7).unwrap(), (100, 40));
}

#[test]
fn a_level_that_is_not_there_is_an_error() {
    let c = creator(100, 40, 16, 0, Some(4));
    assert!(matches!(c.check_level(4), Err(TilingError::InvalidLevel { level: 4, levels: 4 })));
    assert!(matches!(c.get_dimensions(4), Err(TilingError::InvalidLevel { level: 4, levels: 4 })));
    assert!(matches!(c.get_tile_count(9), Err(TilingError::InvalidLevel { level: 9, levels: 4 })));
    assert!(matches!(
        c.get_tile_bounds(5, 0, 0),
        Err(TilingError::InvalidLevel { level: 5, levels: 4 })
    ));
    assert!(matches!(c.get_level_image(4), Err(TilingError::InvalidLevel { level: 4, levels: 4 })));
    let mut c = c;
    assert!(matches!(c.create_level(4), Err(TilingError::InvalidLevel { level: 4, levels: 4 })));
}

#[test]
fn tile_counts_round_up() {
    let c = creator(100, 40, 16, 0, Some(4));
    assert_eq!(c.get_tile_count(3).unwrap(), (7, 3));
    assert_eq!(c.get_tile_count(2).unwrap(), (4, 2));
    assert_eq!(c.get_tile_count(1).unwrap(), (2, 1));
    assert_eq!(c.get_tile_count(0).unwrap(), (1, 1));
}

#[test]
fn tile_bounds_without_overlap() {
    let c = creator(100, 40, 16, 0, Some(4));
    assert_eq!(c.get_tile_bounds(3, 0, 0).unwrap(), (0, 0, 16, 16));
    assert_eq!(c.get_tile_bounds(3, 6, 2).unwrap(), (96, 32, 100, 40));
    assert_eq!(c.get_tile_bounds(0, 0, 0).unwrap(), (0, 0, 13, 5));
}

#[test]
fn tile_bounds_with_overlap() {
    let c = creator(100, 40, 16, 2, Some(4));
    assert_eq!(c.get_tile_bounds(3, 0, 0).unwrap(), (0, 0, 18, 18));
    assert_eq!(c.get_tile_bounds(3, 1, 1).unwrap(), (14, 14, 34, 34));
    assert_eq!(c.get_tile_bounds(3, 6, 2).unwrap(), (94, 30, 100, 40));
}

#[test]
fn tile_outside_the_grid_is_an_error() {
    let c = creator(100, 40, 16, 0, Some(4));
    assert!(matches!(
        c.get_tile_bounds(3, 7, 0),
        Err(TilingError::InvalidTile { level: 3, col: 7, row: 0 })
    ));
    assert!(matches!(
        c.get_tile_bounds(3, 0, 3),
        Err(TilingError::InvalidTile { level: 3, col: 0, row: 3 })
    ));
    assert!(matches!(
        c.get_tile_bounds(3, u32::MAX, u32::MAX),
        Err(TilingError::InvalidTile { level: 3, col: 4294967295, row: 4294967295 })
    ));
}

#[test]
fn finest_level_image_is_the_image() {
    let c = creator(9, 7, 4, 0, Some(3));
    let top = c.get_level_image(2).unwrap();
    assert_eq!((top.width(), top.height()), (9, 7));
    assert_eq!(top.as_raw(), solid(9, 7, Rgb { r: 10, g: 200, b: 90 }).as_raw());
}

#[test]
fn coarser_level_images_are_resampled() {
    let c = creator(9, 7, 4, 0, Some(3));
    let middle = c.get_level_image(1).unwrap();
    assert_eq!((middle.width(), middle.height()), (5, 4));
    assert_eq!(middle.as_raw().len(), 60);
    let bottom = c.get_level_image(0).unwrap();
    assert_eq!((bottom.width(), bottom.height()), (3, 2));
    for y in 0..2 {
        for x in 0..3 {
            assert_eq!(bottom.get_pixel(x, y), Rgb { r: 10, g: 200, b: 90 });
        }
    }
}

#[test]
fn level_image_agrees_with_the_image_crate() {
    let mut raster = Raster::new(16, 12);
    for y in 0..12 {
        for x in 0..16 {
            raster.put_pixel(x, y, Rgb { r: (x * 16) as u8, g: (y * 20) as u8, b: ((x + y) * 9) as u8 });
        }
    }
    let reference = image::RgbImage::from_raw(16, 12, raster.as_raw().clone()).unwrap();
    let expected = image::imageops::resize(&reference, 8, 6, image::imageops::FilterType::Lanczos3);
    let c = TileCreator::new_from_image(raster, "t".to_string(), 4, 0, Some(2)).unwrap();
    let level = c.get_level_image(0).unwrap();
    assert_eq!((level.width(), level.height()), (8, 6));
    assert_eq!(level.as_raw(), expected.as_raw());
    assert_ne!(level.as_raw(), reference.as_raw());
}

#[test]
fn tiles_come_level_by_level_and_column_by_column() {
    let c = creator(5, 3, 2, 0, Some(2));
    let blobs = c.create_tiles().unwrap();
    assert_eq!(
        paths(&blobs),
        vec![
            "t_files/0/0_0.jpg",
            "t_files/0/1_0.jpg",
            "t_files/1/0_0.jpg",
            "t_files/1/0_1.jpg",
            "t_files/1/1_0.jpg",
            "t_files/1/1_1.jpg",
            "t_files/1/2_0.jpg",
            "t_files/1/2_1.jpg",
            "t.dzi",
        ]
    );
}

#[test]
fn no_path_occurs_twice() {
    let c = creator(40, 30, 4, 1, None);
    let blobs = c.create_tiles().unwrap();
    let mut all = paths(&blobs);
    let count = all.len();
    all.sort();
    all.dedup();
    assert_eq!(all.len(), count);
}

#[test]
fn descriptor_comes_last_and_describes_the_image() {
    let c = creator(5, 3, 2, 1, Some(2));
    let blobs = c.create_tiles().unwrap();
    let last = blobs.last().unwrap();
    assert_eq!(last.path, "t.dzi");
    let expected = "<?xml version=\"1.0\" encoding=\"UTF-8\"?>\n<Image xmlns=\"http://schemas.microsoft.com/deepzoom/2008\"\n    TileSize=\"2\"\n    Overlap=\"1\"\n    Format=\"jpg\">\n    <Size Width=\"5\" Height=\"3\"/>\n</Image>";
    assert_eq!(last.bytes, expected.as_bytes());
}

#[test]
fn tiles_are_jpeg_images_of_their_rectangles() {
    let c = creator(5, 3, 2, 1, Some(1));
    let bounds: Vec<(u32, u32, u32, u32)> = vec![
        c.get_tile_bounds(0, 0, 0).unwrap(),
        c.get_tile_bounds(0, 0, 1).unwrap(),
        c.get_tile_bounds(0, 1, 0).unwrap(),
        c.get_tile_bounds(0, 1, 1).unwrap(),
        c.get_tile_bounds(0, 2, 0).unwrap(),
        c.get_tile_bounds(0, 2, 1).unwrap(),
    ];
    let blobs = c.create_tiles().unwrap();
    assert_eq!(blobs.len(), 7);
    for (blob, (x, y, x2, y2)) in blobs.iter().zip(bounds) {
        assert_eq!(&blob.bytes[..2], &[0xff, 0xd8]);
        let decoded = image::load_from_memory(&blob.bytes).unwrap().to_rgb8();
        assert_eq!(decoded.dimensions(), (x2 - x, y2 - y));
        for pixel in decoded.pixels() {
            assert!((pixel.0[0] as i32 - 10).abs() <= 2);
            assert!((pixel.0[1] as i32 - 200).abs() <= 2);
            assert!((pixel.0[2] as i32 - 90).abs() <= 2);
        }
    }
}

#[test]
fn tile_bytes_are_those_of_the_jpeg_encoder() {
    let mut raster = Raster::new(4, 4);
    for y in 0..4 {
        for x in 0..4 {
            raster.put_pixel(x, y, Rgb { r: (x * 60) as u8, g: (y * 60) as u8, b: 128 });
        }
    }
    let mut expected = Vec::new();
    let encoder = image::codecs::jpeg::JpegEncoder::new_with_quality(&mut expected, 90);
    image::RgbImage::from_raw(4, 4, raster.as_raw().clone())
        .unwrap()
        .write_with_encoder(encoder)
        .unwrap();
    let c = TileCreator::new_from_image(raster, "t".to_string(), 4, 0, Some(1)).unwrap();
    let blobs = c.create_tiles().unwrap();
    assert_eq!(blobs.len(), 2);
    assert_eq!(blobs[0].bytes, expected);
}

#[test]
fn create_level_adds_the_tiles_of_one_level() {
    let mut c = creator(5, 3, 2, 0, Some(2));
    c.create_level(1).unwrap();
    let blobs = c.create_tiles().unwrap();
    assert_eq!(blobs.len(), 6 + 2 + 6 + 1);
    assert_eq!(blobs[0].path, "t_files/1/0_0.jpg");
    assert_eq!(blobs[6].path, "t_files/0/0_0.jpg");
}

#[test]
fn an_empty_image_has_only_a_descriptor() {
    let c = creator(0, 0, 512, 0, None);
    let blobs = c.create_tiles().unwrap();
    assert_eq!(paths(&blobs), vec!["t.dzi"]);
    let c = creator(0, 0, 512, 0, Some(3));
    assert_eq!(c.get_tile_count(1).unwrap(), (0, 0));
    assert_eq!(c.create_tiles().unwrap().len(), 1);
}

#[test]
fn a_pyramid_without_levels_has_only_a_descriptor() {
    let c = creator(5, 3, 2, 0, Some(0));
    assert_eq!(paths(&c.create_tiles().unwrap()), vec!["t.dzi"]);
}

#[test]
fn overlap_larger_than_a_tile_fails_at_the_second_tile() {
    let c = creator(4, 1, 1, 2, Some(1));
    assert!(matches!(
        c.create_tiles(),
        Err(TilingError::InvalidTile { level: 0, col: 1, row: 0 })
    ));
    let c = creator(1, 4, 1, 2, Some(1));
    assert!(matches!(
        c.create_tiles(),
        Err(TilingError::InvalidTile { level: 0, col: 0, row: 1 })
    ));
}

#[test]
fn overlap_larger_than_a_tile_is_fine_for_a_single_tile() {
    let c = creator(3, 3, 4, 9, Some(1));
    assert_eq!(c.get_tile_bounds(0, 0, 0).unwrap(), (0, 0, 3, 3));
    assert_eq!(c.create_tiles().unwrap().len(), 2);
}

#[test]
fn a_tile_too_large_for_jpeg_fails_to_encode() {
    let c = creator(70000, 1, 70000, 0, Some(2));
    match c.create_tiles() {
        Err(TilingError::EncodingFailed { level, col, row, .. }) => {
            assert_eq!((level, col, row), (1, 0, 0));
        }
        other => panic!("unexpected result {:?}", other.map(|b| b.len())),
    }
}

#[test]
fn tile_counts_of_a_3600_face() {
    let c = TileCreator::new_from_image(Raster::new(3600, 3600), "f".to_string(), 512, 0, Some(4))
        .unwrap();
    assert_eq!(c.get_dimensions(0).unwrap(), (450, 450));
    assert_eq!(c.get_tile_count(0).unwrap(), (1, 1));
    assert_eq!(c.get_tile_count(1).unwrap(), (2, 2));
    assert_eq!(c.get_tile_count(2).unwrap(), (4, 4));
    assert_eq!(c.get_tile_count(3).unwrap(), (8, 8));
    assert_eq!(c.get_tile_bounds(3, 7, 7).unwrap(), (3584, 3584, 3600, 3600));
}

#[test]
fn tiles_of_a_3600_face_at_every_level() {
    let raster = solid(3600, 3600, Rgb { r: 90, g: 60, b: 30 });
    let levels = dzp::pyramid::pipeline_level_count(3600, 512);
    assert_eq!(levels, 4);
    let c = TileCreator::new_from_image(raster, "f".to_string(), 512, 0, Some(levels)).unwrap();
    let blobs = c.create_tiles().unwrap();
    let mut per_level = [0usize; 4];
    for blob in &blobs[..blobs.len() - 1] {
        let rest = blob.path.strip_prefix("f_files/").unwrap();
        let level: usize = rest.split('/').next().unwrap().parse().unwrap();
        per_level[level] += 1;
    }
    assert_eq!(per_level, [1, 4, 16, 64]);
    assert_eq!(blobs.len(), 86);
    assert_eq!(blobs.last().unwrap().path, "f.dzi");
    let coarsest = image::load_from_memory(&blobs[0].bytes).unwrap();
    assert_eq!((coarsest.width(), coarsest.height()), (450, 450));
    let corner = image::load_from_memory(&blobs[85 - 1].bytes).unwrap();
    assert_eq!((corner.width(), corner.height()), (16, 16));
}

#[test]
fn level_images_have_exactly_the_level_dimensions() {
    let c = creator(9, 100, 4, 0, Some(3));
    assert_eq!(c.get_dimensions(0).unwrap(), (3, 25));
    let level = c.get_level_image(0).unwrap();
    assert_eq!((level.width(), level.height()), (3, 25));
    let c = creator(100, 3, 4, 0, Some(4));
    assert_eq!(c.get_dimensions(0).unwrap(), (13, 1));
    let level = c.get_level_image(0).unwrap();
    assert_eq!((level.width(), level.height()), (13, 1));
}

#[test]
fn tile_rectangles_cover_each_level() {
    for (width, height, tile, overlap) in [(37u32, 21u32, 8u32, 0u32), (37, 21, 8, 3), (16, 16, 16, 1), (5, 40, 7, 7)] {
        let c = creator(width, height, tile, overlap, Some(3));
        for level in 0..3 {
            let (lw, lh) = c.get_dimensions(level).unwrap();
            let (cols, rows) = c.get_tile_count(level).unwrap();
            let mut covered = vec![0u32; (lw * lh) as usize];
            for col in 0..cols {
                for row in 0..rows {
                    let (x, y, x2, y2) = c.get_tile_bounds(level, col, row).unwrap();
                    assert!(x < x2 && x2 <= lw && y < y2 && y2 <= lh);
                    for py in y..y2 {
                        for px in x..x2 {
                            covered[(py * lw + px) as usize] += 1;
                        }
                    }
                }
            }
            for py in 0..lh {
                for px in 0..lw {
                    let count = covered[(py * lw + px) as usize];
                    assert!(count >= 1);
                    if overlap == 0 {
                        assert_eq!(count, 1);
                    }
                    let own = c.get_tile_bounds(level, px / tile, py / tile).unwrap();
                    assert!(own.0 <= px && px < own.2 && own.1 <= py && py < own.3);
                }
            }
        }
    }
}

#[test]
fn getters_give_what_the_tiler_was_made_with() {
    let c = creator(9, 7, 4, 1, Some(3));
    assert_eq!(c.name(), "t");
    assert_eq!(c.tile_size(), 4);
    assert_eq!(c.tile_overlap(), 1);
    assert_eq!(c.levels(), 3);
    assert_eq!((c.image().width(), c.image().height()), (9, 7));
}
