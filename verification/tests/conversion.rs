use std::f64::consts::PI;
use std::io::Cursor;
use std::io::Read;

use dzp::converter::DzpConverter;
use dzp::error::TilingError;
use dzp::face::{Component, Face, Source};
use dzp::raster::Rgb;
use dzp::render::render_face;

fn mod_2pi(x: f64) -> f64 {
    ((x % (2.0 * PI)) + 2.0 * PI) % (2.0 * PI)
}

fn component(c: Component, x: f64, y: f64) -> f64 {
    let taken = match c.source {
        Source::One => 1.0,
        Source::X => x,
        Source::Y => y,
    };
    if c.negated {
        -taken
    } else {
        taken
    }
}

fn source_of(width: u32, face: Face, x: u32, y: u32) -> (f32, f32) {
    let height = width / 2;
    let face_size = width / 4;
    let o = face.orientation();
    let nx = 2.0 * (x as f64 + 0.5) / face_size as f64 - 1.0;
    let ny = 2.0 * (y as f64 + 0.5) / face_size as f64 - 1.0;
    let (cx, cy, cz) = (component(o.x, nx, ny), component(o.y, nx, ny), component(o.z, nx, ny));
    let r = (cx * cx + cy * cy + cz * cz).sqrt();
    let lon = mod_2pi(cy.atan2(cx));
    let lat = (cz / r).acos();
    let src_x = width as f64 * lon / (2.0 * PI) - 0.5;
    let src_y = height as f64 * lat / PI - 0.5;
    (src_x as f32, src_y as f32)
}

fn sources(width: u32) -> Vec<Vec<(u32, u32)>> {
    let face_size = width / 4;
    (0..6)
        .map(|k| {
            let face = Face::from_index(k);
            let mut list = Vec::new();
            for x in 0..face_size {
                for y in 0..face_size {
                    let (sx, sy) = source_of(width, face, x, y);
                    list.push((sx.to_bits(), sy.to_bits()));
                }
            }
            list
        })
        .collect()
}

fn sample(panorama: &image::RgbImage, sx: f32, sy: f32) -> Rgb {
    let x = sx.clamp(0.0, (panorama.width() - 1) as f32);
    let y = sy.clamp(0.0, (panorama.height() - 1) as f32);
    let p = image::imageops::interpolate_bilinear(panorama, x, y).unwrap();
    Rgb { r: p.0[0], g: p.0[1], b: p.0[2] }
}

fn samples(converter: &DzpConverter, panorama: &image::RgbImage) -> Vec<Vec<Rgb>> {
    let set = converter.tables(panorama.width()).unwrap();
    (0..6)
        .map(|k| {
            let table = set.table(Face::from_index(k));
            (0..table.len())
                .map(|i| {
                    let bits = table.get(i).source_bits;
                    sample(panorama, f32::from_bits(bits.0), f32::from_bits(bits.1))
                })
                .collect()
        })
        .collect()
}

fn convert(
    converter: &mut DzpConverter,
    panorama: &image::RgbImage,
    generated: &mut u32,
) -> Result<Vec<u8>, TilingError> {
    let (width, height) = panorama.dimensions();
    if !DzpConverter::is_valid_panorama(width, height) {
        return converter.convert_image(width, height, &Vec::new());
    }
    if converter.tables(width).is_none() {
        *generated += 1;
        assert!(converter.generate_cache_for_resolution(width, &sources(width)));
    }
    let colours = samples(converter, panorama);
    converter.convert_image(width, height, &colours)
}

fn entries(archive: &[u8]) -> Vec<(String, Vec<u8>, zip::CompressionMethod)> {
    let mut reader = zip::ZipArchive::new(Cursor::new(archive.to_vec())).unwrap();
    let mut out = Vec::new();
    for i in 0..reader.len() {
        let mut file = reader.by_index(i).unwrap();
        let mut bytes = Vec::new();
        file.read_to_end(&mut bytes).unwrap();
        out.push((file.name().to_string(), bytes, file.compression()));
    }
    out
}

fn is_tile_path(path: &str, levels: u32) -> bool {
    let mut chars = path.chars();
    let face = chars.next().unwrap();
    if !"fblrud".contains(face) {
        return false;
    }
    let rest = chars.as_str();
    let rest = match rest.strip_prefix("_files/") {
        Some(rest) => rest,
        None => return false,
    };
    let rest = match rest.strip_suffix(".jpg") {
        Some(rest) => rest,
        None => return false,
    };
    let (level, tile) = match rest.split_once('/') {
        Some(parts) => parts,
        None => return false,
    };
    let (col, row) = match tile.split_once('_') {
        Some(parts) => parts,
        None => return false,
    };
    let digits = |s: &str| !s.is_empty() && s.chars().all(|c| c.is_ascii_digit());
    level.len() == 1 && digits(level) && level.parse::<u32>().unwrap() < levels && digits(col) && digits(row)
}

#[test]
fn source_coordinates_stay_within_half_a_pixel_of_the_panorama() {
    for width in [256u32, 1024] {
        let height = width / 2;
        let face_size = width / 4;
        for k in 0..6 {
            let face = Face::from_index(k);
            for x in 0..face_size {
                for y in 0..face_size {
                    let (sx, sy) = source_of(width, face, x, y);
                    assert!(sx >= -0.5 && sx <= width as f32 - 0.5);
                    assert!(sy >= -0.5 && sy <= height as f32 - 0.5);
                }
            }
        }
    }
}

#[test]
fn source_coordinates_point_back_at_the_face() {
    let width = 256u32;
    let height = width / 2;
    let face_size = width / 4;
    for k in 0..6 {
        let face = Face::from_index(k);
        let o = face.orientation();
        for x in 0..face_size {
            for y in 0..face_size {
                let nx = 2.0 * (x as f64 + 0.5) / face_size as f64 - 1.0;
                let ny = 2.0 * (y as f64 + 0.5) / face_size as f64 - 1.0;
                let (cx, cy, cz) = (component(o.x, nx, ny), component(o.y, nx, ny), component(o.z, nx, ny));
                let r = (cx * cx + cy * cy + cz * cz).sqrt();
                let lon = mod_2pi(cy.atan2(cx));
                let lat = (cz / r).acos();
                let src_x = width as f64 * lon / (2.0 * PI) - 0.5;
                let src_y = height as f64 * lat / PI - 0.5;
                let lon_back = 2.0 * PI * (src_x + 0.5) / width as f64;
                let lat_back = PI * (src_y + 0.5) / height as f64;
                let back = (lat_back.sin() * lon_back.cos(), lat_back.sin() * lon_back.sin(), lat_back.cos());
                assert!((back.0 - cx / r).abs() < 1e-9);
                assert!((back.1 - cy / r).abs() < 1e-9);
                assert!((back.2 - cz / r).abs() < 1e-9);
            }
        }
    }
}

#[test]
fn render_face_places_each_colour_at_its_pixel() {
    let mut converter = DzpConverter::create();
    let raw: Vec<Vec<(u32, u32)>> = (0..6).map(|_| (0..9).map(|i| (i, i)).collect()).collect();
    assert!(converter.generate_cache_for_resolution(12, &raw));
    let table = converter.tables(12).unwrap().table(Face::Left);
    let colours: Vec<Rgb> = (0..9).map(|i| Rgb { r: i as u8, g: 2 * i as u8, b: 100 }).collect();
    let face = render_face(12, 3, table, &colours);
    assert_eq!((face.width(), face.height()), (3, 3));
    for x in 0..3u32 {
        for y in 0..3u32 {
            let i = x * 3 + y;
            assert_eq!(face.get_pixel(x, y), Rgb { r: i as u8, g: 2 * i as u8, b: 100 });
        }
    }
}

#[test]
fn render_face_is_no_wider_than_a_quarter_of_the_panorama() {
    let mut converter = DzpConverter::create();
    let raw: Vec<Vec<(u32, u32)>> = (0..6).map(|_| (0..4).map(|i| (i, i)).collect()).collect();
    assert!(converter.generate_cache_for_resolution(8, &raw));
    let table = converter.tables(8).unwrap().table(Face::Up);
    let colours = vec![Rgb { r: 9, g: 9, b: 9 }; 4];
    let face = render_face(20, 100, table, &colours);
    assert_eq!((face.width(), face.height()), (5, 5));
    assert_eq!(face.get_pixel(1, 1), Rgb { r: 9, g: 9, b: 9 });
    assert_eq!(face.get_pixel(2, 2), Rgb { r: 0, g: 0, b: 0 });
    assert_eq!(face.get_pixel(4, 0), Rgb { r: 0, g: 0, b: 0 });
}

#[test]
fn generate_cache_refuses_sources_that_do_not_fit() {
    let mut converter = DzpConverter::create();
    let short: Vec<Vec<(u32, u32)>> = (0..6).map(|_| vec![(0, 0); 3]).collect();
    assert!(!converter.generate_cache_for_resolution(8, &short));
    assert_eq!(converter.cached_widths(), 0);
    assert!(converter.tables(8).is_none());
}

#[test]
fn null_image_of_four_by_two() {
    let panorama = image::RgbImage::new(4, 2);
    let mut converter = DzpConverter::create();
    let mut generated = 0;
    let archive = convert(&mut converter, &panorama, &mut generated).unwrap();
    let files = entries(&archive);
    let names: Vec<&str> = files.iter().map(|f| f.0.as_str()).collect();
    assert_eq!(
        names,
        vec![
            "f_files/0/0_0.jpg", "f_files/1/0_0.jpg", "f.dzi",
            "b_files/0/0_0.jpg", "b_files/1/0_0.jpg", "b.dzi",
            "l_files/0/0_0.jpg", "l_files/1/0_0.jpg", "l.dzi",
            "r_files/0/0_0.jpg", "r_files/1/0_0.jpg", "r.dzi",
            "d_files/0/0_0.jpg", "d_files/1/0_0.jpg", "d.dzi",
            "u_files/0/0_0.jpg", "u_files/1/0_0.jpg", "u.dzi",
        ]
    );
    assert_eq!(files.len(), 18);
    assert_eq!(dzp::pyramid::pipeline_level_count(1, 512), 2);
    for (name, bytes, _) in &files {
        if name.ends_with(".dzi") {
            let text = String::from_utf8(bytes.clone()).unwrap();
            assert!(text.contains("<Size Width=\"1\" Height=\"1\"/>"));
            assert!(text.contains("TileSize=\"512\""));
            assert!(text.contains("Overlap=\"0\""));
        } else {
            let tile = image::load_from_memory(bytes).unwrap().to_rgb8();
            assert_eq!(tile.dimensions(), (1, 1));
            assert!(tile.get_pixel(0, 0).0.iter().all(|c| *c <= 2));
        }
    }
    let set = converter.tables(4).unwrap();
    for k in 0..6 {
        let table = set.table(Face::from_index(k));
        assert_eq!(table.len(), 1);
        let face = render_face(4, 1, table, &vec![Rgb { r: 0, g: 0, b: 0 }]);
        assert_eq!(face.as_raw(), &vec![0u8, 0, 0]);
    }
}

#[test]
fn solid_colour_panorama() {
    let colour = image::Rgb([0xC0u8, 0x80, 0x40]);
    let panorama = image::RgbImage::from_pixel(1024, 512, colour);
    let mut converter = DzpConverter::create();
    let mut generated = 0;
    let colours = {
        assert!(converter.generate_cache_for_resolution(1024, &sources(1024)));
        samples(&converter, &panorama)
    };
    for k in 0..6 {
        let table = converter.tables(1024).unwrap().table(Face::from_index(k));
        let face = render_face(1024, 256, table, &colours[k]);
        assert_eq!((face.width(), face.height()), (256, 256));
        assert!(face.as_raw().chunks(3).all(|p| p == [0xC0, 0x80, 0x40]));
    }
    let archive = convert(&mut converter, &panorama, &mut generated).unwrap();
    assert_eq!(generated, 0);
    let files = entries(&archive);
    assert_eq!(files.len(), 18);
    let names: Vec<&str> = files.iter().map(|f| f.0.as_str()).collect();
    for (k, letter) in ["f", "b", "l", "r", "d", "u"].iter().enumerate() {
        assert_eq!(names[3 * k], format!("{}_files/0/0_0.jpg", letter));
        assert_eq!(names[3 * k + 1], format!("{}_files/1/0_0.jpg", letter));
        assert_eq!(names[3 * k + 2], format!("{}.dzi", letter));
        let coarse = image::load_from_memory(&files[3 * k].1).unwrap();
        assert_eq!((coarse.width(), coarse.height()), (128, 128));
        let fine = image::load_from_memory(&files[3 * k + 1].1).unwrap();
        assert_eq!((fine.width(), fine.height()), (256, 256));
    }
    for (name, bytes, _) in &files {
        if name.ends_with(".jpg") {
            let tile = image::load_from_memory(bytes).unwrap().to_rgb8();
            for pixel in tile.pixels() {
                assert!((pixel.0[0] as i32 - 0xC0).abs() <= 2);
                assert!((pixel.0[1] as i32 - 0x80).abs() <= 2);
                assert!((pixel.0[2] as i32 - 0x40).abs() <= 2);
            }
        }
    }
}

#[test]
fn dimension_violation_is_an_error() {
    let panorama = image::RgbImage::new(1001, 500);
    let mut converter = DzpConverter::create();
    let mut generated = 0;
    let result = convert(&mut converter, &panorama, &mut generated);
    assert!(matches!(
        result,
        Err(TilingError::InvalidPanoramaDimensions { width: 1001, height: 500 })
    ));
    assert_eq!(converter.cached_widths(), 0);
}

#[test]
fn empty_panorama_is_an_error() {
    let mut converter = DzpConverter::create();
    let mut generated = 0;
    for (w, h) in [(0u32, 0u32), (2, 0), (0, 1), (3, 1), (2, 2)] {
        let panorama = image::RgbImage::new(w, h);
        let result = convert(&mut converter, &panorama, &mut generated);
        match result {
            Err(TilingError::InvalidPanoramaDimensions { width, height }) => {
                assert_eq!((width, height), (w, h));
            }
            other => panic!("unexpected result {:?}", other.map(|b| b.len())),
        }
    }
}

#[test]
fn cache_is_reused_for_a_second_panorama_of_the_same_width() {
    let first = image::RgbImage::from_pixel(64, 32, image::Rgb([1, 2, 3]));
    let second = image::RgbImage::from_pixel(64, 32, image::Rgb([200, 100, 50]));
    let mut converter = DzpConverter::create();
    let mut generated = 0;
    convert(&mut converter, &first, &mut generated).unwrap();
    assert_eq!(generated, 1);
    assert_eq!(converter.cached_widths(), 1);
    convert(&mut converter, &second, &mut generated).unwrap();
    assert_eq!(generated, 1);
    assert_eq!(converter.cached_widths(), 1);
    let again = sources(64);
    assert!(converter.generate_cache_for_resolution(64, &again));
    assert_eq!(converter.cached_widths(), 1);
    let other = image::RgbImage::new(32, 16);
    convert(&mut converter, &other, &mut generated).unwrap();
    assert_eq!(generated, 2);
    assert_eq!(converter.cached_widths(), 2);
}

#[test]
fn tables_offered_again_do_not_replace_the_first() {
    let mut converter = DzpConverter::create();
    let first: Vec<Vec<(u32, u32)>> = (0..6).map(|_| vec![(1, 1)]).collect();
    let second: Vec<Vec<(u32, u32)>> = (0..6).map(|_| vec![(2, 2)]).collect();
    assert!(converter.generate_cache_for_resolution(4, &first));
    for _ in 0..5 {
        assert!(converter.generate_cache_for_resolution(4, &second));
    }
    let table = converter.tables(4).unwrap().table(Face::Front);
    assert_eq!(table.get(0).source_bits, (1, 1));
}

#[test]
fn two_conversions_give_the_same_bytes() {
    let mut panorama = image::RgbImage::new(128, 64);
    for (x, y, pixel) in panorama.enumerate_pixels_mut() {
        *pixel = image::Rgb([(x * 2) as u8, (y * 4) as u8, (x + y) as u8]);
    }
    let mut generated = 0;
    let mut one = DzpConverter::create();
    let first = convert(&mut one, &panorama, &mut generated).unwrap();
    let again = convert(&mut one, &panorama, &mut generated).unwrap();
    let mut other = DzpConverter::create();
    let second = convert(&mut other, &panorama, &mut generated).unwrap();
    assert_eq!(first, again);
    assert_eq!(first, second);
}

#[test]
fn archive_entries_are_stored_under_the_deep_zoom_paths() {
    let mut panorama = image::RgbImage::new(4096, 2048);
    for (x, y, pixel) in panorama.enumerate_pixels_mut() {
        *pixel = image::Rgb([(x / 16) as u8, (y / 8) as u8, ((x + y) / 24) as u8]);
    }
    let mut converter = DzpConverter::create();
    let mut generated = 0;
    let archive = convert(&mut converter, &panorama, &mut generated).unwrap();
    let files = entries(&archive);
    let mut descriptors: Vec<&str> = Vec::new();
    let mut tiles = 0;
    for (name, _, method) in &files {
        assert_eq!(*method, zip::CompressionMethod::Stored);
        if name.ends_with(".dzi") {
            descriptors.push(name.as_str());
        } else {
            assert!(is_tile_path(name, 3), "{}", name);
            tiles += 1;
        }
    }
    assert_eq!(descriptors, vec!["f.dzi", "b.dzi", "l.dzi", "r.dzi", "d.dzi", "u.dzi"]);
    assert_eq!(tiles, 6 * (1 + 1 + 4));
    let mut names: Vec<&str> = files.iter().map(|f| f.0.as_str()).collect();
    names.sort();
    names.dedup();
    assert_eq!(names.len(), files.len());
}

#[test]
fn archive_holds_the_tiles_of_the_tiler() {
    let panorama = image::RgbImage::from_pixel(16, 8, image::Rgb([30, 60, 90]));
    let mut converter = DzpConverter::create();
    let mut generated = 0;
    let archive = convert(&mut converter, &panorama, &mut generated).unwrap();
    let files = entries(&archive);
    let colours = samples(&converter, &panorama);
    let table = converter.tables(16).unwrap().table(Face::Front);
    let face = render_face(16, 4, table, &colours[0]);
    let creator =
        dzp::dzi::TileCreator::new_from_image(face, "f".to_string(), 512, 0, Some(2)).unwrap();
    let blobs = creator.create_tiles().unwrap();
    assert_eq!(blobs.len(), 3);
    for (blob, file) in blobs.iter().zip(files.iter()) {
        assert_eq!(blob.path, file.0);
        assert_eq!(blob.bytes, file.1);
    }
}

#[test]
fn conversion_is_ready_only_with_tables_and_fitting_samples() {
    let mut converter = DzpConverter::create();
    let panorama = image::RgbImage::new(8, 4);
    assert!(converter.conversion_ready(9, 4, &Vec::new()));
    assert!(converter.conversion_ready(0, 0, &Vec::new()));
    assert!(!converter.conversion_ready(8, 4, &Vec::new()));
    assert!(converter.generate_cache_for_resolution(8, &sources(8)));
    assert!(!converter.conversion_ready(8, 4, &Vec::new()));
    let mut colours = samples(&converter, &panorama);
    assert!(converter.conversion_ready(8, 4, &colours));
    colours[3].pop();
    assert!(!converter.conversion_ready(8, 4, &colours));
    colours.pop();
    assert!(!converter.conversion_ready(8, 4, &colours));
}

#[test]
fn a_panorama_is_valid_if_it_is_twice_as_wide_as_high() {
    assert!(DzpConverter::is_valid_panorama(2, 1));
    assert!(DzpConverter::is_valid_panorama(14400, 7200));
    assert!(!DzpConverter::is_valid_panorama(0, 0));
    assert!(!DzpConverter::is_valid_panorama(1001, 500));
    assert!(!DzpConverter::is_valid_panorama(1, 0));
    assert!(!DzpConverter::is_valid_panorama(3, 1));
    assert!(!DzpConverter::is_valid_panorama(4, 4));
    assert!(!DzpConverter::is_valid_panorama(0, u32::MAX));
    assert!(!DzpConverter::is_valid_panorama(u32::MAX - 1, u32::MAX));
}
