use dzp::pyramid::{
    ceil_log2_u32, ceil_sqrt_u32, default_level_count, pipeline_level_count,
    scaled_dimension, tile_count_u32, tile_span,
};

#[test]
fn ceil_log2_of_small_numbers() {
    assert_eq!(ceil_log2_u32(0), 0);
    assert_eq!(ceil_log2_u32(1), 0);
    assert_eq!(ceil_log2_u32(2), 1);
    assert_eq!(ceil_log2_u32(3), 2);
    assert_eq!(ceil_log2_u32(4), 2);
    assert_eq!(ceil_log2_u32(5), 3);
    assert_eq!(ceil_log2_u32(256), 8);
    assert_eq!(ceil_log2_u32(257), 9);
    assert_eq!(ceil_log2_u32(3600), 12);
}

#[test]
fn ceil_log2_at_the_top_of_the_range() {
    assert_eq!(ceil_log2_u32(1 << 31), 31);
    assert_eq!(ceil_log2_u32((1 << 31) + 1), 32);
    assert_eq!(ceil_log2_u32(u32::MAX), 32);
}

#[test]
fn ceil_log2_agrees_with_floating_point() {
    for n in 1u32..5000 {
        assert_eq!(ceil_log2_u32(n), (n as f64).log2().ceil() as u32, "n = {}", n);
    }
}

#[test]
fn ceil_sqrt_of_small_numbers() {
    assert_eq!(ceil_sqrt_u32(0), 0);
    assert_eq!(ceil_sqrt_u32(1), 1);
    assert_eq!(ceil_sqrt_u32(2), 2);
    assert_eq!(ceil_sqrt_u32(4), 2);
    assert_eq!(ceil_sqrt_u32(5), 3);
    assert_eq!(ceil_sqrt_u32(7), 3);
    assert_eq!(ceil_sqrt_u32(9), 3);
    assert_eq!(ceil_sqrt_u32(10), 4);
    assert_eq!(ceil_sqrt_u32(65535 * 65535), 65535);
    assert_eq!(ceil_sqrt_u32(65535 * 65535 + 1), 65536);
    assert_eq!(ceil_sqrt_u32(u32::MAX), 65536);
}

#[test]
fn ceil_sqrt_agrees_with_floating_point() {
    for n in 0u32..20000 {
        let expected = (n as f64).sqrt().ceil() as u32;
        assert_eq!(ceil_sqrt_u32(n), expected, "n = {}", n);
    }
}

#[test]
fn default_level_count_is_log2_plus_one() {
    assert_eq!(default_level_count(0, 0), 1);
    assert_eq!(default_level_count(1, 1), 1);
    assert_eq!(default_level_count(2, 1), 2);
    assert_eq!(default_level_count(256, 256), 9);
    assert_eq!(default_level_count(100, 3600), 13);
    assert_eq!(default_level_count(3600, 100), 13);
}

#[test]
fn pipeline_level_count_of_a_3600_face_is_four() {
    assert_eq!(pipeline_level_count(3600, 512), 4);
}

#[test]
fn pipeline_level_count_of_small_faces() {
    assert_eq!(pipeline_level_count(0, 512), 1);
    assert_eq!(pipeline_level_count(1, 512), 2);
    assert_eq!(pipeline_level_count(256, 512), 2);
    assert_eq!(pipeline_level_count(512, 512), 2);
    assert_eq!(pipeline_level_count(513, 512), 3);
    assert_eq!(pipeline_level_count(750, 512), 3);
    assert_eq!(pipeline_level_count(1024, 512), 3);
    assert_eq!(pipeline_level_count(2048, 512), 3);
    assert_eq!(pipeline_level_count(2049, 512), 4);
    assert_eq!(pipeline_level_count(2304, 512), 4);
    assert_eq!(pipeline_level_count(4608, 512), 4);
    assert_eq!(pipeline_level_count(4609, 512), 5);
    assert_eq!(pipeline_level_count(u32::MAX, 1), 65537);
    assert_eq!(pipeline_level_count(u32::MAX, u32::MAX), 2);
}

#[test]
fn pipeline_level_count_agrees_with_floating_point() {
    for tile in [1u32, 3, 256, 512] {
        for face in 0u32..20000 {
            let expected = (face as f64 / tile as f64).sqrt().ceil() as u32 + 1;
            assert_eq!(pipeline_level_count(face, tile), expected, "face = {}", face);
        }
    }
}

#[test]
fn scaled_dimension_halves_per_level() {
    assert_eq!(scaled_dimension(3600, 4, 3), 3600);
    assert_eq!(scaled_dimension(3600, 4, 2), 1800);
    assert_eq!(scaled_dimension(3600, 4, 1), 900);
    assert_eq!(scaled_dimension(3600, 4, 0), 450);
    assert_eq!(scaled_dimension(5, 3, 0), 2);
    assert_eq!(scaled_dimension(5, 3, 1), 3);
    assert_eq!(scaled_dimension(1, 2, 0), 1);
    assert_eq!(scaled_dimension(0, 2, 0), 0);
}

#[test]
fn scaled_dimension_with_very_many_levels() {
    assert_eq!(scaled_dimension(u32::MAX, 33, 0), 1);
    assert_eq!(scaled_dimension(u32::MAX, 40, 0), 1);
    assert_eq!(scaled_dimension(u32::MAX, u32::MAX, 0), 1);
    assert_eq!(scaled_dimension(0, u32::MAX, 0), 0);
    assert_eq!(scaled_dimension(u32::MAX, 32, 0), 2);
    assert_eq!(scaled_dimension(u32::MAX, u32::MAX, u32::MAX - 1), u32::MAX);
}

#[test]
fn finest_level_has_the_size_of_the_image() {
    for size in [0u32, 1, 2, 3, 255, 256, 3600, u32::MAX] {
        for levels in [1u32, 2, 5, 13, 40] {
            assert_eq!(scaled_dimension(size, levels, levels - 1), size);
        }
    }
}

#[test]
fn coarsest_level_fits_a_tile_for_pipeline_levels() {
    for face in 0u32..20000 {
        let levels = pipeline_level_count(face, 512);
        let coarsest = scaled_dimension(face, levels, 0);
        let exceeds = 8 * 512 < face && face <= 9 * 512;
        assert_eq!(coarsest > 512, exceeds, "face = {}", face);
    }
}

#[test]
fn coarsest_level_of_a_full_pyramid_is_one_pixel() {
    for size in 1u32..3000 {
        let levels = default_level_count(size, size);
        assert_eq!(scaled_dimension(size, levels, 0), 1);
    }
}

#[test]
fn tile_count_rounds_up() {
    assert_eq!(tile_count_u32(3600, 512), 8);
    assert_eq!(tile_count_u32(1800, 512), 4);
    assert_eq!(tile_count_u32(900, 512), 2);
    assert_eq!(tile_count_u32(450, 512), 1);
    assert_eq!(tile_count_u32(512, 512), 1);
    assert_eq!(tile_count_u32(513, 512), 2);
    assert_eq!(tile_count_u32(0, 512), 0);
    assert_eq!(tile_count_u32(u32::MAX, 1), u32::MAX);
}

#[test]
fn tile_span_without_overlap() {
    assert_eq!(tile_span(0, 512, 0, 3600), Some((0, 512)));
    assert_eq!(tile_span(1, 512, 0, 3600), Some((512, 1024)));
    assert_eq!(tile_span(7, 512, 0, 3600), Some((3584, 3600)));
    assert_eq!(tile_span(8, 512, 0, 3600), None);
    assert_eq!(tile_span(0, 512, 0, 1), Some((0, 1)));
    assert_eq!(tile_span(0, 512, 0, 0), None);
}

#[test]
fn tile_span_with_overlap() {
    assert_eq!(tile_span(0, 256, 1, 1000), Some((0, 257)));
    assert_eq!(tile_span(1, 256, 1, 1000), Some((255, 513)));
    assert_eq!(tile_span(2, 256, 1, 1000), Some((511, 769)));
    assert_eq!(tile_span(3, 256, 1, 1000), Some((767, 1000)));
    assert_eq!(tile_span(4, 256, 1, 1000), None);
}

#[test]
fn tile_span_with_overlap_larger_than_a_tile() {
    assert_eq!(tile_span(0, 2, 5, 10), Some((0, 7)));
    assert_eq!(tile_span(1, 2, 5, 10), None);
    assert_eq!(tile_span(2, 2, 5, 10), None);
    assert_eq!(tile_span(3, 2, 5, 10), Some((1, 10)));
}

#[test]
fn tile_span_at_the_top_of_the_range() {
    assert_eq!(tile_span(0, u32::MAX, u32::MAX, u32::MAX), Some((0, u32::MAX)));
    assert_eq!(tile_span(u32::MAX - 1, 1, 0, u32::MAX), Some((u32::MAX - 1, u32::MAX)));
    assert_eq!(tile_span(u32::MAX, 1, 0, u32::MAX), None);
    assert_eq!(tile_span(u32::MAX, u32::MAX, 0, u32::MAX), None);
}

#[test]
fn tiles_cover_every_coordinate() {
    for (tile, overlap, dim) in [(4u32, 0u32, 10u32), (4, 1, 10), (4, 4, 17), (1, 1, 5), (7, 3, 7), (512, 0, 450)] {
        let count = tile_count_u32(dim, tile);
        let mut covered = vec![0u32; dim as usize];
        for index in 0..count {
            let (start, end) = tile_span(index, tile, overlap, dim).unwrap();
            assert!(start < end && end <= dim);
            let lo = (index as i64) * (tile as i64) - overlap as i64;
            let hi = (index as i64 + 1) * (tile as i64) + overlap as i64;
            assert_eq!(start as i64, lo.max(0));
            assert_eq!(end as i64, hi.min(dim as i64));
            for p in start..end {
                covered[p as usize] += 1;
            }
        }
        for p in 0..dim {
            assert!(covered[p as usize] >= 1);
            let own = tile_span(p / tile, tile, overlap, dim).unwrap();
            assert!(own.0 <= p && p < own.1);
            if overlap == 0 {
                assert_eq!(covered[p as usize], 1);
            }
        }
    }
}
