use geoimage::{GeoImage, TileError, UNSET};

fn mean(block: &Vec<u64>, divisor: usize) -> u64 {
    let mut sum = 0.0f64;
    for b in block {
        sum += f64::from_bits(*b);
    }
    (sum / divisor as f64).to_bits()
}

fn filled(size: usize, value: f64) -> GeoImage {
    let mut t = GeoImage::new(size, 0, 0, 0).unwrap();
    for y in 0..size {
        for x in 0..size {
            t.set_pixel_value(x, y, value.to_bits()).unwrap();
        }
    }
    t
}

#[test]
fn unset_is_largest_finite_double() {
    assert_eq!(UNSET, f64::MAX.to_bits());
}

#[test]
fn new_tile_is_unset_everywhere() {
    let t = GeoImage::new(4, 2, 1, 3).unwrap();
    assert_eq!(t.size(), 4);
    assert_eq!(t.zoom(), 2);
    assert_eq!(t.x_offset(), 1);
    assert_eq!(t.y_offset(), 3);
    assert_eq!(t.data().len(), 16);
    assert!(t.data().iter().all(|v| *v == UNSET));
    for y in 0..4 {
        for x in 0..4 {
            assert_eq!(f64::from_bits(t.pixel_value(x, y).unwrap()), f64::MAX);
        }
    }
}

#[test]
fn new_rejects_bad_placement() {
    assert_eq!(GeoImage::new(0, 0, 0, 0).unwrap_err(), TileError::InvalidTileCoordinates);
    assert_eq!(GeoImage::new(4, 1, 2, 0).unwrap_err(), TileError::InvalidTileCoordinates);
    assert_eq!(GeoImage::new(4, 1, 0, 2).unwrap_err(), TileError::InvalidTileCoordinates);
    assert_eq!(GeoImage::new(4, 0, 1, 0).unwrap_err(), TileError::InvalidTileCoordinates);
    assert!(GeoImage::new(4, 1, 1, 1).is_ok());
    assert!(GeoImage::new(1, 70, usize::MAX, 0).is_ok());
    assert!(GeoImage::new(1, 10, 1023, 1023).is_ok());
    assert_eq!(GeoImage::new(1, 10, 1024, 0).unwrap_err(), TileError::InvalidTileCoordinates);
}

#[test]
fn set_pixel_value_at_size_fails() {
    for size in [1usize, 2, 3, 4, 7, 16] {
        let mut t = GeoImage::new(size, 0, 0, 0).unwrap();
        assert_eq!(t.set_pixel_value(size, 0, 1.0f64.to_bits()), Err(TileError::PixelOutOfRange));
        assert_eq!(t.set_pixel_value(0, size, 1.0f64.to_bits()), Err(TileError::PixelOutOfRange));
        assert_eq!(t.set_pixel_value(size, size, 1.0f64.to_bits()), Err(TileError::PixelOutOfRange));
        assert!(t.data().iter().all(|v| *v == UNSET));
        assert_eq!(t.set_pixel_value(size - 1, size - 1, 1.0f64.to_bits()), Ok(()));
    }
}

#[test]
fn set_pixel_value_is_row_major() {
    let mut t = GeoImage::new(4, 0, 0, 0).unwrap();
    t.set_pixel_value(1, 2, 42.5f64.to_bits()).unwrap();
    assert_eq!(t.data()[1 + 2 * 4], 42.5f64.to_bits());
    assert_eq!(t.pixel_value(1, 2), Ok(42.5f64.to_bits()));
    assert_eq!(t.pixel_value(2, 1), Ok(UNSET));
    assert_eq!(t.data().iter().filter(|v| **v != UNSET).count(), 1);
    assert_eq!(t.pixel_value(4, 0), Err(TileError::PixelOutOfRange));
}

#[test]
fn pixel_corners_lie_in_tile_cell() {
    let t = GeoImage::new(256, 3, 5, 2).unwrap();
    assert_eq!(t.pixel_position(0, 0), Ok((5 * 256, 2 * 256)));
    assert_eq!(t.pixel_position(255, 255), Ok((5 * 256 + 255, 2 * 256 + 255)));
    let denominator = (256 * 8) as f64;
    let (u, v) = t.pixel_position(255, 255).unwrap();
    let (u, v) = (u as f64 / denominator, v as f64 / denominator);
    assert!(5.0 / 8.0 <= u && u < 6.0 / 8.0);
    assert!(2.0 / 8.0 <= v && v < 3.0 / 8.0);
    assert_eq!(t.pixel_position(256, 0), Err(TileError::PixelOutOfRange));
}

#[test]
fn pixel_position_of_whole_world_tile() {
    let t = GeoImage::new(2, 0, 0, 0).unwrap();
    assert_eq!(t.pixel_position(1, 0), Ok((1, 0)));
    assert_eq!(t.pixel_position(1, 1), Ok((1, 1)));
}

#[test]
fn scaled_down_constant_tile_keeps_last_row_and_column_unset() {
    let k = 8.0f64;
    let t = filled(4, k);
    let c = t.scaled_down_clone(2, mean).unwrap();
    assert_eq!(c.size(), 2);
    assert_eq!(c.zoom(), 0);
    assert_eq!(c.data().len(), 4);
    // one sample of the 2 x 2 square is summed, and the sum divided by 4
    assert_eq!(f64::from_bits(c.pixel_value(0, 0).unwrap()), k / 4.0);
    assert_eq!(c.pixel_value(1, 0), Ok(UNSET));
    assert_eq!(c.pixel_value(0, 1), Ok(UNSET));
    assert_eq!(c.pixel_value(1, 1), Ok(UNSET));
}

#[test]
fn scaled_down_by_three_averages_corner_block() {
    let mut t = GeoImage::new(6, 4, 3, 9).unwrap();
    for y in 0..6 {
        for x in 0..6 {
            t.set_pixel_value(x, y, ((x + 10 * y) as f64).to_bits()).unwrap();
        }
    }
    let c = t.scaled_down_clone(2, mean).unwrap();
    assert_eq!((c.size(), c.zoom(), c.x_offset(), c.y_offset()), (2, 4, 3, 9));
    // samples (0,0), (1,0), (0,1), (1,1): 0 + 1 + 10 + 11, over 9
    assert_eq!(f64::from_bits(c.pixel_value(0, 0).unwrap()), 22.0 / 9.0);
    assert_eq!(c.pixel_value(1, 1), Ok(UNSET));
}

#[test]
fn scaled_down_passes_block_in_row_order() {
    let mut t = GeoImage::new(9, 0, 0, 0).unwrap();
    for y in 0..9 {
        for x in 0..9 {
            t.set_pixel_value(x, y, (x + 100 * y) as u64).unwrap();
        }
    }
    let c = t
        .scaled_down_clone(3, |b: &Vec<u64>, d: usize| {
            assert_eq!(d, 9);
            b[0] * 1_000_000 + b[1] * 1000 + b[2]
        })
        .unwrap();
    // block of (1, 0): source columns 3..5, rows 0..2
    assert_eq!(c.pixel_value(1, 0), Ok(3 * 1_000_000 + 4 * 1000 + 103));
    assert_eq!(c.pixel_value(1, 1), Ok(303 * 1_000_000 + 304 * 1000 + 403));
    assert_eq!(c.pixel_value(2, 0), Ok(UNSET));
}

#[test]
fn scaled_down_rejects_bad_sizes() {
    let t = filled(4, 1.0);
    assert_eq!(t.scaled_down_clone(0, mean).unwrap_err(), TileError::InvalidScale);
    assert_eq!(t.scaled_down_clone(4, mean).unwrap_err(), TileError::InvalidScale);
    assert_eq!(t.scaled_down_clone(5, mean).unwrap_err(), TileError::InvalidScale);
    assert_eq!(t.scaled_down_clone(3, mean).unwrap_err(), TileError::InvalidScale);
    assert!(t.scaled_down_clone(1, mean).is_ok());
}

#[test]
fn parts_round_trip() {
    let mut t = GeoImage::new(3, 5, 17, 30).unwrap();
    for y in 0..3 {
        for x in 0..3 {
            t.set_pixel_value(x, y, ((x * 7 + y) as f64 * 0.25).to_bits()).unwrap();
        }
    }
    let back = GeoImage::from_parts(t.size(), t.zoom(), t.x_offset(), t.y_offset(), t.data().clone()).unwrap();
    assert_eq!(
        (back.size(), back.zoom(), back.x_offset(), back.y_offset()),
        (t.size(), t.zoom(), t.x_offset(), t.y_offset())
    );
    assert_eq!(back.data(), t.data());
}

#[test]
fn from_parts_rejects_bad_parts() {
    assert_eq!(GeoImage::from_parts(3, 0, 0, 0, vec![0; 8]).unwrap_err(), TileError::DataLengthMismatch);
    assert_eq!(GeoImage::from_parts(3, 0, 1, 0, vec![0; 9]).unwrap_err(), TileError::InvalidTileCoordinates);
    assert_eq!(GeoImage::from_parts(0, 0, 0, 0, vec![]).unwrap_err(), TileError::InvalidTileCoordinates);
    assert_eq!(GeoImage::from_parts(usize::MAX, 0, 0, 0, vec![]).unwrap_err(), TileError::DataLengthMismatch);
}
