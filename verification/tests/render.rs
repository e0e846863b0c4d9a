use raytracer::render::{pack_rgb, pixel_index, tile_coords, unpack_rgb};

#[test]
fn tiles_of_8_by_4_image() {
    assert_eq!(tile_coords(8, 4), vec![(0, 0), (1, 0)]);
}

#[test]
fn tiles_row_by_row() {
    let tiles = tile_coords(12, 8);
    assert_eq!(tiles, vec![(0, 0), (1, 0), (2, 0), (0, 1), (1, 1), (2, 1)]);
}

#[test]
fn tiles_of_empty_image() {
    assert!(tile_coords(0, 8).is_empty());
}

#[test]
fn tiles_cover_each_pixel_once() {
    let (w, h) = (16u32, 12u32);
    let mut hits = vec![0u32; (w * h) as usize];
    for tile in tile_coords(w, h) {
        for py in 0..4 {
            for px in 0..4 {
                let x = 4 * tile.0 + px;
                let y = 4 * tile.1 + py;
                hits[pixel_index(x, y, w, h)] += 1;
            }
        }
    }
    assert!(hits.iter().all(|&c| c == 1));
}

#[test]
fn pixel_index_row_major() {
    assert_eq!(pixel_index(3, 2, 10, 5), 23);
    assert_eq!(pixel_index(0, 0, 1, 1), 0);
}

#[test]
fn pack_places_channels() {
    assert_eq!(pack_rgb(0x12, 0x34, 0x56), 0x123456);
    assert_eq!(pack_rgb(255, 0, 0), 0xFF0000);
}

#[test]
fn unpack_reads_channels() {
    assert_eq!(unpack_rgb(0x123456), (0x12, 0x34, 0x56));
    assert_eq!(unpack_rgb(0xAB123456), (0x12, 0x34, 0x56));
}

#[test]
fn unpack_undoes_pack() {
    for &(r, g, b) in &[(0u8, 0u8, 0u8), (255, 255, 255), (1, 128, 254)] {
        assert_eq!(unpack_rgb(pack_rgb(r, g, b)), (r, g, b));
    }
}
