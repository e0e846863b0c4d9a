use raytracer::image_texture::ImageTexture;

fn texture_2x2() -> ImageTexture {
    // pixel (x, y) has channels (10 * (2y + x), +1, +2)
    let mut data = Vec::new();
    for p in 0..4u32 {
        data.push(10 * p);
        data.push(10 * p + 1);
        data.push(10 * p + 2);
    }
    ImageTexture::new(2, 2, data)
}

#[test]
fn new_keeps_dimensions() {
    let texture = texture_2x2();
    assert_eq!(texture.width(), 2);
    assert_eq!(texture.height(), 2);
}

#[test]
fn texel_reads_row_major() {
    let texture = texture_2x2();
    assert_eq!(texture.texel(0, 0), (0, 1, 2));
    assert_eq!(texture.texel(1, 0), (10, 11, 12));
    assert_eq!(texture.texel(0, 1), (20, 21, 22));
    assert_eq!(texture.texel(1, 1), (30, 31, 32));
}

#[test]
fn texel_clamps_to_last_pixel() {
    let texture = texture_2x2();
    assert_eq!(texture.texel(2, 0), (10, 11, 12));
    assert_eq!(texture.texel(u32::MAX, u32::MAX), (30, 31, 32));
}

#[test]
fn texel_keeps_float_bits() {
    let data = vec![0.25f32.to_bits(), 0.5f32.to_bits(), 1.0f32.to_bits()];
    let texture = ImageTexture::new(1, 1, data);
    let (r, g, b) = texture.texel(5, 7);
    assert_eq!(f32::from_bits(r), 0.25);
    assert_eq!(f32::from_bits(g), 0.5);
    assert_eq!(f32::from_bits(b), 1.0);
}
