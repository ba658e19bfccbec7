use wavefold::planes::{pack_planes, top_down, unpack_planes, PixelLayout};

fn widen(b: u8) -> f32 {
    b as f32
}

fn quantize(v: f32) -> u8 {
    v.round().clamp(0.0, 255.0) as u8
}

#[test]
fn rgb_rows_are_taken_apart_without_their_padding() {
    // Two rows of two pixels, two bytes of padding behind the first row.
    let data = [1u8, 2, 3, 4, 5, 6, 99, 99, 7, 8, 9, 10, 11, 12];
    let p = unpack_planes(&widen, &data, PixelLayout::Rgb, 2, 2, 8);
    assert_eq!(p.r, vec![1.0, 4.0, 7.0, 10.0]);
    assert_eq!(p.g, vec![2.0, 5.0, 8.0, 11.0]);
    assert_eq!(p.b, vec![3.0, 6.0, 9.0, 12.0]);
}

#[test]
fn bgra_pixels_lose_their_alpha() {
    let data = [1u8, 2, 3, 0, 4, 5, 6, 0];
    let p = unpack_planes(&widen, &data, PixelLayout::Bgra, 2, 1, 8);
    assert_eq!((p.r, p.g, p.b), (vec![3.0, 6.0], vec![2.0, 5.0], vec![1.0, 4.0]));
}

#[test]
fn packed_rows_are_padded_with_zeros() {
    let (r, g, b) = ([1f32, 4.0], [2f32, 5.0], [3f32, 6.0]);
    let out = pack_planes(&quantize, &r, &g, &b, PixelLayout::Rgb, 1, 2, 4);
    assert_eq!(out, vec![1, 2, 3, 0, 4, 5, 6, 0]);
    let out = pack_planes(&quantize, &r, &g, &b, PixelLayout::Bgra, 2, 1, 8);
    assert_eq!(out, vec![3, 2, 1, 255, 6, 5, 4, 255]);
}

#[test]
fn samples_are_rounded_and_held_to_a_byte() {
    let v = [-3.0f32, 0.4, 0.5, 254.6, 300.0];
    let out = pack_planes(&quantize, &v, &v, &v, PixelLayout::Rgb, 5, 1, 15);
    assert_eq!(out, vec![0, 0, 0, 0, 0, 0, 1, 1, 1, 255, 255, 255, 255, 255, 255]);
}

#[test]
fn packing_undoes_unpacking() {
    let data: Vec<u8> = (0..7 * 5 * 3).map(|i| (i * 37 % 256) as u8).collect();
    let p = unpack_planes(&widen, &data, PixelLayout::Rgb, 7, 5, 21);
    assert_eq!(pack_planes(&quantize, &p.r, &p.g, &p.b, PixelLayout::Rgb, 7, 5, 21), data);
    let wide = pack_planes(&quantize, &p.r, &p.g, &p.b, PixelLayout::Rgb, 7, 5, 24);
    for y in 0..5 {
        assert_eq!(wide[y * 24..y * 24 + 21], data[y * 21..y * 21 + 21]);
        assert_eq!(wide[y * 24 + 21..y * 24 + 24], [0, 0, 0]);
    }
}

#[test]
fn unpacking_undoes_packing_but_for_the_rounding() {
    let (r, g, b) = ([1f32, 250.0, 7.4], [2f32, -3.0, 7.6], [3f32, 300.0, 0.0]);
    for (layout, stride) in [(PixelLayout::Rgb, 11), (PixelLayout::Bgra, 12)] {
        let data = pack_planes(&quantize, &r, &g, &b, layout, 3, 1, stride);
        let p = unpack_planes(&widen, &data, layout, 3, 1, stride);
        assert_eq!(p.r, vec![1.0, 250.0, 7.0]);
        assert_eq!(p.g, vec![2.0, 0.0, 8.0]);
        assert_eq!(p.b, vec![3.0, 255.0, 0.0]);
    }
}

#[test]
fn empty_frames_have_empty_planes() {
    let p = unpack_planes(&widen, &[], PixelLayout::Rgb, 4, 0, 12);
    assert!(p.r.is_empty() && p.g.is_empty() && p.b.is_empty());
    assert!(pack_planes(&quantize, &[], &[], &[], PixelLayout::Bgra, 4, 0, 16).is_empty());
}

#[test]
fn rows_in_reverse_come_out_top_down() {
    let data = [1u8, 2, 3, 4, 5, 6];
    assert_eq!(top_down(&data, 2, 3), data.to_vec());
    assert_eq!(top_down(&data, -2, 3), vec![5, 6, 3, 4, 1, 2]);
    assert_eq!(top_down(&top_down(&data, -2, 3), -2, 3), data.to_vec());
    assert_eq!(top_down(&data, 3, 2), data.to_vec());
    assert!(top_down(&data, 0, 4).is_empty());
}
