use conv::codec::DecodeError;
use conv::color::{get_color_map, Color16, Color32};
use conv::converters::{
    convert_fs, convert_ordered4, convert_ordered8, convert_posterize, for_bayer4, for_bayer8,
    DitheringMethod, RgbaBuffer,
};
use conv::plane::Plane;

fn image(width: u32, height: u32, px: &[(u8, u8, u8, u8)]) -> RgbaBuffer {
    let mut pixels = Vec::new();
    for &(r, g, b, a) in px {
        pixels.extend_from_slice(&[r, g, b, a]);
    }
    RgbaBuffer { width, height, pixels }
}

fn words(p: &Plane<Color16>) -> Vec<u16> {
    p.data.iter().map(|c| c.0).collect()
}

fn plane_of(width: u32, height: u32, ws: &[u16]) -> Plane<Color16> {
    let mut p: Plane<Color16> = Plane::new(width, height);
    for (i, w) in ws.iter().enumerate() {
        let i = i as u32;
        p.set(i % width, i / width, Color16(*w));
    }
    p
}

fn le16(bytes: &[u8]) -> Vec<u16> {
    bytes.chunks(2).map(|c| c[0] as u16 | (c[1] as u16) << 8).collect()
}

#[test]
fn two_pixel_scenario_encodes_to_literal_and_run() {
    let img = image(2, 1, &[(255, 0, 0, 255), (0, 0, 0, 0)]);
    let plane = convert_posterize(&img);
    assert_eq!(words(&plane), vec![0x8000 | (31 << 10), 0x0000]);
    let bytes = plane.encode();
    assert_eq!(&bytes[0..4], b"IMG ");
    assert_eq!(&bytes[4..8], &10u32.to_le_bytes());
    assert_eq!(&bytes[8..12], &2u32.to_le_bytes());
    assert_eq!(&bytes[12..16], &1u32.to_le_bytes());
    assert_eq!(le16(&bytes[16..]), vec![0xFC00, 0x0000]);
    assert_eq!(bytes.len(), 20);
}

#[test]
fn opaque_colors_round_trip_within_one_step() {
    let step_sq = (255.0f64 / 31.0) * (255.0 / 31.0);
    for r in 0..=255u8 {
        for g in (0..=255u8).step_by(5) {
            for b in (0..=255u8).step_by(3) {
                let c = Color32::new(r as i32, g as i32, b as i32, 255);
                let q = Color16::from(c);
                let d = Color32::from(q);
                for (x, y) in [(c.r, d.r), (c.g, d.g), (c.b, d.b)] {
                    let diff = (x - y) as f64;
                    assert!(diff * diff <= step_sq);
                }
                assert_eq!(d.a, 255);
                assert_eq!(Color16::from(d), q);
            }
        }
    }
}

#[test]
fn transparent_pixels_are_the_zero_word() {
    for a in [0u8, 1, 64, 127] {
        let c = Color32::from_rgba(200, 100, 50, a);
        assert_eq!(Color16::from(c), Color16(0));
    }
    assert_eq!(Color32::from(Color16(0)), Color32::new(0, 0, 0, 0));
    assert!(Color16::transparent().is_transparent());
    assert!(!Color16(0x8000).is_transparent());
    assert_eq!(Color32::from_rgba(1, 2, 3, 128), Color32::new(1, 2, 3, 255));
    assert_eq!(Color32::from_rgb(1, 2, 3), Color32::new(1, 2, 3, 255));
}

#[test]
fn packing_layout_and_clamping() {
    assert_eq!(Color16::from(Color32::new(255, 255, 255, 255)), Color16(0xFFFF));
    assert_eq!(Color16::from(Color32::new(8, 16, 24, 1)), Color16(0x8000 | 1 << 10 | 2 << 5 | 3));
    assert_eq!(Color16::from(Color32::new(-20, 300, 7, 0)), Color16(31 << 5));
    assert_eq!(Color16::from(Color32::new(0, 0, 0, -5)), Color16(0));
    assert_eq!(Color16::default(), Color16(0x8000));
    assert_eq!(Color32::default(), Color32::new(0, 0, 0, 255));
    assert_eq!(Color32::from(Color16(0x8000 | 3 << 10 | 31)), Color32::new(25, 0, 255, 255));
}

#[test]
fn color_map_rounds_to_nearest() {
    let map = get_color_map();
    assert_eq!(map.len(), 32);
    assert_eq!(map[0], 0);
    assert_eq!(map[1], 8);
    assert_eq!(map[3], 25);
    assert_eq!(map[16], 132);
    assert_eq!(map[31], 255);
}

#[test]
fn color_arithmetic() {
    let a = Color32::new(10, 20, 30, 0);
    let b = Color32::new(1, 2, 3, 7);
    assert_eq!(a.add(b), Color32::new(11, 22, 33, 255));
    assert_eq!(a.sub(b), Color32::new(9, 18, 27, 255));
    assert_eq!(b.mul(-3), Color32::new(-3, -6, -9, 255));
    let mut c = a;
    c.add_assign(b);
    assert_eq!(c, Color32::new(11, 22, 33, 0));
    assert_eq!(Color32::distance_squared(a, b), 81 + 324 + 729);
    assert_eq!(Color32::distance_squared(a, a), 0);
}

#[test]
fn plane_get_set_add() {
    let mut p: Plane<Color32> = Plane::new(3, 2);
    assert_eq!(p.get(2, 1), Color32::default());
    p.set(2, 1, Color32::new(1, 2, 3, 4));
    assert_eq!(p.get(2, 1), Color32::new(1, 2, 3, 4));
    assert_eq!(p.data[5], Color32::new(1, 2, 3, 4));
    p.add(2, 1, Color32::new(10, 10, 10, 0));
    assert_eq!(p.get(2, 1), Color32::new(11, 12, 13, 4));
    assert_eq!(p.get(0, 0), Color32::default());
    let f: Plane<u16> = Plane::filled(2, 2, 7);
    assert_eq!(f.data, vec![7, 7, 7, 7]);
}

#[test]
fn codec_round_trip_mixed() {
    let ws = [0x8000, 0, 0, 0xFFFF, 0, 0x9234, 0x8001, 0, 0, 0];
    let p = plane_of(5, 2, &ws);
    let bytes = p.encode();
    assert_eq!(le16(&bytes[16..]), vec![0x8000, 1, 0xFFFF, 0, 0x9234, 0x8001, 2]);
    let q = Plane::decode(&bytes).unwrap();
    assert_eq!((q.width, q.height), (5, 2));
    assert_eq!(words(&q), ws.to_vec());
}

#[test]
fn codec_round_trip_long_transparent_run() {
    let n = 70000u32;
    let mut ws = vec![0u16; n as usize];
    ws[5] = 0x8123;
    let p = plane_of(n, 1, &ws);
    let enc = p.encode_words();
    assert_eq!(enc, vec![4, 0x8123, 0x7FFF, 0x7FFF, (70000 - 6 - 65536 - 1) as u16]);
    let q = Plane::decode(&p.encode()).unwrap();
    assert_eq!(words(&q), ws);
}

#[test]
fn codec_round_trip_uniform_planes() {
    let empty = plane_of(40000, 1, &vec![0u16; 40000]);
    assert_eq!(empty.encode_words(), vec![0x7FFF, 40000 - 32768 - 1]);
    assert_eq!(words(&Plane::decode(&empty.encode()).unwrap()), vec![0u16; 40000]);
    let full = plane_of(3, 3, &[0x8421; 9]);
    assert_eq!(full.encode_words(), vec![0x8421; 9]);
    assert_eq!(words(&Plane::decode(&full.encode()).unwrap()), vec![0x8421; 9]);
    let exact = plane_of(32768, 1, &vec![0u16; 32768]);
    assert_eq!(exact.encode_words(), vec![0x7FFF]);
}

#[test]
fn decode_errors() {
    let good = plane_of(2, 1, &[0xFC00, 0]).encode();
    assert!(Plane::decode(&good).is_ok());
    assert_eq!(Plane::decode(&good[..15].to_vec()).err(), Some(DecodeError::Truncated));
    assert_eq!(Plane::decode(&good[..19].to_vec()).err(), Some(DecodeError::Truncated));
    let mut bad = good.clone();
    bad[0] = b'J';
    assert_eq!(Plane::decode(&bad).err(), Some(DecodeError::BadMagic));
    let mut bad = good.clone();
    bad[4] = 11;
    assert_eq!(Plane::decode(&bad).err(), Some(DecodeError::SizeMismatch));
    let mut bad = good.clone();
    bad[8..16].copy_from_slice(&[0, 0, 1, 0, 0, 0, 1, 0]);
    assert_eq!(Plane::decode(&bad).err(), Some(DecodeError::TooLarge));
    let mut bad = good.clone();
    bad[8] = 3;
    assert_eq!(Plane::decode(&bad).err(), Some(DecodeError::PixelCountMismatch));
    let mut bad = good.clone();
    bad[8] = 1;
    assert_eq!(Plane::decode(&bad).err(), Some(DecodeError::PixelCountMismatch));
}

#[test]
fn to_rgba_expands_each_cell() {
    let p = plane_of(2, 1, &[0x8000 | 3 << 10 | 31, 0]);
    assert_eq!(p.to_rgba(), vec![25, 0, 255, 255, 0, 0, 0, 0]);
}

#[test]
fn floyd_steinberg_diffuses_error() {
    let img = image(4, 2, &[(5, 5, 5, 255); 8]);
    let out = convert_fs(&img);
    assert_eq!((out.width, out.height), (4, 2));
    assert_eq!(words(&out), vec![0x8000, 0x8000, 0x8421, 0x8000, 0x8000, 0x8421, 0x8000, 0x8421]);
    let img = image(2, 2, &[(10, 20, 30, 255), (200, 100, 50, 255), (0, 0, 0, 0), (255, 255, 255, 255)]);
    assert_eq!(words(&convert_fs(&img)), vec![0x8443, 0xE586, 0x0, 0xFFFF]);
    let img = image(2, 2, &[(6, 0, 0, 255), (0, 0, 0, 0), (0, 0, 0, 255), (0, 0, 0, 255)]);
    assert_eq!(words(&convert_fs(&img)), vec![0x8000, 0x0, 0x8000, 0x8000]);
}

#[test]
fn ordered_dithering_values_and_repeatability() {
    let img = image(3, 2, &[(100, 100, 100, 255); 6]);
    let o4 = convert_ordered4(&img);
    assert_eq!(words(&o4), vec![0xAD6B, 0xB18C, 0xB18C, 0xB18C, 0xB18C, 0xB18C]);
    assert_eq!(words(&convert_ordered4(&img)), words(&o4));
    let o8 = convert_ordered8(&img);
    assert_eq!(words(&o8), vec![0xAD6B, 0xB18C, 0xB18C, 0xB18C, 0xB18C, 0xB18C]);
    assert_eq!(words(&convert_ordered8(&img)), words(&o8));
    let img = image(2, 2, &[(10, 20, 30, 255), (200, 100, 50, 255), (0, 0, 0, 0), (255, 255, 255, 255)]);
    assert_eq!(words(&convert_ordered4(&img)), vec![0x8023, 0xE586, 0x0, 0xFFFF]);
    assert_eq!(words(&convert_ordered8(&img)), vec![0x8023, 0xE586, 0x0, 0xFFFF]);
}

#[test]
fn bayer_tables() {
    let t4 = for_bayer4();
    assert_eq!(t4.len(), 64);
    assert_eq!(&t4[0..8], &[0, 32, 8, 40, 0, 32, 8, 40]);
    assert_eq!(t4[8 * 4], 0);
    let t8 = for_bayer8();
    assert_eq!(t8[0..4], [0, 32, 8, 40]);
    assert_eq!(t8[63], 21);
}

#[test]
fn posterize_and_strategy_dispatch() {
    let img = image(2, 2, &[(10, 20, 30, 255), (200, 100, 50, 255), (0, 0, 0, 0), (255, 255, 255, 255)]);
    assert_eq!(words(&convert_posterize(&img)), vec![0x8443, 0xE586, 0x0, 0xFFFF]);
    assert_eq!(words(&DitheringMethod::Posterize.convert(&img)), words(&convert_posterize(&img)));
    assert_eq!(words(&DitheringMethod::FloydSteinberg.convert(&img)), words(&convert_fs(&img)));
    assert_eq!(words(&DitheringMethod::Ordered4.convert(&img)), words(&convert_ordered4(&img)));
    assert_eq!(words(&DitheringMethod::Ordered8.convert(&img)), words(&convert_ordered8(&img)));
    let none = image(0, 0, &[]);
    assert!(convert_fs(&none).data.is_empty());
}
