use dehaze::{
    dark_channel, dehaze, get_atmospheric, reconstruct, transmission_map, transmission_rgb,
    Fraction, HazeError, HazeParams, Image, Rgb,
};

fn gray(k: u8) -> Rgb {
    Rgb { r: k, g: k, b: k }
}

fn image(width: u32, height: u32, pixels: Vec<Rgb>) -> Image {
    Image::new(width, height, pixels).unwrap()
}

fn corner_scene() -> Image {
    let mut px = Vec::new();
    for y in 0..4u32 {
        for x in 0..4u32 {
            if x < 2 && y < 2 {
                px.push(gray(255));
            } else {
                px.push(gray(100));
            }
        }
    }
    image(4, 4, px)
}

#[test]
fn white_corner_end_to_end() {
    let img = corner_scene();
    let params = HazeParams {
        patch_size: 3,
        omega: Fraction::new(95, 100),
        t_0: Fraction::new(1, 10),
        a_proportion: Fraction::new(1, 4),
    };
    let out = dehaze(&img, params).unwrap();
    assert_eq!(out.atmospheric, gray(255));
    let dark = dark_channel(&img, 3).unwrap();
    let mut expected_dark = vec![100u8; 16];
    expected_dark[0] = 255;
    assert_eq!(dark, expected_dark);
    let mut expected_t = vec![160u8; 16];
    expected_t[0] = 13;
    assert_eq!(out.transmission, expected_t);
    for i in 0..16usize {
        let (x, y) = (i % 4, i / 4);
        let src = img.pixels[i];
        let rgb = &out.radiance[3 * i..3 * i + 3];
        if x < 2 && y < 2 {
            assert_eq!(rgb, &[255, 255, 255]);
        } else {
            assert_eq!(rgb, &[8, 8, 8]);
            assert!(rgb[0] < src.r);
        }
    }
}

#[test]
fn unit_patch_is_min_channel() {
    let px = vec![
        Rgb { r: 10, g: 20, b: 30 },
        Rgb { r: 200, g: 5, b: 90 },
        Rgb { r: 7, g: 7, b: 3 },
        Rgb { r: 255, g: 255, b: 254 },
        Rgb { r: 0, g: 100, b: 100 },
        Rgb { r: 60, g: 50, b: 40 },
    ];
    let img = image(3, 2, px);
    assert_eq!(dark_channel(&img, 1).unwrap(), vec![10, 5, 3, 254, 0, 40]);
}

#[test]
fn uniform_image_dark_and_light() {
    let img = image(5, 4, vec![gray(77); 20]);
    for patch in 1..7u32 {
        assert_eq!(dark_channel(&img, patch).unwrap(), vec![77u8; 20]);
    }
    let dark = dark_channel(&img, 5).unwrap();
    assert_eq!(get_atmospheric(&dark, &img, Fraction::new(1, 10)).unwrap(), gray(77));
}

#[test]
fn window_is_truncated_at_borders() {
    // One row: the window of edge 2 at x covers x + 1 and x.
    let px = vec![gray(50), gray(10), gray(90), gray(30)];
    let img = image(4, 1, px);
    assert_eq!(dark_channel(&img, 2).unwrap(), vec![10, 10, 30, 30]);
    // Edge 3 covers x + 1, x and x - 1.
    assert_eq!(dark_channel(&img, 3).unwrap(), vec![10, 10, 10, 30]);
    // Edge 4 covers x + 2 down to x - 1.
    assert_eq!(dark_channel(&img, 4).unwrap(), vec![10, 10, 10, 30]);
}

#[test]
fn dark_channel_errors() {
    let img = image(2, 2, vec![gray(1); 4]);
    assert_eq!(dark_channel(&img, 0), Err(HazeError::InvalidParameter));
    let bad = Image { width: 0, height: 2, pixels: vec![] };
    assert_eq!(dark_channel(&bad, 3), Err(HazeError::InvalidDimensions));
    let short = Image { width: 2, height: 2, pixels: vec![gray(1); 3] };
    assert_eq!(dark_channel(&short, 3), Err(HazeError::InvalidDimensions));
}

#[test]
fn image_new_checks_size() {
    assert_eq!(Image::new(0, 1, vec![]).err(), Some(HazeError::InvalidDimensions));
    assert_eq!(Image::new(2, 1, vec![gray(0)]).err(), Some(HazeError::InvalidDimensions));
    let img = Image::new(2, 1, vec![gray(0), gray(1)]).unwrap();
    assert_eq!((img.width(), img.height(), img.len()), (2, 1, 2));
    assert_eq!(img.pixel(1), gray(1));
}

#[test]
fn transmission_values() {
    let t = transmission_map(vec![0, 100, 255, 20], Fraction::new(19, 20)).unwrap();
    assert_eq!(t, vec![255, 160, 13, 236]);
    assert_eq!(transmission_map(vec![], Fraction::new(1, 2)), Err(HazeError::InvalidDimensions));
    assert_eq!(transmission_map(vec![1], Fraction::new(0, 2)), Err(HazeError::InvalidParameter));
    assert_eq!(transmission_map(vec![1], Fraction::new(2, 2)), Err(HazeError::InvalidParameter));
    assert_eq!(transmission_map(vec![1], Fraction::new(1, 0)), Err(HazeError::InvalidParameter));
}

#[test]
fn transmission_stays_in_range() {
    let all: Vec<u8> = (0..=255u8).collect();
    let t = transmission_map(all, Fraction::new(999, 1000)).unwrap();
    assert!(t.iter().all(|&v| v >= 1));
}

#[test]
fn light_follows_the_darkness_ranking() {
    let px = vec![Rgb { r: 250, g: 0, b: 0 }, Rgb { r: 10, g: 20, b: 30 }, gray(200)];
    let img = image(3, 1, px);
    // One candidate: the pixel ranked highest, which is not the first.
    let a = get_atmospheric(&vec![10, 200, 50], &img, Fraction::new(1, 3)).unwrap();
    assert_eq!(a, Rgb { r: 10, g: 20, b: 30 });
    // Two candidates: indices 1 and 2; the brighter wins.
    let a = get_atmospheric(&vec![10, 200, 50], &img, Fraction::new(2, 3)).unwrap();
    assert_eq!(a, gray(200));
}

#[test]
fn light_ties_keep_the_first_seen() {
    let px = vec![Rgb { r: 9, g: 200, b: 1 }, Rgb { r: 200, g: 3, b: 3 }, gray(200)];
    let img = image(3, 1, px);
    let a = get_atmospheric(&vec![5, 5, 5], &img, Fraction::new(1, 1)).unwrap();
    assert_eq!(a, Rgb { r: 9, g: 200, b: 1 });
    // Ranking by darkness first: index 2 comes before the others.
    let a = get_atmospheric(&vec![5, 5, 6], &img, Fraction::new(1, 1)).unwrap();
    assert_eq!(a, gray(200));
}

#[test]
fn light_defaults_to_white() {
    let img = image(2, 2, vec![gray(30); 4]);
    // 4 * 0.1 rounds to 0: no candidate.
    assert_eq!(get_atmospheric(&vec![1, 2, 3, 4], &img, Fraction::new(1, 10)).unwrap(), gray(255));
    // 4 * 0.125 = 0.5 rounds up to one candidate.
    assert_eq!(get_atmospheric(&vec![1, 2, 3, 4], &img, Fraction::new(1, 8)).unwrap(), gray(30));
    let black = image(2, 1, vec![gray(0); 2]);
    assert_eq!(get_atmospheric(&vec![0, 0], &black, Fraction::new(1, 1)).unwrap(), gray(255));
}

#[test]
fn light_errors() {
    let img = image(2, 1, vec![gray(3); 2]);
    assert_eq!(get_atmospheric(&vec![1], &img, Fraction::new(1, 2)), Err(HazeError::InvalidDimensions));
    assert_eq!(get_atmospheric(&vec![1, 2], &img, Fraction::new(0, 2)), Err(HazeError::InvalidParameter));
    assert_eq!(get_atmospheric(&vec![1, 2], &img, Fraction::new(3, 2)), Err(HazeError::InvalidParameter));
}

#[test]
fn clear_air_gives_back_the_image() {
    let px = vec![
        Rgb { r: 0, g: 1, b: 2 },
        Rgb { r: 127, g: 128, b: 129 },
        Rgb { r: 253, g: 254, b: 255 },
        Rgb { r: 40, g: 90, b: 160 },
    ];
    let img = image(2, 2, px.clone());
    let dark = dark_channel(&img, 3).unwrap();
    let a = get_atmospheric(&dark, &img, Fraction::new(1, 2)).unwrap();
    let out = reconstruct(&img, &a, &vec![255u8; 4], Fraction::new(1, 10)).unwrap();
    let expected: Vec<u8> = px.iter().flat_map(|p| [p.r, p.g, p.b]).collect();
    assert_eq!(out, expected);
}

#[test]
fn reconstruct_exact_values() {
    let img = image(3, 1, vec![gray(100), gray(150), gray(200)]);
    let a = gray(100);
    // t = 255 / 255 at the first pixel; t0 = 0.5 floors the other two.
    let out = reconstruct(&img, &a, &vec![255, 0, 0], Fraction::new(1, 2)).unwrap();
    assert_eq!(out, vec![100, 100, 100, 200, 200, 200, 255, 255, 255]);
    let dark_px = image(1, 1, vec![gray(100)]);
    let out = reconstruct(&dark_px, &gray(255), &vec![0], Fraction::new(1, 10)).unwrap();
    assert_eq!(out, vec![0, 0, 0]);
}

#[test]
fn higher_floor_moves_less() {
    let img = image(2, 1, vec![Rgb { r: 120, g: 60, b: 250 }, gray(30)]);
    let a = Rgb { r: 100, g: 100, b: 100 };
    let t = vec![20u8, 5];
    let low = reconstruct(&img, &a, &t, Fraction::new(1, 10)).unwrap();
    let high = reconstruct(&img, &a, &t, Fraction::new(1, 2)).unwrap();
    let src = [120i32, 60, 250, 30, 30, 30];
    for c in 0..6 {
        assert!((high[c] as i32 - src[c]).abs() <= (low[c] as i32 - src[c]).abs());
    }
    assert_eq!(high, vec![140, 20, 255, 0, 0, 0]);
}

#[test]
fn reconstruct_errors() {
    let img = image(1, 1, vec![gray(1)]);
    assert_eq!(reconstruct(&img, &gray(2), &vec![], Fraction::new(1, 10)), Err(HazeError::InvalidDimensions));
    assert_eq!(reconstruct(&img, &gray(2), &vec![3], Fraction::new(0, 10)), Err(HazeError::InvalidParameter));
    assert_eq!(reconstruct(&img, &gray(2), &vec![3], Fraction::new(10, 10)), Err(HazeError::InvalidParameter));
}

#[test]
fn transmission_as_rgb() {
    assert_eq!(transmission_rgb(&vec![3, 200]), vec![3, 3, 3, 200, 200, 200]);
    assert_eq!(transmission_rgb(&vec![]), Vec::<u8>::new());
}

#[test]
fn default_parameters() {
    let p = HazeParams::default();
    assert_eq!(p.patch_size, 5);
    assert_eq!(p.omega, Fraction::new(19, 20));
    assert_eq!(p.t_0, Fraction::new(1, 10));
    assert_eq!(p.a_proportion, Fraction::new(1, 500));
    let img = corner_scene();
    assert!(dehaze(&img, p).is_ok());
    let bad = HazeParams { patch_size: 0, ..p };
    assert_eq!(dehaze(&img, bad).err(), Some(HazeError::InvalidParameter));
}

#[test]
fn samples_with_and_without_alpha() {
    let rgb = Image::from_samples(2, 1, 3, &vec![1, 2, 3, 4, 5, 6]).unwrap();
    assert_eq!(rgb.pixels, vec![Rgb { r: 1, g: 2, b: 3 }, Rgb { r: 4, g: 5, b: 6 }]);
    let rgba = Image::from_samples(1, 2, 4, &vec![1, 2, 3, 9, 4, 5, 6, 9]).unwrap();
    assert_eq!(rgba.pixels, vec![Rgb { r: 1, g: 2, b: 3 }, Rgb { r: 4, g: 5, b: 6 }]);
    assert_eq!((rgba.width, rgba.height), (1, 2));
    assert_eq!(Image::from_samples(1, 1, 2, &vec![1, 2]).err(), Some(HazeError::InvalidParameter));
    assert_eq!(Image::from_samples(1, 1, 3, &vec![1, 2]).err(), Some(HazeError::InvalidDimensions));
    assert_eq!(Image::from_samples(0, 1, 3, &vec![]).err(), Some(HazeError::InvalidDimensions));
    assert_eq!(Image::from_samples(1, 1, 4, &vec![1, 2, 3]).err(), Some(HazeError::InvalidDimensions));
}
