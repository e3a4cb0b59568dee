use pixelsort::{build_mask, Channel, ConfigError, Predicate, Threshold};

#[test]
fn mask_of_two_pixels_with_blue_cutoff() {
    let img: Vec<u8> = vec![10, 10, 50, 10, 10, 200];
    let mask = build_mask(&img, Channel::Blue, Predicate::Single(100));
    assert_eq!(mask, vec![false, true]);
}

#[test]
fn mask_reads_the_chosen_channel() {
    let img: Vec<u8> = vec![200, 10, 50, 10, 200, 50, 10, 10, 200];
    assert_eq!(build_mask(&img, Channel::Red, Predicate::Single(100)), vec![true, false, false]);
    assert_eq!(build_mask(&img, Channel::Green, Predicate::Single(100)), vec![false, true, false]);
    assert_eq!(build_mask(&img, Channel::Blue, Predicate::Single(100)), vec![false, false, true]);
}

#[test]
fn mask_with_window_on_red() {
    let img: Vec<u8> = vec![4, 0, 0, 5, 0, 0, 128, 0, 0, 250, 0, 0, 251, 0, 0];
    let window = Predicate::Dual(Threshold { high: 250, low: 5 });
    assert_eq!(build_mask(&img, Channel::Red, window), vec![true, false, false, false, true]);
}

#[test]
fn mask_with_crossed_window_is_all_true() {
    let img: Vec<u8> = (0..=255u8).flat_map(|v| [v, 0, 0]).collect();
    let window = Predicate::Dual(Threshold { high: 10, low: 11 });
    let mask = build_mask(&img, Channel::Red, window);
    assert_eq!(mask.len(), 256);
    assert!(mask.iter().all(|&m| m));
}

#[test]
fn mask_has_one_flag_per_whole_pixel() {
    assert_eq!(build_mask(&[], Channel::Red, Predicate::Single(0)), Vec::<bool>::new());
    assert_eq!(build_mask(&[9, 9], Channel::Red, Predicate::Single(0)), Vec::<bool>::new());
    let img: Vec<u8> = vec![1, 0, 0, 0, 0, 0, 7];
    assert_eq!(build_mask(&img, Channel::Red, Predicate::Single(0)), vec![true, false]);
}

#[test]
fn mask_matches_the_predicate_pixel_by_pixel() {
    let mut img: Vec<u8> = Vec::new();
    let mut state: u32 = 12345;
    for _ in 0..300 {
        state = state.wrapping_mul(1664525).wrapping_add(1013904223);
        img.push((state >> 24) as u8);
    }
    let predicate = Predicate::Dual(Threshold { high: 180, low: 60 });
    let mask = build_mask(&img, Channel::Green, predicate);
    assert_eq!(mask.len(), 100);
    for i in 0..100 {
        let g = img[3 * i + 1];
        assert_eq!(mask[i], g < 60 || g > 180);
    }
}

#[test]
fn channel_from_index() {
    assert_eq!(Channel::from_index(0), Ok(Channel::Red));
    assert_eq!(Channel::from_index(1), Ok(Channel::Green));
    assert_eq!(Channel::from_index(2), Ok(Channel::Blue));
    assert_eq!(Channel::from_index(3), Err(ConfigError::ChannelOutOfRange { index: 3 }));
    assert_eq!(
        Channel::from_index(usize::MAX),
        Err(ConfigError::ChannelOutOfRange { index: usize::MAX })
    );
}

#[test]
fn channel_index_round_trip() {
    for c in [Channel::Red, Channel::Green, Channel::Blue] {
        assert_eq!(Channel::from_index(c.index()), Ok(c));
    }
    assert_eq!(Channel::Red.index(), 0);
    assert_eq!(Channel::Green.index(), 1);
    assert_eq!(Channel::Blue.index(), 2);
}
