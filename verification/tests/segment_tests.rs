use pixelsort::{shuffle_bounds, sort_segment, stable_sort, Channel, Direction, Pixel, SortKey};

fn by_blue_descending() -> SortKey {
    SortKey { channel: Channel::Blue, direction: Direction::Descending }
}

fn sorted_copy(mut v: Vec<Pixel>) -> Vec<Pixel> {
    v.sort_by_key(|p| (p.r, p.g, p.b));
    v
}

#[test]
fn shuffle_bounds_of_small_lengths() {
    assert_eq!(shuffle_bounds(0), (0, 0));
    assert_eq!(shuffle_bounds(1), (0, 1));
    assert_eq!(shuffle_bounds(2), (1, 1));
    assert_eq!(shuffle_bounds(3), (1, 2));
    assert_eq!(shuffle_bounds(4), (1, 3));
    assert_eq!(shuffle_bounds(5), (2, 4));
    assert_eq!(shuffle_bounds(10), (3, 7));
    assert_eq!(shuffle_bounds(15), (5, 11));
    assert_eq!(shuffle_bounds(100), (30, 70));
}

#[test]
fn shuffle_bounds_round_a_half_upwards() {
    assert_eq!(shuffle_bounds(5), (2, 4));
    assert_eq!(shuffle_bounds(45), (14, 32));
    assert_eq!(shuffle_bounds(85), (26, 60));
}

#[test]
fn shuffle_bounds_follow_the_formula() {
    for len in 0..5000usize {
        let (start, end) = shuffle_bounds(len);
        assert_eq!(start, (3 * len + 5) / 10);
        assert_eq!(end, (7 * len + 5) / 10);
        assert!(start <= end && end <= len);
    }
}

#[test]
fn shuffle_bounds_of_the_largest_length() {
    let len = usize::MAX;
    let (start, end) = shuffle_bounds(len);
    assert_eq!(start as u128, (3 * (len as u128) + 5) / 10);
    assert_eq!(end as u128, (7 * (len as u128) + 5) / 10);
}

#[test]
fn segment_of_ten_identical_pixels() {
    let segment = vec![Pixel::new(3, 3, 3); 10];
    let mut rng = rand::thread_rng();
    let out = sort_segment(&segment, by_blue_descending(), &mut rng);
    assert_eq!(out.len(), 10);
    assert_eq!(shuffle_bounds(out.len()), (3, 7));
    assert_eq!(out, segment);
}

#[test]
fn segment_head_and_tail_are_sorted() {
    let segment: Vec<Pixel> = (0..10u8).map(|i| Pixel::new(i, 0, 10 * i)).collect();
    let sorted = stable_sort(&segment, by_blue_descending());
    let expected: Vec<Pixel> = (0..10u8).rev().map(|i| Pixel::new(i, 0, 10 * i)).collect();
    assert_eq!(sorted, expected);
    let mut rng = rand::thread_rng();
    for _ in 0..50 {
        let out = sort_segment(&segment, by_blue_descending(), &mut rng);
        assert_eq!(out.len(), 10);
        assert_eq!(&out[..3], &sorted[..3]);
        assert_eq!(&out[7..], &sorted[7..]);
        assert_eq!(sorted_copy(out[3..7].to_vec()), sorted_copy(sorted[3..7].to_vec()));
    }
}

#[test]
fn segment_keeps_its_pixels() {
    let mut state: u32 = 99;
    let mut segment = Vec::new();
    for _ in 0..777 {
        state = state.wrapping_mul(1664525).wrapping_add(1013904223);
        segment.push(Pixel::new((state >> 24) as u8, (state >> 16) as u8, (state >> 8) as u8));
    }
    let mut rng = rand::thread_rng();
    let out = sort_segment(&segment, by_blue_descending(), &mut rng);
    assert_eq!(sorted_copy(out.clone()), sorted_copy(segment.clone()));
    let (start, end) = shuffle_bounds(777);
    assert_eq!((start, end), (233, 544));
    assert!(out[..start].windows(2).all(|w| w[0].b >= w[1].b));
    assert!(out[end..].windows(2).all(|w| w[0].b >= w[1].b));
    let sorted = stable_sort(&segment, by_blue_descending());
    assert_eq!(&out[..start], &sorted[..start]);
    assert_eq!(&out[end..], &sorted[end..]);
}

#[test]
fn segment_ascending_direction() {
    let key = SortKey { channel: Channel::Red, direction: Direction::Ascending };
    let segment: Vec<Pixel> = (0..20u8).rev().map(|i| Pixel::new(i, 1, 2)).collect();
    let mut rng = rand::thread_rng();
    let out = sort_segment(&segment, key, &mut rng);
    let reds: Vec<u8> = out.iter().map(|p| p.r).collect();
    assert_eq!(&reds[..6], &[0, 1, 2, 3, 4, 5]);
    assert_eq!(&reds[14..], &[14, 15, 16, 17, 18, 19]);
    let mut middle = reds[6..14].to_vec();
    middle.sort();
    assert_eq!(middle, vec![6, 7, 8, 9, 10, 11, 12, 13]);
}

#[test]
fn short_segments_come_out_sorted() {
    let mut rng = rand::thread_rng();
    let empty: Vec<Pixel> = Vec::new();
    assert_eq!(sort_segment(&empty, by_blue_descending(), &mut rng), empty);
    let one = vec![Pixel::new(1, 1, 1)];
    assert_eq!(sort_segment(&one, by_blue_descending(), &mut rng), one);
    let two = vec![Pixel::new(1, 0, 1), Pixel::new(2, 0, 9)];
    assert_eq!(
        sort_segment(&two, by_blue_descending(), &mut rng),
        vec![Pixel::new(2, 0, 9), Pixel::new(1, 0, 1)]
    );
    let three = vec![Pixel::new(1, 0, 1), Pixel::new(2, 0, 9), Pixel::new(3, 0, 5)];
    assert_eq!(
        sort_segment(&three, by_blue_descending(), &mut rng),
        vec![Pixel::new(2, 0, 9), Pixel::new(3, 0, 5), Pixel::new(1, 0, 1)]
    );
}

#[test]
fn middle_of_a_long_segment_is_shuffled() {
    let segment: Vec<Pixel> =
        (0..1000u32).map(|i| Pixel::new((i / 256) as u8, (i % 256) as u8, 7)).collect();
    let mut rng = rand::thread_rng();
    let first = sort_segment(&segment, by_blue_descending(), &mut rng);
    let second = sort_segment(&segment, by_blue_descending(), &mut rng);
    assert_eq!(&first[..300], &segment[..300]);
    assert_eq!(&first[700..], &segment[700..]);
    assert_eq!(&second[..300], &segment[..300]);
    assert_eq!(&second[700..], &segment[700..]);
    assert_ne!(&first[300..700], &segment[300..700]);
    assert_ne!(&second[300..700], &segment[300..700]);
    assert_ne!(first, second);
    assert_eq!(sorted_copy(first[300..700].to_vec()), segment[300..700].to_vec());
    assert_eq!(sorted_copy(second[300..700].to_vec()), segment[300..700].to_vec());
}
