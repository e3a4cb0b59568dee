use pixelsort::{stable_sort, Channel, Direction, Pixel, SortKey};

fn blue_descending() -> SortKey {
    SortKey { channel: Channel::Blue, direction: Direction::Descending }
}

fn noise(count: usize, seed: u32) -> Vec<Pixel> {
    let mut state = seed;
    let mut out = Vec::new();
    for _ in 0..count {
        state = state.wrapping_mul(1664525).wrapping_add(1013904223);
        let r = (state >> 24) as u8;
        state = state.wrapping_mul(1664525).wrapping_add(1013904223);
        let g = (state >> 24) as u8;
        state = state.wrapping_mul(1664525).wrapping_add(1013904223);
        let b = (state >> 28) as u8;
        out.push(Pixel::new(r, g, b));
    }
    out
}

#[test]
fn rank_follows_the_direction() {
    let p = Pixel::new(1, 2, 3);
    let asc = SortKey { channel: Channel::Green, direction: Direction::Ascending };
    let desc = SortKey { channel: Channel::Green, direction: Direction::Descending };
    assert_eq!(asc.rank(p), 2);
    assert_eq!(desc.rank(p), 253);
    assert_eq!(blue_descending().rank(Pixel::new(0, 0, 255)), 0);
    assert_eq!(blue_descending().rank(Pixel::new(0, 0, 0)), 255);
}

#[test]
fn pixel_channels() {
    let p = Pixel::new(1, 2, 3);
    assert_eq!(p, Pixel { r: 1, g: 2, b: 3 });
    assert_eq!(p.channel(Channel::Red), 1);
    assert_eq!(p.channel(Channel::Green), 2);
    assert_eq!(p.channel(Channel::Blue), 3);
}

#[test]
fn sort_descending_by_blue() {
    let v = vec![Pixel::new(0, 0, 5), Pixel::new(1, 0, 200), Pixel::new(2, 0, 7), Pixel::new(3, 0, 90)];
    let out = stable_sort(&v, blue_descending());
    assert_eq!(
        out,
        vec![Pixel::new(1, 0, 200), Pixel::new(3, 0, 90), Pixel::new(2, 0, 7), Pixel::new(0, 0, 5)]
    );
}

#[test]
fn sort_ascending_by_red() {
    let key = SortKey { channel: Channel::Red, direction: Direction::Ascending };
    let v = vec![Pixel::new(9, 0, 0), Pixel::new(3, 1, 0), Pixel::new(200, 2, 0), Pixel::new(0, 3, 0)];
    let out = stable_sort(&v, key);
    assert_eq!(
        out,
        vec![Pixel::new(0, 3, 0), Pixel::new(3, 1, 0), Pixel::new(9, 0, 0), Pixel::new(200, 2, 0)]
    );
}

#[test]
fn sort_keeps_equal_ranks_in_order() {
    let v = vec![
        Pixel::new(0, 0, 7),
        Pixel::new(1, 0, 9),
        Pixel::new(2, 0, 7),
        Pixel::new(3, 0, 9),
        Pixel::new(4, 0, 7),
        Pixel::new(5, 0, 9),
    ];
    let out = stable_sort(&v, blue_descending());
    assert_eq!(
        out,
        vec![
            Pixel::new(1, 0, 9),
            Pixel::new(3, 0, 9),
            Pixel::new(5, 0, 9),
            Pixel::new(0, 0, 7),
            Pixel::new(2, 0, 7),
            Pixel::new(4, 0, 7),
        ]
    );
}

#[test]
fn sort_leaves_the_input_alone() {
    let v = vec![Pixel::new(0, 0, 1), Pixel::new(0, 0, 2)];
    let copy = v.clone();
    let out = stable_sort(&v, blue_descending());
    assert_eq!(v, copy);
    assert_eq!(out, vec![Pixel::new(0, 0, 2), Pixel::new(0, 0, 1)]);
}

#[test]
fn sort_of_nothing_and_of_one() {
    assert_eq!(stable_sort(&Vec::new(), blue_descending()), Vec::<Pixel>::new());
    let one = vec![Pixel::new(4, 5, 6)];
    assert_eq!(stable_sort(&one, blue_descending()), one);
}

#[test]
fn sort_agrees_with_a_stable_sort_of_std() {
    for (count, seed) in [(2usize, 1u32), (3, 2), (17, 3), (64, 4), (1000, 5), (4097, 6)] {
        let v = noise(count, seed);
        let mut descending = v.clone();
        descending.sort_by(|x, y| y.b.cmp(&x.b));
        assert_eq!(stable_sort(&v, blue_descending()), descending);
        let mut ascending = v.clone();
        ascending.sort_by(|x, y| x.g.cmp(&y.g));
        let key = SortKey { channel: Channel::Green, direction: Direction::Ascending };
        assert_eq!(stable_sort(&v, key), ascending);
    }
}

#[test]
fn sort_is_idempotent() {
    let v = noise(500, 77);
    let once = stable_sort(&v, blue_descending());
    let twice = stable_sort(&once, blue_descending());
    assert_eq!(once, twice);
}
