use array_sort::{construct_sorted_frame, get_factors, Array, ColourMap, Rgb};

fn px(r: u8, g: u8, b: u8) -> Rgb {
    Rgb { r, g, b }
}

#[test]
fn factors_of_twelve() {
    assert_eq!(
        get_factors(12),
        vec![(12, 1), (6, 2), (4, 3), (3, 4), (2, 6), (1, 12)]
    );
}

#[test]
fn factors_of_prime_and_one() {
    assert_eq!(get_factors(7), vec![(7, 1), (1, 7)]);
    assert_eq!(get_factors(1), vec![(1, 1)]);
    assert_eq!(get_factors(0), vec![]);
}

#[test]
fn colour_key_orders_channels() {
    assert_eq!(px(1, 2, 3).key(), 0x010203);
    assert!(px(1, 0, 0).key() > px(0, 255, 255).key());
    assert!(px(0, 1, 0).key() > px(0, 0, 255).key());
}

#[test]
fn sorted_frame_descends_along_row_zero() {
    // Six pixels folded to 2 x 3; row 0 is [a, c, b] with c > b > a.
    let a = px(1, 0, 0);
    let b = px(5, 0, 0);
    let c = px(9, 0, 0);
    let x = px(0, 0, 1);
    let y = px(0, 0, 2);
    let z = px(0, 0, 3);
    let frame = Array::from_shape_vec(vec![6, 1], vec![a, c, b, x, y, z]).unwrap();
    let sorted = construct_sorted_frame(frame, 2, 3);
    assert_eq!(sorted.shape(), &vec![2, 3]);
    assert_eq!(sorted.as_vec(), &vec![c, b, a, y, z, x]);
}

#[test]
fn sorted_frame_keeps_equal_columns_in_order() {
    let a = px(3, 3, 3);
    let b = px(7, 7, 7);
    let frame = Array::from_shape_vec(vec![2, 2], vec![a, b, a, b]).unwrap();
    let sorted = construct_sorted_frame(frame, 1, 4);
    assert_eq!(sorted.as_vec(), &vec![b, b, a, a]);
}

#[test]
fn colour_map_hands_out_in_order() {
    let red = px(255, 0, 0);
    let blue = px(0, 0, 255);
    let from = vec![red, blue, red, red];
    let to = vec![px(1, 1, 1), px(2, 2, 2), px(3, 3, 3), px(4, 4, 4)];
    let mut map = ColourMap::load_from_image(&from, &to);
    assert!(map.has_replacement(red));
    assert_eq!(map.fetch_replacement(red), px(1, 1, 1));
    assert_eq!(map.fetch_replacement(blue), px(2, 2, 2));
    assert_eq!(map.fetch_replacement(red), px(3, 3, 3));
    assert_eq!(map.fetch_replacement(red), px(4, 4, 4));
    assert!(!map.has_replacement(red));
    assert!(!map.has_replacement(blue));
    assert!(!map.has_replacement(px(0, 255, 0)));
    map.reset();
    assert!(map.has_replacement(red));
    assert_eq!(map.fetch_replacement(red), px(1, 1, 1));
    assert_eq!(map.fetch_replacement(blue), px(2, 2, 2));
}

#[test]
fn colour_map_uses_shorter_image() {
    let red = px(255, 0, 0);
    let from = vec![red, red, red];
    let to = vec![px(9, 9, 9)];
    let mut map = ColourMap::load_from_image(&from, &to);
    assert_eq!(map.fetch_replacement(red), px(9, 9, 9));
    assert!(!map.has_replacement(red));
}
