use bottleneck::attributes::as_path_of;

#[test]
fn reads_as_path_after_other_attributes() {
    let attrs = vec![
        0x40, 1, 1, 0, // ORIGIN
        0x40, 2, 14, 2, 3, 0, 0, 0x09, 0xc1, 0, 0, 0x1b, 0x1b, 0, 0, 0x5d, 0x61, // AS_PATH
        0x40, 3, 4, 10, 0, 0, 1, // NEXT_HOP
    ];
    assert_eq!(as_path_of(&attrs), Some(vec![2497, 6939, 23905]));
}

#[test]
fn reads_extended_length_and_several_segments() {
    let attrs = vec![0x50, 2, 0, 12, 2, 1, 0, 0, 0, 7, 1, 1, 0, 1, 0, 0];
    assert_eq!(as_path_of(&attrs), Some(vec![7, 65536]));
}

#[test]
fn no_as_path_attribute_gives_none() {
    assert_eq!(as_path_of(&[0x40, 1, 1, 0]), None);
    assert_eq!(as_path_of(&[]), None);
}

#[test]
fn cut_short_attributes_give_none() {
    assert_eq!(as_path_of(&[0x40, 2, 10, 2, 1, 0, 0]), None);
    assert_eq!(as_path_of(&[0x40, 2, 6, 2, 2, 0, 0, 0, 7]), None);
}

#[test]
fn empty_as_path_is_an_empty_path() {
    assert_eq!(as_path_of(&[0x40, 2, 0]), Some(vec![]));
}
