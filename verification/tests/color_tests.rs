use bobot::{Color, ColorMap};

#[test]
fn from_array_order() {
    let m = ColorMap::from([1, 2]);

    assert_eq!(m[Color::Black], 1);
    assert_eq!(m[Color::White], 2);
}

#[test]
fn from_array_round_trip() {
    let array = [1, 2];
    let m = ColorMap::from(array);
    assert_eq!(m.into_array(), array);
}

#[test]
fn index_mut() {
    let mut colormap = ColorMap::from([1, 2]);

    colormap[Color::Black] = 3;
    assert_eq!(colormap.clone().into_array(), [3, 2]);

    colormap[Color::White] = 4;
    assert_eq!(colormap.into_array(), [3, 4]);
}

#[test]
fn iterator() {
    let m = ColorMap::from([1, 2]);
    let v: Vec<_> = m.clone().into_iter().collect();

    assert_eq!(v, vec![(Color::Black, 1), (Color::White, 2)]);
}

#[test]
fn debug_format() {
    assert_eq!(ColorMap::from([1, 2]).debug_format(), "{Black: 1, White: 2}");
}

#[test]
fn to_perspective_symmetry() {
    assert_eq!(
        ColorMap::from_perspective(Color::Black, 1, 2),
        ColorMap::from_perspective(Color::White, 2, 1)
    );
}

#[test]
fn map() {
    let colormap = ColorMap::from([1, 2]);
    assert_eq!(colormap.map(|x| 10 * x).into_array(), [10, 20]);
}

#[test]
fn map_ref() {
    let colormap = ColorMap::from([1, 2]);
    assert_eq!(colormap.map_ref(|x| 10 * x).into_array(), [10, 20]);
}

#[test]
fn map_order() {
    let colormap = ColorMap::from([9, 8]);
    let mut counter = 0;
    assert_eq!(
        colormap
            .map(move |_| {
                counter += 1;
                counter
            })
            .into_array(),
        [1, 2]
    );
}

#[test]
fn zip() {
    let colormap = ColorMap::from([(0..3).collect::<Vec<_>>(), (10..13).collect::<Vec<_>>()]);

    assert_eq!(
        colormap.zip(),
        vec![
            ColorMap::from([0, 10]),
            ColorMap::from([1, 11]),
            ColorMap::from([2, 12])
        ]
    );
}

#[test]
fn zip_stops_at_shorter() {
    let colormap = ColorMap::from([vec![1, 2, 3], vec![7]]);
    assert_eq!(colormap.zip(), vec![ColorMap::from([1, 7])]);
}

#[test]
fn usize_roundtrip() {
    for c in [Color::Black, Color::White] {
        assert_eq!(Color::try_from(usize::from(c)).unwrap(), c);
    }
}

#[test]
fn wrong_usize() {
    for v in [2usize, 3, 17, usize::MAX] {
        assert!(Color::try_from(v).is_err());
    }
}

#[test]
fn negation_usize() {
    for c in [Color::Black, Color::White] {
        assert_eq!(usize::from(!c), 1 - usize::from(c));
    }
}

#[test]
fn to_perspective_matches_color() {
    for c in [Color::Black, Color::White] {
        let colormap = ColorMap::from([1, 2]);
        assert_eq!(colormap.clone().into_perspective(c), (colormap[c], colormap[!c]));
    }
}

#[test]
fn perspective_roundtrip() {
    for c in [Color::Black, Color::White] {
        assert_eq!(ColorMap::from_perspective(c, 1, 2).into_perspective(c), (1, 2));
    }
}

#[test]
fn as_ref_borrows_entries() {
    let colormap = ColorMap::from([String::from("b"), String::from("w")]);
    let refs = colormap.as_ref();
    assert_eq!(*refs[Color::Black], "b");
    assert_eq!(*refs[Color::White], "w");
}

#[test]
fn array_from_colormap() {
    let array: [i32; 2] = ColorMap::from([5, 6]).into();
    assert_eq!(array, [5, 6]);
}
