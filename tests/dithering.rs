use fsdither::color::{Color, ColorDiff, Palette, ParseColorError};
use fsdither::dither::dither;
use fsdither::pipeline::{dither_scheduled, make_workers};
use fsdither::mutable::Mutable;
use fsdither::shared::{split, BorrowedSlice, OwnedSplit};
use fsdither::worker::Worker;

fn black() -> Color {
    Color::new(0, 0, 0)
}

fn white() -> Color {
    Color::new(255, 255, 255)
}

fn gray(v: u8) -> Color {
    Color::new(v, v, v)
}

fn bw() -> Palette {
    Palette::new(vec![black(), white()])
}

fn five_colors() -> Palette {
    Palette::new(vec![
        Color::from_str("ffffff").unwrap(),
        Color::from_str("ff0000").unwrap(),
        Color::from_str("00ff00").unwrap(),
        Color::from_str("0000ff").unwrap(),
        Color::from_str("000000").unwrap(),
    ])
}

fn gradient(width: usize, height: usize) -> Vec<Color> {
    let mut v = Vec::new();
    for y in 0..height {
        for x in 0..width {
            v.push(Color::new(
                ((x * 37 + y * 11) % 256) as u8,
                ((x * 5 + y * 53) % 256) as u8,
                ((x * y * 7 + 90) % 256) as u8,
            ));
        }
    }
    v
}

#[test]
fn test() {
    println!("{:?}", Color::from_str("0000ff").unwrap());
    println!("{:?}", Color::new(10, 20, 30));
}

#[test]
fn parses_hex_colors() {
    assert_eq!(Color::from_str("0000ff"), Ok(Color::new(0, 0, 255)));
    assert_eq!(Color::from_str("FFa010"), Ok(Color::new(255, 160, 16)));
    assert_eq!(Color::from_str("0a0B0c"), Ok(Color::new(10, 11, 12)));
}

#[test]
fn rejects_wrong_length() {
    assert_eq!(Color::from_str("12345"), Err(ParseColorError::InvalidLength));
    assert_eq!(Color::from_str("1234567"), Err(ParseColorError::InvalidLength));
    assert_eq!(Color::from_str(""), Err(ParseColorError::InvalidLength));
}

#[test]
fn rejects_non_hex_digit() {
    assert_eq!(Color::from_str("12345g"), Err(ParseColorError::InvalidDigit));
    assert_eq!(Color::from_str("#00ff00"), Err(ParseColorError::InvalidDigit));
    assert_eq!(Color::from_str("zz"), Err(ParseColorError::InvalidDigit));
    assert_eq!(Color::from_str("00ff0é"), Err(ParseColorError::InvalidDigit));
}

#[test]
fn getters_and_set() {
    let mut c = Color::new(1, 2, 3);
    assert_eq!((c.r(), c.g(), c.b()), (1, 2, 3));
    c.set(Color::new(4, 5, 6));
    assert_eq!(c, Color::new(4, 5, 6));
}

#[test]
fn color_difference_is_exact() {
    let d = Color::new(10, 20, 30).sub(Color::new(30, 20, 10));
    assert_eq!(d, ColorDiff { r: -20, g: 0, b: 20 });
    let d = Color::new(0, 255, 0).sub(Color::new(255, 0, 0));
    assert_eq!(d, ColorDiff { r: -255, g: 255, b: 0 });
}

#[test]
fn addition_saturates() {
    let c = Color::new(250, 5, 100).add(ColorDiff { r: 10, g: -10, b: 0 });
    assert_eq!(c, Color::new(255, 0, 100));
    let c = Color::new(100, 100, 100).add(ColorDiff { r: 300, g: -300, b: -100 });
    assert_eq!(c, Color::new(255, 0, 0));
    let c = Color::new(0, 255, 7).add(ColorDiff { r: i16::MIN, g: i16::MAX, b: 3 });
    assert_eq!(c, Color::new(0, 255, 10));
    let mut c = Color::new(10, 10, 10);
    c.add_assign(ColorDiff { r: -4, g: 4, b: 0 });
    assert_eq!(c, Color::new(6, 14, 10));
}

#[test]
fn diff_arithmetic() {
    let d = ColorDiff { r: -127, g: 127, b: 16 };
    assert_eq!(d.scale(7, 16), ColorDiff { r: -55, g: 55, b: 7 });
    assert_eq!(d.scale(5, 16), ColorDiff { r: -39, g: 39, b: 5 });
    assert_eq!(d.scale(3, 16), ColorDiff { r: -23, g: 23, b: 3 });
    assert_eq!(d.div(16), ColorDiff { r: -7, g: 7, b: 1 });
    assert_eq!(d.mul(3), ColorDiff { r: -381, g: 381, b: 48 });
    let n = ColorDiff { r: -17, g: 17, b: 5 };
    assert_eq!(n.div(-4), ColorDiff { r: 4, g: -4, b: -1 });
    assert_eq!(n.scale(-3, 2), ColorDiff { r: 25, g: -25, b: -7 });
    let big = ColorDiff { r: i16::MIN, g: i16::MAX, b: -1 };
    assert_eq!(big.div(16), ColorDiff { r: -2048, g: 2047, b: 0 });
    let e = ColorDiff { r: 5, g: 5, b: 5 }.sub(ColorDiff { r: 7, g: -1, b: 5 });
    assert_eq!(e, ColorDiff { r: -2, g: 6, b: 0 });
}

#[test]
fn diff_length() {
    assert_eq!(ColorDiff { r: 3, g: -4, b: 0 }.length(), 25);
    assert_eq!(ColorDiff { r: -255, g: 255, b: 255 }.length(), 3 * 255 * 255);
    assert_eq!(
        ColorDiff { r: i16::MIN, g: i16::MIN, b: i16::MIN }.length(),
        3 * 32768 * 32768
    );
}

#[test]
fn closest_picks_nearest() {
    let p = five_colors();
    assert_eq!(p.closest(&Color::new(250, 10, 10)), 1);
    assert_eq!(p.closest(&Color::new(10, 10, 200)), 3);
    assert_eq!(p.closest(&Color::new(30, 30, 30)), 4);
    assert_eq!(p.closest(&Color::new(240, 240, 240)), 0);
}

#[test]
fn closest_breaks_ties_by_lower_index() {
    let p = Palette::new(vec![Color::new(0, 0, 0), Color::new(20, 0, 0)]);
    assert_eq!(p.closest(&Color::new(10, 0, 0)), 0);
    let p = Palette::new(vec![Color::new(20, 0, 0), Color::new(0, 0, 0)]);
    assert_eq!(p.closest(&Color::new(10, 0, 0)), 0);
    let p = Palette::new(vec![
        Color::new(200, 0, 0),
        Color::new(0, 10, 0),
        Color::new(0, 0, 10),
        Color::new(10, 0, 0),
    ]);
    assert_eq!(p.closest(&Color::new(0, 0, 0)), 1);
}

#[test]
fn palette_colors_and_find() {
    let p = five_colors();
    assert_eq!(p.colors().len(), 5);
    assert_eq!(p.colors()[2], Color::new(0, 255, 0));
    assert_eq!(p.find(&Color::new(0, 0, 255)), Some(3));
    assert_eq!(p.find(&Color::new(1, 2, 3)), None);
    let dup = Palette::new(vec![white(), black(), white()]);
    assert_eq!(dup.find(&white()), Some(0));
}

#[test]
fn white_image_is_unchanged() {
    let mut data = vec![white(), white(), white(), white()];
    dither(&mut data, 2, 2, &bw());
    assert_eq!(data, vec![white(), white(), white(), white()]);
}

#[test]
fn gray_pair_diffuses_to_the_right() {
    let mut data = vec![gray(128), gray(128)];
    dither(&mut data, 2, 1, &bw());
    // 128 is nearer to white; its error, -127, carries -55 to the right,
    // and 73 is nearer to black.
    assert_eq!(data, vec![white(), black()]);
    assert_ne!(data[0], data[1]);
}

#[test]
fn single_column_takes_bottom_center_only() {
    let mut data = vec![gray(128), gray(128), gray(100)];
    dither(&mut data, 1, 3, &bw());
    // Row 0: white, error -127; row 1 gets 5/16 of it: 128 - 39 = 89 -> black,
    // error 89; row 2 gets 89 * 5 / 16 = 27: 127 -> black.
    assert_eq!(data, vec![white(), black(), black()]);
}

#[test]
fn single_row_scans_left_to_right() {
    let mut data = vec![gray(100), gray(100), gray(100), gray(100)];
    dither(&mut data, 4, 1, &bw());
    // 100 -> black (carry 43); 143 -> white (error -112, carry -49);
    // 51 -> black (carry 22); 122 -> black.
    assert_eq!(data, vec![black(), white(), black(), black()]);
}

#[test]
fn two_by_two_gray_diffuses_below() {
    let mut data = vec![gray(100), gray(100), gray(100), gray(100)];
    dither(&mut data, 2, 2, &bw());
    // Row 0: 100 -> black (error 100), 143 -> white (error -112).
    // Row 1, cell 0: 100 + 31 (5/16 of 100) = 131, then - 21 (3/16 of -112) = 110.
    // Row 1, cell 1: 100 + 6 (1/16 of 100) = 106, then - 35 (5/16 of -112) = 71.
    // 110 -> black (error 110, carry 48); 71 + 48 = 119 -> black.
    assert_eq!(data, vec![black(), white(), black(), black()]);
}

#[test]
fn output_is_made_of_palette_colors() {
    let p = five_colors();
    let mut data = gradient(13, 9);
    dither(&mut data, 13, 9, &p);
    for c in &data {
        assert!(p.find(c).is_some());
    }
}

#[test]
fn palette_image_is_a_fixed_point() {
    let p = five_colors();
    let mut data = Vec::new();
    for i in 0..35usize {
        data.push(p.colors()[(i * 7 + i / 3) % 5]);
    }
    let before = data.clone();
    dither(&mut data, 7, 5, &p);
    assert_eq!(data, before);
    dither(&mut data, 7, 5, &p);
    assert_eq!(data, before);
}

#[test]
fn result_does_not_depend_on_interleaving() {
    let p = five_colors();
    let (width, height) = (11, 7);
    let input = gradient(width, height);
    let mut expected = input.clone();
    dither(&mut expected, width, height, &p);
    let schedules: Vec<Vec<usize>> = vec![
        vec![],
        (0..height).collect(),
        (0..height).rev().collect(),
        vec![0, 0, 1, 0, 2, 1, 3, 6, 5, 4, 2, 9, 1, 1],
        vec![6, 5, 4, 3, 2, 1, 0, 0, 0, 1, 1],
        (0..40).map(|k| (k * 5) % height).collect(),
    ];
    for schedule in &schedules {
        let mut data = input.clone();
        dither_scheduled(&mut data, width, height, &p, schedule);
        assert_eq!(data, expected);
    }
}

#[test]
fn one_worker_per_row() {
    let data = gradient(4, 3);
    let ws = make_workers(&data, 4, 3);
    assert_eq!(ws.len(), 3);
    assert_eq!(ws[0].available(), 4);
    assert_eq!(ws[1].available(), 0);
    assert!(ws[0].next_row().is_some());
    assert!(ws[2].next_row().is_none());
    assert!(ws.iter().all(|w| w.position() == 0));
}

#[test]
fn single_row_has_no_handoff() {
    let ws = make_workers(&vec![gray(3), gray(9)], 2, 1);
    assert_eq!(ws.len(), 1);
    assert!(ws[0].next_row().is_none());
}

#[test]
fn worker_releases_the_row_below_behind_it() {
    let p = bw();
    let (o, _b) = split(vec![gray(10), gray(20), gray(30)]);
    let mut w = Worker::new(BorrowedSlice::from_vec(vec![gray(200), gray(60), gray(90)]), Some(o), 3);
    let lent = |w: &Worker| w.next_row().as_ref().map(OwnedSplit::lent);
    assert_eq!(lent(&w), Some(0));
    w.step(&p);
    assert_eq!(lent(&w), Some(0));
    w.step(&p);
    assert_eq!(lent(&w), Some(1));
    assert!(!w.is_done());
    w.step(&p);
    assert_eq!(lent(&w), Some(3));
    assert!(w.is_done());
}

#[test]
fn worker_waits_for_released_cells() {
    let p = bw();
    let (_o, b) = split(vec![gray(10), gray(20), gray(30)]);
    let mut w = Worker::new(BorrowedSlice::from_split(b), None, 3);
    w.run(&p);
    assert_eq!(w.position(), 0);
    w.receive(vec![gray(200)]);
    w.run(&p);
    assert_eq!(w.position(), 1);
    w.receive(vec![gray(0), gray(0)]);
    w.run(&p);
    assert!(w.is_done());
    assert_eq!(w.into_parts().0, vec![white(), black(), black()]);
}

#[test]
fn split_hands_over_released_prefix() {
    let (mut o, mut b) = split(vec![1u32, 2, 3, 4, 5]);
    assert_eq!(o.len(), 5);
    assert_eq!(b.len(), 0);
    *o.index_mut(2) = 30;
    assert_eq!(*o.index(2), 30);
    o.lend(2);
    assert_eq!(o.lent(), 2);
    *o.index_mut(0) = 33;
    b.receive(&o);
    assert_eq!(b.len(), 2);
    assert_eq!(*b.index(1), 2);
    *b.index_mut(1) = 20;
    assert_eq!(o.released_since(1), vec![2]);
    o.lend_all();
    b.receive(&o);
    assert_eq!(b.into_vec(), vec![1, 20, 33, 4, 5]);
}

#[test]
fn borrowed_slice_reads_and_writes() {
    let mut s = BorrowedSlice::from_vec(vec![7u8, 8, 9]);
    assert_eq!(s.len(), 3);
    *s.index_mut(1) = 80;
    assert_eq!(*s.index(1), 80);
    assert_eq!(s.into_vec(), vec![7, 80, 9]);
}

#[test]
fn mutable_borrowed_writes_through() {
    let mut target = Color::new(1, 1, 1);
    {
        let mut m = Mutable::from_ref(&mut target);
        assert_eq!(*m.get(), Color::new(1, 1, 1));
        m.set(Color::new(2, 3, 4));
        let owned = m.copy();
        assert_eq!(*owned.get(), Color::new(2, 3, 4));
    }
    assert_eq!(target, Color::new(2, 3, 4));
}

#[test]
fn mutable_owned_copies_and_clones() {
    let mut m: Mutable<Color> = Mutable::from_value(Color::new(5, 6, 7));
    *m.get_mut() = Color::new(8, 9, 10);
    let other = Mutable::from_value(Color::new(0, 1, 2));
    m.copy_from(&other);
    assert_eq!(*m.get(), Color::new(0, 1, 2));
    let c = m.clone();
    assert_eq!(*c.get(), Color::new(0, 1, 2));
    m.clone_from(&Mutable::from_value(Color::new(3, 3, 3)));
    assert_eq!(*m.get(), Color::new(3, 3, 3));
}
