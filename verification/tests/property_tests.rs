use rle_image::{Image, Run, RLE};

fn sample() -> RLE {
    let img = Image::new(
        6,
        6,
        vec![
            0, 1, 0, 0, 1, 1, //
            0, 0, 0, 0, 0, 0, //
            1, 1, 1, 0, 1, 0, //
            0, 0, 1, 0, 0, 0, //
            1, 0, 1, 1, 1, 0, //
            1, 1, 1, 1, 1, 1,
        ],
    );
    RLE::from_image(&img)
}

fn other() -> RLE {
    let img = Image::new(
        6,
        6,
        vec![
            1, 1, 0, 0, 1, 0, //
            0, 1, 0, 1, 0, 0, //
            0, 1, 1, 1, 0, 0, //
            0, 0, 0, 0, 0, 0, //
            1, 1, 1, 1, 1, 1, //
            0, 0, 0, 1, 0, 0,
        ],
    );
    RLE::from_image(&img)
}

fn third() -> RLE {
    let img = Image::new(
        6,
        6,
        vec![
            0, 0, 0, 0, 0, 1, //
            1, 1, 1, 1, 1, 1, //
            0, 0, 1, 0, 0, 0, //
            0, 1, 0, 1, 0, 1, //
            0, 0, 0, 0, 0, 0, //
            1, 0, 1, 0, 1, 0,
        ],
    );
    RLE::from_image(&img)
}

#[test]
fn scenario_single_pixel_decode() {
    let mut a = RLE::new(3, 3);
    a.add_run(Run { x_start: 0, x_end: 0, y: 0 });
    assert_eq!(a.to_image(1).data(), &[1, 0, 0, 0, 0, 0, 0, 0, 0]);
}

#[test]
fn scenario_structuring_elements_decode() {
    assert_eq!(
        RLE::l1_structuring(1).to_image(1).data(),
        &[0, 1, 0, 1, 1, 1, 0, 1, 0]
    );
    assert_eq!(RLE::linf_structuring(1).to_image(1).data(), &[1; 9]);
}

#[test]
fn round_trip_binary_grid() {
    let data = vec![
        1, 0, 1, 1, 0, //
        0, 0, 0, 0, 0, //
        1, 1, 1, 1, 1, //
        0, 1, 0, 1, 0,
    ];
    let img = Image::new(5, 4, data.clone());
    let rle = RLE::from_image(&img);
    assert_eq!(rle.to_image(1).into_raw(), data);
}

#[test]
fn round_trip_empty_grid() {
    let data = vec![0; 12];
    let img = Image::new(4, 3, data.clone());
    let rle = RLE::from_image(&img);
    assert_eq!(rle.runs().len(), 0);
    assert_eq!(rle.to_image(1).into_raw(), data);
}

#[test]
fn complement_involution() {
    let x = sample();
    assert_eq!(x.complement().complement(), x);
    let e = RLE::new(4, 4);
    assert_eq!(e.complement().complement(), e);
}

#[test]
fn lazy_complement_matches_eager() {
    for x in [sample(), other(), RLE::new(5, 3), RLE::ones(5, 3)] {
        let eager = x.complement();
        let mut it = x.flip_bits_iter();
        let mut collected: Vec<Run> = Vec::new();
        while let Some(r) = it.next() {
            collected.push(r);
        }
        assert_eq!(collected.as_slice(), eager.runs());
    }
}

#[test]
fn and_commutative_and_idempotent() {
    let a = sample();
    let b = other();
    assert_eq!(a.and(&b), b.and(&a));
    assert_eq!(a.and(&a), a);
}

#[test]
fn or_commutative_associative_identity() {
    let a = sample();
    let b = other();
    let c = third();
    assert_eq!(a.or(&b), b.or(&a));
    assert_eq!(a.or(&b).or(&c), a.or(&b.or(&c)));
    let empty = RLE::new(6, 6);
    assert_eq!(a.or(&empty), a);
    assert_eq!(empty.or(&a), a);
}

#[test]
fn complement_algebra() {
    let a = sample();
    assert_eq!(a.diff(&a), RLE::new(6, 6));
    assert_eq!(a.and(&a.complement()), RLE::new(6, 6));
    assert_eq!(a.or(&a.complement()), RLE::ones(6, 6));
}

#[test]
fn or_assign_matches_or() {
    let a = sample();
    let b = other();
    let mut c = a.clone();
    c.or_assign(&b);
    assert_eq!(c, a.or(&b));
}

#[test]
fn dilation_is_superset_when_center_foreground() {
    let a = sample();
    let s = RLE::l1_structuring(1);
    let orig = a.to_image(1);
    let grown = a.dilate(&s).to_image(1);
    for i in 0..36 {
        if orig.data()[i] == 1 {
            assert_eq!(grown.data()[i], 1);
        }
    }
}

#[test]
fn canonicalization_is_a_fixed_point() {
    let d = sample().dilate(&RLE::linf_structuring(1));
    let again = d.clone().merge_overlapping_runs();
    assert_eq!(again, d);
    let e = sample();
    assert_eq!(e.clone().merge_overlapping_runs(), e);
}

#[test]
fn decode_clips_out_of_canvas_runs() {
    let r = RLE::from_runs(
        3,
        3,
        vec![
            Run { x_start: -2, x_end: 4, y: 1 },
            Run { x_start: 0, x_end: 2, y: 5 },
        ],
    );
    assert_eq!(r.to_image(1).data(), &[0, 0, 0, 1, 1, 1, 0, 0, 0]);
}

#[test]
fn decode_paints_caller_chosen_value() {
    let mut a = RLE::new(2, 2);
    a.add_run(Run { x_start: 1, x_end: 1, y: 0 });
    assert_eq!(a.to_image(7).data(), &[0, 7, 0, 0]);
    assert_eq!(a.to_image(0).data(), &[0, 0, 0, 0]);
}

#[test]
fn empty_and_ones_constructors() {
    assert_eq!(RLE::new(4, 2).to_image(1).data(), &[0; 8]);
    assert_eq!(RLE::ones(4, 2).to_image(1).data(), &[1; 8]);
    assert_eq!(
        RLE::ones(4, 2).runs(),
        &[Run { x_start: 0, x_end: 3, y: 0 }, Run { x_start: 0, x_end: 3, y: 1 }]
    );
}

#[test]
fn encode_treats_any_nonzero_as_foreground() {
    let img = Image::new(3, 1, vec![0, 9, 255]);
    let rle = RLE::from_image(&img);
    assert_eq!(rle.runs(), &[Run { x_start: 1, x_end: 2, y: 0 }]);
}

#[test]
fn image_flip_bits() {
    let img = Image::new(2, 2, vec![0, 3, 1, 0]);
    let flipped = img.clone().flip_bits();
    assert_eq!(flipped.data(), &[1, 0, 0, 1]);
    let mut img2 = img;
    img2.flip_bits_mut();
    assert_eq!(img2.data(), &[1, 0, 0, 1]);
}

#[test]
fn run_builders() {
    let r = Run { x_start: 1, x_end: 2, y: 3 };
    assert_eq!(r.with_x_start(0), Run { x_start: 0, x_end: 2, y: 3 });
    assert_eq!(r.with_x_end(9), Run { x_start: 1, x_end: 9, y: 3 });
    assert_eq!(r.with_y(7), Run { x_start: 1, x_end: 2, y: 7 });
}

#[test]
fn image_accessors() {
    let img = Image::new(2, 3, vec![1, 0, 0, 1, 1, 1]);
    assert_eq!(img.w(), 2);
    assert_eq!(img.h(), 3);
    assert_eq!(Image::empty(2, 3).data(), &[0; 6]);
    assert_eq!(img.into_raw(), vec![1, 0, 0, 1, 1, 1]);
}
