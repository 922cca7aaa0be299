use rle_image::{Image, Run, RLE};

#[test]
fn merge_overlapping_test() {
    let mut rle = RLE::new(16, 16);
    rle.add_run(Run { x_start: 0, x_end: 10, y: 0 });
    rle.add_run(Run { x_start: 5, x_end: 11, y: 0 });
    rle.add_run(Run { x_start: 5, x_end: 11, y: 1 });
    rle.merge_overlapping_runs_mut();
    assert_eq!(rle.runs().len(), 2);
    assert_eq!(
        rle.runs(),
        &[Run { x_start: 0, x_end: 11, y: 0 }, Run { x_start: 5, x_end: 11, y: 1 }]
    );
}

#[test]
fn encode_to_image_test() {
    let mut a = RLE::new(3, 3);
    a.add_run(Run { x_start: 0, x_end: 0, y: 0 });
    let img = a.to_image(1);
    assert_eq!(img.w(), a.width());
    assert_eq!(img.h(), a.height());
    assert_eq!(img.data(), &[1, 0, 0, 0, 0, 0, 0, 0, 0]);

    a.add_run(Run { x_start: 0, x_end: 2, y: 2 });
    let img = a.to_image(1);
    assert_eq!(img.data(), &[1, 0, 0, 0, 0, 0, 1, 1, 1]);
}

#[test]
fn decode_from_image_test() {
    let img = Image::new(3, 3, vec![0, 1, 0, 0, 1, 1, 0, 0, 0]);
    let rle = RLE::from_image(&img);
    assert_eq!(
        rle,
        RLE::from_runs(
            3,
            3,
            vec![Run { x_start: 1, x_end: 1, y: 0 }, Run { x_start: 1, x_end: 2, y: 1 }],
        )
    );

    let img = Image::new(3, 5, vec![0, 0, 0, 0, 1, 1, 0, 1, 0, 1, 0, 0, 0, 0, 0]);
    let rle = RLE::from_image(&img);
    assert_eq!(
        rle,
        RLE::from_runs(
            3,
            5,
            vec![
                Run { x_start: 1, x_end: 2, y: 1 },
                Run { x_start: 1, x_end: 1, y: 2 },
                Run { x_start: 0, x_end: 0, y: 3 },
            ],
        )
    );
}

#[test]
fn encode_decode_test() {
    let img = Image::new(3, 3, vec![0, 1, 0, 0, 1, 1, 0, 0, 0]);
    let rle = RLE::from_image(&img);
    assert_eq!(img, rle.to_image(1));
}

#[test]
fn dilate_test() {
    let orig = Image::new(
        6,
        6,
        vec![
            0, 1, 0, 0, 0, 0, //
            0, 0, 0, 1, 1, 0, //
            0, 0, 0, 0, 0, 0, //
            0, 0, 0, 0, 0, 0, //
            0, 0, 0, 0, 0, 0, //
            0, 0, 1, 0, 0, 0,
        ],
    );
    let dilate = Image::new(3, 3, vec![1, 1, 1, 1, 1, 1, 1, 1, 1]);
    let rle = RLE::from_image(&orig);
    let result = rle.dilate(&RLE::from_image(&dilate)).to_image(1);
    assert_eq!(
        result,
        Image::new(
            6,
            6,
            vec![
                1, 1, 1, 1, 1, 1, //
                1, 1, 1, 1, 1, 1, //
                0, 0, 1, 1, 1, 1, //
                0, 0, 0, 0, 0, 0, //
                0, 1, 1, 1, 0, 0, //
                0, 1, 1, 1, 0, 0,
            ],
        )
    );

    let dilate = Image::new(3, 3, vec![0, 1, 0, 1, 1, 1, 0, 1, 0]);
    let rle = RLE::from_image(&orig);
    let result = rle.dilate(&RLE::from_image(&dilate)).to_image(1);
    assert_eq!(
        result,
        Image::new(
            6,
            6,
            vec![
                1, 1, 1, 1, 1, 0, //
                0, 1, 1, 1, 1, 1, //
                0, 0, 0, 1, 1, 0, //
                0, 0, 0, 0, 0, 0, //
                0, 0, 1, 0, 0, 0, //
                0, 1, 1, 1, 0, 0,
            ],
        )
    );
}

#[test]
fn erode_test() {
    let orig = Image::new(
        6,
        6,
        vec![
            0, 0, 0, 0, 0, 0, //
            0, 0, 0, 0, 0, 0, //
            0, 0, 1, 0, 0, 0, //
            0, 1, 1, 1, 0, 0, //
            0, 0, 1, 0, 0, 0, //
            0, 0, 1, 0, 0, 0,
        ],
    );
    let erode = Image::new(3, 3, vec![0, 1, 0, 1, 1, 1, 0, 1, 0]);
    let rle = RLE::from_image(&orig);
    let result = rle.erode(&RLE::from_image(&erode)).to_image(1);
    assert_eq!(
        result,
        Image::new(
            6,
            6,
            vec![
                0, 0, 0, 0, 0, 0, //
                0, 0, 0, 0, 0, 0, //
                0, 0, 0, 0, 0, 0, //
                0, 0, 1, 0, 0, 0, //
                0, 0, 0, 0, 0, 0, //
                0, 0, 0, 0, 0, 0,
            ],
        )
    );

    let orig = Image::new(
        5,
        5,
        vec![
            0, 0, 0, 0, 0, //
            0, 1, 1, 1, 0, //
            0, 1, 1, 1, 0, //
            0, 1, 1, 1, 0, //
            0, 1, 1, 1, 0,
        ],
    );
    let erode = Image::new(3, 3, vec![1, 1, 1, 1, 1, 1, 1, 1, 1]);
    let rle = RLE::from_image(&orig);
    let result = rle.erode(&RLE::from_image(&erode)).to_image(1);
    assert_eq!(
        result,
        Image::new(
            5,
            5,
            vec![
                0, 0, 0, 0, 0, //
                0, 0, 0, 0, 0, //
                0, 0, 1, 0, 0, //
                0, 0, 1, 0, 0, //
                0, 0, 1, 0, 0,
            ],
        )
    );
}

#[test]
fn l1_structuring_test() {
    // manhattan distance of 0, no dilation
    let r = RLE::l1_structuring(0);
    let expected = Image::new(1, 1, vec![1]);
    assert_eq!(r, RLE::from_image(&expected));

    // manhattan distance of 1
    let r = RLE::l1_structuring(1);
    let expected = Image::new(3, 3, vec![0, 1, 0, 1, 1, 1, 0, 1, 0]);
    assert_eq!(r, RLE::from_image(&expected));
    // manhattan distance of 1
    let r = RLE::l1_structuring(1);
    let expected = Image::new(3, 3, vec![0, 1, 0, 1, 1, 1, 0, 1, 0]);
    assert_eq!(r, RLE::from_image(&expected));
    // manhattan distance of 1
    let r = RLE::l1_structuring(1);
    let expected = Image::new(3, 3, vec![0, 1, 0, 1, 1, 1, 0, 1, 0]);
    assert_eq!(r, RLE::from_image(&expected));
    // manhattan distance of 1
    let r = RLE::l1_structuring(1);
    let expected = Image::new(3, 3, vec![0, 1, 0, 1, 1, 1, 0, 1, 0]);
    assert_eq!(r, RLE::from_image(&expected));

    // manhattan distance of 2
    let r = RLE::l1_structuring(2);
    let expected = Image::new(
        5,
        5,
        vec![
            0, 0, 1, 0, 0, //
            0, 1, 1, 1, 0, //
            1, 1, 1, 1, 1, //
            0, 1, 1, 1, 0, //
            0, 0, 1, 0, 0,
        ],
    );
    assert_eq!(r, RLE::from_image(&expected));

    // manhattan distance of 3
    let r = RLE::l1_structuring(3);
    let expected = Image::new(
        7,
        7,
        vec![
            0, 0, 0, 1, 0, 0, 0, //
            0, 0, 1, 1, 1, 0, 0, //
            0, 1, 1, 1, 1, 1, 0, //
            1, 1, 1, 1, 1, 1, 1, //
            0, 1, 1, 1, 1, 1, 0, //
            0, 0, 1, 1, 1, 0, 0, //
            0, 0, 0, 1, 0, 0, 0,
        ],
    );
    assert_eq!(r, RLE::from_image(&expected));
}

#[test]
fn linf_structuring_test() {
    let r = RLE::linf_structuring(1);
    let expected = Image::new(3, 3, vec![1, 1, 1, 1, 1, 1, 1, 1, 1]);
    assert_eq!(r, RLE::from_image(&expected));

    let r = RLE::linf_structuring(2);
    let expected = Image::new(5, 5, vec![1; 25]);
    assert_eq!(r, RLE::from_image(&expected));

    let r = RLE::linf_structuring(3);
    let expected = Image::new(7, 7, vec![1; 49]);
    assert_eq!(r, RLE::from_image(&expected));
}
