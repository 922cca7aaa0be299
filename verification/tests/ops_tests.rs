use rle_image::{Image, Run, RLE};

#[test]
fn and_test() {
    let a = Image::new(
        6,
        6,
        vec![
            1, 0, 0, 0, 0, 0, //
            0, 0, 0, 0, 0, 0, //
            0, 0, 1, 1, 1, 0, //
            0, 0, 1, 0, 0, 0, //
            0, 0, 1, 1, 1, 1, //
            0, 0, 0, 0, 0, 0,
        ],
    );
    let b = Image::new(
        6,
        6,
        vec![
            0, 1, 1, 1, 0, 0, //
            0, 0, 0, 1, 0, 0, //
            0, 0, 1, 1, 1, 0, //
            0, 0, 1, 0, 0, 0, //
            0, 0, 1, 1, 0, 1, //
            0, 0, 0, 0, 0, 0,
        ],
    );
    let rle = RLE::from_image(&a).and(&RLE::from_image(&b));
    assert_eq!(
        rle.to_image(1),
        Image::new(
            6,
            6,
            vec![
                0, 0, 0, 0, 0, 0, //
                0, 0, 0, 0, 0, 0, //
                0, 0, 1, 1, 1, 0, //
                0, 0, 1, 0, 0, 0, //
                0, 0, 1, 1, 0, 1, //
                0, 0, 0, 0, 0, 0,
            ],
        )
    );
    assert_eq!(
        rle,
        RLE::from_runs(
            6,
            6,
            vec![
                Run { x_start: 2, x_end: 4, y: 2 },
                Run { x_start: 2, x_end: 2, y: 3 },
                Run { x_start: 2, x_end: 3, y: 4 },
                Run { x_start: 5, x_end: 5, y: 4 },
            ],
        )
    );
}

#[test]
fn sub_test() {
    let a = Image::new(
        6,
        6,
        vec![
            1, 0, 0, 0, 0, 1, //
            0, 0, 0, 0, 0, 0, //
            0, 0, 1, 1, 1, 0, //
            0, 0, 1, 0, 0, 0, //
            0, 0, 1, 1, 1, 1, //
            0, 0, 0, 0, 0, 0,
        ],
    );
    let b = Image::new(
        6,
        6,
        vec![
            0, 1, 1, 1, 0, 0, //
            0, 0, 0, 1, 0, 0, //
            0, 0, 1, 1, 1, 0, //
            0, 0, 1, 0, 0, 0, //
            0, 0, 1, 1, 1, 1, //
            0, 0, 0, 0, 0, 0,
        ],
    );
    let rle = RLE::from_image(&a).diff(&RLE::from_image(&b));
    assert_eq!(
        rle.to_image(1),
        Image::new(
            6,
            6,
            vec![
                1, 0, 0, 0, 0, 1, //
                0, 0, 0, 0, 0, 0, //
                0, 0, 0, 0, 0, 0, //
                0, 0, 0, 0, 0, 0, //
                0, 0, 0, 0, 0, 0, //
                0, 0, 0, 0, 0, 0,
            ],
        )
    );
    assert_eq!(
        rle,
        RLE::from_runs(
            6,
            6,
            vec![Run { x_start: 0, x_end: 0, y: 0 }, Run { x_start: 5, x_end: 5, y: 0 }],
        )
    );
}

#[test]
fn not_test() {
    let img = Image::new(
        6,
        6,
        vec![
            0, 1, 0, 0, 0, 0, //
            0, 0, 0, 0, 0, 0, //
            0, 0, 1, 1, 1, 0, //
            0, 0, 1, 0, 0, 0, //
            0, 0, 1, 1, 1, 0, //
            0, 0, 0, 0, 0, 0,
        ],
    );
    let rle = RLE::from_image(&img).complement();
    assert_eq!(
        rle.to_image(1),
        Image::new(
            6,
            6,
            vec![
                1, 0, 1, 1, 1, 1, //
                1, 1, 1, 1, 1, 1, //
                1, 1, 0, 0, 0, 1, //
                1, 1, 0, 1, 1, 1, //
                1, 1, 0, 0, 0, 1, //
                1, 1, 1, 1, 1, 1,
            ],
        )
    );
    assert_eq!(rle.complement().to_image(1), img);
    assert_eq!(
        rle,
        RLE::from_runs(
            6,
            6,
            vec![
                Run { x_start: 0, x_end: 0, y: 0 },
                Run { x_start: 2, x_end: 5, y: 0 },
                Run { x_start: 0, x_end: 5, y: 1 },
                Run { x_start: 0, x_end: 1, y: 2 },
                Run { x_start: 5, x_end: 5, y: 2 },
                Run { x_start: 0, x_end: 1, y: 3 },
                Run { x_start: 3, x_end: 5, y: 3 },
                Run { x_start: 0, x_end: 1, y: 4 },
                Run { x_start: 5, x_end: 5, y: 4 },
                Run { x_start: 0, x_end: 5, y: 5 },
            ],
        )
    );
}

#[test]
fn flip_bits_test() {
    let img = Image::new(
        6,
        6,
        vec![
            0, 1, 0, 0, 0, 0, //
            0, 0, 0, 0, 0, 0, //
            0, 0, 1, 1, 1, 0, //
            0, 0, 1, 0, 0, 0, //
            0, 0, 1, 1, 1, 0, //
            0, 0, 0, 0, 0, 0,
        ],
    );
    let rle = RLE::from_image(&img);
    let mut it = rle.flip_bits_iter();
    let mut runs: Vec<Run> = Vec::new();
    while let Some(r) = it.next() {
        runs.push(r);
    }
    assert_eq!(
        RLE::from_runs(6, 6, runs.clone()).to_image(1),
        Image::new(
            6,
            6,
            vec![
                1, 0, 1, 1, 1, 1, //
                1, 1, 1, 1, 1, 1, //
                1, 1, 0, 0, 0, 1, //
                1, 1, 0, 1, 1, 1, //
                1, 1, 0, 0, 0, 1, //
                1, 1, 1, 1, 1, 1,
            ],
        )
    );
    let again = RLE::from_runs(6, 6, runs.clone());
    let mut it2 = again.flip_bits_iter();
    let mut runs2: Vec<Run> = Vec::new();
    while let Some(r) = it2.next() {
        runs2.push(r);
    }
    assert_eq!(RLE::from_runs(6, 6, runs2).to_image(1), img);
    assert_eq!(
        runs,
        vec![
            Run { x_start: 0, x_end: 0, y: 0 },
            Run { x_start: 2, x_end: 5, y: 0 },
            Run { x_start: 0, x_end: 5, y: 1 },
            Run { x_start: 0, x_end: 1, y: 2 },
            Run { x_start: 5, x_end: 5, y: 2 },
            Run { x_start: 0, x_end: 1, y: 3 },
            Run { x_start: 3, x_end: 5, y: 3 },
            Run { x_start: 0, x_end: 1, y: 4 },
            Run { x_start: 5, x_end: 5, y: 4 },
            Run { x_start: 0, x_end: 5, y: 5 },
        ]
    );
}
