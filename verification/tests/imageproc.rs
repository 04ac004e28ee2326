//! Behaviour of the raster drawing helpers.
use wasnn::imageproc::{
    draw_polygon, fill_rect, stroke_rect, FillIter, Point, Polygon, Rect,
};
use wasnn::ndtensor::{NdTensor, NdTensorView};

/// Return coordinates of all points in `grid` with a non-zero value.
fn nonzero_points(grid: NdTensorView<i32, 2>) -> Vec<Point> {
    let mut points = Vec::new();
    let rows = grid.shape()[0];
    let cols = grid.shape()[1];
    for y in 0..rows {
        for x in 0..cols {
            if *grid.at([y, x]) != 0 {
                points.push(Point::from_yx(y as i32, x as i32))
            }
        }
    }
    points
}

/// Create a 2D tensor from an MxN nested array.
fn image_from_2d_array<const M: usize, const N: usize>(xs: [[i32; N]; M]) -> NdTensor<i32, 2> {
    let mut image = NdTensor::zeros([M, N]);
    for y in 0..M {
        for x in 0..N {
            image.set([y, x], xs[y][x]);
        }
    }
    image
}

/// Compare two single-channel images with i32 pixel values.
fn compare_images(a: NdTensorView<i32, 2>, b: NdTensorView<i32, 2>) {
    assert_eq!(a.shape()[0], b.shape()[0]);
    assert_eq!(a.shape()[1], b.shape()[1]);
    let rows = a.shape()[0];
    let cols = a.shape()[1];
    for y in 0..rows {
        for x in 0..cols {
            assert_eq!(a.at([y, x]), b.at([y, x]), "mismatch at coord [{}, {}]", y, x);
        }
    }
}

#[test]
fn test_draw_polygon() {
    struct Case {
        points: &'static [[i32; 2]],
        expected: NdTensor<i32, 2>,
    }

    let cases = [
        // A simple rect: Straight lines in each direction
        Case {
            points: &[[0, 0], [0, 4], [4, 4], [4, 0]],
            expected: image_from_2d_array([
                [1, 1, 1, 1, 1],
                [1, 0, 0, 0, 1],
                [1, 0, 0, 0, 1],
                [1, 0, 0, 0, 1],
                [1, 1, 1, 1, 1],
            ]),
        },
        // Slopes in each direction.
        Case {
            points: &[[0, 2], [2, 0], [4, 2], [2, 4]],
            expected: image_from_2d_array([
                [0, 0, 1, 0, 0],
                [0, 1, 0, 1, 0],
                [1, 0, 0, 0, 1],
                [0, 1, 0, 1, 0],
                [0, 0, 1, 0, 0],
            ]),
        },
        // Steep slopes in each direction.
        Case {
            points: &[[0, 2], [2, 1], [4, 2], [2, 3]],
            expected: image_from_2d_array([
                [0, 0, 1, 0, 0],
                [0, 1, 1, 0, 0],
                [0, 1, 0, 1, 0],
                [0, 0, 1, 1, 0],
                [0, 0, 1, 0, 0],
            ]),
        },
    ];

    for case in cases {
        let points: Vec<_> = case
            .points
            .iter()
            .map(|[y, x]| Point::from_yx(*y, *x))
            .collect();

        let mut image = NdTensor::zeros(case.expected.shape());
        draw_polygon(&mut image, &points, 1);
        compare_images(image.view(), case.expected.view());
    }
}

#[test]
fn test_stroke_rect() {
    let mut mask = NdTensor::zeros([10, 10]);
    let rect = Rect::from_tlbr(4, 4, 9, 9);

    stroke_rect(&mut mask, rect, 1, 1);
    let points = nonzero_points(mask.view());

    assert_eq!(
        Polygon::new(&points).bounding_rect(),
        rect.adjust_tlbr(0, 0, -1, -1)
    );
}

#[test]
fn test_fill_rect_covers_rect_only() {
    let mut mask = NdTensor::zeros([4, 5]);
    fill_rect(&mut mask, Rect::from_tlbr(1, 1, 3, 4), 7);
    let expected = image_from_2d_array([
        [0, 0, 0, 0, 0],
        [0, 7, 7, 7, 0],
        [0, 7, 7, 7, 0],
        [0, 0, 0, 0, 0],
    ]);
    compare_images(mask.view(), expected.view());
}

#[test]
fn test_fill_iter_square() {
    // The interior of a square: the scan-line fill yields pixels whose
    // crossing count is odd, which excludes the right and bottom edges.
    let points = [
        Point::from_yx(0, 0),
        Point::from_yx(0, 3),
        Point::from_yx(3, 3),
        Point::from_yx(3, 0),
    ];
    let mut iter = FillIter::new(Polygon::new(&points));
    let mut filled = Vec::new();
    while let Some(p) = iter.next_point() {
        filled.push((p.y, p.x));
    }
    assert_eq!(filled, vec![(0, 0), (0, 1), (0, 2), (1, 0), (1, 1), (1, 2), (2, 0), (2, 1), (2, 2)]);
}
