//! The input of the networks: three colour planes of a square, each value a pixel sample moved
//! into the range from -1 to 1.
use crate::picture::{lemma_place_in_grid, rgb_sample, RgbPixels};
use vstd::prelude::*;

verus! {

/// In which order a network expects the colour planes.
#[derive(Clone, Copy, Debug, PartialEq, Eq, Structural)]
pub enum PlaneOrder {
    /// Blue, green, red.
    Bgr,
    /// Red, green, blue.
    Rgb,
}

impl PlaneOrder {
    /// The channel of a pixel (0 red, 1 green, 2 blue) that a plane holds.
    pub open spec fn channel(self, plane: int) -> int {
        match self {
            PlaneOrder::Bgr => 2 - plane,
            PlaneOrder::Rgb => plane,
        }
    }
}

/// A sample of 0 to 255 as (sample - 127.5) / 128, counted in steps of 1/256.
pub open spec fn centred(sample: u8) -> int {
    2 * sample - 255
}

/// The value that stands in column `x`, row `y` of a plane: the pixel there, or 0 beside and
/// below the picture, which lies in the top left corner.
pub open spec fn plane_value(
    samples: Seq<u8>,
    width: int,
    height: int,
    order: PlaneOrder,
    plane: int,
    x: int,
    y: int,
) -> int {
    if x < width && y < height {
        centred(rgb_sample(samples, width, x, y, order.channel(plane)))
    } else {
        0
    }
}

/// Where column `x`, row `y` of a plane stands in a tensor of planes `side` by `side`.
pub open spec fn tensor_place(side: int, plane: int, x: int, y: int) -> int {
    plane * (side * side) + (y * side + x)
}

/// Whether a tensor holds exactly the planes of a picture of `width` by `height`.
pub open spec fn holds_planes(
    tensor: Seq<i16>,
    samples: Seq<u8>,
    width: int,
    height: int,
    side: int,
    order: PlaneOrder,
) -> bool {
    &&& tensor.len() == 3 * (side * side)
    &&& forall|plane: int, x: int, y: int|
        0 <= plane < 3 && 0 <= x < side && 0 <= y < side ==> #[trigger] tensor[tensor_place(
            side,
            plane,
            x,
            y,
        )] == plane_value(samples, width, height, order, plane, x, y)
}

/// Different places of the planes stand in different places of the tensor, all of them inside.
proof fn lemma_tensor_place(side: int, plane: int, x: int, y: int)
    requires
        0 <= plane < 3,
        0 <= x < side,
        0 <= y < side,
    ensures
        0 <= tensor_place(side, plane, x, y) < 3 * (side * side),
{
    lemma_place_in_grid(x, y, side, side);
    let area = side * side;
    assert(0 <= plane * area <= 2 * area) by (nonlinear_arith)
        requires
            0 <= plane <= 2,
            0 <= area,
    ;
}

proof fn lemma_tensor_place_unique(
    side: int,
    plane: int,
    x: int,
    y: int,
    plane2: int,
    x2: int,
    y2: int,
)
    requires
        0 <= plane < 3,
        0 <= x < side,
        0 <= y < side,
        0 <= plane2 < 3,
        0 <= x2 < side,
        0 <= y2 < side,
        tensor_place(side, plane, x, y) == tensor_place(side, plane2, x2, y2),
    ensures
        plane == plane2,
        x == x2,
        y == y2,
{
    let area = side * side;
    let place = y * side + x;
    let place2 = y2 * side + x2;
    lemma_place_in_grid(x, y, side, side);
    lemma_place_in_grid(x2, y2, side, side);
    vstd::arithmetic::div_mod::lemma_fundamental_div_mod_converse(
        plane * area + place,
        area,
        plane,
        place,
    );
    vstd::arithmetic::div_mod::lemma_fundamental_div_mod_converse(
        plane2 * area + place2,
        area,
        plane2,
        place2,
    );
    vstd::arithmetic::div_mod::lemma_fundamental_div_mod_converse(place, side, y, x);
    vstd::arithmetic::div_mod::lemma_fundamental_div_mod_converse(place2, side, y2, x2);
}

/// The planes of a picture in the top left corner of a square, in steps of 1/256.
pub fn plane_tensor(grid: &RgbPixels, side: u32, order: PlaneOrder) -> (tensor: Vec<i16>)
    requires
        grid.wf(),
        grid.width <= side,
        grid.height <= side,
        3 * (side * side) <= isize::MAX,
    ensures
        holds_planes(
            tensor@,
            grid.samples@,
            grid.width as int,
            grid.height as int,
            side as int,
            order,
        ),
{
    let ghost n = side as int;
    let ghost samples = grid.samples@;
    let ghost (w, h) = (grid.width as int, grid.height as int);
    assert(0 <= n * n) by (nonlinear_arith);
    let area: usize = side as usize * side as usize;
    let mut tensor: Vec<i16> = vec![0i16; 3 * area];
    let width = grid.width as usize;
    let count = grid.samples.len();
    assert forall|plane: int, a: int, b: int|
        0 <= plane < 3 && 0 <= a < n && 0 <= b < n implies #[trigger] tensor@[tensor_place(
        n,
        plane,
        a,
        b,
    )] == 0 by {
        lemma_tensor_place(n, plane, a, b);
    }
    let mut y: u32 = 0;
    while y < grid.height
        invariant
            n == side,
            samples == grid.samples@,
            w == grid.width,
            h == grid.height,
            grid.wf(),
            width == grid.width,
            count == grid.samples@.len(),
            grid.width <= side,
            grid.height <= side,
            0 <= y <= grid.height,
            area == n * n,
            3 * area <= isize::MAX,
            tensor@.len() == 3 * area,
            forall|plane: int, a: int, b: int|
                0 <= plane < 3 && 0 <= a < n && 0 <= b < n ==> #[trigger] tensor@[tensor_place(
                    n,
                    plane,
                    a,
                    b,
                )] == (if b < y { plane_value(samples, w, h, order, plane, a, b) } else { 0 }),
        decreases grid.height - y,
    {
        let mut x: u32 = 0;
        while x < grid.width
            invariant
                n == side,
                samples == grid.samples@,
                w == grid.width,
                h == grid.height,
                grid.wf(),
                width == grid.width,
                count == grid.samples@.len(),
                grid.width <= side,
                grid.height <= side,
                0 <= y < grid.height,
                0 <= x <= grid.width,
                area == n * n,
                3 * area <= isize::MAX,
                tensor@.len() == 3 * area,
                forall|plane: int, a: int, b: int|
                    0 <= plane < 3 && 0 <= a < n && 0 <= b < n ==> #[trigger] tensor@[tensor_place(
                        n,
                        plane,
                        a,
                        b,
                    )] == (if b < y || (b == y && a < x) {
                        plane_value(samples, w, h, order, plane, a, b)
                    } else {
                        0
                    }),
            decreases grid.width - x,
        {
            let ghost before = tensor@;
            proof {
                lemma_place_in_grid(x as int, y as int, n, n);
                lemma_place_in_grid(x as int, y as int, grid.width as int, grid.height as int);
            }
            let from: usize = 3 * (y as usize * width + x as usize);
            let place: usize = y as usize * side as usize + x as usize;
            let red = 2 * grid.samples[from] as i16 - 255;
            let green = 2 * grid.samples[from + 1] as i16 - 255;
            let blue = 2 * grid.samples[from + 2] as i16 - 255;
            let (first, third) = match order {
                PlaneOrder::Bgr => (blue, red),
                PlaneOrder::Rgb => (red, blue),
            };
            tensor.set(place, first);
            tensor.set(area + place, green);
            tensor.set(2 * area + place, third);
            assert forall|plane: int, a: int, b: int|
                0 <= plane < 3 && 0 <= a < n && 0 <= b < n implies #[trigger] tensor@[tensor_place(
                n,
                plane,
                a,
                b,
            )] == (if b < y || (b == y && a < x + 1) {
                plane_value(samples, w, h, order, plane, a, b)
            } else {
                0
            }) by {
                lemma_tensor_place(n, plane, a, b);
                let at = tensor_place(n, plane, a, b);
                assert(before[at] == (if b < y || (b == y && a < x) {
                    plane_value(samples, w, h, order, plane, a, b)
                } else {
                    0
                }));
                assert(tensor_place(n, 0, x as int, y as int) == place);
                assert(tensor_place(n, 1, x as int, y as int) == area + place) by {
                    assert(1 * (n * n) == n * n);
                }
                assert(tensor_place(n, 2, x as int, y as int) == 2 * area + place);
                if a == x && b == y {
                } else {
                    if at == place {
                        lemma_tensor_place_unique(n, plane, a, b, 0, x as int, y as int);
                    }
                    if at == area + place {
                        lemma_tensor_place_unique(n, plane, a, b, 1, x as int, y as int);
                    }
                    if at == 2 * area + place {
                        lemma_tensor_place_unique(n, plane, a, b, 2, x as int, y as int);
                    }
                }
            }
            x += 1;
        }
        y += 1;
    }
    tensor
}

/// The tensor of a picture is unique: two tensors that hold its planes are the same.
pub proof fn law_tensor_determined(
    one: Seq<i16>,
    other: Seq<i16>,
    samples: Seq<u8>,
    width: int,
    height: int,
    side: int,
    order: PlaneOrder,
)
    requires
        side >= 0,
        holds_planes(one, samples, width, height, side, order),
        holds_planes(other, samples, width, height, side, order),
    ensures
        one == other,
{
    assert forall|i: int| 0 <= i < one.len() implies one[i] == other[i] by {
        let area = side * side;
        let plane = i / area;
        let place = i % area;
        assert(area > 0);
        vstd::arithmetic::div_mod::lemma_fundamental_div_mod(i, area);
        assert(0 <= plane < 3 && 0 <= place < area) by (nonlinear_arith)
            requires
                i == area * plane + place,
                0 <= i < 3 * area,
                0 <= place < area,
        ;
        assert(side > 0) by (nonlinear_arith)
            requires
                side * side > 0,
                side >= 0,
        ;
        let y = place / side;
        let x = place % side;
        vstd::arithmetic::div_mod::lemma_fundamental_div_mod(place, side);
        assert(0 <= y < side) by (nonlinear_arith)
            requires
                place == side * y + x,
                0 <= place < side * side,
                0 <= x < side,
        ;
        assert(tensor_place(side, plane, x, y) == i) by (nonlinear_arith)
            requires
                tensor_place(side, plane, x, y) == plane * (side * side) + (y * side + x),
                i == (side * side) * plane + place,
                place == side * y + x,
        ;
    }
    assert(one =~= other);
}

/// What a network sees: pixel by pixel the colours of the picture, in the planes that the network
/// expects, moved from the range of 0 to 255 into that of -255 to 255 in steps of two, and 0 beside
/// and below the picture.
pub proof fn law_planes_show_the_picture(
    tensor: Seq<i16>,
    samples: Seq<u8>,
    width: int,
    height: int,
    side: int,
    order: PlaneOrder,
    x: int,
    y: int,
)
    requires
        holds_planes(tensor, samples, width, height, side, order),
        0 <= x < side,
        0 <= y < side,
    ensures
        tensor.len() == 3 * (side * side),
        ({
            let first = tensor[y * side + x];
            let second = tensor[side * side + (y * side + x)];
            let third = tensor[2 * (side * side) + (y * side + x)];
            if x < width && y < height {
                let red = 2 * samples[3 * (y * width + x)] - 255;
                let green = 2 * samples[3 * (y * width + x) + 1] - 255;
                let blue = 2 * samples[3 * (y * width + x) + 2] - 255;
                &&& second == green
                &&& order is Rgb ==> first == red && third == blue
                &&& order is Bgr ==> first == blue && third == red
            } else {
                first == 0 && second == 0 && third == 0
            }
        }),
{
    assert(tensor_place(side, 0, x, y) == y * side + x);
    assert(tensor_place(side, 1, x, y) == side * side + (y * side + x)) by {
        assert(1 * (side * side) == side * side);
    }
    assert(tensor_place(side, 2, x, y) == 2 * (side * side) + (y * side + x));
    assert(tensor[tensor_place(side, 0, x, y)] == plane_value(
        samples,
        width,
        height,
        order,
        0,
        x,
        y,
    ));
    assert(tensor[tensor_place(side, 1, x, y)] == plane_value(
        samples,
        width,
        height,
        order,
        1,
        x,
        y,
    ));
    assert(tensor[tensor_place(side, 2, x, y)] == plane_value(
        samples,
        width,
        height,
        order,
        2,
        x,
        y,
    ));
}

} // verus!
