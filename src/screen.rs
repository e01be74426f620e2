//! The pixel buffer and its text form, the plain portable pixmap.
use vstd::prelude::*;
use crate::fixed::{clamp, clamp_i128, SCALE};
use crate::vec3::{v_div, v_sqrt, Color, Vec3};

verus! {

pub open spec fn digit(d: int) -> char {
    seq!['0', '1', '2', '3', '4', '5', '6', '7', '8', '9'][d]
}

/// The decimal digits of `n`, without leading zeros.
pub open spec fn decimal(n: nat) -> Seq<char>
    decreases n,
{
    if n < 10 {
        seq![digit(n as int)]
    } else {
        decimal(n / 10).push(digit((n % 10) as int))
    }
}

/// Numbers in decimal, separated by single spaces.
pub open spec fn numbers_text(a: nat, b: nat) -> Seq<char> {
    decimal(a) + seq![' '] + decimal(b)
}

/// Relies on `format!` and std's `Display` for `u32`: each number in decimal
/// digits, without sign or padding, separated by a single space.
#[verifier::external_body]
fn two_numbers(a: u32, b: u32) -> (r: String)
    ensures
        r@ == numbers_text(a as nat, b as nat),
{
    format!("{} {}", a, b)
}

/// Relies on `format!` and std's `Display` for `u32`: each number in decimal
/// digits, without sign or padding, separated by single spaces.
#[verifier::external_body]
fn three_numbers(a: u32, b: u32, c: u32) -> (r: String)
    ensures
        r@ == numbers_text(a as nat, b as nat) + seq![' '] + decimal(c as nat),
{
    format!("{} {} {}", a, b, c)
}

/// A colour channel as an 8-bit value: clamped to `[0, 0.999]` and scaled by 256.
pub open spec fn channel(c: int) -> int {
    256 * clamp(c, 0, 999000) / (SCALE as int)
}

/// A colour as the text `"R G B"` of its 8-bit channels.
pub open spec fn color_text(c: Color) -> Seq<char> {
    numbers_text(channel(c.x as int) as nat, channel(c.y as int) as nat) + seq![' '] + decimal(
        channel(c.z as int) as nat,
    )
}

fn channel_value(c: i64) -> (r: u32)
    ensures
        r == channel(c as int),
{
    let v = clamp_i128(c as i128, 0, 999000);
    ((256 * v) / (SCALE as i128)) as u32
}

pub trait ColorTraits {
    /// The colour as the text `"R G B"` of its 8-bit channels.
    fn write_color(&self) -> String;
}

impl ColorTraits for Color {
    fn write_color(&self) -> (r: String)
        ensures
            r@ == color_text(*self),
    {
        three_numbers(channel_value(self.x), channel_value(self.y), channel_value(self.z))
    }
}

/// An image of `image_width` by `image_height` colours; the colour of pixel
/// `(x, y)`, counted from the lower left, stands at `x * image_height + y`.
pub struct Screen {
    pub color_array: Vec<Color>,
    pub image_width: i32,
    pub image_height: i32,
}

impl Screen {
    pub open spec fn wf(self) -> bool {
        &&& 0 <= self.image_width
        &&& 0 <= self.image_height
        &&& self.color_array@.len() == self.image_width * self.image_height
    }

    pub open spec fn pixel(self, x: int, y: int) -> Color {
        self.color_array@[x * self.image_height + y]
    }

    pub fn new(color_array: Vec<Color>, image_width: i32, image_height: i32) -> (r: Screen)
        ensures
            r.color_array@ == color_array@,
            r.image_width == image_width,
            r.image_height == image_height,
    {
        Screen { color_array, image_width, image_height }
    }

    /// An all-black image.
    pub fn empty_screen(image_width: i32, image_height: i32) -> (r: Screen)
        requires
            0 <= image_width,
            0 <= image_height,
            image_width * image_height <= usize::MAX,
        ensures
            r.wf(),
            r.image_width == image_width,
            r.image_height == image_height,
            forall|k: int|
                0 <= k < r.color_array@.len() ==> #[trigger] r.color_array@[k] == (Vec3 {
                    x: 0,
                    y: 0,
                    z: 0,
                }),
    {
        let n: usize = image_width as usize * image_height as usize;
        let mut color_array: Vec<Color> = Vec::new();
        while color_array.len() < n
            invariant
                color_array@.len() <= n,
                forall|k: int|
                    0 <= k < color_array@.len() ==> #[trigger] color_array@[k] == (Vec3 {
                        x: 0,
                        y: 0,
                        z: 0,
                    }),
            decreases n - color_array@.len(),
        {
            color_array.push(Vec3 { x: 0, y: 0, z: 0 });
        }
        Screen { color_array, image_width, image_height }
    }

    /// Stores at `(x, y)` the average of `rgb`, a sum of `samples_per_pixel`
    /// estimates, gamma-corrected by a square root.
    pub fn color_pixel(&mut self, x: usize, y: usize, rgb_val: Color, samples_per_pixel: i32)
        requires
            old(self).wf(),
            x < old(self).image_width,
            y < old(self).image_height,
            samples_per_pixel > 0,
        ensures
            final(self).wf(),
            final(self).image_width == old(self).image_width,
            final(self).image_height == old(self).image_height,
            final(self).color_array@ == old(self).color_array@.update(
                x * old(self).image_height + y,
                v_sqrt(v_div(rgb_val, samples_per_pixel * SCALE)),
            ),
    {
        let h = self.image_height as usize;
        let n = self.color_array.len();
        proof {
            assert(x * h + y < self.image_width * self.image_height) by (nonlinear_arith)
                requires
                    0 <= x < self.image_width,
                    0 <= y < h,
                    h == self.image_height,
            ;
        }
        let k = x * h + y;
        let average = rgb_val.div(samples_per_pixel as i64 * SCALE);
        self.color_array.set(k, average.sqrt());
    }

    /// The image as plain portable pixmap text, one line per entry: the
    /// header `P3`, the size and the largest channel value `255`, then each
    /// pixel's `"R G B"`, rows from the top, each row from the left.
    pub fn ppm_lines(&self) -> (r: Vec<String>)
        requires
            self.wf(),
        ensures
            r@.len() == 3 + self.image_width * self.image_height,
            r@[0]@ == seq!['P', '3'],
            r@[1]@ == numbers_text(self.image_width as nat, self.image_height as nat),
            r@[2]@ == seq!['2', '5', '5'],
            forall|j: int, i: int|
                0 <= j < self.image_height && 0 <= i < self.image_width ==> (#[trigger] r@[3 + j
                    * self.image_width + i])@ == color_text(
                    self.pixel(i, self.image_height - 1 - j),
                ),
    {
        let w = self.image_width;
        let h = self.image_height;
        let mut lines: Vec<String> = Vec::new();
        lines.push("P3".to_owned());
        lines.push(two_numbers(w as u32, h as u32));
        lines.push("255".to_owned());
        proof {
            reveal_strlit("P3");
            reveal_strlit("255");
        }
        let n = self.color_array.len();
        let mut row: i32 = 0;
        while row < h
            invariant
                self.wf(),
                w == self.image_width,
                h == self.image_height,
                n == self.color_array@.len(),
                0 <= row <= h,
                lines@.len() == 3 + row * w,
                lines@[0]@ == seq!['P', '3'],
                lines@[1]@ == numbers_text(w as nat, h as nat),
                lines@[2]@ == seq!['2', '5', '5'],
                forall|j: int, i: int|
                    0 <= j < row && 0 <= i < w ==> (#[trigger] lines@[3 + j * w + i])@
                        == color_text(self.pixel(i, h - 1 - j)),
            decreases h - row,
        {
            let y = (h - 1 - row) as usize;
            let mut col: i32 = 0;
            while col < w
                invariant
                    self.wf(),
                    w == self.image_width,
                    h == self.image_height,
                    n == self.color_array@.len(),
                    0 <= row < h,
                    y == h - 1 - row,
                    0 <= col <= w,
                    lines@.len() == 3 + row * w + col,
                    lines@[0]@ == seq!['P', '3'],
                    lines@[1]@ == numbers_text(w as nat, h as nat),
                    lines@[2]@ == seq!['2', '5', '5'],
                    forall|j: int, i: int|
                        0 <= j < row && 0 <= i < w ==> (#[trigger] lines@[3 + j * w + i])@
                            == color_text(self.pixel(i, h - 1 - j)),
                    forall|i: int|
                        0 <= i < col ==> (#[trigger] lines@[3 + row * w + i])@ == color_text(
                            self.pixel(i, h - 1 - row),
                        ),
                decreases w - col,
            {
                let x = col as usize;
                proof {
                    assert(x * h + y < w * h) by (nonlinear_arith)
                        requires
                            0 <= x < w,
                            0 <= y < h,
                    ;
                    assert(row * w + col + 1 <= w * h) by (nonlinear_arith)
                        requires
                            0 <= row < h,
                            0 <= col < w,
                    ;
                }
                let c = self.color_array[x * h as usize + y];
                let ghost before = lines@;
                lines.push(c.write_color());
                proof {
                    assert forall|j: int, i: int|
                        0 <= j < row && 0 <= i < w implies (#[trigger] lines@[3 + j * w + i])@
                        == color_text(self.pixel(i, h - 1 - j)) by {
                        assert(j * w + i < row * w) by (nonlinear_arith)
                            requires
                                0 <= j < row,
                                0 <= i < w,
                        ;
                        assert(lines@[3 + j * w + i] == before[3 + j * w + i]);
                    }
                }
                col = col + 1;
            }
            proof {
                assert forall|j: int, i: int|
                    0 <= j < row + 1 && 0 <= i < w implies (#[trigger] lines@[3 + j * w + i])@
                    == color_text(self.pixel(i, h - 1 - j)) by {
                    if j == row {
                        assert(lines@[3 + row * w + i]@ == color_text(self.pixel(i, h - 1 - row)));
                    }
                }
                assert(3 + (row + 1) * w == 3 + row * w + w) by (nonlinear_arith);
            }
            row = row + 1;
        }
        proof {
            assert(h * w == w * h) by (nonlinear_arith);
        }
        lines
    }
}

} // verus!
