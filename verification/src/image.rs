//! A raster of colours and its plain-text form.
use crate::scalar::Scalar;
use crate::text::{decimal, push_char, push_decimal, push_str};
use crate::vec3::Color;
use vstd::prelude::*;

verus! {

pub struct PPMImage {
    pub height: usize,
    pub width: usize,
    pub color_encoding: String,
    pub max_color: u32,
    pub color_codes: Vec<Vec<Color>>,
}

/// One channel of a colour as an integer: the channel times `max_color`, its
/// fraction dropped. `wide` says whether the largest `usize` or the largest
/// `u32` is the cap.
pub open spec fn channel_level(value: Scalar, max_color: u32, wide: bool) -> nat {
    let scaled = value.mul_spec(Scalar::from_int_spec(max_color as nat));
    if wide {
        scaled.to_usize_spec() as nat
    } else {
        scaled.to_u32_spec() as nat
    }
}

/// The text of one pixel: its three channel levels, a space after the first
/// and the second, `end` after the third.
pub open spec fn pixel_text(color: Color, max_color: u32, wide: bool, end: char) -> Seq<char> {
    decimal(channel_level(color.x, max_color, wide)) + seq![' '] + decimal(
        channel_level(color.y, max_color, wide),
    ) + seq![' '] + decimal(channel_level(color.z, max_color, wide)) + seq![end]
}

/// The texts of the pixels of one row, one after the other.
pub open spec fn row_text(row: Seq<Color>, max_color: u32, wide: bool, end: char) -> Seq<char>
    decreases row.len(),
{
    if row.len() == 0 {
        Seq::empty()
    } else {
        row_text(row.drop_last(), max_color, wide, end) + pixel_text(
            row.last(),
            max_color,
            wide,
            end,
        )
    }
}

/// The texts of the rows, one after the other.
pub open spec fn rows_text(rows: Seq<Vec<Color>>, max_color: u32, wide: bool, end: char) -> Seq<
    char,
>
    decreases rows.len(),
{
    if rows.len() == 0 {
        Seq::empty()
    } else {
        rows_text(rows.drop_last(), max_color, wide, end) + row_text(
            rows.last()@,
            max_color,
            wide,
            end,
        )
    }
}

/// The three lines that open the text: the encoding, width and height, and
/// the largest channel level.
pub open spec fn header_text(encoding: Seq<char>, width: nat, height: nat, max_color: nat) -> Seq<
    char,
> {
    encoding + seq!['\n'] + decimal(width) + seq![' '] + decimal(height) + seq!['\n'] + decimal(
        max_color,
    ) + seq!['\n']
}

/// Appends the three header lines.
pub fn push_header(text: &mut String, encoding: &str, width: usize, height: usize, max_color: u32)
    ensures
        final(text)@ == old(text)@ + header_text(
            encoding@,
            width as nat,
            height as nat,
            max_color as nat,
        ),
{
    push_str(text, encoding);
    push_char(text, '\n');
    push_decimal(text, width as u64);
    push_char(text, ' ');
    push_decimal(text, height as u64);
    push_char(text, '\n');
    push_decimal(text, max_color as u64);
    push_char(text, '\n');
    proof {
        assert(text@ =~= old(text)@ + header_text(
            encoding@,
            width as nat,
            height as nat,
            max_color as nat,
        ));
    }
}

impl PPMImage {
    /// The header and every pixel in the order of the rows, the channels of a
    /// pixel and the pixels parted by spaces.
    pub open spec fn text_spec(&self) -> Seq<char> {
        header_text(
            self.color_encoding@,
            self.width as nat,
            self.height as nat,
            self.max_color as nat,
        ) + rows_text(self.color_codes@, self.max_color, false, ' ')
    }

    /// The header and every pixel in the order of the rows, one pixel on a
    /// line.
    pub open spec fn lines_spec(&self) -> Seq<char> {
        header_text(
            self.color_encoding@,
            self.width as nat,
            self.height as nat,
            self.max_color as nat,
        ) + rows_text(self.color_codes@, self.max_color, true, '\n')
    }

    pub fn new(pixels_list: Vec<Vec<Color>>, width: usize, height: usize, max_color: u32) -> (r:
        PPMImage)
        ensures
            r.height == height,
            r.width == width,
            r.color_encoding@ == "P3"@,
            r.max_color == max_color,
            r.color_codes == pixels_list,
    {
        PPMImage {
            height,
            width,
            color_encoding: "P3".to_owned(),
            max_color,
            color_codes: pixels_list,
        }
    }

    /// The image as one string, the pixels parted by spaces.
    pub fn to_text(&self) -> (r: String)
        ensures
            r@ == self.text_spec(),
    {
        self.write(false, ' ')
    }

    /// The image as the text that is printed, one pixel on a line.
    pub fn to_lines(&self) -> (r: String)
        ensures
            r@ == self.lines_spec(),
    {
        self.write(true, '\n')
    }

    fn write(&self, wide: bool, end: char) -> (r: String)
        ensures
            r@ == header_text(
                self.color_encoding@,
                self.width as nat,
                self.height as nat,
                self.max_color as nat,
            ) + rows_text(self.color_codes@, self.max_color, wide, end),
    {
        let mut text: String = String::new();
        push_header(
            &mut text,
            self.color_encoding.as_str(),
            self.width,
            self.height,
            self.max_color,
        );
        let ghost header = text@;
        let max: Scalar = Scalar::from_u32(self.max_color);
        let mut i: usize = 0;
        while i < self.color_codes.len()
            invariant
                i <= self.color_codes.len(),
                max == Scalar::from_int_spec(self.max_color as nat),
                text@ == header + rows_text(
                    self.color_codes@.take(i as int),
                    self.max_color,
                    wide,
                    end,
                ),
            decreases self.color_codes.len() - i,
        {
            let row: &Vec<Color> = &self.color_codes[i];
            let ghost before = text@;
            let mut j: usize = 0;
            while j < row.len()
                invariant
                    j <= row.len(),
                    max == Scalar::from_int_spec(self.max_color as nat),
                    text@ == before + row_text(row@.take(j as int), self.max_color, wide, end),
                decreases row.len() - j,
            {
                push_pixel(&mut text, &row[j], self.max_color, max, wide, end);
                proof {
                    assert(row@.take(j + 1).drop_last() =~= row@.take(j as int));
                    assert(row@.take(j + 1).last() == row@[j as int]);
                }
                j = j + 1;
            }
            proof {
                assert(row@.take(row.len() as int) =~= row@);
                assert(self.color_codes@.take(i + 1).drop_last() =~= self.color_codes@.take(
                    i as int,
                ));
                assert(self.color_codes@.take(i + 1).last() == self.color_codes@[i as int]);
            }
            i = i + 1;
        }
        proof {
            assert(self.color_codes@.take(self.color_codes.len() as int) =~= self.color_codes@);
            assert(header =~= header_text(
                self.color_encoding@,
                self.width as nat,
                self.height as nat,
                self.max_color as nat,
            ));
        }
        text
    }
}

/// Appends the text of one pixel.
fn push_pixel(text: &mut String, color: &Color, max_color: u32, max: Scalar, wide: bool, end: char)
    requires
        max == Scalar::from_int_spec(max_color as nat),
    ensures
        final(text)@ == old(text)@ + pixel_text(*color, max_color, wide, end),
{
    push_level(text, color.x, max, wide);
    push_char(text, ' ');
    push_level(text, color.y, max, wide);
    push_char(text, ' ');
    push_level(text, color.z, max, wide);
    push_char(text, end);
    proof {
        assert(text@ =~= old(text)@ + pixel_text(*color, max_color, wide, end));
    }
}

/// Appends one channel level.
fn push_level(text: &mut String, value: Scalar, max: Scalar, wide: bool)
    ensures
        final(text)@ == old(text)@ + decimal(
            if wide {
                value.mul_spec(max).to_usize_spec() as nat
            } else {
                value.mul_spec(max).to_u32_spec() as nat
            },
        ),
{
    let scaled: Scalar = value.mul(max);
    if wide {
        push_decimal(text, scaled.to_usize() as u64);
    } else {
        push_decimal(text, scaled.to_u32() as u64);
    }
}

} // verus!
