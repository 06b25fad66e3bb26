use vstd::prelude::*;

use crate::color::{
    add_diff, lemma_closest_in, lemma_quantize_member, quantize, scale_diff, Color, ColorDiff,
    Palette,
};
use crate::shared::{split, BorrowedSlice};
use crate::worker::{
    below_partial, below_row, diffuse_below, effective, lemma_below_start, lemma_run_tracks,
    row_error, row_output, tracks, Worker,
};

verus! {

/// Row `y` of a row-major image `width` pixels wide.
pub open spec fn image_row(data: Seq<Color>, width: nat, y: int) -> Seq<Color> {
    data.subrange(y * width, y * width + width)
}

/// The rows of a row-major image, top to bottom.
pub open spec fn image_rows(data: Seq<Color>, width: nat, height: nat) -> Seq<Seq<Color>> {
    Seq::new(height, |y: int| image_row(data, width, y))
}

/// The input of row `y` of `img` as the dithering pass sees it: the first row
/// as it is; every other row with the error diffused from the row above added.
pub open spec fn row_input(pal: Seq<Color>, img: Seq<Seq<Color>>, y: int) -> Seq<Color>
    decreases y,
{
    if y <= 0 {
        img[0]
    } else {
        below_row(pal, row_input(pal, img, y - 1), img[y])
    }
}

pub(crate) proof fn lemma_row_input_len(pal: Seq<Color>, img: Seq<Seq<Color>>, y: int)
    requires
        0 <= y < img.len(),
    ensures
        row_input(pal, img, y).len() == img[y].len(),
{
}

/// The rows of `img` once dithered with `pal`.
pub open spec fn dithered_rows(pal: Seq<Color>, img: Seq<Seq<Color>>) -> Seq<Seq<Color>> {
    Seq::new(img.len(), |y: int| row_output(pal, row_input(pal, img, y)))
}

pub(crate) proof fn lemma_row_bounds(y: int, width: int, height: int)
    requires
        0 <= y < height,
        0 <= width,
    ensures
        0 <= y * width,
        y * width + width <= width * height,
        (y + 1) * width == y * width + width,
{
    assert((y + 1) * width == y * width + width) by (nonlinear_arith);
    assert(0 <= y * width) by (nonlinear_arith)
        requires
            0 <= y,
            0 <= width,
    ;
    assert(y * width + width <= width * height) by (nonlinear_arith)
        requires
            0 <= y < height,
            0 <= width,
    ;
}

pub(crate) proof fn lemma_rows_apart(a: int, b: int, width: int)
    requires
        0 <= a < b,
        0 <= width,
    ensures
        a * width + width <= b * width,
{
    assert(a * width + width <= b * width) by (nonlinear_arith)
        requires
            0 <= a < b,
            0 <= width,
    ;
}

/// Writing a row over row `y` of an image leaves its other rows as they were.
pub(crate) proof fn lemma_write_row_rows(
    before: Seq<Color>,
    after: Seq<Color>,
    row: Seq<Color>,
    width: nat,
    height: nat,
    y: int,
    k: int,
)
    requires
        0 <= y < height,
        0 <= k < height,
        1 <= width,
        before.len() == width * height,
        after.len() == before.len(),
        row.len() == width,
        forall|i: int|
            0 <= i < before.len() ==> #[trigger] after[i] == if y * width <= i < y * width
                + row.len() {
                row[i - y * width]
            } else {
                before[i]
            },
    ensures
        image_row(after, width, k) == if k == y {
            row
        } else {
            image_row(before, width, k)
        },
{
    lemma_row_bounds(k, width as int, height as int);
    lemma_row_bounds(y, width as int, height as int);
    if k < y {
        lemma_rows_apart(k, y, width as int);
    } else if k > y {
        lemma_rows_apart(y, k, width as int);
    }
    if k == y {
        assert(image_row(after, width, k) =~= row);
    } else {
        assert(image_row(after, width, k) =~= image_row(before, width, k));
    }
}

/// A copy of `data[start..start + width]`.
pub(crate) fn copy_row(data: &Vec<Color>, start: usize, width: usize) -> (row: Vec<Color>)
    requires
        start + width <= data.len(),
    ensures
        row@ == data@.subrange(start as int, start + width),
{
    let mut row: Vec<Color> = Vec::new();
    let mut i: usize = 0;
    while i < width
        invariant
            i <= width,
            start + width <= data.len(),
            row@ == data@.subrange(start as int, start + i),
        decreases width - i,
    {
        row.push(data[start + i]);
        proof {
            assert(data@.subrange(start as int, start + i + 1) =~= data@.subrange(
                start as int,
                start + i,
            ).push(data@[start + i]));
        }
        i += 1;
    }
    row
}

/// Writes `row` over `data[start..start + row.len()]`.
pub(crate) fn write_row(data: &mut Vec<Color>, start: usize, row: &Vec<Color>)
    requires
        start + row@.len() <= old(data).len(),
    ensures
        final(data)@.len() == old(data)@.len(),
        forall|i: int|
            0 <= i < old(data)@.len() ==> #[trigger] final(data)@[i] == if start <= i < start
                + row@.len() {
                row@[i - start]
            } else {
                old(data)@[i]
            },
{
    let mut i: usize = 0;
    while i < row.len()
        invariant
            i <= row@.len(),
            start + row@.len() <= data.len(),
            data@.len() == old(data)@.len(),
            forall|k: int|
                0 <= k < old(data)@.len() ==> #[trigger] data@[k] == if start <= k < start + i {
                    row@[k - start]
                } else {
                    old(data)@[k]
                },
        decreases row@.len() - i,
    {
        data.set(start + i, row[i]);
        i += 1;
    }
}

/// Dithers `data`, a row-major image of `width` by `height` pixels, in place:
/// every pixel is replaced by a palette color, scanning each row left to
/// right and the rows top to bottom, the error of each pixel going 7/16 to
/// the right, 3/16 to the bottom left, 5/16 below and 1/16 to the bottom right.
pub fn dither(data: &mut Vec<Color>, width: usize, height: usize, palette: &Palette)
    requires
        1 <= width,
        1 <= height,
        old(data).len() == width * height,
    ensures
        final(data)@.len() == old(data)@.len(),
        image_rows(final(data)@, width as nat, height as nat) == dithered_rows(
            palette@,
            image_rows(old(data)@, width as nat, height as nat),
        ),
{
    let ghost img = image_rows(data@, width as nat, height as nat);
    let ghost pal = palette@;
    proof {
        lemma_row_bounds(0, width as int, height as int);
    }
    let first = copy_row(data, 0, width);
    let mut own: BorrowedSlice<Color> = BorrowedSlice::Owned(first);
    let mut y: usize = 0;
    while y + 1 < height
        invariant
            1 <= width,
            y < height,
            width * height <= usize::MAX,
            data@.len() == width * height,
            img == image_rows(old(data)@, width as nat, height as nat),
            pal == palette@,
            own@ == row_input(pal, img, y as int),
            own@.len() == width,
            forall|k: int|
                0 <= k < y ==> #[trigger] image_row(data@, width as nat, k) == row_output(
                    pal,
                    row_input(pal, img, k),
                ),
            forall|k: int|
                y <= k < height ==> #[trigger] image_row(data@, width as nat, k) == img[k],
        decreases height - y,
    {
        proof {
            lemma_row_bounds(y as int, width as int, height as int);
            lemma_row_bounds(y + 1, width as int, height as int);
        }
        let start = y * width;
        let below = copy_row(data, start + width, width);
        let ghost below_orig = below@;
        let ghost inp = row_input(pal, img, y as int);
        assert(below_orig == img[y + 1]) by {
            assert(image_row(data@, width as nat, y + 1) == img[y + 1]);
        }
        let (owned, mut borrowed) = split(below);
        let mut worker = Worker::new(own, Some(owned), width);
        let ghost v0 = worker@;
        proof {
            assert forall|c: int| 0 <= c < width implies #[trigger] below_orig[c] == below_partial(
                pal,
                inp,
                below_orig[c],
                c,
                0,
            ) by {
                lemma_below_start(pal, inp, below_orig[c], c);
            }
            assert(tracks(v0, pal, inp, below_orig));
        }
        worker.run(palette);
        proof {
            lemma_run_tracks(v0, pal, inp, below_orig);
        }
        let ghost v1 = worker@;
        let (out, next) = worker.into_parts();
        proof {
            assert(out@ =~= row_output(pal, inp));
        }
        match next {
            Some(n) => {
                borrowed.receive(&n);
                proof {
                    assert(n@.cells.subrange(0, width as int) =~= n@.cells);
                    assert(borrowed@ =~= below_row(pal, inp, below_orig));
                }
                own = BorrowedSlice::Shared(borrowed);
            },
            None => {
                own = BorrowedSlice::Owned(Vec::new());
            },
        }
        let ghost before = data@;
        write_row(data, start, &out);
        proof {
            assert forall|k: int| 0 <= k < height implies #[trigger] image_row(
                data@,
                width as nat,
                k,
            ) == if k == y {
                out@
            } else {
                image_row(before, width as nat, k)
            } by {
                lemma_write_row_rows(before, data@, out@, width as nat, height as nat, y as int, k);
            }
        }
        y += 1;
    }
    let ghost inp = row_input(pal, img, y as int);
    let mut worker = Worker::new(own, None, width);
    let ghost v0 = worker@;
    proof {
        assert(tracks(v0, pal, inp, Seq::empty()));
    }
    worker.run(palette);
    proof {
        lemma_run_tracks(v0, pal, inp, Seq::empty());
    }
    let (out, _) = worker.into_parts();
    proof {
        assert(out@ =~= row_output(pal, inp));
        lemma_row_bounds(y as int, width as int, height as int);
    }
    let ghost before = data@;
    write_row(data, y * width, &out);
    proof {
        assert(y + 1 == height);
        assert forall|k: int| 0 <= k < height implies #[trigger] image_row(
            data@,
            width as nat,
            k,
        ) == row_output(pal, row_input(pal, img, k)) by {
            lemma_write_row_rows(before, data@, out@, width as nat, height as nat, y as int, k);
            if k < y {
                assert(image_row(before, width as nat, k) == row_output(
                    pal,
                    row_input(pal, img, k),
                ));
            }
        }
        assert(image_rows(data@, width as nat, height as nat) =~= dithered_rows(pal, img));
    }
}

/// Every pixel of a dithered image is a color of the palette.
pub proof fn lemma_output_in_palette(pal: Seq<Color>, img: Seq<Seq<Color>>)
    requires
        pal.len() >= 1,
    ensures
        forall|y: int, x: int|
            0 <= y < img.len() && 0 <= x < dithered_rows(pal, img)[y].len() ==> pal.contains(
                #[trigger] dithered_rows(pal, img)[y][x],
            ),
{
    assert forall|y: int, x: int|
        0 <= y < img.len() && 0 <= x < dithered_rows(pal, img)[y].len() implies pal.contains(
        #[trigger] dithered_rows(pal, img)[y][x],
    ) by {
        let inp = row_input(pal, img, y);
        let e = effective(pal, inp, x);
        lemma_closest_in(pal, e, pal.len() as int);
        assert(dithered_rows(pal, img)[y][x] == pal[crate::color::closest_index(pal, e)]);
    }
}

/// Every pixel of `img` is a color of `pal`.
pub open spec fn made_of_palette(pal: Seq<Color>, img: Seq<Seq<Color>>) -> bool {
    forall|y: int, x: int| 0 <= y < img.len() && 0 <= x < img[y].len() ==> pal.contains(#[trigger] img[y][x])
}

proof fn lemma_zero_diff(c: Color)
    ensures
        add_diff(c, scale_diff(ColorDiff { r: 0, g: 0, b: 0 }, 7, 16)) == c,
        add_diff(c, scale_diff(ColorDiff { r: 0, g: 0, b: 0 }, 5, 16)) == c,
        add_diff(c, scale_diff(ColorDiff { r: 0, g: 0, b: 0 }, 3, 16)) == c,
        add_diff(c, scale_diff(ColorDiff { r: 0, g: 0, b: 0 }, 1, 16)) == c,
{
}

/// A row made of palette colors makes no error at any position.
proof fn lemma_palette_row(pal: Seq<Color>, inp: Seq<Color>, p: int)
    requires
        0 <= p < inp.len(),
        forall|x: int| 0 <= x < inp.len() ==> pal.contains(#[trigger] inp[x]),
    ensures
        effective(pal, inp, p) == inp[p],
        row_error(pal, inp, p) == (ColorDiff { r: 0, g: 0, b: 0 }),
        quantize(pal, inp[p]) == inp[p],
    decreases p,
{
    assert(pal.contains(inp[p]));
    let j = choose|j: int| 0 <= j < pal.len() && pal[j] == inp[p];
    lemma_quantize_member(pal, inp[p], j);
    if p > 0 {
        lemma_palette_row(pal, inp, p - 1);
        lemma_zero_diff(inp[p]);
    }
}

/// Dithering an image made only of palette colors leaves it as it is: no
/// pixel makes an error, so none is diffused.
pub proof fn lemma_palette_image_unchanged(pal: Seq<Color>, img: Seq<Seq<Color>>)
    requires
        made_of_palette(pal, img),
    ensures
        dithered_rows(pal, img) == img,
{
    assert forall|y: int| 0 <= y < img.len() implies #[trigger] row_input(pal, img, y) == img[y] by {
        lemma_palette_rows_input(pal, img, y);
    }
    assert forall|y: int| 0 <= y < img.len() implies #[trigger] dithered_rows(pal, img)[y] == img[y] by {
        let inp = row_input(pal, img, y);
        assert forall|x: int| 0 <= x < inp.len() implies pal.contains(#[trigger] inp[x]) by {
            assert(pal.contains(img[y][x]));
        }
        assert forall|x: int| 0 <= x < inp.len() implies #[trigger] row_output(pal, inp)[x] == inp[x] by {
            lemma_palette_row(pal, inp, x);
        }
        assert(row_output(pal, inp) =~= inp);
    }
    assert(dithered_rows(pal, img) =~= img);
}

proof fn lemma_palette_rows_input(pal: Seq<Color>, img: Seq<Seq<Color>>, y: int)
    requires
        made_of_palette(pal, img),
        0 <= y < img.len(),
    ensures
        row_input(pal, img, y) == img[y],
    decreases y,
{
    if y > 0 {
        lemma_palette_rows_input(pal, img, y - 1);
        let above = img[y - 1];
        assert forall|x: int| 0 <= x < above.len() implies pal.contains(#[trigger] above[x]) by {
            assert(pal.contains(img[y - 1][x]));
        }
        assert forall|c: int| 0 <= c < img[y].len() implies #[trigger] below_row(pal, above, img[y])[c]
            == img[y][c] by {
            reveal(below_partial);
            let q = above.len() as int;
            if 1 <= c && c - 1 < q {
                lemma_palette_row(pal, above, c - 1);
            }
            if c < q {
                lemma_palette_row(pal, above, c);
            }
            if c + 1 < q {
                lemma_palette_row(pal, above, c + 1);
            }
            lemma_zero_diff(img[y][c]);
        }
        assert(below_row(pal, above, img[y]) =~= img[y]);
    }
}

/// In a one-column image the row below receives only the bottom-center share
/// of the error: there is no cell to its left or right.
pub proof fn lemma_single_column(pal: Seq<Color>, above: Seq<Color>, orig: Seq<Color>, err: ColorDiff)
    requires
        above.len() == 1,
        orig.len() == 1,
    ensures
        below_row(pal, above, orig) == seq![
            add_diff(orig[0], scale_diff(row_error(pal, above, 0), 5, 16)),
        ],
        diffuse_below(orig, err, 0, 1) == seq![add_diff(orig[0], scale_diff(err, 5, 16))],
{
    reveal(below_partial);
    assert(below_row(pal, above, orig) =~= seq![
        add_diff(orig[0], scale_diff(row_error(pal, above, 0), 5, 16)),
    ]);
    assert(diffuse_below(orig, err, 0, 1) =~= seq![add_diff(orig[0], scale_diff(err, 5, 16))]);
}

/// A one-row image is dithered as that row alone.
pub proof fn lemma_single_row(pal: Seq<Color>, img: Seq<Seq<Color>>)
    requires
        img.len() == 1,
    ensures
        dithered_rows(pal, img) == seq![row_output(pal, img[0])],
{
    assert(dithered_rows(pal, img) =~= seq![row_output(pal, img[0])]);
}

} // verus!
