use vstd::prelude::*;

use crate::color::{quantize, Color, Palette};
use crate::dither::{
    copy_row, dithered_rows, image_row, image_rows, lemma_row_bounds, lemma_row_input_len,
    lemma_write_row_rows, row_input, write_row,
};
use crate::shared::{split, BorrowedSlice, Window};
use crate::worker::{
    below_partial, effective, lemma_below_start, lemma_released_is_final, lemma_run_cursor,
    lemma_run_tracks, row_output, tracks, worker_wf, Worker, WorkerView,
};

verus! {

/// The initial cells of the row below row `y`, none for the last row.
pub open spec fn below_of(img: Seq<Seq<Color>>, y: int) -> Seq<Color> {
    if y + 1 < img.len() {
        img[y + 1]
    } else {
        Seq::empty()
    }
}

/// The workers of a pass that has not started: one per row of `img`; the
/// first holds its whole row, the others nothing yet; each but the last owns
/// the row below it with nothing released.
pub open spec fn fresh_workers(ws: Seq<Worker>, img: Seq<Seq<Color>>, width: nat) -> bool {
    &&& ws.len() == img.len()
    &&& forall|y: int|
        0 <= y < ws.len() ==> {
            &&& worker_wf(#[trigger] ws[y]@)
            &&& ws[y]@.width == width
            &&& ws[y]@.position == 0
            &&& ws[y]@.carry is None
            &&& ws[y]@.own == if y == 0 {
                img[0]
            } else {
                Seq::empty()
            }
            &&& ws[y]@.next == if y + 1 < ws.len() {
                Some(Window { cells: img[y + 1], cursor: 0 })
            } else {
                None
            }
        }
}

/// The worker of row `y` of a pass under way is on course for its row, and
/// holds no cell of its row that the row above has not released.
pub open spec fn row_ok(ws: Seq<Worker>, pal: Seq<Color>, img: Seq<Seq<Color>>, width: nat, y: int) -> bool {
    &&& worker_wf(ws[y]@)
    &&& ws[y]@.width == width
    &&& tracks(ws[y]@, pal, row_input(pal, img, y), below_of(img, y))
    &&& (ws[y]@.next is Some <==> y + 1 < ws.len())
    &&& y == 0 ==> ws[y]@.own.len() == width
    &&& y > 0 ==> ws[y]@.own.len() <= ws[y - 1]@.next->Some_0.cursor
}

/// Every worker of a pass under way is on course.
pub open spec fn pipeline_ok(ws: Seq<Worker>, pal: Seq<Color>, img: Seq<Seq<Color>>, width: nat) -> bool {
    &&& ws.len() == img.len()
    &&& forall|y: int| 0 <= y < ws.len() ==> #[trigger] row_ok(ws, pal, img, width, y)
}

/// Builds the workers of a pass over `data`, a row-major image of `width` by
/// `height` pixels: one per row, each holding the owning side of a split of
/// the row below, whose borrowing side goes to the next worker.
pub fn make_workers(data: &Vec<Color>, width: usize, height: usize) -> (ws: Vec<Worker>)
    requires
        1 <= width,
        1 <= height,
        data.len() == width * height,
    ensures
        fresh_workers(ws@, image_rows(data@, width as nat, height as nat), width as nat),
{
    let ghost img = image_rows(data@, width as nat, height as nat);
    proof {
        lemma_row_bounds(0, width as int, height as int);
    }
    let first = copy_row(data, 0, width);
    let mut own: BorrowedSlice<Color> = BorrowedSlice::Owned(first);
    let mut ws: Vec<Worker> = Vec::new();
    let mut y: usize = 0;
    while y + 1 < height
        invariant
            1 <= width,
            y < height,
            width * height <= usize::MAX,
            data@.len() == width * height,
            img == image_rows(data@, width as nat, height as nat),
            ws@.len() == y,
            own@ == if y == 0 {
                img[0]
            } else {
                Seq::empty()
            },
            forall|k: int|
                0 <= k < y ==> {
                    &&& worker_wf(#[trigger] ws@[k]@)
                    &&& ws@[k]@.width == width
                    &&& ws@[k]@.position == 0
                    &&& ws@[k]@.carry is None
                    &&& ws@[k]@.own == if k == 0 {
                        img[0]
                    } else {
                        Seq::empty()
                    }
                    &&& ws@[k]@.next == Some(Window { cells: img[k + 1], cursor: 0 })
                },
        decreases height - y,
    {
        proof {
            lemma_row_bounds(y + 1, width as int, height as int);
        }
        let below = copy_row(data, (y + 1) * width, width);
        let (o, b) = split(below);
        ws.push(Worker::new(own, Some(o), width));
        own = BorrowedSlice::Shared(b);
        y += 1;
    }
    ws.push(Worker::new(own, None, width));
    ws
}

/// Cells that the row above has released, appended to what a worker holds,
/// keep it on course.
proof fn lemma_receive(
    ws: Seq<Worker>,
    pal: Seq<Color>,
    img: Seq<Seq<Color>>,
    width: nat,
    y: int,
    fresh: Seq<Color>,
    v: WorkerView,
)
    requires
        ws.len() == img.len(),
        row_ok(ws, pal, img, width, y),
        row_ok(ws, pal, img, width, y - 1),
        0 < y < ws.len(),
        fresh == ws[y - 1]@.next->Some_0.cells.subrange(
            ws[y]@.own.len() as int,
            ws[y - 1]@.next->Some_0.cursor as int,
        ),
        v == (WorkerView { own: ws[y]@.own + fresh, ..ws[y]@ }),
    ensures
        worker_wf(v),
        tracks(v, pal, row_input(pal, img, y), below_of(img, y)),
        v.own.len() == ws[y - 1]@.next->Some_0.cursor,
        ws[y - 1]@.position == width ==> v.own.len() == width,
{
    let above = ws[y - 1]@;
    let win = above.next->Some_0;
    let inp = row_input(pal, img, y);
    let inp_above = row_input(pal, img, y - 1);
    let have = ws[y]@.own.len() as int;
    assert(below_of(img, y - 1) == img[y]);
    assert forall|i: int| have <= i < v.own.len() implies #[trigger] v.own[i] == inp[i] by {
        assert(v.own[i] == win.cells[i]);
        assert(win.cells[i] == below_partial(pal, inp_above, img[y][i], i, above.position as int));
        lemma_released_is_final(pal, inp_above, img[y][i], i, above.position as int);
    }
    assert forall|i: int| v.position <= i < v.own.len() implies #[trigger] v.own[i] == inp[i] by {
        if i < have {
            assert(ws[y]@.own[i] == inp[i]);
        }
    }
    assert forall|i: int| 0 <= i < v.position implies #[trigger] v.own[i] == quantize(
        pal,
        effective(pal, inp, i),
    ) by {
        assert(ws[y]@.own[i] == quantize(pal, effective(pal, inp, i)));
    }
}

/// Replacing the worker of row `y` by one that is on course, whose cursor
/// below has not moved back, keeps the pass on course.
proof fn lemma_replace_row(
    ws: Seq<Worker>,
    nws: Seq<Worker>,
    pal: Seq<Color>,
    img: Seq<Seq<Color>>,
    width: nat,
    y: int,
)
    requires
        pipeline_ok(ws, pal, img, width),
        0 <= y < ws.len(),
        nws.len() == ws.len(),
        forall|k: int| 0 <= k < ws.len() && k != y ==> #[trigger] nws[k] == ws[k],
        row_ok(nws, pal, img, width, y),
        ws[y]@.next is Some ==> ws[y]@.next->Some_0.cursor <= nws[y]@.next->Some_0.cursor,
    ensures
        pipeline_ok(nws, pal, img, width),
{
    assert forall|k: int| 0 <= k < nws.len() implies #[trigger] row_ok(nws, pal, img, width, k) by {
        if k != y {
            assert(row_ok(ws, pal, img, width, k));
            if k == y + 1 {
                assert(row_ok(ws, pal, img, width, y));
            }
        }
    }
}

/// Lets the worker of row `y` take over what the row above has released, and
/// go as far as that allows.
fn advance_row(
    ws: &mut Vec<Worker>,
    y: usize,
    palette: &Palette,
    Ghost(img): Ghost<Seq<Seq<Color>>>,
    Ghost(width): Ghost<nat>,
)
    requires
        y < old(ws)@.len(),
        pipeline_ok(old(ws)@, palette@, img, width),
    ensures
        pipeline_ok(final(ws)@, palette@, img, width),
        final(ws)@.len() == old(ws)@.len(),
        forall|k: int|
            0 <= k < final(ws)@.len() && k != y ==> #[trigger] final(ws)@[k] == old(ws)@[k],
        y == 0 || old(ws)@[y - 1]@.position == width ==> final(ws)@[y as int]@.position == width,
{
    let ghost pal = palette@;
    let ghost old_ws = ws@;
    proof {
        assert(row_ok(old_ws, pal, img, width, y as int));
    }
    let mut w = ws.remove(y);
    if y > 0 {
        proof {
            assert(row_ok(old_ws, pal, img, width, y - 1));
        }
        let have = w.available();
        let fresh = match ws[y - 1].next_row() {
            Some(n) => n.released_since(have),
            None => Vec::new(),
        };
        proof {
            lemma_receive(old_ws, pal, img, width, y as int, fresh@, WorkerView { own: w@.own + fresh@, ..w@ });
        }
        w.receive(fresh);
    }
    let ghost v0 = w@;
    proof {
        lemma_run_tracks(v0, pal, row_input(pal, img, y as int), below_of(img, y as int));
        lemma_run_cursor(v0, pal);
    }
    w.run(palette);
    ws.insert(y, w);
    proof {
        assert(ws@ =~= old_ws.update(y as int, ws@[y as int]));
        assert(row_ok(ws@, pal, img, width, y as int)) by {
            if y > 0 {
                assert(ws@[y - 1] == old_ws[y - 1]);
            }
        }
        lemma_replace_row(old_ws, ws@, pal, img, width, y as int);
    }
}

/// Workers that have not started are on course.
proof fn lemma_fresh_ok(ws: Seq<Worker>, pal: Seq<Color>, img: Seq<Seq<Color>>, width: nat)
    requires
        fresh_workers(ws, img, width),
        forall|y: int| 0 <= y < img.len() ==> (#[trigger] img[y]).len() == width,
    ensures
        pipeline_ok(ws, pal, img, width),
{
    assert forall|y: int| 0 <= y < ws.len() implies #[trigger] row_ok(ws, pal, img, width, y) by {
        let inp = row_input(pal, img, y);
        assert(inp.len() == width);
        if y + 1 < ws.len() {
            let win = ws[y]@.next->Some_0;
            assert forall|c: int| 0 <= c < width implies #[trigger] win.cells[c] == below_partial(
                pal,
                inp,
                below_of(img, y)[c],
                c,
                0,
            ) by {
                lemma_below_start(pal, inp, below_of(img, y)[c], c);
            }
        }
        if y > 0 {
            assert(ws[y - 1]@.next is Some);
        }
    }
}

/// Dithers `data` as a pool of threads does: one worker per row, each
/// advanced whenever `schedule` names its row, and a row only ever reading
/// cells that the row above has released; then every row is finished, top
/// to bottom. Whatever the schedule, the result is the same as `dither`'s:
/// it does not depend on how the rows' work is interleaved.
pub fn dither_scheduled(
    data: &mut Vec<Color>,
    width: usize,
    height: usize,
    palette: &Palette,
    schedule: &Vec<usize>,
)
    requires
        1 <= width,
        1 <= height,
        old(data).len() == width * height,
    ensures
        final(data)@.len() == old(data)@.len(),
        image_rows(final(data)@, width as nat, height as nat) == dithered_rows(
            palette@,
            image_rows(old(data)@, width as nat, height as nat),
        ),
{
    let ghost img = image_rows(data@, width as nat, height as nat);
    let ghost pal = palette@;
    let ghost w = width as nat;
    let mut ws = make_workers(data, width, height);
    proof {
        assert forall|y: int| 0 <= y < img.len() implies (#[trigger] img[y]).len() == w by {
            lemma_row_bounds(y, width as int, height as int);
        }
        lemma_fresh_ok(ws@, pal, img, w);
    }
    let mut k: usize = 0;
    while k < schedule.len()
        invariant
            pipeline_ok(ws@, pal, img, w),
            pal == palette@,
            w == width as nat,
            img.len() == height,
            img == image_rows(old(data)@, width as nat, height as nat),
            data@ == old(data)@,
        decreases schedule@.len() - k,
    {
        let y = schedule[k];
        if y < height {
            advance_row(&mut ws, y, palette, Ghost(img), Ghost(w));
        }
        k += 1;
    }
    let mut y: usize = 0;
    while y < height
        invariant
            pipeline_ok(ws@, pal, img, w),
            pal == palette@,
            w == width as nat,
            img.len() == height,
            y <= height,
            forall|j: int| 0 <= j < y ==> (#[trigger] ws@[j])@.position == w,
            img == image_rows(old(data)@, width as nat, height as nat),
            data@ == old(data)@,
        decreases height - y,
    {
        advance_row(&mut ws, y, palette, Ghost(img), Ghost(w));
        y += 1;
    }
    let ghost full = ws@;
    let mut y: usize = height;
    while y > 0
        invariant
            y <= height,
            1 <= width,
            width * height <= usize::MAX,
            data@.len() == width * height,
            img == image_rows(old(data)@, width as nat, height as nat),
            pal == palette@,
            w == width as nat,
            full.len() == height,
            pipeline_ok(full, pal, img, w),
            forall|j: int| 0 <= j < height ==> (#[trigger] full[j])@.position == w,
            ws@.len() == y,
            forall|j: int| 0 <= j < y ==> #[trigger] ws@[j] == full[j],
            forall|j: int|
                y <= j < height ==> #[trigger] image_row(data@, w, j) == row_output(
                    pal,
                    row_input(pal, img, j),
                ),
        decreases y,
    {
        let ghost j = y - 1;
        proof {
            assert(row_ok(full, pal, img, w, j));
            assert(full[j]@.position == w);
            assert(ws@[j] == full[j]);
            lemma_row_bounds(j, width as int, height as int);
        }
        let worker = ws.pop().unwrap();
        let (out, _) = worker.into_parts();
        let start = (y - 1) * width;
        proof {
            assert(img[j].len() == w);
            lemma_row_input_len(pal, img, j);
            assert(out@ =~= row_output(pal, row_input(pal, img, j)));
        }
        let ghost before = data@;
        write_row(data, start, &out);
        proof {
            assert forall|i: int| y - 1 <= i < height implies #[trigger] image_row(data@, w, i)
                == row_output(pal, row_input(pal, img, i)) by {
                lemma_write_row_rows(before, data@, out@, w, height as nat, j, i);
            }
        }
        y -= 1;
    }
    proof {
        assert(image_rows(data@, w, height as nat) =~= dithered_rows(pal, img));
    }
}

} // verus!
