use vstd::prelude::*;

use crate::color::{
    add_diff, quant_error, quantize, scale_diff, scale_fits, small_diff, trunc_div, Color, ColorDiff,
    Palette,
};
use crate::shared::{BorrowedSlice, OwnedSplit, Window};

verus! {

/// The share of a pixel's error carried to the next pixel of its row: 7/16.
pub open spec fn carry_of(pal: Seq<Color>, e: Color) -> ColorDiff {
    scale_diff(quant_error(pal, e), 7, 16)
}

/// The color that position `p` of a row is quantized from: its input, plus the
/// error carried in from position `p - 1`.
pub open spec fn effective(pal: Seq<Color>, inp: Seq<Color>, p: int) -> Color
    decreases p,
{
    if p <= 0 {
        inp[0]
    } else {
        add_diff(inp[p], carry_of(pal, effective(pal, inp, p - 1)))
    }
}

/// The quantization error made at position `p` of a row.
pub open spec fn row_error(pal: Seq<Color>, inp: Seq<Color>, p: int) -> ColorDiff {
    quant_error(pal, effective(pal, inp, p))
}

/// A row once dithered, given its input (the row with every contribution from
/// the row above already added).
pub open spec fn row_output(pal: Seq<Color>, inp: Seq<Color>) -> Seq<Color> {
    Seq::new(inp.len(), |p: int| quantize(pal, effective(pal, inp, p)))
}

/// Cell `c` of the row below a row with input `above`, starting from `orig`,
/// once positions `0..q` of the row above are done. Its contributions come in
/// scan order: 1/16 of the error at `c - 1`, 5/16 of that at `c`, 3/16 of that
/// at `c + 1`, each added with saturation.
#[verifier::opaque]
pub open spec fn below_partial(
    pal: Seq<Color>,
    above: Seq<Color>,
    orig: Color,
    c: int,
    q: int,
) -> Color {
    let v1 = if 1 <= c && c - 1 < q {
        add_diff(orig, scale_diff(row_error(pal, above, c - 1), 1, 16))
    } else {
        orig
    };
    let v2 = if c < q {
        add_diff(v1, scale_diff(row_error(pal, above, c), 5, 16))
    } else {
        v1
    };
    if c + 1 < q {
        add_diff(v2, scale_diff(row_error(pal, above, c + 1), 3, 16))
    } else {
        v2
    }
}

/// The input of the row below a row with input `above`: its initial cells
/// with every contribution of the row above added.
pub open spec fn below_row(pal: Seq<Color>, above: Seq<Color>, orig: Seq<Color>) -> Seq<Color> {
    Seq::new(orig.len(), |c: int| below_partial(pal, above, orig[c], c, above.len() as int))
}

/// The cells of the row below after position `p` of a row of width `w` has
/// diffused `err`: 3/16 to the bottom left, 5/16 to the bottom center and 1/16
/// to the bottom right, where those cells exist.
pub open spec fn diffuse_below(cells: Seq<Color>, err: ColorDiff, p: int, w: int) -> Seq<Color> {
    let bl = scale_diff(err, 3, 16);
    let bc = scale_diff(err, 5, 16);
    let br = scale_diff(err, 1, 16);
    if p == 0 {
        let s1 = cells.update(0, add_diff(cells[0], bc));
        if w > 1 {
            s1.update(1, add_diff(s1[1], br))
        } else {
            s1
        }
    } else {
        let s1 = cells.update(p - 1, add_diff(cells[p - 1], bl));
        let s2 = s1.update(p, add_diff(s1[p], bc));
        if p + 1 < w {
            s2.update(p + 1, add_diff(s2[p + 1], br))
        } else {
            s2
        }
    }
}

/// Where the cursor into the row below stands once `p` positions of a row of
/// width `w` are done: the cell before the last one done is final, and all
/// of them are when the row is.
pub open spec fn cursor_after(p: int, w: int) -> int {
    if p >= w {
        w
    } else if p == 0 {
        0
    } else {
        p - 1
    }
}

/// What a worker is: its row as far as it holds it, its window into the row
/// below (none for the last row), how far it has got, and the error carried
/// to its next position.
pub struct WorkerView {
    pub own: Seq<Color>,
    pub next: Option<Window<Color>>,
    pub position: nat,
    pub width: nat,
    pub carry: Option<ColorDiff>,
}

/// One step of a worker: the pixel at its position, moved by the carried
/// error, is quantized; its error is carried right and diffused below; and
/// the cursor below advances.
pub open spec fn step_spec(v: WorkerView, pal: Seq<Color>) -> WorkerView {
    let p = v.position as int;
    let w = v.width as int;
    let x = v.own[p];
    let e = match v.carry {
        Some(c) => add_diff(x, c),
        None => x,
    };
    let err = quant_error(pal, e);
    WorkerView {
        own: v.own.update(p, quantize(pal, e)),
        next: match v.next {
            Some(win) => Some(
                Window { cells: diffuse_below(win.cells, err, p, w), cursor: cursor_after(p + 1, w) as nat },
            ),
            None => None,
        },
        position: (p + 1) as nat,
        width: v.width,
        carry: if p + 1 < w {
            Some(scale_diff(err, 7, 16))
        } else {
            None
        },
    }
}

/// Every step that the cells a worker holds allow.
pub open spec fn run_spec(v: WorkerView, pal: Seq<Color>) -> WorkerView
    decreases v.own.len() - v.position,
{
    if v.position < v.own.len() && v.position < v.width {
        run_spec(step_spec(v, pal), pal)
    } else {
        v
    }
}

/// A worker is on course for a row whose full input is `inp`, above a row
/// whose initial cells are `below`: what it has done is what the row's
/// dithering does, and what it holds further on is still input.
pub open spec fn tracks(v: WorkerView, pal: Seq<Color>, inp: Seq<Color>, below: Seq<Color>) -> bool {
    &&& inp.len() == v.width
    &&& forall|i: int|
        0 <= i < v.position ==> #[trigger] v.own[i] == quantize(pal, effective(pal, inp, i))
    &&& forall|i: int| v.position <= i < v.own.len() ==> #[trigger] v.own[i] == inp[i]
    &&& v.carry == if v.position == 0 || v.position >= v.width {
        None::<ColorDiff>
    } else {
        Some(carry_of(pal, effective(pal, inp, v.position - 1)))
    }
    &&& v.next matches Some(win) ==> {
        &&& below.len() == v.width
        &&& forall|c: int|
            0 <= c < v.width ==> #[trigger] win.cells[c] == below_partial(
                pal,
                inp,
                below[c],
                c,
                v.position as int,
            )
    }
}

/// The cells below, once position `p` of the row above has diffused its error,
/// are those with positions `0..p + 1` of the row above done.
pub proof fn lemma_diffuse_advances(
    pal: Seq<Color>,
    inp: Seq<Color>,
    below: Seq<Color>,
    cells: Seq<Color>,
    p: int,
)
    requires
        0 <= p < inp.len(),
        cells.len() == inp.len(),
        below.len() == inp.len(),
        forall|c: int|
            0 <= c < inp.len() ==> #[trigger] cells[c] == below_partial(pal, inp, below[c], c, p),
    ensures
        forall|c: int|
            0 <= c < inp.len() ==> #[trigger] diffuse_below(
                cells,
                row_error(pal, inp, p),
                p,
                inp.len() as int,
            )[c] == below_partial(pal, inp, below[c], c, p + 1),
{
    let w = inp.len() as int;
    let err = row_error(pal, inp, p);
    let out = diffuse_below(cells, err, p, w);
    assert forall|c: int| 0 <= c < w implies #[trigger] out[c] == below_partial(
        pal,
        inp,
        below[c],
        c,
        p + 1,
    ) by {
        lemma_diffuse_cell(pal, inp, below, cells, p, c);
    }
}

proof fn lemma_diffuse_cell(
    pal: Seq<Color>,
    inp: Seq<Color>,
    below: Seq<Color>,
    cells: Seq<Color>,
    p: int,
    c: int,
)
    requires
        0 <= p < inp.len(),
        0 <= c < inp.len(),
        cells.len() == inp.len(),
        below.len() == inp.len(),
        cells[c] == below_partial(pal, inp, below[c], c, p),
        p >= 1 ==> cells[p - 1] == below_partial(pal, inp, below[p - 1], p - 1, p),
        cells[p] == below_partial(pal, inp, below[p], p, p),
        p + 1 < inp.len() ==> cells[p + 1] == below_partial(pal, inp, below[p + 1], p + 1, p),
    ensures
        diffuse_below(cells, row_error(pal, inp, p), p, inp.len() as int)[c] == below_partial(
            pal,
            inp,
            below[c],
            c,
            p + 1,
        ),
{
    reveal(below_partial);
    let w = inp.len() as int;
    let err = row_error(pal, inp, p);
    let bl = scale_diff(err, 3, 16);
    let bc = scale_diff(err, 5, 16);
    let br = scale_diff(err, 1, 16);
    if p == 0 {
        let s1 = cells.update(0, add_diff(cells[0], bc));
        if w > 1 {
            assert(s1[1] == cells[1]);
        }
    } else {
        let s1 = cells.update(p - 1, add_diff(cells[p - 1], bl));
        let s2 = s1.update(p, add_diff(s1[p], bc));
        assert(s1[p] == cells[p]);
        if p + 1 < w {
            assert(s2[p + 1] == cells[p + 1]);
        }
    }
}

/// A cell of the row below is final once the row above has gone two
/// positions past it, or has finished.
pub proof fn lemma_released_is_final(pal: Seq<Color>, above: Seq<Color>, orig: Color, c: int, q: int)
    requires
        0 <= c,
        c + 2 <= q <= above.len() || (q == above.len() && c < q),
    ensures
        below_partial(pal, above, orig, c, q) == below_partial(pal, above, orig, c, above.len() as int),
{
    reveal(below_partial);
}

/// Before the row above has done anything, a cell of the row below is as it was.
pub proof fn lemma_below_start(pal: Seq<Color>, above: Seq<Color>, orig: Color, c: int)
    requires
        0 <= c,
    ensures
        below_partial(pal, above, orig, c, 0) == orig,
{
    reveal(below_partial);
}

/// A step keeps a worker on course.
pub proof fn lemma_step_tracks(v: WorkerView, pal: Seq<Color>, inp: Seq<Color>, below: Seq<Color>)
    requires
        worker_wf(v),
        tracks(v, pal, inp, below),
        v.position < v.own.len(),
    ensures
        tracks(step_spec(v, pal), pal, inp, below),
{
    let p = v.position as int;
    let x = v.own[p];
    assert(x == inp[p]);
    let e = match v.carry {
        Some(c) => add_diff(x, c),
        None => x,
    };
    assert(e == effective(pal, inp, p));
    let nv = step_spec(v, pal);
    assert forall|i: int| 0 <= i < nv.position implies #[trigger] nv.own[i] == quantize(
        pal,
        effective(pal, inp, i),
    ) by {
        if i < p {
            assert(v.own[i] == quantize(pal, effective(pal, inp, i)));
        }
    }
    assert forall|i: int| nv.position <= i < nv.own.len() implies #[trigger] nv.own[i] == inp[i] by {
        assert(v.own[i] == inp[i]);
    }
    assert(nv.carry == if nv.position == 0 || nv.position >= nv.width {
        None::<ColorDiff>
    } else {
        Some(carry_of(pal, effective(pal, inp, nv.position - 1)))
    });
    if let Some(win) = v.next {
        lemma_diffuse_advances(pal, inp, below, win.cells, p);
        let nwin = nv.next->Some_0;
        assert(nwin.cells == diffuse_below(win.cells, row_error(pal, inp, p), p, inp.len() as int));
        assert forall|c: int| 0 <= c < nv.width implies #[trigger] nwin.cells[c] == below_partial(
            pal,
            inp,
            below[c],
            c,
            nv.position as int,
        ) by {
            assert(diffuse_below(win.cells, row_error(pal, inp, p), p, inp.len() as int)[c]
                == below_partial(pal, inp, below[c], c, p + 1));
        }
    }
}

/// Running a worker keeps it on course.
pub proof fn lemma_run_tracks(v: WorkerView, pal: Seq<Color>, inp: Seq<Color>, below: Seq<Color>)
    requires
        worker_wf(v),
        tracks(v, pal, inp, below),
    ensures
        tracks(run_spec(v, pal), pal, inp, below),
        worker_wf(run_spec(v, pal)),
        run_spec(v, pal).own.len() == v.own.len(),
        run_spec(v, pal).width == v.width,
        run_spec(v, pal).next is Some <==> v.next is Some,
        run_spec(v, pal).position == v.own.len(),
    decreases v.own.len() - v.position,
{
    if v.position < v.own.len() && v.position < v.width {
        lemma_step_tracks(v, pal, inp, below);
        lemma_step_wf(v, pal);
        lemma_run_tracks(step_spec(v, pal), pal, inp, below);
    }
}

/// The cursor into the row below never moves back.
pub proof fn lemma_run_cursor(v: WorkerView, pal: Seq<Color>)
    requires
        worker_wf(v),
    ensures
        v.next is Some ==> v.next->Some_0.cursor <= run_spec(v, pal).next->Some_0.cursor,
        run_spec(v, pal).next is Some <==> v.next is Some,
        run_spec(v, pal).width == v.width,
        run_spec(v, pal).own.len() == v.own.len(),
        worker_wf(run_spec(v, pal)),
    decreases v.own.len() - v.position,
{
    if v.position < v.own.len() && v.position < v.width {
        lemma_step_wf(v, pal);
        lemma_run_cursor(step_spec(v, pal), pal);
    }
}

/// A step keeps a worker well formed.
pub proof fn lemma_step_wf(v: WorkerView, pal: Seq<Color>)
    requires
        worker_wf(v),
        v.position < v.own.len(),
    ensures
        worker_wf(step_spec(v, pal)),
{
    let p = v.position as int;
    let x = v.own[p];
    let e = match v.carry {
        Some(c) => add_diff(x, c),
        None => x,
    };
    let err = quant_error(pal, e);
    assert(small_diff(err));
    lemma_scale_small(err, 7);
}

/// The worker that dithers one row: it reads and writes its own row, and
/// diffuses error into the row below through the owning side of a split.
pub struct Worker {
    own_row: BorrowedSlice<Color>,
    next_row: Option<OwnedSplit<Color>>,
    position: usize,
    width: usize,
    carry: Option<ColorDiff>,
}

impl View for Worker {
    type V = WorkerView;

    closed spec fn view(&self) -> WorkerView {
        WorkerView {
            own: self.own_row@,
            next: match self.next_row {
                Some(n) => Some(n@),
                None => None,
            },
            position: self.position as nat,
            width: self.width as nat,
            carry: self.carry,
        }
    }
}

/// The invariant that every worker keeps.
pub open spec fn worker_wf(v: WorkerView) -> bool {
    &&& 1 <= v.width
    &&& v.position <= v.own.len() <= v.width
    &&& v.position == 0 ==> v.carry is None
    &&& v.carry matches Some(c) ==> small_diff(c)
    &&& v.next matches Some(win) ==> {
        &&& win.cells.len() == v.width
        &&& win.cursor == cursor_after(v.position as int, v.width as int)
    }
}

/// `e * num / den` stays within a channel's range for the kernel's weights.
proof fn lemma_scale_small(e: ColorDiff, num: int)
    requires
        small_diff(e),
        0 <= num <= 16,
    ensures
        small_diff(scale_diff(e, num, 16)),
        scale_fits(e, num, 16),
{
    assert(-4080 <= e.r * num <= 4080) by (nonlinear_arith)
        requires
            -255 <= e.r <= 255,
            0 <= num <= 16,
    ;
    assert(-4080 <= e.g * num <= 4080) by (nonlinear_arith)
        requires
            -255 <= e.g <= 255,
            0 <= num <= 16,
    ;
    assert(-4080 <= e.b * num <= 4080) by (nonlinear_arith)
        requires
            -255 <= e.b <= 255,
            0 <= num <= 16,
    ;
    lemma_trunc_div_16(e.r * num);
    lemma_trunc_div_16(e.g * num);
    lemma_trunc_div_16(e.b * num);
}

proof fn lemma_trunc_div_16(v: int)
    requires
        -4080 <= v <= 4080,
    ensures
        -255 <= trunc_div(v, 16) <= 255,
{
    let m = crate::color::abs(v);
    assert(0 <= m <= 4080);
    assert(m / 16 <= 255);
}

/// Adds `error`'s share to each cell of the row below that position
/// `position` reaches.
fn diffuse_error(next_row: &mut OwnedSplit<Color>, error: ColorDiff, position: usize, width: usize)
    requires
        small_diff(error),
        position < width,
        old(next_row)@.cells.len() == width,
        old(next_row)@.cursor == cursor_after(position as int, width as int),
    ensures
        final(next_row)@.cursor == old(next_row)@.cursor,
        final(next_row)@.cells == diffuse_below(
            old(next_row)@.cells,
            error,
            position as int,
            width as int,
        ),
{
    proof {
        lemma_scale_small(error, 3);
        lemma_scale_small(error, 5);
        lemma_scale_small(error, 1);
    }
    let bl = error.scale(3, 16);
    let bc = error.scale(5, 16);
    let br = error.div(16);
    if position == 0 {
        next_row.index_mut(0).add_assign(bc);
        if width > 1 {
            next_row.index_mut(1).add_assign(br);
        }
    } else {
        next_row.index_mut(0).add_assign(bl);
        next_row.index_mut(1).add_assign(bc);
        if width > position + 1 {
            next_row.index_mut(2).add_assign(br);
        }
    }
}

impl Worker {
    /// A worker at the start of a row of `width` pixels: `own_row` holds the
    /// part of the row available so far, `next_row` the row below with
    /// nothing released.
    pub fn new(
        own_row: BorrowedSlice<Color>,
        next_row: Option<OwnedSplit<Color>>,
        width: usize,
    ) -> (w: Worker)
        requires
            1 <= width,
            own_row@.len() <= width,
            next_row matches Some(n) ==> n@.cells.len() == width && n@.cursor == 0,
        ensures
            w@.own == own_row@,
            w@.next == match next_row {
                Some(n) => Some(n@),
                None => None::<Window<Color>>,
            },
            w@.position == 0,
            w@.width == width,
            w@.carry is None,
            worker_wf(w@),
    {
        Worker { own_row, next_row, position: 0, width, carry: None }
    }

    pub fn position(&self) -> (p: usize)
        ensures
            p == self@.position,
    {
        self.position
    }

    /// How many cells of its row the worker holds.
    pub fn available(&self) -> (n: usize)
        ensures
            n == self@.own.len(),
    {
        self.own_row.len()
    }

    /// The row is done.
    pub fn is_done(&self) -> (b: bool)
        ensures
            b == (self@.position == self@.width),
    {
        self.position == self.width
    }

    /// Dithers the pixel at the worker's position.
    pub fn step(&mut self, palette: &Palette)
        requires
            worker_wf(old(self)@),
            old(self)@.position < old(self)@.own.len(),
        ensures
            final(self)@ == step_spec(old(self)@, palette@),
            worker_wf(final(self)@),
    {
        let p = self.position;
        let width = self.width;
        let x = *self.own_row.index(p);
        let e = match self.carry {
            Some(c) => x.add(c),
            None => x,
        };
        let i = palette.closest(&e);
        let q = palette.colors()[i];
        let err = e.sub(q);
        *self.own_row.index_mut(p) = q;
        match &mut self.next_row {
            Some(next) => {
                diffuse_error(next, err, p, width);
                if p > 0 {
                    next.lend(1);
                }
                if p + 1 == width {
                    next.lend_all();
                }
            },
            None => {},
        }
        proof {
            lemma_scale_small(err, 7);
        }
        self.position = p + 1;
        self.carry = if p + 1 < width {
            Some(err.scale(7, 16))
        } else {
            None
        };
    }

    /// Dithers every pixel that the worker holds and has not done; once the
    /// row is done, all of the row below is released.
    pub fn run(&mut self, palette: &Palette)
        requires
            worker_wf(old(self)@),
        ensures
            final(self)@ == run_spec(old(self)@, palette@),
            worker_wf(final(self)@),
    {
        loop
            invariant
                worker_wf(self@),
                run_spec(self@, palette@) == run_spec(old(self)@, palette@),
            decreases self@.own.len() - self@.position,
        {
            if self.position >= self.own_row.len() || self.position >= self.width {
                return;
            }
            self.step(palette);
        }
    }

    /// Takes over cells of its row that the row above has released.
    pub fn receive(&mut self, cells: Vec<Color>)
        requires
            worker_wf(old(self)@),
            old(self)@.own.len() + cells@.len() <= old(self)@.width,
        ensures
            final(self)@ == (WorkerView { own: old(self)@.own + cells@, ..old(self)@ }),
            worker_wf(final(self)@),
    {
        match &mut self.own_row {
            BorrowedSlice::Owned(v) => {
                let mut cells = cells;
                v.append(&mut cells);
            },
            BorrowedSlice::Shared(s) => {
                s.extend(cells);
            },
        }
    }

    /// The owning side of the split into the row below, if any.
    pub fn next_row(&self) -> (n: &Option<OwnedSplit<Color>>)
        ensures
            self@.next == match *n {
                Some(s) => Some(s@),
                None => None::<Window<Color>>,
            },
    {
        &self.next_row
    }

    /// The worker's row and its split into the row below.
    pub fn into_parts(self) -> (r: (Vec<Color>, Option<OwnedSplit<Color>>))
        ensures
            r.0@ == self@.own,
            self@.next == match r.1 {
                Some(s) => Some(s@),
                None => None::<Window<Color>>,
            },
    {
        let Worker { own_row, next_row, .. } = self;
        (own_row.into_vec(), next_row)
    }
}

} // verus!
