//! Figures: shapes with one or more rotation faces, and how they meet the board.

use vstd::prelude::*;

verus! {

use crate::playfield::Playfield;
use crate::position::Position;

/// One rotation of a figure: a small rectangular cell mask.  A cell value of
/// `0` is empty; any other value is the color id the cell paints when locked.
pub struct Face {
    pub rows: Vec<Vec<u8>>,
}

/// The mask of a face as a sequence of rows.
pub open spec fn face_view(f: Face) -> Seq<Seq<u8>> {
    Seq::new(f.rows@.len(), |r: int| f.rows@[r]@)
}

/// The mask rotated a quarter turn clockwise.
pub open spec fn rot_view(v: Seq<Seq<u8>>) -> Seq<Seq<u8>> {
    let h = v.len() as int;
    let w = v[0].len() as int;
    Seq::new(w as nat, |r: int| Seq::new(h as nat, |c: int| v[h - 1 - c][r]))
}

/// The mask rotated `k` quarter turns clockwise.
pub open spec fn rot_view_k(v: Seq<Seq<u8>>, k: nat) -> Seq<Seq<u8>>
    decreases k,
{
    if k == 0 {
        v
    } else {
        rot_view(rot_view_k(v, (k - 1) as nat))
    }
}

impl Face {
    /// Well-formed: rectangular, small, and holding at least one set cell.
    pub open spec fn wf(&self) -> bool {
        &&& 1 <= self.rows@.len() <= 100
        &&& 1 <= self.rows@[0]@.len() <= 100
        &&& forall|r: int|
            0 <= r < self.rows@.len() ==> (#[trigger] self.rows@[r])@.len()
                == self.rows@[0]@.len()
        &&& exists|c: int, r: int|
            0 <= c < self.rows@[0]@.len() && 0 <= r < self.rows@.len() && self.at(c, r) != 0
    }

    /// The number of rows of the mask.
    pub open spec fn h(&self) -> int {
        self.rows@.len() as int
    }

    /// The number of columns of the mask.
    pub open spec fn w(&self) -> int {
        self.rows@[0]@.len() as int
    }

    /// The cell in column `cx`, row `ry` of the mask.
    pub open spec fn at(&self, cx: int, ry: int) -> u8 {
        self.rows@[ry]@[cx]
    }

    /// Row `ry` of the mask holds at least one set cell.
    pub open spec fn row_has_set(&self, ry: int) -> bool {
        exists|cx: int| 0 <= cx < self.w() && self.at(cx, ry) != 0
    }

    /// The largest index `< ry` of a row holding a set cell, or `-1`.
    pub open spec fn lowest_set_row_before(&self, ry: int) -> int
        decreases ry,
    {
        if ry <= 0 {
            -1
        } else if self.row_has_set(ry - 1) {
            ry - 1
        } else {
            self.lowest_set_row_before(ry - 1)
        }
    }

    /// The largest row index holding a set cell.
    pub open spec fn lowest_set_row(&self) -> int {
        self.lowest_set_row_before(self.h())
    }

    pub fn height(&self) -> (r: usize)
        requires
            self.wf(),
        ensures
            r == self.h(),
    {
        self.rows.len()
    }

    pub fn width(&self) -> (r: usize)
        requires
            self.wf(),
        ensures
            r == self.w(),
    {
        self.rows[0].len()
    }

    pub fn get(&self, cx: usize, ry: usize) -> (r: u8)
        requires
            self.wf(),
            cx < self.w(),
            ry < self.h(),
        ensures
            r == self.at(cx as int, ry as int),
    {
        self.rows[ry][cx]
    }
}

/// Whether two faces hold the same mask.
fn face_eq(a: &Face, b: &Face) -> (r: bool)
    requires
        a.wf(),
        b.wf(),
    ensures
        r == (face_view(*a) == face_view(*b)),
{
    if a.rows.len() != b.rows.len() {
        proof {
            assert(face_view(*a).len() != face_view(*b).len());
        }
        return false;
    }
    if a.rows[0].len() != b.rows[0].len() {
        proof {
            assert(face_view(*a)[0].len() != face_view(*b)[0].len());
        }
        return false;
    }
    let h = a.rows.len();
    let w = a.rows[0].len();
    let mut ry: usize = 0;
    while ry < h
        invariant
            a.wf(),
            b.wf(),
            a.h() == h,
            b.h() == h,
            a.w() == w,
            b.w() == w,
            ry <= h,
            forall|rr: int, cc: int|
                0 <= rr < ry && 0 <= cc < w ==> a.at(cc, rr) == b.at(cc, rr),
        decreases h - ry,
    {
        let mut cx: usize = 0;
        while cx < w
            invariant
                a.wf(),
                b.wf(),
                a.h() == h,
                b.h() == h,
                a.w() == w,
                b.w() == w,
                ry < h,
                cx <= w,
                forall|rr: int, cc: int|
                    0 <= rr < ry && 0 <= cc < w ==> a.at(cc, rr) == b.at(cc, rr),
                forall|cc: int| 0 <= cc < cx ==> a.at(cc, ry as int) == b.at(cc, ry as int),
            decreases w - cx,
        {
            if a.rows[ry][cx] != b.rows[ry][cx] {
                proof {
                    assert(face_view(*a)[ry as int][cx as int] != face_view(*b)[ry as int][cx
                        as int]);
                }
                return false;
            }
            cx = cx + 1;
        }
        ry = ry + 1;
    }
    proof {
        assert forall|rr: int, cc: int|
            0 <= rr < h && 0 <= cc < w implies face_view(*a)[rr][cc] == face_view(
            *b,
        )[rr][cc] by {
            assert(a.at(cc, rr) == b.at(cc, rr));
        }
        assert(face_view(*a) =~~= face_view(*b));
    }
    true
}

/// The face rotated a quarter turn clockwise.
fn rotate_cw(f: &Face) -> (r: Face)
    requires
        f.wf(),
    ensures
        r.wf(),
        r.h() == f.w(),
        r.w() == f.h(),
        face_view(r) == rot_view(face_view(*f)),
{
    let h = f.rows.len();
    let w = f.rows[0].len();
    let mut rows: Vec<Vec<u8>> = Vec::new();
    let mut rr: usize = 0;
    while rr < w
        invariant
            f.wf(),
            f.h() == h,
            f.w() == w,
            rr <= w,
            rows@.len() == rr,
            forall|r2: int| 0 <= r2 < rr ==> (#[trigger] rows@[r2])@.len() == h,
            forall|r2: int, c2: int|
                0 <= r2 < rr && 0 <= c2 < h ==> #[trigger] rows@[r2]@[c2] == f.at(
                    r2,
                    h - 1 - c2,
                ),
        decreases w - rr,
    {
        let mut row: Vec<u8> = Vec::new();
        let mut cc: usize = 0;
        while cc < h
            invariant
                f.wf(),
                f.h() == h,
                f.w() == w,
                rr < w,
                cc <= h,
                row@.len() == cc,
                forall|c2: int| 0 <= c2 < cc ==> #[trigger] row@[c2] == f.at(rr as int, h - 1 - c2),
            decreases h - cc,
        {
            row.push(f.rows[h - 1 - cc][rr]);
            cc = cc + 1;
        }
        rows.push(row);
        rr = rr + 1;
    }
    let r = Face { rows };
    proof {
        assert(face_view(r) =~~= rot_view(face_view(*f)));
        let (cx, ry): (int, int) = choose|cx: int, ry: int|
            0 <= cx < f.w() && 0 <= ry < f.h() && f.at(cx, ry) != 0;
        assert(r.at(h - 1 - ry, cx) == f.at(cx, ry));
    }
    r
}

/// The figure grown from one base mask: it shows the base mask first,
/// every face is one of the mask's quarter-turn rotations, every rotation
/// is represented by some face, and no two faces are alike.
pub open spec fn built_from(fig: Figure, base: Seq<Seq<u8>>) -> bool {
    &&& fig.wf()
    &&& 1 <= fig.faces@.len() <= 4
    &&& face_view(fig.faces@[0]) == base
    &&& forall|i: int|
        0 <= i < fig.faces@.len() ==> exists|k: nat|
            k < 4 && face_view(#[trigger] fig.faces@[i]) == rot_view_k(base, k)
    &&& forall|k: nat|
        k < 4 ==> exists|i: int|
            0 <= i < fig.faces@.len() && face_view(fig.faces@[i]) == #[trigger] rot_view_k(
                base,
                k,
            )
    &&& forall|i: int, j: int|
        0 <= i < j < fig.faces@.len() ==> face_view(fig.faces@[i]) != face_view(fig.faces@[j])
}

/// A grid cell a figure may not occupy: outside the grid, or filled.
pub open spec fn mdl_blocked(grid: Seq<Seq<u8>>, w: int, h: int, x: int, y: int) -> bool {
    x < 0 || x >= w || y < 0 || y >= h || grid[y][x] != 0
}

/// The figure with faces `faces` at `pos` overlaps a filled cell or sticks
/// out of the grid.
pub open spec fn mdl_collides(
    grid: Seq<Seq<u8>>,
    w: int,
    h: int,
    faces: Seq<Seq<Seq<u8>>>,
    pos: Position,
) -> bool {
    let face = faces[pos.dir as int];
    exists|cx: int, ry: int|
        0 <= cx < face[0].len() && 0 <= ry < face.len() && face[ry][cx] != 0 && mdl_blocked(
            grid,
            w,
            h,
            pos.x + cx,
            pos.y + ry,
        )
}

/// The figure with faces `faces` at `pos` paints grid cell `(x, y)`.
pub open spec fn mdl_covers(faces: Seq<Seq<Seq<u8>>>, pos: Position, x: int, y: int) -> bool {
    let face = faces[pos.dir as int];
    &&& 0 <= x - pos.x < face[0].len()
    &&& 0 <= y - pos.y < face.len()
    &&& face[y - pos.y][x - pos.x] != 0
}

/// The grid after the figure's set cells are written into it.
pub open spec fn mdl_place(
    grid: Seq<Seq<u8>>,
    faces: Seq<Seq<Seq<u8>>>,
    pos: Position,
) -> Seq<Seq<u8>> {
    Seq::new(
        grid.len(),
        |y: int|
            Seq::new(
                grid[y].len(),
                |x: int|
                    if mdl_covers(faces, pos, x, y) {
                        faces[pos.dir as int][y - pos.y][x - pos.x]
                    } else {
                        grid[y][x]
                    },
            ),
    )
}

/// A figure: the distinct rotation faces of one shape, in rotation order.
pub struct Figure {
    pub faces: Vec<Face>,
}

/// The masks of all faces of a figure.
pub open spec fn fig_view(fig: Figure) -> Seq<Seq<Seq<u8>>> {
    Seq::new(fig.faces@.len(), |i: int| face_view(fig.faces@[i]))
}

/// A board cell a figure may not occupy: outside the board, or already filled.
pub open spec fn cell_blocked(pf: Playfield, x: int, y: int) -> bool {
    x < 0 || x >= pf.width || y < 0 || y >= pf.height || pf.cell(x, y) != 0
}

/// The figure at `pos` overlaps a filled cell or sticks out of the board.
pub open spec fn spec_collides(pf: Playfield, fig: Figure, pos: Position) -> bool {
    let face = fig.faces@[pos.dir as int];
    exists|cx: int, ry: int|
        0 <= cx < face.w() && 0 <= ry < face.h() && face.at(cx, ry) != 0 && cell_blocked(
            pf,
            pos.x + cx,
            pos.y + ry,
        )
}

/// The figure at `pos` paints board cell `(x, y)`.
pub open spec fn covers(fig: Figure, pos: Position, x: int, y: int) -> bool {
    let face = fig.faces@[pos.dir as int];
    &&& 0 <= x - pos.x < face.w()
    &&& 0 <= y - pos.y < face.h()
    &&& face.at(x - pos.x, y - pos.y) != 0
}

/// The color the figure at `pos` paints board cell `(x, y)` with.
pub open spec fn cover_color(fig: Figure, pos: Position, x: int, y: int) -> u8 {
    fig.faces@[pos.dir as int].at(x - pos.x, y - pos.y)
}

impl Figure {
    /// Well-formed: between one and four rotation faces, each well-formed.
    pub open spec fn wf(&self) -> bool {
        &&& 1 <= self.faces@.len() <= 4
        &&& forall|i: int| 0 <= i < self.faces@.len() ==> (#[trigger] self.faces@[i]).wf()
    }

    /// The number of rotation faces.
    pub open spec fn nfaces(&self) -> int {
        self.faces@.len() as int
    }

    pub fn num_faces(&self) -> (r: usize)
        ensures
            r == self.nfaces(),
    {
        self.faces.len()
    }

    /// The face shown when the figure stands in direction `dir`.
    pub fn face(&self, dir: i32) -> (r: &Face)
        requires
            self.wf(),
            0 <= dir < self.nfaces(),
        ensures
            *r == self.faces@[dir as int],
            r.wf(),
    {
        &self.faces[dir as usize]
    }

    /// Builds a figure from one face mask: the distinct quarter-turn
    /// rotations of the mask become the figure's faces, the given mask first.
    pub fn new_from_face(rows: Vec<Vec<u8>>) -> (fig: Figure)
        requires
            ({
                let f = Face { rows };
                f.wf()
            }),
        ensures
            built_from(fig, face_view(Face { rows })),
    {
        let f0 = Face { rows };
        let f1 = rotate_cw(&f0);
        let f2 = rotate_cw(&f1);
        let f3 = rotate_cw(&f2);
        proof {
            assert(face_view(f0) == rot_view_k(face_view(f0), 0));
            assert(face_view(f1) == rot_view_k(face_view(f0), 1));
            assert(face_view(f2) == rot_view_k(face_view(f0), 2));
            assert(face_view(f3) == rot_view_k(face_view(f0), 3));
        }
        let ghost base = face_view(f0);
        let mut faces: Vec<Face> = Vec::new();
        faces.push(f0);
        let candidates: Vec<Face> = vec![f1, f2, f3];
        let mut ci: usize = 0;
        while ci < candidates.len()
            invariant
                candidates@.len() == 3,
                forall|i: int| 0 <= i < candidates@.len() ==> (#[trigger] candidates@[i]).wf(),
                forall|i: int|
                    0 <= i < candidates@.len() ==> exists|k: nat|
                        k < 4 && face_view(#[trigger] candidates@[i]) == rot_view_k(base, k),
                1 <= faces@.len() <= 4,
                faces@.len() <= 1 + ci,
                face_view(faces@[0]) == base,
                forall|i: int| 0 <= i < faces@.len() ==> (#[trigger] faces@[i]).wf(),
                forall|i: int|
                    0 <= i < faces@.len() ==> exists|k: nat|
                        k < 4 && face_view(#[trigger] faces@[i]) == rot_view_k(base, k),
                forall|c: int|
                    0 <= c < ci ==> exists|i: int|
                        0 <= i < faces@.len() && face_view(faces@[i]) == face_view(
                            #[trigger] candidates@[c],
                        ),
                forall|i: int, j: int|
                    0 <= i < j < faces@.len() ==> face_view(faces@[i]) != face_view(faces@[j]),
            decreases candidates@.len() - ci,
        {
            let cand = &candidates[ci];
            let mut found = false;
            let mut fi: usize = 0;
            while fi < faces.len()
                invariant
                    ci < candidates@.len(),
                    forall|i: int| 0 <= i < candidates@.len() ==> (#[trigger] candidates@[i]).wf(),
                    forall|i: int| 0 <= i < faces@.len() ==> (#[trigger] faces@[i]).wf(),
                    cand == candidates@[ci as int],
                    fi <= faces@.len(),
                    found == exists|i: int|
                        0 <= i < fi && face_view(#[trigger] faces@[i]) == face_view(*cand),
                decreases faces@.len() - fi,
            {
                if face_eq(&faces[fi], cand) {
                    found = true;
                }
                fi = fi + 1;
            }
            let ghost faces0 = faces@;
            if !found {
                let copy = duplicate_face(cand);
                faces.push(copy);
            }
            proof {
                assert forall|c: int|
                    0 <= c < ci + 1 implies exists|i: int|
                        0 <= i < faces@.len() && face_view(faces@[i]) == face_view(
                            #[trigger] candidates@[c],
                        ) by {
                    if c < ci {
                        let w = choose|i: int|
                            0 <= i < faces0.len() && face_view(faces0[i]) == face_view(
                                candidates@[c],
                            );
                        assert(faces@[w] == faces0[w]);
                        assert(face_view(faces@[w]) == face_view(candidates@[c]));
                    } else {
                        if found {
                            let w = choose|i: int|
                                0 <= i < faces0.len() && face_view(#[trigger] faces0[i])
                                    == face_view(candidates@[c]);
                            assert(faces@[w] == faces0[w]);
                            assert(face_view(faces@[w]) == face_view(candidates@[c]));
                        } else {
                            assert(face_view(faces@[faces@.len() - 1]) == face_view(
                                candidates@[c],
                            ));
                        }
                    }
                }
            }
            ci = ci + 1;
        }
        let fig = Figure { faces };
        proof {
            assert forall|k: nat| k < 4 implies exists|i: int|
                0 <= i < fig.faces@.len() && face_view(fig.faces@[i]) == #[trigger] rot_view_k(
                    base,
                    k,
                ) by {
                if k == 0 {
                    assert(face_view(fig.faces@[0]) == rot_view_k(base, 0));
                } else {
                    let c = k - 1;
                    assert(face_view(candidates@[c as int]) == rot_view_k(base, k));
                    let w = choose|i: int|
                        0 <= i < faces@.len() && face_view(faces@[i]) == face_view(
                            candidates@[c as int],
                        );
                    assert(face_view(fig.faces@[w]) == rot_view_k(base, k));
                }
            }
        }
        fig
    }

    /// A copy of the figure, face for face.
    pub fn duplicate(&self) -> (r: Figure)
        requires
            self.wf(),
        ensures
            r.wf(),
            fig_view(r) == fig_view(*self),
            r.nfaces() == self.nfaces(),
    {
        let mut faces: Vec<Face> = Vec::new();
        let mut i: usize = 0;
        while i < self.faces.len()
            invariant
                self.wf(),
                i <= self.faces@.len(),
                faces@.len() == i,
                forall|j: int| 0 <= j < i ==> (#[trigger] faces@[j]).wf(),
                forall|j: int|
                    0 <= j < i ==> face_view(#[trigger] faces@[j]) == face_view(self.faces@[j]),
            decreases self.faces@.len() - i,
        {
            let copy = duplicate_face(&self.faces[i]);
            faces.push(copy);
            i = i + 1;
        }
        let r = Figure { faces };
        proof {
            assert(fig_view(r) =~~= fig_view(*self));
        }
        r
    }

    /// Whether the figure at `pos` overlaps filled cells or leaves the board.
    pub fn test_collision(&self, pf: &Playfield, pos: Position) -> (r: bool)
        requires
            pf.wf(),
            self.wf(),
            0 <= pos.dir < self.nfaces(),
            pos.in_safe_range(),
        ensures
            r == spec_collides(*pf, *self, pos),
    {
        let face = &self.faces[pos.dir as usize];
        let h = face.rows.len();
        let w = face.rows[0].len();
        let mut ry: usize = 0;
        while ry < h
            invariant
                pf.wf(),
                self.wf(),
                0 <= pos.dir < self.nfaces(),
                pos.in_safe_range(),
                face == self.faces@[pos.dir as int],
                face.h() == h,
                face.w() == w,
                ry <= h,
                forall|cc: int, rr: int|
                    0 <= cc < w && 0 <= rr < ry && face.at(cc, rr) != 0 ==> !cell_blocked(
                        *pf,
                        pos.x + cc,
                        pos.y + rr,
                    ),
            decreases h - ry,
        {
            let mut cx: usize = 0;
            while cx < w
                invariant
                    pf.wf(),
                    self.wf(),
                    0 <= pos.dir < self.nfaces(),
                    pos.in_safe_range(),
                    face == self.faces@[pos.dir as int],
                    face.h() == h,
                    face.w() == w,
                    ry < h,
                    cx <= w,
                    forall|cc: int, rr: int|
                        0 <= cc < w && 0 <= rr < ry && face.at(cc, rr) != 0 ==> !cell_blocked(
                            *pf,
                            pos.x + cc,
                            pos.y + rr,
                        ),
                    forall|cc: int|
                        0 <= cc < cx && face.at(cc, ry as int) != 0 ==> !cell_blocked(
                            *pf,
                            pos.x + cc,
                            pos.y + ry as int,
                        ),
                decreases w - cx,
            {
                if face.rows[ry][cx] != 0 {
                    proof {
                        assert(face.at(cx as int, ry as int) != 0);
                    }
                    let bx = pos.x + cx as i32;
                    let by = pos.y + ry as i32;
                    if bx < 0 || bx >= pf.width as i32 || by < 0 || by >= pf.height as i32 {
                        proof {
                            assert(pf.width as i32 == pf.width && pf.height as i32 == pf.height);
                            assert(cell_blocked(*pf, pos.x + cx as int, pos.y + ry as int));
                        }
                        return true;
                    }
                    if pf.get_block(bx as usize, by as usize) != 0 {
                        proof {
                            assert(cell_blocked(*pf, pos.x + cx as int, pos.y + ry as int));
                        }
                        return true;
                    }
                }
                cx = cx + 1;
            }
            ry = ry + 1;
        }
        false
    }

    /// Writes the figure's set cells permanently into the board.
    pub fn place(&self, pf: &mut Playfield, pos: Position)
        requires
            old(pf).wf(),
            self.wf(),
            0 <= pos.dir < self.nfaces(),
            pos.in_safe_range(),
            !spec_collides(*old(pf), *self, pos),
        ensures
            final(pf).wf(),
            final(pf).width == old(pf).width,
            final(pf).height == old(pf).height,
            forall|x: int, y: int|
                0 <= x < old(pf).width && 0 <= y < old(pf).height ==> final(pf).cell(x, y) == (
                if covers(*self, pos, x, y) {
                    cover_color(*self, pos, x, y)
                } else {
                    old(pf).cell(x, y)
                }),
    {
        let ghost pf0 = *pf;
        let face = &self.faces[pos.dir as usize];
        let h = face.rows.len();
        let w = face.rows[0].len();
        let mut ry: usize = 0;
        while ry < h
            invariant
                pf.wf(),
                self.wf(),
                0 <= pos.dir < self.nfaces(),
                pos.in_safe_range(),
                !spec_collides(pf0, *self, pos),
                face == self.faces@[pos.dir as int],
                face.h() == h,
                face.w() == w,
                ry <= h,
                pf.wf(),
                pf.width == pf0.width,
                pf.height == pf0.height,
                forall|x: int, y: int|
                    0 <= x < pf0.width && 0 <= y < pf0.height ==> pf.cell(x, y) == (if covers(
                        *self,
                        pos,
                        x,
                        y,
                    ) && y - pos.y < ry {
                        cover_color(*self, pos, x, y)
                    } else {
                        pf0.cell(x, y)
                    }),
            decreases h - ry,
        {
            let mut cx: usize = 0;
            while cx < w
                invariant
                    pf.wf(),
                    self.wf(),
                    0 <= pos.dir < self.nfaces(),
                    pos.in_safe_range(),
                    !spec_collides(pf0, *self, pos),
                    face == self.faces@[pos.dir as int],
                    face.h() == h,
                    face.w() == w,
                    ry < h,
                    cx <= w,
                    pf.width == pf0.width,
                    pf.height == pf0.height,
                    forall|x: int, y: int|
                        0 <= x < pf0.width && 0 <= y < pf0.height ==> pf.cell(x, y) == (if covers(
                            *self,
                            pos,
                            x,
                            y,
                        ) && (y - pos.y < ry || (y - pos.y == ry && x - pos.x < cx)) {
                            cover_color(*self, pos, x, y)
                        } else {
                            pf0.cell(x, y)
                        }),
                decreases w - cx,
            {
                let v = face.rows[ry][cx];
                if v != 0 {
                    proof {
                        assert(face.at(cx as int, ry as int) != 0);
                        assert(!cell_blocked(pf0, pos.x + cx as int, pos.y + ry as int));
                    }
                    let bx = pos.x + cx as i32;
                    let by = pos.y + ry as i32;
                    pf.set_block(bx as usize, by as usize, v);
                }
                cx = cx + 1;
            }
            ry = ry + 1;
        }
    }

    /// The board row index of the figure's lowest set cell when at `pos`.
    pub fn lowest_block(&self, pos: Position) -> (r: i32)
        requires
            self.wf(),
            0 <= pos.dir < self.nfaces(),
            pos.in_safe_range(),
        ensures
            r == pos.y + self.faces@[pos.dir as int].lowest_set_row(),
    {
        let face = &self.faces[pos.dir as usize];
        let h = face.rows.len();
        let w = face.rows[0].len();
        let mut ry: usize = h;
        while ry > 0
            invariant
                self.wf(),
                0 <= pos.dir < self.nfaces(),
                pos.in_safe_range(),
                face == self.faces@[pos.dir as int],
                face.h() == h,
                face.w() == w,
                ry <= h,
                face.lowest_set_row_before(h as int) == face.lowest_set_row_before(ry as int),
            decreases ry,
        {
            ry = ry - 1;
            let mut cx: usize = 0;
            let mut has = false;
            while cx < w
                invariant
                    self.wf(),
                    0 <= pos.dir < self.nfaces(),
                    face == self.faces@[pos.dir as int],
                    face.h() == h,
                    face.w() == w,
                    ry < h,
                    cx <= w,
                    has == exists|cc: int| 0 <= cc < cx && face.at(cc, ry as int) != 0,
                decreases w - cx,
            {
                let cell = face.rows[ry][cx];
                proof {
                    assert(face.at(cx as int, ry as int) == cell);
                }
                if cell != 0 {
                    has = true;
                }
                cx = cx + 1;
            }
            if has {
                proof {
                    assert(face.row_has_set(ry as int));
                }
                return pos.y + ry as i32;
            }
            proof {
                assert(!face.row_has_set(ry as int));
            }
        }
        proof {
            let (cx, rr): (int, int) = choose|cx: int, rr: int|
                0 <= cx < face.w() && 0 <= rr < face.h() && face.at(cx, rr) != 0;
            assert(face.row_has_set(rr));
            face.lemma_lowest_set_row_before_finds(rr, face.h());
            assert(false);
        }
        pos.y
    }
}

impl Face {
    /// The scan result is `-1` or a row that really holds a set cell.
    proof fn lemma_lowest_set_row_is_set(&self, ry: int)
        ensures
            self.lowest_set_row_before(ry) == -1 || (0 <= self.lowest_set_row_before(ry) < ry
                && self.row_has_set(self.lowest_set_row_before(ry))),
        decreases ry,
    {
        if ry > 0 {
            self.lemma_lowest_set_row_is_set(ry - 1);
        }
    }

    /// If some row `< ry` holds a set cell, the scan result is not `-1`.
    proof fn lemma_lowest_set_row_before_finds(&self, rr: int, ry: int)
        requires
            0 <= rr < ry,
            self.row_has_set(rr),
        ensures
            self.lowest_set_row_before(ry) >= rr,
        decreases ry,
    {
        if ry - 1 > rr && !self.row_has_set(ry - 1) {
            self.lemma_lowest_set_row_before_finds(rr, ry - 1);
        }
    }
}

/// A grid collision query agrees with the playfield-level one.
pub proof fn lemma_collides_model(pf: Playfield, fig: Figure, pos: Position)
    requires
        pf.wf(),
        fig.wf(),
        0 <= pos.dir < fig.nfaces(),
    ensures
        spec_collides(pf, fig, pos) == mdl_collides(
            pf.grid(),
            pf.width as int,
            pf.height as int,
            fig_view(fig),
            pos,
        ),
{
    let face = fig.faces@[pos.dir as int];
    let vface = fig_view(fig)[pos.dir as int];
    assert(vface == face_view(face));
    assert(vface[0].len() == face.w() && vface.len() == face.h());
    if spec_collides(pf, fig, pos) {
        let (cx, ry): (int, int) = choose|cx: int, ry: int|
            0 <= cx < face.w() && 0 <= ry < face.h() && face.at(cx, ry) != 0 && cell_blocked(
                pf,
                pos.x + cx,
                pos.y + ry,
            );
        assert(vface[ry][cx] != 0);
        assert(mdl_blocked(pf.grid(), pf.width as int, pf.height as int, pos.x + cx, pos.y + ry));
        assert(mdl_collides(pf.grid(), pf.width as int, pf.height as int, fig_view(fig), pos));
    }
    if mdl_collides(pf.grid(), pf.width as int, pf.height as int, fig_view(fig), pos) {
        let (cx, ry): (int, int) = choose|cx: int, ry: int|
            0 <= cx < vface[0].len() && 0 <= ry < vface.len() && vface[ry][cx] != 0 && mdl_blocked(
                pf.grid(),
                pf.width as int,
                pf.height as int,
                pos.x + cx,
                pos.y + ry,
            );
        assert(face.at(cx, ry) != 0);
        assert(cell_blocked(pf, pos.x + cx, pos.y + ry));
        assert(spec_collides(pf, fig, pos));
    }
}

/// A figure that does not collide stands close to the board: every figure
/// holds a set cell, and that cell lies inside the grid.
pub proof fn lemma_not_collides_bounds(pf: Playfield, fig: Figure, pos: Position)
    requires
        pf.wf(),
        fig.wf(),
        0 <= pos.dir < fig.nfaces(),
        !spec_collides(pf, fig, pos),
    ensures
        -100 <= pos.x < pf.width,
        -100 <= pos.y < pf.height,
{
    let face = fig.faces@[pos.dir as int];
    let (cx, ry): (int, int) = choose|cx: int, ry: int|
        0 <= cx < face.w() && 0 <= ry < face.h() && face.at(cx, ry) != 0;
    assert(!cell_blocked(pf, pos.x + cx, pos.y + ry));
}

/// A board changed exactly by a figure's painted cells has, as its grid,
/// the model placement of the figure on the old grid.
pub proof fn lemma_place_grid(pre: Playfield, post: Playfield, fig: Figure, pos: Position)
    requires
        pre.wf(),
        post.wf(),
        fig.wf(),
        0 <= pos.dir < fig.nfaces(),
        post.width == pre.width,
        post.height == pre.height,
        forall|x: int, y: int|
            0 <= x < pre.width && 0 <= y < pre.height ==> post.cell(x, y) == (if covers(
                fig,
                pos,
                x,
                y,
            ) {
                cover_color(fig, pos, x, y)
            } else {
                pre.cell(x, y)
            }),
    ensures
        post.grid() == mdl_place(pre.grid(), fig_view(fig), pos),
{
    let faces = fig_view(fig);
    assert(faces[pos.dir as int] == face_view(fig.faces@[pos.dir as int]));
    assert forall|x: int, y: int|
        0 <= y < pre.grid().len() && 0 <= x < pre.grid()[y].len() implies post.grid()[y][x]
        == mdl_place(pre.grid(), faces, pos)[y][x] by {
        assert(covers(fig, pos, x, y) == mdl_covers(faces, pos, x, y));
        if covers(fig, pos, x, y) {
            assert(post.cell(x, y) == cover_color(fig, pos, x, y));
        } else {
            assert(post.cell(x, y) == pre.cell(x, y));
        }
    }
    assert(post.grid() =~~= mdl_place(pre.grid(), faces, pos));
}

/// A figure that does not collide has its lowest set cell on a real board
/// row.
pub proof fn lemma_lowest_row_bounds(pf: Playfield, fig: Figure, pos: Position)
    requires
        pf.wf(),
        fig.wf(),
        0 <= pos.dir < fig.nfaces(),
        !spec_collides(pf, fig, pos),
    ensures
        0 <= pos.y + fig.faces@[pos.dir as int].lowest_set_row() < pf.height,
{
    let face = fig.faces@[pos.dir as int];
    let (cxw, ryw): (int, int) = choose|cx: int, ry: int|
        0 <= cx < face.w() && 0 <= ry < face.h() && face.at(cx, ry) != 0;
    assert(face.row_has_set(ryw));
    face.lemma_lowest_set_row_before_finds(ryw, face.h());
    face.lemma_lowest_set_row_is_set(face.h());
    let low = face.lowest_set_row();
    assert(face.row_has_set(low));
    let cx = choose|cx: int| 0 <= cx < face.w() && face.at(cx, low) != 0;
    assert(!cell_blocked(pf, pos.x + cx, pos.y + low));
}

/// A copy of a face, cell for cell.
fn duplicate_face(f: &Face) -> (r: Face)
    requires
        f.wf(),
    ensures
        r.wf(),
        face_view(r) == face_view(*f),
        r.h() == f.h(),
        r.w() == f.w(),
{
    let h = f.rows.len();
    let w = f.rows[0].len();
    let mut rows: Vec<Vec<u8>> = Vec::new();
    let mut ry: usize = 0;
    while ry < h
        invariant
            f.wf(),
            f.h() == h,
            f.w() == w,
            ry <= h,
            rows@.len() == ry,
            forall|r2: int| 0 <= r2 < ry ==> (#[trigger] rows@[r2])@ == f.rows@[r2]@,
        decreases h - ry,
    {
        let mut row: Vec<u8> = Vec::new();
        let mut cx: usize = 0;
        while cx < w
            invariant
                f.wf(),
                f.h() == h,
                f.w() == w,
                ry < h,
                cx <= w,
                row@.len() == cx,
                forall|c2: int| 0 <= c2 < cx ==> #[trigger] row@[c2] == f.at(c2, ry as int),
            decreases w - cx,
        {
            row.push(f.rows[ry][cx]);
            cx = cx + 1;
        }
        proof {
            assert(row@ =~= f.rows@[ry as int]@);
        }
        rows.push(row);
        ry = ry + 1;
    }
    let r = Face { rows };
    proof {
        assert(face_view(r) =~~= face_view(*f));
        let (cx, ry): (int, int) = choose|cx: int, ry: int|
            0 <= cx < f.w() && 0 <= ry < f.h() && f.at(cx, ry) != 0;
        assert(r.at(cx, ry) == f.at(cx, ry));
    }
    r
}

} // verus!
