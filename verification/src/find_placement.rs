//! Enumeration of all resting placements of a figure on a board.

use vstd::prelude::*;

verus! {

use crate::figure::Figure;
use crate::figure::spec_collides;
use crate::movement::Movement;
use crate::playfield::Playfield;
use crate::position::Position;
use crate::position::apply_move_spec;

/// A resting placement: the figure stands free of collision, and one step
/// further down it would collide, so it can lock there.
pub open spec fn resting(pf: Playfield, fig: Figure, pos: Position) -> bool {
    &&& !spec_collides(pf, fig, pos)
    &&& spec_collides(pf, fig, apply_move_spec(pos, Movement::MoveDown, fig.nfaces()))
}

/// The position with face `dir` at column `x`, row `y`.
pub open spec fn mk_pos(dir: int, y: int, x: int) -> Position {
    Position { x: x as i32, y: y as i32, dir: dir as i32 }
}

/// The resting placements with face `dir` in row `y` among columns
/// `-100 .. x`, in increasing column order.
pub open spec fn placements_x_upto(
    pf: Playfield,
    fig: Figure,
    dir: int,
    y: int,
    x: int,
) -> Seq<Position>
    decreases x + 101,
{
    if x <= -100 {
        Seq::empty()
    } else if resting(pf, fig, mk_pos(dir, y, x - 1)) {
        placements_x_upto(pf, fig, dir, y, x - 1).push(mk_pos(dir, y, x - 1))
    } else {
        placements_x_upto(pf, fig, dir, y, x - 1)
    }
}

/// The resting placements with face `dir` among rows `-100 .. y`, row by
/// row, each row in increasing column order.
pub open spec fn placements_y_upto(pf: Playfield, fig: Figure, dir: int, y: int) -> Seq<Position>
    decreases y + 101,
{
    if y <= -100 {
        Seq::empty()
    } else {
        placements_y_upto(pf, fig, dir, y - 1) + placements_x_upto(
            pf,
            fig,
            dir,
            y - 1,
            pf.width as int,
        )
    }
}

/// The resting placements among faces `0 .. dir`, face by face.
pub open spec fn placements_dir_upto(pf: Playfield, fig: Figure, dir: int) -> Seq<Position>
    decreases dir,
{
    if dir <= 0 {
        Seq::empty()
    } else {
        placements_dir_upto(pf, fig, dir - 1) + placements_y_upto(
            pf,
            fig,
            dir - 1,
            pf.height as int,
        )
    }
}

/// Every resting placement of the figure, enumerated face by face, row by
/// row, column by column.
pub open spec fn spec_placements(pf: Playfield, fig: Figure) -> Seq<Position> {
    placements_dir_upto(pf, fig, fig.nfaces())
}

/// Every enumerated placement shows a real face, stands in a small range
/// around the board, and rests on something.
pub proof fn lemma_placements_x_valid(pf: Playfield, fig: Figure, dir: int, y: int, x: int)
    requires
        pf.wf(),
        0 <= dir < fig.nfaces(),
        fig.nfaces() <= 4,
        -100 <= y <= pf.height,
        x <= pf.width,
    ensures
        forall|i: int|
            0 <= i < placements_x_upto(pf, fig, dir, y, x).len() ==> {
                let p = #[trigger] placements_x_upto(pf, fig, dir, y, x)[i];
                &&& p.dir == dir
                &&& p.y == y
                &&& -100 <= p.x < pf.width
                &&& p == mk_pos(dir, y, p.x as int)
                &&& resting(pf, fig, p)
            },
    decreases x + 101,
{
    if x > -100 {
        lemma_placements_x_valid(pf, fig, dir, y, x - 1);
        let s = placements_x_upto(pf, fig, dir, y, x);
        let r = placements_x_upto(pf, fig, dir, y, x - 1);
        assert forall|i: int| 0 <= i < s.len() implies {
            let p = #[trigger] s[i];
            &&& p.dir == dir
            &&& p.y == y
            &&& -100 <= p.x < pf.width
            &&& p == mk_pos(dir, y, p.x as int)
            &&& resting(pf, fig, p)
        } by {
            if i < r.len() {
                assert(s[i] == r[i]);
            } else {
                assert(s[i] == mk_pos(dir, y, x - 1));
            }
        }
    }
}

/// As `lemma_placements_x_valid`, over all rows.
pub proof fn lemma_placements_y_valid(pf: Playfield, fig: Figure, dir: int, y: int)
    requires
        0 <= dir < fig.nfaces(),
        fig.nfaces() <= 4,
        -100 <= y <= pf.height,
        pf.wf(),
    ensures
        forall|i: int|
            0 <= i < placements_y_upto(pf, fig, dir, y).len() ==> {
                let p = #[trigger] placements_y_upto(pf, fig, dir, y)[i];
                &&& p.dir == dir
                &&& -100 <= p.x < pf.width
                &&& -100 <= p.y < pf.height
                &&& p == mk_pos(dir, p.y as int, p.x as int)
                &&& resting(pf, fig, p)
            },
    decreases y + 101,
{
    if y > -100 {
        lemma_placements_y_valid(pf, fig, dir, y - 1);
        lemma_placements_x_valid(pf, fig, dir, y - 1, pf.width as int);
        let s = placements_y_upto(pf, fig, dir, y);
        let a = placements_y_upto(pf, fig, dir, y - 1);
        let b = placements_x_upto(pf, fig, dir, y - 1, pf.width as int);
        assert forall|i: int| 0 <= i < s.len() implies {
            let p = #[trigger] s[i];
            &&& p.dir == dir
            &&& -100 <= p.x < pf.width
            &&& -100 <= p.y < pf.height
            &&& p == mk_pos(dir, p.y as int, p.x as int)
            &&& resting(pf, fig, p)
        } by {
            if i < a.len() {
                assert(s[i] == a[i]);
            } else {
                assert(s[i] == b[i - a.len()]);
            }
        }
    }
}

/// Every placement in the enumeration shows a real face of the figure,
/// stands in a small range around the board, and rests on something.
pub proof fn lemma_placements_valid(pf: Playfield, fig: Figure, dir: int)
    requires
        dir <= fig.nfaces(),
        fig.wf(),
        pf.wf(),
    ensures
        forall|i: int|
            0 <= i < placements_dir_upto(pf, fig, dir).len() ==> {
                let p = #[trigger] placements_dir_upto(pf, fig, dir)[i];
                &&& 0 <= p.dir < fig.nfaces()
                &&& -100 <= p.x < pf.width
                &&& -100 <= p.y < pf.height
                &&& p.in_safe_range()
                &&& resting(pf, fig, p)
            },
    decreases dir,
{
    if dir > 0 {
        lemma_placements_valid(pf, fig, dir - 1);
        lemma_placements_y_valid(pf, fig, dir - 1, pf.height as int);
        let s = placements_dir_upto(pf, fig, dir);
        let a = placements_dir_upto(pf, fig, dir - 1);
        let b = placements_y_upto(pf, fig, dir - 1, pf.height as int);
        assert forall|i: int| 0 <= i < s.len() implies {
            let p = #[trigger] s[i];
            &&& 0 <= p.dir < fig.nfaces()
            &&& -100 <= p.x < pf.width
            &&& -100 <= p.y < pf.height
            &&& p.in_safe_range()
            &&& resting(pf, fig, p)
        } by {
            if i < a.len() {
                assert(s[i] == a[i]);
            } else {
                assert(s[i] == b[i - a.len()]);
            }
        }
    }
}

/// A resting placement in row `y` with a column below `x` is enumerated.
proof fn lemma_placements_x_contains(pf: Playfield, fig: Figure, dir: int, y: int, x: int, px: int)
    requires
        -100 <= px < x,
        resting(pf, fig, mk_pos(dir, y, px)),
    ensures
        placements_x_upto(pf, fig, dir, y, x).contains(mk_pos(dir, y, px)),
    decreases x + 101,
{
    broadcast use vstd::seq_lib::group_seq_properties;

    if px == x - 1 {
        let s = placements_x_upto(pf, fig, dir, y, x);
        assert(s[s.len() - 1] == mk_pos(dir, y, px));
    } else {
        lemma_placements_x_contains(pf, fig, dir, y, x - 1, px);
    }
}

/// A resting placement in a row below `y` is enumerated.
proof fn lemma_placements_y_contains(pf: Playfield, fig: Figure, dir: int, y: int, py: int, px: int)
    requires
        -100 <= py < y,
        -100 <= px < pf.width,
        resting(pf, fig, mk_pos(dir, py, px)),
    ensures
        placements_y_upto(pf, fig, dir, y).contains(mk_pos(dir, py, px)),
    decreases y + 101,
{
    broadcast use vstd::seq_lib::group_seq_properties;

    if py == y - 1 {
        lemma_placements_x_contains(pf, fig, dir, y - 1, pf.width as int, px);
    } else {
        lemma_placements_y_contains(pf, fig, dir, y - 1, py, px);
    }
}

/// A resting placement with a face below `dir` is enumerated.
proof fn lemma_placements_dir_contains(
    pf: Playfield,
    fig: Figure,
    dir: int,
    pd: int,
    py: int,
    px: int,
)
    requires
        0 <= pd < dir,
        -100 <= py < pf.height,
        -100 <= px < pf.width,
        resting(pf, fig, mk_pos(pd, py, px)),
    ensures
        placements_dir_upto(pf, fig, dir).contains(mk_pos(pd, py, px)),
    decreases dir,
{
    broadcast use vstd::seq_lib::group_seq_properties;

    if pd == dir - 1 {
        lemma_placements_y_contains(pf, fig, dir - 1, pf.height as int, py, px);
    } else {
        lemma_placements_dir_contains(pf, fig, dir - 1, pd, py, px);
    }
}

/// Completeness of the enumeration: every resting placement of the figure
/// appears among the enumerated placements.
pub proof fn lemma_placements_complete(pf: Playfield, fig: Figure, p: Position)
    requires
        pf.wf(),
        fig.wf(),
        0 <= p.dir < fig.nfaces(),
        resting(pf, fig, p),
    ensures
        spec_placements(pf, fig).contains(p),
{
    crate::figure::lemma_not_collides_bounds(pf, fig, p);
    assert(p == mk_pos(p.dir as int, p.y as int, p.x as int));
    lemma_placements_dir_contains(
        pf,
        fig,
        fig.nfaces(),
        p.dir as int,
        p.y as int,
        p.x as int,
    );
}

/// Fills `positions` with every resting placement of `fig` on `pf`,
/// replacing its previous content, in face, then row, then column order.
#[verifier::loop_isolation(false)]
pub fn find_placement(positions: &mut Vec<Position>, pf: &Playfield, fig: &Figure)
    requires
        pf.wf(),
        fig.wf(),
    ensures
        final(positions)@ == spec_placements(*pf, *fig),
{
    positions.clear();
    let nfaces = fig.num_faces();
    let mut dir: usize = 0;
    while dir < nfaces
        invariant
            positions@ == placements_dir_upto(*pf, *fig, dir as int),
            dir <= nfaces,
        decreases nfaces - dir,
    {
        let mut y: i32 = -100;
        while y < pf.height() as i32
            invariant
                positions@ == placements_dir_upto(*pf, *fig, dir as int) + placements_y_upto(
                    *pf,
                    *fig,
                    dir as int,
                    y as int,
                ),
                dir < nfaces,
                -100 <= y <= pf.height,
            decreases pf.height - y,
        {
            let mut x: i32 = -100;
            while x < pf.width() as i32
                invariant
                    positions@ == placements_dir_upto(*pf, *fig, dir as int) + placements_y_upto(
                        *pf,
                        *fig,
                        dir as int,
                        y as int,
                    ) + placements_x_upto(*pf, *fig, dir as int, y as int, x as int),
                    dir < nfaces,
                    -100 <= y < pf.height,
                    -100 <= x <= pf.width,
                decreases pf.width - x,
            {
                let p = Position { x, y, dir: dir as i32 };
                let moved = p.apply_move(Movement::MoveDown, nfaces as i32);
                if !fig.test_collision(pf, p) && fig.test_collision(pf, moved) {
                    positions.push(p);
                }
                proof {
                    assert(p == mk_pos(dir as int, y as int, x as int));
                    assert(positions@ =~= placements_dir_upto(*pf, *fig, dir as int)
                        + placements_y_upto(*pf, *fig, dir as int, y as int) + placements_x_upto(
                        *pf,
                        *fig,
                        dir as int,
                        y as int,
                        x as int + 1,
                    ));
                }
                x = x + 1;
            }
            proof {
                assert(positions@ =~= placements_dir_upto(*pf, *fig, dir as int)
                    + placements_y_upto(*pf, *fig, dir as int, y as int + 1));
            }
            y = y + 1;
        }
        proof {
            assert(positions@ =~= placements_dir_upto(*pf, *fig, dir as int + 1));
        }
        dir = dir + 1;
    }
}

} // verus!
