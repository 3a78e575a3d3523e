//! A falling-block puzzle simulation together with an autonomous player.
//!
//! The library owns the whole game logic: the playfield grid and its
//! line-clear operations, the figures with their rotation faces, the
//! tick-driven simulation state machine, the timed move scheduler, the
//! heuristic evaluator that ranks hypothetical placements, and the planner
//! that turns a found path into a per-row move schedule.  A thin host is
//! expected to drive `Game::update` and `ComputerPlayer::act_on_game` once
//! per frame and to render the queried state.

use vstd::prelude::*;

pub mod computer_player;
pub mod figure;
pub mod find_path;
pub mod find_placement;
pub mod game;
pub mod jitter_computer;
pub mod movement;
pub mod playfield;
pub mod position;
mod rng;

verus! {

use crate::figure::Face;
use crate::figure::Figure;
use crate::figure::built_from;
use crate::figure::face_view;
use crate::position::Position;

fn row2(a: u8, b: u8) -> (r: Vec<u8>)
    ensures
        r@.len() == 2,
        r@[0] == a,
        r@[1] == b,
{
    let mut v: Vec<u8> = Vec::new();
    v.push(a);
    v.push(b);
    v
}

fn row3(a: u8, b: u8, c: u8) -> (r: Vec<u8>)
    ensures
        r@.len() == 3,
        r@[0] == a,
        r@[1] == b,
        r@[2] == c,
{
    let mut v: Vec<u8> = Vec::new();
    v.push(a);
    v.push(b);
    v.push(c);
    v
}

/// The base mask of each figure of the standard catalog, by index: the
/// tee, the two hooks, the square, the two skews, and the bar.
pub open spec fn catalog_mask(i: int) -> Seq<Seq<u8>> {
    if i == 0 {
        seq![seq![0u8, 0u8, 0u8], seq![1u8, 1u8, 1u8], seq![0u8, 1u8, 0u8]]
    } else if i == 1 {
        seq![seq![0u8, 0u8, 0u8], seq![2u8, 2u8, 2u8], seq![0u8, 0u8, 2u8]]
    } else if i == 2 {
        seq![seq![0u8, 0u8, 3u8], seq![3u8, 3u8, 3u8], seq![0u8, 0u8, 0u8]]
    } else if i == 3 {
        seq![seq![4u8, 4u8], seq![4u8, 4u8]]
    } else if i == 4 {
        seq![seq![0u8, 5u8, 5u8], seq![5u8, 5u8, 0u8]]
    } else if i == 5 {
        seq![seq![6u8, 6u8, 0u8], seq![0u8, 6u8, 6u8]]
    } else {
        seq![seq![0u8, 7u8, 0u8], seq![0u8, 7u8, 0u8], seq![0u8, 7u8, 0u8], seq![0u8, 7u8, 0u8]]
    }
}

/// Every catalog mask fits a window of 3 columns and 4 rows, so a figure
/// spawned with its base face over an empty such window never collides:
/// the figure whose faces open with a catalog mask stands free wherever
/// the window lies inside the board and holds no block.
pub proof fn lemma_catalog_spawn_clear(
    grid: Seq<Seq<u8>>,
    w: int,
    h: int,
    faces: Seq<Seq<Seq<u8>>>,
    pos: Position,
    i: int,
)
    requires
        0 <= i < 7,
        faces.len() >= 1,
        faces[0] == catalog_mask(i),
        pos.dir == 0,
        0 <= pos.x,
        pos.x + 3 <= w,
        0 <= pos.y,
        pos.y + 4 <= h,
        forall|x: int, y: int|
            pos.x <= x < pos.x + 3 && pos.y <= y < pos.y + 4 ==> #[trigger] grid[y][x] == 0,
    ensures
        !crate::figure::mdl_collides(grid, w, h, faces, pos),
{
    let face = faces[pos.dir as int];
    assert forall|cx: int, ry: int|
        0 <= cx < face[0].len() && 0 <= ry < face.len() && face[ry][cx]
            != 0 implies !crate::figure::mdl_blocked(grid, w, h, pos.x + cx, pos.y + ry) by {
        assert(face.len() <= 4 && face[0].len() <= 3);
        assert(grid[pos.y + ry][pos.x + cx] == 0);
    }
}

/// Builds one figure of the standard catalog from its base mask.
#[verifier::spinoff_prover]
fn catalog_figure(idx: usize) -> (fig: Figure)
    requires
        idx < 7,
    ensures
        built_from(fig, catalog_mask(idx as int)),
{
    let mut rows: Vec<Vec<u8>> = Vec::new();
    if idx == 0 {
        rows.push(row3(0, 0, 0));
        rows.push(row3(1, 1, 1));
        rows.push(row3(0, 1, 0));
        proof {
            let f = (Face { rows: rows });
            assert(f.at(0, 1) == 1);
            assert(f.wf());
            assert(face_view(f) =~~= catalog_mask(0));
        }
    } else if idx == 1 {
        rows.push(row3(0, 0, 0));
        rows.push(row3(2, 2, 2));
        rows.push(row3(0, 0, 2));
        proof {
            let f = (Face { rows: rows });
            assert(f.at(0, 1) == 2);
            assert(f.wf());
            assert(face_view(f) =~~= catalog_mask(1));
        }
    } else if idx == 2 {
        rows.push(row3(0, 0, 3));
        rows.push(row3(3, 3, 3));
        rows.push(row3(0, 0, 0));
        proof {
            let f = (Face { rows: rows });
            assert(f.at(2, 0) == 3);
            assert(f.wf());
            assert(face_view(f) =~~= catalog_mask(2));
        }
    } else if idx == 3 {
        rows.push(row2(4, 4));
        rows.push(row2(4, 4));
        proof {
            let f = (Face { rows: rows });
            assert(f.at(0, 0) == 4);
            assert(f.wf());
            assert(face_view(f) =~~= catalog_mask(3));
        }
    } else if idx == 4 {
        rows.push(row3(0, 5, 5));
        rows.push(row3(5, 5, 0));
        proof {
            let f = (Face { rows: rows });
            assert(f.at(1, 0) == 5);
            assert(f.wf());
            assert(face_view(f) =~~= catalog_mask(4));
        }
    } else if idx == 5 {
        rows.push(row3(6, 6, 0));
        rows.push(row3(0, 6, 6));
        proof {
            let f = (Face { rows: rows });
            assert(f.at(0, 0) == 6);
            assert(f.wf());
            assert(face_view(f) =~~= catalog_mask(5));
        }
    } else {
        rows.push(row3(0, 7, 0));
        rows.push(row3(0, 7, 0));
        rows.push(row3(0, 7, 0));
        rows.push(row3(0, 7, 0));
        proof {
            let f = (Face { rows: rows });
            assert(f.at(1, 0) == 7);
            assert(f.wf());
            assert(face_view(f) =~~= catalog_mask(6));
        }
    }
    Figure::new_from_face(rows)
}

/// Builds the standard catalog of seven figures: each is grown from its
/// `catalog_mask`, whose distinct quarter-turn rotations become the
/// figure's faces, the mask itself first.
pub fn init_figures() -> (figs: Vec<Figure>)
    ensures
        figs@.len() == 7,
        forall|i: int| 0 <= i < 7 ==> built_from(#[trigger] figs@[i], catalog_mask(i)),
        forall|i: int| 0 <= i < figs@.len() ==> (#[trigger] figs@[i]).wf(),
{
    let mut figure_list: Vec<Figure> = Vec::new();
    let mut idx: usize = 0;
    while idx < 7
        invariant
            idx <= 7,
            figure_list@.len() == idx,
            forall|i: int| 0 <= i < idx ==> built_from(#[trigger] figure_list@[i], catalog_mask(i)),
        decreases 7 - idx,
    {
        let fig = catalog_figure(idx);
        figure_list.push(fig);
        idx = idx + 1;
    }
    figure_list
}

} // verus!
