//! A simple path service: a straight, collision-checked route from a
//! figure's current position to a target placement.

use vstd::prelude::*;

verus! {

use crate::figure::Figure;
use crate::figure::spec_collides;
use crate::movement::Movement;
use crate::playfield::Playfield;
use crate::position::Position;
use crate::position::apply_move_spec;

/// The position reached after applying a whole word of movements.
pub open spec fn apply_word(pos: Position, word: Seq<Movement>, nfaces: int) -> Position
    decreases word.len(),
{
    if word.len() == 0 {
        pos
    } else {
        apply_word(apply_move_spec(pos, word[0], nfaces), word.drop_first(), nfaces)
    }
}

/// Every position the word passes through is free of collision.
pub open spec fn path_valid(pf: Playfield, fig: Figure, pos: Position, word: Seq<Movement>) -> bool
    decreases word.len(),
{
    if word.len() == 0 {
        true
    } else {
        let p2 = apply_move_spec(pos, word[0], fig.nfaces());
        &&& !spec_collides(pf, fig, p2)
        &&& path_valid(pf, fig, p2, word.drop_first())
    }
}

/// The number of clockwise quarter turns from one face to another.
pub open spec fn rot_distance(from: int, to: int, nfaces: int) -> int {
    if to >= from {
        to - from
    } else {
        to - from + nfaces
    }
}

/// The straight route from `source` to `target`: first every rotation, then
/// every sideways step, then every descent.
pub open spec fn straight_word(source: Position, target: Position, nfaces: int) -> Seq<Movement> {
    let rot = rot_distance(source.dir as int, target.dir as int, nfaces);
    let lat = if target.x >= source.x {
        target.x - source.x
    } else {
        source.x - target.x
    };
    let m = if target.x >= source.x {
        Movement::MoveRight
    } else {
        Movement::MoveLeft
    };
    let dy = target.y - source.y;
    Seq::new(rot as nat, |i: int| Movement::RotateCW) + Seq::new(lat as nat, |i: int| m)
        + Seq::new(dy as nat, |i: int| Movement::MoveDown)
}

/// The straight route leads from `source` to `target` without collision.
pub open spec fn spec_path_found(
    pf: Playfield,
    fig: Figure,
    source: Position,
    target: Position,
) -> bool {
    let word = straight_word(source, target, fig.nfaces());
    &&& target.y >= source.y
    &&& apply_word(source, word, fig.nfaces()) == target
    &&& path_valid(pf, fig, source, word)
}

/// One appended movement extends the walk and the validity check by one
/// step at the end.
pub proof fn lemma_path_push(
    pf: Playfield,
    fig: Figure,
    pos: Position,
    a: Seq<Movement>,
    mv: Movement,
)
    ensures
        apply_word(pos, a.push(mv), fig.nfaces()) == apply_move_spec(
            apply_word(pos, a, fig.nfaces()),
            mv,
            fig.nfaces(),
        ),
        path_valid(pf, fig, pos, a.push(mv)) == (path_valid(pf, fig, pos, a) && !spec_collides(
            pf,
            fig,
            apply_move_spec(apply_word(pos, a, fig.nfaces()), mv, fig.nfaces()),
        )),
    decreases a.len(),
{
    if a.len() == 0 {
        let n = fig.nfaces();
        let p2 = apply_move_spec(pos, mv, n);
        assert(a.push(mv)[0] == mv);
        assert(a.push(mv).drop_first() =~= Seq::<Movement>::empty());
        assert(apply_word(p2, Seq::<Movement>::empty(), n) == p2);
        assert(path_valid(pf, fig, p2, Seq::<Movement>::empty()));
        assert(apply_word(pos, a, n) == pos);
        assert(path_valid(pf, fig, pos, a));
    } else {
        lemma_path_push(pf, fig, apply_move_spec(pos, a[0], fig.nfaces()), a.drop_first(), mv);
        assert(a.push(mv)[0] == a[0]);
        assert(a.push(mv).drop_first() =~= a.drop_first().push(mv));
    }
}

/// A valid word has valid prefixes.
pub proof fn lemma_path_valid_take(
    pf: Playfield,
    fig: Figure,
    pos: Position,
    w: Seq<Movement>,
    j: int,
)
    requires
        0 <= j <= w.len(),
        path_valid(pf, fig, pos, w),
    ensures
        path_valid(pf, fig, pos, w.take(j)),
    decreases j,
{
    if j == 0 {
        assert(w.take(0) =~= Seq::<Movement>::empty());
    } else {
        assert(w.take(j)[0] == w[0]);
        assert(w.take(j).drop_first() =~= w.drop_first().take(j - 1));
        lemma_path_valid_take(pf, fig, apply_move_spec(pos, w[0], fig.nfaces()), w.drop_first(), j
            - 1);
    }
}

/// Fills `path` with the straight route from `source` to `target`, in
/// target-to-source order, replacing its previous content; the route comes
/// back empty when some step of it would collide or the target stands
/// above the source.
#[verifier::loop_isolation(false)]
#[verifier::rlimit(60)]
pub fn find_path(
    path: &mut Vec<Movement>,
    pf: &Playfield,
    fig: &Figure,
    source: Position,
    target: Position,
)
    requires
        pf.wf(),
        fig.wf(),
        0 <= source.dir < fig.nfaces(),
        0 <= target.dir < fig.nfaces(),
        -100 <= source.x <= 10000,
        -100 <= source.y <= 10000,
        -100 <= target.x <= 10000,
        -100 <= target.y <= 10000,
    ensures
        final(path)@ == if spec_path_found(*pf, *fig, source, target) {
            straight_word(source, target, fig.nfaces()).reverse()
        } else {
            Seq::<Movement>::empty()
        },
{
    path.clear();
    if target.y < source.y {
        return ;
    }
    let nfaces = fig.num_faces() as i32;
    let rot: i32 = if target.dir >= source.dir {
        target.dir - source.dir
    } else {
        target.dir - source.dir + nfaces
    };
    let lat: i32 = if target.x >= source.x {
        target.x - source.x
    } else {
        source.x - target.x
    };
    let m = if target.x >= source.x {
        Movement::MoveRight
    } else {
        Movement::MoveLeft
    };
    let dy: i32 = target.y - source.y;
    let ghost word = straight_word(source, target, fig.nfaces());
    proof {
        assert(word.len() == rot + lat + dy);
    }

    let mut fwd: Vec<Movement> = Vec::new();
    let mut cur = source;
    let mut k: i32 = 0;
    while k < rot
        invariant
            0 <= k <= rot,
            fwd@.len() == k,
            fwd@ =~= word.take(k as int),
            cur == apply_word(source, fwd@, fig.nfaces()),
            path_valid(*pf, *fig, source, fwd@),
            0 <= cur.dir < fig.nfaces(),
            cur.x == source.x,
            cur.y == source.y,
        decreases rot - k,
    {
        proof {
            assert(word[k as int] == Movement::RotateCW);
        }
        let next = cur.apply_move(Movement::RotateCW, nfaces);
        proof {
            lemma_path_push(*pf, *fig, source, fwd@, Movement::RotateCW);
        }
        if fig.test_collision(pf, next) {
            proof {
                if path_valid(*pf, *fig, source, word) {
                    lemma_path_valid_take(*pf, *fig, source, word, k as int + 1);
                    assert(word.take(k as int + 1) =~= fwd@.push(Movement::RotateCW));
                }
            }
            return ;
        }
        fwd.push(Movement::RotateCW);
        cur = next;
        proof {
            assert(fwd@ =~= word.take(k as int + 1));
        }
        k = k + 1;
    }

    let mut k2: i32 = 0;
    while k2 < lat
        invariant
            0 <= k2 <= lat,
            fwd@.len() == rot + k2,
            fwd@ =~= word.take(rot + k2),
            cur == apply_word(source, fwd@, fig.nfaces()),
            path_valid(*pf, *fig, source, fwd@),
            0 <= cur.dir < fig.nfaces(),
            cur.x == if m == Movement::MoveRight {
                source.x + k2
            } else {
                source.x - k2
            },
            cur.y == source.y,
        decreases lat - k2,
    {
        proof {
            assert(word[rot + k2] == m);
        }
        let next = cur.apply_move(m, nfaces);
        proof {
            lemma_path_push(*pf, *fig, source, fwd@, m);
        }
        if fig.test_collision(pf, next) {
            proof {
                if path_valid(*pf, *fig, source, word) {
                    lemma_path_valid_take(*pf, *fig, source, word, rot + k2 + 1);
                    assert(word.take(rot + k2 + 1) =~= fwd@.push(m));
                }
            }
            return ;
        }
        fwd.push(m);
        cur = next;
        proof {
            assert(fwd@ =~= word.take(rot + k2 + 1));
        }
        k2 = k2 + 1;
    }

    let mut k3: i32 = 0;
    while k3 < dy
        invariant
            0 <= k3 <= dy,
            fwd@.len() == rot + lat + k3,
            fwd@ =~= word.take(rot + lat + k3),
            cur == apply_word(source, fwd@, fig.nfaces()),
            path_valid(*pf, *fig, source, fwd@),
            0 <= cur.dir < fig.nfaces(),
            cur.x == target.x,
            cur.y == source.y + k3,
        decreases dy - k3,
    {
        proof {
            assert(word[rot + lat + k3] == Movement::MoveDown);
        }
        let next = cur.apply_move(Movement::MoveDown, nfaces);
        proof {
            lemma_path_push(*pf, *fig, source, fwd@, Movement::MoveDown);
        }
        if fig.test_collision(pf, next) {
            proof {
                if path_valid(*pf, *fig, source, word) {
                    lemma_path_valid_take(*pf, *fig, source, word, rot + lat + k3 + 1);
                    assert(word.take(rot + lat + k3 + 1) =~= fwd@.push(Movement::MoveDown));
                }
            }
            return ;
        }
        fwd.push(Movement::MoveDown);
        cur = next;
        proof {
            assert(fwd@ =~= word.take(rot + lat + k3 + 1));
        }
        k3 = k3 + 1;
    }

    proof {
        assert(fwd@ =~= word);
    }
    if cur.x != target.x || cur.y != target.y || cur.dir != target.dir {
        proof {
            assert(apply_word(source, word, fig.nfaces()) != target);
        }
        return ;
    }
    proof {
        assert(cur == target);
        assert(spec_path_found(*pf, *fig, source, target));
    }
    let n = fwd.len();
    let mut j: usize = 0;
    while j < n
        invariant
            j <= n,
            n == fwd@.len(),
            path@.len() == j,
            forall|i: int| 0 <= i < j ==> path@[i] == fwd@[n - 1 - i],
        decreases n - j,
    {
        path.push(fwd[n - 1 - j]);
        j = j + 1;
    }
    proof {
        assert(path@ =~= word.reverse());
    }
}

} // verus!
