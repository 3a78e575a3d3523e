//! The autonomous player: the evaluator interface, the planner, and the
//! conversion of a found path into a per-row move schedule.

use vstd::prelude::*;

verus! {

use crate::figure::Figure;
use crate::figure::spec_collides;
use crate::find_path::find_path;
use crate::find_path::spec_path_found;
use crate::find_path::straight_word;
use crate::find_placement::find_placement;
use crate::find_placement::lemma_placements_valid;
use crate::find_placement::spec_placements;
use crate::game::Game;
use crate::game::MoveAndTime;
use crate::movement::Movement;
use crate::playfield::Playfield;
use crate::position::Position;

/// A heuristic evaluator the planner ranks candidate placements with.
///
/// An implementation captures baseline metrics of the board in `init_eval`
/// and then scores each hypothetical placement in `eval_placing`.  The two
/// spec functions pin both steps down: after `init_eval` the evaluator's
/// state is exactly `spec_init` of the board, and every score is exactly
/// `spec_eval` of that state and the placement, so planning is a pure
/// function of the board, the figure and the evaluator.
pub trait ComputerType: Sized {
    /// Whether the captured state is usable for scoring.
    spec fn wf(&self) -> bool;

    /// The state captured from a baseline board.
    spec fn spec_init(&self, pf: Playfield, avail_placings: int) -> Self;

    /// The score of placing `fig` at `pos` on `pf`, given the captured state.
    spec fn spec_eval(&self, pf: Playfield, fig: Figure, pos: Position) -> int;

    /// Captures baseline metrics of the board before any hypothetical
    /// placement is tried.
    fn init_eval(&mut self, pf: &Playfield, avail_placings: usize)
        requires
            pf.wf(),
        ensures
            *final(self) == old(self).spec_init(*pf, avail_placings as int),
            final(self).wf(),
    ;

    /// Scores a hypothetical placement; the authoritative board is read
    /// only, never changed.
    fn eval_placing(&mut self, pf: &Playfield, fig: &Figure, pos: Position) -> (score: i64)
        requires
            pf.wf(),
            fig.wf(),
            0 <= pos.dir < fig.nfaces(),
            pos.in_safe_range(),
            !spec_collides(*pf, *fig, pos),
            old(self).wf(),
        ensures
            *final(self) == *old(self),
            score == old(self).spec_eval(*pf, *fig, pos),
    ;
}

/// A candidate placement paired with its heuristic score.
#[derive(Clone, Copy, Debug, PartialEq, Eq, Structural)]
pub struct EvalPosition {
    pub pos: Position,
    pub eval: i64,
}

/// A stable descending insertion: `e` goes after every element that scores
/// at least `e.eval`, so earlier candidates of equal score stay first.
pub open spec fn insert_desc(sorted: Seq<EvalPosition>, e: EvalPosition) -> Seq<EvalPosition>
    decreases sorted.len(),
{
    if sorted.len() == 0 {
        seq![e]
    } else if sorted[0].eval >= e.eval {
        seq![sorted[0]] + insert_desc(sorted.drop_first(), e)
    } else {
        seq![e] + sorted
    }
}

/// The candidates sorted by score, highest first; candidates of equal
/// score keep their original order.
pub open spec fn sort_desc(s: Seq<EvalPosition>) -> Seq<EvalPosition>
    decreases s.len(),
{
    if s.len() == 0 {
        Seq::empty()
    } else {
        insert_desc(sort_desc(s.drop_last()), s.last())
    }
}

/// Scores never increase along the sequence.
pub open spec fn sorted_desc(s: Seq<EvalPosition>) -> bool {
    forall|i: int, j: int| 0 <= i < j < s.len() ==> s[i].eval >= s[j].eval
}

/// A stable insertion is an insertion at the first index whose score is
/// below the new element's.
proof fn lemma_insert_desc_at(sorted: Seq<EvalPosition>, e: EvalPosition, j: int)
    requires
        0 <= j <= sorted.len(),
        forall|k: int| 0 <= k < j ==> sorted[k].eval >= e.eval,
        j < sorted.len() ==> sorted[j].eval < e.eval,
    ensures
        insert_desc(sorted, e) == sorted.insert(j, e),
    decreases sorted.len(),
{
    if sorted.len() == 0 {
        assert(insert_desc(sorted, e) =~= sorted.insert(0, e));
    } else if j == 0 {
        assert(insert_desc(sorted, e) =~= sorted.insert(0, e));
    } else {
        lemma_insert_desc_at(sorted.drop_first(), e, j - 1);
        assert(seq![sorted[0]] + sorted.drop_first().insert(j - 1, e) =~= sorted.insert(j, e));
    }
}

/// Inserting keeps the sequence sorted.
proof fn lemma_insert_desc_sorted(sorted: Seq<EvalPosition>, e: EvalPosition)
    requires
        sorted_desc(sorted),
    ensures
        sorted_desc(insert_desc(sorted, e)),
    decreases sorted.len(),
{
    if sorted.len() == 0 {
    } else if sorted[0].eval >= e.eval {
        assert(sorted_desc(sorted.drop_first()));
        lemma_insert_desc_sorted(sorted.drop_first(), e);
        let r = insert_desc(sorted, e);
        let rest = insert_desc(sorted.drop_first(), e);
        assert forall|i: int, j: int| 0 <= i < j < r.len() implies r[i].eval >= r[j].eval by {
            if i == 0 {
                assert(r[j] == rest[j - 1]);
                lemma_insert_desc_element(sorted.drop_first(), e, j - 1);
            } else {
                assert(r[i] == rest[i - 1] && r[j] == rest[j - 1]);
            }
        }
    } else {
        let r = insert_desc(sorted, e);
        assert forall|i: int, j: int| 0 <= i < j < r.len() implies r[i].eval >= r[j].eval by {
            if i == 0 {
                assert(r[j] == sorted[j - 1]);
                if j > 1 {
                    assert(sorted[0].eval >= sorted[j - 1].eval);
                }
            } else {
                assert(r[i] == sorted[i - 1] && r[j] == sorted[j - 1]);
            }
        }
    }
}

/// Every element of a stable insertion is the new element or one of the
/// old ones.
proof fn lemma_insert_desc_element(sorted: Seq<EvalPosition>, e: EvalPosition, i: int)
    requires
        0 <= i < insert_desc(sorted, e).len(),
    ensures
        insert_desc(sorted, e)[i] == e || (exists|j: int|
            0 <= j < sorted.len() && sorted[j] == insert_desc(sorted, e)[i]),
    decreases sorted.len(),
{
    if sorted.len() == 0 {
    } else if sorted[0].eval >= e.eval {
        if i > 0 {
            lemma_insert_desc_element(sorted.drop_first(), e, i - 1);
            let r = insert_desc(sorted, e);
            let rest = insert_desc(sorted.drop_first(), e);
            assert(r[i] == rest[i - 1]);
            if rest[i - 1] != e {
                let j = choose|j: int|
                    0 <= j < sorted.drop_first().len() && sorted.drop_first()[j] == rest[i - 1];
                assert(sorted[j + 1] == rest[i - 1]);
            }
        }
    } else {
        if i > 0 {
            assert(insert_desc(sorted, e)[i] == sorted[i - 1]);
        }
    }
}

/// The sort keeps exactly the given candidates: the scores never increase
/// along the result, and the result holds the same candidates, each as
/// often as it was given.
pub proof fn lemma_sort_desc_laws(s: Seq<EvalPosition>)
    ensures
        sorted_desc(sort_desc(s)),
        sort_desc(s).to_multiset() == s.to_multiset(),
        sort_desc(s).len() == s.len(),
    decreases s.len(),
{
    broadcast use vstd::seq_lib::group_to_multiset_ensures;

    if s.len() == 0 {
    } else {
        lemma_sort_desc_laws(s.drop_last());
        let sorted = sort_desc(s.drop_last());
        let e = s.last();
        lemma_insert_desc_sorted(sorted, e);
        let j = insert_index(sorted, e);
        lemma_insert_index(sorted, e);
        lemma_insert_desc_at(sorted, e, j);
        let r = sorted.insert(j, e);
        assert(r.remove(j) =~= sorted);
        assert(r.remove(j).to_multiset() =~= r.to_multiset().remove(r[j]));
        assert(r[j] == e);
        assert(r.contains(e)) by {
            assert(r[j] == e);
        }
        assert(r.to_multiset().count(e) > 0);
        assert(r.to_multiset() =~= sorted.to_multiset().insert(e));
        assert(s.drop_last().push(e) =~= s);
        assert(s.drop_last().push(e).to_multiset() =~= s.drop_last().to_multiset().insert(e));
    }
}

/// The first index whose score is below the new element's.
spec fn insert_index(sorted: Seq<EvalPosition>, e: EvalPosition) -> int
    decreases sorted.len(),
{
    if sorted.len() == 0 {
        0
    } else if sorted[0].eval >= e.eval {
        1 + insert_index(sorted.drop_first(), e)
    } else {
        0
    }
}

proof fn lemma_insert_index(sorted: Seq<EvalPosition>, e: EvalPosition)
    ensures
        0 <= insert_index(sorted, e) <= sorted.len(),
        forall|k: int| 0 <= k < insert_index(sorted, e) ==> sorted[k].eval >= e.eval,
        insert_index(sorted, e) < sorted.len() ==> sorted[insert_index(sorted, e)].eval < e.eval,
    decreases sorted.len(),
{
    if sorted.len() > 0 && sorted[0].eval >= e.eval {
        lemma_insert_index(sorted.drop_first(), e);
        let j = insert_index(sorted, e);
        assert forall|k: int| 0 <= k < j implies sorted[k].eval >= e.eval by {
            if k > 0 {
                assert(sorted.drop_first()[k - 1].eval >= e.eval);
            }
        }
        if j < sorted.len() {
            assert(sorted.drop_first()[j - 1].eval < e.eval);
        }
    }
}

/// The predicate selecting the candidates of one particular score.
pub open spec fn eval_pred(v: i64) -> spec_fn(EvalPosition) -> bool {
    |e: EvalPosition| e.eval == v
}

/// A filter over a sequence without a matching element is empty.
proof fn lemma_filter_none(x: Seq<EvalPosition>, pred: spec_fn(EvalPosition) -> bool)
    requires
        forall|i: int| 0 <= i < x.len() ==> !pred(x[i]),
    ensures
        x.filter(pred) == Seq::<EvalPosition>::empty(),
    decreases x.len(),
{
    reveal(Seq::filter);
    if x.len() > 0 {
        lemma_filter_none(x.drop_last(), pred);
    }
}

/// Sort stability: for every score, the candidates holding that score
/// stand in the sorted sequence exactly as they stood in the input, in the
/// same order.
pub proof fn lemma_sort_desc_stable(s: Seq<EvalPosition>, v: i64)
    ensures
        sort_desc(s).filter(eval_pred(v)) == s.filter(eval_pred(v)),
    decreases s.len(),
{
    reveal(Seq::filter);
    broadcast use Seq::filter_distributes_over_add;

    let p = eval_pred(v);
    if s.len() == 0 {
    } else {
        let rest = s.drop_last();
        let e = s.last();
        lemma_sort_desc_stable(rest, v);
        lemma_sort_desc_laws(rest);
        let sorted = sort_desc(rest);
        let j = insert_index(sorted, e);
        lemma_insert_index(sorted, e);
        lemma_insert_desc_at(sorted, e, j);
        let sub1 = sorted.subrange(0, j);
        let sub2 = sorted.subrange(j, sorted.len() as int);
        assert(sort_desc(s) == sub1.push(e) + sub2);
        assert(sub1.push(e).drop_last() =~= sub1);
        assert(sub1 + sub2 =~= sorted);
        if p(e) {
            assert forall|i: int| 0 <= i < sub2.len() implies !p(sub2[i]) by {
                assert(sub2[i] == sorted[j + i]);
                if j + i > j {
                    assert(sorted[j].eval >= sorted[j + i].eval);
                }
            }
            lemma_filter_none(sub2, p);
            assert(sub1.push(e).filter(p) == sub1.filter(p).push(e));
            assert(sort_desc(s).filter(p) == sub1.filter(p).push(e) + Seq::<
                EvalPosition,
            >::empty());
            assert(sorted.filter(p) == sub1.filter(p) + sub2.filter(p));
            assert(sub1.filter(p) + Seq::<EvalPosition>::empty() =~= sub1.filter(p));
            assert(sub1.filter(p) == rest.filter(p));
            assert(sub1.filter(p).push(e) + Seq::<EvalPosition>::empty() =~= rest.filter(
                p,
            ).push(e));
            assert(s.filter(p) == rest.filter(p).push(e));
        } else {
            assert(sub1.push(e).filter(p) == sub1.filter(p));
            assert(sort_desc(s).filter(p) == sub1.filter(p) + sub2.filter(p));
            assert(sorted.filter(p) == sub1.filter(p) + sub2.filter(p));
            assert(s.filter(p) == rest.filter(p));
        }
    }
}

/// Every candidate of the sorted sequence was among the given ones.
pub proof fn lemma_sort_desc_elements(s: Seq<EvalPosition>, i: int)
    requires
        0 <= i < sort_desc(s).len(),
    ensures
        exists|j: int| 0 <= j < s.len() && s[j] == sort_desc(s)[i],
{
    broadcast use vstd::seq_lib::group_to_multiset_ensures;

    lemma_sort_desc_laws(s);
    let e = sort_desc(s)[i];
    assert(sort_desc(s).contains(e)) by {
        assert(sort_desc(s)[i] == e);
    }
    assert(s.to_multiset().count(e) > 0);
    assert(s.contains(e));
    let j = choose|j: int| 0 <= j < s.len() && s[j] == e;
    assert(s[j] == sort_desc(s)[i]);
}

/// Sorts the candidates by score, highest first, candidates of equal score
/// keeping their original order.
#[verifier::loop_isolation(false)]
pub fn sort_candidates(v: &mut Vec<EvalPosition>)
    ensures
        final(v)@ == sort_desc(old(v)@),
{
    let mut out: Vec<EvalPosition> = Vec::new();
    let mut i: usize = 0;
    while i < v.len()
        invariant
            i <= v@.len(),
            out@ == sort_desc(v@.take(i as int)),
        decreases v@.len() - i,
    {
        let e = v[i];
        let mut j: usize = 0;
        while j < out.len() && out[j].eval >= e.eval
            invariant
                j <= out@.len(),
                forall|k: int| 0 <= k < j ==> out@[k].eval >= e.eval,
            decreases out@.len() - j,
        {
            j = j + 1;
        }
        proof {
            lemma_insert_desc_at(out@, e, j as int);
            assert(v@.take(i as int + 1).drop_last() =~= v@.take(i as int));
            assert(v@.take(i as int + 1).last() == v@[i as int]);
        }
        out.insert(j, e);
        i = i + 1;
    }
    proof {
        assert(v@.take(v@.len() as int) =~= v@);
    }
    *v = out;
}

/// The number of downward moves in a path.
pub open spec fn downs(path: Seq<Movement>) -> int
    decreases path.len(),
{
    if path.len() == 0 {
        0
    } else {
        (if path[0] == Movement::MoveDown {
            1int
        } else {
            0int
        }) + downs(path.drop_first())
    }
}

/// The per-level schedule of the path from position `k` on, starting at
/// fall level `lvl`: every sideways or rotational movement tagged with its
/// level; each downward move closes a level.
pub open spec fn pairs_from(path: Seq<Movement>, k: int, lvl: int) -> Seq<(int, Movement)>
    decreases path.len() - k,
{
    if k < 0 || k >= path.len() {
        Seq::empty()
    } else if path[k] == Movement::MoveDown {
        pairs_from(path, k + 1, lvl + 1)
    } else {
        seq![(lvl, path[k])] + pairs_from(path, k + 1, lvl)
    }
}

/// The whole path's per-level schedule.
pub open spec fn level_pairs(path: Seq<Movement>) -> Seq<(int, Movement)> {
    pairs_from(path, 0, 0)
}

/// An executable schedule seen with mathematical levels.
pub open spec fn pairs_view(v: Seq<(i32, Movement)>) -> Seq<(int, Movement)> {
    v.map_values(|p: (i32, Movement)| (p.0 as int, p.1))
}

/// Converts a path in spawn-to-target order into the per-level schedule:
/// one entry per sideways or rotational movement, tagged with the fall
/// level it belongs to; each downward movement closes a level.  Replaces
/// the previous content of `moves`.
#[verifier::loop_isolation(false)]
pub fn path_to_moves_per_level(moves: &mut Vec<(i32, Movement)>, path: &Vec<Movement>)
    requires
        path@.len() <= 1000000,
    ensures
        pairs_view(final(moves)@) == level_pairs(path@),
{
    moves.clear();
    proof {
        assert(pairs_view(moves@) =~= Seq::<(int, Movement)>::empty());
    }
    let mut level: i32 = 0;
    let mut k: usize = 0;
    while k < path.len()
        invariant
            k <= path@.len(),
            0 <= level <= k,
            pairs_view(moves@) + pairs_from(path@, k as int, level as int) == level_pairs(path@),
        decreases path@.len() - k,
    {
        let mv = path[k];
        if mv == Movement::MoveDown {
            level = level + 1;
        } else {
            let ghost before = pairs_view(moves@);
            moves.push((level, mv));
            proof {
                assert(pairs_view(moves@) =~= before.push(((level as int, mv))));
                assert(pairs_view(moves@) + pairs_from(path@, k as int + 1, level as int) =~= before
                    + pairs_from(path@, k as int, level as int));
            }
        }
        k = k + 1;
    }
    proof {
        assert(pairs_view(moves@) + pairs_from(path@, path@.len() as int, level as int)
            =~= pairs_view(moves@));
    }
}

/// Schedule levels never decrease along the schedule and never fall below
/// the starting level: each row's bucket is a contiguous leading run, so
/// dispatching a row means taking a prefix.
pub proof fn lemma_pairs_levels_monotone(path: Seq<Movement>, k: int, lvl: int)
    ensures
        forall|i: int|
            0 <= i < pairs_from(path, k, lvl).len() ==> (#[trigger] pairs_from(path, k, lvl)[i]).0
                >= lvl,
        forall|i: int, j: int|
            0 <= i < j < pairs_from(path, k, lvl).len() ==> pairs_from(path, k, lvl)[i].0
                <= pairs_from(path, k, lvl)[j].0,
    decreases path.len() - k,
{
    if 0 <= k < path.len() {
        if path[k] == Movement::MoveDown {
            lemma_pairs_levels_monotone(path, k + 1, lvl + 1);
            let s = pairs_from(path, k, lvl);
            let rest = pairs_from(path, k + 1, lvl + 1);
            assert forall|i: int| 0 <= i < s.len() implies (#[trigger] s[i]).0 >= lvl by {
                assert(s[i] == rest[i]);
            }
            assert forall|i: int, j: int| 0 <= i < j < s.len() implies s[i].0 <= s[j].0 by {
                assert(s[i] == rest[i] && s[j] == rest[j]);
            }
        } else {
            lemma_pairs_levels_monotone(path, k + 1, lvl);
            let s = pairs_from(path, k, lvl);
            let rest = pairs_from(path, k + 1, lvl);
            assert forall|i: int| 0 <= i < s.len() implies (#[trigger] s[i]).0 >= lvl by {
                if i > 0 {
                    assert(s[i] == rest[i - 1]);
                }
            }
            assert forall|i: int, j: int| 0 <= i < j < s.len() implies s[i].0 <= s[j].0 by {
                assert(s[j] == rest[j - 1]);
                if i > 0 {
                    assert(s[i] == rest[i - 1]);
                }
            }
        }
    }
}

/// The predicate selecting everything but the downward moves.
pub open spec fn non_down() -> spec_fn(Movement) -> bool {
    |m: Movement| m != Movement::MoveDown
}

/// The projection from a schedule entry to its movement.
pub open spec fn pair_movement() -> spec_fn((int, Movement)) -> Movement {
    |p: (int, Movement)| p.1
}

/// The schedule holds exactly the path's sideways and rotational
/// movements, in path order; the downward moves only advance the level.
pub proof fn lemma_schedule_movements(path: Seq<Movement>, k: int, lvl: int)
    requires
        0 <= k <= path.len(),
    ensures
        pairs_from(path, k, lvl).map_values(pair_movement()) == path.skip(k).filter(non_down()),
    decreases path.len() - k,
{
    reveal(Seq::filter);
    broadcast use Seq::filter_distributes_over_add;

    if k == path.len() {
        assert(path.skip(k) =~= Seq::<Movement>::empty());
        assert(pairs_from(path, k, lvl).map_values(pair_movement()) =~= Seq::<
            Movement,
        >::empty());
        assert(Seq::<Movement>::empty().filter(non_down()) =~= Seq::<Movement>::empty());
    } else {
        let single = seq![path[k]];
        assert(path.skip(k) =~= single + path.skip(k + 1));
        assert(single.drop_last() =~= Seq::<Movement>::empty());
        assert(Seq::<Movement>::empty().filter(non_down()) =~= Seq::<Movement>::empty());
        assert(single.filter(non_down()) =~= if path[k] != Movement::MoveDown {
            single
        } else {
            Seq::<Movement>::empty()
        });
        if path[k] == Movement::MoveDown {
            lemma_schedule_movements(path, k + 1, lvl + 1);
            assert(path.skip(k).filter(non_down()) =~= path.skip(k + 1).filter(non_down()));
        } else {
            lemma_schedule_movements(path, k + 1, lvl);
            assert(pairs_from(path, k, lvl).map_values(pair_movement()) =~= single + pairs_from(
                path,
                k + 1,
                lvl,
            ).map_values(pair_movement()));
            assert(path.skip(k).filter(non_down()) =~= single + path.skip(k + 1).filter(
                non_down(),
            ));
        }
    }
}

/// The movements of a word before its first downward move: its first
/// bucket.
pub open spec fn first_bucket(q: Seq<Movement>) -> Seq<Movement>
    decreases q.len(),
{
    if q.len() == 0 {
        Seq::empty()
    } else if q[0] == Movement::MoveDown {
        Seq::empty()
    } else {
        seq![q[0]] + first_bucket(q.drop_first())
    }
}

/// What follows a word's first downward move.
pub open spec fn after_first_down(q: Seq<Movement>) -> Seq<Movement>
    decreases q.len(),
{
    if q.len() == 0 {
        Seq::empty()
    } else if q[0] == Movement::MoveDown {
        q.drop_first()
    } else {
        after_first_down(q.drop_first())
    }
}

/// A downward move never adds a negative count.
proof fn lemma_downs_nonneg(q: Seq<Movement>)
    ensures
        downs(q) >= 0,
    decreases q.len(),
{
    if q.len() > 0 {
        lemma_downs_nonneg(q.drop_first());
    }
}

/// Splitting at a downward move shortens the word.
proof fn lemma_after_first_down_len(q: Seq<Movement>)
    ensures
        downs(q) > 0 ==> after_first_down(q).len() < q.len(),
    decreases q.len(),
{
    if q.len() > 0 && q[0] != Movement::MoveDown {
        lemma_after_first_down_len(q.drop_first());
    }
}

/// The word rebuilt from its buckets: the buckets in order, with one
/// downward move between consecutive buckets.
pub open spec fn rebuild(q: Seq<Movement>) -> Seq<Movement>
    decreases q.len(),
    via rebuild_decreases
{
    if downs(q) <= 0 {
        first_bucket(q)
    } else {
        first_bucket(q) + seq![Movement::MoveDown] + rebuild(after_first_down(q))
    }
}

#[via_fn]
proof fn rebuild_decreases(q: Seq<Movement>) {
    lemma_after_first_down_len(q);
}

/// A word without downward moves is its own first bucket.
proof fn lemma_first_bucket_all(q: Seq<Movement>)
    requires
        downs(q) == 0,
    ensures
        first_bucket(q) == q,
    decreases q.len(),
{
    if q.len() > 0 {
        lemma_downs_nonneg(q.drop_first());
        lemma_first_bucket_all(q.drop_first());
        assert(first_bucket(q) =~= q);
    }
}

/// A word with a downward move is its first bucket, that move, and the
/// rest.
proof fn lemma_split_first(q: Seq<Movement>)
    requires
        downs(q) > 0,
    ensures
        q == first_bucket(q) + seq![Movement::MoveDown] + after_first_down(q),
    decreases q.len(),
{
    if q[0] == Movement::MoveDown {
        assert(q =~= first_bucket(q) + seq![Movement::MoveDown] + after_first_down(q));
    } else {
        lemma_split_first(q.drop_first());
        assert(q =~= seq![q[0]] + q.drop_first());
        assert(first_bucket(q) == seq![q[0]] + first_bucket(q.drop_first()));
        assert(seq![q[0]] + (first_bucket(q.drop_first()) + seq![Movement::MoveDown]
            + after_first_down(q.drop_first())) =~= first_bucket(q) + seq![Movement::MoveDown]
            + after_first_down(q));
        assert(q =~= first_bucket(q) + seq![Movement::MoveDown] + after_first_down(q));
    }
}

/// Rebuilding a word from its buckets gives the word back.
proof fn lemma_rebuild_id(q: Seq<Movement>)
    ensures
        rebuild(q) == q,
    decreases q.len(),
{
    lemma_downs_nonneg(q);
    if downs(q) == 0 {
        lemma_first_bucket_all(q);
    } else {
        lemma_after_first_down_len(q);
        lemma_rebuild_id(after_first_down(q));
        lemma_split_first(q);
    }
}

/// The downward-move count is the multiset count of downward moves.
proof fn lemma_downs_count(q: Seq<Movement>)
    ensures
        downs(q) == q.to_multiset().count(Movement::MoveDown),
    decreases q.len(),
{
    broadcast use vstd::seq_lib::group_to_multiset_ensures;

    if q.len() > 0 {
        lemma_downs_count(q.drop_first());
        assert(q.remove(0) =~= q.drop_first());
        assert(q.remove(0).to_multiset() =~= q.to_multiset().remove(q[0]));
        assert(q.contains(q[0]));
        assert(q.to_multiset().count(q[0]) > 0);
        assert(q.to_multiset() =~= q.drop_first().to_multiset().insert(q[0]));
    }
}

/// Reversal keeps the multiset of movements.
proof fn lemma_reverse_multiset(q: Seq<Movement>)
    ensures
        q.reverse().to_multiset() == q.to_multiset(),
    decreases q.len(),
{
    broadcast use vstd::seq_lib::group_to_multiset_ensures;

    if q.len() > 0 {
        lemma_reverse_multiset(q.drop_first());
        assert(q.reverse() =~= q.drop_first().reverse().push(q[0]));
        assert(q.drop_first().reverse().push(q[0]).to_multiset() =~= q.drop_first(
        ).reverse().to_multiset().insert(q[0]));
        assert(q.remove(0) =~= q.drop_first());
        assert(q.remove(0).to_multiset() =~= q.to_multiset().remove(q[0]));
        assert(q.contains(q[0]));
        assert(q.to_multiset().count(q[0]) > 0);
        assert(q.to_multiset() =~= q.drop_first().to_multiset().insert(q[0]));
    }
}

/// Reversing a path, splitting it into buckets at each downward move, and
/// flattening the buckets back with one downward move between consecutive
/// buckets rebuilds the reversed path exactly.  In particular the flattened
/// word holds the same multiset of movements as the original path: the same
/// sideways and rotational movements, and as many downward moves.
pub proof fn lemma_path_bucket_round_trip(p: Seq<Movement>)
    ensures
        rebuild(p.reverse()) == p.reverse(),
        rebuild(p.reverse()).to_multiset() == p.to_multiset(),
        downs(rebuild(p.reverse())) == downs(p),
{
    lemma_rebuild_id(p.reverse());
    lemma_reverse_multiset(p);
    lemma_downs_count(p.reverse());
    lemma_downs_count(p);
}

/// The scores the evaluator assigns to the candidates, in enumeration
/// order.
pub open spec fn eval_seq<T: ComputerType>(
    ct: T,
    pf: Playfield,
    fig: Figure,
    placements: Seq<Position>,
) -> Seq<EvalPosition> {
    Seq::new(
        placements.len(),
        |i: int|
            EvalPosition { pos: placements[i], eval: ct.spec_eval(pf, fig, placements[i]) as i64 },
    )
}

/// The route of the best-scored candidate the path service can reach:
/// candidates are tried best first, and the first non-empty route wins.
pub open spec fn first_path(
    pf: Playfield,
    fig: Figure,
    source: Position,
    sorted: Seq<EvalPosition>,
    i: int,
) -> Seq<Movement>
    decreases sorted.len() - i,
{
    if i < 0 || i >= sorted.len() {
        Seq::empty()
    } else {
        let w = if spec_path_found(pf, fig, source, sorted[i].pos) {
            straight_word(source, sorted[i].pos, fig.nfaces()).reverse()
        } else {
            Seq::empty()
        };
        if w.len() > 0 {
            w
        } else {
            first_path(pf, fig, source, sorted, i + 1)
        }
    }
}

/// The whole plan for a freshly spawned figure: every resting placement is
/// scored, the candidates are sorted best first keeping enumeration order
/// among ties, the first reachable candidate's route is taken, and the
/// route becomes a per-level schedule.
pub open spec fn plan_pairs<T: ComputerType>(
    ct: T,
    pf: Playfield,
    fig: Figure,
    pos: Position,
) -> Seq<(int, Movement)> {
    let placements = spec_placements(pf, fig);
    let ct1 = ct.spec_init(pf, placements.len() as int);
    let sorted = sort_desc(eval_seq(ct1, pf, fig, placements));
    let chosen = first_path(pf, fig, pos, sorted, 0);
    level_pairs(chosen.reverse())
}

/// How many leading schedule entries belong to level `y`.
pub open spec fn count_level_prefix(pairs: Seq<(int, Movement)>, y: int) -> int
    decreases pairs.len(),
{
    if pairs.len() == 0 {
        0
    } else if pairs[0].0 == y {
        1 + count_level_prefix(pairs.drop_first(), y)
    } else {
        0
    }
}

/// The schedule left after the row-change dispatch for row `y`.
pub open spec fn dispatch_pairs(pairs: Seq<(int, Movement)>, y: int, last_y: int) -> Seq<
    (int, Movement),
> {
    if y > last_y {
        pairs.skip(count_level_prefix(pairs, y))
    } else {
        pairs
    }
}

/// The move queue after the row-change dispatch for row `y`: the moves of
/// row `y`'s bucket, spread evenly across one gravity period from `ticks`
/// on; with `n` moves the k-th is due at `ticks + k * (dst / (n + 1))`.
pub open spec fn dispatch_queue(
    pairs: Seq<(int, Movement)>,
    y: int,
    last_y: int,
    q: Seq<MoveAndTime>,
    ticks: u64,
    dst: u64,
) -> Seq<MoveAndTime> {
    if y > last_y {
        let k = count_level_prefix(pairs, y);
        let gap = dst as int / (k + 1);
        q + Seq::new(
            k as nat,
            |j: int|
                MoveAndTime { movement: pairs[j].1, time: (ticks + (j + 1) * gap) as u64 },
        )
    } else {
        q
    }
}

/// A schedule holds at most one entry per path movement.
proof fn lemma_pairs_from_len(path: Seq<Movement>, k: int, lvl: int)
    ensures
        pairs_from(path, k, lvl).len() <= if k < path.len() {
            path.len() - k
        } else {
            0
        },
    decreases path.len() - k,
{
    if 0 <= k < path.len() {
        if path[k] == Movement::MoveDown {
            lemma_pairs_from_len(path, k + 1, lvl + 1);
        } else {
            lemma_pairs_from_len(path, k + 1, lvl);
        }
    }
}

/// The leading run of entries at one level really is a prefix count.
proof fn lemma_count_level_prefix_char(pairs: Seq<(int, Movement)>, y: int, n: int)
    requires
        0 <= n <= pairs.len(),
        forall|j: int| 0 <= j < n ==> (#[trigger] pairs[j]).0 == y,
        n < pairs.len() ==> pairs[n].0 != y,
    ensures
        count_level_prefix(pairs, y) == n,
    decreases n,
{
    if n > 0 {
        lemma_count_level_prefix_char(pairs.drop_first(), y, n - 1);
    }
}

/// The autonomous player: watches the simulation for a freshly spawned
/// figure, plans the best reachable placement for it, and feeds the planned
/// moves into the simulation row by row as the figure falls.
pub struct ComputerPlayer<T: ComputerType> {
    pub com_type: T,
    pub last_figure: Option<Position>,
    pub moves_per_level: Vec<(i32, Movement)>,
}

impl<T: ComputerType> ComputerPlayer<T> {
    pub fn new(com_type: T) -> (r: ComputerPlayer<T>)
        ensures
            r.com_type == com_type,
            r.last_figure is None,
            r.moves_per_level@.len() == 0,
    {
        ComputerPlayer { com_type, last_figure: Option::None, moves_per_level: Vec::new() }
    }

    /// Plans for a freshly spawned figure: enumerates its resting
    /// placements, scores them against the current board, sorts them best
    /// first (ties keep enumeration order), asks the path service for a
    /// route to each in turn, and turns the first route found into the
    /// per-level schedule.
    #[verifier::loop_isolation(false)]
    fn new_figure_event(&mut self, ticks: u64, pf: &Playfield, fig: &Figure, pos: Position)
        requires
            pf.wf(),
            fig.wf(),
            0 <= pos.dir < fig.nfaces(),
            -100 <= pos.x <= 10000,
            -100 <= pos.y <= 10000,
        ensures
            final(self).com_type == old(self).com_type.spec_init(
                *pf,
                spec_placements(*pf, *fig).len() as int,
            ),
            final(self).com_type.wf(),
            pairs_view(final(self).moves_per_level@) == plan_pairs(
                old(self).com_type,
                *pf,
                *fig,
                pos,
            ),
            final(self).moves_per_level@.len() <= 100000,
            final(self).last_figure == old(self).last_figure,
    {
        let mut avail_placings: Vec<Position> = Vec::new();
        find_placement(&mut avail_placings, pf, fig);
        proof {
            lemma_placements_valid(*pf, *fig, fig.nfaces());
        }
        let ghost placements = spec_placements(*pf, *fig);
        self.com_type.init_eval(pf, avail_placings.len());
        let ghost ct1 = old(self).com_type.spec_init(*pf, placements.len() as int);

        let mut eval_placing: Vec<EvalPosition> = Vec::new();
        let mut i: usize = 0;
        while i < avail_placings.len()
            invariant
                self.com_type == ct1,
                self.com_type.wf(),
                self.last_figure == old(self).last_figure,
                i <= placements.len(),
                eval_placing@.len() == i,
                forall|j: int|
                    0 <= j < i ==> eval_placing@[j] == eval_seq(ct1, *pf, *fig, placements)[j],
            decreases placements.len() - i,
        {
            let p = avail_placings[i];
            let score = self.com_type.eval_placing(pf, fig, p);
            eval_placing.push(EvalPosition { pos: p, eval: score });
            i = i + 1;
        }
        proof {
            assert(eval_placing@ =~= eval_seq(ct1, *pf, *fig, placements));
        }
        sort_candidates(&mut eval_placing);
        let ghost sorted = sort_desc(eval_seq(ct1, *pf, *fig, placements));

        let mut path: Vec<Movement> = Vec::new();
        let mut idx: usize = 0;
        while idx < eval_placing.len() && path.len() == 0
            invariant
                self.com_type == ct1,
                self.com_type.wf(),
                self.last_figure == old(self).last_figure,
                eval_placing@ == sorted,
                idx <= sorted.len(),
                path@.len() <= 100000,
                path@.len() == 0 ==> first_path(*pf, *fig, pos, sorted, 0) == first_path(
                    *pf,
                    *fig,
                    pos,
                    sorted,
                    idx as int,
                ),
                path@.len() > 0 ==> path@ == first_path(*pf, *fig, pos, sorted, 0),
            decreases sorted.len() - idx,
        {
            let target = eval_placing[idx].pos;
            proof {
                lemma_sort_desc_elements(eval_seq(ct1, *pf, *fig, placements), idx as int);
                let j = choose|j: int|
                    0 <= j < eval_seq(ct1, *pf, *fig, placements).len() && eval_seq(
                        ct1,
                        *pf,
                        *fig,
                        placements,
                    )[j] == sorted[idx as int];
                assert(eval_seq(ct1, *pf, *fig, placements)[j].pos == placements[j]);
            }
            find_path(&mut path, pf, fig, pos, target);
            idx = idx + 1;
        }
        proof {
            if path@.len() == 0 {
                assert(path@ =~= first_path(*pf, *fig, pos, sorted, idx as int));
            }
            assert(path@ == first_path(*pf, *fig, pos, sorted, 0));
        }
        let rev = reverse_moves(&path);
        path_to_moves_per_level(&mut self.moves_per_level, &rev);
        proof {
            lemma_pairs_from_len(rev@, 0, 0);
            assert(self.moves_per_level@.len() == pairs_view(self.moves_per_level@).len());
        }
    }

    /// Dispatches the bucket of a newly entered row: when the figure's row
    /// has increased past the last observed one, the moves scheduled for
    /// the new row are queued into the game, spread evenly across one
    /// gravity period starting at `ticks`.
    #[verifier::loop_isolation(false)]
    fn figure_move_event(&mut self, game: &mut Game, ticks: u64, pos: Position)
        requires
            old(game).wf(),
            ticks + old(game).down_step_time <= i64::MAX,
            old(self).moves_per_level@.len() <= 100000,
        ensures
            final(self).moves_per_level@.len() <= old(self).moves_per_level@.len(),
            final(game).wf(),
            final(self).com_type == old(self).com_type,
            final(self).last_figure == old(self).last_figure,
            pairs_view(final(self).moves_per_level@) == dispatch_pairs(
                pairs_view(old(self).moves_per_level@),
                pos.y as int,
                match old(self).last_figure {
                    Option::Some(lp) => lp.y as int,
                    Option::None => -1,
                },
            ),
            final(game).move_queue.queue@ == dispatch_queue(
                pairs_view(old(self).moves_per_level@),
                pos.y as int,
                match old(self).last_figure {
                    Option::Some(lp) => lp.y as int,
                    Option::None => -1,
                },
                old(game).move_queue.queue@,
                ticks,
                old(game).down_step_time,
            ),
            final(game).move_queue.last_move_time@ == old(game).move_queue.last_move_time@,
            final(game).pf == old(game).pf,
            final(game).down_step_time == old(game).down_step_time,
            final(game).available_figures == old(game).available_figures,
            final(game).next_figure == old(game).next_figure,
            final(game).current_figure == old(game).current_figure,
            final(game).game_over == old(game).game_over,
    {
        let last_y: i32 = match self.last_figure {
            Option::Some(lp) => lp.y,
            Option::None => -1,
        };
        let y = pos.y;
        let ghost pairs = pairs_view(self.moves_per_level@);
        if y > last_y {
            let mut n: usize = 0;
            while n < self.moves_per_level.len() && self.moves_per_level[n].0 == y
                invariant
                    n <= pairs.len(),
                    forall|j: int| 0 <= j < n ==> (#[trigger] pairs[j]).0 == y,
                decreases pairs.len() - n,
            {
                n = n + 1;
            }
            proof {
                lemma_count_level_prefix_char(pairs, y as int, n as int);
            }
            let gap: u64 = game.down_step_time() / (n as u64 + 1);
            proof {
                vstd::arithmetic::div_mod::lemma_fundamental_div_mod(
                    old(game).down_step_time as int,
                    n as int + 1,
                );
                vstd::arithmetic::div_mod::lemma_mod_bound(
                    old(game).down_step_time as int,
                    n as int + 1,
                );
            }
            let mut k: usize = 0;
            while k < n
                invariant
                    k <= n,
                    n <= self.moves_per_level@.len() + k,
                    gap == old(game).down_step_time as int / (n as int + 1),
                    pairs_view(self.moves_per_level@) == pairs.skip(k as int),
                    game.wf(),
                    game.move_queue.queue@ == old(game).move_queue.queue@ + Seq::new(
                        k as nat,
                        |j: int|
                            MoveAndTime {
                                movement: pairs[j].1,
                                time: (ticks + (j + 1) * (old(game).down_step_time as int / (
                                n as int + 1))) as u64,
                            },
                    ),
                    game.move_queue.last_move_time@ == old(game).move_queue.last_move_time@,
                    game.pf == old(game).pf,
                    game.down_step_time == old(game).down_step_time,
                    game.available_figures == old(game).available_figures,
                    game.next_figure == old(game).next_figure,
                    game.current_figure == old(game).current_figure,
                    game.game_over == old(game).game_over,
                    self.com_type == old(self).com_type,
                    self.last_figure == old(self).last_figure,
                decreases n - k,
            {
                proof {
                    let dst: int = old(game).down_step_time as int;
                    let nn: int = n as int + 1;
                    let q: int = dst / nn;
                    let r: int = dst % nn;
                    assert((k as int + 1) * q <= dst) by (nonlinear_arith)
                        requires
                            dst == nn * q + r,
                            0 <= r,
                            0 <= dst,
                            nn == n as int + 1,
                            0 <= k < n,
                    ;
                }
                proof {
                    assert(self.moves_per_level@.len() == pairs_view(
                        self.moves_per_level@,
                    ).len());
                    assert(pairs.skip(k as int).len() == pairs.len() - k);
                }
                let ghost pre = self.moves_per_level@;
                let mv = self.moves_per_level.remove(0);
                let t: u64 = ticks + (k as u64 + 1) * gap;
                game.add_move(mv.1, t);
                proof {
                    assert(mv == pre[0]);
                    assert(pairs_view(pre)[0] == pairs.skip(k as int)[0]);
                    assert(pairs.skip(k as int)[0] == pairs[k as int]);
                    assert(mv.1 == pairs[k as int].1);
                    assert forall|i: int|
                        0 <= i < self.moves_per_level@.len() implies pairs_view(
                        self.moves_per_level@,
                    )[i] == pairs.skip(k as int + 1)[i] by {
                        assert(self.moves_per_level@[i] == pre[i + 1]);
                        assert(pairs_view(pre)[i + 1] == pairs.skip(k as int)[i + 1]);
                    }
                    assert(pairs_view(self.moves_per_level@) =~= pairs.skip(k as int + 1));
                    assert(game.move_queue.queue@ =~= old(game).move_queue.queue@ + Seq::new(
                        (k + 1) as nat,
                        |j: int|
                            MoveAndTime {
                                movement: pairs[j].1,
                                time: (ticks + (j + 1) * (old(game).down_step_time as int / (
                                n as int + 1))) as u64,
                            },
                    ));
                }
                k = k + 1;
            }
        } else {
            proof {
                assert(pairs_view(self.moves_per_level@) == dispatch_pairs(
                    pairs,
                    pos.y as int,
                    last_y as int,
                ));
            }
        }
    }

    /// One planning step per frame: on a fresh spawn the placement plan is
    /// computed and the spawn row's bucket dispatched; on a descent to a
    /// new row that row's bucket is dispatched; otherwise nothing happens.
    pub fn act_on_game(&mut self, game: &mut Game, ticks: u64)
        requires
            old(game).wf(),
            ticks + old(game).down_step_time <= i64::MAX,
            old(self).moves_per_level@.len() <= 100000,
        ensures
            final(self).moves_per_level@.len() <= 100000,
            final(game).wf(),
            final(game).pf == old(game).pf,
            final(game).down_step_time == old(game).down_step_time,
            final(game).available_figures == old(game).available_figures,
            final(game).next_figure == old(game).next_figure,
            final(game).current_figure == old(game).current_figure,
            final(game).game_over == old(game).game_over,
            final(game).move_queue.last_move_time@ == old(game).move_queue.last_move_time@,
            old(game).current_figure is None ==> {
                &&& final(game).move_queue.queue@ == old(game).move_queue.queue@
                &&& final(self).com_type == old(self).com_type
                &&& pairs_view(final(self).moves_per_level@) == pairs_view(
                    old(self).moves_per_level@,
                )
                &&& final(self).last_figure is None
            },
            old(game).current_figure matches Some((f, p)) ==> (old(self).last_figure is None
                ==> {
                let plan = plan_pairs(old(self).com_type, old(game).pf, f, p);
                &&& final(self).com_type == old(self).com_type.spec_init(
                    old(game).pf,
                    spec_placements(old(game).pf, f).len() as int,
                )
                &&& pairs_view(final(self).moves_per_level@) == dispatch_pairs(
                    plan,
                    p.y as int,
                    -1,
                )
                &&& final(game).move_queue.queue@ == dispatch_queue(
                    plan,
                    p.y as int,
                    -1,
                    old(game).move_queue.queue@,
                    ticks,
                    old(game).down_step_time,
                )
                &&& final(self).last_figure == Some(p)
            }),
            old(game).current_figure matches Some((f, p)) ==> (old(self).last_figure matches Some(
                lp,
            ) ==> {
                &&& final(self).com_type == old(self).com_type
                &&& pairs_view(final(self).moves_per_level@) == dispatch_pairs(
                    pairs_view(old(self).moves_per_level@),
                    p.y as int,
                    lp.y as int,
                )
                &&& final(game).move_queue.queue@ == dispatch_queue(
                    pairs_view(old(self).moves_per_level@),
                    p.y as int,
                    lp.y as int,
                    old(game).move_queue.queue@,
                    ticks,
                    old(game).down_step_time,
                )
                &&& final(self).last_figure == Some(p)
            }),
    {
        let cur_pos: Option<Position> = match game.current_figure() {
            Option::Some((_, p)) => Option::Some(*p),
            Option::None => Option::None,
        };
        match cur_pos {
            Option::None => {},
            Option::Some(p) => {
                if self.last_figure.is_none() {
                    match game.current_figure() {
                        Option::Some((f, q)) => {
                            let q2 = *q;
                            self.new_figure_event(ticks, game.playfield(), f, q2);
                        },
                        Option::None => {},
                    }
                }
                self.figure_move_event(game, ticks, p);
            },
        }
        self.last_figure = cur_pos;
    }
}

/// The same movements in the opposite order.
fn reverse_moves(v: &Vec<Movement>) -> (r: Vec<Movement>)
    ensures
        r@ == v@.reverse(),
{
    let n = v.len();
    let mut r: Vec<Movement> = Vec::new();
    let mut j: usize = 0;
    while j < n
        invariant
            j <= n,
            n == v@.len(),
            r@.len() == j,
            forall|i: int| 0 <= i < j ==> r@[i] == v@[n - 1 - i],
        decreases n - j,
    {
        r.push(v[n - 1 - j]);
        j = j + 1;
    }
    proof {
        assert(r@ =~= v@.reverse());
    }
    r
}

} // verus!
