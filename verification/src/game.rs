//! The simulation: the timed move queue and the tick-driven game state machine.

use vstd::prelude::*;

verus! {

use crate::figure::Figure;
use crate::figure::fig_view;
use crate::figure::lemma_collides_model;
use crate::figure::lemma_not_collides_bounds;
use crate::figure::mdl_collides;
use crate::figure::mdl_covers;
use crate::figure::mdl_place;
use crate::figure::spec_collides;
use crate::movement::Movement;
use crate::playfield::Playfield;
use crate::playfield::throw_lines_model;
use crate::position::Position;
use crate::position::apply_move_spec;
use crate::rng::random_byte;

/// A movement paired with the tick at which it becomes due.
#[derive(Clone, Copy, Debug, PartialEq, Eq, Structural)]
pub struct MoveAndTime {
    pub movement: Movement,
    pub time: u64,
}

/// The slot a movement kind occupies in the last-execution table.
pub open spec fn move_index(m: Movement) -> int {
    match m {
        Movement::MoveLeft => 0,
        Movement::MoveRight => 1,
        Movement::MoveDown => 2,
        Movement::MoveUp => 3,
        Movement::RotateCW => 4,
        Movement::RotateCCW => 5,
    }
}

/// The index of the entry that leaves the queue first among entries
/// `0 .. n`: the earliest execution tick, ties resolved in favor of the
/// entry inserted first.
pub open spec fn first_min_upto(q: Seq<MoveAndTime>, n: int) -> int
    decreases n,
{
    if n <= 1 {
        0
    } else {
        let p = first_min_upto(q, n - 1);
        if q[n - 1].time < q[p].time {
            n - 1
        } else {
            p
        }
    }
}

/// The index of the entry that leaves a non-empty queue first.
pub open spec fn first_min_index(q: Seq<MoveAndTime>) -> int {
    first_min_upto(q, q.len() as int)
}

/// The chosen index really is the first index of minimal execution tick.
pub proof fn lemma_first_min_upto(q: Seq<MoveAndTime>, n: int)
    requires
        1 <= n <= q.len(),
    ensures
        0 <= first_min_upto(q, n) < n,
        forall|j: int| 0 <= j < n ==> (#[trigger] q[j]).time >= q[first_min_upto(q, n)].time,
        forall|j: int|
            0 <= j < first_min_upto(q, n) ==> (#[trigger] q[j]).time > q[first_min_upto(
                q,
                n,
            )].time,
    decreases n,
{
    if n > 1 {
        lemma_first_min_upto(q, n - 1);
    }
}

/// The queue of moves waiting to be executed, ordered by execution tick,
/// with the tick each movement kind last executed at.
///
/// Entries due at the same tick leave in insertion order: the backing
/// vector keeps insertion order, and `pop_next_move` takes the first entry
/// holding the minimal tick.
pub struct MoveQueue {
    pub queue: Vec<MoveAndTime>,
    pub last_move_time: Vec<u64>,
}

impl MoveQueue {
    /// Well-formed: one last-execution slot per movement kind, and every
    /// recorded tick small enough for signed time arithmetic.
    pub open spec fn wf(&self) -> bool {
        &&& self.last_move_time@.len() == 6
        &&& forall|i: int| 0 <= i < 6 ==> self.last_move_time@[i] <= i64::MAX
        &&& forall|i: int|
            0 <= i < self.queue@.len() ==> (#[trigger] self.queue@[i]).time <= i64::MAX
    }

    pub fn new() -> (q: MoveQueue)
        ensures
            q.wf(),
            q.queue@.len() == 0,
            forall|i: int| 0 <= i < 6 ==> q.last_move_time@[i] == 0,
    {
        let mut last: Vec<u64> = Vec::new();
        let mut i: usize = 0;
        while i < 6
            invariant
                i <= 6,
                last@.len() == i,
                forall|j: int| 0 <= j < i ==> last@[j] == 0,
            decreases 6 - i,
        {
            last.push(0);
            i = i + 1;
        }
        MoveQueue { queue: Vec::new(), last_move_time: last }
    }

    fn movement_to_index(movement: Movement) -> (r: usize)
        ensures
            r == move_index(movement),
    {
        match movement {
            Movement::MoveLeft => 0,
            Movement::MoveRight => 1,
            Movement::MoveDown => 2,
            Movement::MoveUp => 3,
            Movement::RotateCW => 4,
            Movement::RotateCCW => 5,
        }
    }

    /// Inserts unconditionally; no deduplication.
    pub fn add_move(&mut self, movement: Movement, ticks: u64)
        requires
            old(self).wf(),
            ticks <= i64::MAX,
        ensures
            final(self).wf(),
            final(self).queue@ == old(self).queue@.push(MoveAndTime { movement, time: ticks }),
            final(self).last_move_time@ == old(self).last_move_time@,
    {
        let move_time = MoveAndTime { movement, time: ticks };
        self.queue.push(move_time);
    }

    /// Removes and returns the entry that is due first, if it is due at or
    /// before `ticks`: the entry with the smallest execution tick, ties
    /// resolved in favor of the entry inserted first.  Its tick is recorded
    /// as the last execution of its movement kind.
    pub fn pop_next_move(&mut self, ticks: u64) -> (r: Option<MoveAndTime>)
        requires
            old(self).wf(),
        ensures
            final(self).wf(),
            old(self).queue@.len() == 0 || old(self).queue@[first_min_index(
                old(self).queue@,
            )].time > ticks ==> {
                &&& r is None
                &&& final(self).queue@ == old(self).queue@
                &&& final(self).last_move_time@ == old(self).last_move_time@
            },
            old(self).queue@.len() > 0 && old(self).queue@[first_min_index(
                old(self).queue@,
            )].time <= ticks ==> {
                let i = first_min_index(old(self).queue@);
                let e = old(self).queue@[i];
                &&& r == Some(e)
                &&& final(self).queue@ == old(self).queue@.remove(i)
                &&& final(self).last_move_time@ == old(self).last_move_time@.update(
                    move_index(e.movement),
                    e.time,
                )
            },
            r matches Some(e) ==> e.time <= ticks,
    {
        if self.queue.len() == 0 {
            return None;
        }
        let ghost q = self.queue@;
        let mut best: usize = 0;
        let mut i: usize = 1;
        while i < self.queue.len()
            invariant
                self.queue@ == q,
                1 <= self.queue@.len(),
                i <= self.queue@.len(),
                best == first_min_upto(q, i as int),
                best < i,
            decreases self.queue@.len() - i,
        {
            if self.queue[i].time < self.queue[best].time {
                best = i;
            }
            i = i + 1;
        }
        proof {
            lemma_first_min_upto(q, q.len() as int);
        }
        let entry = self.queue[best];
        if entry.time <= ticks {
            let idx = Self::movement_to_index(entry.movement);
            self.last_move_time.set(idx, entry.time);
            self.queue.remove(best);
            Some(entry)
        } else {
            None
        }
    }

    /// The tick at which a movement of this kind last executed (0 before
    /// the first execution, so the first gravity check always fires).
    pub fn time_last_move(&self, movement: Movement) -> (r: u64)
        requires
            self.wf(),
        ensures
            r == self.last_move_time@[move_index(movement)],
    {
        self.last_move_time[Self::movement_to_index(movement)]
    }

    /// How many ticks have passed since a movement of this kind last
    /// executed; negative when that execution is still in the future.
    pub fn time_since_move(&self, ticks: u64, movement: Movement) -> (r: i64)
        requires
            self.wf(),
            ticks <= i64::MAX,
        ensures
            r == ticks - self.last_move_time@[move_index(movement)],
    {
        ticks as i64 - self.time_last_move(movement) as i64
    }

    /// Discards all pending entries; the last-execution table is kept.
    pub fn clear(&mut self)
        requires
            old(self).wf(),
        ensures
            final(self).wf(),
            final(self).queue@.len() == 0,
            final(self).last_move_time@ == old(self).last_move_time@,
    {
        self.queue.clear();
    }
}

/// The mathematical model of the live game state: the grid as a sequence of
/// rows, the falling figure as its face masks and position, and the pending
/// move queue.  The tick-driven transitions are defined on this model and
/// the executable `Game` is proved to follow them.
#[verifier::ext_equal]
pub struct GameModel {
    pub grid: Seq<Seq<u8>>,
    pub width: int,
    pub height: int,
    pub current: Option<(Seq<Seq<Seq<u8>>>, Position)>,
    pub queue: Seq<MoveAndTime>,
    pub last_move_time: Seq<u64>,
}

/// One executed movement.  A blocked sideways or upward move, or a blocked
/// rotation, is discarded; a blocked downward move locks the figure into
/// the grid.
pub open spec fn step_move_model(m: GameModel, mv: Movement) -> GameModel {
    match m.current {
        Option::None => m,
        Option::Some((faces, pos)) => {
            let test = apply_move_spec(pos, mv, faces.len() as int);
            if mdl_collides(m.grid, m.width, m.height, faces, test) {
                if mv == Movement::MoveDown {
                    GameModel { grid: mdl_place(m.grid, faces, pos), current: Option::None, ..m }
                } else {
                    m
                }
            } else {
                GameModel { current: Option::Some((faces, test)), ..m }
            }
        },
    }
}

/// All moves due at or before `ticks` executed, earliest first, entries of
/// equal tick in insertion order.
pub open spec fn drain_model(m: GameModel, ticks: u64) -> GameModel
    decreases m.queue.len(),
{
    if m.queue.len() == 0 {
        m
    } else {
        let i = first_min_index(m.queue);
        if i < 0 || i >= m.queue.len() {
            m
        } else {
            let e = m.queue[i];
            if e.time > ticks {
                m
            } else {
                let m2 = GameModel {
                    queue: m.queue.remove(i),
                    last_move_time: m.last_move_time.update(move_index(e.movement), e.time),
                    ..m
                };
                drain_model(step_move_model(m2, e.movement), ticks)
            }
        }
    }
}

/// A downward move enqueued at `ticks` when gravity is due: when at least
/// `down_step_time` ticks have passed since the last executed downward move.
pub open spec fn gravity_model(m: GameModel, ticks: u64, down_step_time: u64) -> GameModel {
    if ticks - m.last_move_time[move_index(Movement::MoveDown)] >= down_step_time {
        GameModel {
            queue: m.queue.push(MoveAndTime { movement: Movement::MoveDown, time: ticks }),
            ..m
        }
    } else {
        m
    }
}

/// Scheduler law: the entry that `pop_next_move` hands out at `ticks` is
/// never due later than `ticks` itself, and once an entry of some kind has
/// been popped at its tick `T`, the recorded time since the last move of
/// that kind at any `now >= T` is exactly `now - T`.
pub proof fn lemma_pop_due_time_since(q: MoveQueue, ticks: u64, now: u64)
    requires
        q.wf(),
        q.queue@.len() > 0,
        q.queue@[first_min_index(q.queue@)].time <= ticks,
        q.queue@[first_min_index(q.queue@)].time <= now,
    ensures
        ({
            let e = q.queue@[first_min_index(q.queue@)];
            let after = q.last_move_time@.update(move_index(e.movement), e.time);
            &&& e.time <= ticks
            &&& now - after[move_index(e.movement)] == now - e.time
            &&& now - after[move_index(e.movement)] >= 0
        }),
{
    lemma_first_min_upto(q.queue@, q.queue@.len() as int);
}

/// The simulation: the board, the falling figure, the figure to come, and
/// the pending move queue, advanced once per host tick.
pub struct Game {
    pub pf: Playfield,
    pub down_step_time: u64,
    pub available_figures: Vec<Figure>,
    pub next_figure: Figure,
    pub current_figure: Option<(Figure, Position)>,
    pub game_over: bool,
    pub move_queue: MoveQueue,
}

impl Game {
    /// Well-formed: the board and every figure are well-formed, the catalog
    /// is non-empty and byte-indexable, the gravity period is small enough
    /// for signed time arithmetic, and the falling figure, when present,
    /// stands collision-free near the board.
    pub open spec fn wf(&self) -> bool {
        &&& self.pf.wf()
        &&& self.pf.width >= 2
        &&& 1 <= self.available_figures@.len() <= 255
        &&& forall|i: int|
            0 <= i < self.available_figures@.len() ==> (
            #[trigger] self.available_figures@[i]).wf()
        &&& self.next_figure.wf()
        &&& self.down_step_time <= 1000000000
        &&& self.move_queue.wf()
        &&& match self.current_figure {
            Option::None => true,
            Option::Some((fig, pos)) => {
                &&& fig.wf()
                &&& 0 <= pos.dir < fig.nfaces()
                &&& -100 <= pos.x <= 10000
                &&& -100 <= pos.y <= 10000
                &&& !spec_collides(self.pf, fig, pos)
            },
        }
    }

    /// The live part of the state as its mathematical model.
    pub open spec fn model(&self) -> GameModel {
        GameModel {
            grid: self.pf.grid(),
            width: self.pf.width as int,
            height: self.pf.height as int,
            current: match self.current_figure {
                Option::None => Option::None,
                Option::Some((fig, pos)) => Option::Some((fig_view(fig), pos)),
            },
            queue: self.move_queue.queue@,
            last_move_time: self.move_queue.last_move_time@,
        }
    }

    /// A uniformly drawn byte reduced to a catalog index.  The reduction is
    /// by remainder, so when 256 is not a multiple of the catalog size the
    /// low indices are slightly favored; the skew is deliberate and kept.
    fn randomize_figure(figures: &Vec<Figure>) -> (idx: usize)
        requires
            1 <= figures@.len() <= 255,
        ensures
            idx < figures@.len(),
    {
        let r = random_byte();
        (r % figures.len() as u8) as usize
    }

    pub fn new(pf: Playfield, available_figures: Vec<Figure>, down_step_time: u64) -> (g: Game)
        requires
            pf.wf(),
            pf.width >= 2,
            1 <= available_figures@.len() <= 255,
            forall|i: int|
                0 <= i < available_figures@.len() ==> (#[trigger] available_figures@[i]).wf(),
            down_step_time <= 1000000000,
        ensures
            g.wf(),
            g.pf == pf,
            g.down_step_time == down_step_time,
            g.available_figures == available_figures,
            g.current_figure is None,
            !g.game_over,
            g.move_queue.queue@.len() == 0,
            forall|i: int| 0 <= i < 6 ==> g.move_queue.last_move_time@[i] == 0,
            exists|i: int|
                0 <= i < available_figures@.len() && fig_view(g.next_figure) == fig_view(
                    #[trigger] available_figures@[i],
                ),
    {
        let idx = Self::randomize_figure(&available_figures);
        let next = available_figures[idx].duplicate();
        Game {
            pf,
            down_step_time,
            next_figure: next,
            available_figures,
            current_figure: Option::None,
            game_over: false,
            move_queue: MoveQueue::new(),
        }
    }

    pub fn playfield(&self) -> (r: &Playfield)
        ensures
            r == &self.pf,
    {
        &self.pf
    }

    pub fn current_figure(&self) -> (r: &Option<(Figure, Position)>)
        ensures
            r == &self.current_figure,
    {
        &self.current_figure
    }

    pub fn next_figure(&self) -> (r: &Figure)
        ensures
            r == &self.next_figure,
    {
        &self.next_figure
    }

    pub fn game_is_over(&self) -> (r: bool)
        ensures
            r == self.game_over,
    {
        self.game_over
    }

    pub fn down_step_time(&self) -> (r: u64)
        ensures
            r == self.down_step_time,
    {
        self.down_step_time
    }

    /// Queues a movement to execute once `ticks` is reached.
    pub fn add_move(&mut self, movement: Movement, ticks: u64)
        requires
            old(self).wf(),
            ticks <= i64::MAX,
        ensures
            final(self).wf(),
            final(self).move_queue.queue@ == old(self).move_queue.queue@.push(
                MoveAndTime { movement, time: ticks },
            ),
            final(self).move_queue.last_move_time@ == old(self).move_queue.last_move_time@,
            final(self).pf == old(self).pf,
            final(self).down_step_time == old(self).down_step_time,
            final(self).available_figures == old(self).available_figures,
            final(self).next_figure == old(self).next_figure,
            final(self).current_figure == old(self).current_figure,
            final(self).game_over == old(self).game_over,
    {
        self.move_queue.add_move(movement, ticks);
    }

    /// Executes one movement on the falling figure: a blocked sideways or
    /// upward move or rotation is discarded; a blocked downward move locks
    /// the figure into the board.
    fn execute_move(&mut self, movement: Movement)
        requires
            old(self).wf(),
        ensures
            final(self).wf(),
            final(self).model() == step_move_model(old(self).model(), movement),
            final(self).down_step_time == old(self).down_step_time,
            final(self).available_figures == old(self).available_figures,
            final(self).next_figure == old(self).next_figure,
            final(self).game_over == old(self).game_over,
            final(self).move_queue == old(self).move_queue,
    {
        let cur = self.current_figure.take();
        match cur {
            Option::None => {
                proof {
                    assert(self.model() =~= step_move_model(old(self).model(), movement));
                }
            },
            Option::Some((fig, pos)) => {
                let test_pos = pos.apply_move(movement, fig.num_faces() as i32);
                let collision = fig.test_collision(&self.pf, test_pos);
                proof {
                    lemma_collides_model(self.pf, fig, test_pos);
                    assert(fig_view(fig).len() == fig.nfaces());
                }
                if collision && movement == Movement::MoveDown {
                    fig.place(&mut self.pf, pos);
                    proof {
                        let m = old(self).model();
                        let faces = fig_view(fig);
                        assert(faces[pos.dir as int] == crate::figure::face_view(
                            fig.faces@[pos.dir as int],
                        ));
                        assert forall|x: int, y: int|
                            0 <= y < m.grid.len() && 0 <= x < m.grid[y].len() implies self.pf.grid()[y][x]
                            == mdl_place(m.grid, faces, pos)[y][x] by {
                            assert(crate::figure::covers(fig, pos, x, y) == mdl_covers(
                                faces,
                                pos,
                                x,
                                y,
                            ));
                            if crate::figure::covers(fig, pos, x, y) {
                                assert(self.pf.cell(x, y) == crate::figure::cover_color(
                                    fig,
                                    pos,
                                    x,
                                    y,
                                ));
                            } else {
                                assert(self.pf.cell(x, y) == old(self).pf.cell(x, y));
                            }
                        }
                        assert(self.pf.grid() =~~= mdl_place(m.grid, faces, pos));
                        assert(self.model() =~= step_move_model(old(self).model(), movement));
                    }
                } else {
                    if !collision {
                        proof {
                            lemma_not_collides_bounds(self.pf, fig, test_pos);
                        }
                        self.current_figure = Option::Some((fig, test_pos));
                        proof {
                            assert(self.model() =~= step_move_model(old(self).model(), movement));
                        }
                    } else {
                        self.current_figure = Option::Some((fig, pos));
                        proof {
                            assert(self.model() =~= step_move_model(old(self).model(), movement));
                        }
                    }
                }
            },
        }
    }

    /// Advances the simulation by one frame at time `ticks`.
    ///
    /// Once the game is over nothing changes.  While a figure is falling, a
    /// downward move is queued when gravity is due, and then every queued
    /// move due at or before `ticks` executes, earliest tick first, equal
    /// ticks in insertion order.  Between figures, the full rows are thrown
    /// away and the next figure spawns top-center; a blocked spawn ends the
    /// game, otherwise a new next figure is drawn from the catalog.
    #[verifier::loop_isolation(false)]
    pub fn update(&mut self, ticks: u64)
        requires
            old(self).wf(),
            ticks + old(self).down_step_time <= i64::MAX,
        ensures
            final(self).wf(),
            final(self).down_step_time == old(self).down_step_time,
            final(self).available_figures == old(self).available_figures,
            old(self).game_over ==> *final(self) == *old(self),
            !old(self).game_over && old(self).current_figure is Some ==> {
                &&& final(self).model() == drain_model(
                    gravity_model(old(self).model(), ticks, old(self).down_step_time),
                    ticks,
                )
                &&& final(self).game_over == old(self).game_over
                &&& final(self).next_figure == old(self).next_figure
            },
            !old(self).game_over && old(self).current_figure is None ==> {
                let w = old(self).pf.width as int;
                let h = old(self).pf.height as int;
                let cleared = throw_lines_model(
                    old(self).pf.grid(),
                    w,
                    old(self).pf.full_lines(),
                    0,
                );
                let spawn = (Position { x: (old(self).pf.width / 2 - 1) as i32, y: 0, dir: 0 });
                &&& final(self).pf.grid() == cleared
                &&& final(self).pf.width == old(self).pf.width
                &&& final(self).pf.height == old(self).pf.height
                &&& final(self).move_queue.queue@.len() == 0
                &&& final(self).move_queue.last_move_time@ == old(
                    self,
                ).move_queue.last_move_time@
                &&& (mdl_collides(cleared, w, h, fig_view(old(self).next_figure), spawn) ==> {
                    &&& final(self).game_over
                    &&& final(self).current_figure is None
                    &&& final(self).next_figure == old(self).next_figure
                })
                &&& (!mdl_collides(cleared, w, h, fig_view(old(self).next_figure), spawn) ==> {
                    &&& !final(self).game_over
                    &&& final(self).current_figure matches Some((f, p)) && fig_view(f)
                        == fig_view(old(self).next_figure) && p == spawn
                    &&& exists|i: int|
                        0 <= i < old(self).available_figures@.len() && fig_view(
                            final(self).next_figure,
                        ) == fig_view(#[trigger] old(self).available_figures@[i])
                })
            },
    {
        if self.game_over {
            return ;
        }
        if self.current_figure.is_some() {
            let time_since_down = self.move_queue.time_since_move(ticks, Movement::MoveDown);
            if time_since_down >= self.down_step_time as i64 {
                self.add_move(Movement::MoveDown, ticks);
            }
            let ghost m1 = gravity_model(old(self).model(), ticks, old(self).down_step_time);
            proof {
                assert(self.model() =~= m1);
            }
            #[verifier::loop_isolation(true)]
            loop
                invariant
                    self.wf(),
                    self.down_step_time == old(self).down_step_time,
                    self.available_figures == old(self).available_figures,
                    self.next_figure == old(self).next_figure,
                    self.game_over == old(self).game_over,
                    drain_model(self.model(), ticks) == drain_model(m1, ticks),
                ensures
                    self.wf(),
                    self.down_step_time == old(self).down_step_time,
                    self.available_figures == old(self).available_figures,
                    self.next_figure == old(self).next_figure,
                    self.game_over == old(self).game_over,
                    drain_model(self.model(), ticks) == drain_model(m1, ticks),
                    self.move_queue.queue@.len() == 0 || self.move_queue.queue@[first_min_index(
                        self.move_queue.queue@,
                    )].time > ticks,
                decreases self.move_queue.queue@.len(),
            {
                let ghost mq = self.move_queue.queue@;
                let ghost mpre = self.model();
                let popped = self.move_queue.pop_next_move(ticks);
                match popped {
                    Option::None => {
                        break ;
                    },
                    Option::Some(mt) => {
                        proof {
                            lemma_first_min_upto(mq, mq.len() as int);
                            let i = first_min_index(mq);
                            let e = mq[i];
                            let m2 = GameModel {
                                queue: mq.remove(i),
                                last_move_time: mpre.last_move_time.update(
                                    move_index(e.movement),
                                    e.time,
                                ),
                                ..mpre
                            };
                            assert(self.model() =~= m2);
                            assert(drain_model(mpre, ticks) == drain_model(
                                step_move_model(m2, e.movement),
                                ticks,
                            ));
                        }
                        self.execute_move(mt.movement);
                    },
                }
            }
            proof {
                assert(drain_model(self.model(), ticks) == self.model());
            }
        } else {
            self.move_queue.clear();
            let full_lines = self.pf.locked_lines();
            let ghost grid0 = old(self).pf.grid();
            let ghost w = old(self).pf.width as int;
            let mut i: usize = 0;
            while i < full_lines.len()
                invariant
                    self.pf.wf(),
                    self.pf.width == old(self).pf.width,
                    self.pf.height == old(self).pf.height,
                    i <= full_lines@.len(),
                    throw_lines_model(grid0, w, full_lines@, 0) == throw_lines_model(
                        self.pf.grid(),
                        w,
                        full_lines@,
                        i as int,
                    ),
                    self.move_queue.queue@.len() == 0,
                    self.move_queue.last_move_time@ == old(self).move_queue.last_move_time@,
                    self.move_queue.wf(),
                    self.current_figure is None,
                    self.game_over == old(self).game_over,
                    self.next_figure == old(self).next_figure,
                    self.available_figures == old(self).available_figures,
                    self.down_step_time == old(self).down_step_time,
                decreases full_lines@.len() - i,
            {
                let line = full_lines[i];
                self.pf.throw_line(line);
                i = i + 1;
            }
            proof {
                assert(throw_lines_model(grid0, w, full_lines@, 0) == self.pf.grid());
            }
            let new_figure = self.next_figure.duplicate();
            let new_pos = Position::new(((self.pf.width() / 2 - 1) as i32, 0, 0));
            let coll = new_figure.test_collision(&self.pf, new_pos);
            proof {
                lemma_collides_model(self.pf, new_figure, new_pos);
                assert(fig_view(new_figure) == fig_view(old(self).next_figure));
            }
            if coll {
                self.game_over = true;
            } else {
                let idx = Self::randomize_figure(&self.available_figures);
                let next = self.available_figures[idx].duplicate();
                self.next_figure = next;
                self.current_figure = Option::Some((new_figure, new_pos));
                proof {
                    assert(fig_view(self.next_figure) == fig_view(
                        old(self).available_figures@[idx as int],
                    ));
                }
            }
        }
    }
}

} // verus!
