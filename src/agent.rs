use vstd::prelude::*;
use crate::door::{first_door, has_door, offset_of, scan};
use crate::explore::{next_direction, reaches_unmapped, shortest_with_first};
use crate::grid::{in_range, step, Coord, Direction, TileKind};
use crate::store::{lemma_merged_keeps, merged, width_of, window_fits, MergePolicy, TileStore};

verus! {

/// What the host reports about the move requested on the previous turn.
#[derive(Clone, Copy, Debug, PartialEq, Eq, Structural)]
pub enum MoveOutcome {
    Succeeded,
    Failed,
    Blocked,
}

/// The one action emitted per turn.
#[derive(Clone, Copy, Debug, PartialEq, Eq, Structural)]
pub enum Action {
    Wait,
    /// Open the door at `target`, an offset from the agent's cell.
    Open { target: Coord },
    MoveTo { direction: Direction, distance: u32 },
}

/// Why a turn could not produce a move or a door opening.
#[derive(Clone, Copy, Debug, PartialEq, Eq, Structural)]
pub enum AgentError {
    /// The window's length is not `(2 * radius + 1)^2`.
    MalformedObservation,
    /// The window or the next step would leave the representable coordinates.
    OutOfRange,
    /// No unmapped cell can be reached over known passable ground.
    ExplorationExhausted,
}

/// The believed position after a reported outcome of the pending move.
pub open spec fn moved(pos: (int, int), pending: Option<Direction>, outcome: MoveOutcome) -> (int, int) {
    match pending {
        Some(d) => if outcome == MoveOutcome::Succeeded {
            step(pos, d)
        } else {
            pos
        },
        None => pos,
    }
}

/// A reported outcome moves the believed position exactly one unit along the
/// axis of the pending direction `d` when the move succeeded, and leaves it
/// unchanged when it did not or when no move was pending.
pub proof fn lemma_position_delta(pos: (int, int), d: Direction, outcome: MoveOutcome)
    ensures
        moved(pos, None, outcome) == pos,
        moved(pos, Some(d), outcome) != pos <==> outcome == MoveOutcome::Succeeded,
        outcome == MoveOutcome::Succeeded ==> {
            let p = moved(pos, Some(d), outcome);
            &&& (d == Direction::North || d == Direction::South) ==> p.0 == pos.0 && (p.1 - pos.1 == 1
                || p.1 - pos.1 == -1)
            &&& (d == Direction::West || d == Direction::East) ==> p.1 == pos.1 && (p.0 - pos.0 == 1
                || p.0 - pos.0 == -1)
        },
{
}

/// The whole persistent state of the agent: its map, its believed position and
/// the move it asked for last.
pub struct Agent {
    pub store: TileStore,
    pub pos: Coord,
    pub pending: Option<Direction>,
    pub policy: MergePolicy,
}

/// What one turn does: `a` is the state before, `b` after, `res` the result.
pub open spec fn turn(
    a: Agent,
    b: Agent,
    window: Seq<TileKind>,
    radius: int,
    outcome: MoveOutcome,
    res: Result<Action, AgentError>,
) -> bool {
    if !in_range(moved(a.pos@, a.pending, outcome)) {
        res == Err::<Action, AgentError>(AgentError::OutOfRange) && b == a
    } else {
        &&& b.pos@ == moved(a.pos@, a.pending, outcome)
        &&& b.policy == a.policy
        &&& if window.len() != width_of(radius) * width_of(radius) {
            &&& res == Err::<Action, AgentError>(AgentError::MalformedObservation)
            &&& b.pending is None
            &&& b.store == a.store
        } else if has_door(window, radius) {
            &&& b.store == a.store
            &&& b.pending is None
            &&& res matches Ok(Action::Open { target }) && exists|i: int|
                #[trigger] first_door(window, radius, i) && target@ == offset_of(i, radius)
        } else if !window_fits(b.pos@, radius) {
            &&& res == Err::<Action, AgentError>(AgentError::OutOfRange)
            &&& b.pending is None
            &&& b.store == a.store
        } else {
            &&& b.store@ == merged(a.store@, window, radius, b.pos@, a.policy)
            &&& match res {
                Ok(Action::MoveTo { direction, distance }) => {
                    &&& distance == 1
                    &&& b.pending == Some(direction)
                    &&& exists|route: Seq<Direction>| #[trigger] shortest_with_first(b.store@, b.pos@, route, direction)
                },
                Err(AgentError::ExplorationExhausted) => {
                    &&& b.pending is None
                    &&& forall|route: Seq<Direction>| !#[trigger] reaches_unmapped(b.store@, b.pos@, route)
                },
                _ => false,
            }
        }
    }
}

/// Under a policy that keeps first observations, a turn of any kind leaves
/// every recorded tile in place.
pub proof fn lemma_turn_keeps_known(
    a: Agent,
    b: Agent,
    window: Seq<TileKind>,
    radius: int,
    outcome: MoveOutcome,
    res: Result<Action, AgentError>,
    c: (int, int),
)
    requires
        turn(a, b, window, radius, outcome, res),
        a.policy == MergePolicy::KeepFirst || a.policy == MergePolicy::SkipVoid,
        a.store@.contains_key(c),
    ensures
        b.store@.contains_key(c),
        b.store@[c] == a.store@[c],
{
    lemma_merged_keeps(a.store@, window, radius, b.pos@, a.policy, c);
}

/// The action sent to the host for a turn's result.
pub open spec fn action_of(res: Result<Action, AgentError>) -> Action {
    match res {
        Ok(a) => a,
        Err(_) => Action::Wait,
    }
}

impl Agent {
    /// A fresh agent at the origin, with an empty map and no pending move.
    pub fn new(policy: MergePolicy) -> (r: Agent)
        ensures
            r.store@ == Map::<(int, int), TileKind>::empty(),
            r.pos@ == (0int, 0int),
            r.pending is None,
            r.policy == policy,
    {
        Agent { store: TileStore::new(), pos: Coord { x: 0, y: 0 }, pending: None, policy }
    }

    /// Answers the host's initial parameters; diagonal moves are never used,
    /// so every configuration is accepted.
    pub fn initialize(&mut self, diagonal_moves: bool) -> (r: bool)
        ensures
            r,
            *final(self) == *old(self),
    {
        true
    }

    /// Reconciles the believed position with the outcome of the pending move:
    /// one step along it on success, no change otherwise. The pending move is cleared.
    pub fn update_position(&mut self, outcome: MoveOutcome)
        requires
            in_range(moved(old(self).pos@, old(self).pending, outcome)),
        ensures
            final(self).pos@ == moved(old(self).pos@, old(self).pending, outcome),
            final(self).pending is None,
            final(self).store == old(self).store,
            final(self).policy == old(self).policy,
    {
        if outcome == MoveOutcome::Succeeded {
            match self.pending {
                Some(Direction::North) => self.pos = Coord { x: self.pos.x, y: self.pos.y - 1 },
                Some(Direction::South) => self.pos = Coord { x: self.pos.x, y: self.pos.y + 1 },
                Some(Direction::West) => self.pos = Coord { x: self.pos.x - 1, y: self.pos.y },
                Some(Direction::East) => self.pos = Coord { x: self.pos.x + 1, y: self.pos.y },
                None => {},
            }
        }
        self.pending = None;
    }

    /// One turn: reconciles the position with the reported outcome, then
    /// rejects a window of the wrong length, opens an adjacent closed door if
    /// the window shows one, and otherwise merges the window into the map and
    /// steps towards the nearest unmapped cell.
    pub fn tick(&mut self, window: &Vec<TileKind>, radius: u16, outcome: MoveOutcome) -> (r: Result<Action, AgentError>)
        ensures
            turn(*old(self), *final(self), window@, radius as int, outcome, r),
    {
        if outcome == MoveOutcome::Succeeded {
            let fits = match self.pending {
                Some(Direction::North) => self.pos.y > i64::MIN,
                Some(Direction::South) => self.pos.y < i64::MAX,
                Some(Direction::West) => self.pos.x > i64::MIN,
                Some(Direction::East) => self.pos.x < i64::MAX,
                None => true,
            };
            if !fits {
                return Err(AgentError::OutOfRange);
            }
        }
        self.update_position(outcome);
        let w: u128 = 2 * radius as u128 + 1;
        assert(w * w <= 0x1_0000_0000_0000_0000) by (nonlinear_arith)
            requires
                w <= 0x2_0000,
        ;
        if window.len() as u128 != w * w {
            return Err(AgentError::MalformedObservation);
        }
        if let Some(target) = scan(window, radius) {
            return Ok(Action::Open { target });
        }
        let reach: i64 = radius as i64;
        if self.pos.x < i64::MIN + reach || self.pos.x > i64::MAX - reach || self.pos.y < i64::MIN + reach
            || self.pos.y > i64::MAX - reach {
            return Err(AgentError::OutOfRange);
        }
        let ghost a = *old(self);
        self.store.merge(window, radius, self.pos, self.policy);
        match next_direction(&self.store, self.pos) {
            Ok(direction) => {
                let ghost before = *self;
                self.pending = Some(direction);
                assert(self.store@ == before.store@ && self.pos@ == before.pos@);
                Ok(Action::MoveTo { direction, distance: 1 })
            },
            Err(_) => Err(AgentError::ExplorationExhausted),
        }
    }

    /// One turn as the host sees it: the action of `tick`, or `Wait` where
    /// `tick` reports an error.
    pub fn decide(&mut self, window: &Vec<TileKind>, radius: u16, outcome: MoveOutcome) -> (r: Action)
        ensures
            exists|res: Result<Action, AgentError>|
                turn(*old(self), *final(self), window@, radius as int, outcome, res) && r == #[trigger] action_of(res),
    {
        let res = self.tick(window, radius, outcome);
        let r = match res {
            Ok(a) => a,
            Err(_) => Action::Wait,
        };
        assert(r == action_of(res));
        r
    }
}

} // verus!
