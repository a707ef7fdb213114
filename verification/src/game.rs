//! The core game interface.
//!
//! Every supported game implements [`Game`]. The trait exposes only
//! rule-level facts: legal moves, state transitions, terminal outcomes,
//! hashing, raw feature encoding, and stable action identifiers.
//!
//! Each game describes its states by a mathematical model (`Model`) and
//! states its rules as spec functions over that model; the executable
//! methods are tied to those spec functions by their contracts.

use vstd::prelude::*;

verus! {

/// One of the two players in an alternating-turn zero-sum game.
///
/// `One` is the player who moves first from the initial state.
#[derive(Clone, Copy, PartialEq, Eq, Debug, Hash, Structural)]
pub enum Player {
    One,
    Two,
}

impl Player {
    /// The other player.
    pub open spec fn other(self) -> Player {
        match self {
            Player::One => Player::Two,
            Player::Two => Player::One,
        }
    }

    pub fn opponent(self) -> (p: Player)
        ensures
            p == self.other(),
    {
        match self {
            Player::One => Player::Two,
            Player::Two => Player::One,
        }
    }
}

/// Terminal result of a finished game.
#[derive(Clone, Copy, PartialEq, Eq, Debug, Hash, Structural)]
pub enum Outcome {
    Win(Player),
    Draw,
}

/// A sparse feature identifier.
pub type FeatureId = u32;

/// A stable integer identifier for a move, independent of move ordering.
pub type ActionId = u32;

/// A deterministic, two-player, alternating-turn, perfect-information,
/// zero-sum game.
///
/// The rules are spec functions over `Model`, the mathematical view of a
/// state. `moves` lists the legal moves in generation order, `next` is
/// the state after a move, `undo` the record that `make_move` hands back
/// and `restore` what `unmake_move` rebuilds from it.
pub trait Game: Sized {
    type State;
    type Move: Copy;
    type Undo;
    type Model;
    /// The mathematical view of an undo record.
    type UndoModel;

    /// The rules object is well formed (established by its constructor).
    spec fn wf(&self) -> bool;

    /// The mathematical view of an executable state.
    spec fn model(&self, s: &Self::State) -> Self::Model;

    /// States that can arise in play (the game's state invariant).
    spec fn valid(&self, m: Self::Model) -> bool;

    spec fn initial(&self) -> Self::Model;

    spec fn side(&self, m: Self::Model) -> Player;

    /// `Some(outcome)` iff the position is terminal.
    spec fn result(&self, m: Self::Model) -> Option<Outcome>;

    spec fn key(&self, m: Self::Model) -> u64;

    spec fn moves(&self, m: Self::Model) -> Seq<Self::Move>;

    spec fn next(&self, m: Self::Model, mv: Self::Move) -> Self::Model;

    spec fn undo_model(&self, u: &Self::Undo) -> Self::UndoModel;

    spec fn undo(&self, m: Self::Model, mv: Self::Move) -> Self::UndoModel;

    spec fn restore(&self, m: Self::Model, mv: Self::Move, u: Self::UndoModel) -> Self::Model;

    spec fn features(&self, m: Self::Model) -> Seq<FeatureId>;

    spec fn action(&self, m: Self::Model, mv: Self::Move) -> ActionId;

    /// Does this move capture material or promote?
    spec fn tactical(&self, m: Self::Model, mv: Self::Move) -> bool;

    /// Positions never repeat: `height` strictly decreases along every
    /// move. Games without this property report `false`.
    spec fn acyclic(&self) -> bool;

    spec fn height(&self, m: Self::Model) -> nat;

    /// The initial position is a valid state.
    proof fn lemma_initial_valid(&self)
        requires
            self.wf(),
        ensures
            self.valid(self.initial()),
    ;

    /// A legal move leads to a valid state, and unmaking it with the
    /// record that making it produced gives back the state it started from.
    proof fn lemma_step(&self, m: Self::Model, mv: Self::Move)
        requires
            self.wf(),
            self.valid(m),
            self.result(m) is None,
            self.moves(m).contains(mv),
        ensures
            self.valid(self.next(m, mv)),
            self.restore(self.next(m, mv), mv, self.undo(m, mv)) == m,
    ;

    /// Non-terminal positions have a legal move.
    proof fn lemma_live_has_moves(&self, m: Self::Model)
        requires
            self.wf(),
            self.valid(m),
            self.result(m) is None,
        ensures
            self.moves(m).len() > 0,
    ;

    /// In an acyclic game every legal move lowers the height.
    proof fn lemma_height_decreases(&self, m: Self::Model, mv: Self::Move)
        requires
            self.wf(),
            self.valid(m),
            self.result(m) is None,
            self.moves(m).contains(mv),
        ensures
            self.acyclic() ==> self.height(self.next(m, mv)) < self.height(m),
    ;

    /// Heights fit the machine's ply counters.
    proof fn lemma_height_bounded(&self, m: Self::Model)
        requires
            self.wf(),
            self.valid(m),
        ensures
            self.height(m) <= 0xffff_ffff,
    ;

    /// Move lists fit the machine's `u32` indices.
    proof fn lemma_moves_bounded(&self, m: Self::Model)
        requires
            self.wf(),
            self.valid(m),
        ensures
            self.moves(m).len() <= 0xffff_ffff,
    ;

    fn initial_state(&self) -> (s: Self::State)
        requires
            self.wf(),
        ensures
            self.model(&s) == self.initial(),
    ;

    fn side_to_move(&self, state: &Self::State) -> (p: Player)
        requires
            self.wf(),
            self.valid(self.model(state)),
        ensures
            p == self.side(self.model(state)),
    ;

    /// Clear `moves` and append all legal moves.
    fn legal_moves(&self, state: &Self::State, moves: &mut Vec<Self::Move>)
        requires
            self.wf(),
            self.valid(self.model(state)),
        ensures
            final(moves)@ == self.moves(self.model(state)),
    ;

    fn make_move(&self, state: &mut Self::State, mv: Self::Move) -> (u: Self::Undo)
        requires
            self.wf(),
            self.valid(self.model(old(state))),
            self.result(self.model(old(state))) is None,
            self.moves(self.model(old(state))).contains(mv),
        ensures
            self.model(final(state)) == self.next(self.model(old(state)), mv),
            self.undo_model(&u) == self.undo(self.model(old(state)), mv),
    ;

    /// Undo `make_move`: `state` must be the result of playing `mv` from
    /// a valid live position `p`, and `u` the record that play returned.
    fn unmake_move(&self, state: &mut Self::State, mv: Self::Move, u: Self::Undo)
        requires
            self.wf(),
            exists|p: Self::Model|
                #![trigger self.next(p, mv)]
                {
                    &&& self.valid(p)
                    &&& self.result(p) is None
                    &&& self.moves(p).contains(mv)
                    &&& self.next(p, mv) == self.model(old(state))
                    &&& self.undo(p, mv) == self.undo_model(&u)
                },
        ensures
            self.model(final(state)) == self.restore(self.model(old(state)), mv, self.undo_model(&u)),
    ;

    fn outcome(&self, state: &Self::State) -> (o: Option<Outcome>)
        requires
            self.wf(),
            self.valid(self.model(state)),
        ensures
            o == self.result(self.model(state)),
    ;

    fn position_key(&self, state: &Self::State) -> (k: u64)
        requires
            self.wf(),
            self.valid(self.model(state)),
        ensures
            k == self.key(self.model(state)),
    ;

    /// Clear `features` and append the active sparse feature IDs.
    fn encode_features(&self, state: &Self::State, features: &mut Vec<FeatureId>)
        requires
            self.wf(),
            self.valid(self.model(state)),
        ensures
            final(features)@ == self.features(self.model(state)),
    ;

    /// Stable action ID of a legal move in this state.
    fn action_id(&self, state: &Self::State, mv: Self::Move) -> (a: ActionId)
        requires
            self.wf(),
            self.valid(self.model(state)),
            self.moves(self.model(state)).contains(mv),
        ensures
            a == self.action(self.model(state), mv),
    ;

    fn is_tactical(&self, state: &Self::State, mv: Self::Move) -> (t: bool)
        requires
            self.wf(),
            self.valid(self.model(state)),
            self.moves(self.model(state)).contains(mv),
        ensures
            t == self.tactical(self.model(state), mv),
    ;

    /// A copy of `state`.
    fn clone_state(&self, state: &Self::State) -> (c: Self::State)
        requires
            self.wf(),
            self.valid(self.model(state)),
        ensures
            self.model(&c) == self.model(state),
    ;

    /// Are two moves the same move?
    fn same_move(&self, a: Self::Move, b: Self::Move) -> (r: bool)
        ensures
            r == (a == b),
    ;
}


/// The position reached by playing `path` from `m`, if every move is
/// legal in a live position along the way.
pub open spec fn play<G: Game>(g: &G, m: G::Model, path: Seq<G::Move>) -> Option<G::Model>
    decreases path.len(),
{
    if path.len() == 0 {
        Some(m)
    } else if g.result(m) is None && g.moves(m).contains(path[0]) {
        play(g, g.next(m, path[0]), path.drop_first())
    } else {
        None
    }
}

/// Positions reachable from the initial position by legal play.
#[verifier::opaque]
pub open spec fn reachable<G: Game>(g: &G, m: G::Model) -> bool {
    exists|path: Seq<G::Move>| play(g, g.initial(), path) == Some(m)
}

/// Playing one more legal move extends a play.
pub proof fn lemma_play_push<G: Game>(g: &G, m: G::Model, path: Seq<G::Move>, mv: G::Move, last: G::Model)
    requires
        play(g, m, path) == Some(last),
        g.result(last) is None,
        g.moves(last).contains(mv),
    ensures
        play(g, m, path.push(mv)) == Some(g.next(last, mv)),
    decreases path.len(),
{
    if path.len() == 0 {
        assert(m == last);
        assert(path.push(mv)[0] == mv);
        assert(path.push(mv).drop_first() =~= Seq::<G::Move>::empty());
        assert(play(g, g.next(m, mv), Seq::<G::Move>::empty()) == Some(g.next(m, mv)));
    } else {
        assert(path.push(mv)[0] == path[0]);
        assert(path.push(mv).drop_first() =~= path.drop_first().push(mv));
        lemma_play_push(g, g.next(m, path[0]), path.drop_first(), mv, last);
    }
}

} // verus!
