//! Games: a rule and a board, advanced generation by generation.

use vstd::prelude::*;

use crate::board::{board_text, Board};
use crate::position::{
    is_neighbour, lemma_moore_neighbours, lemma_neighbour_symmetric, moore_neighbours, Coordinate,
    Position,
};
use crate::rule::Rule;

verus! {

/// The number of the positions `ns` that are live in `cells`.
pub open spec fn live_count<T: Coordinate>(cells: Set<Position<T>>, ns: Seq<Position<T>>) -> nat
    decreases ns.len(),
{
    if ns.len() == 0 {
        0
    } else {
        live_count(cells, ns.drop_last()) + if cells.contains(ns.last()) {
            1nat
        } else {
            0nat
        }
    }
}

/// The number of live cells among the Moore neighbours of `p`.
pub open spec fn live_neighbour_count<T: Coordinate>(cells: Set<Position<T>>, p: Position<T>) -> nat {
    live_count(cells, moore_neighbours(p))
}

/// Whether the cell at `p` is live in the generation after `cells` under `rule`: a
/// live cell survives when the rule says so for its number of live neighbours; a
/// dead cell with at least one live neighbour is born when the rule says so.
pub open spec fn live_next<T: Coordinate>(rule: Rule, cells: Set<Position<T>>, p: Position<T>) -> bool {
    let n = live_neighbour_count(cells, p);
    if cells.contains(p) {
        rule.spec_is_survive(n as int)
    } else {
        n > 0 && rule.spec_is_born(n as int)
    }
}

/// The live cells of the generation after `cells` under `rule`.
pub open spec fn next_generation<T: Coordinate>(rule: Rule, cells: Set<Position<T>>) -> Set<
    Position<T>,
> {
    Set::new(|p: Position<T>| live_next(rule, cells, p))
}

/// At most one per position is counted.
pub proof fn lemma_live_count_bound<T: Coordinate>(cells: Set<Position<T>>, ns: Seq<Position<T>>)
    ensures
        live_count(cells, ns) <= ns.len(),
        live_count(cells, ns) > 0 <==> exists|j: int| 0 <= j < ns.len() && cells.contains(#[trigger] ns[j]),
    decreases ns.len(),
{
    if ns.len() > 0 {
        let init = ns.drop_last();
        lemma_live_count_bound(cells, init);
        if exists|j: int| 0 <= j < ns.len() && cells.contains(#[trigger] ns[j]) {
            let j = choose|j: int| 0 <= j < ns.len() && cells.contains(#[trigger] ns[j]);
            if j < ns.len() - 1 {
                assert(cells.contains(init[j]));
            }
        }
        if exists|j: int| 0 <= j < init.len() && cells.contains(#[trigger] init[j]) {
            let j = choose|j: int| 0 <= j < init.len() && cells.contains(#[trigger] init[j]);
            assert(cells.contains(ns[j]));
        }
    }
}

/// A cell has a live Moore neighbour exactly when it is a Moore neighbour of a live cell.
pub proof fn lemma_has_live_neighbour<T: Coordinate>(cells: Set<Position<T>>, q: Position<T>)
    ensures
        live_neighbour_count(cells, q) > 0 <==> exists|p: Position<T>|
            cells.contains(p) && #[trigger] moore_neighbours(p).contains(q),
{
    lemma_live_count_bound(cells, moore_neighbours(q));
    if live_neighbour_count(cells, q) > 0 {
        let j = choose|j: int|
            0 <= j < moore_neighbours(q).len() && cells.contains(#[trigger] moore_neighbours(q)[j]);
        let p = moore_neighbours(q)[j];
        lemma_neighbour_symmetric(p, q);
        assert(moore_neighbours(q).contains(p));
    }
    if exists|p: Position<T>| cells.contains(p) && #[trigger] moore_neighbours(p).contains(q) {
        let p = choose|p: Position<T>| cells.contains(p) && #[trigger] moore_neighbours(p).contains(q);
        lemma_neighbour_symmetric(p, q);
        let j = choose|j: int| 0 <= j < moore_neighbours(q).len() && moore_neighbours(q)[j] == p;
        assert(cells.contains(moore_neighbours(q)[j]));
    }
}

/// A game: a rule and the board of its current generation.
#[derive(Clone, Debug)]
pub struct Game<T: Coordinate> {
    rule: Rule,
    curr_board: Board<T>,
    prev_board: Board<T>,
}

/// The number of the live cells among the Moore neighbours of `position`.
fn live_neighbour_count_of<T: Coordinate>(board: &Board<T>, position: &Position<T>) -> (n: usize)
    ensures
        n == live_neighbour_count(board@, *position),
        n <= 8,
{
    let ns = position.moore_neighborhood_positions();
    let mut n: usize = 0;
    proof {
        lemma_live_count_bound(board@, ns@);
        crate::position::lemma_moore_len(*position);
    }
    for k in 0..ns.len()
        invariant
            n == live_count(board@, ns@.take(k as int)),
            n <= k,
            ns@.len() <= 8,
    {
        assert(ns@.take(k + 1).drop_last() == ns@.take(k as int));
        if board.get(&ns[k]) {
            n += 1;
        }
    }
    assert(ns@.take(ns.len() as int) == ns@);
    n
}

impl<T: Coordinate> Game<T> {
    /// The rule of the game.
    pub closed spec fn spec_rule(self) -> Rule {
        self.rule
    }

    /// The board of the current generation.
    pub closed spec fn spec_board(self) -> Board<T> {
        self.curr_board
    }

    /// Creates a game from a rule and the board of its first generation.
    pub fn new(rule: Rule, board: Board<T>) -> (game: Self)
        ensures
            game.spec_rule() == rule,
            game.spec_board() == board,
    {
        Game { rule, curr_board: board, prev_board: Board::new() }
    }

    /// Returns the rule.
    pub fn rule(&self) -> (r: &Rule)
        ensures
            *r == self.spec_rule(),
    {
        &self.rule
    }

    /// Returns the board of the current generation.
    pub fn board(&self) -> (b: &Board<T>)
        ensures
            *b == self.spec_board(),
    {
        &self.curr_board
    }

    /// Advances the game by one generation.
    pub fn advance(&mut self)
        ensures
            final(self).spec_rule() == old(self).spec_rule(),
            final(self).spec_board()@ == next_generation(
                old(self).spec_rule(),
                old(self).spec_board()@,
            ),
    {
        std::mem::swap(&mut self.curr_board, &mut self.prev_board);
        self.curr_board.clear();
        let ghost prev = self.prev_board@;
        assert(prev == old(self).curr_board@);
        let live = self.prev_board.iter();
        // The dead cells around the live ones are the candidates for birth.
        for i in 0..live.len()
            invariant
                live@.to_set() == prev,
                self.prev_board@ == prev,
                self.rule == old(self).rule,
                forall|q: Position<T>|
                    #![trigger self.curr_board@.contains(q)]
                    self.curr_board@.contains(q) <==> !prev.contains(q) && exists|j: int|
                        0 <= j < i && #[trigger] moore_neighbours(live@[j]).contains(q),
        {
            let ns = live[i].moore_neighborhood_positions();
            let ghost before = self.curr_board@;
            for k in 0..ns.len()
                invariant
                    self.prev_board@ == prev,
                self.rule == old(self).rule,
                    ns@ == moore_neighbours(live@[i as int]),
                    forall|q: Position<T>|
                        #![trigger self.curr_board@.contains(q)]
                        self.curr_board@.contains(q) <==> before.contains(q) || (!prev.contains(q)
                            && ns@.take(k as int).contains(q)),
            {
                let q = ns[k];
                if !self.prev_board.get(&q) {
                    self.curr_board.set(&q, true);
                }
                proof {
                    assert(ns@.take(k + 1) == ns@.take(k as int).push(q));
                    assert forall|r: Position<T>| #[trigger]
                        self.curr_board@.contains(r) <==> before.contains(r) || (!prev.contains(r)
                            && ns@.take(k + 1).contains(r)) by {
                        vstd::seq_lib::lemma_seq_contains_after_push(ns@.take(k as int), q, r);
                    }
                }
            }
            proof {
                assert(ns@.take(ns.len() as int) == ns@);
                assert forall|q: Position<T>| #[trigger]
                    self.curr_board@.contains(q) <==> !prev.contains(q) && exists|j: int|
                        0 <= j < i + 1 && #[trigger] moore_neighbours(live@[j]).contains(q) by {
                    if !prev.contains(q) && moore_neighbours(live@[i as int]).contains(q) {
                        assert(ns@.contains(q));
                    }
                    if exists|j: int|
                        0 <= j < i + 1 && #[trigger] moore_neighbours(live@[j]).contains(q) {
                        let j = choose|j: int|
                            0 <= j < i + 1 && #[trigger] moore_neighbours(live@[j]).contains(q);
                        if j < i {
                            assert(exists|j: int|
                                0 <= j < i && #[trigger] moore_neighbours(live@[j]).contains(q));
                        }
                    }
                }
            }
        }
        // Candidates: the dead cells with a live neighbour.
        let ghost candidates = self.curr_board@;
        proof {
            assert forall|q: Position<T>| #[trigger]
                candidates.contains(q) <==> !prev.contains(q) && live_neighbour_count(prev, q)
                    > 0 by {
                lemma_has_live_neighbour(prev, q);
                if exists|p: Position<T>| prev.contains(p) && #[trigger] moore_neighbours(p).contains(q) {
                    let p = choose|p: Position<T>|
                        prev.contains(p) && #[trigger] moore_neighbours(p).contains(q);
                    assert(live@.to_set().contains(p));
                    let j = choose|j: int| 0 <= j < live@.len() && live@[j] == p;
                    assert(moore_neighbours(live@[j]).contains(q));
                }
                if exists|j: int|
                    0 <= j < live@.len() && #[trigger] moore_neighbours(live@[j]).contains(q) {
                    let j = choose|j: int|
                        0 <= j < live@.len() && #[trigger] moore_neighbours(live@[j]).contains(q);
                    assert(live@.to_set().contains(live@[j]));
                    assert(prev.contains(live@[j]));
                }
            }
        }
        // Keep the candidates that are born.
        let cands = self.curr_board.iter();
        for i in 0..cands.len()
            invariant
                cands@.to_set() == candidates,
                cands@.no_duplicates(),
                self.prev_board@ == prev,
                self.rule == old(self).rule,
                forall|q: Position<T>|
                    #![trigger self.curr_board@.contains(q)]
                    self.curr_board@.contains(q) ==> candidates.contains(q),
                forall|j: int|
                    0 <= j < i ==> (#[trigger] self.curr_board@.contains(cands@[j])
                        <==> self.rule.spec_is_born(live_neighbour_count(prev, cands@[j]) as int)),
                forall|j: int| i <= j < cands@.len() ==> #[trigger] self.curr_board@.contains(cands@[j]),
        {
            let q = cands[i];
            let n = live_neighbour_count_of(&self.prev_board, &q);
            if !self.rule.is_born(n) {
                let ghost before = self.curr_board@;
                self.curr_board.set(&q, false);
                assert(self.curr_board@ == before.remove(q));
                assert forall|j: int| i < j < cands@.len() implies #[trigger] self.curr_board@.contains(
                    cands@[j],
                ) by {
                    assert(cands@[j] != cands@[i as int]);
                }
                assert forall|j: int| 0 <= j < i implies (#[trigger] self.curr_board@.contains(cands@[j])
                    <==> self.rule.spec_is_born(live_neighbour_count(prev, cands@[j]) as int)) by {
                    assert(cands@[j] != cands@[i as int]);
                }
            }
        }
        let ghost born = self.curr_board@;
        proof {
            assert forall|q: Position<T>| #[trigger]
                born.contains(q) <==> candidates.contains(q) && self.rule.spec_is_born(
                    live_neighbour_count(prev, q) as int,
                ) by {
                if candidates.contains(q) {
                    assert(cands@.to_set().contains(q));
                    let j = choose|j: int| 0 <= j < cands@.len() && cands@[j] == q;
                    assert(self.curr_board@.contains(cands@[j]) <==> self.rule.spec_is_born(
                        live_neighbour_count(prev, cands@[j]) as int,
                    ));
                }
            }
        }
        // Add the live cells that survive.
        for i in 0..live.len()
            invariant
                live@.to_set() == prev,
                self.prev_board@ == prev,
                self.rule == old(self).rule,
                forall|q: Position<T>|
                    #![trigger self.curr_board@.contains(q)]
                    self.curr_board@.contains(q) <==> born.contains(q) || exists|j: int|
                        0 <= j < i && live@[j] == q && self.rule.spec_is_survive(
                            live_neighbour_count(prev, q) as int,
                        ),
        {
            let p = live[i];
            let n = live_neighbour_count_of(&self.prev_board, &p);
            if self.rule.is_survive(n) {
                self.curr_board.set(&p, true);
            }
            proof {
                assert forall|q: Position<T>| #[trigger]
                    self.curr_board@.contains(q) <==> born.contains(q) || exists|j: int|
                        0 <= j < i + 1 && live@[j] == q && self.rule.spec_is_survive(
                            live_neighbour_count(prev, q) as int,
                        ) by {
                    if q == p && self.rule.spec_is_survive(live_neighbour_count(prev, q) as int) {
                        assert(live@[i as int] == q);
                    }
                    if exists|j: int|
                        0 <= j < i + 1 && live@[j] == q && self.rule.spec_is_survive(
                            live_neighbour_count(prev, q) as int,
                        ) {
                        let j = choose|j: int|
                            0 <= j < i + 1 && live@[j] == q && self.rule.spec_is_survive(
                                live_neighbour_count(prev, q) as int,
                            );
                        if j < i {
                            assert(exists|j: int|
                                0 <= j < i && live@[j] == q && self.rule.spec_is_survive(
                                    live_neighbour_count(prev, q) as int,
                                ));
                        }
                    }
                }
            }
        }
        proof {
            let next = next_generation(self.rule, prev);
            assert forall|q: Position<T>| self.curr_board@.contains(q) <==> next.contains(q) by {
                if prev.contains(q) {
                    assert(live@.to_set().contains(q));
                    if self.rule.spec_is_survive(live_neighbour_count(prev, q) as int) {
                        let j = choose|j: int| 0 <= j < live@.len() && live@[j] == q;
                        assert(self.curr_board@.contains(q));
                    }
                    assert(!born.contains(q));
                } else {
                    if exists|j: int|
                        0 <= j < live@.len() && live@[j] == q && self.rule.spec_is_survive(
                            live_neighbour_count(prev, q) as int,
                        ) {
                        let j = choose|j: int|
                            0 <= j < live@.len() && live@[j] == q && self.rule.spec_is_survive(
                                live_neighbour_count(prev, q) as int,
                            );
                        assert(live@.to_set().contains(live@[j]));
                    }
                }
            }
            assert(self.curr_board@ =~= next);
        }
    }

    /// The text of the current board (see `Board::to_string`).
    pub fn to_string(&self) -> (res: String)
        ensures
            res@ == board_text(self.spec_board()@),
    {
        self.curr_board.to_string()
    }
}

impl<T: Coordinate> Game<T> {
    /// The board of the generation before the current one (empty before the first
    /// advance).
    pub closed spec fn spec_previous_board(self) -> Board<T> {
        self.prev_board
    }
}

impl<T: Coordinate> PartialEq for Game<T> {
    fn eq(&self, other: &Self) -> (res: bool) {
        self.rule == other.rule && self.curr_board == other.curr_board && self.prev_board
            == other.prev_board
    }
}

impl<T: Coordinate> vstd::std_specs::cmp::PartialEqSpecImpl for Game<T> {
    open spec fn obeys_eq_spec() -> bool {
        true
    }

    open spec fn eq_spec(&self, other: &Self) -> bool {
        &&& self.spec_rule().birth_table() == other.spec_rule().birth_table()
        &&& self.spec_rule().survival_table() == other.spec_rule().survival_table()
        &&& self.spec_board()@ == other.spec_board()@
        &&& self.spec_previous_board()@ == other.spec_previous_board()@
    }
}

impl<T: Coordinate> Eq for Game<T> {

}

} // verus!
