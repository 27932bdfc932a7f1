//! The breadth-first search for a shortest solution.

use crate::action::{Action, ActionSequence};
use crate::board::{
    lemma_lost_stays_lost, lemma_won_not_lost, spec_action, spec_lost, spec_move_towards,
    spec_won, spec_zero_walk_endings, Board, BoardView, Visited,
};
use crate::marks::ShortcutCache;
use crate::optimal::{lemma_solve_shortest, on_grid};
use crate::values::Point;
use rayon::iter::{IntoParallelRefIterator, ParallelIterator};
use vstd::prelude::*;

verus! {

/// One node of the search as plain values: the board, the moves that led to
/// it, and the occupied cell that a walk over empty cells is heading for.
pub struct StepView {
    pub board: BoardView,
    pub moves: Seq<Action>,
    pub pending: Option<Point>,
}

/// One node of the search.
#[derive(Clone, Copy)]
pub struct SolveStep {
    board: Board,
    seq: ActionSequence,
    zero_path_end: Option<Point>,
}

/// One way to go on from a node: a single move, or a step of the walk over
/// empty cells towards the given occupied cell.
#[derive(Clone, Copy, PartialEq, Eq, Debug)]
pub enum Choice {
    /// Make this one move.
    Free(Action),
    /// Take one step of the shortest walk over empty cells towards this occupied cell.
    ZeroPath(Point),
}

impl View for SolveStep {
    type V = StepView;

    closed spec fn view(&self) -> StepView {
        StepView { board: self.board@, moves: self.seq@, pending: self.zero_path_end }
    }
}

/// The cell that a choice names lies on the grid.
pub open spec fn choice_on_grid(c: Choice) -> bool {
    match c {
        Choice::Free(_) => true,
        Choice::ZeroPath(end) => end.spec_inside(),
    }
}

/// The ways to go on from a node. On an occupied cell: each of the four moves.
/// On an empty cell with a walk under way: that walk. On an empty cell
/// otherwise: one walk for each occupied cell that a walk leads to.
pub open spec fn spec_choices(s: StepView) -> Seq<Choice> {
    if s.board.cells[s.board.pos.spec_index()] == 0 {
        match s.pending {
            Some(end) => seq![Choice::ZeroPath(end)],
            None => {
                let ends = spec_zero_walk_endings(s.board);
                Seq::new(ends.len(), |i: int| Choice::ZeroPath(ends[i]))
            },
        }
    } else {
        seq![
            Choice::Free(Action::UP),
            Choice::Free(Action::DOWN),
            Choice::Free(Action::LEFT),
            Choice::Free(Action::RIGHT),
        ]
    }
}

/// The node that a choice leads to, or `None` where the choice has no move.
/// A walk goes on until the player stands on its end or the end is empty.
pub open spec fn spec_apply(s: StepView, c: Choice) -> Option<StepView> {
    match c {
        Choice::Free(a) => match spec_action(s.board, a) {
            None => None,
            Some(b) => Some(StepView { board: b, moves: s.moves.push(a), pending: None }),
        },
        Choice::ZeroPath(end) => match spec_move_towards(s.board, end) {
            None => None,
            Some((a, b)) => Some(
                StepView {
                    board: b,
                    moves: s.moves.push(a),
                    pending: if b.pos == end || b.cells[end.spec_index()] == 0 {
                        None
                    } else {
                        Some(end)
                    },
                },
            ),
        },
    }
}

/// A new node stays in the search: its board was not expanded before and is not lost.
pub open spec fn survives(n: StepView, visited: Set<BoardView>) -> bool {
    !visited.contains(n.board) && !spec_lost(n.board.cells)
}

/// The nodes that the given choices lead to from `s` and that stay in the
/// search, in the order of the choices.
pub open spec fn expand_choices(s: StepView, choices: Seq<Choice>, visited: Set<BoardView>) -> Seq<
    StepView,
>
    decreases choices.len(),
{
    if choices.len() == 0 {
        Seq::empty()
    } else {
        let rest = expand_choices(s, choices.drop_last(), visited);
        match spec_apply(s, choices.last()) {
            Some(n) => if survives(n, visited) {
                rest.push(n)
            } else {
                rest
            },
            None => rest,
        }
    }
}

/// The nodes that follow `s` in the search.
pub open spec fn spec_expand(s: StepView, visited: Set<BoardView>) -> Seq<StepView> {
    expand_choices(s, spec_choices(s), visited)
}

/// The nodes that follow the nodes of `steps`, in the order of `steps`.
pub open spec fn spec_expand_all(steps: Seq<StepView>, visited: Set<BoardView>) -> Seq<StepView>
    decreases steps.len(),
{
    if steps.len() == 0 {
        Seq::empty()
    } else {
        spec_expand_all(steps.drop_last(), visited) + spec_expand(steps.last(), visited)
    }
}

/// The nodes of a list as plain values.
pub open spec fn steps_view(steps: Seq<SolveStep>) -> Seq<StepView> {
    Seq::new(steps.len(), |i: int| steps[i]@)
}

/// The boards of the nodes of a list.
pub open spec fn boards_of(steps: Seq<StepView>) -> Set<BoardView> {
    Set::new(|b: BoardView| exists|i: int| 0 <= i < steps.len() && (#[trigger] steps[i]).board == b)
}

/// The node that a search starts from.
pub open spec fn start_step(board: BoardView) -> StepView {
    StepView { board, moves: Seq::empty(), pending: None }
}

/// The nodes of round `k` of the search from `board`.
#[verifier::opaque]
pub open spec fn spec_frontier(board: BoardView, k: nat) -> Seq<StepView>
    decreases k, 0nat,
{
    if k == 0 {
        seq![start_step(board)]
    } else {
        spec_expand_all(spec_frontier(board, (k - 1) as nat), spec_visited(board, (k - 1) as nat))
    }
}

/// The boards that the search from `board` has expanded before round `k`.
#[verifier::opaque]
pub open spec fn spec_visited(board: BoardView, k: nat) -> Set<BoardView>
    decreases k, 1nat,
{
    if k == 0 {
        Set::empty()
    } else {
        spec_visited(board, (k - 1) as nat).union(
            boards_of(spec_frontier(board, (k - 1) as nat)),
        )
    }
}

/// The moves of the first node of the list whose board is won.
pub open spec fn first_win(steps: Seq<StepView>) -> Option<Seq<Action>>
    decreases steps.len(),
{
    if steps.len() == 0 {
        None
    } else if spec_won(steps[0].board.cells) {
        Some(steps[0].moves)
    } else {
        first_win(steps.drop_first())
    }
}

/// What the search returns when it has done `k` rounds without a win and may
/// do `max` in all.
#[verifier::opaque]
pub open spec fn spec_solve_from(board: BoardView, k: nat, max: nat) -> Option<Seq<Action>>
    decreases max - k,
{
    if k >= max || spec_frontier(board, k).len() == 0 {
        None
    } else {
        match first_win(spec_frontier(board, k + 1)) {
            Some(moves) => Some(moves),
            None => spec_solve_from(board, k + 1, max),
        }
    }
}

/// What the search from `board` returns within `max` moves: no moves for a
/// board that is won, else the moves of the first won node of the first round
/// that holds one.
pub open spec fn spec_solve(board: BoardView, max: nat) -> Option<Seq<Action>> {
    if spec_won(board.cells) {
        Some(Seq::empty())
    } else {
        spec_solve_from(board, 0, max)
    }
}

/// The board that the moves lead to from `board`, or `None` where one of them
/// leaves the grid.
pub open spec fn play(board: BoardView, moves: Seq<Action>) -> Option<BoardView>
    decreases moves.len(),
{
    if moves.len() == 0 {
        Some(board)
    } else {
        match play(board, moves.drop_last()) {
            None => None,
            Some(b) => spec_action(b, moves.last()),
        }
    }
}

/// The moves can all be made from `board` and lead to a won board.
pub open spec fn wins(board: BoardView, moves: Seq<Action>) -> bool {
    match play(board, moves) {
        None => false,
        Some(b) => spec_won(b.cells),
    }
}

impl SolveStep {
    /// A walk that is under way heads for a cell on the grid.
    #[verifier::type_invariant]
    pub closed spec fn wf(&self) -> bool {
        match self.zero_path_end {
            Some(end) => end.spec_inside(),
            None => true,
        }
    }

    /// The node that a search from `board` starts from.
    pub fn new(board: Board) -> (step: Self)
        ensures
            step@ == start_step(board@),
    {
        SolveStep { board, seq: ActionSequence::new(), zero_path_end: None }
    }

    /// The board of the node.
    pub fn board(&self) -> (b: Board)
        ensures
            b@ == self@.board,
    {
        self.board
    }

    /// The moves that led to the node.
    pub fn moves(&self) -> (seq: ActionSequence)
        ensures
            seq@ == self@.moves,
    {
        self.seq
    }

    /// The ways to go on from the node.
    pub fn next_choices(&self, cache: &ShortcutCache) -> (choices: Vec<Choice>)
        ensures
            choices@ == spec_choices(self@),
            forall|i: int| 0 <= i < choices@.len() ==> choice_on_grid(#[trigger] choices@[i]),
    {
        proof {
            use_type_invariant(self);
        }
        let mut choices: Vec<Choice> = Vec::new();
        if self.board.at_zero() {
            // Walk on a zero path to some non-zero cell
            match self.zero_path_end {
                Some(end) => {
                    // Follow the walk that is under way
                    choices.push(Choice::ZeroPath(end));
                },
                None => {
                    // One walk for each ending
                    let ends = self.board.zero_walk_endings(cache);
                    let mut i: usize = 0;
                    while i < ends.len()
                        invariant
                            i <= ends@.len(),
                            choices@.len() == i,
                            forall|j: int| 0 <= j < ends@.len() ==> (#[trigger] ends@[j]).spec_inside(),
                            forall|j: int|
                                0 <= j < i ==> #[trigger] choices@[j] == Choice::ZeroPath(ends@[j]),
                        decreases ends@.len() - i,
                    {
                        choices.push(Choice::ZeroPath(ends[i]));
                        i = i + 1;
                    }
                },
            }
        } else {
            // Walk freely
            choices.push(Choice::Free(Action::UP));
            choices.push(Choice::Free(Action::DOWN));
            choices.push(Choice::Free(Action::LEFT));
            choices.push(Choice::Free(Action::RIGHT));
        }
        assert(choices@ =~= spec_choices(self@));
        choices
    }

    /// The node that `choice` leads to, or `None` where the choice has no move.
    pub fn apply(&self, cache: &ShortcutCache, choice: Choice) -> (next: Option<SolveStep>)
        requires
            self@.moves.len() < ActionSequence::MAX_LENGTH,
            choice_on_grid(choice),
        ensures
            match next {
                Some(n) => spec_apply(self@, choice) == Some(n@),
                None => spec_apply(self@, choice) is None,
            },
    {
        match choice {
            Choice::Free(action) => match self.board.action(action) {
                None => None,
                Some(board) => Some(
                    SolveStep { board, seq: self.seq.add(action), zero_path_end: None },
                ),
            },
            Choice::ZeroPath(end) => match self.board.move_towards(cache, end) {
                None => None,
                Some((action, board)) => Some(
                    SolveStep {
                        board,
                        seq: self.seq.add(action),
                        zero_path_end: if board.at_point(end) || board.cell(end) == 0 {
                            None
                        } else {
                            Some(end)
                        },
                    },
                ),
            },
        }
    }

    /// The nodes that follow this one in the search: what its choices lead
    /// to, without the boards in `visited` and the lost ones.
    pub fn expand(&self, cache: &ShortcutCache, visited: &Visited) -> (next: Vec<SolveStep>)
        requires
            self@.moves.len() < ActionSequence::MAX_LENGTH,
        ensures
            steps_view(next@) == spec_expand(self@, visited@),
    {
        let choices = self.next_choices(cache);
        let mut next: Vec<SolveStep> = Vec::new();
        let mut i: usize = 0;
        assert(choices@.subrange(0, 0) =~= Seq::<Choice>::empty());
        assert(steps_view(next@) =~= Seq::<StepView>::empty());
        while i < choices.len()
            invariant
                i <= choices@.len(),
                self@.moves.len() < ActionSequence::MAX_LENGTH,
                forall|j: int| 0 <= j < choices@.len() ==> choice_on_grid(#[trigger] choices@[j]),
                steps_view(next@) == expand_choices(self@, choices@.subrange(0, i as int), visited@),
            decreases choices@.len() - i,
        {
            let ghost before = next@;
            assert(choices@.subrange(0, i + 1).drop_last() =~= choices@.subrange(0, i as int));
            match self.apply(cache, choices[i]) {
                None => {},
                Some(step) => {
                    if !visited.contains(&step.board) && !step.board.is_lost() {
                        next.push(step);
                        assert(steps_view(next@) =~= steps_view(before).push(step@));
                    }
                },
            }
            i = i + 1;
        }
        assert(choices@.subrange(0, choices@.len() as int) =~= choices@);
        next
    }
}

/// Hands the nodes of `steps` out to the threads of rayon with `par_iter` and
/// `flat_map_iter`, each node expanded by `SolveStep::expand`, and collects
/// the results. The contract is rayon's word, not proved here: every node is
/// expanded once, and `collect` puts the results together in the order of
/// `steps`.
#[verifier::external_body]
fn expand_all(steps: &Vec<SolveStep>, cache: &ShortcutCache, visited: &Visited) -> (next: Vec<
    SolveStep,
>)
    requires
        forall|i: int|
            0 <= i < steps@.len() ==> (#[trigger] steps@[i])@.moves.len()
                < ActionSequence::MAX_LENGTH,
    ensures
        steps_view(next@) == spec_expand_all(steps_view(steps@), visited@),
{
    steps.par_iter().flat_map_iter(|step| step.expand(cache, visited)).collect()
}

/// The node `n` follows the node `s` by one move that can be made on the board of `s`.
pub open spec fn follows(s: StepView, n: StepView) -> bool {
    exists|a: Action| #[trigger] spec_action(s.board, a) == Some(n.board) && n.moves == s.moves.push(a)
}

/// The node holds `k` moves, and they lead from `start` to its board.
pub open spec fn sound(start: BoardView, k: nat, s: StepView) -> bool {
    s.moves.len() == k && play(start, s.moves) == Some(s.board)
}

/// Every follower of a node follows it by one move.
pub proof fn lemma_expand_choices_follow(s: StepView, choices: Seq<Choice>, visited: Set<BoardView>)
    ensures
        forall|j: int|
            0 <= j < expand_choices(s, choices, visited).len() ==> follows(
                s,
                #[trigger] expand_choices(s, choices, visited)[j],
            ),
    decreases choices.len(),
{
    if choices.len() > 0 {
        lemma_expand_choices_follow(s, choices.drop_last(), visited);
        let rest = expand_choices(s, choices.drop_last(), visited);
        match spec_apply(s, choices.last()) {
            Some(n) => {
                match choices.last() {
                    Choice::Free(a) => {
                        assert(spec_action(s.board, a) == Some(n.board));
                    },
                    Choice::ZeroPath(end) => {
                        let a = spec_move_towards(s.board, end).unwrap().0;
                        assert(spec_action(s.board, a) == Some(n.board));
                    },
                }
                assert(follows(s, n));
            },
            None => {},
        }
    }
}

/// The followers of nodes whose `k` moves lead from the start to their
/// boards hold `k + 1` moves that lead from the start to their boards.
pub proof fn lemma_expand_all_sound(
    start: BoardView,
    k: nat,
    steps: Seq<StepView>,
    visited: Set<BoardView>,
)
    requires
        forall|i: int| 0 <= i < steps.len() ==> sound(start, k, #[trigger] steps[i]),
    ensures
        forall|j: int|
            0 <= j < spec_expand_all(steps, visited).len() ==> sound(
                start,
                k + 1,
                #[trigger] spec_expand_all(steps, visited)[j],
            ),
    decreases steps.len(),
{
    if steps.len() > 0 {
        let front = steps.drop_last();
        let s = steps.last();
        lemma_expand_all_sound(start, k, front, visited);
        lemma_expand_choices_follow(s, spec_choices(s), visited);
        let head = spec_expand_all(front, visited);
        let tail = spec_expand(s, visited);
        assert forall|j: int| 0 <= j < (head + tail).len() implies sound(
            start,
            k + 1,
            #[trigger] (head + tail)[j],
        ) by {
            if j >= head.len() {
                let n = tail[j - head.len()];
                assert(follows(s, n));
                let a = choose|a: Action| #[trigger]
                    spec_action(s.board, a) == Some(n.board) && n.moves == s.moves.push(a);
                assert(n.moves.drop_last() =~= s.moves);
                assert(sound(start, k, s));
            } else {
                assert((head + tail)[j] == head[j]);
            }
        }
    }
}

/// `first_win` gives the moves of the first node whose board is won.
pub proof fn lemma_first_win_at(steps: Seq<StepView>, i: int)
    requires
        0 <= i < steps.len(),
        forall|j: int| 0 <= j < i ==> !spec_won((#[trigger] steps[j]).board.cells),
        spec_won(steps[i].board.cells),
    ensures
        first_win(steps) == Some(steps[i].moves),
    decreases i,
{
    if i > 0 {
        let rest = steps.drop_first();
        assert forall|j: int| 0 <= j < i - 1 implies !spec_won((#[trigger] rest[j]).board.cells) by {
            assert(rest[j] == steps[j + 1]);
        }
        assert(!spec_won(steps[0].board.cells));
        lemma_first_win_at(rest, i - 1);
    }
}

/// `first_win` gives nothing where no board is won.
pub proof fn lemma_first_win_none(steps: Seq<StepView>)
    requires
        forall|j: int| 0 <= j < steps.len() ==> !spec_won((#[trigger] steps[j]).board.cells),
    ensures
        first_win(steps) is None,
    decreases steps.len(),
{
    if steps.len() > 0 {
        let rest = steps.drop_first();
        assert forall|j: int| 0 <= j < rest.len() implies !spec_won((#[trigger] rest[j]).board.cells) by {
            assert(rest[j] == steps[j + 1]);
        }
        assert(!spec_won(steps[0].board.cells));
        lemma_first_win_none(rest);
    }
}

/// The search before its first round.
pub proof fn lemma_search_start(board: BoardView)
    ensures
        spec_frontier(board, 0) == seq![start_step(board)],
        spec_visited(board, 0) == Set::<BoardView>::empty(),
{
    reveal(spec_frontier);
    reveal(spec_visited);
}

/// One round of the search.
pub proof fn lemma_search_round(board: BoardView, k: nat)
    ensures
        spec_frontier(board, k + 1) == spec_expand_all(
            spec_frontier(board, k),
            spec_visited(board, k),
        ),
        spec_visited(board, k + 1) == spec_visited(board, k).union(
            boards_of(spec_frontier(board, k)),
        ),
{
    reveal(spec_frontier);
    reveal(spec_visited);
}

/// What the search returns, by what its next round holds.
pub proof fn lemma_solve_from(board: BoardView, k: nat, max: nat)
    ensures
        spec_solve_from(board, k, max) == if k >= max || spec_frontier(board, k).len() == 0 {
            None
        } else {
            match first_win(spec_frontier(board, k + 1)) {
                Some(moves) => Some(moves),
                None => spec_solve_from(board, k + 1, max),
            }
        },
{
    reveal(spec_solve_from);
}

/// The place of the first node whose board is won.
fn find_won(steps: &Vec<SolveStep>) -> (found: Option<usize>)
    ensures
        match found {
            Some(i) => i < steps@.len() && spec_won(steps@[i as int]@.board.cells) && first_win(
                steps_view(steps@),
            ) == Some(steps@[i as int]@.moves),
            None => first_win(steps_view(steps@)) is None,
        },
{
    let mut i: usize = 0;
    while i < steps.len()
        invariant
            i <= steps@.len(),
            forall|j: int| 0 <= j < i ==> !spec_won((#[trigger] steps_view(steps@)[j]).board.cells),
        decreases steps@.len() - i,
    {
        if steps[i].board.is_won() {
            proof {
                assert(steps_view(steps@)[i as int] == steps@[i as int]@);
                lemma_first_win_at(steps_view(steps@), i as int);
            }
            return Some(i);
        }
        assert(steps_view(steps@)[i as int] == steps@[i as int]@);
        i = i + 1;
    }
    proof {
        lemma_first_win_none(steps_view(steps@));
    }
    None
}

/// Adds the boards of the nodes of `steps` to `visited`.
fn mark_visited(visited: &mut Visited, steps: &Vec<SolveStep>)
    ensures
        final(visited)@ == old(visited)@.union(boards_of(steps_view(steps@))),
{
    let mut j: usize = 0;
    let ghost seen = visited@;
    assert(visited@ =~= seen.union(boards_of(steps_view(steps@).subrange(0, 0))));
    while j < steps.len()
        invariant
            j <= steps@.len(),
            visited@ == seen.union(boards_of(steps_view(steps@).subrange(0, j as int))),
        decreases steps@.len() - j,
    {
        visited.insert(&steps[j].board);
        proof {
            let views = steps_view(steps@);
            let shorter = views.subrange(0, j as int);
            let longer = views.subrange(0, j + 1);
            assert forall|b: BoardView| boards_of(longer).contains(b) <==> boards_of(
                shorter,
            ).contains(b) || b == views[j as int].board by {
                if boards_of(longer).contains(b) {
                    let i = choose|i: int| 0 <= i < longer.len() && (#[trigger] longer[i]).board == b;
                    if i < j {
                        assert(shorter[i].board == b);
                    }
                }
                if boards_of(shorter).contains(b) {
                    let i = choose|i: int|
                        0 <= i < shorter.len() && (#[trigger] shorter[i]).board == b;
                    assert(longer[i].board == b);
                }
                if b == views[j as int].board {
                    assert(longer[j as int].board == b);
                }
            }
            assert(visited@ =~= seen.union(boards_of(longer)));
        }
        j = j + 1;
    }
    assert(steps_view(steps@).subrange(0, steps@.len() as int) =~= steps_view(steps@));
}

/// One round of the search: the nodes that follow the nodes of `steps`.
fn expand_round(
    steps: &Vec<SolveStep>,
    cache: &ShortcutCache,
    visited: &Visited,
    Ghost(start): Ghost<BoardView>,
    Ghost(k): Ghost<nat>,
) -> (next: Vec<SolveStep>)
    requires
        k < ActionSequence::MAX_LENGTH,
        steps_view(steps@) == spec_frontier(start, k),
        visited@ == spec_visited(start, k),
        forall|i: int| 0 <= i < steps@.len() ==> sound(start, k, #[trigger] steps_view(steps@)[i]),
    ensures
        steps_view(next@) == spec_frontier(start, k + 1),
        visited@.union(boards_of(steps_view(steps@))) == spec_visited(start, k + 1),
        forall|i: int|
            0 <= i < next@.len() ==> sound(start, k + 1, #[trigger] steps_view(next@)[i]),
{
    proof {
        assert forall|i: int| 0 <= i < steps@.len() implies (#[trigger] steps@[i])@.moves.len()
            < ActionSequence::MAX_LENGTH by {
            assert(sound(start, k, steps_view(steps@)[i]));
        }
        lemma_expand_all_sound(start, k, steps_view(steps@), visited@);
        lemma_search_round(start, k);
    }
    expand_all(steps, cache, visited)
}

/// What the search returns is as short as any list of moves that wins the
/// board, and it returns one wherever a list of at most `max` moves wins.
pub proof fn lemma_solve_complete(start: BoardView, max: nat)
    requires
        on_grid(start),
    ensures
        forall|moves: Seq<Action>| #[trigger]
            wins(start, moves) && moves.len() <= max ==> spec_solve(start, max) is Some
                && spec_solve(start, max).unwrap().len() <= moves.len(),
{
    assert forall|moves: Seq<Action>| #[trigger] wins(start, moves) && moves.len() <= max implies (
    spec_solve(start, max) is Some && spec_solve(start, max).unwrap().len() <= moves.len()) by {
        lemma_solve_shortest(start, max, moves);
    }
}

/// Searches breadth-first for a shortest list of moves that wins `board`,
/// with at most `max_moves` moves. Walks over empty cells are taken along the
/// shortest walks that `cache` holds, lost boards and boards that an earlier
/// round expanded are left out.
///
/// The moves returned can all be made and lead to a won board; no list of
/// moves that wins the board is shorter; and moves are returned wherever some
/// list of at most `max_moves` moves wins the board. A board that is won gets
/// the empty list. Which of several shortest solutions is returned is what
/// `spec_solve` says: the first won node of the first round that holds one.
#[verifier::rlimit(40)]
pub fn solve_board(board: &Board, max_moves: usize, cache: &ShortcutCache) -> (solution: Option<
    Vec<Action>,
>)
    requires
        max_moves <= ActionSequence::MAX_LENGTH,
    ensures
        match solution {
            Some(moves) => spec_solve(board@, max_moves as nat) == Some(moves@),
            None => spec_solve(board@, max_moves as nat) is None,
        },
        match solution {
            Some(moves) => moves@.len() <= max_moves && wins(board@, moves@),
            None => true,
        },
        forall|moves: Seq<Action>| #[trigger]
            wins(board@, moves) && moves.len() <= max_moves ==> solution is Some
                && solution.unwrap()@.len() <= moves.len(),
        spec_won(board@.cells) ==> solution is Some && solution.unwrap()@.len() == 0,
        (forall|moves: Seq<Action>| moves.len() <= max_moves ==> !#[trigger] wins(board@, moves))
            ==> solution is None,
{
    let start = board.position();
    proof {
        lemma_solve_complete(board@, max_moves as nat);
    }
    if board.is_won() {
        let moves: Vec<Action> = Vec::new();
        assert(moves@ =~= Seq::<Action>::empty());
        return Some(moves);
    }
    let mut steps: Vec<SolveStep> = Vec::new();
    steps.push(SolveStep::new(*board));
    let mut moves_remaining: usize = max_moves;
    let mut visited = Visited::new();
    let ghost mut k: nat = 0;
    proof {
        lemma_search_start(board@);
        assert(steps_view(steps@) =~= spec_frontier(board@, 0));
        assert(play(board@, Seq::<Action>::empty()) == Some(board@));
    }
    while steps.len() > 0 && moves_remaining > 0
        invariant
            max_moves <= ActionSequence::MAX_LENGTH,
            on_grid(board@),
            k + moves_remaining == max_moves,
            steps_view(steps@) == spec_frontier(board@, k),
            visited@ == spec_visited(board@, k),
            forall|i: int|
                0 <= i < steps@.len() ==> sound(board@, k, #[trigger] steps_view(steps@)[i]),
            spec_solve(board@, max_moves as nat) == spec_solve_from(board@, k, max_moves as nat),
        decreases moves_remaining,
    {
        moves_remaining = moves_remaining - 1;
        let next_steps = expand_round(&steps, cache, &visited, Ghost(board@), Ghost(k));
        proof {
            lemma_solve_from(board@, k, max_moves as nat);
        }
        match find_won(&next_steps) {
            Some(i) => {
                let moves = next_steps[i].seq.to_vec();
                proof {
                    assert(sound(board@, k + 1, steps_view(next_steps@)[i as int]));
                    assert(moves@.len() <= max_moves && wins(board@, moves@));
                    lemma_solve_complete(board@, max_moves as nat);
                }
                return Some(moves);
            },
            None => {},
        }
        mark_visited(&mut visited, &steps);
        proof {
            k = k + 1;
        }
        steps = next_steps;
    }
    proof {
        lemma_solve_from(board@, k, max_moves as nat);
        lemma_solve_complete(board@, max_moves as nat);
    }
    None
}

/// Leaving lost boards out of the search loses no solution: no list of moves
/// wins a board that is lost.
pub proof fn lemma_lost_never_wins(board: BoardView, moves: Seq<Action>)
    requires
        board.cells.len() == 16,
        board.pos.spec_inside(),
        spec_lost(board.cells),
    ensures
        !wins(board, moves),
        match play(board, moves) {
            Some(b) => spec_lost(b.cells) && b.cells.len() == 16 && b.pos.spec_inside(),
            None => true,
        },
    decreases moves.len(),
{
    if moves.len() > 0 {
        lemma_lost_never_wins(board, moves.drop_last());
        match play(board, moves.drop_last()) {
            Some(b) => {
                if spec_action(b, moves.last()) is Some {
                    lemma_lost_stays_lost(b, moves.last());
                }
            },
            None => {},
        }
    }
    match play(board, moves) {
        Some(b) => {
            if spec_won(b.cells) {
                lemma_won_not_lost(b.cells);
            }
        },
        None => {},
    }
}

} // verus!
