//! Reading a game out to its end.
//!
//! Near the end of a game every line of play can be followed to the last
//! move. The read-out keeps, for each position, the best and the worst
//! result that can still be reached from it and the moves worth keeping,
//! best first; as the game goes on, the tree is walked down move by move
//! and built only once.

use vstd::prelude::*;
use crate::board::{BitBoard, Board, Move, Tile, Turn, snapshot, turn_to_tile};
use crate::options::Opts;
use crate::rules::{
    Position, count_tiles, disc, legal_moves, lemma_legal_moves, lemma_put_counts, other, play,
    playable,
};
use crate::strategy::util::list_legal;

verus! {

/// How a game ends for the side that the read-out is for.
#[derive(Copy, Clone, Debug, PartialEq, Eq, Structural)]
pub enum Outcome {
    MyLoss,
    Tie,
    MyWin,
}

/// The order of the results: a loss is least, a win is most.
pub open spec fn rank(o: Outcome) -> int {
    match o {
        Outcome::MyLoss => 0,
        Outcome::Tie => 1,
        Outcome::MyWin => 2,
    }
}

/// The place of a result in the order of the results.
fn rank_of(o: Outcome) -> (r: u8)
    ensures
        r == rank(o),
{
    match o {
        Outcome::MyLoss => 0,
        Outcome::Tie => 1,
        Outcome::MyWin => 2,
    }
}

/// The better of two results.
pub open spec fn better(a: Outcome, b: Outcome) -> Outcome {
    if rank(a) >= rank(b) {
        a
    } else {
        b
    }
}

/// The worse of two results.
pub open spec fn worse(a: Outcome, b: Outcome) -> Outcome {
    if rank(a) <= rank(b) {
        a
    } else {
        b
    }
}

/// The better of two results.
fn better_of(a: Outcome, b: Outcome) -> (r: Outcome)
    ensures
        r == better(a, b),
{
    if rank_of(a) >= rank_of(b) {
        a
    } else {
        b
    }
}

/// The worse of two results.
fn worse_of(a: Outcome, b: Outcome) -> (r: Outcome)
    ensures
        r == worse(a, b),
{
    if rank_of(a) <= rank_of(b) {
        a
    } else {
        b
    }
}

/// The result of a finished game by the numbers of discs.
pub open spec fn outcome(mine: int, theirs: int) -> Outcome {
    if mine > theirs {
        Outcome::MyWin
    } else if mine == theirs {
        Outcome::Tie
    } else {
        Outcome::MyLoss
    }
}

/// The best and the worst result that a position can lead to.
pub struct Bounds {
    pub max: Outcome,
    pub min: Outcome,
}

/// The number of empty cells.
pub open spec fn empties(cells: Seq<Tile>) -> nat {
    count_tiles(cells, Tile::Empty)
}

/// Whether the move is a disc that the side to move may put on the board.
pub open spec fn is_put(pos: Position, mv: Move) -> bool {
    mv matches Move::Put { x, y } && crate::rules::legal(pos.cells, pos.turn, x as int, y as int)
        && pos.cells.len() == 64
}

/// The result of the position where the game has ended, for the side `me`.
pub open spec fn final_outcome(pos: Position, me: Turn) -> Outcome {
    outcome(
        count_tiles(pos.cells, disc(me)) as int,
        count_tiles(pos.cells, disc(other(me))) as int,
    )
}

/// The best and the worst result for the side `me` that the read-out finds
/// for a position. `one_pass` says that the move before was a pass, so
/// that a second pass ends the game. Where a disc can be put, the moves
/// are gone through in the order of the cells: the best is the best of all
/// the moves', the worst the worst of all; but a move of `me` that is a
/// certain win settles both and ends the going through. With `opt`, which
/// takes the other side to play at its best, so does a move of the other
/// side that is a certain loss for `me`.
pub open spec fn bounds(opt: bool, pos: Position, me: Turn, one_pass: bool) -> Bounds
    decreases
            empties(pos.cells),
            if one_pass {
                0nat
            } else {
                1nat
            },
            legal_moves(pos.cells, pos.turn).len() + 1,
{
    let moves = legal_moves(pos.cells, pos.turn);
    if moves.len() == 0 {
        if one_pass {
            Bounds { max: final_outcome(pos, me), min: final_outcome(pos, me) }
        } else {
            bounds(opt, play(pos, Move::Pass), me, true)
        }
    } else {
        scan(opt, pos, me, moves, 0, Bounds { max: Outcome::MyLoss, min: Outcome::MyWin })
    }
}

/// The bounds of a position once the first `i` of its moves have been gone
/// through, with `acc` for what they gave.
pub open spec fn scan(
    opt: bool,
    pos: Position,
    me: Turn,
    moves: Seq<Move>,
    i: nat,
    acc: Bounds,
) -> Bounds
    decreases empties(pos.cells), 0nat, moves.len() - i,
{
    if i >= moves.len() || !is_put(pos, moves[i as int]) {
        acc
    } else {
        proof {
            let mv = moves[i as int];
            lemma_put_counts(pos.cells, pos.turn, mv->x as int, mv->y as int);
        }
        let t = bounds(opt, play(pos, moves[i as int]), me, false);
        if t.min == Outcome::MyWin && pos.turn == me {
            Bounds { max: Outcome::MyWin, min: Outcome::MyWin }
        } else if opt && t.max == Outcome::MyLoss && pos.turn != me {
            Bounds { max: Outcome::MyLoss, min: Outcome::MyLoss }
        } else {
            scan(
                opt,
                pos,
                me,
                moves,
                i + 1,
                Bounds { max: better(acc.max, t.max), min: worse(acc.min, t.min) },
            )
        }
    }
}

/// Whether a move with the bounds `a` comes after one with the bounds `b`
/// where the moves are listed best first: by the best result, and among
/// equals by the worst.
pub open spec fn comes_after(a: Bounds, b: Bounds) -> bool {
    rank(a.max) < rank(b.max) || (rank(a.max) == rank(b.max) && rank(a.min) < rank(b.min))
}

/// Where a move with the bounds `b` goes into a list that is kept best
/// first: before the first move from index `p` on that comes after it, so
/// that of equals the earlier stays first.
pub open spec fn slot(list: Seq<(Move, Bounds)>, b: Bounds, p: int) -> int
    decreases list.len() - p,
{
    if p < 0 || p >= list.len() || comes_after(list[p].1, b) {
        p
    } else {
        slot(list, b, p + 1)
    }
}

/// The moves that the read-out keeps for a position, best first, each with
/// its bounds: a pass alone where no disc can be put and the game goes on,
/// nothing where it has ended, and else all the moves, or only the one that
/// settled the bounds. `opt` is as for [`bounds`].
pub open spec fn kept(opt: bool, pos: Position, me: Turn, one_pass: bool) -> Seq<(Move, Bounds)> {
    let moves = legal_moves(pos.cells, pos.turn);
    if moves.len() == 0 {
        if one_pass {
            Seq::empty()
        } else {
            seq![(Move::Pass, bounds(opt, play(pos, Move::Pass), me, true))]
        }
    } else {
        keep_scan(opt, pos, me, moves, 0, Seq::empty())
    }
}

/// The moves kept once the first `i` moves have been gone through, with
/// `list` for those kept so far.
pub open spec fn keep_scan(
    opt: bool,
    pos: Position,
    me: Turn,
    moves: Seq<Move>,
    i: nat,
    list: Seq<(Move, Bounds)>,
) -> Seq<(Move, Bounds)>
    decreases moves.len() - i,
{
    if i >= moves.len() || !is_put(pos, moves[i as int]) {
        list
    } else {
        let mv = moves[i as int];
        let t = bounds(opt, play(pos, mv), me, false);
        if (t.min == Outcome::MyWin && pos.turn == me) || (opt && t.max == Outcome::MyLoss
            && pos.turn != me) {
            seq![(mv, t)]
        } else {
            keep_scan(opt, pos, me, moves, i + 1, list.insert(slot(list, t, 0), (mv, t)))
        }
    }
}

/// The move that the read-out plays in a position: the first of those
/// kept, or a pass where the game has ended.
pub open spec fn reply(opt: bool, pos: Position, me: Turn) -> Move {
    let k = kept(opt, pos, me, false);
    if k.len() == 0 {
        Move::Pass
    } else {
        k[0].0
    }
}

/// What a read-out has found for a position: the best and the worst result
/// that can still be reached, and the moves worth keeping, best first, each
/// with what was found for the position that it leads to.
pub struct GameTree {
    max: Outcome,
    min: Outcome,
    moves: Vec<(Move, GameTree)>,
}

/// The index of the first branch with the move `mv` from index `p` on, or
/// the number of branches where there is none.
pub open spec fn find(branches: Seq<(Move, GameTree)>, mv: Move, p: int) -> int
    decreases branches.len() - p,
{
    if p < 0 || p >= branches.len() || branches[p].0 == mv {
        p
    } else {
        find(branches, mv, p + 1)
    }
}

impl GameTree {
    /// Every move that is kept goes to a cell of the board, or is a pass.
    #[verifier::type_invariant]
    spec fn moves_on_board(self) -> bool {
        forall|i: int| 0 <= i < self.moves.len() ==> (#[trigger] self.moves[i]).0.on_board()
    }

    /// The best result that can still be reached.
    pub closed spec fn best(&self) -> Outcome {
        self.max
    }

    /// The worst result that can still be reached.
    pub closed spec fn worst(&self) -> Outcome {
        self.min
    }

    /// The moves kept, best first, each with the tree of the position that
    /// it leads to.
    pub closed spec fn branches(&self) -> Seq<(Move, GameTree)> {
        self.moves@
    }

    /// The tree of the position that the move leads to, if the move was
    /// kept.
    pub open spec fn child(&self, mv: Move) -> Option<GameTree> {
        let i = find(self.branches(), mv, 0);
        if 0 <= i < self.branches().len() {
            Some(self.branches()[i].1)
        } else {
            None
        }
    }

    /// The move to play from this tree: the first of those kept, or a pass
    /// where there is none.
    pub open spec fn choice(&self) -> Move {
        if self.branches().len() == 0 {
            Move::Pass
        } else {
            self.branches()[0].0
        }
    }

    /// The tree to go on with once the move to play has been played: the
    /// tree of the position that it leads to, or this tree where the game
    /// has ended.
    pub open spec fn after_choice(&self) -> Option<GameTree> {
        if self.branches().len() == 0 {
            Some(*self)
        } else {
            Some(self.branches()[0].1)
        }
    }

    /// Whether this is the tree of the read-out of the position for the
    /// side `me`: its bounds are the position's, and its branches are the
    /// moves kept, each with the tree of the read-out of the position that
    /// the move leads to.
    pub open spec fn solved(&self, opt: bool, pos: Position, me: Turn, one_pass: bool) -> bool
        decreases self,
    {
        let k = kept(opt, pos, me, one_pass);
        &&& self.best() == bounds(opt, pos, me, one_pass).max
        &&& self.worst() == bounds(opt, pos, me, one_pass).min
        &&& self.branches().len() == k.len()
        &&& forall|i: int|
            0 <= i < self.branches().len() ==> {
                &&& (#[trigger] self.branches()[i]).0 == k[i].0
                &&& self.branches()[i].1.solved(opt, play(pos, k[i].0), me, k[i].0 == Move::Pass)
            }
    }

    /// The best result that can still be reached.
    pub fn best_outcome(&self) -> (o: Outcome)
        ensures
            o == self.best(),
    {
        self.max
    }

    /// The worst result that can still be reached.
    pub fn worst_outcome(&self) -> (o: Outcome)
        ensures
            o == self.worst(),
    {
        self.min
    }

    /// The moves kept, best first.
    pub fn kept_moves(&self) -> (v: Vec<Move>)
        ensures
            v.len() == self.branches().len(),
            forall|i: int| 0 <= i < v.len() ==> #[trigger] v[i] == self.branches()[i].0,
    {
        let mut v: Vec<Move> = Vec::new();
        let mut i: usize = 0;
        while i < self.moves.len()
            invariant
                i <= self.moves.len(),
                v.len() == i,
                forall|j: int| 0 <= j < i ==> #[trigger] v[j] == self.moves[j].0,
            decreases self.moves.len() - i,
        {
            v.push(self.moves[i].0);
            i += 1;
        }
        v
    }

    /// Goes down the tree by one move: the tree of the position that the
    /// move leads to, if the move was kept.
    pub fn take(self, mv: Move) -> (r: Option<Self>)
        ensures
            r == self.child(mv),
    {
        let mut moves = self.moves;
        let ghost orig = moves@;
        let mut i: usize = 0;
        while i < moves.len()
            invariant
                moves@ == orig,
                orig == self.branches(),
                i <= moves.len(),
                find(orig, mv, 0) == find(orig, mv, i as int),
            decreases moves.len() - i,
        {
            if moves[i].0 == mv {
                let e = moves.swap_remove(i);
                return Some(e.1);
            }
            i += 1;
        }
        None
    }
}

/// Whether the branches are the kept moves of `list`, each with the tree of
/// the read-out of the position that it leads to.
pub open spec fn branches_of(
    opt: bool,
    branches: Seq<(Move, GameTree)>,
    list: Seq<(Move, Bounds)>,
    pos: Position,
    me: Turn,
) -> bool {
    &&& branches.len() == list.len()
    &&& forall|i: int|
        0 <= i < branches.len() ==> {
            &&& (#[trigger] branches[i]).0 == list[i].0
            &&& branches[i].1.best() == list[i].1.max
            &&& branches[i].1.worst() == list[i].1.min
            &&& branches[i].1.solved(opt, play(pos, list[i].0), me, list[i].0 == Move::Pass)
        }
}

/// Reads the game out from the position of the board for the side
/// `mycolor`. `one_pass` says that the move before was a pass; with
/// `ending_opt` the other side is taken to play at its best, so that of its
/// moves only one that is a certain loss for `mycolor` is kept.
#[verifier::rlimit(50)]
pub fn search(ending_opt: bool, board: &BitBoard, mycolor: Turn, one_pass: bool) -> (t: GameTree)
    ensures
        t.solved(ending_opt, board@, mycolor, one_pass),
        t.best() == bounds(ending_opt, board@, mycolor, one_pass).max,
        t.worst() == bounds(ending_opt, board@, mycolor, one_pass).min,
    decreases
            empties(board@.cells),
            if one_pass {
                0nat
            } else {
                1nat
            },
{
    let ghost pos = board@;
    proof {
        board.lemma_cells();
    }
    let turn = board.get_turn();
    let all = list_legal(board, turn);
    if all.len() == 0 {
        if one_pass {
            let (me, op) = turn_to_tile(mycolor);
            let mycount = board.count(me);
            let opcount = board.count(op);
            let ord = if mycount > opcount {
                Outcome::MyWin
            } else if mycount == opcount {
                Outcome::Tie
            } else {
                Outcome::MyLoss
            };
            GameTree { max: ord, min: ord, moves: Vec::new() }
        } else {
            let mut board2 = *board;
            let passed = board2.apply_move(Move::Pass);
            assert(board2@ == play(pos, Move::Pass));
            let t = search(ending_opt, &board2, mycolor, true);
            let rmin = t.min;
            let rmax = t.max;
            let mut moves: Vec<(Move, GameTree)> = Vec::new();
            moves.push((Move::Pass, t));
            GameTree { max: rmax, min: rmin, moves }
        }
    } else {
        let mut rmin = Outcome::MyWin;
        let mut rmax = Outcome::MyLoss;
        let mut moves: Vec<(Move, GameTree)> = Vec::new();
        let ghost mut list: Seq<(Move, Bounds)> = Seq::empty();
        let mut i: usize = 0;
        while i < all.len()
            invariant
                forall|j: int| 0 <= j < moves.len() ==> (#[trigger] moves[j]).0.on_board(),
                pos == board@,
                pos.cells.len() == 64,
                turn == pos.turn,
                all@ == legal_moves(pos.cells, pos.turn),
                all.len() > 0,
                i <= all.len(),
                bounds(ending_opt, pos, mycolor, one_pass) == scan(
                    ending_opt,
                    pos,
                    mycolor,
                    all@,
                    i as nat,
                    Bounds { max: rmax, min: rmin },
                ),
                kept(ending_opt, pos, mycolor, one_pass) == keep_scan(
                    ending_opt,
                    pos,
                    mycolor,
                    all@,
                    i as nat,
                    list,
                ),
                branches_of(ending_opt, moves@, list, pos, mycolor),
            decreases all.len() - i,
        {
            let mv = all[i];
            proof {
                lemma_legal_moves(pos.cells, pos.turn, 0, i as int);
                lemma_put_counts(pos.cells, pos.turn, mv->x as int, mv->y as int);
                assert(is_put(pos, all@[i as int]));
            }
            let mut board2 = *board;
            let applied = board2.apply_move(mv);
            assert(applied is Ok);
            assert(board2@ == play(pos, mv));
            let t = search(ending_opt, &board2, mycolor, false);
            let tmin = t.min;
            let tmax = t.max;
            let ghost tb = Bounds { max: tmax, min: tmin };
            assert(tb == bounds(ending_opt, play(pos, mv), mycolor, false));
            if rank_of(tmin) == 2 && turn == mycolor {
                let mut only: Vec<(Move, GameTree)> = Vec::new();
                only.push((mv, t));
                return GameTree { max: Outcome::MyWin, min: Outcome::MyWin, moves: only };
            } else if ending_opt && rank_of(tmax) == 0 && turn != mycolor {
                let mut only: Vec<(Move, GameTree)> = Vec::new();
                only.push((mv, t));
                return GameTree { max: Outcome::MyLoss, min: Outcome::MyLoss, moves: only };
            }
            rmin = worse_of(rmin, tmin);
            rmax = better_of(rmax, tmax);
            keep(&mut moves, mv, t, Ghost(ending_opt), Ghost(list), Ghost(pos), Ghost(mycolor));
            proof {
                list = list.insert(slot(list, tb, 0), (mv, tb));
            }
            i += 1;
        }
        GameTree { max: rmax, min: rmin, moves }
    }
}

/// Puts a move with its tree into its place among the moves kept, which
/// are listed best first; of equals the earlier stays first.
fn keep(
    moves: &mut Vec<(Move, GameTree)>,
    mv: Move,
    t: GameTree,
    Ghost(opt): Ghost<bool>,
    Ghost(list): Ghost<Seq<(Move, Bounds)>>,
    Ghost(pos): Ghost<Position>,
    Ghost(me): Ghost<Turn>,
)
    requires
        branches_of(opt, old(moves)@, list, pos, me),
        forall|j: int| 0 <= j < old(moves).len() ==> (#[trigger] old(moves)[j]).0.on_board(),
        mv.on_board(),
        t.solved(opt, play(pos, mv), me, mv == Move::Pass),
    ensures
        branches_of(
            opt,
            final(moves)@,
            list.insert(
                slot(list, Bounds { max: t.best(), min: t.worst() }, 0),
                (mv, Bounds { max: t.best(), min: t.worst() }),
            ),
            pos,
            me,
        ),
        forall|j: int| 0 <= j < final(moves).len() ==> (#[trigger] final(moves)[j]).0.on_board(),
{
    let tmax = t.max;
    let tmin = t.min;
    let ghost tb = Bounds { max: tmax, min: tmin };
    let mut p: usize = 0;
    while p < moves.len() && !sorts_after(&moves[p].1, tmax, tmin)
        invariant
            p <= moves.len(),
            moves@ == old(moves)@,
            branches_of(opt, moves@, list, pos, me),
            slot(list, tb, 0) == slot(list, tb, p as int),
            tb == (Bounds { max: tmax, min: tmin }),
        decreases moves.len() - p,
    {
        p += 1;
    }
    proof {
        lemma_insert_branch(opt, moves@, list, pos, me, p as int, mv, t, tb);
    }
    let ghost before = moves@;
    moves.insert(p, (mv, t));
    proof {
        assert forall|j: int| 0 <= j < moves.len() implies (#[trigger] moves[j]).0.on_board() by {
            if j < p {
                assert(moves[j] == before[j]);
            } else if j > p {
                assert(moves[j] == before[j - 1]);
            }
        }
    }
}

/// Whether the tree's bounds come after the given ones where moves are
/// listed best first.
fn sorts_after(t: &GameTree, max: Outcome, min: Outcome) -> (r: bool)
    ensures
        r == comes_after(
            Bounds { max: t.best(), min: t.worst() },
            Bounds { max, min },
        ),
{
    let a = rank_of(t.max);
    let b = rank_of(max);
    a < b || (a == b && rank_of(t.min) < rank_of(min))
}

/// A branch put into its place keeps the branches in step with the kept
/// moves.
proof fn lemma_insert_branch(
    opt: bool,
    branches: Seq<(Move, GameTree)>,
    list: Seq<(Move, Bounds)>,
    pos: Position,
    me: Turn,
    p: int,
    mv: Move,
    t: GameTree,
    tb: Bounds,
)
    requires
        branches_of(opt, branches, list, pos, me),
        0 <= p <= branches.len(),
        t.best() == tb.max,
        t.worst() == tb.min,
        t.solved(opt, play(pos, mv), me, mv == Move::Pass),
    ensures
        branches_of(opt, branches.insert(p, (mv, t)), list.insert(p, (mv, tb)), pos, me),
{
    let b2 = branches.insert(p, (mv, t));
    let l2 = list.insert(p, (mv, tb));
    assert forall|i: int| 0 <= i < b2.len() implies {
        &&& (#[trigger] b2[i]).0 == l2[i].0
        &&& b2[i].1.best() == l2[i].1.max
        &&& b2[i].1.worst() == l2[i].1.min
        &&& b2[i].1.solved(opt, play(pos, l2[i].0), me, l2[i].0 == Move::Pass)
    } by {
        if i < p {
            assert(b2[i] == branches[i]);
        } else if i > p {
            assert(b2[i] == branches[i - 1]);
        }
    }
}

/// Reads games out to their end, and keeps what it has read from one move
/// to the next.
pub struct EndingSearcher {
    table: Option<GameTree>,
    ending_opt: bool,
}

impl EndingSearcher {
    /// The tree that is kept, if one is.
    pub closed spec fn tree(&self) -> Option<GameTree> {
        self.table
    }

    /// Whether the read-out was asked to take the opponent to play at its
    /// best.
    pub closed spec fn assumes_best(&self) -> bool {
        self.ending_opt
    }

    /// A searcher that has read nothing yet.
    pub fn new(opts: &Opts) -> (s: EndingSearcher)
        ensures
            s.tree() is None,
            s.assumes_best() == opts.ending_opt,
    {
        EndingSearcher { table: None, ending_opt: opts.ending_opt }
    }

    /// Forgets what has been read.
    pub fn reset(&mut self)
        ensures
            final(self).tree() is None,
            final(self).assumes_best() == old(self).assumes_best(),
    {
        self.table = None;
    }

    /// The move to play for `mycolor` after `last_move` has been played.
    /// Where the tree that is kept knows `last_move`, the move comes from
    /// there; else the game is read out anew from the position of the
    /// board. The tree of the position after the move chosen is kept.
    pub fn search<B: Board>(&mut self, board: &B, mycolor: Turn, last_move: Move) -> (mv: Move)
        ensures
            mv.on_board(),
            carried(old(self).tree(), last_move) is None ==> playable(board@, mv),
            final(self).assumes_best() == old(self).assumes_best(),
            reads(
                old(self).assumes_best(),
                old(self).tree(),
                board@,
                mycolor,
                last_move,
                mv,
                final(self).tree(),
            ),
    {
        let prev = self.table.take();
        let t = match prev {
            Some(tt) => tt.take(last_move),
            None => None,
        };
        let table = match t {
            Some(tt) => tt,
            None => {
                let copy = snapshot(board);
                proof {
                    board.lemma_cells();
                    copy.lemma_cells();
                    assert(copy@ == board@);
                    lemma_reply_playable(self.ending_opt, board@, mycolor);
                }
                search(self.ending_opt, &copy, mycolor, false)
            },
        };
        proof {
            use_type_invariant(&table);
        }
        if table.moves.len() == 0 {
            self.table = Some(table);
            Move::Pass
        } else {
            let mv = table.moves[0].0;
            self.table = table.take(mv);
            mv
        }
    }

    /// Takes note of a move that was played without this searcher being
    /// asked: goes down the tree that is kept, if one is.
    pub fn go(&mut self, last_move: Move)
        ensures
            final(self).tree() == carried(old(self).tree(), last_move),
            final(self).assumes_best() == old(self).assumes_best(),
    {
        if self.table.is_none() {
            return ;
        }
        let prev = self.table.take();
        self.table = match prev {
            Some(tt) => tt.take(last_move),
            None => None,
        };
    }
}

/// Whether the read-out, asked for a move of the side `me` after
/// `last_move` with the tree `before` kept, may hand back `mv` and keep the
/// tree `kept_after`. Where the tree that is kept knows `last_move`, the
/// move comes from there; else it is the move that the read-out of the
/// position plays. The tree of the position after the move is kept.
pub open spec fn reads(
    opt: bool,
    before: Option<GameTree>,
    pos: Position,
    me: Turn,
    last_move: Move,
    mv: Move,
    kept_after: Option<GameTree>,
) -> bool {
    match carried(before, last_move) {
        Some(t) => mv == t.choice() && kept_after == t.after_choice(),
        None => mv == reply(opt, pos, me) && exists|t: GameTree|
            #[trigger] t.solved(opt, pos, me, false) && kept_after == t.after_choice(),
    }
}

/// The tree to go on with after a move: the tree, in the one that is kept,
/// of the position that the move leads to, if there is one.
pub open spec fn carried(tree: Option<GameTree>, mv: Move) -> Option<GameTree> {
    match tree {
        Some(t) => t.child(mv),
        None => None,
    }
}

/// The result of a position for the side `me` where both sides play every
/// move for the best: `me` takes the move with the greatest result, the
/// other side the one with the least.
pub open spec fn minimax(pos: Position, me: Turn, one_pass: bool) -> Outcome
    decreases
            empties(pos.cells),
            if one_pass {
                0nat
            } else {
                1nat
            },
            legal_moves(pos.cells, pos.turn).len() + 1,
{
    let moves = legal_moves(pos.cells, pos.turn);
    if moves.len() == 0 {
        if one_pass {
            final_outcome(pos, me)
        } else {
            minimax(play(pos, Move::Pass), me, true)
        }
    } else {
        best_from(pos, me, moves, 0)
    }
}

/// The result that is of no use to the side to move: a loss where `me`
/// moves, a win where the other side does.
pub open spec fn least_wanted(pos: Position, me: Turn) -> Outcome {
    if pos.turn == me {
        Outcome::MyLoss
    } else {
        Outcome::MyWin
    }
}

/// The one of two results that the side to move prefers.
pub open spec fn preferred(pos: Position, me: Turn, a: Outcome, b: Outcome) -> Outcome {
    if pos.turn == me {
        better(a, b)
    } else {
        worse(a, b)
    }
}

/// The result that the side to move prefers among those of the moves from
/// index `i` on.
pub open spec fn best_from(pos: Position, me: Turn, moves: Seq<Move>, i: nat) -> Outcome
    decreases empties(pos.cells), 0nat, moves.len() - i,
{
    if i >= moves.len() || !is_put(pos, moves[i as int]) {
        least_wanted(pos, me)
    } else {
        proof {
            let mv = moves[i as int];
            lemma_put_counts(pos.cells, pos.turn, mv->x as int, mv->y as int);
        }
        preferred(
            pos,
            me,
            minimax(play(pos, moves[i as int]), me, false),
            best_from(pos, me, moves, i + 1),
        )
    }
}

/// Whether the result lies within the bounds.
pub open spec fn within_bounds(b: Bounds, o: Outcome) -> bool {
    rank(b.min) <= rank(o) <= rank(b.max)
}

/// The read-out is right about every position: the result of best play by
/// both sides lies within the bounds that it finds. Where the best and the
/// worst that it finds are the same, that is the result of best play.
pub proof fn lemma_bounds_minimax(opt: bool, pos: Position, me: Turn, one_pass: bool)
    requires
        pos.cells.len() == 64,
    ensures
        within_bounds(bounds(opt, pos, me, one_pass), minimax(pos, me, one_pass)),
        bounds(opt, pos, me, one_pass).max == bounds(opt, pos, me, one_pass).min ==> minimax(
            pos,
            me,
            one_pass,
        ) == bounds(opt, pos, me, one_pass).max,
    decreases
            empties(pos.cells),
            if one_pass {
                0nat
            } else {
                1nat
            },
            legal_moves(pos.cells, pos.turn).len() + 1,
{
    let moves = legal_moves(pos.cells, pos.turn);
    if moves.len() == 0 {
        if !one_pass {
            lemma_bounds_minimax(opt, play(pos, Move::Pass), me, true);
        }
    } else {
        lemma_scan_minimax(
            opt,
            pos,
            me,
            moves,
            0,
            Bounds { max: Outcome::MyLoss, min: Outcome::MyWin },
            least_wanted(pos, me),
        );
    }
}

/// The same of a position whose first `i` moves have been gone through,
/// where `p` is the result that the side to move prefers among theirs.
pub proof fn lemma_scan_minimax(
    opt: bool,
    pos: Position,
    me: Turn,
    moves: Seq<Move>,
    i: nat,
    acc: Bounds,
    p: Outcome,
)
    requires
        pos.cells.len() == 64,
        moves == legal_moves(pos.cells, pos.turn),
        moves.len() > 0,
        i <= moves.len(),
        i == 0 ==> acc == (Bounds { max: Outcome::MyLoss, min: Outcome::MyWin }) && p
            == least_wanted(pos, me),
        i > 0 ==> within_bounds(acc, p),
    ensures
        within_bounds(
            scan(opt, pos, me, moves, i, acc),
            preferred(pos, me, p, best_from(pos, me, moves, i)),
        ),
    decreases empties(pos.cells), 0nat, moves.len() - i,
{
    if i < moves.len() {
        let mv = moves[i as int];
        lemma_legal_moves(pos.cells, pos.turn, 0, i as int);
        lemma_put_counts(pos.cells, pos.turn, mv->x as int, mv->y as int);
        let next = play(pos, mv);
        lemma_bounds_minimax(opt, next, me, false);
        let t = bounds(opt, next, me, false);
        let v = minimax(next, me, false);
        if t.min == Outcome::MyWin && pos.turn == me {
        } else if opt && t.max == Outcome::MyLoss && pos.turn != me {
        } else {
            lemma_scan_minimax(
                opt,
                pos,
                me,
                moves,
                i + 1,
                Bounds { max: better(acc.max, t.max), min: worse(acc.min, t.min) },
                preferred(pos, me, p, v),
            );
        }
    }
}

/// The place of a move in a list is a place of the list, or its end.
pub proof fn lemma_slot(list: Seq<(Move, Bounds)>, b: Bounds, p: int)
    requires
        0 <= p <= list.len(),
    ensures
        p <= slot(list, b, p) <= list.len(),
    decreases list.len() - p,
{
    if p < list.len() && !comes_after(list[p].1, b) {
        lemma_slot(list, b, p + 1);
    }
}

/// The moves kept of a position where a disc can be put are discs that the
/// side to move may put, and at least one is kept.
pub proof fn lemma_keep_scan(
    opt: bool,
    pos: Position,
    me: Turn,
    moves: Seq<Move>,
    i: nat,
    list: Seq<(Move, Bounds)>,
)
    requires
        pos.cells.len() == 64,
        moves == legal_moves(pos.cells, pos.turn),
        i <= moves.len(),
        list.len() > 0 || i < moves.len(),
        forall|k: int| 0 <= k < list.len() ==> is_put(pos, (#[trigger] list[k]).0),
    ensures
        keep_scan(opt, pos, me, moves, i, list).len() > 0,
        forall|k: int|
            0 <= k < keep_scan(opt, pos, me, moves, i, list).len() ==> is_put(
                pos,
                (#[trigger] keep_scan(opt, pos, me, moves, i, list)[k]).0,
            ),
    decreases moves.len() - i,
{
    if i < moves.len() {
        lemma_legal_moves(pos.cells, pos.turn, 0, i as int);
        let mv = moves[i as int];
        let t = bounds(opt, play(pos, mv), me, false);
        if (t.min == Outcome::MyWin && pos.turn == me) || (opt && t.max == Outcome::MyLoss
            && pos.turn != me) {
        } else {
            let p = slot(list, t, 0);
            lemma_slot(list, t, 0);
            let next = list.insert(p, (mv, t));
            assert forall|k: int| 0 <= k < next.len() implies is_put(pos, (#[trigger] next[k]).0) by {
                if k < p {
                    assert(next[k] == list[k]);
                } else if k > p {
                    assert(next[k] == list[k - 1]);
                }
            }
            lemma_keep_scan(opt, pos, me, moves, i + 1, next);
        }
    }
}

/// The move that the read-out plays is one that the side to move may play.
pub proof fn lemma_reply_playable(opt: bool, pos: Position, me: Turn)
    requires
        pos.cells.len() == 64,
    ensures
        playable(pos, reply(opt, pos, me)),
{
    let moves = legal_moves(pos.cells, pos.turn);
    if moves.len() > 0 {
        lemma_keep_scan(opt, pos, me, moves, 0, Seq::empty());
        assert(is_put(pos, kept(opt, pos, me, false)[0].0));
    }
}

/// Whether the moves of a list come best first.
pub open spec fn best_first(list: Seq<(Move, Bounds)>) -> bool {
    forall|i: int, j: int|
        0 <= i < j < list.len() ==> !comes_after((#[trigger] list[i]).1, (#[trigger] list[j]).1)
}

/// Whether every move of a list comes with the bounds of the position that
/// it leads to.
pub open spec fn with_bounds(opt: bool, pos: Position, me: Turn, list: Seq<(Move, Bounds)>) -> bool {
    forall|k: int|
        0 <= k < list.len() ==> (#[trigger] list[k]).1 == bounds(
            opt,
            play(pos, list[k].0),
            me,
            list[k].0 == Move::Pass,
        )
}

/// The place of a move in a list that comes best first: no move before it
/// comes after the new one, and the move at the place does.
pub proof fn lemma_slot_place(list: Seq<(Move, Bounds)>, b: Bounds, p: int)
    requires
        0 <= p <= list.len(),
    ensures
        forall|k: int| p <= k < slot(list, b, p) ==> !comes_after((#[trigger] list[k]).1, b),
        slot(list, b, p) < list.len() ==> comes_after(list[slot(list, b, p)].1, b),
    decreases list.len() - p,
{
    if p < list.len() && !comes_after(list[p].1, b) {
        lemma_slot_place(list, b, p + 1);
    }
}

/// A move put into its place leaves the list best first.
pub proof fn lemma_insert_best_first(list: Seq<(Move, Bounds)>, mv: Move, b: Bounds)
    requires
        best_first(list),
    ensures
        best_first(list.insert(slot(list, b, 0), (mv, b))),
{
    let p = slot(list, b, 0);
    lemma_slot(list, b, 0);
    lemma_slot_place(list, b, 0);
    let next = list.insert(p, (mv, b));
    assert forall|i: int, j: int| 0 <= i < j < next.len() implies !comes_after(
        (#[trigger] next[i]).1,
        (#[trigger] next[j]).1,
    ) by {
        if j < p {
            assert(next[i] == list[i] && next[j] == list[j]);
        } else if j == p {
            assert(next[i] == list[i]);
        } else if i < p {
            assert(next[i] == list[i] && next[j] == list[j - 1]);
        } else if i == p {
            assert(next[j] == list[j - 1]);
            assert(comes_after(list[p].1, b));
            if j - 1 > p {
                assert(!comes_after(list[p].1, list[j - 1].1));
            }
        } else {
            assert(next[i] == list[i - 1] && next[j] == list[j - 1]);
        }
    }
}

/// A move put into a list with the bounds of the position that it leads to
/// leaves every move of the list with its bounds.
pub proof fn lemma_insert_with_bounds(
    opt: bool,
    pos: Position,
    me: Turn,
    list: Seq<(Move, Bounds)>,
    p: int,
    mv: Move,
    b: Bounds,
)
    requires
        0 <= p <= list.len(),
        with_bounds(opt, pos, me, list),
        b == bounds(opt, play(pos, mv), me, mv == Move::Pass),
    ensures
        with_bounds(opt, pos, me, list.insert(p, (mv, b))),
{
    let next = list.insert(p, (mv, b));
    assert forall|k: int| 0 <= k < next.len() implies (#[trigger] next[k]).1 == bounds(
        opt,
        play(pos, next[k].0),
        me,
        next[k].0 == Move::Pass,
    ) by {
        if k < p {
            assert(next[k] == list[k]);
        } else if k > p {
            assert(next[k] == list[k - 1]);
        }
    }
}

/// The moves kept of a position where a disc can be put come best first,
/// each with the bounds of the position that it leads to.
#[verifier::rlimit(40)]
pub proof fn lemma_keep_scan_order(
    opt: bool,
    pos: Position,
    me: Turn,
    moves: Seq<Move>,
    i: nat,
    list: Seq<(Move, Bounds)>,
)
    requires
        pos.cells.len() == 64,
        moves == legal_moves(pos.cells, pos.turn),
        i <= moves.len(),
        best_first(list),
        with_bounds(opt, pos, me, list),
    ensures
        best_first(keep_scan(opt, pos, me, moves, i, list)),
        with_bounds(opt, pos, me, keep_scan(opt, pos, me, moves, i, list)),
    decreases moves.len() - i,
{
    if i < moves.len() {
        lemma_legal_moves(pos.cells, pos.turn, 0, i as int);
        let mv = moves[i as int];
        let t = bounds(opt, play(pos, mv), me, false);
        if (t.min == Outcome::MyWin && pos.turn == me) || (opt && t.max == Outcome::MyLoss
            && pos.turn != me) {
            assert(seq![(mv, t)][0] == (mv, t));
        } else {
            let p = slot(list, t, 0);
            lemma_slot(list, t, 0);
            lemma_insert_best_first(list, mv, t);
            lemma_insert_with_bounds(opt, pos, me, list, p, mv, t);
            lemma_keep_scan_order(opt, pos, me, moves, i + 1, list.insert(p, (mv, t)));
        }
    }
}

/// The moves that the read-out keeps come best first, by the best result
/// that each can lead to and among equals by the worst, and each comes
/// with the bounds of the position that it leads to.
pub proof fn lemma_kept_order(opt: bool, pos: Position, me: Turn, one_pass: bool)
    requires
        pos.cells.len() == 64,
    ensures
        best_first(kept(opt, pos, me, one_pass)),
        with_bounds(opt, pos, me, kept(opt, pos, me, one_pass)),
{
    let moves = legal_moves(pos.cells, pos.turn);
    if moves.len() > 0 {
        lemma_keep_scan_order(opt, pos, me, moves, 0, Seq::empty());
    }
}

} // verus!
