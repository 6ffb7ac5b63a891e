//! Ways to choose a move: the opening book while it lasts, a search a few
//! moves ahead after it, the game read out to its end once few cells are
//! left, and a move by chance.

use vstd::prelude::*;
use crate::board::{Board, Move};
use crate::chance::{sample_usize, thread_rng};
use crate::options::Opts;
use crate::rules::{
    Position, count_discs, legal, lemma_move_list, move_ok, on_board, playable,
};
use crate::strategy::book::{Book, BookState, after, gen_yields, start};
use crate::strategy::ending::{EndingSearcher, GameTree, carried, reads};
use crate::strategy::search::{Found, Searcher, ab};
use crate::strategy::util::{is_playable, putable};

pub mod book;
pub mod ending;
pub mod search;
pub mod stability;
pub mod util;

verus! {

/// A player: something that chooses moves.
pub trait Strategy: Sized {
    /// Whether this player, asked for a move in the position `pos` after
    /// `last_move` with `time` left, may play `mv` and be the player `after`
    /// from then on. Each player says for itself how it plays.
    spec fn may_play(
        &self,
        pos: Position,
        last_move: Option<Move>,
        time: i32,
        mv: Move,
        after: Self,
    ) -> bool;

    /// Whether this player may be the player `after` once it has got ready
    /// for another game.
    spec fn may_reset(&self, after: Self) -> bool;

    /// The move to play on the board for the side to move. `last_move` is
    /// the move that the other side has just played, if it has played one.
    fn play<B: Board>(&mut self, board: &B, last_move: Option<Move>, time: i32) -> (mv: Move)
        requires
            last_move matches Some(m) ==> m.on_board(),
        ensures
            mv.on_board(),
            old(self).may_play(board@, last_move, time, mv, *final(self)),
    ;

    /// Takes note of a move that was played for this side without this
    /// player being asked, and of the other side's move before it.
    fn go<B: Board>(&mut self, board: &B, last_move_op: Option<Move>, last_move_me: Move)
        requires
            last_move_op matches Some(m) ==> m.on_board(),
            last_move_me.on_board(),
    ;

    /// Gets ready for another game.
    fn reset(&mut self)
        ensures
            old(self).may_reset(*final(self)),
    ;
}

/// Whether the 64 entries are cells of the board and every cell of the
/// board is among them, so that each comes once.
pub open spec fn all_cells(points: Seq<(u8, u8)>) -> bool {
    &&& points.len() == 64
    &&& forall|i: int| 0 <= i < 64 ==> (#[trigger] points[i]).0 < 8 && points[i].1 < 8
    &&& forall|x: int, y: int|
        on_board(x, y) ==> exists|i: int| 0 <= i < 64 && #[trigger] points[i] == (x as u8, y as u8)
}

/// The first of the cells from index `i` on that the side to move may put
/// a disc on, as a move; a pass where there is none.
pub open spec fn first_legal(points: Seq<(u8, u8)>, pos: Position, i: int) -> Move
    decreases points.len() - i,
{
    if i < 0 || i >= points.len() {
        Move::Pass
    } else if legal(pos.cells, pos.turn, points[i].0 as int, points[i].1 as int) {
        Move::Put { x: points[i].0, y: points[i].1 }
    } else {
        first_legal(points, pos, i + 1)
    }
}

/// The cells of the board in an order drawn by chance.
fn make_points() -> (points: Vec<(u8, u8)>)
    ensures
        all_cells(points@),
{
    let mut points: Vec<(u8, u8)> = Vec::with_capacity(64);
    let mut i: u8 = 0;
    while i < 64
        invariant
            i <= 64,
            points.len() == i,
            forall|j: int| 0 <= j < i ==> #[trigger] points[j] == ((j % 8) as u8, (j / 8) as u8),
        decreases 64 - i,
    {
        points.push((i % 8, i / 8));
        i += 1;
    }
    proof {
        assert forall|x: int, y: int| on_board(x, y) implies exists|k: int|
            0 <= k < 64 && #[trigger] points[k] == (x as u8, y as u8) by {
            assert(points[y * 8 + x] == (x as u8, y as u8));
        }
    }
    let mut rng = thread_rng();
    let mut i: usize = 0;
    while i < 64
        invariant
            i <= 64,
            all_cells(points@),
        decreases 64 - i,
    {
        let j = sample_usize(&mut rng, i, 64);
        let ghost before = points@;
        let tmp = points[i];
        let other = points[j];
        points[i] = other;
        points[j] = tmp;
        proof {
            assert forall|x: int, y: int| on_board(x, y) implies exists|k: int|
                0 <= k < 64 && #[trigger] points[k] == (x as u8, y as u8) by {
                let k = choose|k: int| 0 <= k < 64 && #[trigger] before[k] == (x as u8, y as u8);
                if k == i {
                    assert(points[j as int] == (x as u8, y as u8));
                } else if k == j {
                    assert(points[i as int] == (x as u8, y as u8));
                } else {
                    assert(points[k] == (x as u8, y as u8));
                }
            }
        }
        i += 1;
    }
    points
}

/// Plays the first move that the rules allow, going through the cells in
/// an order drawn by chance for each game.
pub struct RandomStrategy {
    points: Vec<(u8, u8)>,
}

impl RandomStrategy {
    /// The order holds every cell of the board.
    #[verifier::type_invariant]
    spec fn complete(self) -> bool {
        all_cells(self.points@)
    }

    /// The order in which the cells are tried.
    pub closed spec fn order(&self) -> Seq<(u8, u8)> {
        self.points@
    }

    /// A player with an order of the cells drawn by chance.
    pub fn new() -> (s: Self)
        ensures
            all_cells(s.order()),
    {
        RandomStrategy { points: make_points() }
    }
}

/// Where every cell is tried, the first legal one is a legal move, and a
/// pass comes out only where no disc can be put.
pub proof fn lemma_first_legal(points: Seq<(u8, u8)>, pos: Position, i: int)
    requires
        0 <= i <= 64,
        all_cells(points),
    ensures
        move_ok(pos, first_legal(points, pos, i)),
        first_legal(points, pos, i).on_board(),
        first_legal(points, pos, i) == Move::Pass <==> forall|j: int|
            i <= j < 64 ==> !legal(
                pos.cells,
                pos.turn,
                (#[trigger] points[j]).0 as int,
                points[j].1 as int,
            ),
    decreases 64 - i,
{
    if i < 64 {
        lemma_first_legal(points, pos, i + 1);
    }
}

impl Strategy for RandomStrategy {
    /// The move is the first cell of the order that the rules allow, and
    /// the order stays.
    open spec fn may_play(
        &self,
        pos: Position,
        last_move: Option<Move>,
        time: i32,
        mv: Move,
        after: Self,
    ) -> bool {
        mv == first_legal(self.order(), pos, 0) && after.order() == self.order()
    }

    /// Any order of all the cells may come.
    open spec fn may_reset(&self, after: Self) -> bool {
        all_cells(after.order())
    }

    fn play<B: Board>(&mut self, board: &B, last_move: Option<Move>, time: i32) -> (mv: Move)
        ensures
            mv == first_legal(old(self).order(), board@, 0),
            final(self).order() == old(self).order(),
            move_ok(board@, mv),
            playable(board@, mv),
            mv == Move::Pass <==> forall|x: int, y: int|
                on_board(x, y) ==> !legal(board@.cells, board@.turn, x, y),
    {
        proof {
            use_type_invariant(&*self);
            lemma_first_legal(self.points@, board@, 0);
            lemma_move_list(board@.cells, board@.turn);
            if first_legal(self.points@, board@, 0) == Move::Pass {
                assert forall|x: int, y: int| on_board(x, y) implies !legal(
                    board@.cells,
                    board@.turn,
                    x,
                    y,
                ) by {
                    let k = choose|k: int|
                        0 <= k < 64 && #[trigger] self.points@[k] == (x as u8, y as u8);
                    assert(!legal(
                        board@.cells,
                        board@.turn,
                        self.points@[k].0 as int,
                        self.points@[k].1 as int,
                    ));
                }
            }
        }
        let turn = board.get_turn();
        let mut i: usize = 0;
        while i < self.points.len()
            invariant
                i <= self.points.len(),
                all_cells(self.points@),
                self.points@ == old(self).points@,
                turn == board@.turn,
                first_legal(self.points@, board@, 0) == first_legal(self.points@, board@, i as int),
            decreases self.points.len() - i,
        {
            let (x, y) = self.points[i];
            if putable(board, x, y, turn) {
                return Move::Put { x, y };
            }
            i += 1;
        }
        Move::Pass
    }

    fn go<B: Board>(&mut self, board: &B, last_move_op: Option<Move>, last_move_me: Move)
        ensures
            final(self).order() == old(self).order(),
    {
    }

    fn reset(&mut self)
        ensures
            all_cells(final(self).order()),
    {
        self.points = make_points();
    }
}

/// What the main player goes by at the moment. It only ever moves on to a
/// later one.
#[derive(Copy, Clone, Debug, Eq, PartialEq, Structural)]
pub enum MainStrategyState {
    Book,
    Search,
    Ending,
    Random,
}

/// The place of a state in the order in which they follow one another.
pub open spec fn stage(s: MainStrategyState) -> int {
    match s {
        MainStrategyState::Book => 0,
        MainStrategyState::Search => 1,
        MainStrategyState::Ending => 2,
        MainStrategyState::Random => 3,
    }
}

/// All that the main player goes by.
pub struct MainView {
    /// What the player goes by at the moment.
    pub state: MainStrategyState,
    /// Where the opening book stands.
    pub book: BookState,
    /// The stable discs that the search remembers.
    pub caches: (u64, u64),
    /// How many moves the search looks ahead.
    pub depth: nat,
    /// The tree that the read-out keeps, if it keeps one.
    pub tree: Option<GameTree>,
    /// The order in which a move by chance tries the cells.
    pub order: Seq<(u8, u8)>,
    /// With this many cells empty or fewer, the game is read out.
    pub ending_turns: nat,
    /// Whether the read-out takes the opponent to play at its best.
    pub ending_opt: bool,
}

/// Whether the game is to be read out: as many cells are left empty as the
/// setting says, or fewer.
pub open spec fn reads_out(pos: Position, ending_turns: nat) -> bool {
    count_discs(pos.cells) + ending_turns >= 64
}

/// The result of the search for the side to move.
pub open spec fn searched(v: MainView, pos: Position) -> Found {
    ab(v.caches, pos, pos.turn, v.depth, i32::MIN as int, i32::MAX as int, None)
}

/// Whether a player that has left the book behind and goes by `v` may play
/// `mv` and go by `w` afterwards. With cells enough left, the move is the
/// search's. Else the player reads the game out, and goes on doing so. A
/// player that plays by chance takes the first cell of its order that the
/// rules allow.
pub open spec fn plays_on(
    v: MainView,
    pos: Position,
    last_move: Option<Move>,
    mv: Move,
    w: MainView,
) -> bool {
    &&& w.book == v.book
    &&& w.depth == v.depth
    &&& w.order == v.order
    &&& w.ending_turns == v.ending_turns
    &&& w.ending_opt == v.ending_opt
    &&& if v.state == MainStrategyState::Search && !reads_out(pos, v.ending_turns) {
        &&& w.state == MainStrategyState::Search
        &&& mv == searched(v, pos).mv
        &&& w.caches == searched(v, pos).caches
        &&& w.tree == v.tree
    } else if v.state == MainStrategyState::Search || v.state == MainStrategyState::Ending {
        &&& w.state == MainStrategyState::Ending
        &&& w.caches == v.caches
        &&& match last_move {
            Some(m) => reads(v.ending_opt, v.tree, pos, pos.turn, m, mv, w.tree),
            None => reads(v.ending_opt, None, pos, pos.turn, Move::Pass, mv, w.tree),
        }
    } else {
        &&& w.state == v.state
        &&& w.caches == v.caches
        &&& w.tree == v.tree
        &&& mv == first_legal(v.order, pos, 0)
    }
}

/// Whether a player that goes by `v` may choose `mv` and go by `w`
/// afterwards. While the book has a move, the move is the book's, and the
/// book is left behind once it has nothing more to say; what follows the
/// book is told by [`plays_on`].
pub open spec fn chooses(
    v: MainView,
    pos: Position,
    last_move: Option<Move>,
    mv: Move,
    w: MainView,
) -> bool {
    if v.state == MainStrategyState::Book {
        exists|r: Option<(Move, bool)>, b2: BookState| #[trigger]
            gen_yields(v.book, last_move, r, b2) && match r {
                Some(m) => mv == m.0 && w == (MainView {
                    state: if m.1 {
                        MainStrategyState::Book
                    } else {
                        MainStrategyState::Search
                    },
                    book: b2,
                    caches: v.caches,
                    depth: v.depth,
                    tree: v.tree,
                    order: v.order,
                    ending_turns: v.ending_turns,
                    ending_opt: v.ending_opt,
                }),
                None => plays_on(
                    MainView {
                        state: MainStrategyState::Search,
                        book: b2,
                        caches: v.caches,
                        depth: v.depth,
                        tree: v.tree,
                        order: v.order,
                        ending_turns: v.ending_turns,
                        ending_opt: v.ending_opt,
                    },
                    pos,
                    last_move,
                    mv,
                    w,
                ),
            }
    } else {
        plays_on(v, pos, last_move, mv, w)
    }
}

/// Whether a player that goes by `v` may play `mv` and go by `w`
/// afterwards: the move that it [`chooses`], if the side to move may play
/// it. Else the player plays by chance from now on.
pub open spec fn plays(
    v: MainView,
    pos: Position,
    last_move: Option<Move>,
    mv: Move,
    w: MainView,
) -> bool {
    exists|mv0: Move, w0: MainView| #[trigger]
        chooses(v, pos, last_move, mv0, w0) && if playable(pos, mv0) {
            mv == mv0 && w == w0
        } else {
            mv == first_legal(v.order, pos, 0) && w == (MainView {
                state: MainStrategyState::Random,
                book: w0.book,
                caches: w0.caches,
                depth: w0.depth,
                tree: w0.tree,
                order: w0.order,
                ending_turns: w0.ending_turns,
                ending_opt: w0.ending_opt,
            })
        }
}

/// What the player goes by after it has taken note of a move played for it
/// and of the other side's move before: the book and the read-out each
/// follow the moves, and the book is left behind once it has nothing more
/// to say.
pub open spec fn noted(v: MainView, last_move_op: Option<Move>, last_move_me: Move) -> MainView {
    if v.state == MainStrategyState::Book {
        let b1 = match last_move_op {
            Some(m) => after(v.book, m),
            None => v.book,
        };
        let b2 = after(b1, last_move_me);
        MainView {
            state: if b2.runout {
                MainStrategyState::Search
            } else {
                MainStrategyState::Book
            },
            book: b2,
            caches: v.caches,
            depth: v.depth,
            tree: v.tree,
            order: v.order,
            ending_turns: v.ending_turns,
            ending_opt: v.ending_opt,
        }
    } else if v.state == MainStrategyState::Ending {
        let t1 = match last_move_op {
            Some(m) => carried(v.tree, m),
            None => v.tree,
        };
        MainView {
            state: v.state,
            book: v.book,
            caches: v.caches,
            depth: v.depth,
            tree: carried(t1, last_move_me),
            order: v.order,
            ending_turns: v.ending_turns,
            ending_opt: v.ending_opt,
        }
    } else {
        v
    }
}

/// Plays by the opening book while it lasts, then by searching a few moves
/// ahead, and reads the game out to its end once few cells are left.
pub struct MainStrategy {
    state: MainStrategyState,
    random: RandomStrategy,
    book: Book,
    searcher: Searcher,
    ending: EndingSearcher,
    ending_turns: u32,
}

impl MainStrategy {
    /// All that the player goes by.
    pub closed spec fn view(&self) -> MainView {
        MainView {
            state: self.state,
            book: self.book@,
            caches: self.searcher.caches(),
            depth: self.searcher.depth(),
            tree: self.ending.tree(),
            order: self.random.order(),
            ending_turns: self.ending_turns as nat,
            ending_opt: self.ending.assumes_best(),
        }
    }

    /// What the player goes by at the moment.
    pub fn current_state(&self) -> (s: MainStrategyState)
        ensures
            s == self@.state,
    {
        self.state
    }

    /// A player with the given settings and the given bytes for its opening
    /// book.
    pub fn new(opts: &Opts, book: Vec<u8>) -> (s: Self)
        ensures
            s@.state == MainStrategyState::Book,
            s@.book == start(book@, Seq::new(256, |v: int| 0u8)),
            s@.caches == (0u64, 0u64),
            s@.depth == opts.depth,
            s@.tree is None,
            s@.ending_turns == opts.ending_turns,
        s@.ending_opt == opts.ending_opt,
            s@.ending_opt == opts.ending_opt,
            all_cells(s@.order),
    {
        let random = RandomStrategy::new();
        let book = Book::new(book);
        let searcher = Searcher::new(opts);
        let ending = EndingSearcher::new(opts);
        MainStrategy {
            state: MainStrategyState::Book,
            random,
            book,
            searcher,
            ending,
            ending_turns: opts.ending_turns,
        }
    }
}

impl MainStrategy {
    /// The move of a player that has left the book behind; see
    /// [`plays_on`].
    fn play_on<B: Board>(&mut self, board: &B, last_move: Option<Move>, time: i32) -> (mv: Move)
        requires
            old(self)@.state != MainStrategyState::Book,
            last_move matches Some(m) ==> m.on_board(),
        ensures
            mv.on_board(),
            plays_on(old(self)@, board@, last_move, mv, final(self)@),
            stage(final(self)@.state) >= stage(old(self)@.state),
    {
        if self.state == MainStrategyState::Search {
            if board.count_both() as u64 + self.ending_turns as u64 >= 64 {
                self.state = MainStrategyState::Ending;
            } else {
                return self.searcher.search(board);
            }
        }
        if self.state == MainStrategyState::Ending {
            return match last_move {
                Some(m) => self.ending.search(board, board.get_turn(), m),
                None => {
                    self.ending.reset();
                    self.ending.search(board, board.get_turn(), Move::Pass)
                },
            };
        }
        self.random.play(board, last_move, time)
    }
}

impl MainStrategy {
    /// The move of the book, of the search or of the read-out; see
    /// [`chooses`].
    fn pick_move<B: Board>(&mut self, board: &B, last_move: Option<Move>, time: i32) -> (mv: Move)
        requires
            last_move matches Some(m) ==> m.on_board(),
        ensures
            mv.on_board(),
            chooses(old(self)@, board@, last_move, mv, final(self)@),
            stage(final(self)@.state) >= stage(old(self)@.state),
            final(self)@.order == old(self)@.order,
    {
        let ghost v = self@;
        if self.state == MainStrategyState::Book {
            let r = self.book.gen(board.get_turn(), last_move);
            let ghost b2 = self.book@;
            proof {
                assert(gen_yields(v.book, last_move, r, b2));
            }
            match r {
                None => {
                    self.state = MainStrategyState::Search;
                    let ghost v1 = self@;
                    let mv = self.play_on(board, last_move, time);
                    proof {
                        assert(plays_on(v1, board@, last_move, mv, self@));
                        assert(v1 == (MainView {
                            state: MainStrategyState::Search,
                            book: b2,
                            caches: v.caches,
                            depth: v.depth,
                            tree: v.tree,
                            order: v.order,
                            ending_turns: v.ending_turns,
                            ending_opt: v.ending_opt,
                        }));
                    }
                    mv
                },
                Some((mv2, flg)) => {
                    if !flg {
                        self.state = MainStrategyState::Search;
                    }
                    proof {
                        assert(self@ == (MainView {
                            state: if flg {
                                MainStrategyState::Book
                            } else {
                                MainStrategyState::Search
                            },
                            book: b2,
                            caches: v.caches,
                            depth: v.depth,
                            tree: v.tree,
                            order: v.order,
                            ending_turns: v.ending_turns,
                            ending_opt: v.ending_opt,
                        }));
                    }
                    mv2
                },
            }
        } else {
            self.play_on(board, last_move, time)
        }
    }
}

impl Strategy for MainStrategy {
    /// The move is as [`plays`] says, and one that the side to move may
    /// play.
    open spec fn may_play(
        &self,
        pos: Position,
        last_move: Option<Move>,
        time: i32,
        mv: Move,
        after: Self,
    ) -> bool {
        plays(self@, pos, last_move, mv, after@) && playable(pos, mv)
    }

    /// The player goes by the book again, from its start; the search and
    /// the read-out have forgotten what they kept, and the order of the
    /// cells may be any.
    open spec fn may_reset(&self, after: Self) -> bool {
        &&& after@.state == MainStrategyState::Book
        &&& after@.book == start(self@.book.data, self@.book.table)
        &&& after@.caches == (0u64, 0u64)
        &&& after@.tree is None
        &&& after@.depth == self@.depth
        &&& after@.ending_turns == self@.ending_turns
        &&& after@.ending_opt == self@.ending_opt
        &&& all_cells(after@.order)
    }

    fn play<B: Board>(&mut self, board: &B, last_move: Option<Move>, time: i32) -> (mv: Move)
        ensures
            plays(old(self)@, board@, last_move, mv, final(self)@),
            playable(board@, mv),
            stage(final(self)@.state) >= stage(old(self)@.state),
    {
        let ghost v = self@;
        let mv0 = self.pick_move(board, last_move, time);
        let ghost w0 = self@;
        if is_playable(board, mv0) {
            mv0
        } else {
            self.state = MainStrategyState::Random;
            let mv = self.random.play(board, last_move, time);
            proof {
                lemma_move_list(board@.cells, board@.turn);
                assert(chooses(v, board@, last_move, mv0, w0));
            }
            mv
        }
    }

    fn go<B: Board>(&mut self, board: &B, last_move_op: Option<Move>, last_move_me: Move)
        ensures
            final(self)@ == noted(old(self)@, last_move_op, last_move_me),
            stage(final(self)@.state) >= stage(old(self)@.state),
    {
        if self.state == MainStrategyState::Book {
            match last_move_op {
                Some(m) => {
                    self.book.go(m);
                },
                None => {},
            }
            let r2 = self.book.go(last_move_me);
            if !r2 {
                self.state = MainStrategyState::Search;
            }
        } else if self.state == MainStrategyState::Ending {
            match last_move_op {
                Some(m) => {
                    self.ending.go(m);
                },
                None => {},
            }
            self.ending.go(last_move_me);
        }
    }

    fn reset(&mut self)
        ensures
            final(self)@.state == MainStrategyState::Book,
            final(self)@.book == start(old(self)@.book.data, old(self)@.book.table),
            final(self)@.caches == (0u64, 0u64),
            final(self)@.tree is None,
            final(self)@.depth == old(self)@.depth,
            final(self)@.ending_turns == old(self)@.ending_turns,
            final(self)@.ending_opt == old(self)@.ending_opt,
            all_cells(final(self)@.order),
    {
        self.state = MainStrategyState::Book;
        self.book.reset();
        self.searcher.reset();
        self.ending.reset();
        self.random.reset();
    }
}

/// The main player with the given settings and the given bytes for its
/// opening book.
pub fn make_strategy(opts: &Opts, book: Vec<u8>) -> (s: MainStrategy)
    ensures
        s@.state == MainStrategyState::Book,
        s@.book == start(book@, Seq::new(256, |v: int| 0u8)),
        s@.caches == (0u64, 0u64),
        s@.depth == opts.depth,
        s@.tree is None,
        s@.ending_turns == opts.ending_turns,
        s@.ending_opt == opts.ending_opt,
        all_cells(s@.order),
{
    MainStrategy::new(opts, book)
}

/// Out of a hundred games, in how many a player that goes by `state` is
/// made to play by chance: more in the opening, fewer in the middle of the
/// game, none at its end.
pub open spec fn chance_of(state: MainStrategyState) -> int {
    match state {
        MainStrategyState::Book => 25,
        MainStrategyState::Search => 9,
        _ => 0,
    }
}

/// The main player, made to play by chance now and then, so that games
/// played against itself differ.
pub struct SometimesRandomStrategy {
    main: MainStrategy,
    random: RandomStrategy,
    rng: rand::ThreadRng,
}

impl SometimesRandomStrategy {
    /// All that the main player goes by.
    pub closed spec fn inner(&self) -> MainView {
        self.main@
    }

    /// The order in which a move by chance tries the cells.
    pub closed spec fn order(&self) -> Seq<(u8, u8)> {
        self.random.order()
    }

    /// A player with the given settings and the given bytes for its opening
    /// book.
    pub fn new(opts: &Opts, book: Vec<u8>) -> (s: Self)
        ensures
            s.inner().state == MainStrategyState::Book,
            s.inner().book == start(book@, Seq::new(256, |v: int| 0u8)),
            s.inner().depth == opts.depth,
            s.inner().ending_turns == opts.ending_turns,
            all_cells(s.order()),
    {
        SometimesRandomStrategy {
            main: MainStrategy::new(opts, book),
            random: RandomStrategy::new(),
            rng: thread_rng(),
        }
    }

    /// The move to play once a number from 0 to 99 has been drawn: by
    /// chance where the number is less than [`chance_of`] says for what the
    /// main player goes by, and the main player's move else. The one that
    /// was not asked takes note of the move.
    pub fn play_with<B: Board>(
        &mut self,
        draw: usize,
        board: &B,
        last_move: Option<Move>,
        time: i32,
    ) -> (mv: Move)
        requires
            last_move matches Some(m) ==> m.on_board(),
        ensures
            mv.on_board(),
            playable(board@, mv),
            final(self).order() == old(self).order(),
            if draw < chance_of(old(self).inner().state) {
                mv == first_legal(old(self).order(), board@, 0) && final(self).inner() == noted(
                    old(self).inner(),
                    last_move,
                    mv,
                )
            } else {
                plays(old(self).inner(), board@, last_move, mv, final(self).inner())
            },
    {
        let rn: usize = match self.main.state {
            MainStrategyState::Book => 25,
            MainStrategyState::Search => 9,
            _ => 0,
        };
        if draw < rn {
            let mv = self.random.play(board, last_move, time);
            self.main.go(board, last_move, mv);
            mv
        } else {
            let mv = self.main.play(board, last_move, time);
            self.random.go(board, last_move, mv);
            mv
        }
    }
}

impl Strategy for SometimesRandomStrategy {
    /// The move is one by chance, of which the main player takes note, or
    /// the main player's; either way one that the side to move may play.
    open spec fn may_play(
        &self,
        pos: Position,
        last_move: Option<Move>,
        time: i32,
        mv: Move,
        after: Self,
    ) -> bool {
        &&& playable(pos, mv)
        &&& after.order() == self.order()
        &&& (mv == first_legal(self.order(), pos, 0) && after.inner() == noted(
            self.inner(),
            last_move,
            mv,
        )) || plays(self.inner(), pos, last_move, mv, after.inner())
    }

    /// The main player is got ready, and the order of the cells may be any.
    open spec fn may_reset(&self, after: Self) -> bool {
        &&& after.inner().state == MainStrategyState::Book
        &&& after.inner().book == start(self.inner().book.data, self.inner().book.table)
        &&& after.inner().tree is None
        &&& after.inner().depth == self.inner().depth
        &&& after.inner().ending_turns == self.inner().ending_turns
        &&& all_cells(after.order())
    }

    fn play<B: Board>(&mut self, board: &B, last_move: Option<Move>, time: i32) -> (mv: Move)
        ensures
            playable(board@, mv),
            final(self).order() == old(self).order(),
            (mv == first_legal(old(self).order(), board@, 0) && final(self).inner() == noted(
                old(self).inner(),
                last_move,
                mv,
            )) || plays(old(self).inner(), board@, last_move, mv, final(self).inner()),
    {
        let i = sample_usize(&mut self.rng, 0, 100);
        self.play_with(i, board, last_move, time)
    }

    fn go<B: Board>(&mut self, board: &B, last_move_op: Option<Move>, last_move_me: Move)
        ensures
            final(self).inner() == noted(old(self).inner(), last_move_op, last_move_me),
            final(self).order() == old(self).order(),
    {
        self.main.go(board, last_move_op, last_move_me);
        self.random.go(board, last_move_op, last_move_me);
    }

    fn reset(&mut self)
        ensures
            final(self).inner().state == MainStrategyState::Book,
            final(self).inner().book == start(
                old(self).inner().book.data,
                old(self).inner().book.table,
            ),
            final(self).inner().tree is None,
            final(self).inner().depth == old(self).inner().depth,
            final(self).inner().ending_turns == old(self).inner().ending_turns,
            all_cells(final(self).order()),
    {
        self.main.reset();
        self.random.reset();
    }
}

/// The player that games against itself are played with.
pub fn make_learner(opts: &Opts, book: Vec<u8>) -> (s: SometimesRandomStrategy)
    ensures
        s.inner().state == MainStrategyState::Book,
        s.inner().book == start(book@, Seq::new(256, |v: int| 0u8)),
        s.inner().depth == opts.depth,
        s.inner().ending_turns == opts.ending_turns,
        all_cells(s.order()),
{
    SometimesRandomStrategy::new(opts, book)
}

} // verus!
