//! The state of one searcher, and the small steps that a search is made of.

use vstd::prelude::*;
use crate::attacks::Tables;
use crate::board::{Board, BoardView, Undo};
use crate::eval::EvalState;
use crate::history::{
    Conts, HistView, Histories, NULL_CONT, capture_at, clamp_to, cont_cell, cont_index, conts_ok,
    gravity_of, main_cell, pawn_cell, trunc, trunc_div,
};
use crate::movegen::{GEN_ALL, Gen, MoveList, gen_of, generate, is_quiet, moves_of};
use crate::movepick::{all_legal, capture_cell, is_noisy, victim_by};
use crate::nnue::{Network, evaluable, lemma_dirty_leads, value_for};

use crate::play::{can_unmake, lemma_moved, made, same_game, too_little, unmade};
use crate::position::{
    ep_after, ep_real, has_kings, in_check_at, is_placement, king_of, legal, lemma_king_of,
    lemma_occ_of, lemma_piece_of, moved, occ_at, occ_of, promo_open, reaches,
};
use crate::score::{MATE_IN_MAX, adjust, adjusted, history_bonus, history_malus};
use crate::see::{lemma_fewer, see_value};
use crate::squareset::{group_bits, lemma_squares_members, squares};
use crate::start::start_placement;
use crate::timing::{
    CHECK_INTERVAL, Shared, is_added, is_spent, may_be, may_be_set_after, out_of_budget,
};
use crate::tt::VALUE_NONE;
use crate::types::{Color, Move, Piece, PieceType, Square, promo_max};
use crate::worth::{game_of, is_static, lemma_static};

verus! {

broadcast use {group_bits, lemma_occ_of};

/// Stack slots below ply 0, so that looking back a few plies is always valid.
pub const OFF: usize = 8;

/// Rows of the table of variations, and moves in each.
pub const PV_LEN: usize = 248;

/// What a node leaves behind for its children and its parent.
#[derive(Clone, Copy)]
pub struct Stack {
    pub killers: [Move; 2],
    pub current_move: Move,
    pub cont_idx: usize,
    pub static_eval: i32,
    /// The move a singular search is proving unique, and so must skip.
    pub excluded: Move,
    /// How many times a child of this node has failed high, which is evidence
    /// that the node is badly ordered and worth reducing harder.
    pub cutoff_cnt: i32,
    pub in_check: bool,
}

impl Stack {
    /// A slot that the search can rely on.
    pub open spec fn ok(self) -> bool {
        &&& self.killers[0].compact()
        &&& self.killers[1].compact()
        &&& self.cont_idx <= NULL_CONT
        &&& self.static_eval == VALUE_NONE || -MATE_IN_MAX < self.static_eval < MATE_IN_MAX
        &&& self.current_move == Move::none() || self.current_move == Move::null() || (
        self.current_move.from().valid() && self.current_move.to().valid())
    }

    /// A slot of which nothing is known.
    pub open spec fn is_blank(self) -> bool {
        &&& self.killers[0] == Move::none()
        &&& self.killers[1] == Move::none()
        &&& self.current_move == Move::none()
        &&& self.cont_idx == NULL_CONT
        &&& self.static_eval == VALUE_NONE
        &&& self.excluded == Move::none()
        &&& self.cutoff_cnt == 0
        &&& !self.in_check
    }
}

impl Default for Stack {
    fn default() -> (r: Stack)
        ensures
            r.is_blank(),
            r.ok(),
    {
        Stack {
            killers: [Move::none(), Move::none()],
            current_move: Move::none(),
            cont_idx: NULL_CONT,
            static_eval: VALUE_NONE,
            excluded: Move::none(),
            cutoff_cnt: 0,
            in_check: false,
        }
    }
}

/// A count that stops at the greatest number there is.
pub open spec fn capped(n: int) -> int {
    if n > u64::MAX {
        u64::MAX as int
    } else {
        n
    }
}

pub fn add_capped(a: u64, b: u64) -> (r: u64)
    ensures
        r == capped(a + b),
{
    if a > u64::MAX - b {
        u64::MAX
    } else {
        a + b
    }
}

/// One finished principal variation of one iteration.
pub struct RootLine {
    pub mv: Move,
    pub score: i32,
    pub pv: Vec<Move>,
    pub sel_depth: usize,
}

/// One thread's search.
pub struct Searcher {
    pub id: usize,
    pub board: Board,
    pub eval: EvalState,
    pub hist: Histories,
    pub ss: Vec<Stack>,
    pub undos: Vec<Undo>,
    /// Row `ply` holds the best line found from there.
    pub pv: Vec<Move>,
    pub pv_len: Vec<usize>,
    pub nodes: u64,
    /// How much of `nodes` has already been handed to the shared counter.
    pub shared_nodes: u64,
    pub sel_depth: usize,
    /// The depth of the iteration in progress, which bounds how far extensions
    /// may carry the search past it.
    pub root_depth: i32,
    pub best_move: Move,
    pub best_score: i32,
    /// The best move and score of the last completed iteration, which is
    /// what a helper thread contributes to the vote at the end of a search.
    pub final_move: Move,
    pub final_score: i32,
    pub completed_depth: i32,
    pub stopped: bool,
    pub root_moves: Vec<Move>,
    pub root_nodes: Vec<u64>,
    /// How many principal variations to search and report: 1 for every helper
    /// thread, which is worth more as extra depth on line one, through the shared
    /// table, than as a second opinion about line four.
    pub multipv: usize,
    /// Which line of the current iteration is being searched, 0-based.
    pub pv_idx: usize,
    /// The root moves earlier lines of this iteration have already claimed, and
    /// which the root move loop therefore skips. Always empty at `multipv` 1.
    pub root_excluded: Vec<Move>,
    /// The lines of the last completed iteration, best first.
    pub lines: Vec<RootLine>,
    /// For how many iterations in a row the best move has been the same, up to 7.
    pub stability: usize,
    pub last_best: Move,
    /// Nodes spent on the lines past the first, which are not part of the best
    /// move's tree. Stays zero at `multipv` 1.
    pub extra_nodes: u64,
}

// -- positions and lines ------------------------------------------------------------

/// What the rules need to know of a position.
pub struct Pos {
    pub q: Seq<Piece>,
    pub stm: Color,
    pub ep: Square,
}

pub open spec fn pos_of(b: BoardView) -> Pos {
    Pos { q: b.q, stm: b.stm, ep: b.ep }
}

pub open spec fn pos_after(p: Pos, m: Move) -> Pos {
    Pos { q: moved(p.q, p.stm, m), stm: p.stm.flip(), ep: ep_after(p.q, p.stm, m) }
}

/// The legal moves of a position, in the order they are generated.
pub open spec fn listed_at(p: Pos) -> Seq<Move> {
    moves_of(Gen { q: p.q, us: p.stm, ep: p.ep, mode: GEN_ALL })
}

/// `ms` can be played from `p`, one legal move after the other.
pub open spec fn legal_line(p: Pos, ms: Seq<Move>) -> bool
    decreases ms.len(),
{
    ms.len() == 0 || (legal(p.q, p.stm, p.ep, ms[0]) && legal_line(
        pos_after(p, ms[0]),
        ms.drop_first(),
    ))
}

/// A move never adds a piece.
pub proof fn lemma_moved_evaluable(q: Seq<Piece>, us: Color, ep: Square, m: Move)
    requires
        is_placement(q),
        has_kings(moved(q, us, m)),
        reaches(q, us, ep, m),
        m.is_en_passant() ==> ep_real(q, us, ep.0 as int),
        evaluable(q),
    ensures
        evaluable(moved(q, us, m)),
{
    let q1 = moved(q, us, m);
    let f = m.from().0 as int;
    let t = m.to().0 as int;
    let a = squares(occ_of(q));
    let c = squares(occ_of(q1));
    lemma_moved(q, us, ep, m);
    lemma_squares_members(occ_of(q));
    lemma_squares_members(occ_of(q1));
    assert(a.contains(f));
    let k = choose|k: int| 0 <= k < a.len() && a[k] == f;
    let s = a.update(k, t);
    assert forall|i: int| #[trigger] c.contains(i) implies s.contains(i) by {
        assert(occ_at(q1, i));
        if i == t {
            assert(s[k] == t);
        } else {
            assert(occ_at(q, i));
            assert(a.contains(i));
            let j = choose|j: int| 0 <= j < a.len() && a[j] == i;
            assert(s[j] == i);
        }
    }
    lemma_fewer(c, s);
    lemma_two_kings(q1);
}

/// Two kings are two pieces.
pub proof fn lemma_two_kings(q: Seq<Piece>)
    requires
        has_kings(q),
    ensures
        squares(occ_of(q)).len() >= 2,
{
    let w = king_of(q, Color::White);
    let b = king_of(q, Color::Black);
    lemma_king_of(q, Color::White);
    lemma_king_of(q, Color::Black);
    let c = squares(occ_of(q));
    lemma_squares_members(occ_of(q));
    assert(occ_at(q, w) && occ_at(q, b));
    assert(c.contains(w) && c.contains(b));
    lemma_piece_of(Color::White, PieceType::King);
    lemma_piece_of(Color::Black, PieceType::King);
    assert(w != b);
    let i = choose|i: int| 0 <= i < c.len() && c[i] == w;
    let j = choose|j: int| 0 <= j < c.len() && c[j] == b;
    assert(i != j);
}

// -- history updates as functions ------------------------------------------------------

/// Continuation history after a quiet move is credited in the planes `c`, up to
/// plane `k`: the two most recent plies are the informative ones, the older pair
/// gets half weight.
pub open spec fn conts_credited(cont: Seq<i16>, c: Conts, p: Piece, to: Square, bonus: int, k: int) -> Seq<i16>
    decreases k,
{
    if k <= 0 {
        cont
    } else {
        let rest = conts_credited(cont, c, p, to, bonus, k - 1);
        let cell = cont_cell(c[k - 1] as int, p, to);
        if c[k - 1] == NULL_CONT {
            rest
        } else {
            rest.update(
                cell,
                gravity_of(
                    rest[cell] as int,
                    if k <= 2 {
                        bonus
                    } else {
                        trunc(bonus, 2)
                    },
                ) as i16,
            )
        }
    }
}

/// The tables after a quiet move is credited with `bonus`.
pub open spec fn quiet_credited(h: HistView, b: BoardView, c: Conts, m: Move, bonus: int) -> HistView {
    let p = b.q[m.from().0 as int];
    let mc = main_cell(b.stm, m);
    let pc = pawn_cell(b.pawn_key, p, m.to());
    HistView {
        main: h.main.update(mc, gravity_of(h.main[mc] as int, bonus) as i16),
        pawn: h.pawn.update(pc, gravity_of(h.pawn[pc] as int, bonus) as i16),
        cont: conts_credited(h.cont, c, p, m.to(), bonus, 4),
        ..h
    }
}

/// The same for the first `k` moves of a list, leaving out `best`.
pub open spec fn quiets_debited(h: HistView, b: BoardView, c: Conts, ms: Seq<Move>, best: Move, malus: int, k: int) -> HistView
    decreases k,
{
    if k <= 0 {
        h
    } else {
        let rest = quiets_debited(h, b, c, ms, best, malus, k - 1);
        if ms[k - 1] == best {
            rest
        } else {
            quiet_credited(rest, b, c, ms[k - 1], -malus)
        }
    }
}

/// The tables after a capture or promotion is credited with `bonus`.
pub open spec fn capture_credited(h: HistView, b: BoardView, m: Move, bonus: int) -> HistView {
    let cell = capture_at(b.q[m.from().0 as int], m.to(), victim_by(b.q, m));
    HistView {
        capture: h.capture.update(cell, gravity_of(h.capture[cell] as int, bonus) as i16),
        ..h
    }
}

pub open spec fn captures_debited(h: HistView, b: BoardView, ms: Seq<Move>, best: Move, malus: int, k: int) -> HistView
    decreases k,
{
    if k <= 0 {
        h
    } else {
        let rest = captures_debited(h, b, ms, best, malus, k - 1);
        if ms[k - 1] == best {
            rest
        } else {
            capture_credited(rest, b, ms[k - 1], -malus)
        }
    }
}

/// The tables after `best` failed high at `depth`: it is credited, and everything
/// tried before it is debited.
pub open spec fn cutoff_recorded(
    h: HistView,
    b: BoardView,
    c: Conts,
    best: Move,
    depth: int,
    quiets: Seq<Move>,
    captures: Seq<Move>,
) -> HistView {
    let bonus = clamp_to(137 * depth - 118, 0, 1900);
    let malus = clamp_to(149 * depth - 55, 0, 1400);
    let first = if !is_noisy(b.q, best) {
        let credited = quiet_credited(h, b, c, best, bonus);
        let countered = if c[0] == NULL_CONT {
            credited
        } else {
            HistView { counter: credited.counter.update(c[0] as int, best), ..credited }
        };
        quiets_debited(countered, b, c, quiets, best, malus, quiets.len() as int)
    } else {
        capture_credited(h, b, best, bonus)
    };
    captures_debited(first, b, captures, best, malus, captures.len() as int)
}

/// Is the position a draw at `ply`: by the fifty-move rule unless it is mate, by
/// material, or by repetition?
pub open spec fn is_drawn(b: &Board, ply: int) -> bool {
    if b.halfmove >= 100 {
        !(in_check_at(b.q(), b.stm) && moves_of(gen_of(b, GEN_ALL)).len() == 0)
    } else {
        too_little(b.q()) || (exists|i: int| #[trigger] b.repeats(i) && i <= ply) || (exists|
            i: int,
            j: int,
        | #[trigger]
            b.repeats(i) && #[trigger] b.repeats(j) && i < j)
    }
}

impl Searcher {
    /// The tables have their sizes and every slot can be relied on.
    pub open spec fn tables_ok(&self) -> bool {
        &&& self.hist.ok()
        &&& self.ss@.len() == 262
        &&& self.undos@.len() == 262
        &&& self.pv@.len() == 61504
        &&& self.pv_len@.len() == 248
        &&& forall|i: int| 0 <= i < 262 ==> (#[trigger] self.ss@[i]).ok()
        &&& forall|i: int| 0 <= i < 248 ==> #[trigger] self.pv_len@[i] + i <= 247
        &&& self.root_nodes@.len() == self.root_moves@.len()
        &&& self.best_move.compact()
    }

    /// The searcher stands at `ply` of a search with the network `n`.
    pub open spec fn fit(&self, n: Network, ply: int) -> bool {
        &&& self.tables_ok()
        &&& self.board.wf()
        &&& evaluable(self.board.q())
        &&& self.eval.ok(n)
        &&& self.eval.height() == ply
        &&& self.eval.path().len() == ply + 1
        &&& self.eval.path().last() == self.board.q()
        &&& self.open_beyond(ply)
    }

    /// Nothing is left out beyond `ply`.
    pub open spec fn open_beyond(&self, ply: int) -> bool {
        forall|i: int| ply + 8 < i < 262 ==> (#[trigger] self.ss@[i]).excluded == Move::none()
    }

    /// Moves have been made since `o`, as far as they can be counted.
    pub open spec fn counted(&self, o: &Searcher) -> bool {
        self.nodes > o.nodes || self.nodes == u64::MAX
    }

    /// The line found at `ply`.
    pub open spec fn row(&self, ply: int) -> Seq<Move> {
        self.pv@.subrange(ply * 248, ply * 248 + self.pv_len@[ply])
    }

    /// The line found at `ply` can be played.
    pub open spec fn line_ok(&self, ply: int) -> bool {
        legal_line(pos_of(self.board@), self.row(ply))
    }

    /// Everything that belongs to the root is as in `o`.
    pub open spec fn same_root(&self, o: &Searcher) -> bool {
        &&& self.id == o.id
        &&& self.root_depth == o.root_depth
        &&& self.final_move == o.final_move
        &&& self.final_score == o.final_score
        &&& self.completed_depth == o.completed_depth
        &&& self.root_moves == o.root_moves
        &&& self.multipv == o.multipv
        &&& self.pv_idx == o.pv_idx
        &&& self.root_excluded == o.root_excluded
        &&& self.lines == o.lines
        &&& self.stability == o.stability
        &&& self.last_best == o.last_best
        &&& self.extra_nodes == o.extra_nodes
    }

    /// The variations are as in `o`.
    pub open spec fn same_pv(&self, o: &Searcher) -> bool {
        self.pv == o.pv && self.pv_len == o.pv_len
    }

    /// The variations of the plies before `ply` are as in `o`.
    pub open spec fn pv_below(&self, o: &Searcher, ply: int) -> bool {
        &&& forall|i: int| 0 <= i < ply ==> #[trigger] self.pv_len@[i] == o.pv_len@[i]
        &&& forall|i: int| 0 <= i < ply * 248 ==> #[trigger] self.pv@[i] == o.pv@[i]
    }

    /// What a search from `ply` leaves alone: the game, the path, and all that
    /// belongs to the plies before.
    pub open spec fn kept(&self, o: &Searcher, ply: int) -> bool {
        &&& same_game(self.board@, o.board@)
        &&& o.board.check_square_info() ==> self.board.check_square_info()
        &&& self.eval.path() == o.eval.path()
        &&& forall|i: int| 0 <= i < ply + 8 ==> #[trigger] self.ss@[i] == o.ss@[i]
        &&& forall|i: int| 0 <= i < ply + 8 ==> #[trigger] self.undos@[i] == o.undos@[i]
        &&& self.same_root(o)
        &&& self.nodes >= o.nodes
        &&& o.stopped ==> self.stopped
        &&& ply > 0 ==> self.best_move == o.best_move && self.best_score == o.best_score
        &&& ply == 0 ==> self.best_move == o.best_move || o.board.legal_here(self.best_move)
    }

    pub fn new(id: usize, t: &Tables) -> (r: Searcher)
        ensures
            r.id == id,
            r.tables_ok(),
            r.hist.blank(),
            r.board.wf(),
            r.board.check_square_info(),
            r.board.q() == start_placement(),
            r.board.stm == Color::White,
            r.board.ep == Square::none(),
            r.board.halfmove == 0,
            r.board.game_ply == 0,
            r.board.plies_from_null == 0,
            r.board.hist@ == seq![r.board.key],
            r.eval.shaped(),
            forall|i: int| 0 <= i < 262 ==> (#[trigger] r.ss@[i]).is_blank(),
            r.undos@.len() == 262,
            forall|i: int| 0 <= i < r.pv@.len() ==> #[trigger] r.pv@[i] == Move::none(),
            forall|i: int| 0 <= i < r.pv_len@.len() ==> #[trigger] r.pv_len@[i] == 0,
            r.nodes == 0,
            r.shared_nodes == 0,
            r.sel_depth == 0,
            r.root_depth == 0,
            r.best_move == Move::none(),
            r.best_score == 0,
            r.final_move == Move::none(),
            r.final_score == 0,
            r.completed_depth == 0,
            !r.stopped,
            r.root_moves@.len() == 0,
            r.root_nodes@.len() == 0,
            r.multipv == 1,
            r.pv_idx == 0,
            r.root_excluded@.len() == 0,
            r.lines@.len() == 0,
            r.stability == 0,
            r.last_best == Move::none(),
            r.extra_nodes == 0,
    {
        let blank = Stack::default();
        let undo = Undo::default();
        Searcher {
            id,
            board: Board::startpos(t),
            eval: EvalState::new(),
            hist: Histories::new(),
            ss: vec![blank; 262],
            undos: vec![undo; 262],
            pv: vec![Move::none(); 61504],
            pv_len: vec![0usize; 248],
            nodes: 0,
            shared_nodes: 0,
            sel_depth: 0,
            root_depth: 0,
            best_move: Move::none(),
            best_score: 0,
            final_move: Move::none(),
            final_score: 0,
            completed_depth: 0,
            stopped: false,
            root_moves: Vec::new(),
            root_nodes: Vec::new(),
            multipv: 1,
            pv_idx: 0,
            root_excluded: Vec::new(),
            lines: Vec::new(),
            stability: 0,
            last_best: Move::none(),
            extra_nodes: 0,
        }
    }

    /// Clears everything a new game invalidates. The transposition table is the
    /// caller's business, since it is shared.
    pub fn clear(&mut self)
        requires
            old(self).tables_ok(),
        ensures
            final(self).tables_ok(),
            final(self).hist.blank(),
            final(self).nodes == 0,
            final(self).shared_nodes == 0,
            final(self).completed_depth == 0,
            final(self).best_move == Move::none(),
            // Nothing else is touched.
            *final(self) == (Searcher {
                hist: final(self).hist,
                nodes: 0,
                shared_nodes: 0,
                completed_depth: 0,
                best_move: Move::none(),
                ..*old(self)
            }),
    {
        self.nodes = 0;
        self.shared_nodes = 0;
        self.completed_depth = 0;
        self.best_move = Move::none();
        self.hist.clear();
    }

    /// The planes of the four moves before `ply`.
    pub open spec fn planes(&self, ply: int) -> Conts {
        [
            self.ss@[ply + 7].cont_idx,
            self.ss@[ply + 6].cont_idx,
            self.ss@[ply + 4].cont_idx,
            self.ss@[ply + 2].cont_idx,
        ]
    }

    /// The continuation-history planes of the four preceding moves.
    pub fn conts(&self, ply: usize) -> (r: Conts)
        requires
            self.tables_ok(),
            ply <= 250,
        ensures
            r@ == self.planes(ply as int)@,
            conts_ok(r),
    {
        let p = ply + OFF;
        let r = [
            self.ss[p - 1].cont_idx,
            self.ss[p - 2].cont_idx,
            self.ss[p - 4].cont_idx,
            self.ss[p - 6].cont_idx,
        ];
        proof {
            assert(self.ss@[ply + 7].ok() && self.ss@[ply + 6].ok() && self.ss@[ply + 4].ok()
                && self.ss@[ply + 2].ok());
            assert(r@ =~= self.planes(ply as int)@);
        }
        r
    }

    /// What the network says about this position, and nothing else.
    ///
    /// This is the only value the transposition table is allowed to cache. It
    /// is a function of piece placement and side to move alone, so it means the
    /// same thing at every node that reaches this position, which the adjusted
    /// evaluation does not: fifty-move damping depends on a halfmove clock the
    /// position key does not encode, and the correction is thread-local and
    /// keyed on the move that led here.
    pub(crate) fn evaluate_raw(&mut self, sh: &Shared, Ghost(ply): Ghost<int>) -> (r: i32)
        requires
            old(self).fit(*sh.net, ply),
        ensures
            final(self).fit(*sh.net, ply),
            final(self).same_but_eval(old(self)),
            r == value_for(*sh.net, old(self).board.q(), old(self).board.stm),
            -131586 <= r <= 131586,
    {
        self.eval.evaluate(sh.net, &self.board)
    }

    /// Everything but the accumulators.
    pub open spec fn same_but_eval(&self, o: &Searcher) -> bool {
        &&& self.board == o.board
        &&& self.eval.path() == o.eval.path()
        &&& self.hist == o.hist
        &&& self.ss == o.ss
        &&& self.undos == o.undos
        &&& self.same_pv(o)
        &&& self.nodes == o.nodes
        &&& self.shared_nodes == o.shared_nodes
        &&& self.sel_depth == o.sel_depth
        &&& self.best_move == o.best_move
        &&& self.best_score == o.best_score
        &&& self.stopped == o.stopped
        &&& self.root_nodes == o.root_nodes
        &&& self.same_root(o)
    }

    /// The static evaluation as the search should believe it *here*: the raw
    /// score, damped by the fifty-move counter, then corrected by what the
    /// search has historically found this kind of position to be worth.
    pub fn adjust_eval(&self, raw: i32, ply: usize) -> (r: i32)
        requires
            self.tables_ok(),
            ply <= 250,
        ensures
            r == adjusted(
                raw,
                self.board.halfmove,
                self.hist.correction_of(
                    self.board.stm,
                    self.board.pawn_key,
                    self.ss@[ply + 7].cont_idx,
                ),
            ),
            -MATE_IN_MAX < r < MATE_IN_MAX,
            -32 <= self.hist.correction_of(
                self.board.stm,
                self.board.pawn_key,
                self.ss@[ply + 7].cont_idx,
            ) <= 32,
    {
        let prev = self.ss[ply + OFF - 1].cont_idx;
        assert(self.ss@[ply + 7].ok());
        adjust(raw, self.board.halfmove, self.hist.correction(&self.board, prev))
    }

    /// What the network says here, as the search should believe it.
    pub open spec fn static_value(&self, n: Network, ply: int) -> int {
        adjusted(
            value_for(n, self.board.q(), self.board.stm) as i32,
            self.board.halfmove,
            self.hist.correction_of(
                self.board.stm,
                self.board.pawn_key,
                self.ss@[ply + 7].cont_idx,
            ),
        )
    }

    /// Both halves at once, for the sites that have no cached value to start
    /// from: the max-ply fallback in both searches.
    pub(crate) fn evaluate(&mut self, sh: &Shared, ply: usize) -> (r: i32)
        requires
            old(self).fit(*sh.net, ply as int),
            ply <= 250,
        ensures
            final(self).fit(*sh.net, ply as int),
            final(self).same_but_eval(old(self)),
            r == old(self).static_value(*sh.net, ply as int),
            -MATE_IN_MAX < r < MATE_IN_MAX,
            is_static(sh, game_of(&old(self).board), None, r),
    {
        let raw = self.evaluate_raw(sh, Ghost(ply as int));
        let r = self.adjust_eval(raw, ply);
        proof {
            lemma_static(
                sh,
                game_of(&old(self).board),
                None,
                self.hist.correction_of(
                    self.board.stm,
                    self.board.pawn_key,
                    self.ss@[ply + 7].cont_idx,
                ),
                r,
            );
        }
        r
    }

    /// Is this node a draw?
    pub fn is_draw(&self, sh: &Shared, ply: usize) -> (r: bool)
        requires
            self.board.wf(),
        ensures
            r == is_drawn(&self.board, ply as int),
    {
        if self.board.halfmove >= 100 {
            // Mate on the hundredth ply is mate, not a draw.
            if self.board.in_check() {
                let mut list = MoveList::new();
                generate::<GEN_ALL>(&self.board, sh.tables, &mut list);
                assert(list@ =~= moves_of(gen_of(&self.board, GEN_ALL)));
                if list.len() == 0 {
                    return false;
                }
            }
            return true;
        }
        self.board.insufficient_material() || self.board.has_repetition(ply)
    }

    /// A search of which `done` says whether an iteration is complete may find
    /// its budget spent, or not, by the clock and the shared count.
    pub open spec fn may_be_spent(sh: &Shared, done: bool, spent: bool) -> bool {
        exists|p: bool, e: u64, n: u64|
            may_be_set_after(sh.pondering, p) && #[trigger] sh.may_show(e) && may_be(&sh.nodes, n)
                && spent == #[trigger] is_spent(
                done,
                sh.limits.infinite,
                p,
                e,
                sh.hard_ms,
                sh.limits.nodes,
                n,
            )
    }

    /// A searcher with this id, of which `done` says whether an iteration is complete,
    /// may be told to stop: by a flag, or by a spent budget where it owns the clock.
    pub open spec fn may_be_told(sh: &Shared, id: usize, done: bool) -> bool {
        sh.may_be_asked(true) || (id == 0 && Self::may_be_spent(sh, done, true))
    }

    /// Such a searcher may be told to go on: by the flags, and by its budget where it
    /// owns the clock.
    #[verifier::opaque]
    pub open spec fn may_go_on(sh: &Shared, id: usize, done: bool) -> bool {
        sh.may_be_asked(false) && (id == 0 ==> Self::may_be_spent(sh, done, false))
    }

    /// From `o` to `self` the search has done as it was told.
    pub open spec fn stops_duly(&self, o: &Searcher, sh: &Shared) -> bool {
        does_as_told(
            sh,
            o.id,
            o.completed_depth > 0,
            o.stopped,
            o.nodes,
            self.stopped,
            self.nodes,
        )
    }

    /// Where `o` was due for a look, `self` has taken it.
    pub open spec fn looks_first(&self, o: &Searcher, sh: &Shared) -> bool {
        !self.stopped && o.nodes % CHECK_INTERVAL == 0 ==> Self::may_go_on(
            sh,
            o.id,
            o.completed_depth > 0,
        )
    }

    /// Looks at the clock and the stop flag from time to time.
    pub fn check_stop(&mut self, sh: &Shared) -> (r: bool)
        ensures
            r == final(self).stopped,
            old(self).stopped ==> r,
            // Between two looks nothing changes.
            old(self).stopped || old(self).nodes % CHECK_INTERVAL != 0 ==> r == old(self).stopped
                && final(self).shared_nodes == old(self).shared_nodes,
            // A look hands over the nodes counted since the last one, then asks
            // whether to stop: everybody the flags, the first searcher the budget.
            !old(self).stopped && old(self).nodes % CHECK_INTERVAL == 0 ==> {
                &&& if old(self).nodes > old(self).shared_nodes {
                    final(self).shared_nodes == old(self).nodes && exists|was: u64| #[trigger]
                        is_added(
                            &sh.nodes,
                            (old(self).nodes - old(self).shared_nodes) as u64,
                            was,
                        )
                } else {
                    final(self).shared_nodes == old(self).shared_nodes
                }
                &&& (r && sh.may_be_asked(true)) || (sh.may_be_asked(false) && if old(self).id == 0 {
                    Self::may_be_spent(sh, old(self).completed_depth > 0, r)
                } else {
                    !r
                })
            },
            final(self).stops_duly(old(self), sh),
            final(self).looks_first(old(self), sh),
            final(self).board == old(self).board,
            final(self).eval == old(self).eval,
            final(self).hist == old(self).hist,
            final(self).ss == old(self).ss,
            final(self).undos == old(self).undos,
            final(self).same_pv(old(self)),
            final(self).nodes == old(self).nodes,
            final(self).sel_depth == old(self).sel_depth,
            final(self).best_move == old(self).best_move,
            final(self).best_score == old(self).best_score,
            final(self).root_nodes == old(self).root_nodes,
            final(self).same_root(old(self)),
    {
        proof {
            reveal(Searcher::may_go_on);
            reveal(does_as_told);
        }
        if self.stopped {
            return true;
        }
        if self.nodes % CHECK_INTERVAL == 0 {
            if self.nodes > self.shared_nodes {
                sh.count_nodes(self.nodes - self.shared_nodes);
                self.shared_nodes = self.nodes;
            }
            if sh.asked_to_stop() {
                self.stopped = true;
                return true;
            }
            // Only the reporting thread owns the clock.
            if self.id == 0 {
                let pondering = sh.is_pondering();
                let elapsed = sh.elapsed_ms();
                let nodes = sh.total_nodes();
                if out_of_budget(
                    self.completed_depth > 0,
                    sh.limits.infinite,
                    pondering,
                    elapsed,
                    sh.hard_ms,
                    sh.limits.nodes,
                    nodes,
                ) {
                    self.stopped = true;
                    return true;
                }
            }
        }
        false
    }

    /// Everything that neither a move nor its undoing touches.
    pub open spec fn same_around(&self, o: &Searcher) -> bool {
        &&& self.hist == o.hist
        &&& self.same_pv(o)
        &&& self.sel_depth == o.sel_depth
        &&& self.best_move == o.best_move
        &&& self.best_score == o.best_score
        &&& self.stopped == o.stopped
        &&& self.root_nodes == o.root_nodes
        &&& self.same_root(o)
    }

    /// The only place a move is made. Keeps the game history, the evaluation stack
    /// and the search stack in step.
    pub(crate) fn do_move<const SAVE_CHECK_SQUARES: bool>(&mut self, sh: &Shared, m: Move, ply: usize)
        requires
            old(self).fit(*sh.net, ply as int),
            ply < 250,
            old(self).board.legal_here(m),
        ensures
            final(self).fit(*sh.net, ply + 1),
            made(
                old(self).board,
                m,
                final(self).board,
                final(self).undos@[ply + 8],
                SAVE_CHECK_SQUARES,
            ),
            can_unmake(final(self).board, m, final(self).undos@[ply + 8]),
            final(self).eval.path() == old(self).eval.path().push(final(self).board.q()),
            final(self).ss@ == old(self).ss@.update(
                ply + 8,
                (Stack {
                    current_move: m,
                    cont_idx: (old(self).board.q()[m.from().0 as int].0 * 100 + m.to().0) as usize,
                    ..old(self).ss@[ply + 8]
                }),
            ),
            forall|i: int|
                0 <= i < 262 && i != ply + 8 ==> #[trigger] final(self).undos@[i] == old(
                    self,
                ).undos@[i],
            final(self).nodes == capped(old(self).nodes + 1),
            final(self).same_around(old(self)),
    {
        let ghost b0 = self.board;
        let piece = self.board.piece_at(m.from());
        let mut s = self.ss[ply + OFF];
        assert(self.ss@[ply + 8].ok());
        s.current_move = m;
        s.cont_idx = cont_index(piece, m.to());
        self.ss[ply + OFF] = s;
        let mut undo = self.undos[ply + OFF];
        if SAVE_CHECK_SQUARES {
            self.board.make_move(sh.tables, m, &mut undo);
        } else {
            self.board.make_move_without_check_squares(sh.tables, m, &mut undo);
        }
        self.undos[ply + OFF] = undo;
        proof {
            lemma_dirty_leads(b0.q(), b0.stm, b0.ep, m, undo.dirty);
            lemma_moved_evaluable(b0.q(), b0.stm, b0.ep, m);
        }
        self.eval.push(sh.net, &self.board, &undo.dirty);
        self.nodes = add_capped(self.nodes, 1);
    }

    /// Takes the move back.
    pub(crate) fn undo_move<const SAVE_CHECK_SQUARES: bool>(&mut self, sh: &Shared, m: Move, ply: usize)
        requires
            old(self).eval.ok(*sh.net),
            old(self).eval.height() == ply + 1,
            ply < 250,
            old(self).undos@.len() == 262,
            can_unmake(old(self).board, m, old(self).undos@[ply + 8]),
        ensures
            final(self).eval.ok(*sh.net),
            final(self).eval.height() == ply,
            final(self).eval.path() == old(self).eval.path().drop_last(),
            unmade(
                old(self).board,
                m,
                final(self).board,
                old(self).undos@[ply + 8],
                SAVE_CHECK_SQUARES,
            ),
            final(self).ss == old(self).ss,
            final(self).undos == old(self).undos,
            final(self).nodes == old(self).nodes,
            final(self).same_around(old(self)),
    {
        self.eval.pop(sh.net);
        let undo = self.undos[ply + OFF];
        if SAVE_CHECK_SQUARES {
            self.board.unmake_move(sh.tables, m, &undo);
        } else {
            self.board.unmake_move_without_check_squares(sh.tables, m, &undo);
        }
    }

    /// Puts `m` before the line found one ply further on.
    pub fn update_pv(&mut self, ply: usize, m: Move)
        requires
            old(self).tables_ok(),
            ply <= 246,
        ensures
            final(self).tables_ok(),
            final(self).row(ply as int) == seq![m] + old(self).row(ply + 1),
            final(self).pv_below(old(self), ply as int),
            final(self).board == old(self).board,
            final(self).eval == old(self).eval,
            final(self).hist == old(self).hist,
            final(self).ss == old(self).ss,
            final(self).undos == old(self).undos,
            final(self).nodes == old(self).nodes,
            final(self).best_move == old(self).best_move,
            final(self).best_score == old(self).best_score,
            final(self).stopped == old(self).stopped,
            final(self).root_nodes == old(self).root_nodes,
            final(self).same_root(old(self)),
    {
        let base = ply * PV_LEN;
        let from = (ply + 1) * PV_LEN;
        let child = self.pv_len[ply + 1];
        assert(self.pv_len@[ply + 1] + ply + 1 <= 247);
        self.pv[base] = m;
        let mut i: usize = 0;
        while i < child
            invariant
                i <= child,
                ply <= 246,
                base == ply * 248,
                from == (ply + 1) * 248,
                child + ply + 1 <= 247,
                self.pv@.len() == 61504,
                self.pv@[base as int] == m,
                forall|k: int|
                    0 <= k < i ==> #[trigger] self.pv@[base + 1 + k] == old(self).pv@[from + k],
                forall|k: int|
                    0 <= k < 61504 && !(base <= k < base + 248) ==> #[trigger] self.pv@[k]
                        == old(self).pv@[k],
                self.pv_len == old(self).pv_len,
                self.board == old(self).board,
                self.eval == old(self).eval,
                self.hist == old(self).hist,
                self.ss == old(self).ss,
                self.undos == old(self).undos,
                self.nodes == old(self).nodes,
                self.best_move == old(self).best_move,
                self.best_score == old(self).best_score,
                self.stopped == old(self).stopped,
                self.root_nodes == old(self).root_nodes,
                self.same_root(old(self)),
            decreases child - i,
        {
            let x = self.pv[from + i];
            assert(x == old(self).pv@[from + i]);
            self.pv[base + 1 + i] = x;
            i += 1;
        }
        self.pv_len[ply] = child + 1;
        proof {
            let new = self.row(ply as int);
            let want = seq![m] + old(self).row(ply + 1);
            assert forall|k: int| 0 <= k < new.len() implies new[k] == want[k] by {
                if k > 0 {
                    assert(new[k] == self.pv@[base + 1 + (k - 1)]);
                }
            }
            assert(new =~= want);
        }
    }

    // -- history updates ----------------------------------------------------

    /// Everything but the histories.
    pub open spec fn same_but_hist(&self, o: &Searcher) -> bool {
        &&& self.board == o.board
        &&& self.eval == o.eval
        &&& self.ss == o.ss
        &&& self.undos == o.undos
        &&& self.same_pv(o)
        &&& self.nodes == o.nodes
        &&& self.sel_depth == o.sel_depth
        &&& self.best_move == o.best_move
        &&& self.best_score == o.best_score
        &&& self.stopped == o.stopped
        &&& self.root_nodes == o.root_nodes
        &&& self.same_root(o)
    }

    /// Rewards or punishes a quiet move in every table that scores quiets, so
    /// that the picker and the reductions see one consistent story.
    pub fn update_quiet_histories(&mut self, m: Move, bonus: i32, ply: usize)
        requires
            old(self).tables_ok(),
            old(self).board.wf(),
            old(self).board.legal_here(m),
            -100_000 <= bonus <= 100_000,
            ply <= 250,
        ensures
            final(self).tables_ok(),
            final(self).same_but_hist(old(self)),
            final(self).hist@ == quiet_credited(
                old(self).hist@,
                old(self).board@,
                old(self).planes(ply as int),
                m,
                bonus as int,
            ),
    {
        let ghost h0 = self.hist@;
        let stm = self.board.stm;
        let to = m.to();
        self.hist.update_main(stm, m, bonus);
        let piece = self.board.piece_at(m.from());
        self.hist.update_pawn(self.board.pawn_key, piece, to, bonus);
        let conts = self.conts(ply);
        let ghost planes = self.planes(ply as int);
        let ghost h1 = self.hist@;
        let mut k: usize = 0;
        while k < 4
            invariant
                k <= 4,
                self.tables_ok(),
                self.same_but_hist(old(self)),
                piece.valid(),
                to.valid(),
                conts_ok(conts),
                conts@ == planes@,
                -100_000 <= bonus <= 100_000,
                self.hist@ == (HistView {
                    cont: conts_credited(h1.cont, planes, piece, to, bonus as int, k as int),
                    ..h1
                }),
            decreases 4 - k,
        {
            let c = conts[k];
            assert(c == planes[k as int]);
            assert(conts[k as int] <= NULL_CONT);
            if c != NULL_CONT {
                let scaled: i32 = if k < 2 {
                    bonus
                } else {
                    trunc_div(bonus, 2)
                };
                self.hist.update_cont(c, piece, to, scaled);
            }
            k += 1;
        }
        assert(self.hist@ =~= quiet_credited(h0, old(self).board@, planes, m, bonus as int));
    }

    /// Rewards or punishes a capture or promotion.
    pub fn update_capture_history(&mut self, m: Move, bonus: i32)
        requires
            old(self).tables_ok(),
            old(self).board.wf(),
            old(self).board.legal_here(m),
        ensures
            final(self).tables_ok(),
            final(self).same_but_hist(old(self)),
            final(self).hist@ == capture_credited(
                old(self).hist@,
                old(self).board@,
                m,
                bonus as int,
            ),
    {
        let (p, to, victim) = capture_cell(&self.board, m);
        self.hist.update_capture(p, to, victim, bonus);
        assert(self.hist@ =~= capture_credited(
            old(self).hist@,
            old(self).board@,
            m,
            bonus as int,
        ));
    }

    /// Credits the move that caused a fail-high and debits everything tried
    /// before it.
    pub fn update_histories(
        &mut self,
        best_move: Move,
        depth: i32,
        ply: usize,
        killers: [Move; 2],
        quiets_tried: &Vec<Move>,
        captures_tried: &Vec<Move>,
    )
        requires
            old(self).tables_ok(),
            old(self).board.wf(),
            old(self).board.legal_here(best_move),
            best_move.compact(),
            killers[0].compact(),
            killers[1].compact(),
            -10_000 <= depth <= 10_000,
            ply <= 250,
            all_legal(&old(self).board, quiets_tried@),
            all_legal(&old(self).board, captures_tried@),
        ensures
            final(self).tables_ok(),
            final(self).hist@ == cutoff_recorded(
                old(self).hist@,
                old(self).board@,
                old(self).planes(ply as int),
                best_move,
                depth as int,
                quiets_tried@,
                captures_tried@,
            ),
            final(self).board == old(self).board,
            final(self).eval == old(self).eval,
            final(self).undos == old(self).undos,
            final(self).same_pv(old(self)),
            final(self).nodes == old(self).nodes,
            final(self).best_move == old(self).best_move,
            final(self).best_score == old(self).best_score,
            final(self).stopped == old(self).stopped,
            final(self).root_nodes == old(self).root_nodes,
            final(self).same_root(old(self)),
            forall|i: int|
                0 <= i < 262 && i != ply + 8 ==> #[trigger] final(self).ss@[i] == old(self).ss@[i],
            final(self).ss@[ply + 8].excluded == old(self).ss@[ply + 8].excluded,
            final(self).ss@[ply + 8].static_eval == old(self).ss@[ply + 8].static_eval,
            ({
                let k = final(self).ss@[ply + 8].killers;
                if is_noisy(old(self).board.q(), best_move) {
                    k == old(self).ss@[ply + 8].killers
                } else {
                    puts_in_front(k, killers, best_move)
                }
            }),
    {
        let ghost b = self.board@;
        let ghost planes = self.planes(ply as int);
        let ghost ss0 = self.ss@;
        let bonus = history_bonus(depth);
        let malus = history_malus(depth);
        if is_quiet(&self.board, best_move) {
            self.update_quiet_histories(best_move, bonus, ply);
            let mut s = self.ss[ply + OFF];
            assert(self.ss@[ply + 8].ok());
            if killers[0] == best_move {
                s.killers = killers;
            } else {
                s.killers = [best_move, killers[0]];
            }
            self.ss[ply + OFF] = s;
            let prev = self.ss[ply + OFF - 1].cont_idx;
            assert(self.ss@[ply + 7].ok());
            if prev != NULL_CONT {
                self.hist.set_counter_move(prev, best_move);
            }
            let ghost h1 = self.hist@;
            let ghost mid = *self;
            let mut i: usize = 0;
            while i < quiets_tried.len()
                invariant
                    i <= quiets_tried@.len(),
                    0 <= malus <= 1400,
                    ply <= 250,
                    self.tables_ok(),
                    self.board.wf(),
                    self.same_but_hist(&mid),
                    mid.board == old(self).board,
                    mid.board@ == b,
                    mid.planes(ply as int)@ == planes@,
                    all_legal(&mid.board, quiets_tried@),
                    self.hist@ == quiets_debited(
                        h1,
                        b,
                        planes,
                        quiets_tried@,
                        best_move,
                        malus as int,
                        i as int,
                    ),
                decreases quiets_tried@.len() - i,
            {
                let q = quiets_tried[i];
                assert(mid.board.legal_here(quiets_tried@[i as int]));
                if q != best_move {
                    let ghost before = self.hist@;
                    self.update_quiet_histories(q, -malus, ply);
                    proof {
                        lemma_same_planes(before, b, mid.planes(ply as int), planes, q, -malus);
                    }
                }
                i += 1;
            }
            proof {
                assert(self.hist@ == quiets_debited(
                    h1,
                    b,
                    planes,
                    quiets_tried@,
                    best_move,
                    malus as int,
                    quiets_tried@.len() as int,
                ));
            }
        } else {
            self.update_capture_history(best_move, bonus);
        }
        let ghost h2 = self.hist@;
        let ghost mid = *self;
        let mut i: usize = 0;
        while i < captures_tried.len()
            invariant
                i <= captures_tried@.len(),
                0 <= malus <= 1400,
                self.tables_ok(),
                self.board.wf(),
                self.same_but_hist(&mid),
                mid.board == old(self).board,
                mid.board@ == b,
                all_legal(&mid.board, captures_tried@),
                self.hist@ == captures_debited(
                    h2,
                    b,
                    captures_tried@,
                    best_move,
                    malus as int,
                    i as int,
                ),
            decreases captures_tried@.len() - i,
        {
            let c = captures_tried[i];
            assert(mid.board.legal_here(captures_tried@[i as int]));
            if c != best_move {
                self.update_capture_history(c, -malus);
            }
            i += 1;
        }
    }

    /// The most valuable type the side to move could still promote to, or
    /// `None` when the inventory is empty and no promotion is legal at all.
    pub fn best_promo(&self) -> (r: Option<PieceType>)
        requires
            self.board.wf(),
        ensures
            match r {
                Some(pt) => promo_open(self.board.q(), self.board.stm, pt) && forall|o: PieceType|
                    #[trigger]
                    promo_open(self.board.q(), self.board.stm, o) ==> see_value(o) <= see_value(pt),
                None => forall|o: PieceType| !#[trigger]
                    promo_open(self.board.q(), self.board.stm, o),
            },
    {
        let us = self.board.stm;
        let r = if self.board.promo_available(us, PieceType::Queen) {
            Some(PieceType::Queen)
        } else if self.board.promo_available(us, PieceType::Marshal) {
            Some(PieceType::Marshal)
        } else if self.board.promo_available(us, PieceType::Cardinal) {
            Some(PieceType::Cardinal)
        } else if self.board.promo_available(us, PieceType::Rook) {
            Some(PieceType::Rook)
        } else if self.board.promo_available(us, PieceType::Bishop) {
            Some(PieceType::Bishop)
        } else if self.board.promo_available(us, PieceType::Knight) {
            Some(PieceType::Knight)
        } else {
            None
        };
        proof {
            assert forall|o: PieceType| #[trigger]
                promo_open(self.board.q(), us, o) implies o != PieceType::Pawn && o
                != PieceType::King by {
                assert(promo_max(o) > 0);
            }
        }
        r
    }
}

/// Planes with the same entries credit alike.
proof fn lemma_same_planes(h: HistView, b: BoardView, c: Conts, d: Conts, m: Move, bonus: int)
    requires
        c@ == d@,
    ensures
        quiet_credited(h, b, c, m, bonus) == quiet_credited(h, b, d, m, bonus),
{
    let p = b.q[m.from().0 as int];
    lemma_same_conts(h.cont, c, d, p, m.to(), bonus, 4);
}

proof fn lemma_same_conts(cont: Seq<i16>, c: Conts, d: Conts, p: Piece, to: Square, bonus: int, k: int)
    requires
        c@ == d@,
        0 <= k <= 4,
    ensures
        conts_credited(cont, c, p, to, bonus, k) == conts_credited(cont, d, p, to, bonus, k),
    decreases k,
{
    if k > 0 {
        lemma_same_conts(cont, c, d, p, to, bonus, k - 1);
        assert(c[k - 1] == d[k - 1]);
    }
}

/// A search looks when the nodes counted come to a multiple of `CHECK_INTERVAL`. From
/// `was_nodes` to `nodes` it has stopped only at a look, and where it was told to; and
/// it has gone on only past looks that allowed it to.
#[verifier::opaque]
pub open spec fn does_as_told(
    sh: &Shared,
    id: usize,
    done: bool,
    was_stopped: bool,
    was_nodes: u64,
    stopped: bool,
    nodes: u64,
) -> bool {
    &&& stopped && !was_stopped ==> {
        &&& Searcher::may_be_told(sh, id, done)
        &&& was_nodes % CHECK_INTERVAL == 0 || nodes / CHECK_INTERVAL > was_nodes / CHECK_INTERVAL
    }
    &&& !stopped && nodes / CHECK_INTERVAL > was_nodes / CHECK_INTERVAL ==> Searcher::may_go_on(
        sh,
        id,
        done,
    )
}

/// Law: a search stops only where it is told to: by a flag, or, if it owns the clock, by
/// a spent budget.
pub proof fn a_search_stops_where_it_is_told_to(s: &Searcher, o: &Searcher, sh: &Shared)
    requires
        s.stops_duly(o, sh),
        s.stopped,
        !o.stopped,
    ensures
        sh.may_be_asked(true) || (o.id == 0 && Searcher::may_be_spent(
            sh,
            o.completed_depth > 0,
            true,
        )),
{
    reveal(does_as_told);
}

/// Law: before one iteration is complete, neither the clock nor a count of nodes stops a
/// search, and they never stop one that does not own the clock.
pub proof fn only_flags_stop_the_first_iteration(s: &Searcher, o: &Searcher, sh: &Shared)
    requires
        s.stops_duly(o, sh),
        s.stopped,
        !o.stopped,
        o.completed_depth <= 0 || o.id != 0,
    ensures
        sh.may_be_asked(true),
{
    reveal(does_as_told);
}

/// Law: a search that stays between two looks does not stop.
pub proof fn between_looks_a_search_goes_on(s: &Searcher, o: &Searcher, sh: &Shared)
    requires
        s.stops_duly(o, sh),
        !o.stopped,
        o.nodes % CHECK_INTERVAL != 0,
        s.nodes / CHECK_INTERVAL == o.nodes / CHECK_INTERVAL,
    ensures
        !s.stopped,
{
    reveal(does_as_told);
}

/// Law: a search that goes on past a look was allowed to: no flag is up, and, if it owns
/// the clock, its budget is not spent.
pub proof fn past_a_look_a_search_may_go_on(s: &Searcher, o: &Searcher, sh: &Shared)
    requires
        s.stops_duly(o, sh),
        !s.stopped,
        s.nodes / CHECK_INTERVAL > o.nodes / CHECK_INTERVAL,
    ensures
        sh.may_be_asked(false),
        o.id == 0 ==> Searcher::may_be_spent(sh, o.completed_depth > 0, false),
{
    reveal(does_as_told);
    reveal(Searcher::may_go_on);
}

/// Doing nothing is doing as told.
pub broadcast proof fn lemma_told_nothing(sh: &Shared, id: usize, done: bool, stopped: bool, nodes: u64)
    ensures
        #[trigger] does_as_told(sh, id, done, stopped, nodes, stopped, nodes),
{
    reveal(does_as_told);
}

/// Doing as told twice is doing as told.
pub proof fn lemma_told_twice(c: &Searcher, b: &Searcher, a: &Searcher, sh: &Shared)
    requires
        c.stops_duly(b, sh),
        b.stops_duly(a, sh),
        a.nodes <= b.nodes <= c.nodes,
        b.stopped ==> c.stopped,
        b.id == a.id,
        b.completed_depth == a.completed_depth,
    ensures
        c.stops_duly(a, sh),
{
    reveal(does_as_told);
}

/// So it is with one more node counted, where that makes a look due which is taken.
pub proof fn lemma_told_counted(c: &Searcher, b: &Searcher, a: &Searcher, sh: &Shared)
    requires
        c.stops_duly(b, sh),
        c.looks_first(b, sh),
        b.stopped == a.stopped,
        b.nodes == capped(a.nodes + 1),
        b.nodes <= c.nodes,
        b.id == a.id,
        b.completed_depth == a.completed_depth,
    ensures
        c.stops_duly(a, sh),
{
    reveal(does_as_told);
}

/// The killers `k` are `was` with `m` put in front, unless it stands there.
pub open spec fn puts_in_front(k: [Move; 2], was: [Move; 2], m: Move) -> bool {
    if was[0] == m {
        k == was
    } else {
        k[0] == m && k[1] == was[0]
    }
}

} // verus!
