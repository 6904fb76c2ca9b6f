use vstd::prelude::*;

pub use crate::board::{ChessType, Location};
pub use crate::go_board::{Chess, ChessChange, GoBoard, MoveError};
use crate::board::{BOARD_SIZE_MAX, GridView};
use crate::go_board::{applied, board_text, fits, is_suicide, reverted, with_stone};
use crate::liberty::is_dead;
use crate::scoring_board::{Belong, Live, ScoreBoard, belong_of, dead_count, toggled};
use crate::tree::Tree;
use crate::sgf::{coord_char, coord_index, digits, lemma_coord_index, tenths_text};
use crate::board::location_of;

pub mod board;
pub mod liberty;
pub mod go_board;
pub mod tree;
pub mod scoring_board;
pub mod sgf;
pub mod coord;

verus! {

/// One of the two sides of a game.
#[derive(Debug, Copy, Clone, PartialEq, Eq, Structural)]
pub enum Player {
    Black,
    White,
}

impl Player {
    /// The side that plays against `p`.
    pub open spec fn other(p: Player) -> Player {
        match p {
            Player::Black => Player::White,
            Player::White => Player::Black,
        }
    }

    pub fn switch(&self) -> (r: Player)
        ensures
            r == Player::other(*self),
    {
        match self {
            Player::Black => Player::White,
            Player::White => Player::Black,
        }
    }
}

/// The two phases of a game.
#[derive(Debug, Copy, Clone, PartialEq, Eq, Structural)]
pub enum GameStatus {
    Playing,
    Scoring,
}

/// One ply of history: the move made (none for a pass), the step count,
/// the stones captured so far by each side, and who moved (none at the root).
pub struct GoNode {
    pub changes: Option<ChessChange>,
    pub steps: i32,
    pub capture: (i32, i32),
    pub player: Option<Player>,
}

/// `a + n`, held at the largest `i32`.
pub open spec fn sat_add(a: int, n: int) -> int {
    if a + n > i32::MAX {
        i32::MAX as int
    } else {
        a + n
    }
}

fn add_saturating(a: i32, n: usize) -> (r: i32)
    requires
        a >= 0,
    ensures
        r == sat_add(a as int, n as int),
{
    if n > (i32::MAX - a) as usize {
        i32::MAX
    } else {
        a + n as i32
    }
}

/// The side to play after `node`: Black at the start, then the side that did not just move.
pub open spec fn to_move(node: GoNode) -> Player {
    match node.player {
        None => Player::Black,
        Some(p) => Player::other(p),
    }
}

/// The stone color of a side.
pub open spec fn color_of(p: Player) -> ChessType {
    match p {
        Player::Black => ChessType::Black,
        Player::White => ChessType::White,
    }
}

/// Captures credited to `p` in `node`.
pub open spec fn captures_of(node: GoNode, p: Player) -> int {
    match p {
        Player::Black => node.capture.0 as int,
        Player::White => node.capture.1 as int,
    }
}

/// The node that follows `head` when `p` plays `ch`, or passes when `ch` is none.
pub open spec fn next_node(head: GoNode, ch: Option<ChessChange>) -> GoNode {
    let p = to_move(head);
    let taken = match ch {
        Some(c) => c.remove@.len() as int,
        None => 0,
    };
    GoNode {
        changes: ch,
        steps: sat_add(head.steps as int, 1) as i32,
        capture: match p {
            Player::Black => (sat_add(head.capture.0 as int, taken) as i32, head.capture.1),
            Player::White => (head.capture.0, sat_add(head.capture.1 as int, taken) as i32),
        },
        player: Some(p),
    }
}

/// The game-record entry of one ply: who moved and where, nothing for a pass.
/// Columns are letters from `a`; rows are letters from `a` at the top row.
pub open spec fn record(node: GoNode, size: int) -> Seq<char> {
    let who = if node.player == Some(Player::Black) { 'B' } else { 'W' };
    let at = match node.changes {
        None => Seq::<char>::empty(),
        Some(ch) => seq![coord_char(ch.at.location.alphabet as int), coord_char(size - 1 - ch.at.location.digit)],
    };
    seq![';', who, '['] + at + seq![']', '\n']
}

/// The entries of `nodes`, in order.
pub open spec fn records(nodes: Seq<GoNode>, size: int) -> Seq<char>
    decreases nodes.len(),
{
    if nodes.len() == 0 {
        Seq::empty()
    } else {
        records(nodes.drop_last(), size) + record(nodes.last(), size)
    }
}

/// What a ply records: who moved and, unless it was a pass, where.
pub open spec fn ply_of(node: GoNode) -> (Option<Player>, Option<Location>) {
    (node.player, match node.changes {
        Some(ch) => Some(ch.at.location),
        None => None,
    })
}

/// Every node has a mover and, for a move, a point on a board of side `size`.
pub open spec fn plies_fit(nodes: Seq<GoNode>, size: int) -> bool {
    forall|i: int| 0 <= i < nodes.len() ==> (#[trigger] nodes[i]).player.is_some() && match nodes[i].changes {
        Some(ch) => ch.at.location.within(size),
        None => true,
    }
}

proof fn lemma_record_shape(node: GoNode, size: int)
    requires
        1 <= size <= 19,
        node.player.is_some(),
        match node.changes {
            Some(ch) => ch.at.location.within(size),
            None => true,
        },
    ensures
        record(node, size).len() == if node.changes.is_none() { 5int } else { 7int },
        (record(node, size)[record(node, size).len() - 3] == '[') == node.changes.is_none(),
{
    let r = record(node, size);
    match node.changes {
        Some(ch) => {
            lemma_coord_index(size - 1 - ch.at.location.digit);
            assert(r[4] == coord_char(size - 1 - ch.at.location.digit));
        },
        None => {},
    }
}

/// The game record gives back the plies: two histories written as the same
/// entries hold the same moves and passes, by the same sides, in the same order.
pub proof fn lemma_records_determine_plies(a: Seq<GoNode>, b: Seq<GoNode>, size: int)
    requires
        1 <= size <= 19,
        plies_fit(a, size),
        plies_fit(b, size),
        records(a, size) == records(b, size),
    ensures
        a.len() == b.len(),
        forall|i: int| 0 <= i < a.len() ==> ply_of(#[trigger] a[i]) == ply_of(b[i]),
    decreases a.len() + b.len(),
{
    if a.len() == 0 || b.len() == 0 {
        if a.len() > 0 {
            assert(a[a.len() - 1] == a.last());
            lemma_record_shape(a.last(), size);
        }
        if b.len() > 0 {
            assert(b[b.len() - 1] == b.last());
            lemma_record_shape(b.last(), size);
        }
    } else {
        let (na, nb) = (a.last(), b.last());
        assert(a[a.len() - 1] == na && b[b.len() - 1] == nb);
        let (x, y) = (record(na, size), record(nb, size));
        let (pa, pb) = (records(a.drop_last(), size), records(b.drop_last(), size));
        let r = records(a, size);
        assert(r == pa + x && r == pb + y);
        lemma_record_shape(na, size);
        lemma_record_shape(nb, size);
        assert(r[r.len() - 3] == x[x.len() - 3]);
        assert(r[r.len() - 3] == y[y.len() - 3]);
        assert(x.len() == y.len());
        assert(x =~= r.subrange(r.len() - x.len(), r.len() as int));
        assert(y =~= r.subrange(r.len() - y.len(), r.len() as int));
        assert(pa =~= r.subrange(0, r.len() - x.len()));
        assert(pb =~= r.subrange(0, r.len() - y.len()));
        assert(x[1] == y[1]);
        match (na.changes, nb.changes) {
            (Some(ca), Some(cb)) => {
                assert(x[3] == y[3] && x[4] == y[4]);
                lemma_coord_index(ca.at.location.alphabet as int);
                lemma_coord_index(cb.at.location.alphabet as int);
                lemma_coord_index(size - 1 - ca.at.location.digit);
                lemma_coord_index(size - 1 - cb.at.location.digit);
                assert(ca.at.location == cb.at.location);
            },
            _ => {},
        }
        assert(ply_of(na) == ply_of(nb));
        assert(plies_fit(a.drop_last(), size)) by {
            assert forall|i: int| 0 <= i < a.drop_last().len() implies #[trigger] a.drop_last()[i] == a[i] by {}
        }
        assert(plies_fit(b.drop_last(), size)) by {
            assert forall|i: int| 0 <= i < b.drop_last().len() implies #[trigger] b.drop_last()[i] == b[i] by {}
        }
        lemma_records_determine_plies(a.drop_last(), b.drop_last(), size);
        assert forall|i: int| 0 <= i < a.len() implies ply_of(#[trigger] a[i]) == ply_of(b[i]) by {
            if i < a.len() - 1 {
                assert(a.drop_last()[i] == a[i]);
                assert(b.drop_last()[i] == b[i]);
            }
        }
    }
}

/// Number of cells among the first `n` that lie on a board of side `size`
/// and belong to `v`.
pub open spec fn belong_count(b: GridView<Belong>, size: int, v: Belong, n: int) -> nat
    decreases n,
{
    if n <= 0 {
        0
    } else {
        belong_count(b, size, v, n - 1) + if location_of(n - 1).within(size) && b.at(location_of(n - 1)) == v {
            1nat
        } else {
            0nat
        }
    }
}

pub proof fn lemma_belong_count_bound(b: GridView<Belong>, size: int, v: Belong, n: int)
    requires
        n >= 0,
    ensures
        belong_count(b, size, v, n) <= n,
    decreases n,
{
    if n > 0 {
        lemma_belong_count_bound(b, size, v, n - 1);
    }
}

/// What a pass does to a game: nothing while scoring; scoring starts when the
/// head is a pass or the root; otherwise a pass ply is added.
pub open spec fn pass_step(before: GoGameEngine, after: GoGameEngine) -> bool {
    &&& after.board == before.board
    &&& before.status == GameStatus::Scoring ==> after.status == GameStatus::Scoring && after.tree == before.tree
        && after.score_board == before.score_board
    &&& before.status == GameStatus::Playing && before.head().changes.is_none() ==> {
        let sb = after.score_board.unwrap();
        &&& after.status == GameStatus::Scoring
        &&& after.tree == before.tree
        &&& forall|p: Location| #![trigger sb.live_board@.at(p)] p.within(before.board.size as int) ==> sb.live_board@.at(p)
            == if before.board@.at(p) == ChessType::Empty {
            Live::NotStone
        } else {
            Live::Alive
        }
        &&& forall|p: Location| #![trigger sb.belong_board@.at(p)] p.within(before.board.size as int) ==> sb.belong_board@.at(p)
            == belong_of(before.board@, sb.live_board@, p)
    }
    &&& before.status == GameStatus::Playing && before.head().changes.is_some() ==> {
        &&& after.status == GameStatus::Playing
        &&& after.score_board == before.score_board
        &&& after.tree@ == before.tree@.push(next_node(before.head(), None))
    }
}

/// What a toggle at `location` does to a game: while scoring and on a stone,
/// the liveness of its group flips and ownership is recomputed; otherwise
/// nothing changes. Cells off the board stay as they were.
pub open spec fn toggle_step(before: GoGameEngine, after: GoGameEngine, location: Location) -> bool {
    &&& after.komi == before.komi
    &&& after.play_as == before.play_as
    &&& after.board == before.board
    &&& after.tree == before.tree
    &&& after.status == before.status
    &&& (before.status == GameStatus::Playing || before.board@.at(location) == ChessType::Empty) ==> after.score_board
        == before.score_board
    &&& before.status == GameStatus::Scoring && before.board@.at(location) != ChessType::Empty ==> {
        let old_sb = before.score_board.unwrap();
        let new_sb = after.score_board.unwrap();
        &&& forall|p: Location| #![trigger new_sb.live_board@.at(p)] p.within(before.board.size as int) ==> new_sb.live_board@.at(p)
            == toggled(before.board@, old_sb.live_board@, location, p)
        &&& forall|p: Location| #![trigger new_sb.belong_board@.at(p)] p.within(before.board.size as int) ==> new_sb.belong_board@.at(p)
            == belong_of(before.board@, new_sb.live_board@, p)
        &&& forall|i: int| 0 <= i < 361 && !location_of(i).within(before.board.size as int) ==> #[trigger] new_sb.live_board.cells@[i]
            == old_sb.live_board.cells@[i]
        &&& forall|i: int| 0 <= i < 361 && !location_of(i).within(before.board.size as int) ==> #[trigger] new_sb.belong_board.cells@[i]
            == old_sb.belong_board.cells@[i]
    }
}

/// The fixed opening of a game record, followed by `rest`.
fn join_text_with_header(rest: &Vec<char>) -> (r: String)
    ensures
        r@ == "(;GM[1]FF[4]CA[UTF-8]AP[TGoBan:0.0.1]RU[Japanese]KM["@ + rest@,
{
    crate::sgf::join_text("(;GM[1]FF[4]CA[UTF-8]AP[TGoBan:0.0.1]RU[Japanese]KM[", rest)
}

/// A game: the stones, the history of moves, komi, and the scoring state.
pub struct GoGameEngine {
    pub board: GoBoard,
    pub tree: Tree<GoNode>,
    pub komi: i32,
    pub status: GameStatus,
    pub score_board: Option<ScoreBoard>,
    pub play_as: Option<Player>,
}

impl GoGameEngine {
    pub open spec fn wf(&self) -> bool {
        &&& self.board.wf()
        &&& self.tree.wf()
        &&& self.tree@[0].player.is_none()
        &&& self.tree@[0].changes.is_none()
        &&& self.tree@[0].steps == 0
        &&& self.tree@[0].capture == (0i32, 0i32)
        &&& forall|i: int| 1 <= i < self.tree@.len() ==> #[trigger] self.tree@[i] == next_node(self.tree@[i - 1], self.tree@[i].changes)
        &&& forall|i: int| 1 <= i < self.tree@.len() ==> (#[trigger] self.tree@[i]).player.is_some()
        &&& forall|i: int| 0 <= i < self.tree@.len() ==> (#[trigger] self.tree@[i]).steps >= 0
            && self.tree@[i].capture.0 >= 0 && self.tree@[i].capture.1 >= 0
        &&& forall|i: int| 0 <= i < self.tree@.len() ==> match (#[trigger] self.tree@[i]).changes {
            Some(ch) => ch.at.location.within(self.board.size as int) && forall|k: int| 0 <= k < ch.remove@.len()
                ==> (#[trigger] ch.remove@[k]).within(self.board.size as int),
            None => true,
        }
        &&& (self.status == GameStatus::Scoring <==> self.score_board.is_some())
        &&& match self.score_board {
            Some(sb) => sb.wf(self.board@) && forall|p: Location| #![trigger sb.belong_board@.at(p)] p.within(self.board.size as int)
                ==> sb.belong_board@.at(p) == belong_of(self.board@, sb.live_board@, p),
            None => true,
        }
    }

    /// The head of the history.
    pub open spec fn head(&self) -> GoNode {
        self.tree@.last()
    }

    /// The captures credited to `p`, counting dead stones while scoring.
    pub open spec fn capture_total(&self, p: Player) -> int {
        if self.status == GameStatus::Scoring {
            sat_add(captures_of(self.head(), p), dead_count(
                self.board@, self.score_board.unwrap().live_board@, color_of(Player::other(p)), 361) as int)
        } else {
            captures_of(self.head(), p)
        }
    }

    /// The console view: the number of the next ply, the side to move, then the board.
    pub open spec fn text(&self) -> Seq<char> {
        "\tSteps: "@ + digits((self.head().steps + 1) as nat) + "\n\tPlayer : "@ + seq![
            if to_move(self.head()) == Player::Black { 'X' } else { 'O' },
            '\n',
        ] + board_text(self.board@, self.board.size as int)
    }

    /// The game record: a fixed header with komi, then one entry per ply.
    pub open spec fn sgf_text(&self) -> Seq<char> {
        game_prefix() + tenths_text(self.komi as int) + seq![']']
            + records(self.tree@.subrange(1, self.tree@.len() as int), self.board.size as int) + seq![')']
    }

    /// A new game on an empty board of side `size`, with komi in tenths of a point.
    pub fn new(size: u8, komi: i32) -> (r: GoGameEngine)
        requires
            1 <= size <= BOARD_SIZE_MAX,
        ensures
            r.wf(),
            r.board.size == size,
            forall|i: int| 0 <= i < 361 ==> r.board.cells@[i] == ChessType::Empty,
            r.tree@.len() == 1,
            r.head().changes.is_none(),
            r.head().steps == 0,
            r.head().capture == (0i32, 0i32),
            r.komi == komi,
            r.status == GameStatus::Playing,
            r.play_as.is_none(),
    {
        let root = GoNode { changes: None, steps: 0, capture: (0, 0), player: None };
        GoGameEngine {
            board: GoBoard::new(size),
            tree: Tree::new(root),
            komi,
            status: GameStatus::Playing,
            score_board: None,
            play_as: None,
        }
    }

    pub fn size(&self) -> (r: u8)
        ensures
            r == self.board.size,
    {
        self.board.size()
    }

    /// Komi, in tenths of a point.
    pub fn komi(&self) -> (r: i32)
        ensures
            r == self.komi,
    {
        self.komi
    }

    #[allow(non_snake_case)]
    pub fn setPlayAs(&mut self, player: Player)
        ensures
            final(self).play_as == Some(player),
            final(self).board == old(self).board,
            final(self).tree == old(self).tree,
            final(self).komi == old(self).komi,
            final(self).status == old(self).status,
            final(self).score_board == old(self).score_board,
    {
        self.play_as = Some(player);
    }

    #[allow(non_snake_case)]
    pub fn getPlayAs(&self) -> (r: Option<Player>)
        ensures
            r == self.play_as,
    {
        self.play_as
    }

    /// Plays a stone for the side to move. While scoring nothing happens.
    pub fn make_move(&mut self, location: Location) -> (r: Result<(), MoveError>)
        requires
            old(self).wf(),
            location.within(old(self).board.size as int),
        ensures
            final(self).wf(),
            final(self).komi == old(self).komi,
            final(self).play_as == old(self).play_as,
            final(self).status == old(self).status,
            old(self).status == GameStatus::Scoring ==> r is Ok && final(self).board == old(self).board
                && final(self).tree == old(self).tree && final(self).score_board == old(self).score_board,
            old(self).status == GameStatus::Playing ==> {
                let c = color_of(to_move(old(self).head()));
                &&& (r matches Err(MoveError::Occupied(l)) <==> old(self).board@.at(location) != ChessType::Empty)
                &&& (r matches Err(MoveError::Occupied(l)) ==> l == location)
                &&& (r matches Err(MoveError::Suicide(l)) <==> (old(self).board@.at(location) == ChessType::Empty
                    && is_suicide(old(self).board@, c, location)))
                &&& (r matches Err(MoveError::Suicide(l)) ==> l == location)
                &&& r != Err::<(), MoveError>(MoveError::NoStone)
                &&& r is Err ==> final(self).board@ == old(self).board@ && final(self).tree == old(self).tree
                &&& r is Ok ==> {
                    let ch = final(self).head().changes.unwrap();
                    &&& final(self).tree@ == old(self).tree@.push(next_node(old(self).head(), Some(ch)))
                    &&& ch.at == (Chess { chess_type: c, location })
                    &&& forall|p: Location| ch.remove@.contains(p) <==> is_dead(
                        with_stone(old(self).board@, location, c), p, crate::board::opposite(c))
                    &&& ch.remove@.no_duplicates()
                    &&& forall|i: int, j: int| 0 <= i < j < ch.remove@.len() ==> ch.remove@[i].index() < ch.remove@[j].index()
                    &&& fits(old(self).board@, ch)
                    &&& final(self).board.size == old(self).board.size
                    &&& final(self).board.cells@ == applied(old(self).board.cells@, ch)
                }
            },
    {
        if self.status == GameStatus::Scoring {
            return Ok(());
        }
        let head = self.tree.access_head();
        let mover = match head.player {
            None => Player::Black,
            Some(p) => p.switch(),
        };
        let steps = head.steps;
        let capture = head.capture;
        let color = match mover {
            Player::Black => ChessType::Black,
            Player::White => ChessType::White,
        };
        let ghost h0 = self.head();
        proof {
            assert(self.tree@[self.tree@.len() - 1] == h0);
        }
        match self.board.make_move(color, location) {
            Ok(ch) => {
                let taken = ch.remove.len();
                let next_capture = match mover {
                    Player::Black => (add_saturating(capture.0, taken), capture.1),
                    Player::White => (capture.0, add_saturating(capture.1, taken)),
                };
                let node = GoNode {
                    changes: Some(ch),
                    steps: add_saturating(steps, 1),
                    capture: next_capture,
                    player: Some(mover),
                };
                let ghost t0 = self.tree@;
                self.tree.grow(node);
                proof {
                    assert(self.tree@[self.tree@.len() - 1] == node);
                    assert forall|i: int| 0 <= i < self.tree@.len() - 1 implies #[trigger] self.tree@[i] == t0[i] by {}
                    assert forall|k: int| 0 <= k < ch.remove@.len() implies (#[trigger] ch.remove@[k]).within(self.board.size as int) by {}
                }
                Ok(())
            },
            Err(e) => Err(e),
        }
    }

    /// The stone at `location`.
    pub fn get_chess(&self, location: Location) -> (r: ChessType)
        requires
            self.wf(),
            location.within(self.board.size as int),
        ensures
            r == self.board@.at(location),
    {
        self.board.get(&location)
    }

    /// Whom `location` counts for; nobody outside scoring.
    pub fn get_belong(&self, location: Location) -> (r: Option<Player>)
        requires
            self.wf(),
            location.within(self.board.size as int),
        ensures
            self.status == GameStatus::Playing ==> r.is_none(),
            self.status == GameStatus::Scoring ==> r == match self.score_board.unwrap().belong_board@.at(location) {
                Belong::Black => Some(Player::Black),
                Belong::White => Some(Player::White),
                Belong::Neither => None,
            },
    {
        match &self.score_board {
            Some(sb) => sb.get_belong(location),
            None => None,
        }
    }

    /// Passes. A pass right after a pass, or before any move, starts scoring
    /// with every stone alive. While scoring nothing happens.
    pub fn pass(&mut self)
        requires
            old(self).wf(),
        ensures
            final(self).wf(),
            final(self).komi == old(self).komi,
            final(self).play_as == old(self).play_as,
            final(self).board == old(self).board,
            pass_step(*old(self), *final(self)),
    {
        if self.status == GameStatus::Scoring {
            return ;
        }
        let head = self.tree.access_head();
        if head.changes.is_none() {
            let mut sb = ScoreBoard::new(&self.board);
            sb.refresh_belong(&self.board);
            self.score_board = Some(sb);
            self.status = GameStatus::Scoring;
            return ;
        }
        let mover = match head.player {
            None => Player::Black,
            Some(p) => p.switch(),
        };
        let node = GoNode {
            changes: None,
            steps: add_saturating(head.steps, 1),
            capture: head.capture,
            player: Some(mover),
        };
        let ghost h0 = self.head();
        let ghost t0 = self.tree@;
        proof {
            assert(self.tree@[self.tree@.len() - 1] == h0);
        }
        self.tree.grow(node);
        proof {
            assert(self.tree@[self.tree@.len() - 1] == node);
            assert forall|i: int| 0 <= i < self.tree@.len() - 1 implies #[trigger] self.tree@[i] == t0[i] by {}
            match h0.player {
                Some(p) => assert(mover == Player::other(p)),
                None => {},
            }
        }
    }

    /// The side to move.
    pub fn player(&self) -> (r: Player)
        requires
            self.wf(),
        ensures
            r == to_move(self.head()),
    {
        let head = self.tree.access_head();
        match head.player {
            None => Player::Black,
            Some(p) => p.switch(),
        }
    }

    /// Stones captured by `player`; while scoring, the dead stones of the
    /// other color count too.
    pub fn get_capture(&self, player: &Player) -> (r: i32)
        requires
            self.wf(),
        ensures
            self.status == GameStatus::Playing ==> r == captures_of(self.head(), *player),
            self.status == GameStatus::Scoring ==> r == sat_add(captures_of(self.head(), *player), dead_count(
                self.board@, self.score_board.unwrap().live_board@, color_of(Player::other(*player)), 361) as int),
    {
        let head = self.tree.access_head();
        let ghost h0 = self.head();
        proof {
            assert(self.tree@[self.tree@.len() - 1] == h0);
        }
        let own = match player {
            Player::Black => head.capture.0,
            Player::White => head.capture.1,
        };
        match &self.score_board {
            Some(sb) => {
                let dead = sb.get_capture(&self.board, player);
                proof {
                    crate::scoring_board::lemma_dead_count_bound(self.board@, sb.live_board@, color_of(Player::other(*player)), 361);
                }
                add_saturating(own, dead as usize)
            },
            None => own,
        }
    }

    /// Number of plies played, passes included.
    pub fn steps(&self) -> (r: i32)
        requires
            self.wf(),
        ensures
            r == self.head().steps,
    {
        self.tree.access_head().steps
    }

    /// Takes back the last ply and returns to play; at the root only the
    /// scoring state is dropped.
    pub fn regret(&mut self)
        requires
            old(self).wf(),
        ensures
            final(self).wf(),
            final(self).komi == old(self).komi,
            final(self).play_as == old(self).play_as,
            final(self).status == GameStatus::Playing,
            final(self).score_board.is_none(),
            final(self).board.size == old(self).board.size,
            old(self).tree@.len() == 1 ==> final(self).tree@ == old(self).tree@ && final(self).board == old(self).board,
            old(self).tree@.len() > 1 ==> final(self).tree@ == old(self).tree@.drop_last() && final(self).board.cells@
                == match old(self).head().changes {
                Some(ch) => reverted(old(self).board.cells@, ch),
                None => old(self).board.cells@,
            },
    {
        self.status = GameStatus::Playing;
        self.score_board = None;
        let ghost t0 = self.tree@;
        let removed = self.tree.remove_head();
        proof {
            if t0.len() > 1 {
                assert forall|i: int| 0 <= i < self.tree@.len() implies #[trigger] self.tree@[i] == t0[i] by {}
                assert(t0[t0.len() - 1] == t0.last());
            }
        }
        match removed {
            Some(node) => {
                match node.changes {
                    Some(ch) => {
                        self.board.reverse_change(&ch);
                    },
                    None => {},
                }
            },
            None => {},
        }
    }

    pub fn get_status(&self) -> (r: GameStatus)
        ensures
            r == self.status,
    {
        self.status
    }

    /// While scoring, flips the liveness of the group at `location` and
    /// recomputes ownership; otherwise nothing happens.
    pub fn toggle(&mut self, location: Location)
        requires
            old(self).wf(),
            location.within(old(self).board.size as int),
        ensures
            final(self).wf(),
            toggle_step(*old(self), *final(self), location),
    {
        if self.board.get(&location) == ChessType::Empty {
            return ;
        }
        match &mut self.score_board {
            Some(sb) => {
                sb.toggle(&self.board, location);
                sb.refresh_belong(&self.board);
            },
            None => {},
        }
    }

    /// Whether the stone at `location` counts as alive; every stone does outside scoring.
    pub fn is_alive(&self, location: Location) -> (r: bool)
        requires
            self.wf(),
            location.within(self.board.size as int),
        ensures
            self.status == GameStatus::Playing ==> r,
            self.status == GameStatus::Scoring ==> r == (self.score_board.unwrap().live_board@.at(location) == Live::Alive),
    {
        match &self.score_board {
            Some(sb) => sb.is_alive(location),
            None => true,
        }
    }

    /// The console view of the game.
    pub fn to_text(&self) -> (r: String)
        requires
            self.wf(),
        ensures
            r@ == self.text(),
    {
        let head = self.tree.access_head();
        let ghost h0 = self.head();
        proof {
            assert(self.tree@[self.tree@.len() - 1] == h0);
        }
        let mut out: Vec<char> = Vec::new();
        crate::sgf::push_digits(&mut out, head.steps as u32 + 1);
        let mark = match self.player() {
            Player::Black => 'X',
            Player::White => 'O',
        };
        let steps = crate::sgf::join_text("\tSteps: ", &out);
        let mut tail: Vec<char> = Vec::new();
        tail.push(mark);
        tail.push('\n');
        let player = crate::sgf::join_text("\n\tPlayer : ", &tail);
        let board = self.board.to_text();
        let mut r = steps;
        r.append(player.as_str());
        r.append(board.as_str());
        proof {
            assert(tail@ =~= seq![mark, '\n']);
            assert(r@ =~= self.text());
        }
        r
    }

    /// Black's and White's scores in tenths of a point while scoring, else
    /// zero: points owned minus the other side's captures, plus komi for White.
    pub fn get_score(&self) -> (r: (i64, i64))
        requires
            self.wf(),
        ensures
            self.status == GameStatus::Playing ==> r == (0i64, 0i64),
            self.status == GameStatus::Scoring ==> {
                let owned = self.score_board.unwrap().belong_board@;
                let size = self.board.size as int;
                &&& r.0 == 10 * (belong_count(owned, size, Belong::Black, 361) - self.capture_total(Player::White))
                &&& r.1 == 10 * (belong_count(owned, size, Belong::White, 361) - self.capture_total(Player::Black))
                    + self.komi
            },
    {
        if self.status != GameStatus::Scoring {
            return (0, 0);
        }
        let sb = match &self.score_board {
            Some(sb) => sb,
            None => {
                return (0, 0);
            },
        };
        let size = self.board.size;
        let ghost owned = sb.belong_board@;
        let mut black: i64 = 0;
        let mut white: i64 = 0;
        let mut i: usize = 0;
        while i < 361
            invariant
                self.wf(),
                self.status == GameStatus::Scoring,
                self.score_board == Some(*sb),
                owned == sb.belong_board@,
                size == self.board.size,
                i <= 361,
                black == belong_count(owned, size as int, Belong::Black, i as int),
                white == belong_count(owned, size as int, Belong::White, i as int),
                0 <= black <= i,
                0 <= white <= i,
            decreases 361 - i,
        {
            let location = Location { alphabet: (i / 19) as u8, digit: (i % 19) as u8 };
            proof {
                crate::board::lemma_index_location(i as int);
                lemma_belong_count_bound(owned, size as int, Belong::Black, i as int);
                lemma_belong_count_bound(owned, size as int, Belong::White, i as int);
            }
            assert(location == location_of(i as int));
            if location.alphabet < size && location.digit < size {
                match self.get_belong(location) {
                    Some(Player::Black) => {
                        black = black + 1;
                    },
                    Some(Player::White) => {
                        white = white + 1;
                    },
                    None => {},
                }
            }
            i = i + 1;
        }
        let black_taken = self.get_capture(&Player::Black);
        let white_taken = self.get_capture(&Player::White);
        (10 * (black - white_taken as i64), 10 * (white - black_taken as i64) + self.komi as i64)
    }

    /// The game record: every ply from the first, in order.
    pub fn to_sgf(&self) -> (r: String)
        requires
            self.wf(),
        ensures
            r@ == self.sgf_text(),
    {
        let size = self.board.size;
        let nodes = self.tree.preorder();
        let mut out: Vec<char> = Vec::new();
        crate::sgf::push_tenths(&mut out, self.komi);
        out.push(']');
        let ghost head_text = out@;
        let mut i: usize = 1;
        proof {
            assert(self.wf());
        }
        while i < nodes.len()
            invariant
                self.board.wf(),
                self.tree.wf(),
                forall|i: int| 0 <= i < self.tree@.len() ==> match (#[trigger] self.tree@[i]).changes {
                    Some(ch) => ch.at.location.within(self.board.size as int),
                    None => true,
                },
                nodes@.len() == self.tree@.len(),
                forall|k: int| 0 <= k < nodes@.len() ==> *nodes@[k] == self.tree@[k],
                size == self.board.size,
                1 <= i <= nodes@.len(),
                out@ == head_text + records(self.tree@.subrange(1, i as int), size as int),
            decreases nodes@.len() - i,
        {
            let node: &GoNode = nodes[i];
            assert(*node == self.tree@[i as int]);
            let ghost before = out@;
            out.push(';');
            let who = match node.player {
                Some(Player::Black) => 'B',
                _ => 'W',
            };
            out.push(who);
            out.push('[');
            match &node.changes {
                Some(ch) => {
                    out.push(crate::sgf::coord(ch.at.location.alphabet));
                    out.push(crate::sgf::coord(size - 1 - ch.at.location.digit));
                },
                None => {},
            }
            out.push(']');
            out.push('\n');
            proof {
                let sub = self.tree@.subrange(1, i + 1);
                assert(sub.drop_last() =~= self.tree@.subrange(1, i as int));
                assert(sub.last() == self.tree@[i as int]);
                assert(out@ =~= before + record(self.tree@[i as int], size as int));
            }
            i = i + 1;
        }
        out.push(')');
        join_text_with_header(&out)
    }
}

/// Passing twice from a move starts scoring at the second pass, not the first,
/// and a further pass changes nothing.
pub proof fn lemma_two_passes_score(e0: GoGameEngine, e1: GoGameEngine, e2: GoGameEngine, e3: GoGameEngine)
    requires
        e0.wf(),
        e0.status == GameStatus::Playing,
        e0.head().changes.is_some(),
        pass_step(e0, e1),
        pass_step(e1, e2),
        pass_step(e2, e3),
    ensures
        e1.status == GameStatus::Playing,
        e2.status == GameStatus::Scoring,
        e3.status == GameStatus::Scoring,
        e3.tree == e2.tree,
        e3.board == e2.board,
        e3.score_board == e2.score_board,
{
    assert(e1.tree@.last() == next_node(e0.head(), None));
}

/// A pass at the start of a game, or right after a pass, starts scoring at once.
pub proof fn lemma_pass_after_pass_scores(e0: GoGameEngine, e1: GoGameEngine)
    requires
        e0.status == GameStatus::Playing,
        e0.head().changes.is_none(),
        pass_step(e0, e1),
    ensures
        e1.status == GameStatus::Scoring,
        e1.tree == e0.tree,
{
}

/// Liveness and ownership grids that two toggles at `location` lead through
/// come back to where they started.
proof fn lemma_views_restored(
    b: GridView<ChessType>,
    l0: GridView<Live>,
    l1: GridView<Live>,
    l2: GridView<Live>,
    o0: GridView<Belong>,
    o2: GridView<Belong>,
    location: Location,
)
    requires
        b.size <= 19,
        l0.cells.len() == 361 && l2.cells.len() == 361 && o0.cells.len() == 361 && o2.cells.len() == 361,
        l0.size == b.size && l2.size == b.size && o0.size == b.size && o2.size == b.size,
        forall|p: Location| #![trigger l1.at(p)] p.within(b.size) ==> l1.at(p) == toggled(b, l0, location, p),
        forall|p: Location| #![trigger l2.at(p)] p.within(b.size) ==> l2.at(p) == toggled(b, l1, location, p),
        forall|p: Location| #![trigger o0.at(p)] p.within(b.size) ==> o0.at(p) == belong_of(b, l0, p),
        forall|p: Location| #![trigger o2.at(p)] p.within(b.size) ==> o2.at(p) == belong_of(b, l2, p),
        forall|i: int| 0 <= i < 361 && !location_of(i).within(b.size) ==> #[trigger] l2.cells[i] == l0.cells[i],
        forall|i: int| 0 <= i < 361 && !location_of(i).within(b.size) ==> #[trigger] o2.cells[i] == o0.cells[i],
    ensures
        l2 == l0,
        o2 == o0,
{
    assert forall|i: int| 0 <= i < 361 implies #[trigger] l2.cells[i] == l0.cells[i] by {
        crate::board::lemma_index_location(i);
        if location_of(i).within(b.size) {
            crate::scoring_board::lemma_toggle_twice(b, l0, l1, l2, location, location_of(i));
        }
    }
    assert(l2.cells =~= l0.cells);
    assert(l2 =~= l0);
    assert forall|i: int| 0 <= i < 361 implies #[trigger] o2.cells[i] == o0.cells[i] by {
        crate::board::lemma_index_location(i);
        if location_of(i).within(b.size) {
            assert(o2.at(location_of(i)) == o0.at(location_of(i)));
        }
    }
    assert(o2.cells =~= o0.cells);
}

/// Toggling the same point twice while scoring gives back every liveness
/// and every owner, so captures and score come back too.
pub proof fn lemma_toggle_twice_restores(e0: GoGameEngine, e1: GoGameEngine, e2: GoGameEngine, location: Location)
    requires
        e0.wf(),
        e1.wf(),
        e2.wf(),
        e0.status == GameStatus::Scoring,
        location.within(e0.board.size as int),
        toggle_step(e0, e1, location),
        toggle_step(e1, e2, location),
    ensures
        e2.score_board.unwrap().live_board@ == e0.score_board.unwrap().live_board@,
        e2.score_board.unwrap().belong_board@ == e0.score_board.unwrap().belong_board@,
{
    if e0.board@.at(location) != ChessType::Empty {
        let (s0, s1, s2) = (e0.score_board.unwrap(), e1.score_board.unwrap(), e2.score_board.unwrap());
        lemma_views_restored(e0.board@, s0.live_board@, s1.live_board@, s2.live_board@, s0.belong_board@,
            s2.belong_board@, location);
    }
}

/// Stones captured by `p` over the plies of `nodes` after the first (the
/// root), added up as the counters do, held at the largest `i32`.
pub open spec fn history_captures(nodes: Seq<GoNode>, p: Player) -> int
    decreases nodes.len(),
{
    if nodes.len() <= 1 {
        0
    } else {
        let last = nodes.last();
        let taken = match last.changes {
            Some(ch) if last.player == Some(p) => ch.remove@.len() as int,
            _ => 0,
        };
        sat_add(history_captures(nodes.drop_last(), p), taken)
    }
}

proof fn lemma_prefix_captures(nodes: Seq<GoNode>, p: Player)
    requires
        nodes.len() >= 1,
        nodes[0].capture == (0i32, 0i32),
        forall|i: int| 1 <= i < nodes.len() ==> #[trigger] nodes[i] == next_node(nodes[i - 1], nodes[i].changes),
        forall|i: int| 0 <= i < nodes.len() ==> (#[trigger] nodes[i]).capture.0 >= 0 && nodes[i].capture.1 >= 0,
    ensures
        captures_of(nodes.last(), p) == history_captures(nodes, p),
    decreases nodes.len(),
{
    if nodes.len() > 1 {
        let init = nodes.drop_last();
        assert forall|i: int| 1 <= i < init.len() implies #[trigger] init[i] == next_node(init[i - 1], init[i].changes) by {
            assert(nodes[i] == next_node(nodes[i - 1], nodes[i].changes));
        }
        assert forall|i: int| 0 <= i < init.len() implies (#[trigger] init[i]).capture.0 >= 0 && init[i].capture.1 >= 0 by {
            assert(init[i] == nodes[i]);
        }
        lemma_prefix_captures(init, p);
        let k = nodes.len() - 1;
        assert(nodes[k] == next_node(nodes[k - 1], nodes[k].changes));
        assert(nodes[k - 1] == init.last());
        assert(nodes[k - 1].capture.0 >= 0 && nodes[k - 1].capture.1 >= 0);
    }
}

/// Each side's capture count at the head is what its plies captured, added
/// up along the history from the root.
pub proof fn lemma_captures_are_history(e: GoGameEngine, p: Player)
    requires
        e.wf(),
    ensures
        captures_of(e.head(), p) == history_captures(e.tree@, p),
{
    lemma_prefix_captures(e.tree@, p);
}

proof fn lemma_prefix_steps(nodes: Seq<GoNode>)
    requires
        nodes.len() >= 1,
        nodes[0].steps == 0,
        forall|i: int| 1 <= i < nodes.len() ==> #[trigger] nodes[i] == next_node(nodes[i - 1], nodes[i].changes),
    ensures
        nodes.last().steps == sat_add(0, nodes.len() - 1),
    decreases nodes.len(),
{
    if nodes.len() > 1 {
        let init = nodes.drop_last();
        assert forall|i: int| 1 <= i < init.len() implies #[trigger] init[i] == next_node(init[i - 1], init[i].changes) by {
            assert(nodes[i] == next_node(nodes[i - 1], nodes[i].changes));
        }
        lemma_prefix_steps(init);
        let k = nodes.len() - 1;
        assert(nodes[k] == next_node(nodes[k - 1], nodes[k].changes));
        assert(nodes[k - 1] == init.last());
    }
}

/// The step count at the head is the number of plies from the root, held at
/// the largest `i32`; so undoing a ply lowers it by one below that bound.
pub proof fn lemma_steps_are_depth(e: GoGameEngine)
    requires
        e.wf(),
    ensures
        e.head().steps == sat_add(0, e.tree@.len() - 1),
{
    lemma_prefix_steps(e.tree@);
}

/// The side named by a record's color letter.
pub open spec fn side_of(c: char) -> Option<Player> {
    if c == 'B' {
        Some(Player::Black)
    } else if c == 'W' {
        Some(Player::White)
    } else {
        None
    }
}

/// Reads game-record entries from the front: `;B[]` or `;W[]` for a pass,
/// `;B[xy]` or `;W[xy]` for a move with column letter `x` and row letter `y`
/// counted from the top, each followed by a line break.
pub open spec fn read_records(t: Seq<char>, size: int) -> Option<Seq<(Option<Player>, Option<Location>)>>
    decreases t.len(),
{
    if t.len() == 0 {
        Some(Seq::empty())
    } else if t.len() >= 5 && t[0] == ';' && side_of(t[1]).is_some() && t[2] == '[' && t[3] == ']' && t[4] == '\n' {
        match read_records(t.skip(5), size) {
            Some(rest) => Some(seq![(side_of(t[1]), None::<Location>)] + rest),
            None => None,
        }
    } else if t.len() >= 7 && t[0] == ';' && side_of(t[1]).is_some() && t[2] == '[' && 0 <= coord_index(t[3]) < size
        && 0 <= coord_index(t[4]) < size && t[5] == ']' && t[6] == '\n' {
        match read_records(t.skip(7), size) {
            Some(rest) => Some(
                seq![(side_of(t[1]), Some(Location { alphabet: coord_index(t[3]) as u8, digit: (size - 1 - coord_index(t[4])) as u8 }))]
                    + rest,
            ),
            None => None,
        }
    } else {
        None
    }
}

proof fn lemma_records_front(nodes: Seq<GoNode>, size: int)
    requires
        nodes.len() >= 1,
    ensures
        records(nodes, size) == record(nodes[0], size) + records(nodes.drop_first(), size),
    decreases nodes.len(),
{
    if nodes.len() == 1 {
        assert(nodes.drop_last() =~= Seq::<GoNode>::empty());
        assert(nodes.drop_first() =~= Seq::<GoNode>::empty());
        assert(records(nodes, size) =~= record(nodes[0], size));
    } else {
        let init = nodes.drop_last();
        lemma_records_front(init, size);
        assert(init.drop_first() =~= nodes.drop_first().drop_last());
        assert(nodes.drop_first().last() == nodes.last());
        assert(records(nodes, size) =~= record(nodes[0], size) + records(nodes.drop_first(), size));
    }
}

/// Reading the entries written for some plies gives back exactly those plies.
pub proof fn lemma_read_records(nodes: Seq<GoNode>, size: int)
    requires
        1 <= size <= 19,
        plies_fit(nodes, size),
    ensures
        read_records(records(nodes, size), size) == Some(nodes.map_values(|n: GoNode| ply_of(n))),
    decreases nodes.len(),
{
    let plies = nodes.map_values(|n: GoNode| ply_of(n));
    if nodes.len() == 0 {
        assert(plies =~= Seq::empty());
    } else {
        let n0 = nodes[0];
        let rest = nodes.drop_first();
        assert(plies_fit(rest, size)) by {
            assert forall|i: int| 0 <= i < rest.len() implies #[trigger] rest[i] == nodes[i + 1] by {}
        }
        lemma_records_front(nodes, size);
        lemma_read_records(rest, size);
        let x = record(n0, size);
        let t = records(nodes, size);
        assert(t == x + records(rest, size));
        assert(n0.player.is_some());
        match n0.changes {
            None => {
                assert(x.len() == 5);
                assert(t[0] == ';' && t[1] == x[1] && t[2] == '[' && t[3] == ']' && t[4] == '\n');
                assert(side_of(t[1]) == n0.player);
                assert(t.skip(5) =~= records(rest, size));
                assert(read_records(t, size) == Some(seq![ply_of(n0)] + rest.map_values(|n: GoNode| ply_of(n))));
            },
            Some(ch) => {
                let l = ch.at.location;
                lemma_coord_index(l.alphabet as int);
                lemma_coord_index(size - 1 - l.digit);
                assert(x.len() == 7);
                assert(t[0] == ';' && t[1] == x[1] && t[2] == '[' && t[5] == ']' && t[6] == '\n');
                assert(t[3] == coord_char(l.alphabet as int));
                assert(t[4] == coord_char(size - 1 - l.digit));
                assert(coord_index(t[3]) == l.alphabet);
                assert(coord_index(t[4]) == size - 1 - l.digit);
                assert(t[3] != ']');
                assert(side_of(t[1]) == n0.player);
                assert(t.skip(7) =~= records(rest, size));
                assert(read_records(t, size) == Some(seq![ply_of(n0)] + rest.map_values(|n: GoNode| ply_of(n))));
            },
        }
        assert(plies =~= seq![ply_of(n0)] + rest.map_values(|n: GoNode| ply_of(n)));
    }
}

/// The fixed opening of every game record, up to the komi value.
pub open spec fn game_prefix() -> Seq<char> {
    "(;GM[1]FF[4]CA[UTF-8]AP[TGoBan:0.0.1]RU[Japanese]KM["@
}

/// The first closing bracket of `s` at or after `i`, or the length of `s`.
pub open spec fn close_from(s: Seq<char>, i: int) -> int
    decreases s.len() - i,
{
    if i < 0 || i >= s.len() {
        s.len() as int
    } else if s[i] == ']' {
        i
    } else {
        close_from(s, i + 1)
    }
}

/// Reads a game record: the fixed opening, a komi value up to its closing
/// bracket, the ply entries, and a closing parenthesis.
pub open spec fn read_game(t: Seq<char>, size: int) -> Option<Seq<(Option<Player>, Option<Location>)>> {
    let p = game_prefix();
    if t.len() >= p.len() + 1 && t.take(p.len() as int) == p && t.last() == ')' {
        let body = t.subrange(p.len() as int, t.len() - 1);
        let k = close_from(body, 0);
        if k < body.len() {
            read_records(body.skip(k + 1), size)
        } else {
            None
        }
    } else {
        None
    }
}

proof fn lemma_close_from(s: Seq<char>, a: int, i: int)
    requires
        0 <= i <= a < s.len(),
        s[a] == ']',
        forall|k: int| 0 <= k < a ==> s[k] != ']',
    ensures
        close_from(s, i) == a,
    decreases a - i,
{
    if i < a {
        lemma_close_from(s, a, i + 1);
    }
}

/// A game record read back gives the plies of the history, root excluded:
/// each mover, and each move's point or a pass, in order.
pub proof fn lemma_record_read_back(e: GoGameEngine)
    requires
        e.wf(),
    ensures
        read_game(e.sgf_text(), e.board.size as int) == Some(
            e.tree@.subrange(1, e.tree@.len() as int).map_values(|n: GoNode| ply_of(n)),
        ),
{
    let size = e.board.size as int;
    let sub = e.tree@.subrange(1, e.tree@.len() as int);
    assert(plies_fit(sub, size)) by {
        assert forall|i: int| 0 <= i < sub.len() implies (#[trigger] sub[i]).player.is_some() && match sub[i].changes {
            Some(ch) => ch.at.location.within(size),
            None => true,
        } by {
            assert(sub[i] == e.tree@[i + 1]);
        }
    }
    lemma_read_records(sub, size);
    let p = game_prefix();
    let k = tenths_text(e.komi as int);
    let r = records(sub, size);
    let t = e.sgf_text();
    assert(t == p + k + seq![']'] + r + seq![')']);
    assert(t.take(p.len() as int) =~= p);
    let body = t.subrange(p.len() as int, t.len() - 1);
    assert(body =~= k + seq![']'] + r);
    crate::sgf::lemma_tenths_no_close(e.komi as int);
    assert forall|j: int| 0 <= j < k.len() implies body[j] != ']' by {
        assert(body[j] == k[j]);
    }
    lemma_close_from(body, k.len() as int, 0);
    assert(body.skip((k.len() + 1) as int) =~= r);
}

} // verus!
