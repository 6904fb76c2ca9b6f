use vstd::prelude::*;
use crate::board::{Board, ChessType, GridView, Location, opposite, BOARD_SIZE_MAX};
use crate::liberty::is_dead;

verus! {

/// The stones of a game: one color, or nothing, per point.
pub type GoBoard = Board<ChessType>;

/// A stone: its color and where it stands.
#[derive(Debug, Copy, Clone, PartialEq, Eq, Structural)]
pub struct Chess {
    pub chess_type: ChessType,
    pub location: Location,
}

/// What a successful move did: the stone placed and the stones it captured.
pub struct ChessChange {
    pub at: Chess,
    pub remove: Vec<Location>,
}

/// Why a move was refused.
#[derive(Debug, Copy, Clone, PartialEq, Eq, Structural)]
pub enum MoveError {
    /// The point already holds a stone.
    Occupied(Location),
    /// The stone would leave its own stones without a liberty and capture nothing.
    Suicide(Location),
    /// `Empty` is not a color that can be placed.
    NoStone,
}

/// `b` with `c` put at `p`.
pub open spec fn with_stone(b: GridView<ChessType>, p: Location, c: ChessType) -> GridView<ChessType> {
    GridView { size: b.size, cells: b.cells.update(p.index(), c) }
}

/// Some stone of color `c` has no liberty.
pub open spec fn has_dead(b: GridView<ChessType>, c: ChessType) -> bool {
    exists|p: Location| #[trigger] is_dead(b, p, c)
}

/// Placing `c` at `p` leaves stones of `c` without a liberty while no
/// stone of the other color loses its last one.
pub open spec fn is_suicide(b: GridView<ChessType>, c: ChessType, p: Location) -> bool {
    let t = with_stone(b, p, c);
    has_dead(t, c) && !has_dead(t, opposite(c))
}

/// Cell `i` is one of the points in `rm`.
pub open spec fn listed(rm: Seq<Location>, i: int) -> bool {
    exists|k: int| 0 <= k < rm.len() && #[trigger] rm[k].index() == i
}

/// `cells` with every point of `rm` emptied.
pub open spec fn cleared(cells: Seq<ChessType>, rm: Seq<Location>) -> Seq<ChessType> {
    Seq::new(cells.len(), |i: int| if listed(rm, i) { ChessType::Empty } else { cells[i] })
}

/// The cells after the move `ch`: its stone placed, its captures emptied.
pub open spec fn applied(cells: Seq<ChessType>, ch: ChessChange) -> Seq<ChessType> {
    cleared(cells.update(ch.at.location.index(), ch.at.chess_type), ch.remove@)
}

/// The cells after undoing `ch`: its point emptied, its captures given back
/// to the other color. A change that placed no stone undoes nothing.
pub open spec fn reverted(cells: Seq<ChessType>, ch: ChessChange) -> Seq<ChessType> {
    if ch.at.chess_type == ChessType::Empty {
        cells
    } else {
        Seq::new(
            cells.len(),
            |i: int|
                if listed(ch.remove@, i) {
                    opposite(ch.at.chess_type)
                } else if i == ch.at.location.index() {
                    ChessType::Empty
                } else {
                    cells[i]
                },
        )
    }
}

/// `ch` describes a move that could be made on `b`: a stone put on an empty
/// point, taking only stones of the other color.
pub open spec fn fits(b: GridView<ChessType>, ch: ChessChange) -> bool {
    &&& ch.at.chess_type != ChessType::Empty
    &&& ch.at.location.within(b.size)
    &&& b.at(ch.at.location) == ChessType::Empty
    &&& forall|k: int| 0 <= k < ch.remove@.len() ==> (#[trigger] ch.remove@[k]).within(b.size)
        && b.at(ch.remove@[k]) == opposite(ch.at.chess_type)
}

/// Undoing a move right after making it gives back the board it was made on.
pub proof fn lemma_reverse_restores(b: GridView<ChessType>, ch: ChessChange)
    requires
        b.size <= BOARD_SIZE_MAX,
        b.cells.len() == 361,
        fits(b, ch),
    ensures
        reverted(applied(b.cells, ch), ch) == b.cells,
{
    let after = applied(b.cells, ch);
    assert forall|i: int| 0 <= i < b.cells.len() implies #[trigger] reverted(after, ch)[i] == b.cells[i] by {
        if listed(ch.remove@, i) {
            let k = choose|k: int| 0 <= k < ch.remove@.len() && #[trigger] ch.remove@[k].index() == i;
            assert(b.at(ch.remove@[k]) == opposite(ch.at.chess_type));
        }
    }
    assert(reverted(after, ch) =~= b.cells);
}

proof fn lemma_cleared_step(cells: Seq<ChessType>, rm: Seq<Location>, k: int)
    requires
        0 <= k < rm.len(),
        0 <= rm[k].index() < cells.len(),
    ensures
        cleared(cells, rm.take(k + 1)) == cleared(cells, rm.take(k)).update(rm[k].index(), ChessType::Empty),
{
    let next = rm.take(k + 1);
    let prev = rm.take(k);
    assert forall|i: int| 0 <= i < cells.len() implies #[trigger] cleared(cells, next)[i] == cleared(cells, prev).update(rm[k].index(), ChessType::Empty)[i] by {
        if listed(prev, i) {
            let j = choose|j: int| 0 <= j < prev.len() && #[trigger] prev[j].index() == i;
            assert(next[j] == prev[j]);
        }
        if listed(next, i) && i != rm[k].index() {
            let j = choose|j: int| 0 <= j < next.len() && #[trigger] next[j].index() == i;
            assert(prev[j] == next[j]);
        }
        if i == rm[k].index() {
            assert(next[k] == rm[k]);
        }
    }
    assert(cleared(cells, next) =~= cleared(cells, prev).update(rm[k].index(), ChessType::Empty));
}

/// The character a point is drawn with.
pub open spec fn cell_char(c: ChessType) -> char {
    match c {
        ChessType::Empty => '.',
        ChessType::Black => 'X',
        ChessType::White => 'O',
    }
}

/// The first `n` points of row `digit`, from the left.
pub open spec fn row_text(b: GridView<ChessType>, digit: int, n: int) -> Seq<char>
    decreases n,
{
    if n <= 0 {
        Seq::empty()
    } else {
        row_text(b, digit, n - 1).push(cell_char(b.at(Location { alphabet: (n - 1) as u8, digit: digit as u8 })))
    }
}

/// The first `n` rows from the top, each ended by a line break.
pub open spec fn board_text(b: GridView<ChessType>, n: int) -> Seq<char>
    decreases n,
{
    if n <= 0 {
        Seq::empty()
    } else {
        board_text(b, n - 1) + row_text(b, b.size - n, b.size).push('\n')
    }
}

impl Board<ChessType> {
    /// The board drawn as text: one line per row from the top, `.` for an
    /// empty point, `X` for black and `O` for white.
    pub fn to_text(&self) -> (r: String)
        requires
            self.wf(),
        ensures
            r@ == board_text(self@, self.size as int),
    {
        let size = self.size;
        let mut out: Vec<char> = Vec::new();
        let mut i: u8 = 0;
        while i < size
            invariant
                self.wf(),
                size == self.size,
                i <= size,
                out@ == board_text(self@, i as int),
            decreases size - i,
        {
            let digit = size - i - 1;
            let ghost row_start = out@;
            let mut j: u8 = 0;
            while j < size
                invariant
                    self.wf(),
                    size == self.size,
                    i < size,
                    digit == size - i - 1,
                    j <= size,
                    out@ == row_start + row_text(self@, digit as int, j as int),
                decreases size - j,
            {
                let c = match self.get(&Location { alphabet: j, digit }) {
                    ChessType::Empty => '.',
                    ChessType::Black => 'X',
                    ChessType::White => 'O',
                };
                out.push(c);
                j = j + 1;
                assert(out@ =~= row_start + row_text(self@, digit as int, j as int));
            }
            out.push('\n');
            i = i + 1;
            assert(out@ =~= board_text(self@, i as int));
        }
        crate::sgf::chars_to_string(&out)
    }

    /// An empty board of side `size`.
    pub fn new(size: u8) -> (r: GoBoard)
        requires
            1 <= size <= BOARD_SIZE_MAX,
        ensures
            r.wf(),
            r.size == size,
            forall|i: int| 0 <= i < 361 ==> r.cells@[i] == ChessType::Empty,
    {
        Board::<ChessType>::filled(size, ChessType::Empty)
    }

    /// Places a stone of color `chess_type` at `location`, then removes the
    /// stones of the other color that are left without a liberty.
    pub fn make_move(&mut self, chess_type: ChessType, location: Location) -> (r: Result<ChessChange, MoveError>)
        requires
            old(self).wf(),
            location.within(old(self).size as int),
        ensures
            final(self).wf(),
            final(self).size == old(self).size,
            match r {
                Err(MoveError::Occupied(l)) => l == location && old(self)@.at(location) != ChessType::Empty
                    && final(self)@ == old(self)@,
                Err(MoveError::NoStone) => old(self)@.at(location) == ChessType::Empty && chess_type == ChessType::Empty
                    && final(self)@ == old(self)@,
                Err(MoveError::Suicide(l)) => l == location && old(self)@.at(location) == ChessType::Empty
                    && chess_type != ChessType::Empty && is_suicide(old(self)@, chess_type, location)
                    && final(self)@ == old(self)@,
                Ok(ch) => {
                    &&& old(self)@.at(location) == ChessType::Empty
                    &&& chess_type != ChessType::Empty
                    &&& !is_suicide(old(self)@, chess_type, location)
                    &&& ch.at == (Chess { chess_type, location })
                    &&& forall|p: Location| ch.remove@.contains(p) <==> is_dead(
                        with_stone(old(self)@, location, chess_type), p, opposite(chess_type))
                    &&& ch.remove@.no_duplicates()
                    &&& forall|i: int, j: int| 0 <= i < j < ch.remove@.len() ==> ch.remove@[i].index() < ch.remove@[j].index()
                    &&& fits(old(self)@, ch)
                    &&& final(self).cells@ == applied(old(self).cells@, ch)
                },
            },
    {
        if self.get(&location) != ChessType::Empty {
            return Err(MoveError::Occupied(location));
        }
        if chess_type == ChessType::Empty {
            return Err(MoveError::NoStone);
        }
        let ghost before = self@;
        self.set(&location, chess_type);
        assert(self@ == with_stone(before, location, chess_type));
        let deads = Board::<bool>::get_deads(self);
        let (own, opp) = if chess_type == ChessType::Black {
            (deads.0, deads.1)
        } else {
            (deads.1, deads.0)
        };
        let ghost t = self@;
        proof {
            if own@.len() > 0 {
                assert(own@.contains(own@[0]));
            }
            if has_dead(t, chess_type) {
                let p = choose|p: Location| #[trigger] is_dead(t, p, chess_type);
                assert(own@.contains(p));
            }
            if opp@.len() > 0 {
                assert(opp@.contains(opp@[0]));
            }
            if has_dead(t, opposite(chess_type)) {
                let p = choose|p: Location| #[trigger] is_dead(t, p, opposite(chess_type));
                assert(opp@.contains(p));
            }
        }
        if own.len() > 0 && opp.len() == 0 {
            self.set(&location, ChessType::Empty);
            assert(self@.cells =~= before.cells);
            return Err(MoveError::Suicide(location));
        }
        let ghost placed = self.cells@;
        let mut k: usize = 0;
        while k < opp.len()
            invariant
                self.wf(),
                self.size == before.size,
                0 <= k <= opp@.len(),
                placed.len() == 361,
                t.size == before.size,
                before.size == self.size as int,
                forall|p: Location| opp@.contains(p) <==> is_dead(t, p, opposite(chess_type)),
                self.cells@ == cleared(placed, opp@.take(k as int)),
            decreases opp@.len() - k,
        {
            let p = opp[k];
            assert(opp@.contains(p));
            proof {
                lemma_cleared_step(placed, opp@, k as int);
            }
            self.set(&p, ChessType::Empty);
            k = k + 1;
        }
        assert(opp@.take(opp@.len() as int) =~= opp@);
        let ch = ChessChange { at: Chess { chess_type, location }, remove: opp };
        proof {
            assert forall|k: int| 0 <= k < ch.remove@.len() implies (#[trigger] ch.remove@[k]).within(before.size)
                && before.at(ch.remove@[k]) == opposite(chess_type) by {
                let p = ch.remove@[k];
                assert(ch.remove@.contains(p));
                if p.index() == location.index() {
                    crate::board::lemma_index_injective(p, location);
                }
            }
        }
        Ok(ch)
    }

    /// Undoes `chess_change`: empties the point it played and gives its
    /// captured points back to the other color.
    pub fn reverse_change(&mut self, chess_change: &ChessChange)
        requires
            old(self).wf(),
            chess_change.at.location.within(old(self).size as int),
            forall|k: int| 0 <= k < chess_change.remove@.len() ==> (#[trigger] chess_change.remove@[k]).within(
                old(self).size as int),
        ensures
            final(self).wf(),
            final(self).size == old(self).size,
            final(self).cells@ == reverted(old(self).cells@, *chess_change),
    {
        let back = match chess_change.at.chess_type {
            ChessType::Empty => {
                return ;
            },
            ChessType::Black => ChessType::White,
            ChessType::White => ChessType::Black,
        };
        let ghost start = self.cells@;
        let at = chess_change.at.location;
        self.set(&at, ChessType::Empty);
        let ghost emptied = self.cells@;
        let rm = &chess_change.remove;
        let mut k: usize = 0;
        while k < rm.len()
            invariant
                self.wf(),
                self.size == old(self).size,
                0 <= k <= rm@.len(),
                rm == &chess_change.remove,
                emptied == start.update(at.index(), ChessType::Empty),
                start.len() == 361,
                forall|j: int| 0 <= j < rm@.len() ==> (#[trigger] rm@[j]).within(self.size as int),
                forall|i: int| 0 <= i < 361 ==> #[trigger] self.cells@[i] == if listed(rm@.take(k as int), i) {
                    back
                } else {
                    emptied[i]
                },
            decreases rm@.len() - k,
        {
            let p = rm[k];
            let ghost prev = self.cells@;
            self.set(&p, back);
            proof {
                let next = rm@.take(k + 1);
                let before = rm@.take(k as int);
                assert forall|i: int| 0 <= i < 361 implies #[trigger] self.cells@[i] == if listed(next, i) {
                    back
                } else {
                    emptied[i]
                } by {
                    if listed(before, i) {
                        let j = choose|j: int| 0 <= j < before.len() && #[trigger] before[j].index() == i;
                        assert(next[j] == before[j]);
                    }
                    if listed(next, i) && i != p.index() {
                        let j = choose|j: int| 0 <= j < next.len() && #[trigger] next[j].index() == i;
                        assert(before[j] == next[j]);
                    }
                    if i == p.index() {
                        assert(next[k as int] == p);
                    }
                }
            }
            k = k + 1;
        }
        proof {
            assert(rm@.take(rm@.len() as int) =~= rm@);
            assert(self.cells@ =~= reverted(start, *chess_change));
        }
    }
}

} // verus!
