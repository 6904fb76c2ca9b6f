use vstd::prelude::*;

verus! {

/// Largest supported board side; every grid stores this many columns and rows.
pub const BOARD_SIZE_MAX: u8 = 19;

/// Number of cells a grid stores, whatever its playable size.
pub const CELL_COUNT: usize = 361;

/// A point of the board: column (`alphabet`) and row (`digit`), both zero-based.
#[derive(Debug, Copy, Clone, PartialEq, Eq, Structural)]
pub struct Location {
    pub alphabet: u8,
    pub digit: u8,
}

impl Location {
    /// Position of this point in a grid's cell sequence.
    pub open spec fn index(self) -> int {
        self.alphabet as int * 19 + self.digit as int
    }

    /// The point lies on a board of side `size`.
    pub open spec fn within(self, size: int) -> bool {
        self.alphabet < size && self.digit < size
    }

    pub fn new() -> (r: Location)
        ensures
            r.alphabet == 0,
            r.digit == 0,
    {
        Location { alphabet: 0, digit: 0 }
    }

    /// Sets the column (`idx == 0`) or the row (`idx == 1`).
    pub fn set(&mut self, idx: u8, val: u8)
        requires
            idx < 2,
        ensures
            idx == 0 ==> final(self).alphabet == val && final(self).digit == old(self).digit,
            idx == 1 ==> final(self).digit == val && final(self).alphabet == old(self).alphabet,
    {
        if idx == 0 {
            self.alphabet = val;
        } else {
            self.digit = val;
        }
    }
}

/// The point of a cell index.
pub open spec fn location_of(i: int) -> Location {
    Location { alphabet: (i / 19) as u8, digit: (i % 19) as u8 }
}

pub proof fn lemma_index_location(i: int)
    requires
        0 <= i < 361,
    ensures
        location_of(i).index() == i,
        location_of(i).within(19),
{
}

pub proof fn lemma_index_injective(p: Location, q: Location)
    requires
        p.within(19),
        q.within(19),
        p.index() == q.index(),
    ensures
        p == q,
{
}

/// The point of a point's own index is that point.
pub proof fn lemma_location_of_index(p: Location)
    requires
        p.within(19),
    ensures
        location_of(p.index()) == p,
{
    lemma_index_location(p.index());
    lemma_index_injective(p, location_of(p.index()));
}

/// Two points of a board of side `size` that share an edge.
pub open spec fn adjacent(size: int, p: Location, q: Location) -> bool {
    &&& p.within(size)
    &&& q.within(size)
    &&& {
        ||| p.alphabet == q.alphabet && (p.digit + 1 == q.digit || q.digit + 1 == p.digit)
        ||| p.digit == q.digit && (p.alphabet + 1 == q.alphabet || q.alphabet + 1 == p.alphabet)
    }
}

/// What occupies a point: nothing, a black stone or a white stone.
#[derive(Debug, Copy, Clone, PartialEq, Eq, Structural)]
pub enum ChessType {
    Empty,
    Black,
    White,
}

/// The stone color that plays against `c` (`Empty` stays `Empty`).
pub open spec fn opposite(c: ChessType) -> ChessType {
    match c {
        ChessType::Empty => ChessType::Empty,
        ChessType::Black => ChessType::White,
        ChessType::White => ChessType::Black,
    }
}

/// What a grid holds: its side and its cells, in the order of `Location::index`.
pub struct GridView<T> {
    pub size: int,
    pub cells: Seq<T>,
}

impl<T> GridView<T> {
    /// The value stored at `p`.
    pub open spec fn at(self, p: Location) -> T {
        self.cells[p.index()]
    }
}

/// A square grid of side `size` that stores one value per point.
pub struct Board<T> {
    pub size: u8,
    pub cells: Vec<T>,
}

impl<T: Copy> View for Board<T> {
    type V = GridView<T>;

    open spec fn view(&self) -> GridView<T> {
        GridView { size: self.size as int, cells: self.cells@ }
    }
}

impl<T: Copy> Board<T> {
    pub open spec fn wf(&self) -> bool {
        &&& 1 <= self.size <= BOARD_SIZE_MAX
        &&& self.cells@.len() == CELL_COUNT
    }

    /// The value stored at `p`.
    pub open spec fn at(&self, p: Location) -> T {
        self.cells@[p.index()]
    }

    /// A grid of side `size` holding `v` everywhere.
    pub fn filled(size: u8, v: T) -> (r: Self)
        requires
            1 <= size <= BOARD_SIZE_MAX,
        ensures
            r.wf(),
            r.size == size,
            forall|i: int| 0 <= i < CELL_COUNT ==> r.cells@[i] == v,
    {
        let mut cells: Vec<T> = Vec::new();
        let mut i: usize = 0;
        while i < CELL_COUNT
            invariant
                i <= CELL_COUNT,
                cells@.len() == i,
                forall|j: int| 0 <= j < i ==> cells@[j] == v,
            decreases CELL_COUNT - i,
        {
            cells.push(v);
            i = i + 1;
        }
        Board { size, cells }
    }

    pub fn get(&self, location: &Location) -> (r: T)
        requires
            self.wf(),
            location.within(self.size as int),
        ensures
            r == self.at(*location),
    {
        self.cells[location.alphabet as usize * 19 + location.digit as usize]
    }

    pub fn size(&self) -> (r: u8)
        ensures
            r == self.size,
    {
        self.size
    }

    pub fn set(&mut self, location: &Location, t: T)
        requires
            old(self).wf(),
            location.within(old(self).size as int),
        ensures
            final(self).wf(),
            final(self).size == old(self).size,
            final(self).cells@ == old(self).cells@.update(location.index(), t),
    {
        self.cells.set(location.alphabet as usize * 19 + location.digit as usize, t);
    }

    /// The points that share an edge with `location`, inside the board.
    pub fn neighbors(&self, location: &Location) -> (r: Vec<Location>)
        requires
            self.wf(),
            location.within(self.size as int),
        ensures
            forall|q: Location| adjacent(self.size as int, *location, q) <==> r@.contains(q),
            r@.len() <= 4,
    {
        let mut r: Vec<Location> = Vec::new();
        let a = location.alphabet;
        let d = location.digit;
        let ghost left = r@.len();
        if a > 0 {
            r.push(Location { alphabet: a - 1, digit: d });
        }
        let ghost right = r@.len();
        if a < self.size - 1 {
            r.push(Location { alphabet: a + 1, digit: d });
        }
        let ghost down = r@.len();
        if d > 0 {
            r.push(Location { alphabet: a, digit: d - 1 });
        }
        let ghost up = r@.len();
        if d < self.size - 1 {
            r.push(Location { alphabet: a, digit: d + 1 });
        }
        proof {
            assert forall|q: Location| adjacent(self.size as int, *location, q) implies r@.contains(q) by {
                if q.alphabet + 1 == a {
                    assert(r@[left as int] == q);
                } else if q.alphabet == a + 1 {
                    assert(r@[right as int] == q);
                } else if q.digit + 1 == d {
                    assert(r@[down as int] == q);
                } else {
                    assert(r@[up as int] == q);
                }
            }
        }
        r
    }
}

} // verus!
