use vstd::prelude::*;
use crate::Player;
use crate::board::{Board, ChessType, GridView, Location, adjacent, location_of, BOARD_SIZE_MAX};
use crate::go_board::GoBoard;
use crate::liberty::{linked, is_chain, count_other, lemma_count_other_set, lemma_linked_symmetric};

verus! {

/// Whether the stone on a point is counted as alive.
#[derive(Debug, Copy, Clone, PartialEq, Eq, Structural)]
pub enum Live {
    Dead,
    Alive,
    NotStone,
}

/// Which side a point counts for.
#[derive(Debug, Copy, Clone, PartialEq, Eq, Structural)]
pub enum Belong {
    Black,
    White,
    Neither,
}

pub type LiveBoard = Board<Live>;

pub type BelongBoard = Board<Belong>;

impl Board<Live> {
    /// A grid where no point holds a stone.
    pub fn new(size: u8) -> (r: LiveBoard)
        requires
            1 <= size <= BOARD_SIZE_MAX,
        ensures
            r.wf(),
            r.size == size,
            forall|i: int| 0 <= i < 361 ==> r.cells@[i] == Live::NotStone,
    {
        Board::<Live>::filled(size, Live::NotStone)
    }
}

impl Board<Belong> {
    /// A grid where no point counts for anyone.
    pub fn new(size: u8) -> (r: BelongBoard)
        requires
            1 <= size <= BOARD_SIZE_MAX,
        ensures
            r.wf(),
            r.size == size,
            forall|i: int| 0 <= i < 361 ==> r.cells@[i] == Belong::Neither,
    {
        Board::<Belong>::filled(size, Belong::Neither)
    }
}

/// The liveness a toggle gives: alive and dead swap, a non-stone stays one.
pub open spec fn flipped(l: Live) -> Live {
    match l {
        Live::Alive => Live::Dead,
        Live::Dead => Live::Alive,
        Live::NotStone => Live::NotStone,
    }
}

/// The liveness of `p` after toggling the group at `at` on a grid with liveness `live`.
pub open spec fn toggled(b: GridView<ChessType>, live: GridView<Live>, at: Location, p: Location) -> Live {
    if in_group(b, at, p) {
        flipped(live.at(p))
    } else {
        live.at(p)
    }
}

/// `p` lies in the group of the stone at `s`.
pub open spec fn in_group(b: GridView<ChessType>, s: Location, p: Location) -> bool {
    exists|path: Seq<Location>| #[trigger] is_chain(b, path) && path[0] == s && path.last() == p
}

/// A walk that leaves an alive stone of color `c`, then crosses only points
/// that hold no alive stone.
pub open spec fn is_trail(b: GridView<ChessType>, live: GridView<Live>, c: ChessType, path: Seq<Location>) -> bool {
    &&& path.len() >= 2
    &&& b.at(path[0]) == c
    &&& live.at(path[0]) == Live::Alive
    &&& forall|k: int| 0 <= k < path.len() - 1 ==> #[trigger] adjacent(b.size, path[k], path[k + 1])
    &&& forall|k: int| 1 <= k < path.len() ==> live.at(#[trigger] path[k]) != Live::Alive
}

/// The alive stones of color `c` reach `p` without crossing an alive stone.
pub open spec fn reaches(b: GridView<ChessType>, live: GridView<Live>, c: ChessType, p: Location) -> bool {
    exists|path: Seq<Location>| #[trigger] is_trail(b, live, c, path) && path.last() == p
}

/// Whom `p` counts for: the one color that reaches it, or nobody.
pub open spec fn belong_of(b: GridView<ChessType>, live: GridView<Live>, p: Location) -> Belong {
    let black = reaches(b, live, ChessType::Black, p);
    let white = reaches(b, live, ChessType::White, p);
    if black && white {
        Belong::Neither
    } else if white {
        Belong::White
    } else if black {
        Belong::Black
    } else {
        Belong::Neither
    }
}

/// Number of cells among the first `n` that lie on a board of side `b.size`
/// and hold a dead stone of color `c`.
pub open spec fn dead_count(b: GridView<ChessType>, live: GridView<Live>, c: ChessType, n: int) -> nat
    decreases n,
{
    if n <= 0 {
        0
    } else {
        dead_count(b, live, c, n - 1) + if location_of(n - 1).within(b.size) && live.at(location_of(n - 1))
            == Live::Dead && b.at(location_of(n - 1)) == c {
            1nat
        } else {
            0nat
        }
    }
}

pub proof fn lemma_dead_count_bound(b: GridView<ChessType>, live: GridView<Live>, c: ChessType, n: int)
    requires
        n >= 0,
    ensures
        dead_count(b, live, c, n) <= n,
    decreases n,
{
    if n > 0 {
        lemma_dead_count_bound(b, live, c, n - 1);
    }
}

proof fn lemma_chain_color(b: GridView<ChessType>, path: Seq<Location>)
    requires
        is_chain(b, path),
    ensures
        b.at(path.last()) == b.at(path[0]),
        path.len() > 1 ==> path.last().within(b.size) && b.at(path[0]) != ChessType::Empty,
    decreases path.len(),
{
    if path.len() > 1 {
        let init = path.drop_last();
        assert forall|k: int| 0 <= k < init.len() - 1 implies #[trigger] linked(b, init[k], init[k + 1]) by {
            assert(linked(b, path[k], path[k + 1]));
        }
        lemma_chain_color(b, init);
        assert(linked(b, path[path.len() - 2], path[(path.len() - 2) + 1]));
    }
}

proof fn lemma_group_extend(b: GridView<ChessType>, s: Location, p: Location, q: Location)
    requires
        in_group(b, s, p),
        linked(b, p, q),
    ensures
        in_group(b, s, q),
{
    let path = choose|path: Seq<Location>| #[trigger] is_chain(b, path) && path[0] == s && path.last() == p;
    let longer = path.push(q);
    assert forall|k: int| 0 <= k < longer.len() - 1 implies #[trigger] linked(b, longer[k], longer[k + 1]) by {
        if k < path.len() - 1 {
            assert(linked(b, path[k], path[k + 1]));
        }
    }
    assert(is_chain(b, longer) && longer[0] == s && longer.last() == q);
}

/// Along a chain whose first stone has liveness `v`, when `v` is closed under
/// linking, the last stone has it too.
proof fn lemma_chain_status(b: GridView<ChessType>, live: GridView<Live>, v: Live, path: Seq<Location>)
    requires
        is_chain(b, path),
        live.at(path[0]) == v,
        forall|p: Location, q: Location| live.at(p) == v && #[trigger] linked(b, p, q) ==> live.at(q) == v,
    ensures
        live.at(path.last()) == v,
    decreases path.len(),
{
    if path.len() > 1 {
        let init = path.drop_last();
        assert forall|k: int| 0 <= k < init.len() - 1 implies #[trigger] linked(b, init[k], init[k + 1]) by {
            assert(linked(b, path[k], path[k + 1]));
        }
        lemma_chain_status(b, live, v, init);
        assert(linked(b, path[path.len() - 2], path[(path.len() - 2) + 1]));
    }
}

/// Liveness of every stone and ownership of every point, for the scoring phase.
pub struct ScoreBoard {
    pub size: u8,
    pub live_board: LiveBoard,
    pub belong_board: BelongBoard,
}

impl ScoreBoard {
    /// Fits the stones of `b`: a non-stone exactly on the empty points, and
    /// one liveness for all stones of a group.
    pub open spec fn wf(&self, b: GridView<ChessType>) -> bool {
        &&& self.live_board.wf()
        &&& self.belong_board.wf()
        &&& self.live_board.size == self.size
        &&& self.belong_board.size == self.size
        &&& b.size == self.size as int
        &&& forall|p: Location| #![trigger self.live_board@.at(p)] p.within(b.size) ==> (self.live_board@.at(p)
            == Live::NotStone <==> b.at(p) == ChessType::Empty)
        &&& forall|p: Location, q: Location| #[trigger] linked(b, p, q) ==> self.live_board@.at(p)
            == self.live_board@.at(q)
    }

    /// Every stone alive, no point owned yet.
    pub fn new(go_board: &GoBoard) -> (r: ScoreBoard)
        requires
            go_board.wf(),
        ensures
            r.wf(go_board@),
            forall|p: Location| #![trigger r.live_board@.at(p)] p.within(go_board.size as int) ==> r.live_board@.at(p)
                == if go_board@.at(p) == ChessType::Empty {
                Live::NotStone
            } else {
                Live::Alive
            },
            forall|p: Location| #![trigger r.belong_board@.at(p)] p.within(go_board.size as int) ==> r.belong_board@.at(p)
                == Belong::Neither,
    {
        let size = go_board.size;
        let mut live_board = LiveBoard::new(size);
        let belong_board = BelongBoard::new(size);
        let mut a: u8 = 0;
        while a < size
            invariant
                go_board.wf(),
                size == go_board.size,
                live_board.wf(),
                live_board.size == size,
                a <= size,
                forall|p: Location| #![trigger live_board@.at(p)] p.within(size as int) ==> live_board@.at(p) == if p.alphabet < a
                    && go_board@.at(p) != ChessType::Empty {
                    Live::Alive
                } else {
                    Live::NotStone
                },
            decreases size - a,
        {
            let mut d: u8 = 0;
            while d < size
                invariant
                    go_board.wf(),
                    size == go_board.size,
                    live_board.wf(),
                    live_board.size == size,
                    a < size,
                    d <= size,
                    forall|p: Location| #![trigger live_board@.at(p)] p.within(size as int) ==> live_board@.at(p) == if (p.alphabet < a
                        || (p.alphabet == a && p.digit < d)) && go_board@.at(p) != ChessType::Empty {
                        Live::Alive
                    } else {
                        Live::NotStone
                    },
                decreases size - d,
            {
                let location = Location { alphabet: a, digit: d };
                if go_board.get(&location) != ChessType::Empty {
                    let ghost prev = live_board@;
                    live_board.set(&location, Live::Alive);
                    proof {
                        assert forall|p: Location| #![trigger live_board@.at(p)] p.within(size as int) && p != location
                            implies live_board@.at(p) == prev.at(p) by {
                            if p.index() == location.index() {
                                crate::board::lemma_index_injective(p, location);
                            }
                        }
                    }
                }
                d = d + 1;
            }
            a = a + 1;
        }
        let r = ScoreBoard { size, live_board, belong_board };
        proof {
            assert forall|p: Location, q: Location| #[trigger] linked(go_board@, p, q) implies r.live_board@.at(p)
                == r.live_board@.at(q) by {}
        }
        r
    }

    /// Whom `location` counts for, if anyone.
    pub fn get_belong(&self, location: Location) -> (r: Option<Player>)
        requires
            self.belong_board.wf(),
            location.within(self.belong_board.size as int),
        ensures
            r == match self.belong_board@.at(location) {
                Belong::Black => Some(Player::Black),
                Belong::White => Some(Player::White),
                Belong::Neither => None,
            },
    {
        match self.belong_board.get(&location) {
            Belong::Black => Some(Player::Black),
            Belong::White => Some(Player::White),
            Belong::Neither => None,
        }
    }

    /// The stone at `location` is counted as alive.
    pub fn is_alive(&self, location: Location) -> (r: bool)
        requires
            self.live_board.wf(),
            location.within(self.live_board.size as int),
        ensures
            r == (self.live_board@.at(location) == Live::Alive),
    {
        match self.live_board.get(&location) {
            Live::Alive => true,
            _ => false,
        }
    }

    /// Flips the liveness of the whole group at `location`; an empty point
    /// changes nothing.
    pub fn toggle(&mut self, go_board: &GoBoard, location: Location)
        requires
            go_board.wf(),
            old(self).wf(go_board@),
            location.within(go_board.size as int),
        ensures
            final(self).wf(go_board@),
            final(self).belong_board == old(self).belong_board,
            forall|p: Location| #![trigger final(self).live_board@.at(p)] p.within(go_board.size as int) ==> final(self).live_board@.at(p)
                == toggled(go_board@, old(self).live_board@, location, p),
            forall|i: int| 0 <= i < 361 && !location_of(i).within(go_board.size as int) ==> #[trigger] final(self).live_board.cells@[i]
                == old(self).live_board.cells@[i],
    {
        let new_status = match self.live_board.get(&location) {
            Live::Alive => Live::Dead,
            Live::Dead => Live::Alive,
            Live::NotStone => {
                proof {
                    assert forall|p: Location| p.within(go_board.size as int) && in_group(go_board@, location, p) implies
                        flipped(self.live_board@.at(p)) == self.live_board@.at(p) by {
                        let path = choose|path: Seq<Location>| #[trigger] is_chain(go_board@, path) && path[0] == location && path.last() == p;
                        lemma_chain_color(go_board@, path);
                    }
                }
                return ;
            },
        };
        let ghost l0 = self.live_board@;
        let ghost b = go_board@;
        let size = go_board.size;
        let chess = go_board.get(&location);
        proof {
            let path = seq![location];
            assert(is_chain(b, path) && path[0] == location && path.last() == location);
        }
        proof {
            crate::board::lemma_location_of_index(location);
        }
        self.live_board.set(&location, new_status);
        let mut queue: Vec<Location> = Vec::new();
        queue.push(location);
        proof {
            assert(queue@[0] == location);
            assert forall|p: Location, q: Location| p.within(size as int) && self.live_board@.at(p) == new_status && !queue@.contains(p)
                && #[trigger] linked(b, p, q) implies self.live_board@.at(q) == new_status by {
                if p.index() == location.index() {
                    crate::board::lemma_index_injective(p, location);
                }
                if q.index() == location.index() {
                    crate::board::lemma_index_injective(q, location);
                }
            }
        }
        while queue.len() > 0
            invariant
                go_board.wf(),
                b == go_board@,
                size == go_board.size,
                self.live_board.wf(),
                self.live_board.size == size,
                self.size == old(self).size,
                self.belong_board == old(self).belong_board,
                old(self).wf(b),
                l0 == old(self).live_board@,
                forall|i: int| 0 <= i < 361 && !location_of(i).within(size as int) ==> #[trigger] self.live_board.cells@[i] == old(self).live_board.cells@[i],
                location.within(size as int),
                chess == b.at(location),
                chess != ChessType::Empty,
                new_status == flipped(l0.at(location)),
                new_status != Live::NotStone,
                self.live_board@.at(location) == new_status,
                forall|p: Location| #![trigger self.live_board@.at(p)] p.within(size as int) ==> self.live_board@.at(p) == l0.at(p)
                    || (self.live_board@.at(p) == new_status && in_group(b, location, p)),
                forall|p: Location, q: Location| p.within(size as int) && self.live_board@.at(p) == new_status && !queue@.contains(p)
                    && #[trigger] linked(b, p, q) ==> self.live_board@.at(q) == new_status,
                forall|i: int| 0 <= i < queue@.len() ==> (#[trigger] queue@[i]).within(size as int)
                    && self.live_board@.at(queue@[i]) == new_status && b.at(queue@[i]) == chess
                    && (in_group(b, location, queue@[i]) || queue@[i] == location),
            decreases count_other(self.live_board.cells@, new_status) + queue@.len(),
        {
            let ghost m0 = count_other(self.live_board.cells@, new_status) + queue@.len();
            let ghost q0 = queue@;
            let s = queue.pop().unwrap();
            proof {
                assert(q0[q0.len() - 1] == s);
                assert forall|i: int| 0 <= i < queue@.len() implies (#[trigger] queue@[i]).within(size as int)
                    && self.live_board@.at(queue@[i]) == new_status && b.at(queue@[i]) == chess
                    && (in_group(b, location, queue@[i]) || queue@[i] == location) by {
                    assert(queue@[i] == q0[i]);
                }
                assert forall|p: Location, q: Location| p.within(size as int) && self.live_board@.at(p) == new_status && p != s
                    && !queue@.contains(p) && #[trigger] linked(b, p, q) implies self.live_board@.at(q) == new_status by {
                    if q0.contains(p) {
                        let i = choose|i: int| 0 <= i < q0.len() && q0[i] == p;
                        assert(queue@[i] == p);
                    }
                }
            }
            let nbrs = go_board.neighbors(&s);
            assert forall|j: int| 0 <= j < nbrs@.len() implies adjacent(size as int, s, #[trigger] nbrs@[j]) by {
                assert(nbrs@.contains(nbrs@[j]));
            }
            let mut k: usize = 0;
            while k < nbrs.len()
                invariant
                    go_board.wf(),
                    b == go_board@,
                    size == go_board.size,
                    self.live_board.wf(),
                    self.live_board.size == size,
                    self.size == old(self).size,
                    self.belong_board == old(self).belong_board,
                    l0 == old(self).live_board@,
                    forall|i: int| 0 <= i < 361 && !location_of(i).within(size as int) ==> #[trigger] self.live_board.cells@[i] == old(self).live_board.cells@[i],
                forall|i: int| 0 <= i < 361 && !location_of(i).within(size as int) ==> #[trigger] self.live_board.cells@[i] == old(self).live_board.cells@[i],
                    location.within(size as int),
                    chess != ChessType::Empty,
                    new_status != Live::NotStone,
                    self.live_board@.at(location) == new_status,
                    s.within(size as int),
                    b.at(s) == chess,
                    self.live_board@.at(s) == new_status,
                    k <= nbrs@.len(),
                    forall|q: Location| adjacent(size as int, s, q) <==> nbrs@.contains(q),
                    forall|j: int| 0 <= j < nbrs@.len() ==> adjacent(size as int, s, #[trigger] nbrs@[j]),
                    count_other(self.live_board.cells@, new_status) + queue@.len() + 1 == m0,
                    forall|p: Location| #![trigger self.live_board@.at(p)] p.within(size as int) ==> self.live_board@.at(p) == l0.at(p)
                        || (self.live_board@.at(p) == new_status && in_group(b, location, p)),
                    forall|p: Location, q: Location| p.within(size as int) && self.live_board@.at(p) == new_status && p != s
                        && !queue@.contains(p) && #[trigger] linked(b, p, q) ==> self.live_board@.at(q) == new_status,
                    forall|i: int| 0 <= i < queue@.len() ==> (#[trigger] queue@[i]).within(size as int)
                        && self.live_board@.at(queue@[i]) == new_status && b.at(queue@[i]) == chess
                    && (in_group(b, location, queue@[i]) || queue@[i] == location),
                    forall|j: int| 0 <= j < k ==> b.at(#[trigger] nbrs@[j]) == chess ==> self.live_board@.at(nbrs@[j]) == new_status,
                    in_group(b, location, s) || s == location,
                decreases nbrs@.len() - k,
            {
                let q = nbrs[k];
                if go_board.get(&q) == chess && self.live_board.get(&q) != new_status {
                    let ghost w0 = queue@;
                    let ghost v0 = self.live_board@;
                    proof {
                        assert(linked(b, s, q));
                        if s == location {
                            let path = seq![location];
                            assert(is_chain(b, path) && path[0] == location && path.last() == location);
                        }
                        lemma_group_extend(b, location, s, q);
                        crate::board::lemma_index_location(q.index());
                        lemma_count_other_set(self.live_board.cells@, new_status, q.index());
                    }
                    proof {
                        crate::board::lemma_location_of_index(q);
                    }
                    self.live_board.set(&q, new_status);
                    queue.push(q);
                    proof {
                        assert(queue@[queue@.len() - 1] == q);
                        assert forall|p: Location| #![trigger self.live_board@.at(p)] p.within(size as int) && p != q implies
                            self.live_board@.at(p) == v0.at(p) by {
                            if p.index() == q.index() {
                                crate::board::lemma_index_injective(p, q);
                            }
                        }
                        assert forall|p: Location, r: Location| p.within(size as int) && self.live_board@.at(p) == new_status
                            && p != s && !queue@.contains(p) && #[trigger] linked(b, p, r) implies self.live_board@.at(r)
                            == new_status by {
                            if p != q {
                                if w0.contains(p) {
                                    let i = choose|i: int| 0 <= i < w0.len() && w0[i] == p;
                                    assert(queue@[i] == p);
                                }
                                assert(v0.at(p) == new_status);
                            }
                        }
                        assert forall|i: int| 0 <= i < queue@.len() implies (#[trigger] queue@[i]).within(size as int)
                            && self.live_board@.at(queue@[i]) == new_status && b.at(queue@[i]) == chess
                    && (in_group(b, location, queue@[i]) || queue@[i] == location) by {
                            if i < w0.len() {
                                assert(queue@[i] == w0[i]);
                            }
                        }
                    }
                }
                k = k + 1;
            }
            proof {
                assert forall|p: Location, q: Location| p.within(size as int) && self.live_board@.at(p) == new_status
                    && !queue@.contains(p) && #[trigger] linked(b, p, q) implies self.live_board@.at(q) == new_status by {
                    if p == s {
                        assert(nbrs@.contains(q));
                        let j = choose|j: int| 0 <= j < nbrs@.len() && nbrs@[j] == q;
                        assert(b.at(nbrs@[j]) == chess);
                    }
                }
            }
        }
        proof {
            let live = self.live_board@;
            assert forall|p: Location| #![trigger self.live_board@.at(p)] p.within(size as int) implies self.live_board@.at(p) == if in_group(b, location, p) {
                flipped(l0.at(p))
            } else {
                l0.at(p)
            } by {
                if in_group(b, location, p) {
                    let path = choose|path: Seq<Location>| #[trigger] is_chain(b, path) && path[0] == location && path.last() == p;
                    lemma_chain_color(b, path);
                    lemma_chain_status(b, live, new_status, path);
                    lemma_chain_uniform(b, l0, path);
                }
            }
            assert forall|p: Location, q: Location| #[trigger] linked(b, p, q) implies self.live_board@.at(p)
                == self.live_board@.at(q) by {
                lemma_linked_symmetric(b, p, q);
                if in_group(b, location, p) {
                    lemma_group_extend(b, location, p, q);
                }
                if in_group(b, location, q) {
                    lemma_group_extend(b, location, q, p);
                }
            }
            assert forall|p: Location| #![trigger self.live_board@.at(p)] p.within(b.size) implies (self.live_board@.at(p)
                == Live::NotStone <==> b.at(p) == ChessType::Empty) by {
                if in_group(b, location, p) {
                    let path = choose|path: Seq<Location>| #[trigger] is_chain(b, path) && path[0] == location && path.last() == p;
                    lemma_chain_color(b, path);
                    lemma_chain_uniform(b, l0, path);
                }
            }
        }
    }

    /// Recomputes whom each point counts for from the current liveness.
    pub fn refresh_belong(&mut self, go_board: &GoBoard)
        requires
            go_board.wf(),
            old(self).wf(go_board@),
        ensures
            final(self).wf(go_board@),
            final(self).live_board == old(self).live_board,
            forall|p: Location| #![trigger final(self).belong_board@.at(p)] p.within(go_board.size as int) ==> final(self).belong_board@.at(p)
                == belong_of(go_board@, old(self).live_board@, p),
            forall|i: int| 0 <= i < 361 && !location_of(i).within(go_board.size as int) ==> #[trigger] final(self).belong_board.cells@[i]
                == old(self).belong_board.cells@[i],
    {
        let white = mark_reach(go_board, &self.live_board, ChessType::White);
        let black = mark_reach(go_board, &self.live_board, ChessType::Black);
        let size = self.size;
        let ghost b = go_board@;
        let ghost live = self.live_board@;
        let mut a: u8 = 0;
        while a < size
            invariant
                go_board.wf(),
                b == go_board@,
                old(self).wf(b),
                self.wf(b),
                self.live_board == old(self).live_board,
                live == self.live_board@,
                forall|i: int| 0 <= i < 361 && !location_of(i).within(size as int) ==> #[trigger] self.belong_board.cells@[i] == old(self).belong_board.cells@[i],
                size == self.size,
                white.wf(),
                black.wf(),
                white.size == size,
                black.size == size,
                a <= size,
                forall|p: Location| #![trigger white@.at(p)] p.within(size as int) ==> (white@.at(p) <==> reaches(b, live, ChessType::White, p)),
                forall|p: Location| #![trigger black@.at(p)] p.within(size as int) ==> (black@.at(p) <==> reaches(b, live, ChessType::Black, p)),
                forall|p: Location| #![trigger self.belong_board@.at(p)] p.within(size as int) && p.alphabet < a ==> self.belong_board@.at(p)
                    == belong_of(b, live, p),
            decreases size - a,
        {
            let mut d: u8 = 0;
            while d < size
                invariant
                    go_board.wf(),
                    b == go_board@,
                    old(self).wf(b),
                    self.wf(b),
                    self.live_board == old(self).live_board,
                    live == self.live_board@,
                    forall|i: int| 0 <= i < 361 && !location_of(i).within(size as int) ==> #[trigger] self.belong_board.cells@[i] == old(self).belong_board.cells@[i],
                    size == self.size,
                    white.wf(),
                    black.wf(),
                    white.size == size,
                    black.size == size,
                    a < size,
                    d <= size,
                    forall|p: Location| #![trigger white@.at(p)] p.within(size as int) ==> (white@.at(p) <==> reaches(b, live, ChessType::White, p)),
                    forall|p: Location| #![trigger black@.at(p)] p.within(size as int) ==> (black@.at(p) <==> reaches(b, live, ChessType::Black, p)),
                    forall|p: Location| #![trigger self.belong_board@.at(p)] p.within(size as int) && (p.alphabet < a || (p.alphabet == a
                        && p.digit < d)) ==> self.belong_board@.at(p) == belong_of(b, live, p),
                decreases size - d,
            {
                let location = Location { alphabet: a, digit: d };
                let is_white = white.get(&location);
                let is_black = black.get(&location);
                assert(is_white == white@.at(location) && is_black == black@.at(location));
                let belong = if is_white && is_black {
                    Belong::Neither
                } else if is_white {
                    Belong::White
                } else if is_black {
                    Belong::Black
                } else {
                    Belong::Neither
                };
                let ghost prev = self.belong_board@;
                proof {
                    crate::board::lemma_location_of_index(location);
                }
                self.belong_board.set(&location, belong);
                proof {
                    assert forall|p: Location| #![trigger self.belong_board@.at(p)] p.within(size as int) && p != location implies
                        self.belong_board@.at(p) == prev.at(p) by {
                        if p.index() == location.index() {
                            crate::board::lemma_index_injective(p, location);
                        }
                    }
                }
                d = d + 1;
            }
            a = a + 1;
        }
    }

    /// Number of dead stones of the color opposite `player`: the captures
    /// credited to `player` while scoring.
    pub fn get_capture(&self, go_board: &GoBoard, player: &Player) -> (r: i32)
        requires
            go_board.wf(),
            self.wf(go_board@),
        ensures
            r as int == dead_count(go_board@, self.live_board@, match player {
                Player::Black => ChessType::White,
                Player::White => ChessType::Black,
            }, 361),
    {
        let color = match player {
            Player::Black => ChessType::White,
            Player::White => ChessType::Black,
        };
        let size = go_board.size;
        let mut count: i32 = 0;
        let mut i: usize = 0;
        while i < 361
            invariant
                go_board.wf(),
                self.wf(go_board@),
                size == go_board.size,
                i <= 361,
                count as int == dead_count(go_board@, self.live_board@, color, i as int),
                count <= i,
            decreases 361 - i,
        {
            let location = Location { alphabet: (i / 19) as u8, digit: (i % 19) as u8 };
            proof {
                crate::board::lemma_index_location(i as int);
                lemma_dead_count_bound(go_board@, self.live_board@, color, i as int);
            }
            assert(location == location_of(i as int));
            if location.alphabet < size && location.digit < size {
                if self.live_board.get(&location) == Live::Dead && go_board.get(&location) == color {
                    count = count + 1;
                }
            }
            i = i + 1;
        }
        count
    }
}

/// Along a walk that starts at a reached point and crosses no alive stone,
/// every point is reached when reached points pass the mark on.
proof fn lemma_walk_reached(b: GridView<ChessType>, live: GridView<Live>, reach: GridView<bool>, path: Seq<Location>, from: int)
    requires
        1 <= from < path.len(),
        reach.at(path[from]),
        forall|k: int| 0 <= k < path.len() - 1 ==> #[trigger] adjacent(b.size, path[k], path[k + 1]),
        forall|k: int| 1 <= k < path.len() ==> live.at(#[trigger] path[k]) != Live::Alive,
        forall|x: Location, y: Location| reach.at(x) && #[trigger] adjacent(b.size, x, y) && live.at(y) != Live::Alive ==> reach.at(y),
    ensures
        reach.at(path.last()),
    decreases path.len() - from,
{
    if from < path.len() - 1 {
        assert(adjacent(b.size, path[from], path[from + 1]));
        assert(live.at(path[from + 1]) != Live::Alive);
        lemma_walk_reached(b, live, reach, path, from + 1);
    }
}

/// Marks every point that the alive stones of color `c` reach.
fn mark_reach(go_board: &GoBoard, live_board: &LiveBoard, c: ChessType) -> (r: Board<bool>)
    requires
        go_board.wf(),
        live_board.wf(),
        live_board.size == go_board.size,
    ensures
        r.wf(),
        r.size == go_board.size,
        forall|p: Location| #![trigger r@.at(p)] p.within(go_board.size as int) ==> (r@.at(p) <==> reaches(go_board@, live_board@, c, p)),
{
    let ghost b = go_board@;
    let ghost live = live_board@;
    let size = go_board.size;
    let mut reach = Board::<bool>::filled(size, false);
    let mut a: u8 = 0;
    while a < size
        invariant
            go_board.wf(),
            b == go_board@,
            live == live_board@,
            live_board.wf(),
            live_board.size == size,
            size == go_board.size,
            reach.wf(),
            reach.size == size,
            a <= size,
            forall|p: Location| #![trigger reach@.at(p)] p.within(size as int) && reach@.at(p) ==> reaches(b, live, c, p),
            forall|x: Location, y: Location| reach@.at(x) && #[trigger] adjacent(size as int, x, y) && live.at(y) != Live::Alive ==> reach@.at(y),
            forall|s: Location, y: Location| s.alphabet < a && b.at(s) == c && live.at(s) == Live::Alive && #[trigger] adjacent(size as int, s, y)
                && live.at(y) != Live::Alive ==> reach@.at(y),
        decreases size - a,
    {
        let mut d: u8 = 0;
        while d < size
            invariant
                go_board.wf(),
                b == go_board@,
                live == live_board@,
                live_board.wf(),
                live_board.size == size,
                size == go_board.size,
                reach.wf(),
                reach.size == size,
                a < size,
                d <= size,
                forall|p: Location| #![trigger reach@.at(p)] p.within(size as int) && reach@.at(p) ==> reaches(b, live, c, p),
                forall|x: Location, y: Location| reach@.at(x) && #[trigger] adjacent(size as int, x, y) && live.at(y) != Live::Alive ==> reach@.at(y),
                forall|s: Location, y: Location| (s.alphabet < a || (s.alphabet == a && s.digit < d)) && b.at(s) == c && live.at(s) == Live::Alive
                    && #[trigger] adjacent(size as int, s, y) && live.at(y) != Live::Alive ==> reach@.at(y),
            decreases size - d,
        {
            let seed = Location { alphabet: a, digit: d };
            if go_board.get(&seed) == c && live_board.get(&seed) == Live::Alive {
                spread_reach(go_board, live_board, c, &seed, &mut reach);
            }
            d = d + 1;
        }
        a = a + 1;
    }
    proof {
        assert forall|p: Location| #![trigger reach@.at(p)] p.within(size as int) && reaches(b, live, c, p) implies reach@.at(p) by {
            let path = choose|path: Seq<Location>| #[trigger] is_trail(b, live, c, path) && path.last() == p;
            let k0: int = 0;
            assert(adjacent(b.size, path[k0], path[k0 + 1]));
            assert(live.at(path[1]) != Live::Alive);
            lemma_walk_reached(b, live, reach@, path, 1);
        }
    }
    reach
}

/// Marks what the alive stone `seed` of color `c` reaches.
fn spread_reach(go_board: &GoBoard, live_board: &LiveBoard, c: ChessType, seed: &Location, reach: &mut Board<bool>)
    requires
        go_board.wf(),
        live_board.wf(),
        live_board.size == go_board.size,
        old(reach).wf(),
        old(reach).size == go_board.size,
        seed.within(go_board.size as int),
        go_board@.at(*seed) == c,
        live_board@.at(*seed) == Live::Alive,
        forall|p: Location| #![trigger old(reach)@.at(p)] p.within(go_board.size as int) && old(reach)@.at(p) ==> reaches(go_board@, live_board@, c, p),
        forall|x: Location, y: Location| old(reach)@.at(x) && #[trigger] adjacent(go_board.size as int, x, y) && live_board@.at(y) != Live::Alive ==> old(reach)@.at(y),
    ensures
        final(reach).wf(),
        final(reach).size == go_board.size,
        forall|p: Location| #![trigger final(reach)@.at(p)] p.within(go_board.size as int) && old(reach)@.at(p) ==> final(reach)@.at(p),
        forall|p: Location| #![trigger final(reach)@.at(p)] p.within(go_board.size as int) && final(reach)@.at(p) ==> reaches(go_board@, live_board@, c, p),
        forall|x: Location, y: Location| final(reach)@.at(x) && #[trigger] adjacent(go_board.size as int, x, y) && live_board@.at(y) != Live::Alive ==> final(reach)@.at(y),
        forall|y: Location| #[trigger] adjacent(go_board.size as int, *seed, y) && live_board@.at(y) != Live::Alive ==> final(reach)@.at(y),
{
    let ghost b = go_board@;
    let ghost live = live_board@;
    let size = go_board.size;
    let work0 = go_board.neighbors(seed);
    let mut work: Vec<Location> = Vec::new();
    let mut k: usize = 0;
    while k < work0.len()
        invariant
            k <= work0@.len(),
            work@ == work0@.take(k as int),
        decreases work0@.len() - k,
    {
        work.push(work0[k]);
        k = k + 1;
        assert(work@ =~= work0@.take(k as int));
    }
    assert(work0@.take(work0@.len() as int) =~= work0@);
    proof {
        assert forall|i: int| 0 <= i < work@.len() implies (#[trigger] work@[i]).within(size as int)
            && (live.at(work@[i]) != Live::Alive ==> reaches(b, live, c, work@[i])) by {
            let y = work@[i];
            assert(work0@.contains(y));
            let path = seq![*seed, y];
            assert(is_trail(b, live, c, path) ==> path.last() == y);
            if live.at(y) != Live::Alive {
                assert(adjacent(b.size, path[0], path[1]));
                assert(is_trail(b, live, c, path));
            }
        }
    }
    while work.len() > 0
        invariant
            go_board.wf(),
            b == go_board@,
            live == live_board@,
            live_board.wf(),
            live_board.size == size,
            size == go_board.size,
            reach.wf(),
            reach.size == size,
            seed.within(size as int),
            forall|y: Location| adjacent(size as int, *seed, y) <==> work0@.contains(y),
            forall|p: Location| #![trigger old(reach)@.at(p)] p.within(size as int) && old(reach)@.at(p) ==> reach@.at(p),
            forall|p: Location| #![trigger reach@.at(p)] p.within(size as int) && reach@.at(p) ==> reaches(b, live, c, p),
            forall|x: Location, y: Location| reach@.at(x) && #[trigger] adjacent(size as int, x, y) && live.at(y) != Live::Alive
                && !work@.contains(y) ==> reach@.at(y),
            forall|y: Location| #[trigger] adjacent(size as int, *seed, y) && live.at(y) != Live::Alive && !work@.contains(y) ==> reach@.at(y),
            forall|i: int| 0 <= i < work@.len() ==> (#[trigger] work@[i]).within(size as int)
                && (live.at(work@[i]) != Live::Alive ==> reaches(b, live, c, work@[i])),
        decreases 5 * count_other(reach.cells@, true) + work@.len(),
    {
        let ghost w0 = work@;
        let x = work.pop().unwrap();
        proof {
            assert(w0[w0.len() - 1] == x);
            assert forall|i: int| 0 <= i < work@.len() implies (#[trigger] work@[i]).within(size as int)
                && (live.at(work@[i]) != Live::Alive ==> reaches(b, live, c, work@[i])) by {
                assert(work@[i] == w0[i]);
            }
        }
        if !reach.get(&x) && live_board.get(&x) != Live::Alive {
            let ghost r0 = reach@;
            proof {
                crate::board::lemma_index_location(x.index());
                lemma_count_other_set(reach.cells@, true, x.index());
            }
            reach.set(&x, true);
            let ghost wp = work@;
            let nbrs = go_board.neighbors(&x);
            let mut j: usize = 0;
            while j < nbrs.len()
                invariant
                    j <= nbrs@.len(),
                    nbrs@.len() <= 4,
                    work@ == wp + nbrs@.take(j as int),
                decreases nbrs@.len() - j,
            {
                work.push(nbrs[j]);
                j = j + 1;
                assert(work@ =~= wp + nbrs@.take(j as int));
            }
            assert(nbrs@.take(nbrs@.len() as int) =~= nbrs@);
            proof {
                assert forall|p: Location| #![trigger reach@.at(p)] p.within(size as int) && p != x implies reach@.at(p) == r0.at(p) by {
                    if p.index() == x.index() {
                        crate::board::lemma_index_injective(p, x);
                    }
                }
                assert(reaches(b, live, c, x));
                let tx = choose|path: Seq<Location>| #[trigger] is_trail(b, live, c, path) && path.last() == x;
                assert forall|i: int| 0 <= i < work@.len() implies (#[trigger] work@[i]).within(size as int)
                    && (live.at(work@[i]) != Live::Alive ==> reaches(b, live, c, work@[i])) by {
                    if i < wp.len() {
                        assert(work@[i] == wp[i]);
                    } else {
                        let y = work@[i];
                        assert(y == nbrs@[i - wp.len()]);
                        assert(nbrs@.contains(y));
                        if live.at(y) != Live::Alive {
                            let ty = tx.push(y);
                            assert forall|k: int| 0 <= k < ty.len() - 1 implies #[trigger] adjacent(b.size, ty[k], ty[k + 1]) by {
                                if k < tx.len() - 1 {
                                    assert(adjacent(b.size, tx[k], tx[k + 1]));
                                }
                            }
                            assert forall|k: int| 1 <= k < ty.len() implies live.at(#[trigger] ty[k]) != Live::Alive by {
                                if k < tx.len() {
                                    assert(ty[k] == tx[k]);
                                }
                            }
                            assert(is_trail(b, live, c, ty) && ty.last() == y);
                        }
                    }
                }
                assert forall|p: Location, y: Location| reach@.at(p) && #[trigger] adjacent(size as int, p, y) && live.at(y) != Live::Alive
                    && !work@.contains(y) implies reach@.at(y) by {
                    if w0.contains(y) && y != x {
                        let i = choose|i: int| 0 <= i < w0.len() && w0[i] == y;
                        assert(work@[i] == y);
                    }
                    if p == x {
                        assert(nbrs@.contains(y));
                        let i = choose|i: int| 0 <= i < nbrs@.len() && nbrs@[i] == y;
                        assert(work@[wp.len() + i] == y);
                    }
                }
                assert forall|y: Location| #[trigger] adjacent(size as int, *seed, y) && live.at(y) != Live::Alive
                    && !work@.contains(y) implies reach@.at(y) by {
                    if w0.contains(y) && y != x {
                        let i = choose|i: int| 0 <= i < w0.len() && w0[i] == y;
                        assert(work@[i] == y);
                    }
                }
            }
        } else {
            proof {
                assert forall|p: Location, y: Location| reach@.at(p) && #[trigger] adjacent(size as int, p, y) && live.at(y) != Live::Alive
                    && !work@.contains(y) implies reach@.at(y) by {
                    if w0.contains(y) && y != x {
                        let i = choose|i: int| 0 <= i < w0.len() && w0[i] == y;
                        assert(work@[i] == y);
                    }
                }
                assert forall|y: Location| #[trigger] adjacent(size as int, *seed, y) && live.at(y) != Live::Alive
                    && !work@.contains(y) implies reach@.at(y) by {
                    if w0.contains(y) && y != x {
                        let i = choose|i: int| 0 <= i < w0.len() && w0[i] == y;
                        assert(work@[i] == y);
                    }
                }
            }
        }
    }
}

/// Along a chain, a grid that agrees on linked stones agrees on both ends.
proof fn lemma_chain_uniform(b: GridView<ChessType>, live: GridView<Live>, path: Seq<Location>)
    requires
        is_chain(b, path),
        forall|p: Location, q: Location| #[trigger] linked(b, p, q) ==> live.at(p) == live.at(q),
    ensures
        live.at(path.last()) == live.at(path[0]),
    decreases path.len(),
{
    if path.len() > 1 {
        let init = path.drop_last();
        assert forall|k: int| 0 <= k < init.len() - 1 implies #[trigger] linked(b, init[k], init[k + 1]) by {
            assert(linked(b, path[k], path[k + 1]));
        }
        lemma_chain_uniform(b, live, init);
        assert(linked(b, path[path.len() - 2], path[(path.len() - 2) + 1]));
    }
}

/// Toggling an empty point changes no liveness.
pub proof fn lemma_toggle_empty(b: GridView<ChessType>, live: GridView<Live>, at: Location, p: Location)
    requires
        b.at(at) == ChessType::Empty,
        at.within(b.size),
        forall|q: Location| #![trigger live.at(q)] q.within(b.size) ==> (live.at(q) == Live::NotStone <==> b.at(q) == ChessType::Empty),
    ensures
        toggled(b, live, at, p) == live.at(p),
{
    if in_group(b, at, p) {
        let path = choose|path: Seq<Location>| #[trigger] is_chain(b, path) && path[0] == at && path.last() == p;
        lemma_chain_color(b, path);
        assert(live.at(at) == Live::NotStone);
    }
}

/// Toggling the same point twice gives back the liveness of every point.
pub proof fn lemma_toggle_twice(b: GridView<ChessType>, l0: GridView<Live>, l1: GridView<Live>, l2: GridView<Live>, at: Location, p: Location)
    requires
        p.within(b.size),
        forall|q: Location| #![trigger l1.at(q)] q.within(b.size) ==> l1.at(q) == toggled(b, l0, at, q),
        forall|q: Location| #![trigger l2.at(q)] q.within(b.size) ==> l2.at(q) == toggled(b, l1, at, q),
    ensures
        l2.at(p) == l0.at(p),
{
    assert(l1.at(p) == toggled(b, l0, at, p));
    assert(l2.at(p) == toggled(b, l1, at, p));
}

/// Toggling flips the whole group: two linked stones get the same new liveness
/// when they had the same one before.
pub proof fn lemma_toggle_group(b: GridView<ChessType>, live: GridView<Live>, at: Location, p: Location, q: Location)
    requires
        linked(b, p, q),
        live.at(p) == live.at(q),
    ensures
        toggled(b, live, at, p) == toggled(b, live, at, q),
{
    lemma_linked_symmetric(b, p, q);
    if in_group(b, at, p) {
        lemma_group_extend(b, at, p, q);
    }
    if in_group(b, at, q) {
        lemma_group_extend(b, at, q, p);
    }
}

} // verus!
