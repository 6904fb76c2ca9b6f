use vstd::prelude::*;
use crate::board::{Board, ChessType, GridView, Location, adjacent};

verus! {

/// Grid of the stones found to have a liberty.
pub type GoBoardLiberty = Board<bool>;

/// Two adjacent stones of one color: one step inside a group.
pub open spec fn linked(b: GridView<ChessType>, p: Location, q: Location) -> bool {
    &&& adjacent(b.size, p, q)
    &&& b.at(p) != ChessType::Empty
    &&& b.at(q) == b.at(p)
}

/// A stone with an empty point next to it.
pub open spec fn breathes(b: GridView<ChessType>, p: Location) -> bool {
    &&& p.within(b.size)
    &&& b.at(p) != ChessType::Empty
    &&& exists|q: Location| #[trigger] adjacent(b.size, p, q) && b.at(q) == ChessType::Empty
}

/// A walk through one group, each step between linked stones.
pub open spec fn is_chain(b: GridView<ChessType>, path: Seq<Location>) -> bool {
    &&& path.len() > 0
    &&& forall|k: int| 0 <= k < path.len() - 1 ==> #[trigger] linked(b, path[k], path[k + 1])
}

/// The group of the stone at `p` touches an empty point.
pub open spec fn has_liberty(b: GridView<ChessType>, p: Location) -> bool {
    exists|path: Seq<Location>|
        #[trigger] is_chain(b, path) && path[0] == p && breathes(b, path.last())
}

/// A stone of color `c` at `p` whose group has no liberty.
pub open spec fn is_dead(b: GridView<ChessType>, p: Location, c: ChessType) -> bool {
    &&& p.within(b.size)
    &&& c != ChessType::Empty
    &&& b.at(p) == c
    &&& !has_liberty(b, p)
}

/// A group lives or dies as one: a stone linked to a stone without a liberty
/// has none either, so a capture takes every stone of the group.
pub proof fn lemma_dead_group(b: GridView<ChessType>, p: Location, q: Location, c: ChessType)
    requires
        is_dead(b, p, c),
        linked(b, p, q),
    ensures
        is_dead(b, q, c),
{
    if has_liberty(b, q) {
        let path = choose|path: Seq<Location>| #[trigger] is_chain(b, path) && path[0] == q && breathes(b, path.last());
        let longer = seq![p] + path;
        assert forall|k: int| 0 <= k < longer.len() - 1 implies #[trigger] linked(b, longer[k], longer[k + 1]) by {
            if k > 0 {
                assert(longer[k] == path[k - 1]);
                assert(longer[k + 1] == path[k]);
                assert(linked(b, path[k - 1], path[(k - 1) + 1]));
            }
        }
        assert(is_chain(b, longer) && longer[0] == p && longer.last() == path.last());
    }
}

/// Number of entries of `s` that differ from `v`.
pub open spec fn count_other<T>(s: Seq<T>, v: T) -> nat
    decreases s.len(),
{
    if s.len() == 0 {
        0
    } else {
        count_other(s.drop_last(), v) + if s.last() == v {
            0nat
        } else {
            1nat
        }
    }
}

/// Setting one entry that differs from `v` to `v` lowers the count by one.
pub proof fn lemma_count_other_set<T>(s: Seq<T>, v: T, i: int)
    requires
        0 <= i < s.len(),
        s[i] != v,
    ensures
        count_other(s.update(i, v), v) + 1 == count_other(s, v),
    decreases s.len(),
{
    if i == s.len() - 1 {
        assert(s.update(i, v).drop_last() =~= s.drop_last());
    } else {
        lemma_count_other_set(s.drop_last(), v, i);
        assert(s.update(i, v).drop_last() =~= s.drop_last().update(i, v));
    }
}

pub proof fn lemma_linked_symmetric(b: GridView<ChessType>, p: Location, q: Location)
    requires
        linked(b, p, q),
    ensures
        linked(b, q, p),
{
}

/// Every stone of a chain that ends at a marked stone is marked, when marks
/// are closed under linking.
proof fn lemma_chain_marked(b: GridView<ChessType>, lib: Board<bool>, path: Seq<Location>)
    requires
        is_chain(b, path),
        lib.at(path.last()),
        forall|p: Location, q: Location| lib.at(p) && #[trigger] linked(b, p, q) ==> lib.at(q),
    ensures
        lib.at(path[0]),
    decreases path.len(),
{
    if path.len() > 1 {
        let rest = path.subrange(1, path.len() as int);
        assert forall|k: int| 0 <= k < rest.len() - 1 implies #[trigger] linked(b, rest[k], rest[k + 1]) by {
            assert(rest[k] == path[k + 1]);
            assert(rest[k + 1] == path[(k + 1) + 1]);
            assert(linked(b, path[k + 1], path[(k + 1) + 1]));
        }
        assert(rest.last() == path.last());
        lemma_chain_marked(b, lib, rest);
        assert(linked(b, path[0], path[1]));
        lemma_linked_symmetric(b, path[0], path[1]);
    }
}

impl Board<bool> {
    /// Marks every stone whose group touches an empty point: a flood fill
    /// through same-colored stones, seeded at the stones next to each empty point.
    pub fn make(board: &Board<ChessType>) -> (r: Board<bool>)
        requires
            board.wf(),
        ensures
            r.wf(),
            r.size == board.size,
            forall|p: Location| #![trigger r.at(p)] p.within(board.size as int) ==> (r.at(p) <==> (
                board.at(p) != ChessType::Empty && has_liberty(board@, p))),
    {
        let size = board.size;
        let mut lib = Board::<bool>::filled(size, false);
        let mut a: u8 = 0;
        while a < size
            invariant
                board.wf(),
                size == board.size,
                lib.wf(),
                lib.size == size,
                a <= size,
                forall|p: Location| #![trigger lib.at(p)] p.within(size as int) && lib.at(p) ==> board.at(p) != ChessType::Empty && has_liberty(board@, p),
                forall|p: Location, q: Location| lib.at(p) && #[trigger] linked(board@, p, q) ==> lib.at(q),
                forall|e: Location, q: Location| e.alphabet < a && board.at(e) == ChessType::Empty && #[trigger] adjacent(size as int, e, q)
                    && board.at(q) != ChessType::Empty ==> lib.at(q),
            decreases size - a,
        {
            let mut d: u8 = 0;
            while d < size
                invariant
                    board.wf(),
                    size == board.size,
                    lib.wf(),
                    lib.size == size,
                    a < size,
                    d <= size,
                    forall|p: Location| #![trigger lib.at(p)] p.within(size as int) && lib.at(p) ==> board.at(p) != ChessType::Empty && has_liberty(board@, p),
                    forall|p: Location, q: Location| lib.at(p) && #[trigger] linked(board@, p, q) ==> lib.at(q),
                    forall|e: Location, q: Location| (e.alphabet < a || (e.alphabet == a && e.digit < d)) && board.at(e) == ChessType::Empty && #[trigger] adjacent(size as int, e, q)
                        && board.at(q) != ChessType::Empty ==> lib.at(q),
                decreases size - d,
            {
                let location = Location { alphabet: a, digit: d };
                if board.get(&location) == ChessType::Empty {
                    Self::spread_from_empty(board, &mut lib, &location);
                }
                d = d + 1;
            }
            a = a + 1;
        }
        proof {
            assert forall|p: Location| #![trigger lib.at(p)] p.within(board.size as int) && board.at(p) != ChessType::Empty && has_liberty(board@, p) implies lib.at(p) by {
                let path = choose|path: Seq<Location>| #[trigger] is_chain(board@, path) && path[0] == p && breathes(board@, path.last());
                let t = path.last();
                let e = choose|e: Location| #[trigger] adjacent(board.size as int, t, e) && board.at(e) == ChessType::Empty;
                assert(adjacent(size as int, e, t));
                lemma_chain_marked(board@, lib, path);
            }
        }
        lib
    }

    /// Marks the stones next to the empty point `e`, then their whole groups.
    fn spread_from_empty(board: &Board<ChessType>, lib: &mut Board<bool>, e: &Location)
        requires
            board.wf(),
            old(lib).wf(),
            old(lib).size == board.size,
            e.within(board.size as int),
            board.at(*e) == ChessType::Empty,
            forall|p: Location| #![trigger old(lib).at(p)] p.within(board.size as int) && old(lib).at(p) ==> board.at(p) != ChessType::Empty && has_liberty(board@, p),
            forall|p: Location, q: Location| old(lib).at(p) && #[trigger] linked(board@, p, q) ==> old(lib).at(q),
        ensures
            final(lib).wf(),
            final(lib).size == board.size,
            forall|p: Location| #![trigger final(lib).at(p)] p.within(board.size as int) && old(lib).at(p) ==> final(lib).at(p),
            forall|p: Location| #![trigger final(lib).at(p)] p.within(board.size as int) && final(lib).at(p) ==> board.at(p) != ChessType::Empty && has_liberty(board@, p),
            forall|p: Location, q: Location| final(lib).at(p) && #[trigger] linked(board@, p, q) ==> final(lib).at(q),
            forall|q: Location| #[trigger] adjacent(board.size as int, *e, q) && board.at(q) != ChessType::Empty ==> final(lib).at(q),
    {
        let size = board.size;
        let mut work: Vec<Location> = Vec::new();
        let nbrs = board.neighbors(e);
        assert forall|j: int| 0 <= j < nbrs@.len() implies adjacent(size as int, *e, #[trigger] nbrs@[j]) by {
            assert(nbrs@.contains(nbrs@[j]));
        }
        let mut k: usize = 0;
        while k < nbrs.len()
            invariant
                board.wf(),
                size == board.size,
                lib.wf(),
                lib.size == size,
                e.within(size as int),
                board.at(*e) == ChessType::Empty,
                k <= nbrs@.len(),
                forall|q: Location| adjacent(size as int, *e, q) <==> nbrs@.contains(q),
                forall|j: int| 0 <= j < nbrs@.len() ==> adjacent(size as int, *e, #[trigger] nbrs@[j]),
                forall|p: Location| #![trigger old(lib).at(p)] p.within(size as int) && old(lib).at(p) ==> lib.at(p),
                forall|p: Location| #![trigger lib.at(p)] p.within(size as int) && lib.at(p) ==> board.at(p) != ChessType::Empty && has_liberty(board@, p),
                forall|p: Location, q: Location| lib.at(p) && !work@.contains(p) && #[trigger] linked(board@, p, q) ==> lib.at(q),
                forall|i: int| 0 <= i < work@.len() ==> work@[i].within(size as int) && lib.at(#[trigger] work@[i]),
                forall|j: int| 0 <= j < k ==> board.at(#[trigger] nbrs@[j]) != ChessType::Empty ==> lib.at(nbrs@[j]),
            decreases nbrs@.len() - k,
        {
            let q = nbrs[k];
            assert(nbrs@.contains(q));
            if board.get(&q) != ChessType::Empty && !lib.get(&q) {
                proof {
                    let path = seq![q];
                    assert(adjacent(board@.size, q, *e));
                    assert(board@.at(*e) == ChessType::Empty);
                    assert(breathes(board@, q));
                    assert(is_chain(board@, path));
                    assert(path[0] == q && path.last() == q);
                    assert(has_liberty(board@, q));
                }
                let ghost w0 = work@;
                let ghost l0 = lib;
                lib.set(&q, true);
                work.push(q);
                proof {
                    assert forall|p: Location, r: Location| lib.at(p) && !work@.contains(p) && #[trigger] linked(board@, p, r) implies lib.at(r) by {
                        if p != q {
                            if p.index() == q.index() {
                                crate::board::lemma_index_injective(p, q);
                            }
                            assert(l0.at(p));
                            if w0.contains(p) {
                                let i = choose|i: int| 0 <= i < w0.len() && w0[i] == p;
                                assert(work@[i] == p);
                            }
                            assert(l0.at(r));
                        } else {
                            assert(work@[work@.len() - 1] == q);
                        }
                    }
                    assert forall|p: Location| #![trigger lib.at(p)] p.within(size as int) && lib.at(p) implies board.at(p) != ChessType::Empty && has_liberty(board@, p) by {
                        if p != q {
                            if p.index() == q.index() {
                                crate::board::lemma_index_injective(p, q);
                            }
                            assert(l0.at(p));
                        }
                    }
                }
            }
            k = k + 1;
        }
        proof {
            assert forall|q: Location| #[trigger] adjacent(size as int, *e, q) && board.at(q) != ChessType::Empty implies lib.at(q) by {
                assert(nbrs@.contains(q));
                let j = choose|j: int| 0 <= j < nbrs@.len() && nbrs@[j] == q;
                assert(board.at(nbrs@[j]) != ChessType::Empty);
            }
        }
        let ghost seeded = lib;
        while work.len() > 0
            invariant
                board.wf(),
                size == board.size,
                lib.wf(),
                lib.size == size,
                forall|p: Location| #![trigger old(lib).at(p)] p.within(size as int) && old(lib).at(p) ==> lib.at(p),
                forall|p: Location| #![trigger seeded.at(p)] p.within(size as int) && seeded.at(p) ==> lib.at(p),
                forall|p: Location| #![trigger lib.at(p)] p.within(size as int) && lib.at(p) ==> board.at(p) != ChessType::Empty && has_liberty(board@, p),
                forall|p: Location, q: Location| lib.at(p) && !work@.contains(p) && #[trigger] linked(board@, p, q) ==> lib.at(q),
                forall|i: int| 0 <= i < work@.len() ==> work@[i].within(size as int) && lib.at(#[trigger] work@[i]),
            decreases count_other(lib.cells@, true) + work@.len(),
        {
            let ghost before = count_other(lib.cells@, true) + work@.len();
            let ghost w0 = work@;
            let s = work.pop().unwrap();
            proof {
                assert(w0[w0.len() - 1] == s);
                assert(lib.at(s) && s.within(size as int));
                assert forall|i: int| 0 <= i < work@.len() implies work@[i].within(size as int) && lib.at(#[trigger] work@[i]) by {
                    assert(work@[i] == w0[i]);
                }
                assert forall|p: Location, q: Location| lib.at(p) && p != s && !work@.contains(p) && #[trigger] linked(board@, p, q) implies lib.at(q) by {
                    if w0.contains(p) {
                        let i = choose|i: int| 0 <= i < w0.len() && w0[i] == p;
                        assert(work@[i] == p);
                    }
                }
            }
            let nbrs = board.neighbors(&s);
            assert forall|j: int| 0 <= j < nbrs@.len() implies adjacent(size as int, s, #[trigger] nbrs@[j]) by {
                assert(nbrs@.contains(nbrs@[j]));
            }
            let color = board.get(&s);
            let mut k: usize = 0;
            while k < nbrs.len()
                invariant
                    board.wf(),
                    size == board.size,
                    lib.wf(),
                    lib.size == size,
                    s.within(size as int),
                    lib.at(s),
                    color == board.at(s),
                    color != ChessType::Empty,
                    k <= nbrs@.len(),
                    forall|q: Location| adjacent(size as int, s, q) <==> nbrs@.contains(q),
                    forall|j: int| 0 <= j < nbrs@.len() ==> adjacent(size as int, s, #[trigger] nbrs@[j]),
                    count_other(lib.cells@, true) + work@.len() + 1 == before,
                    forall|p: Location| #![trigger old(lib).at(p)] p.within(size as int) && old(lib).at(p) ==> lib.at(p),
                    forall|p: Location| #![trigger seeded.at(p)] p.within(size as int) && seeded.at(p) ==> lib.at(p),
                    forall|p: Location| #![trigger lib.at(p)] p.within(size as int) && lib.at(p) ==> board.at(p) != ChessType::Empty && has_liberty(board@, p),
                    forall|p: Location, q: Location| lib.at(p) && p != s && !work@.contains(p) && #[trigger] linked(board@, p, q) ==> lib.at(q),
                    forall|i: int| 0 <= i < work@.len() ==> work@[i].within(size as int) && lib.at(#[trigger] work@[i]),
                    forall|j: int| 0 <= j < k ==> board.at(#[trigger] nbrs@[j]) == color ==> lib.at(nbrs@[j]),
                decreases nbrs@.len() - k,
            {
                let q = nbrs[k];
                assert(nbrs@.contains(q));
                if board.get(&q) == color && !lib.get(&q) {
                    proof {
                        assert(has_liberty(board@, s));
                        let sp = choose|path: Seq<Location>| #[trigger] is_chain(board@, path) && path[0] == s && breathes(board@, path.last());
                        let path = seq![q] + sp;
                        assert(linked(board@, q, s));
                        assert forall|i: int| 0 <= i < path.len() - 1 implies #[trigger] linked(board@, path[i], path[i + 1]) by {
                            if i > 0 {
                                assert(path[i] == sp[i - 1]);
                                assert(path[i + 1] == sp[i]);
                                assert(linked(board@, sp[i - 1], sp[(i - 1) + 1]));
                            }
                        }
                        assert(is_chain(board@, path));
                        assert(path.last() == sp.last());
                        assert(path[0] == q);
                        assert(has_liberty(board@, q));
                        crate::board::lemma_index_location(q.index());
                        lemma_count_other_set(lib.cells@, true, q.index());
                    }
                    let ghost w0 = work@;
                    let ghost l0 = lib;
                    lib.set(&q, true);
                    work.push(q);
                    proof {
                        assert forall|p: Location, r: Location| lib.at(p) && p != s && !work@.contains(p) && #[trigger] linked(board@, p, r) implies lib.at(r) by {
                            if p != q {
                                if p.index() == q.index() {
                                    crate::board::lemma_index_injective(p, q);
                                }
                                assert(l0.at(p));
                                if w0.contains(p) {
                                    let i = choose|i: int| 0 <= i < w0.len() && w0[i] == p;
                                    assert(work@[i] == p);
                                }
                                assert(l0.at(r));
                            } else {
                                assert(work@[work@.len() - 1] == q);
                            }
                        }
                        assert forall|p: Location| #![trigger lib.at(p)] p.within(size as int) && lib.at(p) implies board.at(p) != ChessType::Empty && has_liberty(board@, p) by {
                            if p != q {
                                if p.index() == q.index() {
                                    crate::board::lemma_index_injective(p, q);
                                }
                                assert(l0.at(p));
                            }
                        }
                    }
                }
                k = k + 1;
            }
            proof {
                assert forall|p: Location, q: Location| lib.at(p) && !work@.contains(p) && #[trigger] linked(board@, p, q) implies lib.at(q) by {
                    if p == s {
                        assert(adjacent(size as int, s, q));
                        assert(nbrs@.contains(q));
                        let j = choose|j: int| 0 <= j < nbrs@.len() && nbrs@[j] == q;
                        assert(board.at(nbrs@[j]) == color);
                    }
                }
            }
        }
    }

    /// The stones without a liberty: black ones first, white ones second.
    pub fn get_deads(board: &Board<ChessType>) -> (r: (Vec<Location>, Vec<Location>))
        requires
            board.wf(),
        ensures
            forall|p: Location| r.0@.contains(p) <==> is_dead(board@, p, ChessType::Black),
            forall|p: Location| r.1@.contains(p) <==> is_dead(board@, p, ChessType::White),
            r.0@.no_duplicates(),
            r.1@.no_duplicates(),
            forall|i: int, j: int| 0 <= i < j < r.0@.len() ==> r.0@[i].index() < r.0@[j].index(),
            forall|i: int, j: int| 0 <= i < j < r.1@.len() ==> r.1@[i].index() < r.1@[j].index(),
    {
        let lib = Board::<bool>::make(board);
        let size = board.size;
        let mut black: Vec<Location> = Vec::new();
        let mut white: Vec<Location> = Vec::new();
        let mut a: u8 = 0;
        while a < size
            invariant
                board.wf(),
                lib.wf(),
                size == board.size,
                lib.size == size,
                a <= size,
                forall|p: Location| #![trigger lib.at(p)] p.within(board.size as int) ==> (lib.at(p) <==> (
                    board.at(p) != ChessType::Empty && has_liberty(board@, p))),
                forall|p: Location| black@.contains(p) <==> (p.alphabet < a && is_dead(board@, p, ChessType::Black)),
                forall|p: Location| white@.contains(p) <==> (p.alphabet < a && is_dead(board@, p, ChessType::White)),
                forall|i: int, j: int| 0 <= i < j < black@.len() ==> black@[i].index() < black@[j].index(),
                forall|i: int, j: int| 0 <= i < j < white@.len() ==> white@[i].index() < white@[j].index(),
                forall|i: int| 0 <= i < black@.len() ==> black@[i].alphabet < a,
                forall|i: int| 0 <= i < white@.len() ==> white@[i].alphabet < a,
            decreases size - a,
        {
            let mut d: u8 = 0;
            while d < size
                invariant
                    board.wf(),
                    lib.wf(),
                    size == board.size,
                    lib.size == size,
                    a < size,
                    d <= size,
                    forall|p: Location| #![trigger lib.at(p)] p.within(board.size as int) ==> (lib.at(p) <==> (
                        board.at(p) != ChessType::Empty && has_liberty(board@, p))),
                    forall|p: Location| black@.contains(p) <==> ((p.alphabet < a || (p.alphabet == a && p.digit < d)) && is_dead(board@, p, ChessType::Black)),
                    forall|p: Location| white@.contains(p) <==> ((p.alphabet < a || (p.alphabet == a && p.digit < d)) && is_dead(board@, p, ChessType::White)),
                    forall|i: int, j: int| 0 <= i < j < black@.len() ==> black@[i].index() < black@[j].index(),
                    forall|i: int, j: int| 0 <= i < j < white@.len() ==> white@[i].index() < white@[j].index(),
                    forall|i: int| 0 <= i < black@.len() ==> black@[i].alphabet < a || (black@[i].alphabet == a && black@[i].digit < d),
                    forall|i: int| 0 <= i < white@.len() ==> white@[i].alphabet < a || (white@[i].alphabet == a && white@[i].digit < d),
                decreases size - d,
            {
                let location = Location { alphabet: a, digit: d };
                let chess = board.get(&location);
                let alive = lib.get(&location);
                if chess == ChessType::Black && !alive {
                    let ghost b0 = black@;
                    black.push(location);
                    proof {
                        assert(black@[black@.len() - 1] == location);
                        assert(!lib.at(location));
                        assert(is_dead(board@, location, ChessType::Black));
                        assert forall|p: Location| black@.contains(p) <==> ((p.alphabet < a || (p.alphabet == a && p.digit < d + 1)) && is_dead(board@, p, ChessType::Black)) by {
                            if b0.contains(p) {
                                let i = choose|i: int| 0 <= i < b0.len() && b0[i] == p;
                                assert(black@[i] == p);
                            }
                            if black@.contains(p) && p != location {
                                let i = choose|i: int| 0 <= i < black@.len() && black@[i] == p;
                                assert(i < b0.len());
                                assert(b0[i] == p);
                            }
                        }
                        assert forall|i: int, j: int| 0 <= i < j < black@.len() implies black@[i].index() < black@[j].index() by {
                            if j < b0.len() {
                                assert(black@[i] == b0[i] && black@[j] == b0[j]);
                            } else {
                                assert(black@[i] == b0[i]);
                                assert(b0.contains(b0[i]));
                            }
                        }
                    }
                } else if chess == ChessType::White && !alive {
                    let ghost b0 = white@;
                    white.push(location);
                    proof {
                        assert(white@[white@.len() - 1] == location);
                        assert(!lib.at(location));
                        assert(is_dead(board@, location, ChessType::White));
                        assert forall|p: Location| white@.contains(p) <==> ((p.alphabet < a || (p.alphabet == a && p.digit < d + 1)) && is_dead(board@, p, ChessType::White)) by {
                            if b0.contains(p) {
                                let i = choose|i: int| 0 <= i < b0.len() && b0[i] == p;
                                assert(white@[i] == p);
                            }
                            if white@.contains(p) && p != location {
                                let i = choose|i: int| 0 <= i < white@.len() && white@[i] == p;
                                assert(i < b0.len());
                                assert(b0[i] == p);
                            }
                        }
                        assert forall|i: int, j: int| 0 <= i < j < white@.len() implies white@[i].index() < white@[j].index() by {
                            if j < b0.len() {
                                assert(white@[i] == b0[i] && white@[j] == b0[j]);
                            } else {
                                assert(white@[i] == b0[i]);
                                assert(b0.contains(b0[i]));
                            }
                        }
                    }
                }
                d = d + 1;
            }
            a = a + 1;
        }
        proof {
            assert forall|i: int, j: int| 0 <= i < black@.len() && 0 <= j < black@.len() && i != j implies black@[i] != black@[j] by {
                if i < j {
                    assert(black@[i].index() < black@[j].index());
                } else {
                    assert(black@[j].index() < black@[i].index());
                }
            }
            assert forall|i: int, j: int| 0 <= i < white@.len() && 0 <= j < white@.len() && i != j implies white@[i] != white@[j] by {
                if i < j {
                    assert(white@[i].index() < white@[j].index());
                } else {
                    assert(white@[j].index() < white@[i].index());
                }
            }
        }
        (black, white)
    }
}

} // verus!
