use vstd::prelude::*;

verus! {

/// Axial hex coordinate (q, r).
#[derive(Clone, Copy, Debug, PartialEq, Eq)]
pub struct HexCoord {
    pub q: isize,
    pub r: isize,
}

/// The six axial unit directions, in the order in which neighbours are listed.
pub open spec fn direction(k: int) -> (int, int) {
    if k == 0 {
        (1, 0)
    } else if k == 1 {
        (1, -1)
    } else if k == 2 {
        (0, -1)
    } else if k == 3 {
        (-1, 0)
    } else if k == 4 {
        (-1, 1)
    } else {
        (0, 1)
    }
}

/// `b` lies at unit distance from `a` along one of the six axial directions.
pub open spec fn adjacent(a: (isize, isize), b: (isize, isize)) -> bool {
    exists|k: int| 0 <= k < 6 && #[trigger] direction(k) == (b.0 - a.0, b.1 - a.1)
}

/// Both coordinates of `c` can be moved by one step without leaving `isize`.
pub open spec fn steppable(c: (isize, isize)) -> bool {
    isize::MIN < c.0 < isize::MAX && isize::MIN < c.1 < isize::MAX
}

/// Adjacency is symmetric.
pub proof fn lemma_adjacent_symmetric(a: (isize, isize), b: (isize, isize))
    ensures
        adjacent(a, b) == adjacent(b, a),
{
    if adjacent(a, b) {
        let k = choose|k: int| 0 <= k < 6 && #[trigger] direction(k) == (b.0 - a.0, b.1 - a.1);
        let m = if k < 3 { k + 3 } else { k - 3 };
        assert(direction(m) == (a.0 - b.0, a.1 - b.1));
    }
    if adjacent(b, a) {
        let k = choose|k: int| 0 <= k < 6 && #[trigger] direction(k) == (a.0 - b.0, a.1 - b.1);
        let m = if k < 3 { k + 3 } else { k - 3 };
        assert(direction(m) == (b.0 - a.0, b.1 - a.1));
    }
}

impl HexCoord {
    pub open spec fn pair(self) -> (isize, isize) {
        (self.q, self.r)
    }

    pub fn new(q: isize, r: isize) -> (h: HexCoord)
        ensures
            h.q == q,
            h.r == r,
    {
        HexCoord { q, r }
    }

    /// The six cells at unit distance, one per axial direction, in direction order.
    pub fn neighbors(&self) -> (ns: Vec<HexCoord>)
        requires
            steppable(self.pair()),
        ensures
            ns@.len() == 6,
            forall|k: int|
                0 <= k < 6 ==> (#[trigger] ns@[k]).q == self.q + direction(k).0 && ns@[k].r
                    == self.r + direction(k).1,
            forall|k: int| 0 <= k < 6 ==> adjacent(self.pair(), #[trigger] ns@[k].pair()),
            forall|c: (isize, isize)|
                adjacent(self.pair(), c) ==> exists|k: int|
                    0 <= k < 6 && #[trigger] ns@[k].pair() == c,
    {
        let q = self.q;
        let r = self.r;
        let ns = vec![
            HexCoord { q: q + 1, r },
            HexCoord { q: q + 1, r: r - 1 },
            HexCoord { q, r: r - 1 },
            HexCoord { q: q - 1, r },
            HexCoord { q: q - 1, r: r + 1 },
            HexCoord { q, r: r + 1 },
        ];
        assert forall|k: int| 0 <= k < 6 implies adjacent(self.pair(), #[trigger] ns@[k].pair()) by {
            assert(direction(k) == (ns@[k].q - q, ns@[k].r - r));
        }
        assert forall|c: (isize, isize)| adjacent(self.pair(), c) implies exists|k: int|
            0 <= k < 6 && #[trigger] ns@[k].pair() == c by {
            let k = choose|k: int| 0 <= k < 6 && #[trigger] direction(k) == (c.0 - q, c.1 - r);
            assert(ns@[k].pair() == c);
        }
        ns
    }
}

/// Whether two cells are adjacent, for any pair of coordinates.
pub fn is_adjacent(a: (isize, isize), b: (isize, isize)) -> (res: bool)
    ensures
        res == adjacent(a, b),
{
    let dq: i128 = b.0 as i128 - a.0 as i128;
    let dr: i128 = b.1 as i128 - a.1 as i128;
    let res = (dq == 1 && dr == 0) || (dq == 1 && dr == -1) || (dq == 0 && dr == -1) || (dq == -1
        && dr == 0) || (dq == -1 && dr == 1) || (dq == 0 && dr == 1);
    proof {
        if res {
            let k: int = if dq == 1 && dr == 0 {
                0
            } else if dq == 1 {
                1
            } else if dq == 0 && dr == -1 {
                2
            } else if dr == 0 {
                3
            } else if dq == -1 {
                4
            } else {
                5
            };
            assert(direction(k) == (b.0 - a.0, b.1 - a.1));
        }
    }
    res
}

} // verus!
