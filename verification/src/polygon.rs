//! The connection rule of polygons: every corner is joined to exactly two others.
use vstd::prelude::*;

verus! {

/// Stands for a corner position when positions are compared: two positions are the same
/// exactly when their keys are equal.
#[derive(Clone, Copy, Debug, PartialEq, Eq, Structural)]
pub struct PositionKey {
    pub x: u32,
    pub y: u32,
    pub z: u32,
    pub unique: u64,
}

/// A corner of a polygon as the connection check sees it: its position and the positions of
/// the two corners it is joined to.
#[derive(Clone, Copy, Debug, PartialEq, Eq, Structural)]
pub struct PolygonCorner {
    pub position: PositionKey,
    pub connection_1: PositionKey,
    pub connection_2: PositionKey,
}

/// Corner `j` sits at one of the positions that corner `i` is joined to.
pub open spec fn joins(corners: Seq<PolygonCorner>, i: int, j: int) -> bool {
    corners[i].connection_1 == corners[j].position || corners[i].connection_2 == corners[j].position
}

/// How many of the first `n` corners, other than corner `i` itself, corner `i` is joined to.
pub open spec fn joined_below(corners: Seq<PolygonCorner>, i: int, n: int) -> nat
    decreases n,
{
    if n <= 0 {
        0
    } else {
        joined_below(corners, i, n - 1) + if n - 1 != i && joins(corners, i, n - 1) {
            1nat
        } else {
            0nat
        }
    }
}

/// How many other corners corner `i` is joined to.
pub open spec fn connection_count(corners: Seq<PolygonCorner>, i: int) -> nat {
    joined_below(corners, i, corners.len() as int)
}

/// Every corner is joined to exactly two other corners.
pub open spec fn properly_connected(corners: Seq<PolygonCorner>) -> bool {
    forall|i: int| 0 <= i < corners.len() ==> #[trigger] connection_count(corners, i) == 2
}

fn count_connections(corners: &Vec<PolygonCorner>, i: usize) -> (count: usize)
    requires
        i < corners.len(),
    ensures
        count == connection_count(corners@, i as int),
{
    let mut count: usize = 0;
    let mut j: usize = 0;
    while j < corners.len()
        invariant
            i < corners.len(),
            j <= corners.len(),
            count == joined_below(corners@, i as int, j as int),
            count <= j,
        decreases corners.len() - j,
    {
        if i != j && (corners[i].connection_1 == corners[j].position || corners[i].connection_2
            == corners[j].position) {
            count = count + 1;
        }
        j = j + 1;
    }
    count
}

/// Checks the corners of a new polygon, corner by corner: each must be joined to exactly two
/// other corners; then there must be at least three corners.
pub fn check_polygon(corners: &Vec<PolygonCorner>) -> (res: Result<(), String>)
    ensures
        !properly_connected(corners@) ==> (res matches Err(m) && m@
            == "Not all corners are properly connected, cant make Triangle :("@),
        properly_connected(corners@) && corners.len() < 3 ==> (res matches Err(m) && m@
            == "to few corners to Polygon :("@),
        properly_connected(corners@) && corners.len() >= 3 ==> res is Ok,
{
    let mut i: usize = 0;
    while i < corners.len()
        invariant
            i <= corners.len(),
            forall|k: int| 0 <= k < i ==> #[trigger] connection_count(corners@, k) == 2,
        decreases corners.len() - i,
    {
        if count_connections(corners, i) != 2 {
            return Err(String::from_str("Not all corners are properly connected, cant make Triangle :("));
        }
        i = i + 1;
    }
    if corners.len() < 3 {
        return Err(String::from_str("to few corners to Polygon :("));
    }
    Ok(())
}

/// The corners of a polygon whose positions are given in order around it: corner `k` is
/// joined to the corner before it (as its first connection) and to the one after it (as its
/// second), the last and the first corner being neighbours.
pub open spec fn ring(positions: Seq<PositionKey>) -> Seq<PolygonCorner> {
    Seq::new(
        positions.len(),
        |k: int|
            PolygonCorner {
                position: positions[k],
                connection_1: positions[if k == 0 {
                    positions.len() - 1
                } else {
                    k - 1
                }],
                connection_2: positions[if k + 1 == positions.len() {
                    0
                } else {
                    k + 1
                }],
            },
    )
}

/// Builds a polygon from positions given in order around it (see `ring`) and checks it as
/// `check_polygon` does; fewer than three positions are refused first.
pub fn ordered_polygon(positions: &Vec<PositionKey>) -> (res: Result<Vec<PolygonCorner>, String>)
    ensures
        positions.len() < 3 ==> (res matches Err(m) && m@ == "to few corners for Triangle creation"@),
        positions.len() >= 3 && !properly_connected(ring(positions@)) ==> (res matches Err(m) && m@
            == "Not all corners are properly connected, cant make Triangle :("@),
        positions.len() >= 3 && properly_connected(ring(positions@)) ==> (res matches Ok(c) && c@
            == ring(positions@)),
{
    let n = positions.len();
    if n < 3 {
        return Err(String::from_str("to few corners for Triangle creation"));
    }
    let mut corners: Vec<PolygonCorner> = Vec::new();
    let mut k: usize = 0;
    while k < n
        invariant
            n == positions.len(),
            n >= 3,
            k <= n,
            corners@ == ring(positions@).take(k as int),
        decreases n - k,
    {
        let previous = if k == 0 {
            n - 1
        } else {
            k - 1
        };
        let next = if k + 1 == n {
            0
        } else {
            k + 1
        };
        corners.push(
            PolygonCorner {
                position: positions[k],
                connection_1: positions[previous],
                connection_2: positions[next],
            },
        );
        k = k + 1;
        assert(corners@ =~= ring(positions@).take(k as int));
    }
    assert(corners@ =~= ring(positions@));
    match check_polygon(&corners) {
        Ok(()) => Ok(corners),
        Err(m) => Err(m),
    }
}


proof fn lemma_ring_joined_below(positions: Seq<PositionKey>, i: int, n: int)
    requires
        positions.len() >= 3,
        0 <= i < positions.len(),
        0 <= n <= positions.len(),
        forall|a: int, b: int|
            0 <= a < b < positions.len() ==> #[trigger] positions[a] != #[trigger] positions[b],
    ensures
        ({
            let p = if i == 0 {
                positions.len() - 1
            } else {
                i - 1
            };
            let q = if i + 1 == positions.len() {
                0
            } else {
                i + 1
            };
            joined_below(ring(positions), i, n) == (if p < n {
                1nat
            } else {
                0nat
            }) + (if q < n {
                1nat
            } else {
                0nat
            })
        }),
    decreases n,
{
    if n > 0 {
        lemma_ring_joined_below(positions, i, n - 1);
        let j = n - 1;
        let c = ring(positions);
        let p = if i == 0 {
            positions.len() - 1
        } else {
            i - 1
        };
        let q = if i + 1 == positions.len() {
            0
        } else {
            i + 1
        };
        assert(c[i].connection_1 == positions[p]);
        assert(c[i].connection_2 == positions[q]);
        assert(c[j].position == positions[j]);
        if j != p {
            assert(positions[j] != positions[p]) by {
                if j < p {
                    assert(positions[j] != positions[p]);
                } else {
                    assert(positions[p] != positions[j]);
                }
            }
        }
        if j != q {
            assert(positions[j] != positions[q]) by {
                if j < q {
                    assert(positions[j] != positions[q]);
                } else {
                    assert(positions[q] != positions[j]);
                }
            }
        }
    }
}

/// Positions given in order around a polygon, at least three and all different, always make
/// a properly connected polygon.
pub proof fn lemma_distinct_ring_is_connected(positions: Seq<PositionKey>)
    requires
        positions.len() >= 3,
        forall|a: int, b: int|
            0 <= a < b < positions.len() ==> #[trigger] positions[a] != #[trigger] positions[b],
    ensures
        properly_connected(ring(positions)),
{
    assert forall|i: int| 0 <= i < ring(positions).len() implies #[trigger] connection_count(
        ring(positions),
        i,
    ) == 2 by {
        lemma_ring_joined_below(positions, i, positions.len() as int);
    }
}

} // verus!
