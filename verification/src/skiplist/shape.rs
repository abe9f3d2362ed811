use vstd::prelude::*;

verus! {

/// The order of the nodes: `ord[p]` is the node at position `p` of the
/// ascending key order, `pos[i]` the position of node `i`. The head, node 0,
/// stands before position 0.
pub struct Shape {
    pub ord: Seq<int>,
    pub pos: Seq<int>,
}

/// The height of each tower.
pub open spec fn heights(towers: Seq<Seq<usize>>) -> Seq<nat> {
    Seq::new(towers.len(), |i: int| towers[i].len())
}

/// `shape` orders the `n` nodes: `ord` and `pos` are inverse to each other.
pub open spec fn shape_ok(shape: Shape, n: int) -> bool {
    &&& n >= 1
    &&& shape.ord.len() == n - 1
    &&& shape.pos.len() == n
    &&& shape.pos[0] == -1
    &&& forall|p: int|
        0 <= p < n - 1 ==> 1 <= #[trigger] shape.ord[p] < n && shape.pos[shape.ord[p]] == p
    &&& forall|i: int|
        1 <= i < n ==> 0 <= #[trigger] shape.pos[i] < n - 1 && shape.ord[shape.pos[i]] == i
}

/// The link of node `i` at `level` leads to the first node after it whose
/// tower reaches above `level`, or nowhere if there is none.
pub open spec fn link_ok(
    towers: Seq<Seq<usize>>,
    shape: Shape,
    hts: Seq<nat>,
    i: int,
    level: int,
) -> bool {
    let t = towers[i][level] as int;
    let q = if t == 0 {
        shape.ord.len() as int
    } else {
        shape.pos[t]
    };
    &&& 0 <= t < towers.len()
    &&& shape.pos[i] < q
    &&& t != 0 ==> hts[t] > level
    &&& forall|m: int| shape.pos[i] < m < q ==> hts[#[trigger] shape.ord[m]] <= level
}

/// Every link below the height `hts` gives its node is as `link_ok` says.
pub open spec fn links_ok(towers: Seq<Seq<usize>>, shape: Shape, hts: Seq<nat>) -> bool {
    forall|i: int, level: int|
        0 <= i < towers.len() && 0 <= level < hts[i] ==> #[trigger] link_ok(
            towers,
            shape,
            hts,
            i,
            level,
        )
}

/// The shape after a new node, which gets the next free index, is put at position `at`.
pub open spec fn shape_insert(shape: Shape, at: int) -> Shape {
    let x = shape.pos.len() as int;
    Shape {
        ord: shape.ord.insert(at, x),
        pos: Seq::new(
            shape.pos.len() + 1,
            |i: int|
                if i == x {
                    at
                } else if shape.pos[i] >= at {
                    shape.pos[i] + 1
                } else {
                    shape.pos[i]
                },
        ),
    }
}

/// Putting a new node at a position keeps the order and its inverse consistent.
pub proof fn lemma_shape_insert(shape: Shape, n: int, at: int)
    requires
        shape_ok(shape, n),
        0 <= at <= n - 1,
    ensures
        shape_ok(shape_insert(shape, at), n + 1),
        shape_insert(shape, at).pos[n] == at,
        shape_insert(shape, at).ord[at] == n,
        forall|p: int| 0 <= p < at ==> shape_insert(shape, at).ord[p] == shape.ord[p],
        forall|p: int| at < p < n ==> shape_insert(shape, at).ord[p] == shape.ord[p - 1],
{
    let after = shape_insert(shape, at);
    assert forall|p: int| 0 <= p < n implies 1 <= #[trigger] after.ord[p] < n + 1
        && after.pos[after.ord[p]] == p by {
        if p < at {
            assert(after.ord[p] == shape.ord[p]);
        } else if p > at {
            assert(after.ord[p] == shape.ord[p - 1]);
        }
    }
    assert forall|i: int| 1 <= i < n + 1 implies 0 <= #[trigger] after.pos[i] < n
        && after.ord[after.pos[i]] == i by {
        if i < n {
            let p = shape.pos[i];
            assert(shape.ord[p] == i);
        }
    }
}

/// A new node that no level shows yet leaves every link as it should be.
pub proof fn lemma_links_insert(
    towers: Seq<Seq<usize>>,
    shape: Shape,
    hts: Seq<nat>,
    at: int,
    tower: Seq<usize>,
)
    requires
        shape_ok(shape, towers.len() as int),
        hts.len() == towers.len(),
        links_ok(towers, shape, hts),
        0 <= at <= towers.len() - 1,
    ensures
        links_ok(towers.push(tower), shape_insert(shape, at), hts.push(0)),
{
    let n = towers.len() as int;
    let towers2 = towers.push(tower);
    let after = shape_insert(shape, at);
    let hts2 = hts.push(0);
    lemma_shape_insert(shape, n, at);
    assert forall|i: int, level: int|
        0 <= i < towers2.len() && 0 <= level < hts2[i] implies #[trigger] link_ok(
        towers2,
        after,
        hts2,
        i,
        level,
    ) by {
        assert(i < n);
        assert(link_ok(towers, shape, hts, i, level));
        let t = towers[i][level] as int;
        let q = if t == 0 {
            shape.ord.len() as int
        } else {
            shape.pos[t]
        };
        let q2 = if t == 0 {
            after.ord.len() as int
        } else {
            after.pos[t]
        };
        assert(q2 == if q >= at { q + 1 } else { q });
        assert forall|m: int| after.pos[i] < m < q2 implies hts2[#[trigger] after.ord[m]]
            <= level by {
            if m < at {
                assert(after.ord[m] == shape.ord[m]);
            } else if m > at {
                assert(after.ord[m] == shape.ord[m - 1]);
            }
        }
    }
}

/// Linking the new node `x` in at `level`, behind the last node before it
/// that reaches above the level, leaves every link as it should be once
/// `x` counts as reaching one level higher.
pub proof fn lemma_link_level(
    towers: Seq<Seq<usize>>,
    towers2: Seq<Seq<usize>>,
    shape: Shape,
    hts: Seq<nat>,
    x: int,
    f: int,
    level: int,
)
    requires
        shape_ok(shape, towers.len() as int),
        hts.len() == towers.len(),
        links_ok(towers, shape, hts),
        1 <= x < towers.len(),
        0 <= f < towers.len(),
        0 <= level,
        hts[x] == level,
        hts[f] > level,
        shape.pos[f] < shape.pos[x],
        forall|m: int| shape.pos[f] < m < shape.pos[x] ==> hts[#[trigger] shape.ord[m]] <= level,
        towers2.len() == towers.len(),
        forall|i: int| 0 <= i < towers.len() ==> hts[i] <= (#[trigger] towers[i]).len(),
        level < towers[x].len(),
        forall|i: int, l: int|
            0 <= i < towers.len() && 0 <= l < towers[i].len() && !(l == level && (i == x || i
                == f)) ==> #[trigger] towers2[i][l] == towers[i][l],
        towers2[x][level] == towers[f][level],
        towers2[f][level] == x,
    ensures
        links_ok(towers2, shape, hts.update(x, (level + 1) as nat)),
{
    let hts2 = hts.update(x, (level + 1) as nat);
    let px = shape.pos[x];
    let pf = shape.pos[f];
    assert(shape.ord[px] == x);
    assert(f != x);
    assert(link_ok(towers, shape, hts, f, level));
    assert forall|i: int, l: int|
        0 <= i < towers2.len() && 0 <= l < hts2[i] implies #[trigger] link_ok(
        towers2,
        shape,
        hts2,
        i,
        l,
    ) by {
        if i == f && l == level {
            assert forall|m: int| pf < m < px implies hts2[#[trigger] shape.ord[m]] <= l by {
                assert(shape.pos[shape.ord[m]] == m);
            }
        } else if i == x && l == level {
            let t0 = towers[f][level] as int;
            let q0 = if t0 == 0 {
                shape.ord.len() as int
            } else {
                shape.pos[t0]
            };
            if t0 != 0 {
                assert(shape.ord[q0] == t0);
                if q0 < px {
                    assert(hts[shape.ord[q0]] <= level);
                }
            }
            assert(px < q0);
            assert forall|m: int| px < m < q0 implies hts2[#[trigger] shape.ord[m]] <= l by {
                assert(shape.pos[shape.ord[m]] == m);
                assert(hts[shape.ord[m]] <= level);
            }
        } else {
            assert(l < hts[i]);
            assert(link_ok(towers, shape, hts, i, l));
            let t = towers[i][l] as int;
            let q = if t == 0 {
                shape.ord.len() as int
            } else {
                shape.pos[t]
            };
            let pi = shape.pos[i];
            assert forall|m: int| pi < m < q implies hts2[#[trigger] shape.ord[m]] <= l by {
                assert(hts[shape.ord[m]] <= l);
                if m == px && l == level {
                    assert(i != x);
                    assert(i != f);
                    if pi > pf {
                        assert(shape.ord[pi] == i);
                        assert(hts[shape.ord[pi]] <= level);
                    } else if pi < pf {
                        assert(shape.ord[pf] == f);
                        assert(hts[shape.ord[pf]] <= l);
                    } else {
                        if i != 0 {
                            assert(shape.ord[pi] == i);
                        }
                        if f != 0 {
                            assert(shape.ord[pf] == f);
                        }
                    }
                }
            }
        }
    }
}

} // verus!
