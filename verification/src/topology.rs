//! Fixed connection patterns: a trivial driver over `connect`.
//!
//! A topology names which pairs of a group of `count` nodes should be
//! connected, as ordered `(initiator, responder)` index pairs. The embedder
//! spawns the nodes and dials one edge after another.

use vstd::prelude::*;

verus! {

/// The way a group of nodes is connected to each other.
#[derive(Debug, Clone, Copy, PartialEq, Eq, Structural)]
pub enum Topology {
    /// No connections.
    Isolated,
    /// A chain: each node connects to the next one.
    Line,
    /// A line whose last node also connects to the first.
    Ring,
    /// Every node connects to every other.
    Mesh,
    /// The first node connects to every other.
    Star,
}

/// The edges of a line over `count` nodes.
pub open spec fn line_edges(count: usize) -> Seq<(usize, usize)> {
    if count == 0 {
        Seq::empty()
    } else {
        Seq::new((count - 1) as nat, |k: int| (k as usize, (k + 1) as usize))
    }
}

/// The edges of a ring over `count` nodes.
pub open spec fn ring_edges(count: usize) -> Seq<(usize, usize)> {
    if count == 0 {
        Seq::empty()
    } else {
        line_edges(count).push(((count - 1) as usize, 0usize))
    }
}

/// The edges of a star over `count` nodes.
pub open spec fn star_edges(count: usize) -> Seq<(usize, usize)> {
    if count == 0 {
        Seq::empty()
    } else {
        Seq::new((count - 1) as nat, |k: int| (0usize, (k + 1) as usize))
    }
}

/// The edges leaving node `i` in a mesh over `count` nodes: one to every
/// other node, in index order.
pub open spec fn mesh_row(i: usize, count: usize) -> Seq<(usize, usize)> {
    if count == 0 {
        Seq::empty()
    } else {
        Seq::new(
            (count - 1) as nat,
            |k: int|
                (
                    i,
                    if k < i {
                        k as usize
                    } else {
                        (k + 1) as usize
                    },
                ),
        )
    }
}

/// The rows of the first `upto` nodes of a mesh, concatenated.
pub open spec fn mesh_rows(upto: int, count: usize) -> Seq<(usize, usize)>
    decreases upto,
{
    if upto <= 0 {
        Seq::empty()
    } else {
        mesh_rows(upto - 1, count) + mesh_row((upto - 1) as usize, count)
    }
}

/// The edges of a mesh over `count` nodes.
pub open spec fn mesh_edges(count: usize) -> Seq<(usize, usize)> {
    mesh_rows(count as int, count)
}

/// The edges a topology asks for, in dialing order.
pub open spec fn spec_topology_edges(topology: Topology, count: usize) -> Seq<(usize, usize)> {
    match topology {
        Topology::Isolated => Seq::empty(),
        Topology::Line => line_edges(count),
        Topology::Ring => ring_edges(count),
        Topology::Mesh => mesh_edges(count),
        Topology::Star => star_edges(count),
    }
}

/// The `(initiator, responder)` pairs to dial, in order, to arrange `count`
/// nodes in the given topology.
pub fn topology_edges(topology: Topology, count: usize) -> (r: Vec<(usize, usize)>)
    requires
        (topology == Topology::Line || topology == Topology::Ring) ==> count >= 1,
    ensures
        r@ == spec_topology_edges(topology, count),
{
    match topology {
        Topology::Isolated => {
            let r: Vec<(usize, usize)> = Vec::new();
            proof {
                assert(r@ =~= spec_topology_edges(topology, count));
            }
            r
        }
        Topology::Line => {
            let r = build_line(count);
            r
        }
        Topology::Ring => {
            let mut r = build_line(count);
            r.push((count - 1, 0));
            proof {
                assert(r@ =~= ring_edges(count));
            }
            r
        }
        Topology::Star => {
            let mut r: Vec<(usize, usize)> = Vec::new();
            let mut k: usize = 1;
            proof {
                assert(r@ =~= star_edges(count).subrange(0, 0));
            }
            while k < count
                invariant
                    1 <= k <= count || (count == 0 && k == 1),
                    r@ == star_edges(count).subrange(0, k - 1),
                decreases count - k,
            {
                r.push((0, k));
                proof {
                    assert(star_edges(count)[k - 1] == (0usize, k as usize));
                    assert(star_edges(count).subrange(0, k as int) =~= star_edges(
                        count,
                    ).subrange(0, k - 1).push(star_edges(count)[k - 1]));
                }
                k = k + 1;
            }
            proof {
                if count == 0 {
                    assert(r@ =~= star_edges(count));
                } else {
                    assert(star_edges(count).subrange(0, count - 1) =~= star_edges(count));
                }
            }
            r
        }
        Topology::Mesh => {
            let mut r: Vec<(usize, usize)> = Vec::new();
            let mut i: usize = 0;
            proof {
                assert(r@ =~= mesh_rows(0, count));
            }
            while i < count
                invariant
                    i <= count,
                    r@ == mesh_rows(i as int, count),
                decreases count - i,
            {
                let mut j: usize = 0;
                let ghost row_base = r@;
                while j < count
                    invariant
                        i < count,
                        j <= count,
                        row_base == mesh_rows(i as int, count),
                        r@ == row_base + mesh_row(i, count).subrange(
                            0,
                            if j <= i {
                                j as int
                            } else {
                                j - 1
                            },
                        ),
                    decreases count - j,
                {
                    if i != j {
                        r.push((i, j));
                        proof {
                            let row = mesh_row(i, count);
                            if j < i {
                                assert(row[j as int] == (i, j));
                                assert(row.subrange(0, j + 1) =~= row.subrange(0, j as int).push(
                                    row[j as int],
                                ));
                                assert(r@ =~= row_base + row.subrange(0, j + 1));
                            } else {
                                assert(row[j - 1] == (i, j));
                                assert(row.subrange(0, j as int) =~= row.subrange(0, j - 1).push(
                                    row[j - 1],
                                ));
                                assert(r@ =~= row_base + row.subrange(0, j as int));
                            }
                        }
                    } else {
                        proof {
                            assert(r@ =~= row_base + mesh_row(i, count).subrange(
                                0,
                                if j + 1 <= i {
                                    (j + 1) as int
                                } else {
                                    j as int
                                },
                            ));
                        }
                    }
                    j = j + 1;
                }
                proof {
                    assert(mesh_row(i, count).subrange(0, (count - 1) as int) =~= mesh_row(
                        i,
                        count,
                    ));
                    assert(r@ =~= mesh_rows(i + 1 as int, count));
                }
                i = i + 1;
            }
            proof {
                assert(r@ =~= mesh_edges(count));
            }
            r
        }
    }
}

/// The line part shared by `Line` and `Ring`.
fn build_line(count: usize) -> (r: Vec<(usize, usize)>)
    requires
        count >= 1,
    ensures
        r@ == line_edges(count),
{
    let mut r: Vec<(usize, usize)> = Vec::new();
    let mut k: usize = 0;
    proof {
        assert(r@ =~= line_edges(count).subrange(0, 0));
    }
    while k < count - 1
        invariant
            count >= 1,
            k <= count - 1,
            r@ == line_edges(count).subrange(0, k as int),
        decreases count - 1 - k,
    {
        r.push((k, k + 1));
        proof {
            assert(line_edges(count)[k as int] == (k as usize, (k + 1) as usize));
            assert(line_edges(count).subrange(0, k + 1) =~= line_edges(count).subrange(
                0,
                k as int,
            ).push(line_edges(count)[k as int]));
        }
        k = k + 1;
    }
    proof {
        assert(line_edges(count).subrange(0, (count - 1) as int) =~= line_edges(count));
    }
    r
}

} // verus!
