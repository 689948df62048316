//! The graph store: the mathematical model of a graph and the
//! identifier-based lookups the search relies on.

use vstd::prelude::*;

use crate::types::{Connection, Node};

verus! {

/// Some node of `g` carries the identifier `id`.
pub open spec fn contains_id(g: Seq<Node>, id: usize) -> bool {
    exists|i: int| 0 <= i < g.len() && (#[trigger] g[i]).id == id
}

/// Some node with identifier `a` declares a connection whose target is `b`.
pub open spec fn has_edge(g: Seq<Node>, a: usize, b: usize) -> bool {
    exists|i: int, j: int|
        0 <= i < g.len() && (#[trigger] g[i]).id == a && 0 <= j < g[i].connections@.len()
            && (#[trigger] g[i].connections@[j]).to == b
}

/// Node identifiers are unique across the graph.
pub open spec fn ids_unique(g: Seq<Node>) -> bool {
    forall|i: int, j: int|
        0 <= i < g.len() && 0 <= j < g.len() && i != j ==> (#[trigger] g[i]).id != (
        #[trigger] g[j]).id
}

/// Every declared connection targets a node that is present in the graph.
pub open spec fn closed_graph(g: Seq<Node>) -> bool {
    forall|i: int, j: int|
        0 <= i < g.len() && 0 <= j < g[i].connections@.len() ==> contains_id(
            g,
            (#[trigger] g[i].connections@[j]).to,
        )
}

/// The graph invariant: unique identifiers, and no dangling connection
/// targets.
pub open spec fn graph_wf(g: Seq<Node>) -> bool {
    ids_unique(g) && closed_graph(g)
}

/// True iff the graph holds a node with identifier `id`.
pub fn contains(map: &Vec<Node>, id: usize) -> (r: bool)
    ensures
        r == contains_id(map@, id),
{
    let mut i: usize = 0;
    while i < map.len()
        invariant
            i <= map@.len(),
            forall|k: int| 0 <= k < i ==> (#[trigger] map@[k]).id != id,
        decreases map@.len() - i,
    {
        if map[i].id == id {
            return true;
        }
        i += 1;
    }
    false
}

/// Index of the first node carrying `id`, if any.
pub fn find_index(map: &Vec<Node>, id: usize) -> (r: Option<usize>)
    ensures
        match r {
            Some(i) => i < map@.len() && map@[i as int].id == id && (forall|k: int|
                0 <= k < i ==> (#[trigger] map@[k]).id != id),
            None => !contains_id(map@, id),
        },
{
    let mut i: usize = 0;
    while i < map.len()
        invariant
            i <= map@.len(),
            forall|k: int| 0 <= k < i ==> (#[trigger] map@[k]).id != id,
        decreases map@.len() - i,
    {
        if map[i].id == id {
            return Some(i);
        }
        i += 1;
    }
    None
}

/// Index of the first connection in `conns` whose target is `to`, if any.
pub fn find_conn_index(conns: &Vec<Connection>, to: usize) -> (r: Option<usize>)
    ensures
        match r {
            Some(j) => j < conns@.len() && conns@[j as int].to == to && (forall|k: int|
                0 <= k < j ==> (#[trigger] conns@[k]).to != to),
            None => forall|k: int| 0 <= k < conns@.len() ==> (#[trigger] conns@[k]).to != to,
        },
{
    let mut j: usize = 0;
    while j < conns.len()
        invariant
            j <= conns@.len(),
            forall|k: int| 0 <= k < j ==> (#[trigger] conns@[k]).to != to,
        decreases conns@.len() - j,
    {
        if conns[j].to == to {
            return Some(j);
        }
        j += 1;
    }
    None
}

/// Decides the graph invariant: identifiers unique and every connection
/// target present. Run once over freshly loaded data before answering
/// queries from it.
pub fn is_well_formed(map: &Vec<Node>) -> (r: bool)
    ensures
        r == graph_wf(map@),
{
    let mut i: usize = 0;
    while i < map.len()
        invariant
            i <= map@.len(),
            forall|a: int, b: int|
                0 <= a < i && a < b < map@.len() ==> (#[trigger] map@[a]).id != (
                #[trigger] map@[b]).id,
        decreases map@.len() - i,
    {
        let mut j: usize = i + 1;
        while j < map.len()
            invariant
                i < j,
                j <= map@.len(),
                i < map@.len(),
                forall|b: int| i < b < j ==> map@[i as int].id != (#[trigger] map@[b]).id,
            decreases map@.len() - j,
        {
            if map[i].id == map[j].id {
                assert(!ids_unique(map@));
                return false;
            }
            j += 1;
        }
        i += 1;
    }
    assert(ids_unique(map@));
    let mut i: usize = 0;
    while i < map.len()
        invariant
            i <= map@.len(),
            ids_unique(map@),
            forall|a: int, j: int|
                0 <= a < i && 0 <= j < map@[a].connections@.len() ==> contains_id(
                    map@,
                    (#[trigger] map@[a].connections@[j]).to,
                ),
        decreases map@.len() - i,
    {
        let conns_len = map[i].connections.len();
        let mut j: usize = 0;
        while j < conns_len
            invariant
                i < map@.len(),
                j <= conns_len,
                conns_len == map@[i as int].connections@.len(),
                forall|k: int|
                    0 <= k < j ==> contains_id(
                        map@,
                        (#[trigger] map@[i as int].connections@[k]).to,
                    ),
            decreases conns_len - j,
        {
            if !contains(map, map[i].connections[j].to) {
                assert(!closed_graph(map@));
                return false;
            }
            j += 1;
        }
        i += 1;
    }
    assert(closed_graph(map@));
    true
}

} // verus!
