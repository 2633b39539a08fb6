//! Reference index for tracking code relationships.

use vstd::prelude::*;

use crate::tables::{depths, id_lists, rel_lists, DepthMap, IdListMap, RelListMap};
use crate::types::{Relationship, SymbolId};

verus! {

/// The targets, in order, of the edges from `id` (only the call edges, with `calls_only`).
pub open spec fn targets_of(
    edges: Seq<(u64, u64, Relationship)>,
    id: u64,
    calls_only: bool,
) -> Seq<SymbolId>
    decreases edges.len(),
{
    if edges.len() == 0 {
        seq![]
    } else {
        let e = edges.last();
        let rest = targets_of(edges.drop_last(), id, calls_only);
        if e.0 == id && (!calls_only || e.2 == Relationship::Calls) {
            rest.push(SymbolId(e.1))
        } else {
            rest
        }
    }
}

/// The sources, in order, of the edges into `id` (only the call edges, with `calls_only`).
pub open spec fn sources_of(
    edges: Seq<(u64, u64, Relationship)>,
    id: u64,
    calls_only: bool,
) -> Seq<SymbolId>
    decreases edges.len(),
{
    if edges.len() == 0 {
        seq![]
    } else {
        let e = edges.last();
        let rest = sources_of(edges.drop_last(), id, calls_only);
        if e.1 == id && (!calls_only || e.2 == Relationship::Calls) {
            rest.push(SymbolId(e.0))
        } else {
            rest
        }
    }
}

/// The (target, relationship) pairs, in order, of the edges from `id`.
pub open spec fn outgoing_of(edges: Seq<(u64, u64, Relationship)>, id: u64) -> Seq<
    (SymbolId, Relationship),
>
    decreases edges.len(),
{
    if edges.len() == 0 {
        seq![]
    } else {
        let e = edges.last();
        let rest = outgoing_of(edges.drop_last(), id);
        if e.0 == id {
            rest.push((SymbolId(e.1), e.2))
        } else {
            rest
        }
    }
}

/// The (source, relationship) pairs, in order, of the edges into `id`.
pub open spec fn incoming_of(edges: Seq<(u64, u64, Relationship)>, id: u64) -> Seq<
    (SymbolId, Relationship),
>
    decreases edges.len(),
{
    if edges.len() == 0 {
        seq![]
    } else {
        let e = edges.last();
        let rest = incoming_of(edges.drop_last(), id);
        if e.1 == id {
            rest.push((SymbolId(e.0), e.2))
        } else {
            rest
        }
    }
}

/// A list stored under `id`, where a missing entry reads as the empty list.
pub open spec fn list_or_empty<V>(m: Map<u64, Seq<V>>, id: u64) -> Seq<V> {
    if m.dom().contains(id) {
        m[id]
    } else {
        seq![]
    }
}

/// Reference index tracking symbol relationships.
pub struct ReferenceIndex {
    /// References from a symbol: id -> [(target, relationship)].
    outgoing: RelListMap,
    /// References to a symbol: id -> [(source, relationship)].
    incoming: RelListMap,
    /// Call graph: function -> functions it calls.
    call_graph: IdListMap,
    /// Reverse call graph: function -> functions that call it.
    callers: IdListMap,
    /// Every reference added, in order: (from, to, relationship).
    edges: Ghost<Seq<(u64, u64, Relationship)>>,
}

impl ReferenceIndex {
    /// The references added so far, in order.
    pub closed spec fn edges(&self) -> Seq<(u64, u64, Relationship)> {
        self.edges@
    }

    /// Each table holds what the edges give, and an entry only where that is not empty.
    pub closed spec fn wf(&self) -> bool {
        let e = self.edges@;
        &&& forall|id: u64| #[trigger]
            list_or_empty(rel_lists(self.outgoing), id) == outgoing_of(e, id)
        &&& forall|id: u64| #[trigger]
            list_or_empty(rel_lists(self.incoming), id) == incoming_of(e, id)
        &&& forall|id: u64| #[trigger]
            list_or_empty(id_lists(self.call_graph), id) == targets_of(e, id, true)
        &&& forall|id: u64| #[trigger]
            list_or_empty(id_lists(self.callers), id) == sources_of(e, id, true)
    }

    pub fn new() -> (r: Self)
        ensures
            r.wf(),
            r.edges() == Seq::<(u64, u64, Relationship)>::empty(),
    {
        let r = ReferenceIndex {
            outgoing: RelListMap::new(),
            incoming: RelListMap::new(),
            call_graph: IdListMap::new(),
            callers: IdListMap::new(),
            edges: Ghost(Seq::empty()),
        };
        r
    }

    /// Add a reference from one symbol to another.
    pub fn add_reference(&mut self, from: SymbolId, to: SymbolId, rel: Relationship)
        requires
            old(self).wf(),
        ensures
            final(self).wf(),
            final(self).edges() == old(self).edges().push((from.0, to.0, rel)),
    {
        let ghost e0 = self.edges@;
        let ghost e1 = e0.push((from.0, to.0, rel));
        proof {
            assert(e1.drop_last() =~= e0);
        }
        push_rel(&mut self.outgoing, from.0, (to, rel));
        push_rel(&mut self.incoming, to.0, (from, rel));
        if rel == Relationship::Calls {
            push_id(&mut self.call_graph, from.0, to);
            push_id(&mut self.callers, to.0, from);
        }
        self.edges = Ghost(e1);
        proof {
            assert forall|id: u64| #[trigger]
                list_or_empty(rel_lists(self.outgoing), id) == outgoing_of(e1, id) by {
                assert(list_or_empty(rel_lists(old(self).outgoing), id) == outgoing_of(e0, id));
            }
            assert forall|id: u64| #[trigger]
                list_or_empty(rel_lists(self.incoming), id) == incoming_of(e1, id) by {
                assert(list_or_empty(rel_lists(old(self).incoming), id) == incoming_of(e0, id));
            }
            assert forall|id: u64| #[trigger]
                list_or_empty(id_lists(self.call_graph), id) == targets_of(e1, id, true) by {
                assert(list_or_empty(id_lists(old(self).call_graph), id) == targets_of(
                    e0,
                    id,
                    true,
                ));
            }
            assert forall|id: u64| #[trigger]
                list_or_empty(id_lists(self.callers), id) == sources_of(e1, id, true) by {
                assert(list_or_empty(id_lists(old(self).callers), id) == sources_of(e0, id, true));
            }
        }
    }

    /// Get symbols called by this symbol, in the order the calls were added.
    pub fn get_callees(&self, id: SymbolId) -> (r: &[SymbolId])
        requires
            self.wf(),
        ensures
            r@ == targets_of(self.edges(), id.0, true),
    {
        proof {
            assert(list_or_empty(id_lists(self.call_graph), id.0) == targets_of(self.edges(), id.0, true));
        }
        match self.call_graph.get(id.0) {
            Some(v) => v.as_slice(),
            None => {
                let e: &[_] = &[];
                assert(e@ =~= Seq::empty());
                e
            },
        }
    }

    /// Get symbols that call this symbol, in the order the calls were added.
    pub fn get_callers(&self, id: SymbolId) -> (r: &[SymbolId])
        requires
            self.wf(),
        ensures
            r@ == sources_of(self.edges(), id.0, true),
    {
        proof {
            assert(list_or_empty(id_lists(self.callers), id.0) == sources_of(self.edges(), id.0, true));
        }
        match self.callers.get(id.0) {
            Some(v) => v.as_slice(),
            None => {
                let e: &[_] = &[];
                assert(e@ =~= Seq::empty());
                e
            },
        }
    }

    /// Get all outgoing references.
    pub fn get_outgoing(&self, id: SymbolId) -> (r: &[(SymbolId, Relationship)])
        requires
            self.wf(),
        ensures
            r@ == outgoing_of(self.edges(), id.0),
    {
        proof {
            assert(list_or_empty(rel_lists(self.outgoing), id.0) == outgoing_of(self.edges(), id.0));
        }
        match self.outgoing.get(id.0) {
            Some(v) => v.as_slice(),
            None => {
                let e: &[_] = &[];
                assert(e@ =~= Seq::empty());
                e
            },
        }
    }

    /// Get all incoming references.
    pub fn get_incoming(&self, id: SymbolId) -> (r: &[(SymbolId, Relationship)])
        requires
            self.wf(),
        ensures
            r@ == incoming_of(self.edges(), id.0),
    {
        proof {
            assert(list_or_empty(rel_lists(self.incoming), id.0) == incoming_of(self.edges(), id.0));
        }
        match self.incoming.get(id.0) {
            Some(v) => v.as_slice(),
            None => {
                let e: &[_] = &[];
                assert(e@ =~= Seq::empty());
                e
            },
        }
    }
}

/// Appends `x` to the list stored under `k` (creating it when absent).
pub(crate) fn push_id(m: &mut IdListMap, k: u64, x: SymbolId)
    ensures
        id_lists(*final(m)) == id_lists(*old(m)).insert(
            k,
            list_or_empty(id_lists(*old(m)), k).push(x),
        ),
{
    let mut list = match m.remove(k) {
        Some(v) => v,
        None => Vec::new(),
    };
    list.push(x);
    m.insert(k, list);
    proof {
        assert(id_lists(*final(m)) =~= id_lists(*old(m)).insert(
            k,
            list_or_empty(id_lists(*old(m)), k).push(x),
        ));
    }
}

/// Appends `x` to the list stored under `k` (creating it when absent).
pub(crate) fn push_rel(m: &mut RelListMap, k: u64, x: (SymbolId, Relationship))
    ensures
        rel_lists(*final(m)) == rel_lists(*old(m)).insert(
            k,
            list_or_empty(rel_lists(*old(m)), k).push(x),
        ),
{
    let mut list = match m.remove(k) {
        Some(v) => v,
        None => Vec::new(),
    };
    list.push(x);
    m.insert(k, list);
    proof {
        assert(rel_lists(*final(m)) =~= rel_lists(*old(m)).insert(
            k,
            list_or_empty(rel_lists(*old(m)), k).push(x),
        ));
    }
}

/// One step of traversal: `n` calls `m` (going up to callers) or `m` calls `n` (going down).
pub open spec fn call_step(edges: Seq<(u64, u64, Relationship)>, up: bool, m: u64, n: u64) -> bool {
    if up {
        sources_of(edges, m, true).contains(SymbolId(n))
    } else {
        targets_of(edges, m, true).contains(SymbolId(n))
    }
}

/// `path` walks the call relation: each element is one step from the one before.
pub open spec fn is_call_path(edges: Seq<(u64, u64, Relationship)>, up: bool, path: Seq<u64>) -> bool {
    forall|k: int| 0 <= k < path.len() - 1 ==> call_step(edges, up, #[trigger] path[k], path[k + 1])
}

/// `to` is reached from `from` by exactly `d` steps of the call relation.
pub open spec fn reaches(
    edges: Seq<(u64, u64, Relationship)>,
    up: bool,
    from: u64,
    to: u64,
    d: nat,
) -> bool {
    exists|path: Seq<u64>|
        #![trigger is_call_path(edges, up, path)]
        path.len() == d + 1 && path[0] == from && path[d as int] == to && is_call_path(
            edges,
            up,
            path,
        )
}

proof fn lemma_reaches_start(edges: Seq<(u64, u64, Relationship)>, up: bool, from: u64)
    ensures
        reaches(edges, up, from, from, 0),
{
    let path = seq![from];
    assert(is_call_path(edges, up, path));
}

proof fn lemma_reaches_step(
    edges: Seq<(u64, u64, Relationship)>,
    up: bool,
    from: u64,
    m: u64,
    to: u64,
    d: nat,
)
    requires
        reaches(edges, up, from, m, d),
        call_step(edges, up, m, to),
    ensures
        reaches(edges, up, from, to, d + 1),
{
    let path = choose|path: Seq<u64>|
        #![trigger is_call_path(edges, up, path)]
        path.len() == d + 1 && path[0] == from && path[d as int] == m && is_call_path(
            edges,
            up,
            path,
        );
    let p2 = path.push(to);
    assert forall|k: int| 0 <= k < p2.len() - 1 implies call_step(
        edges,
        up,
        #[trigger] p2[k],
        p2[k + 1],
    ) by {
        if k < d {
            assert(p2[k] == path[k] && p2[k + 1] == path[k + 1]);
        }
    }
    assert(is_call_path(edges, up, p2));
}

/// Every result names a symbol reached from `root` in as many steps as its depth, within
/// the depth limit.
pub open spec fn sound_results(
    edges: Seq<(u64, u64, Relationship)>,
    up: bool,
    root: u64,
    max_depth: int,
    results: Seq<(SymbolId, usize)>,
) -> bool {
    forall|i: int|
        0 <= i < results.len() ==> {
            let (n, d) = #[trigger] results[i];
            &&& 1 <= d <= max_depth
            &&& reaches(edges, up, root, n.0, d as nat)
        }
}

/// The symbols one step away: callers going up, callees going down.
pub open spec fn neighbors(edges: Seq<(u64, u64, Relationship)>, up: bool, id: u64) -> Seq<SymbolId> {
    if up {
        sources_of(edges, id, true)
    } else {
        targets_of(edges, id, true)
    }
}

/// The traversal's state: the depth each symbol was last recorded at, and the results.
pub struct WalkDepths {
    pub visited: Map<u64, usize>,
    pub results: Seq<(SymbolId, usize)>,
}

/// Depth-first traversal from `id`, found at `depth`: each neighbour not yet seen at a
/// smaller depth is recorded one level deeper and traversed in turn, up to `max` levels.
pub open spec fn dfs_node(
    edges: Seq<(u64, u64, Relationship)>,
    up: bool,
    id: u64,
    depth: nat,
    max: nat,
    st: WalkDepths,
) -> WalkDepths
    decreases max - depth, 1nat, 0nat,
{
    if depth >= max {
        st
    } else {
        dfs_list(edges, up, neighbors(edges, up, id), 0, depth, max, st)
    }
}

/// The traversal over the neighbours `ns[i..]` of a symbol found at `depth`.
pub open spec fn dfs_list(
    edges: Seq<(u64, u64, Relationship)>,
    up: bool,
    ns: Seq<SymbolId>,
    i: nat,
    depth: nat,
    max: nat,
    st: WalkDepths,
) -> WalkDepths
    decreases max - depth, 0nat, ns.len() - i,
{
    if i >= ns.len() || depth >= max {
        st
    } else {
        let n = ns[i as int].0;
        let prev: int = if st.visited.dom().contains(n) {
            st.visited[n] as int
        } else {
            usize::MAX as int
        };
        let next = if depth + 1 < prev {
            dfs_node(
                edges,
                up,
                n,
                depth + 1,
                max,
                WalkDepths {
                    visited: st.visited.insert(n, (depth + 1) as usize),
                    results: st.results.push((SymbolId(n), (depth + 1) as usize)),
                },
            )
        } else {
            st
        };
        dfs_list(edges, up, ns, i + 1, depth, max, next)
    }
}

/// What a traversal from `id` gives: its results, starting from nothing seen.
pub open spec fn traversal(edges: Seq<(u64, u64, Relationship)>, up: bool, id: u64, max: nat) -> Seq<(SymbolId, usize)> {
    dfs_node(edges, up, id, 0, max, WalkDepths { visited: Map::empty(), results: seq![] }).results
}

impl ReferenceIndex {
    fn traverse_inner(
        &self,
        up: bool,
        root: Ghost<u64>,
        id: SymbolId,
        depth: usize,
        max_depth: usize,
        results: &mut Vec<(SymbolId, usize)>,
        visited: &mut DepthMap,
    )
        requires
            self.wf(),
            depth <= max_depth,
            reaches(self.edges(), up, root@, id.0, depth as nat),
            sound_results(self.edges(), up, root@, max_depth as int, old(results)@),
        ensures
            sound_results(self.edges(), up, root@, max_depth as int, final(results)@),
            old(results)@.len() <= final(results)@.len(),
            forall|i: int| 0 <= i < old(results)@.len() ==> final(results)@[i] == old(results)@[i],
            depth >= max_depth ==> final(results)@ == old(results)@,
            (WalkDepths { visited: depths(*final(visited)), results: final(results)@ }) == dfs_node(
                self.edges(),
                up,
                id.0,
                depth as nat,
                max_depth as nat,
                WalkDepths { visited: depths(*old(visited)), results: old(results)@ },
            ),
        decreases max_depth - depth,
    {
        if depth >= max_depth {
            return;
        }
        let next: &[SymbolId] = if up {
            self.get_callers(id)
        } else {
            self.get_callees(id)
        };
        let mut i: usize = 0;
        while i < next.len()
            invariant
                self.wf(),
                depth < max_depth,
                i <= next@.len(),
                next@ == (if up {
                    sources_of(self.edges(), id.0, true)
                } else {
                    targets_of(self.edges(), id.0, true)
                }),
                reaches(self.edges(), up, root@, id.0, depth as nat),
                sound_results(self.edges(), up, root@, max_depth as int, results@),
                old(results)@.len() <= results@.len(),
                forall|k: int| 0 <= k < old(results)@.len() ==> results@[k] == old(results)@[k],
                dfs_list(self.edges(), up, next@, 0, depth as nat, max_depth as nat, WalkDepths { visited: depths(*old(visited)), results: old(results)@ })
                    == dfs_list(self.edges(), up, next@, i as nat, depth as nat, max_depth as nat, WalkDepths { visited: depths(*visited), results: results@ }),
            decreases next@.len() - i,
        {
            let n = next[i].0;
            let ghost cur = WalkDepths { visited: depths(*visited), results: results@ };
            let prev = match visited.get(n) {
                Some(d) => *d,
                None => usize::MAX,
            };
            if depth + 1 < prev {
                proof {
                    assert(call_step(self.edges(), up, id.0, n));
                    lemma_reaches_step(self.edges(), up, root@, id.0, n, depth as nat);
                }
                visited.insert(n, depth + 1);
                results.push((SymbolId(n), depth + 1));
                proof {
                    assert(depths(*visited) == cur.visited.insert(n, (depth + 1) as usize));
                }
                self.traverse_inner(up, root, SymbolId(n), depth + 1, max_depth, results, visited);
            }
            proof {
                assert(dfs_list(self.edges(), up, next@, i as nat, depth as nat, max_depth as nat, cur)
                    == dfs_list(self.edges(), up, next@, (i + 1) as nat, depth as nat, max_depth as nat, WalkDepths { visited: depths(*visited), results: results@ }));
            }
            i += 1;
        }
        proof {
            assert(next@ == neighbors(self.edges(), up, id.0));
        }
    }

    /// Callers of `id` up to `max_depth` steps away, each with its depth, in depth-first
    /// order; a symbol appears again when it is found on a shorter chain.
    pub fn traverse_callers(&self, id: SymbolId, max_depth: usize) -> (r: Vec<(SymbolId, usize)>)
        requires
            self.wf(),
        ensures
            sound_results(self.edges(), true, id.0, max_depth as int, r@),
            max_depth == 0 ==> r@.len() == 0,
            r@ == traversal(self.edges(), true, id.0, max_depth as nat),
    {
        let mut results: Vec<(SymbolId, usize)> = Vec::new();
        let mut visited = DepthMap::new();
        proof {
            assert(depths(visited) =~= Map::<u64, usize>::empty());
            assert(results@ =~= Seq::<(SymbolId, usize)>::empty());
        }
        proof {
            lemma_reaches_start(self.edges(), true, id.0);
            lemma_reaches_start(self.edges(), false, id.0);
        }
        self.traverse_inner(true, Ghost(id.0), id, 0, max_depth, &mut results, &mut visited);
        results
    }

    /// Callees of `id` up to `max_depth` steps away, each with its depth, in depth-first
    /// order; a symbol appears again when it is found on a shorter chain.
    pub fn traverse_callees(&self, id: SymbolId, max_depth: usize) -> (r: Vec<(SymbolId, usize)>)
        requires
            self.wf(),
        ensures
            sound_results(self.edges(), false, id.0, max_depth as int, r@),
            max_depth == 0 ==> r@.len() == 0,
            r@ == traversal(self.edges(), false, id.0, max_depth as nat),
    {
        let mut results: Vec<(SymbolId, usize)> = Vec::new();
        let mut visited = DepthMap::new();
        proof {
            assert(depths(visited) =~= Map::<u64, usize>::empty());
            assert(results@ =~= Seq::<(SymbolId, usize)>::empty());
        }
        proof {
            lemma_reaches_start(self.edges(), true, id.0);
            lemma_reaches_start(self.edges(), false, id.0);
        }
        self.traverse_inner(false, Ghost(id.0), id, 0, max_depth, &mut results, &mut visited);
        results
    }
}


// ---------------------------------------------------------------------------
// Laws.

impl Default for ReferenceIndex {
    fn default() -> (r: Self)
        ensures
            r.wf(),
            r.edges() == Seq::<(u64, u64, Relationship)>::empty(),
    {
        ReferenceIndex::new()
    }
}

/// A call edge from `from` to `to` makes `from` the last caller of `to` and `to` the last
/// callee of `from`.
pub proof fn call_edge_is_seen_both_ways(e: Seq<(u64, u64, Relationship)>, from: SymbolId, to: SymbolId)
    ensures
        sources_of(e.push((from.0, to.0, Relationship::Calls)), to.0, true) == sources_of(e, to.0, true).push(from),
        targets_of(e.push((from.0, to.0, Relationship::Calls)), from.0, true) == targets_of(e, from.0, true).push(to),
{
    assert(e.push((from.0, to.0, Relationship::Calls)).drop_last() =~= e);
}

/// `b` records every symbol of `a` at a depth no greater.
pub open spec fn no_deeper(a: Map<u64, usize>, b: Map<u64, usize>) -> bool {
    forall|k: u64| #[trigger] a.dom().contains(k) ==> b.dom().contains(k) && b[k] <= a[k]
}

/// `w` was recorded anew, or at a smaller depth, between `a` and `b`.
pub open spec fn lowered(a: Map<u64, usize>, b: Map<u64, usize>, w: u64) -> bool {
    b.dom().contains(w) && (!a.dom().contains(w) || b[w] < a[w])
}

/// The neighbours of `w` are recorded at most one level below `w`, when `w` lies within
/// the depth limit and one level below it is still a depth below `usize::MAX`.
pub open spec fn closed_at(edges: Seq<(u64, u64, Relationship)>, up: bool, max: nat, v: Map<u64, usize>, w: u64) -> bool {
    v.dom().contains(w) && v[w] < max && v[w] + 1 < usize::MAX ==> forall|k: int|
        0 <= k < neighbors(edges, up, w).len() ==> v.dom().contains(#[trigger] neighbors(edges, up, w)[k].0)
            && v[neighbors(edges, up, w)[k].0] <= v[w] + 1
}

/// Every recorded symbol is among the results at its recorded depth.
pub open spec fn recorded(st: WalkDepths) -> bool {
    forall|w: u64| #[trigger] st.visited.dom().contains(w) ==> st.results.contains((SymbolId(w), st.visited[w]))
}

proof fn lemma_dfs_node(edges: Seq<(u64, u64, Relationship)>, up: bool, id: u64, depth: nat, max: nat, st: WalkDepths)
    requires
        recorded(st),
    ensures
        no_deeper(st.visited, dfs_node(edges, up, id, depth, max, st).visited),
        recorded(dfs_node(edges, up, id, depth, max, st)),
        depth < max && depth + 1 < usize::MAX ==> forall|k: int| 0 <= k < neighbors(edges, up, id).len() ==> {
            let r = dfs_node(edges, up, id, depth, max, st).visited;
            r.dom().contains(#[trigger] neighbors(edges, up, id)[k].0) && r[neighbors(edges, up, id)[k].0] <= depth + 1
        },
        forall|w: u64| #[trigger] lowered(st.visited, dfs_node(edges, up, id, depth, max, st).visited, w) ==> closed_at(
            edges,
            up,
            max,
            dfs_node(edges, up, id, depth, max, st).visited,
            w,
        ),
    decreases max - depth, 1nat, 0nat,
{
    if depth < max {
        lemma_dfs_list(edges, up, neighbors(edges, up, id), 0, depth, max, st);
    }
}

proof fn lemma_dfs_list(
    edges: Seq<(u64, u64, Relationship)>,
    up: bool,
    ns: Seq<SymbolId>,
    i: nat,
    depth: nat,
    max: nat,
    st: WalkDepths,
)
    requires
        recorded(st),
    ensures
        no_deeper(st.visited, dfs_list(edges, up, ns, i, depth, max, st).visited),
        recorded(dfs_list(edges, up, ns, i, depth, max, st)),
        depth < max && depth + 1 < usize::MAX ==> forall|k: int| i <= k < ns.len() ==> {
            let r = dfs_list(edges, up, ns, i, depth, max, st).visited;
            r.dom().contains(#[trigger] ns[k].0) && r[ns[k].0] <= depth + 1
        },
        forall|w: u64| #[trigger] lowered(st.visited, dfs_list(edges, up, ns, i, depth, max, st).visited, w) ==> closed_at(
            edges,
            up,
            max,
            dfs_list(edges, up, ns, i, depth, max, st).visited,
            w,
        ),
    decreases max - depth, 0nat, ns.len() - i,
{
    if i < ns.len() && depth < max {
        let n = ns[i as int].0;
        let prev: int = if st.visited.dom().contains(n) {
            st.visited[n] as int
        } else {
            usize::MAX as int
        };
        if depth + 1 < prev {
            let st1 = WalkDepths {
                visited: st.visited.insert(n, (depth + 1) as usize),
                results: st.results.push((SymbolId(n), (depth + 1) as usize)),
            };
            assert(recorded(st1)) by {
                assert forall|w: u64| #[trigger] st1.visited.dom().contains(w) implies st1.results.contains((SymbolId(w), st1.visited[w])) by {
                    if w == n {
                        assert(st1.results[st.results.len() as int] == (SymbolId(w), st1.visited[w]));
                    } else {
                        let j = choose|j: int| 0 <= j < st.results.len() && st.results[j] == (SymbolId(w), st.visited[w]);
                        assert(st1.results[j] == (SymbolId(w), st1.visited[w]));
                    }
                }
            }
            let child = dfs_node(edges, up, n, depth + 1, max, st1);
            lemma_dfs_node(edges, up, n, depth + 1, max, st1);
            let rest = dfs_list(edges, up, ns, i + 1, depth, max, child);
            lemma_dfs_list(edges, up, ns, i + 1, depth, max, child);
            assert(rest == dfs_list(edges, up, ns, i, depth, max, st));
            assert(no_deeper(st.visited, rest.visited)) by {
                assert forall|k: u64| #[trigger] st.visited.dom().contains(k) implies rest.visited.dom().contains(k) && rest.visited[k] <= st.visited[k] by {
                    assert(st1.visited.dom().contains(k));
                    assert(child.visited.dom().contains(k));
                }
            }
            assert(rest.visited.dom().contains(n) && rest.visited[n] <= depth + 1) by {
                assert(st1.visited.dom().contains(n));
                assert(child.visited.dom().contains(n));
            }
            assert forall|w: u64| #[trigger] lowered(st.visited, rest.visited, w) implies closed_at(edges, up, max, rest.visited, w) by {
                if !lowered(child.visited, rest.visited, w) {
                    assert(child.visited.dom().contains(w));
                    assert(rest.visited[w] == child.visited[w]);
                    if lowered(st1.visited, child.visited, w) {
                        assert(closed_at(edges, up, max, child.visited, w));
                    } else {
                        assert(w == n);
                        assert(child.visited[n] == depth + 1);
                        assert(closed_at(edges, up, max, child.visited, w));
                    }
                    assert forall|k: int| 0 <= k < neighbors(edges, up, w).len() && rest.visited[w] < max && rest.visited[w] + 1 < usize::MAX implies rest.visited.dom().contains(#[trigger] neighbors(edges, up, w)[k].0)
                        && rest.visited[neighbors(edges, up, w)[k].0] <= rest.visited[w] + 1 by {
                        assert(child.visited.dom().contains(neighbors(edges, up, w)[k].0));
                    }
                }
            }
        } else {
            if depth + 1 < usize::MAX {
                assert(st.visited.dom().contains(n));
            }
            lemma_dfs_list(edges, up, ns, i + 1, depth, max, st);
        }
    }
}

proof fn lemma_path_recorded(edges: Seq<(u64, u64, Relationship)>, up: bool, max: nat, v: Map<u64, usize>, path: Seq<u64>, k: nat)
    requires
        1 <= k < path.len(),
        path.len() <= max + 1,
        path.len() <= usize::MAX,
        is_call_path(edges, up, path),
        v.dom().contains(path[1]),
        v[path[1]] <= 1,
        forall|w: u64| #[trigger] lowered(Map::<u64, usize>::empty(), v, w) ==> closed_at(edges, up, max, v, w),
    ensures
        v.dom().contains(path[k as int]),
        v[path[k as int]] <= k,
    decreases k,
{
    if k > 1 {
        lemma_path_recorded(edges, up, max, v, path, (k - 1) as nat);
        let w = path[k - 1];
        assert(lowered(Map::<u64, usize>::empty(), v, w));
        assert(closed_at(edges, up, max, v, w));
        assert(call_step(edges, up, path[k - 1], path[k as int]));
        assert(neighbors(edges, up, w).contains(SymbolId(path[k as int])));
        let j = choose|j: int| 0 <= j < neighbors(edges, up, w).len() && neighbors(edges, up, w)[j] == SymbolId(path[k as int]);
        assert(v.dom().contains(neighbors(edges, up, w)[j].0));
    }
}

/// Bounded traversal misses nothing: every symbol reached from `root` in `d` steps, with
/// `1 <= d <= max`, is among the results at depth `d` or less. (A depth of `usize::MAX`
/// itself is never recorded: the traversal marks unseen symbols with that depth.)
pub proof fn traversal_is_complete(edges: Seq<(u64, u64, Relationship)>, up: bool, root: u64, max: nat, n: u64, d: nat)
    requires
        1 <= d <= max,
        d < usize::MAX,
        reaches(edges, up, root, n, d),
    ensures
        exists|i: int|
            0 <= i < traversal(edges, up, root, max).len() && #[trigger] traversal(edges, up, root, max)[i] == (
                SymbolId(n),
                traversal(edges, up, root, max)[i].1,
            ) && traversal(edges, up, root, max)[i].1 <= d,
{
    let st0 = WalkDepths { visited: Map::empty(), results: seq![] };
    let r = dfs_node(edges, up, root, 0, max, st0);
    lemma_dfs_node(edges, up, root, 0, max, st0);
    let path = choose|path: Seq<u64>| #![trigger is_call_path(edges, up, path)]
        path.len() == d + 1 && path[0] == root && path[d as int] == n && is_call_path(edges, up, path);
    let v = r.visited;
    assert(call_step(edges, up, path[0], path[1]));
    assert(neighbors(edges, up, root).contains(SymbolId(path[1])));
    let j0 = choose|j: int| 0 <= j < neighbors(edges, up, root).len() && neighbors(edges, up, root)[j] == SymbolId(path[1]);
    assert(v.dom().contains(neighbors(edges, up, root)[j0].0));
    lemma_path_recorded(edges, up, max, v, path, d);
    assert(r.results.contains((SymbolId(n), v[n])));
    let i = choose|i: int| 0 <= i < r.results.len() && r.results[i] == (SymbolId(n), v[n]);
    assert(traversal(edges, up, root, max)[i] == (SymbolId(n), traversal(edges, up, root, max)[i].1));
}

/// A symbol comes back in the results only at a depth below every depth it was listed at
/// before, and every listed symbol is recorded at a depth no deeper than any listing.
pub open spec fn only_shallower(st: WalkDepths) -> bool {
    &&& forall|i: int| #![trigger st.results[i]]
        0 <= i < st.results.len() ==> st.visited.dom().contains(st.results[i].0.0) && st.visited[st.results[i].0.0] <= st.results[i].1
    &&& forall|i: int, j: int| #![trigger st.results[i], st.results[j]]
        0 <= i < j < st.results.len() && st.results[i].0 == st.results[j].0 ==> st.results[j].1 < st.results[i].1
}

proof fn lemma_dfs_node_shallower(edges: Seq<(u64, u64, Relationship)>, up: bool, id: u64, depth: nat, max: nat, st: WalkDepths)
    requires
        only_shallower(st),
    ensures
        only_shallower(dfs_node(edges, up, id, depth, max, st)),
    decreases max - depth, 1nat, 0nat,
{
    if depth < max {
        lemma_dfs_list_shallower(edges, up, neighbors(edges, up, id), 0, depth, max, st);
    }
}

proof fn lemma_dfs_list_shallower(
    edges: Seq<(u64, u64, Relationship)>,
    up: bool,
    ns: Seq<SymbolId>,
    i: nat,
    depth: nat,
    max: nat,
    st: WalkDepths,
)
    requires
        only_shallower(st),
    ensures
        only_shallower(dfs_list(edges, up, ns, i, depth, max, st)),
    decreases max - depth, 0nat, ns.len() - i,
{
    if i < ns.len() && depth < max {
        let n = ns[i as int].0;
        let prev: int = if st.visited.dom().contains(n) {
            st.visited[n] as int
        } else {
            usize::MAX as int
        };
        if depth + 1 < prev {
            let st1 = WalkDepths {
                visited: st.visited.insert(n, (depth + 1) as usize),
                results: st.results.push((SymbolId(n), (depth + 1) as usize)),
            };
            assert(only_shallower(st1)) by {
                assert forall|a: int| #![trigger st1.results[a]] 0 <= a < st1.results.len() implies st1.visited.dom().contains(st1.results[a].0.0)
                    && st1.visited[st1.results[a].0.0] <= st1.results[a].1 by {
                    if a < st.results.len() {
                        assert(st1.results[a] == st.results[a]);
                    }
                }
                assert forall|a: int, b: int| #![trigger st1.results[a], st1.results[b]]
                    0 <= a < b < st1.results.len() && st1.results[a].0 == st1.results[b].0 implies st1.results[b].1 < st1.results[a].1 by {
                    assert(st1.results[a] == st.results[a]);
                    if b < st.results.len() {
                        assert(st1.results[b] == st.results[b]);
                    } else {
                        assert(st.visited.dom().contains(st.results[a].0.0));
                    }
                }
            }
            let child = dfs_node(edges, up, n, depth + 1, max, st1);
            lemma_dfs_node_shallower(edges, up, n, depth + 1, max, st1);
            lemma_dfs_list_shallower(edges, up, ns, i + 1, depth, max, child);
        } else {
            lemma_dfs_list_shallower(edges, up, ns, i + 1, depth, max, st);
        }
    }
}

/// A traversal reports a symbol again only at a strictly smaller depth than every depth it
/// was reported at before; in particular no (symbol, depth) pair is reported twice.
pub proof fn traversal_reports_only_shallower(edges: Seq<(u64, u64, Relationship)>, up: bool, root: u64, max: nat)
    ensures
        forall|i: int, j: int|
            0 <= i < j < traversal(edges, up, root, max).len() && (#[trigger] traversal(edges, up, root, max)[i]).0
                == (#[trigger] traversal(edges, up, root, max)[j]).0 ==> traversal(edges, up, root, max)[j].1
                < traversal(edges, up, root, max)[i].1,
{
    let st0 = WalkDepths { visited: Map::empty(), results: seq![] };
    lemma_dfs_node_shallower(edges, up, root, 0, max, st0);
    let r = traversal(edges, up, root, max);
    assert forall|i: int, j: int| 0 <= i < j < r.len() && (#[trigger] r[i]).0 == (#[trigger] r[j]).0 implies r[j].1 < r[i].1 by {
        let st = dfs_node(edges, up, root, 0, max, st0);
        assert(st.results[i] == r[i] && st.results[j] == r[j]);
    }
}

} // verus!
