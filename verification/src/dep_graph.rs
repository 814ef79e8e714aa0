//! Building the graph: every "needs" relation of the tree becomes an edge
//! from the needed library to the one that needs it.

use petgraph::graphmap::DiGraphMap;
use vstd::prelude::*;
use vstd::string::*;

use crate::graph::{
    cycle_node_id, edges_within, graph_add_edge, graph_add_node, graph_contains_node,
    graph_edge_list, graph_edges, graph_new, graph_node_list, graph_nodes, graph_toposort,
    is_topological_order, is_walk, on_cycle, with_edge, with_node,
};
use crate::id_gen::{intern, resolve, IdGen};
use crate::order::{
    ascending, insert_sorted, keys_of, lemma_name_lt_irreflexive, name_lt, names_ascending,
    pair_lt, Name, NamePair,
};
use crate::plan::{CycleError, Edge};
use crate::tree::{names, DependencyTree, Library, LibraryMap, LibraryView};

verus! {

/// The names of the nodes `nodes`, as `table` resolves them.
spec fn named_nodes(nodes: Seq<u32>, table: Seq<Name>) -> Set<Name> {
    Set::new(
        |n: Name|
            exists|i: int|
                0 <= i < nodes.len() && resolve(table, #[trigger] nodes[i] as int) == Some(n),
    )
}

/// The edges `edges` by the names of their ends, as `table` resolves them.
spec fn named_edges(edges: Seq<(u32, u32)>, table: Seq<Name>) -> Set<NamePair> {
    Set::new(
        |e: NamePair|
            exists|i: int|
                0 <= i < edges.len() && resolve(table, (#[trigger] edges[i]).0 as int) == Some(e.0)
                    && resolve(table, edges[i].1 as int) == Some(e.1),
    )
}

/// A table without repetitions that holds only names of `universe` has room
/// for every name of `universe`.
proof fn lemma_room_for(table: Seq<Name>, universe: Set<Name>, name: Name)
    requires
        table.no_duplicates(),
        table.to_set().subset_of(universe),
        universe.finite(),
        universe.len() <= u32::MAX,
        universe.contains(name),
    ensures
        table.contains(name) || table.len() < u32::MAX,
{
    if !table.contains(name) {
        table.unique_seq_to_set();
        vstd::set_lib::lemma_len_subset(table.to_set(), universe.remove(name));
    }
}

/// The nodes that the first `k` direct needs of `main` bring.
spec fn direct_nodes(main: Name, needed: Seq<Name>, k: int) -> Set<Name> {
    Set::new(
        |n: Name| (n == main && k > 0) || exists|j: int| 0 <= j < k && #[trigger] needed[j] == n,
    )
}

/// The edges that the first `k` direct needs of `main` bring.
spec fn direct_edges(main: Name, needed: Seq<Name>, k: int) -> Set<NamePair> {
    Set::new(|e: NamePair| e.1 == main && exists|j: int| 0 <= j < k && #[trigger] needed[j] == e.0)
}

/// The nodes that `lib` brings with the first `m` of its needs, where only
/// a need with a name of `keys` counts.
spec fn library_nodes(lib: LibraryView, keys: Set<Name>, m: int) -> Set<Name> {
    Set::new(
        |n: Name|
            n == lib.name || (keys.contains(n) && exists|j: int|
                0 <= j < m && #[trigger] lib.needed[j] == n),
    )
}

/// The edges that `lib` brings with the first `m` of its needs, where only
/// a need with a name of `keys` counts.
spec fn library_edges(lib: LibraryView, keys: Set<Name>, m: int) -> Set<NamePair> {
    Set::new(
        |e: NamePair|
            e.1 == lib.name && keys.contains(e.0) && exists|j: int|
                0 <= j < m && #[trigger] lib.needed[j] == e.0,
    )
}

/// The nodes that the first `k` libraries of `libs` bring.
spec fn libraries_nodes(libs: Seq<LibraryView>, keys: Set<Name>, k: int) -> Set<Name> {
    Set::new(
        |n: Name|
            exists|i: int|
                0 <= i < k && #[trigger] library_nodes(
                    libs[i],
                    keys,
                    libs[i].needed.len() as int,
                ).contains(n),
    )
}

/// The edges that the first `k` libraries of `libs` bring.
spec fn libraries_edges(libs: Seq<LibraryView>, keys: Set<Name>, k: int) -> Set<NamePair> {
    Set::new(
        |e: NamePair|
            exists|i: int|
                0 <= i < k && #[trigger] library_edges(
                    libs[i],
                    keys,
                    libs[i].needed.len() as int,
                ).contains(e),
    )
}

/// What the first `i + 1` libraries bring is what the first `i` bring and
/// what the next one brings.
proof fn lemma_one_more_library(libs: Seq<LibraryView>, keys: Set<Name>, i: int)
    requires
        0 <= i < libs.len(),
    ensures
        libraries_nodes(libs, keys, i + 1) == libraries_nodes(libs, keys, i).union(
            library_nodes(libs[i], keys, libs[i].needed.len() as int),
        ),
        libraries_edges(libs, keys, i + 1) == libraries_edges(libs, keys, i).union(
            library_edges(libs[i], keys, libs[i].needed.len() as int),
        ),
{
    let nodes = library_nodes(libs[i], keys, libs[i].needed.len() as int);
    let edges = library_edges(libs[i], keys, libs[i].needed.len() as int);
    assert(libraries_nodes(libs, keys, i + 1) =~= libraries_nodes(libs, keys, i).union(nodes));
    assert(libraries_edges(libs, keys, i + 1) =~= libraries_edges(libs, keys, i).union(edges));
}

/// What the direct needs and all the libraries of a tree bring is the graph
/// of the tree.
proof fn lemma_all_libraries(main: Name, deps: &DependencyTree)
    requires
        deps.libraries.wf(),
    ensures
        deps.node_names(main) == direct_nodes(
            main,
            names(deps.needed@),
            deps.needed@.len() as int,
        ).union(
            libraries_nodes(
                deps.libraries.stored(),
                deps.libraries@.dom(),
                deps.libraries.stored().len() as int,
            ),
        ),
        deps.edge_names(main) == direct_edges(
            main,
            names(deps.needed@),
            deps.needed@.len() as int,
        ).union(
            libraries_edges(
                deps.libraries.stored(),
                deps.libraries@.dom(),
                deps.libraries.stored().len() as int,
            ),
        ),
{
    let needed = names(deps.needed@);
    let libs = deps.libraries.stored();
    let keys = deps.libraries@.dom();
    let n = libs.len() as int;
    let nodes = direct_nodes(main, needed, needed.len() as int).union(
        libraries_nodes(libs, keys, n),
    );
    let edges = direct_edges(main, needed, needed.len() as int).union(
        libraries_edges(libs, keys, n),
    );
    assert forall|x: Name| deps.node_names(main).contains(x) implies nodes.contains(x) by {
        if deps.libraries@.contains_key(x) {
            deps.libraries.lemma_key(x);
            let p = deps.libraries.position(x);
            assert(library_nodes(libs[p], keys, libs[p].needed.len() as int).contains(x));
        }
    }
    assert forall|x: Name| nodes.contains(x) implies deps.node_names(main).contains(x) by {
        if libraries_nodes(libs, keys, n).contains(x) {
            let p = choose|p: int|
                0 <= p < n && #[trigger] library_nodes(
                    libs[p],
                    keys,
                    libs[p].needed.len() as int,
                ).contains(x);
            deps.libraries.lemma_entry(p);
        }
    }
    assert forall|e: NamePair| deps.edge_names(main).contains(e) implies edges.contains(e) by {
        if !(needed.contains(e.0) && e.1 == main) {
            deps.libraries.lemma_key(e.1);
            let p = deps.libraries.position(e.1);
            assert(library_edges(libs[p], keys, libs[p].needed.len() as int).contains(e));
        }
    }
    assert forall|e: NamePair| edges.contains(e) implies deps.edge_names(main).contains(e) by {
        if libraries_edges(libs, keys, n).contains(e) {
            let p = choose|p: int|
                0 <= p < n && #[trigger] library_edges(
                    libs[p],
                    keys,
                    libs[p].needed.len() as int,
                ).contains(e);
            deps.libraries.lemma_entry(p);
        }
    }
    assert(deps.node_names(main) =~= nodes);
    assert(deps.edge_names(main) =~= edges);
}

/// What `with_node` holds, and the names that go with it.
proof fn lemma_with_node(nodes: Seq<u32>, n: u32, table: Seq<Name>)
    requires
        n < table.len(),
    ensures
        forall|x: u32| #[trigger] with_node(nodes, n).contains(x) <==> nodes.contains(x) || x == n,
        nodes.no_duplicates() ==> with_node(nodes, n).no_duplicates(),
        named_nodes(with_node(nodes, n), table) == named_nodes(nodes, table).insert(
            table[n as int],
        ),
{
    let more = with_node(nodes, n);
    assert forall|x: u32| #[trigger] more.contains(x) <==> nodes.contains(x) || x == n by {
        if nodes.contains(x) {
            let i = nodes.index_of(x);
            assert(more[i] == x);
        }
        if x == n && !nodes.contains(n) {
            assert(more[nodes.len() as int] == n);
        }
    }
    assert forall|name: Name| named_nodes(more, table).contains(name) <==> named_nodes(
        nodes,
        table,
    ).insert(table[n as int]).contains(name) by {
        if named_nodes(nodes, table).contains(name) {
            let i = choose|i: int|
                0 <= i < nodes.len() && resolve(table, #[trigger] nodes[i] as int) == Some(name);
            assert(more[i] == nodes[i]);
        }
        if name == table[n as int] {
            assert(more.contains(n));
        }
    }
}

/// What `with_edge` holds, and the names that go with it.
proof fn lemma_with_edge(edges: Seq<(u32, u32)>, e: (u32, u32), table: Seq<Name>)
    requires
        e.0 < table.len(),
        e.1 < table.len(),
    ensures
        forall|x: (u32, u32)| #[trigger]
            with_edge(edges, e).contains(x) <==> edges.contains(x) || x == e,
        named_edges(with_edge(edges, e), table) == named_edges(edges, table).insert(
            (table[e.0 as int], table[e.1 as int]),
        ),
{
    let more = with_edge(edges, e);
    let named = (table[e.0 as int], table[e.1 as int]);
    assert forall|x: (u32, u32)| #[trigger] more.contains(x) <==> edges.contains(x) || x == e by {
        if edges.contains(x) {
            let i = edges.index_of(x);
            assert(more[i] == x);
        }
        if x == e && !edges.contains(e) {
            assert(more[edges.len() as int] == e);
        }
    }
    assert forall|p: NamePair| named_edges(more, table).contains(p) <==> named_edges(
        edges,
        table,
    ).insert(named).contains(p) by {
        if named_edges(edges, table).contains(p) {
            let i = choose|i: int|
                0 <= i < edges.len() && resolve(table, (#[trigger] edges[i]).0 as int) == Some(p.0)
                    && resolve(table, edges[i].1 as int) == Some(p.1);
            assert(more[i] == edges[i]);
        }
        if p == named {
            assert(more.contains(e));
        }
    }
}

/// The graph of one analysis: its nodes are identifiers, and the interner
/// that gave them out says which library each one stands for.
pub struct DependencyGraph {
    /// The nodes and edges, by identifier.
    graph: DiGraphMap<u32, ()>,
    /// The names of the identifiers.
    ids: IdGen,
}

impl DependencyGraph {
    /// The interner is sound, no node is listed twice, every node has a
    /// name, and every edge joins two nodes.
    pub closed spec fn wf(&self) -> bool {
        &&& self.ids.wf()
        &&& graph_nodes(self.graph).no_duplicates()
        &&& forall|n: u32| #[trigger] graph_nodes(self.graph).contains(n) ==> n < self.ids@.len()
        &&& forall|e: (u32, u32)| #[trigger]
            graph_edges(self.graph).contains(e) ==> graph_nodes(self.graph).contains(e.0)
                && graph_nodes(self.graph).contains(e.1)
    }

    /// The interned names, each at its identifier.
    pub closed spec fn table(&self) -> Seq<Name> {
        self.ids@
    }

    /// The names of the nodes.
    pub closed spec fn node_names(&self) -> Set<Name> {
        named_nodes(graph_nodes(self.graph), self.ids@)
    }

    /// The edges, by the names of their ends.
    pub closed spec fn edge_names(&self) -> Set<NamePair> {
        named_edges(graph_edges(self.graph), self.ids@)
    }

    /// A graph without nodes, with an interner that has seen no name.
    pub fn new() -> (r: DependencyGraph)
        ensures
            r.wf(),
            r.table() == Seq::<Name>::empty(),
            r.node_names() == Set::<Name>::empty(),
            r.edge_names() == Set::<NamePair>::empty(),
    {
        DependencyGraph { graph: graph_new(), ids: IdGen::new() }
    }

    /// Interns `name` without making it a node. Returns its identifier.
    pub fn intern(&mut self, name: &str) -> (id: u32)
        requires
            old(self).wf(),
            old(self).table().contains(name@) || old(self).table().len() < u32::MAX,
        ensures
            final(self).wf(),
            (final(self).table(), id as int) == intern(old(self).table(), name@),
            final(self).node_names() == old(self).node_names(),
            final(self).edge_names() == old(self).edge_names(),
    {
        let ghost before = *self;
        let id = self.ids.get_next_id(name);
        proof {
            before.lemma_names_stable(self.ids@);
        }
        id
    }

    /// Interns `name` and makes it a node, if it is none yet. Returns its
    /// identifier.
    pub fn add_library(&mut self, name: &str) -> (id: u32)
        requires
            old(self).wf(),
            old(self).table().contains(name@) || old(self).table().len() < u32::MAX,
        ensures
            final(self).wf(),
            (final(self).table(), id as int) == intern(old(self).table(), name@),
            final(self).node_names() == old(self).node_names().insert(name@),
            final(self).edge_names() == old(self).edge_names(),
    {
        let ghost before = *self;
        let id = self.ids.get_next_id(name);
        proof {
            before.lemma_names_stable(self.ids@);
        }
        if !graph_contains_node(&self.graph, id) {
            graph_add_node(&mut self.graph, id);
        }
        proof {
            lemma_with_node(graph_nodes(before.graph), id, self.ids@);
        }
        id
    }

    /// Records that the library with identifier `by` needs `needed`: interns
    /// `needed`, makes it a node, and adds the edge from it to `by`.
    pub fn add_need(&mut self, needed: &str, by: u32)
        requires
            old(self).wf(),
            by < old(self).table().len(),
            old(self).table().contains(needed@) || old(self).table().len() < u32::MAX,
        ensures
            final(self).wf(),
            final(self).table() == intern(old(self).table(), needed@).0,
            final(self).node_names() == old(self).node_names().insert(needed@).insert(
                old(self).table()[by as int],
            ),
            final(self).edge_names() == old(self).edge_names().insert(
                (needed@, old(self).table()[by as int]),
            ),
    {
        let ghost before = *self;
        let id = self.add_library(needed);
        let ghost middle = *self;
        proof {
            before.ids.lemma_wf();
        }
        graph_add_edge(&mut self.graph, id, by);
        proof {
            let nodes = graph_nodes(middle.graph);
            let edges = graph_edges(middle.graph);
            assert(nodes.contains(id)) by {
                assert(middle.node_names().contains(needed@));
            }
            lemma_with_node(with_node(nodes, id), by, self.ids@);
            lemma_with_edge(edges, (id, by), self.ids@);
        }
    }

    /// Adds the library `lib` of `libraries`: its node, and an edge to it
    /// from each of its needs that `libraries` has a library for.
    fn add_entry(
        &mut self,
        lib: &Library,
        libraries: &LibraryMap,
        Ghost(universe): Ghost<Set<Name>>,
    )
        requires
            old(self).wf(),
            libraries.wf(),
            old(self).table().to_set().subset_of(universe),
            universe.finite(),
            universe.len() <= u32::MAX,
            libraries@.dom().subset_of(universe),
            universe.contains(lib@.name),
        ensures
            final(self).wf(),
            old(self).table().is_prefix_of(final(self).table()),
            final(self).table().to_set().subset_of(universe),
            final(self).node_names() == old(self).node_names().union(
                library_nodes(lib@, libraries@.dom(), lib@.needed.len() as int),
            ),
            final(self).edge_names() == old(self).edge_names().union(
                library_edges(lib@, libraries@.dom(), lib@.needed.len() as int),
            ),
    {
        let ghost before = *self;
        let ghost keys = libraries@.dom();
        proof {
            self.ids.lemma_wf();
            lemma_room_for(self.ids@, universe, lib@.name);
        }
        let lib_id = self.add_library(lib.name.as_str());
        let mut m: usize = 0;
        while m < lib.needed.len()
            invariant
                m <= lib.needed@.len(),
                self.wf(),
                libraries.wf(),
                keys == libraries@.dom(),
                keys.subset_of(universe),
                universe.finite(),
                universe.len() <= u32::MAX,
                before.ids@.is_prefix_of(self.ids@),
                self.ids@.to_set().subset_of(universe),
                lib_id < self.ids@.len(),
                self.ids@[lib_id as int] == lib@.name,
                self.node_names() == before.node_names().union(library_nodes(lib@, keys, m as int)),
                self.edge_names() == before.edge_names().union(library_edges(lib@, keys, m as int)),
            decreases lib.needed@.len() - m,
        {
            let name = lib.needed[m].as_str();
            assert(lib@.needed[m as int] == name@);
            if libraries.contains_key(name) {
                proof {
                    self.ids.lemma_wf();
                    lemma_room_for(self.ids@, universe, name@);
                }
                self.add_need(name, lib_id);
            }
            m += 1;
        }
    }

    /// The graph of the tree `deps` of the main library `main_lib_name`:
    /// an edge from each needed library to the one that needs it. A need
    /// of a library of the tree that the tree has no library for is passed
    /// over.
    pub fn build(main_lib_name: &str, deps: &DependencyTree) -> (r: DependencyGraph)
        requires
            deps.libraries.wf(),
            deps.interned_names(main_lib_name@).len() <= u32::MAX,
        ensures
            r.wf(),
            r.node_names() == deps.node_names(main_lib_name@),
            r.edge_names() == deps.edge_names(main_lib_name@),
    {
        let ghost main = main_lib_name@;
        let ghost universe = deps.interned_names(main);
        let ghost needed = names(deps.needed@);
        let ghost keys = deps.libraries@.dom();
        let ghost libs = deps.libraries.stored();
        proof {
            deps.lemma_interned_names_finite(main);
        }
        let mut g = DependencyGraph::new();
        let main_id = g.intern(main_lib_name);
        let mut k: usize = 0;
        while k < deps.needed.len()
            invariant
                k <= deps.needed@.len(),
                g.wf(),
                main == main_lib_name@,
                universe == deps.interned_names(main),
                needed == names(deps.needed@),
                universe.finite(),
                universe.len() <= u32::MAX,
                g.ids@.to_set().subset_of(universe),
                main_id < g.ids@.len(),
                g.ids@[main_id as int] == main,
                g.node_names() == direct_nodes(main, needed, k as int),
                g.edge_names() == direct_edges(main, needed, k as int),
            decreases deps.needed@.len() - k,
        {
            let name = deps.needed[k].as_str();
            proof {
                assert(needed[k as int] == name@);
                g.ids.lemma_wf();
                lemma_room_for(g.ids@, universe, name@);
            }
            g.add_need(name, main_id);
            k += 1;
        }
        let ghost direct = g;
        let mut i: usize = 0;
        while i < deps.libraries.entries.len()
            invariant
                i <= deps.libraries.entries@.len(),
                g.wf(),
                deps.libraries.wf(),
                universe == deps.interned_names(main),
                keys == deps.libraries@.dom(),
                libs == deps.libraries.stored(),
                universe.finite(),
                universe.len() <= u32::MAX,
                g.ids@.to_set().subset_of(universe),
                g.node_names() == direct.node_names().union(libraries_nodes(libs, keys, i as int)),
                g.edge_names() == direct.edge_names().union(libraries_edges(libs, keys, i as int)),
            decreases deps.libraries.entries@.len() - i,
        {
            let lib = &deps.libraries.entries[i];
            proof {
                deps.libraries.lemma_entry(i as int);
            }
            g.add_entry(lib, &deps.libraries, Ghost(universe));
            proof {
                lemma_one_more_library(libs, keys, i as int);
            }
            i += 1;
        }
        proof {
            lemma_all_libraries(main, deps);
        }
        g
    }

    /// The names of the nodes, ascending.
    pub fn vertices(&self) -> (r: Vec<String>)
        requires
            self.wf(),
        ensures
            names_ascending(names(r@)),
            names(r@).to_set() == self.node_names(),
    {
        let nodes = graph_node_list(&self.graph);
        let mut out: Vec<String> = Vec::with_capacity(nodes.len());
        let mut k: usize = 0;
        while k < nodes.len()
            invariant
                k <= nodes@.len(),
                self.wf(),
                nodes@ == graph_nodes(self.graph),
                ascending(keys_of(out@)),
                keys_of(out@).to_set() == Set::new(
                    |p: NamePair|
                        p.1 == Seq::<char>::empty() && exists|j: int|
                            0 <= j < k && resolve(self.ids@, #[trigger] nodes@[j] as int) == Some(
                                p.0,
                            ),
                ),
            decreases nodes@.len() - k,
        {
            assert(graph_nodes(self.graph).contains(nodes@[k as int]));
            let name = self.ids.get_by_id(nodes[k]).unwrap();
            insert_sorted(&mut out, name.to_owned());
            k += 1;
        }
        proof {
            let keys = keys_of(out@);
            let found = names(out@);
            let nothing = Seq::<char>::empty();
            assert forall|i: int, j: int| 0 <= i < j < found.len() implies name_lt(
                #[trigger] found[i],
                #[trigger] found[j],
            ) by {
                lemma_name_lt_irreflexive(nothing);
                assert(pair_lt(keys[i], keys[j]));
            }
            assert forall|n: Name| found.to_set().contains(n) <==> self.node_names().contains(
                n,
            ) by {
                if found.to_set().contains(n) {
                    let i = choose|i: int| 0 <= i < found.len() && found[i] == n;
                    assert(keys[i] == (n, nothing));
                    assert(keys.to_set().contains((n, nothing)));
                }
                if self.node_names().contains(n) {
                    assert(keys.to_set().contains((n, nothing)));
                    let i = choose|i: int| 0 <= i < keys.len() && keys[i] == (n, nothing);
                    assert(found[i] == n);
                }
            }
        }
        out
    }

    /// The edges by the names of their ends, ascending by source and then
    /// by target.
    pub fn edges(&self) -> (r: Vec<Edge>)
        requires
            self.wf(),
        ensures
            ascending(Seq::new(r@.len(), |i: int| r@[i]@)),
            Seq::new(r@.len(), |i: int| r@[i]@).to_set() == self.edge_names(),
    {
        let edges = graph_edge_list(&self.graph);
        let mut out: Vec<Edge> = Vec::with_capacity(edges.len());
        let mut k: usize = 0;
        while k < edges.len()
            invariant
                k <= edges@.len(),
                self.wf(),
                edges@ == graph_edges(self.graph),
                ascending(keys_of(out@)),
                keys_of(out@).to_set() == named_edges(edges@.take(k as int), self.ids@),
            decreases edges@.len() - k,
        {
            let (from, to) = edges[k];
            assert(graph_edges(self.graph).contains(edges@[k as int]));
            let src = self.ids.get_by_id(from).unwrap();
            let dst = self.ids.get_by_id(to).unwrap();
            let e = Edge { src: src.to_owned(), dst: dst.to_owned() };
            insert_sorted(&mut out, e);
            assert(edges@.take(k + 1)[k as int] == edges@[k as int]);
            k += 1;
        }
        proof {
            assert(edges@.take(k as int) =~= edges@);
            assert(keys_of(out@) =~= Seq::new(out@.len(), |i: int| out@[i]@));
        }
        out
    }

    /// Every edge joins two nodes.
    pub proof fn lemma_edges_within(&self)
        requires
            self.wf(),
        ensures
            edges_within(self.edge_names(), self.node_names()),
    {
        let edges = graph_edges(self.graph);
        assert forall|e: NamePair| #[trigger] self.edge_names().contains(e) implies {
            &&& self.node_names().contains(e.0)
            &&& self.node_names().contains(e.1)
        } by {
            let i = choose|i: int|
                0 <= i < edges.len() && resolve(self.ids@, (#[trigger] edges[i]).0 as int)
                    == Some(e.0) && resolve(self.ids@, edges[i].1 as int) == Some(e.1);
            assert(edges.contains(edges[i]));
        }
    }

    /// A topological order of the identifiers is one of the names.
    proof fn lemma_order_by_name(&self, order: Seq<u32>, by_name: Seq<Name>)
        requires
            self.wf(),
            is_topological_order(
                order,
                graph_nodes(self.graph).to_set(),
                graph_edges(self.graph).to_set(),
            ),
            by_name.len() == order.len(),
            forall|i: int|
                0 <= i < order.len() ==> resolve(self.ids@, order[i] as int) == Some(
                    #[trigger] by_name[i],
                ),
        ensures
            is_topological_order(by_name, self.node_names(), self.edge_names()),
    {
        let nodes = graph_nodes(self.graph);
        self.ids.lemma_wf();
        assert forall|n: Name| by_name.to_set().contains(n) <==> self.node_names().contains(n) by {
            if by_name.to_set().contains(n) {
                let i = choose|i: int| 0 <= i < by_name.len() && by_name[i] == n;
                assert(order.to_set().contains(order[i]));
            }
            if self.node_names().contains(n) {
                let a = choose|a: int|
                    0 <= a < nodes.len() && resolve(self.ids@, #[trigger] nodes[a] as int) == Some(
                        n,
                    );
                assert(nodes.to_set().contains(nodes[a]));
                let i = order.index_of(nodes[a]);
                assert(resolve(self.ids@, order[i] as int) == Some(by_name[i]));
            }
        }
        assert(by_name.to_set() =~= self.node_names());
    }

    /// A node on a cycle of identifiers has a name on a cycle of names.
    proof fn lemma_cycle_by_name(&self, id: u32)
        requires
            self.wf(),
            on_cycle(graph_edges(self.graph).to_set(), id),
        ensures
            id < self.ids@.len(),
            on_cycle(self.edge_names(), self.ids@[id as int]),
    {
        let edges = graph_edges(self.graph).to_set();
        let walk = choose|walk: Seq<u32>| #[trigger]
            is_walk(edges, walk) && walk[0] == id && edges.contains((walk.last(), id));
        let by_name = Seq::new(walk.len(), |i: int| self.ids@[walk[i] as int]);
        assert(is_walk(self.edge_names(), by_name));
    }

    /// The names of the nodes in a topological order, or else a library on
    /// a cycle. Which of several topological orders comes is left to the
    /// sorting algorithm.
    pub fn toposort(&self) -> (r: Result<Vec<String>, CycleError>)
        requires
            self.wf(),
        ensures
            match r {
                Ok(order) => is_topological_order(
                    names(order@),
                    self.node_names(),
                    self.edge_names(),
                ),
                Err(e) => on_cycle(self.edge_names(), e.name@),
            },
    {
        match graph_toposort(&self.graph) {
            Ok(order) => {
                let mut out: Vec<String> = Vec::with_capacity(order.len());
                let mut k: usize = 0;
                while k < order.len()
                    invariant
                        k <= order@.len(),
                        self.wf(),
                        is_topological_order(
                            order@,
                            graph_nodes(self.graph).to_set(),
                            graph_edges(self.graph).to_set(),
                        ),
                        out@.len() == k,
                        forall|i: int|
                            0 <= i < k ==> resolve(self.ids@, order@[i] as int) == Some(
                                #[trigger] out@[i]@,
                            ),
                    decreases order@.len() - k,
                {
                    assert(order@.to_set().contains(order@[k as int]));
                    let name = self.ids.get_by_id(order[k]).unwrap();
                    out.push(name.to_owned());
                    k += 1;
                }
                proof {
                    self.lemma_order_by_name(order@, names(out@));
                }
                Ok(out)
            },
            Err(c) => {
                let id = cycle_node_id(&c);
                proof {
                    self.lemma_cycle_by_name(id);
                }
                let name = self.ids.get_by_id(id).unwrap();
                Err(CycleError { name: name.to_owned() })
            },
        }
    }

    /// Growing the table changes the name of no node and of no edge.
    proof fn lemma_names_stable(&self, longer: Seq<Name>)
        requires
            self.wf(),
            self.ids@.is_prefix_of(longer),
        ensures
            named_nodes(graph_nodes(self.graph), longer) == self.node_names(),
            named_edges(graph_edges(self.graph), longer) == self.edge_names(),
    {
        let nodes = graph_nodes(self.graph);
        let edges = graph_edges(self.graph);
        assert forall|i: int| 0 <= i < nodes.len() implies resolve(
            longer,
            #[trigger] nodes[i] as int,
        ) == resolve(self.ids@, nodes[i] as int) by {
            assert(nodes.contains(nodes[i]));
        }
        assert forall|i: int| 0 <= i < edges.len() implies {
            &&& resolve(longer, (#[trigger] edges[i]).0 as int) == resolve(
                self.ids@,
                edges[i].0 as int,
            )
            &&& resolve(longer, edges[i].1 as int) == resolve(self.ids@, edges[i].1 as int)
        } by {
            assert(edges.contains(edges[i]));
        }
    }
}

} // verus!
