//! The outcome of an analysis: the vertices and edges of the graph by name,
//! the libraries with their paths, and the order in which to load them.

use vstd::prelude::*;
use vstd::string::*;

use crate::dep_graph::DependencyGraph;
use crate::graph::{
    edges_within, has_cycle, is_topological_order, lemma_reached_by_all_is_last,
    lemma_same_elements_once, lemma_topological_order_excludes_cycle, on_cycle, reaches,
};
use crate::order::{
    ascending, insert_sorted, keys_of, lemma_ascending_no_duplicates, lemma_name_lt_total,
    lemma_names_ascending_no_duplicates, name_lt, names_ascending, pair_lt, str_eq, str_lt, Name,
    NamePair, SortKey,
};
use crate::tree::{names, path_view, DependencyTree, LibraryMap, LibraryView};

verus! {

/// An edge of the graph: `src` has to be loaded before `dst`.
#[derive(Debug, Clone, PartialEq, Eq)]
pub struct Edge {
    pub src: String,
    pub dst: String,
}

impl View for Edge {
    type V = NamePair;

    open spec fn view(&self) -> NamePair {
        (self.src@, self.dst@)
    }
}

impl SortKey for Edge {
    /// An edge is ordered by its source, then by its target.
    open spec fn sort_key(&self) -> NamePair {
        (self.src@, self.dst@)
    }

    fn key_lt(&self, other: &Self) -> (r: bool) {
        if str_lt(self.src.as_str(), other.src.as_str()) {
            true
        } else if str_lt(other.src.as_str(), self.src.as_str()) {
            false
        } else {
            proof {
                lemma_name_lt_total(self.src@, other.src@);
            }
            str_lt(self.dst.as_str(), other.dst.as_str())
        }
    }
}

/// A library of the outcome: its name and, where known, its path.
#[derive(Debug, Clone, PartialEq, Eq)]
pub struct Lib {
    pub name: String,
    pub path: Option<String>,
}

/// What a `Lib` holds, as plain values.
pub struct LibView {
    pub name: Name,
    pub path: Option<Name>,
}

impl View for Lib {
    type V = LibView;

    open spec fn view(&self) -> LibView {
        LibView { name: self.name@, path: path_view(self.path) }
    }
}

impl SortKey for Lib {
    /// A library is ordered by its name.
    open spec fn sort_key(&self) -> NamePair {
        (self.name@, Seq::empty())
    }

    fn key_lt(&self, other: &Self) -> (r: bool) {
        str_lt(self.name.as_str(), other.name.as_str())
    }
}

/// The graph has a cycle, so no load order exists.
#[derive(Debug, Clone, PartialEq, Eq)]
pub struct CycleError {
    /// A library that lies on a cycle.
    pub name: String,
}

/// The plan for loading a library and all that it needs.
#[derive(Debug, Clone, PartialEq, Eq)]
pub struct TopoSortResult {
    /// The names of the nodes, ascending.
    pub vertices: Vec<String>,
    /// The edges, ascending by source and then by target.
    pub edges: Vec<Edge>,
    /// The libraries of the tree with their paths, ascending by name, each
    /// name once.
    pub library_map: Vec<Lib>,
    /// The nodes in an order in which they can be loaded: each one after
    /// all that it needs.
    pub topo_sorted_libs: Vec<Lib>,
}

impl TopoSortResult {
    /// The names of the vertices, in order.
    pub open spec fn vertex_names(&self) -> Seq<Name> {
        names(self.vertices@)
    }

    /// The edges as pairs of names, in order.
    pub open spec fn edge_pairs(&self) -> Seq<NamePair> {
        Seq::new(self.edges@.len(), |i: int| self.edges@[i]@)
    }

    /// The listed libraries, in order.
    pub open spec fn libraries(&self) -> Seq<LibView> {
        Seq::new(self.library_map@.len(), |i: int| self.library_map@[i]@)
    }

    /// The load order, with paths.
    pub open spec fn load_order(&self) -> Seq<LibView> {
        Seq::new(self.topo_sorted_libs@.len(), |i: int| self.topo_sorted_libs@[i]@)
    }

    /// The load order, by name alone.
    pub open spec fn load_order_names(&self) -> Seq<Name> {
        Seq::new(self.topo_sorted_libs@.len(), |i: int| self.topo_sorted_libs@[i].name@)
    }

    /// The parts of the plan agree: the vertices and the edges are
    /// ascending, every edge joins two vertices, and the load order lists
    /// every vertex once, each edge's source before its target.
    pub open spec fn wf(&self) -> bool {
        &&& names_ascending(self.vertex_names())
        &&& ascending(self.edge_pairs())
        &&& edges_within(self.edge_pairs().to_set(), self.vertex_names().to_set())
        &&& is_topological_order(
            self.load_order_names(),
            self.vertex_names().to_set(),
            self.edge_pairs().to_set(),
        )
    }

    /// The load order is a permutation of the vertices, and neither the
    /// vertices nor the edges hold anything twice.
    pub proof fn lemma_permutation(&self)
        requires
            self.wf(),
        ensures
            self.load_order_names().to_multiset() == self.vertex_names().to_multiset(),
            self.load_order_names().len() == self.vertex_names().len(),
            self.vertex_names().no_duplicates(),
            self.edge_pairs().no_duplicates(),
    {
        lemma_names_ascending_no_duplicates(self.vertex_names());
        lemma_ascending_no_duplicates(self.edge_pairs());
        lemma_same_elements_once(self.load_order_names(), self.vertex_names());
    }

    /// Where every other vertex is needed by `main`, directly or through
    /// others, `main` is loaded last.
    pub proof fn lemma_main_last(&self, main: Name)
        requires
            self.wf(),
            self.vertex_names().contains(main),
            forall|v: Name|
                self.vertex_names().contains(v) && v != main ==> #[trigger] reaches(
                    self.edge_pairs().to_set(),
                    v,
                    main,
                ),
        ensures
            self.load_order_names().len() > 0,
            self.load_order_names().last() == main,
    {
        lemma_reached_by_all_is_last(
            self.load_order_names(),
            self.vertex_names().to_set(),
            self.edge_pairs().to_set(),
            main,
        );
    }

    /// The edges give no reason why the load order could not exist: they
    /// form no cycle.
    pub proof fn lemma_acyclic(&self)
        requires
            self.wf(),
        ensures
            !has_cycle(self.edge_pairs().to_set()),
    {
        lemma_topological_order_excludes_cycle(
            self.load_order_names(),
            self.vertex_names().to_set(),
            self.edge_pairs().to_set(),
        );
    }
}

/// `listed` holds the libraries of `libraries` with their paths, ascending
/// by name: each of them once, and nothing else.
pub open spec fn lists_libraries(listed: Seq<LibView>, libraries: Map<Name, LibraryView>) -> bool {
    &&& forall|i: int, j: int|
        0 <= i < j < listed.len() ==> name_lt(#[trigger] listed[i].name, #[trigger] listed[j].name)
    &&& forall|i: int|
        0 <= i < listed.len() ==> {
            &&& libraries.contains_key((#[trigger] listed[i]).name)
            &&& listed[i].path == libraries[listed[i].name].path
        }
    &&& forall|n: Name|
        libraries.contains_key(n) ==> exists|i: int|
            0 <= i < listed.len() && (#[trigger] listed[i]).name == n
}

/// A copy of an optional path.
fn clone_path(p: &Option<String>) -> (r: Option<String>)
    ensures
        path_view(r) == path_view(*p),
{
    match p {
        Some(s) => Some(s.clone()),
        None => None,
    }
}

/// Each library of `libraries` with its path, ascending by name.
pub fn library_map(libraries: &LibraryMap) -> (r: Vec<Lib>)
    requires
        libraries.wf(),
    ensures
        lists_libraries(Seq::new(r@.len(), |i: int| r@[i]@), libraries@),
{
    let mut out: Vec<Lib> = Vec::new();
    let mut k: usize = 0;
    while k < libraries.entries.len()
        invariant
            k <= libraries.entries@.len(),
            libraries.wf(),
            ascending(keys_of(out@)),
            forall|i: int|
                0 <= i < out@.len() ==> {
                    &&& libraries@.contains_key((#[trigger] out@[i]).name@)
                    &&& path_view(out@[i].path) == libraries@[out@[i].name@].path
                },
            forall|j: int|
                0 <= j < k ==> exists|i: int|
                    0 <= i < out@.len() && (#[trigger] out@[i]).name@
                        == (#[trigger] libraries.entries@[j]).name@,
        decreases libraries.entries@.len() - k,
    {
        let ghost before = out@;
        let entry = &libraries.entries[k];
        let lib = Lib { name: entry.name.clone(), path: clone_path(&entry.path) };
        proof {
            libraries.lemma_entry(k as int);
        }
        let added = insert_sorted(&mut out, lib);
        proof {
            if added {
                let p = choose|p: int|
                    0 <= p <= before.len() && out@ == #[trigger] before.insert(p, lib);
                assert forall|j: int| 0 <= j < k + 1 implies exists|i: int|
                    0 <= i < out@.len() && (#[trigger] out@[i]).name@
                        == (#[trigger] libraries.entries@[j]).name@ by {
                    if j < k {
                        let i = choose|i: int|
                            0 <= i < before.len() && (#[trigger] before[i]).name@
                                == libraries.entries@[j].name@;
                        if i < p {
                            assert(out@[i] == before[i]);
                        } else {
                            assert(out@[i + 1] == before[i]);
                        }
                    } else {
                        assert(out@[p] == lib);
                    }
                }
            }
        }
        k += 1;
    }
    proof {
        let listed = Seq::new(out@.len(), |i: int| out@[i]@);
        assert forall|i: int, j: int| 0 <= i < j < listed.len() implies name_lt(
            #[trigger] listed[i].name,
            #[trigger] listed[j].name,
        ) by {
            assert(pair_lt(keys_of(out@)[i], keys_of(out@)[j]));
        }
        assert forall|n: Name| libraries@.contains_key(n) implies exists|i: int|
            0 <= i < listed.len() && (#[trigger] listed[i]).name == n by {
            libraries.lemma_key(n);
            let j = libraries.position(n);
            let i = choose|i: int|
                0 <= i < out@.len() && (#[trigger] out@[i]).name@
                    == (#[trigger] libraries.entries@[j]).name@;
            assert(listed[i].name == n);
        }
    }
    out
}

/// The libraries named in `order`, in that order, each with its path: that
/// of the main library for its own name, else that of the tree's library of
/// that name, if it has one with a path.
pub fn libs_in_order(
    order: &Vec<String>,
    main_lib_name: &str,
    main_lib_path: &str,
    deps: &DependencyTree,
) -> (r: Vec<Lib>)
    requires
        deps.libraries.wf(),
    ensures
        r@.len() == order@.len(),
        forall|i: int|
            0 <= i < r@.len() ==> (#[trigger] r@[i])@ == (LibView {
                name: order@[i]@,
                path: deps.path_of(main_lib_name@, main_lib_path@, order@[i]@),
            }),
{
    let mut out: Vec<Lib> = Vec::with_capacity(order.len());
    let mut k: usize = 0;
    while k < order.len()
        invariant
            k <= order@.len(),
            deps.libraries.wf(),
            out@.len() == k,
            forall|i: int|
                0 <= i < k ==> (#[trigger] out@[i])@ == (LibView {
                    name: order@[i]@,
                    path: deps.path_of(main_lib_name@, main_lib_path@, order@[i]@),
                }),
        decreases order@.len() - k,
    {
        let lib_name = order[k].as_str();
        let lib_path = if !str_eq(lib_name, main_lib_name) {
            match deps.libraries.get(lib_name) {
                Some(lib) => clone_path(&lib.path),
                None => None,
            }
        } else {
            Some(main_lib_path.to_owned())
        };
        out.push(Lib { name: lib_name.to_owned(), path: lib_path });
        k += 1;
    }
    out
}

/// The plan for loading the library `main_lib_name`, which lies at
/// `main_lib_path`, and everything that `deps` says it needs: the graph by
/// name, the libraries with their paths, and an order in which each library
/// comes after all that it needs. Where the needs form a cycle there is no
/// such order, and a library on a cycle is returned instead.
pub fn get_topologically_sorted_result(
    main_lib_name: &str,
    main_lib_path: &str,
    deps: &DependencyTree,
) -> (r: Result<TopoSortResult, CycleError>)
    requires
        deps.libraries.wf(),
        deps.interned_names(main_lib_name@).len() <= u32::MAX,
    ensures
        r is Ok <==> !has_cycle(deps.edge_names(main_lib_name@)),
        match r {
            Ok(res) => {
                &&& res.wf()
                &&& res.vertex_names().to_set() == deps.node_names(main_lib_name@)
                &&& res.edge_pairs().to_set() == deps.edge_names(main_lib_name@)
                &&& lists_libraries(res.libraries(), deps.libraries@)
                &&& forall|i: int|
                    0 <= i < res.load_order().len() ==> (#[trigger] res.load_order()[i]).path
                        == deps.path_of(main_lib_name@, main_lib_path@, res.load_order()[i].name)
            },
            Err(e) => on_cycle(deps.edge_names(main_lib_name@), e.name@),
        },
{
    let graph = DependencyGraph::build(main_lib_name, deps);
    let vertices = graph.vertices();
    let edges = graph.edges();
    let library_map = library_map(&deps.libraries);
    let order = match graph.toposort() {
        Ok(order) => order,
        Err(e) => {
            return Err(e);
        },
    };
    proof {
        lemma_topological_order_excludes_cycle(
            names(order@),
            graph.node_names(),
            graph.edge_names(),
        );
    }
    let topo_sorted_libs = libs_in_order(&order, main_lib_name, main_lib_path, deps);
    let res = TopoSortResult { vertices, edges, library_map, topo_sorted_libs };
    proof {
        assert(res.load_order_names() =~= names(order@));
    }
    Ok(res)
}

} // verus!
