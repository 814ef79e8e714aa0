//! The dependency tree that an analysis starts from: the direct needs of the
//! main library, and every library found behind them.

use vstd::hash_map::StringHashMap;
use vstd::prelude::*;
use vstd::string::*;

use crate::order::{Name, NamePair};

verus! {

/// The views of the strings of `v`, in order.
pub open spec fn names(v: Seq<String>) -> Seq<Name> {
    Seq::new(v.len(), |i: int| v[i]@)
}

/// A library that was found while following the needs of the main library.
pub struct Library {
    /// The name under which others need it; its key in the tree.
    pub name: String,
    /// Where it was found, if it was.
    pub path: Option<String>,
    /// The names it needs directly. A name that the tree has no library for
    /// is allowed and stands for nothing.
    pub needed: Vec<String>,
}

/// What a `Library` holds, as plain values.
pub struct LibraryView {
    pub name: Name,
    pub path: Option<Name>,
    pub needed: Seq<Name>,
}

/// The view of an optional string.
pub open spec fn path_view(p: Option<String>) -> Option<Name> {
    match p {
        Some(s) => Some(s@),
        None => None,
    }
}

impl View for Library {
    type V = LibraryView;

    open spec fn view(&self) -> LibraryView {
        LibraryView { name: self.name@, path: path_view(self.path), needed: names(self.needed@) }
    }
}

/// The libraries of a tree, keyed by name: no two have the same name.
pub struct LibraryMap {
    /// The libraries, in the order in which their names first came.
    pub(crate) entries: Vec<Library>,
    /// Where in `entries` each name stands.
    pub(crate) index: StringHashMap<usize>,
}

impl View for LibraryMap {
    type V = Map<Name, LibraryView>;

    /// The libraries by name.
    closed spec fn view(&self) -> Map<Name, LibraryView> {
        Map::new(
            |n: Name| exists|i: int| 0 <= i < self.entries@.len() && self.entries@[i].name@ == n,
            |n: Name| self.entries@[self.position(n)]@,
        )
    }
}

impl LibraryMap {
    /// Some position at which the library named `n` is stored, if there is
    /// one.
    pub(crate) closed spec fn position(&self, n: Name) -> int {
        choose|i: int| 0 <= i < self.entries@.len() && self.entries@[i].name@ == n
    }

    /// The index knows the place of every library, and of nothing else. So
    /// no name occurs twice.
    pub closed spec fn wf(&self) -> bool {
        &&& forall|i: int|
            0 <= i < self.entries@.len() ==> {
                &&& self.index@.contains_key(#[trigger] self.entries@[i].name@)
                &&& self.index@[self.entries@[i].name@] == i
            }
        &&& forall|n: Name| #[trigger]
            self.index@.contains_key(n) ==> {
                &&& self.index@[n] < self.entries@.len()
                &&& self.entries@[self.index@[n] as int].name@ == n
            }
    }

    /// What is stored at each position is what the map holds under its name.
    pub(crate) proof fn lemma_entry(&self, i: int)
        requires
            self.wf(),
            0 <= i < self.entries@.len(),
        ensures
            self@.contains_key(self.entries@[i].name@),
            self@[self.entries@[i].name@] == self.entries@[i]@,
    {
    }

    /// Every key of the map is the name of a stored library.
    pub(crate) proof fn lemma_key(&self, n: Name)
        requires
            self@.contains_key(n),
        ensures
            0 <= self.position(n) < self.entries@.len(),
            self.entries@[self.position(n)].name@ == n,
            self@[n] == self.entries@[self.position(n)]@,
    {
    }

    /// The names of the stored libraries, in the order in which they are
    /// stored.
    pub(crate) closed spec fn stored_names(&self) -> Seq<Name> {
        Seq::new(self.entries@.len(), |i: int| self.entries@[i].name@)
    }

    /// The stored libraries, as plain values, in the order in which they
    /// are stored.
    pub(crate) open spec fn stored(&self) -> Seq<LibraryView> {
        Seq::new(self.entries@.len(), |i: int| self.entries@[i]@)
    }

    /// The keys are the names of the stored libraries.
    pub(crate) proof fn lemma_keys(&self)
        ensures
            self@.dom() == self.stored_names().to_set(),
            self.stored_names().len() == self.entries@.len(),
            forall|i: int|
                0 <= i < self.entries@.len() ==> #[trigger] self.stored_names()[i]
                    == self.entries@[i].name@,
    {
        let stored = self.stored_names();
        assert forall|n: Name| self@.dom().contains(n) implies stored.to_set().contains(n) by {
            let i = self.position(n);
            assert(stored[i] == n);
        }
    }

    /// The keys are finitely many, one for each stored library.
    pub(crate) proof fn lemma_stored(&self)
        requires
            self.wf(),
        ensures
            self@.dom().finite(),
            self@.dom().len() == self.entries@.len(),
    {
        let stored = self.stored_names();
        self.lemma_keys();
        stored.unique_seq_to_set();
    }

    /// The keys are finitely many.
    pub proof fn lemma_finite(&self)
        ensures
            self@.dom().finite(),
    {
        self.lemma_keys();
    }

    /// An empty map.
    pub fn new() -> (r: LibraryMap)
        ensures
            r.wf(),
            r@ == Map::<Name, LibraryView>::empty(),
    {
        let r = LibraryMap { entries: Vec::new(), index: StringHashMap::new() };
        r
    }

    /// The position at which the library named `name` is stored, if any.
    fn find(&self, name: &str) -> (r: Option<usize>)
        requires
            self.wf(),
        ensures
            match r {
                Some(i) => i < self.entries@.len() && self.entries@[i as int].name@ == name@,
                None => !self@.contains_key(name@),
            },
    {
        match self.index.get(name) {
            Some(i) => Some(*i),
            None => {
                None
            },
        }
    }

    /// Whether a library named `name` is held.
    pub fn contains_key(&self, name: &str) -> (r: bool)
        requires
            self.wf(),
        ensures
            r == self@.contains_key(name@),
    {
        self.find(name).is_some()
    }

    /// The library named `name`, if one is held.
    pub fn get(&self, name: &str) -> (r: Option<&Library>)
        requires
            self.wf(),
        ensures
            match r {
                Some(lib) => self@.contains_key(name@) && lib@ == self@[name@],
                None => !self@.contains_key(name@),
            },
    {
        match self.find(name) {
            Some(i) => Some(&self.entries[i]),
            None => None,
        }
    }

    /// Puts `lib` under its name, in place of the library that had that
    /// name, if there was one.
    pub fn insert(&mut self, lib: Library)
        requires
            old(self).wf(),
        ensures
            final(self).wf(),
            final(self)@ == old(self)@.insert(lib@.name, lib@),
    {
        let ghost before = *self;
        let ghost added = lib;
        let ghost at: int;
        match self.find(lib.name.as_str()) {
            Some(i) => {
                proof {
                    at = i as int;
                }
                self.entries.set(i, lib);
            },
            None => {
                proof {
                    at = self.entries@.len() as int;
                }
                self.index.insert(lib.name.clone(), self.entries.len());
                self.entries.push(lib);
            },
        }
        proof {
            assert(self.entries@[at] == added);
            assert(forall|j: int|
                0 <= j < self.entries@.len() && j != at ==> self.entries@[j] == before.entries@[j]);
        }
    }

    /// The number of libraries held.
    pub fn len(&self) -> (r: usize)
        requires
            self.wf(),
        ensures
            r == self@.dom().len(),
    {
        proof {
            self.lemma_stored();
        }
        self.entries.len()
    }

    /// Whether no library is held.
    pub fn is_empty(&self) -> (r: bool)
        requires
            self.wf(),
        ensures
            r == (self@.dom().len() == 0),
    {
        proof {
            self.lemma_stored();
        }
        self.entries.len() == 0
    }
}

/// `main`, the first `k` names of `needed` and the first `i` names of
/// `stored`.
spec fn seen_names(
    main: Name,
    needed: Seq<Name>,
    k: int,
    stored: Seq<Name>,
    i: int,
) -> Set<Name> {
    Set::new(
        |n: Name|
            n == main || (exists|j: int| 0 <= j < k && #[trigger] needed[j] == n) || (exists|j: int|
                0 <= j < i && #[trigger] stored[j] == n),
    )
}

/// What the analysis of one shared library found.
pub struct DependencyTree {
    /// The names that the main library needs directly.
    pub needed: Vec<String>,
    /// Every library found behind those names. The main library itself is
    /// not among them.
    pub libraries: LibraryMap,
}

impl DependencyTree {
    /// The names that become nodes of the graph for the main library
    /// `main`: what it needs directly, itself if it needs anything, and
    /// every library of the tree.
    pub open spec fn node_names(&self, main: Name) -> Set<Name> {
        Set::new(
            |n: Name|
                names(self.needed@).contains(n) || (n == main && self.needed@.len() > 0)
                    || self.libraries@.contains_key(n),
        )
    }

    /// The edges of that graph, each from a needed library to the one that
    /// needs it: from each direct need to `main`, and from each need of a
    /// library of the tree to that library, where the tree has a library
    /// for the needed name.
    pub open spec fn edge_names(&self, main: Name) -> Set<NamePair> {
        Set::new(
            |e: NamePair|
                (names(self.needed@).contains(e.0) && e.1 == main) || (self.libraries@.contains_key(
                    e.1,
                ) && self.libraries@.contains_key(e.0) && self.libraries@[e.1].needed.contains(
                    e.0,
                )),
        )
    }

    /// The names that get an identifier: `main`, what it needs directly,
    /// and every library of the tree.
    pub open spec fn interned_names(&self, main: Name) -> Set<Name> {
        Set::new(
            |n: Name|
                n == main || names(self.needed@).contains(n) || self.libraries@.contains_key(n),
        )
    }

    /// The path that goes with `name` in the load order: that of the main
    /// library for its own name, else that of the tree's library of that
    /// name, if it has one with a path.
    pub open spec fn path_of(&self, main: Name, main_path: Name, name: Name) -> Option<Name> {
        if name == main {
            Some(main_path)
        } else if self.libraries@.contains_key(name) {
            self.libraries@[name].path
        } else {
            None
        }
    }

    /// A need that the tree has no library for brings no edge and no node:
    /// a name without a library has an edge only to the main library, and
    /// only where the main library needs it directly, and it is a node only
    /// where the main library needs it directly or is itself that name.
    pub proof fn lemma_dangling_need(&self, main: Name, needed: Name, by: Name)
        requires
            !self.libraries@.contains_key(needed),
        ensures
            self.edge_names(main).contains((needed, by)) <==> by == main && names(
                self.needed@,
            ).contains(needed),
            self.node_names(main).contains(needed) ==> needed == main || names(
                self.needed@,
            ).contains(needed),
    {
    }

    /// Whether the names that get an identifier are few enough for each to
    /// get one.
    pub fn names_fit(&self, main_lib_name: &str) -> (r: bool)
        requires
            self.libraries.wf(),
        ensures
            r == (self.interned_names(main_lib_name@).len() <= u32::MAX),
    {
        let ghost main = main_lib_name@;
        let ghost needed = names(self.needed@);
        let ghost stored = self.libraries.stored_names();
        proof {
            self.libraries.lemma_keys();
        }
        let mut seen: StringHashMap<()> = StringHashMap::new();
        seen.insert(main_lib_name.to_owned(), ());
        let mut k: usize = 0;
        while k < self.needed.len()
            invariant
                k <= self.needed@.len(),
                needed == names(self.needed@),
                seen@.dom() == seen_names(main, needed, k as int, stored, 0),
            decreases self.needed@.len() - k,
        {
            assert(needed[k as int] == self.needed@[k as int]@);
            seen.insert(self.needed[k].clone(), ());
            k += 1;
        }
        let mut i: usize = 0;
        while i < self.libraries.entries.len()
            invariant
                i <= self.libraries.entries@.len(),
                k == self.needed@.len(),
                needed == names(self.needed@),
                stored == self.libraries.stored_names(),
                stored.len() == self.libraries.entries@.len(),
                forall|j: int|
                    0 <= j < stored.len() ==> #[trigger] stored[j]
                        == self.libraries.entries@[j].name@,
                seen@.dom() == seen_names(main, needed, k as int, stored, i as int),
            decreases self.libraries.entries@.len() - i,
        {
            assert(stored[i as int] == self.libraries.entries@[i as int].name@);
            seen.insert(self.libraries.entries[i].name.clone(), ());
            i += 1;
        }
        proof {
            assert(seen@.dom() =~= self.interned_names(main));
        }
        seen.len() <= u32::MAX as usize
    }

    /// The names that get an identifier are finitely many: at most one for
    /// the main library, one for each direct need and one for each library.
    pub proof fn lemma_interned_names_finite(&self, main: Name)
        ensures
            self.interned_names(main).finite(),
            self.interned_names(main).len() <= 1 + self.needed@.len() + self.libraries@.dom().len(),
    {
        let a = set![main];
        let b = names(self.needed@).to_set();
        let c = self.libraries@.dom();
        names(self.needed@).lemma_cardinality_of_set();
        self.libraries.lemma_finite();
        vstd::set_lib::lemma_len_union(a, b);
        vstd::set_lib::lemma_len_union(a.union(b), c);
        assert(self.interned_names(main) =~= a.union(b).union(c));
    }
}

} // verus!
