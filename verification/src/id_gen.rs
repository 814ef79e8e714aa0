//! Interning of library names into dense identifiers.

use vstd::hash_map::StringHashMap;
use vstd::prelude::*;
use vstd::string::*;

use crate::order::Name;

verus! {

/// The table after `name` was interned into `table`, and the identifier of
/// `name` in it: `name` keeps the place it has, or else goes to the end.
pub open spec fn intern(table: Seq<Name>, name: Name) -> (Seq<Name>, int) {
    if table.contains(name) {
        (table, table.index_of(name))
    } else {
        (table.push(name), table.len() as int)
    }
}

/// The name that `table` has for `id`, if it has one.
pub open spec fn resolve(table: Seq<Name>, id: int) -> Option<Name> {
    if 0 <= id < table.len() {
        Some(table[id])
    } else {
        None
    }
}

/// Resolving the identifier that interning gave to `name` gives `name`
/// back.
pub proof fn lemma_round_trip(table: Seq<Name>, name: Name)
    ensures
        resolve(intern(table, name).0, intern(table, name).1) == Some(name),
{
}

/// Interning keeps a table free of repetitions and changes the name of no
/// identifier: the old table is the beginning of the new one.
pub proof fn lemma_intern(table: Seq<Name>, name: Name)
    requires
        table.no_duplicates(),
    ensures
        intern(table, name).0.no_duplicates(),
        table.is_prefix_of(intern(table, name).0),
{
}

/// Interning the same name twice yields the same identifier, and the second
/// time changes nothing.
pub proof fn lemma_intern_same_name(table: Seq<Name>, name: Name)
    requires
        table.no_duplicates(),
    ensures
        intern(intern(table, name).0, name) == intern(table, name),
{
    let (t, id) = intern(table, name);
    assert(t[id] == name);
}

/// Interning two different names yields two different identifiers, in
/// whichever order they come, and the earlier one keeps its name.
pub proof fn lemma_intern_different_names(table: Seq<Name>, a: Name, b: Name)
    requires
        table.no_duplicates(),
        a != b,
    ensures
        intern(intern(table, a).0, b).1 != intern(table, a).1,
        resolve(intern(intern(table, a).0, b).0, intern(table, a).1) == Some(a),
{
}

/// An append-only interner: the first name seen gets identifier 0, the next
/// new name 1, and so on. A name keeps its identifier for good.
pub struct IdGen {
    id_to_str: Vec<String>,
    str_to_id: StringHashMap<u32>,
}

impl View for IdGen {
    type V = Seq<Name>;

    /// The interned names, each at the position that is its identifier.
    closed spec fn view(&self) -> Seq<Name> {
        Seq::new(self.id_to_str@.len(), |i: int| self.id_to_str@[i]@)
    }
}

impl IdGen {
    /// The two directions of the table agree, and the identifiers fit.
    pub closed spec fn wf(&self) -> bool {
        &&& self.id_to_str@.len() <= u32::MAX
        &&& forall|i: int|
            0 <= i < self.id_to_str@.len() ==> {
                &&& self.str_to_id@.contains_key(#[trigger] self.id_to_str@[i]@)
                &&& self.str_to_id@[self.id_to_str@[i]@] == i
            }
        &&& forall|k: Name| #[trigger]
            self.str_to_id@.contains_key(k) ==> {
                &&& self.str_to_id@[k] < self.id_to_str@.len()
                &&& self.id_to_str@[self.str_to_id@[k] as int]@ == k
            }
    }

    /// No name has two identifiers, and the identifiers fit their type.
    pub proof fn lemma_wf(&self)
        requires
            self.wf(),
        ensures
            self@.no_duplicates(),
            self@.len() <= u32::MAX,
    {
    }

    /// An interner that has seen no name.
    pub fn new() -> (r: IdGen)
        ensures
            r.wf(),
            r@ == Seq::<Name>::empty(),
    {
        IdGen { id_to_str: Vec::new(), str_to_id: StringHashMap::new() }
    }

    /// The identifier that the next new name will get.
    pub fn next_id(&self) -> (r: u32)
        requires
            self.wf(),
        ensures
            r == self@.len(),
    {
        self.id_to_str.len() as u32
    }

    /// Whether no name has been seen.
    pub fn is_empty(&self) -> (r: bool)
        ensures
            r == (self@.len() == 0),
    {
        self.id_to_str.len() == 0
    }

    /// The identifier of `name`: the one it already has, or else the next
    /// free one, which it then keeps.
    pub fn get_next_id(&mut self, name: &str) -> (id: u32)
        requires
            old(self).wf(),
            old(self)@.contains(name@) || old(self)@.len() < u32::MAX,
        ensures
            final(self).wf(),
            (final(self)@, id as int) == intern(old(self)@, name@),
            resolve(final(self)@, id as int) == Some(name@),
    {
        match self.str_to_id.get(name) {
            Some(id) => *id,
            None => {
                let id = self.id_to_str.len() as u32;
                self.str_to_id.insert(name.to_owned(), id);
                self.id_to_str.push(name.to_owned());
                id
            },
        }
    }

    /// The name that was given identifier `id`, if any was.
    pub fn get_by_id(&self, id: u32) -> (r: Option<&str>)
        ensures
            match r {
                Some(s) => resolve(self@, id as int) == Some(s@),
                None => resolve(self@, id as int).is_none(),
            },
    {
        if (id as usize) < self.id_to_str.len() {
            Some(self.id_to_str[id as usize].as_str())
        } else {
            None
        }
    }
}

} // verus!
