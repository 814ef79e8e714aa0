//! The order on library names: bytewise lexicographic order of their UTF-8
//! encoding, which is the order of `str`.

use vstd::prelude::*;
use vstd::string::*;
use vstd::utf8::*;

verus! {

/// A library name, as the sequence of its characters.
pub type Name = Seq<char>;

/// Two names: an edge by the names of its ends, or the key that a list is
/// ordered by.
pub type NamePair = (Name, Name);

/// Lexicographic "strictly before" on byte sequences.
pub open spec fn bytes_lt(a: Seq<u8>, b: Seq<u8>) -> bool
    decreases a.len(),
{
    if b.len() == 0 {
        false
    } else if a.len() == 0 {
        true
    } else if a[0] != b[0] {
        a[0] < b[0]
    } else {
        bytes_lt(a.skip(1), b.skip(1))
    }
}

/// "Strictly before" on names: by the bytes of their UTF-8 encoding, which
/// is also the order by code points.
pub open spec fn name_lt(a: Name, b: Name) -> bool {
    bytes_lt(encode_utf8(a), encode_utf8(b))
}

/// No byte sequence is before itself.
pub proof fn lemma_bytes_lt_irreflexive(a: Seq<u8>)
    ensures
        !bytes_lt(a, a),
    decreases a.len(),
{
    if a.len() > 0 {
        lemma_bytes_lt_irreflexive(a.skip(1));
    }
}

/// The order on byte sequences is transitive.
pub proof fn lemma_bytes_lt_transitive(a: Seq<u8>, b: Seq<u8>, c: Seq<u8>)
    requires
        bytes_lt(a, b),
        bytes_lt(b, c),
    ensures
        bytes_lt(a, c),
    decreases a.len(),
{
    if a.len() > 0 && a[0] == b[0] && b[0] == c[0] {
        lemma_bytes_lt_transitive(a.skip(1), b.skip(1), c.skip(1));
    }
}

/// Two different byte sequences are ordered one way or the other.
pub proof fn lemma_bytes_lt_total(a: Seq<u8>, b: Seq<u8>)
    ensures
        bytes_lt(a, b) || bytes_lt(b, a) || a == b,
    decreases a.len(),
{
    if a.len() > 0 && b.len() > 0 && a[0] == b[0] {
        lemma_bytes_lt_total(a.skip(1), b.skip(1));
        if a.skip(1) == b.skip(1) {
            assert(a =~= seq![a[0]] + a.skip(1));
        }
    }
}

/// No name is before itself.
pub proof fn lemma_name_lt_irreflexive(a: Name)
    ensures
        !name_lt(a, a),
{
    lemma_bytes_lt_irreflexive(encode_utf8(a));
}

/// The order on names is transitive.
pub proof fn lemma_name_lt_transitive(a: Name, b: Name, c: Name)
    requires
        name_lt(a, b),
        name_lt(b, c),
    ensures
        name_lt(a, c),
{
    lemma_bytes_lt_transitive(encode_utf8(a), encode_utf8(b), encode_utf8(c));
}

/// Two different names are ordered one way or the other.
pub proof fn lemma_name_lt_total(a: Name, b: Name)
    ensures
        name_lt(a, b) || name_lt(b, a) || a == b,
{
    lemma_bytes_lt_total(encode_utf8(a), encode_utf8(b));
    if encode_utf8(a) == encode_utf8(b) {
        encode_utf8_decode_utf8(a);
        encode_utf8_decode_utf8(b);
    }
}

/// The order on pairs of names: by the first name, then by the second.
pub open spec fn pair_lt(a: NamePair, b: NamePair) -> bool {
    name_lt(a.0, b.0) || (a.0 == b.0 && name_lt(a.1, b.1))
}

/// No pair is before itself.
pub proof fn lemma_pair_lt_irreflexive(a: NamePair)
    ensures
        !pair_lt(a, a),
{
    lemma_name_lt_irreflexive(a.0);
    lemma_name_lt_irreflexive(a.1);
}

/// The order on pairs is transitive.
pub proof fn lemma_pair_lt_transitive(a: NamePair, b: NamePair, c: NamePair)
    requires
        pair_lt(a, b),
        pair_lt(b, c),
    ensures
        pair_lt(a, c),
{
    lemma_name_lt_irreflexive(a.0);
    if name_lt(a.0, b.0) && name_lt(b.0, c.0) {
        lemma_name_lt_transitive(a.0, b.0, c.0);
    }
    if a.0 == b.0 && b.0 == c.0 {
        lemma_name_lt_transitive(a.1, b.1, c.1);
    }
}

/// Two different pairs are ordered one way or the other.
pub proof fn lemma_pair_lt_total(a: NamePair, b: NamePair)
    ensures
        pair_lt(a, b) || pair_lt(b, a) || a == b,
{
    lemma_name_lt_total(a.0, b.0);
    lemma_name_lt_total(a.1, b.1);
}

/// Every pair of `keys` is strictly before all that follow it. Such a
/// sequence holds nothing twice.
pub open spec fn ascending(keys: Seq<NamePair>) -> bool {
    forall|i: int, j: int|
        0 <= i < j < keys.len() ==> pair_lt(#[trigger] keys[i], #[trigger] keys[j])
}

/// Every name of `s` is strictly before all that follow it.
pub open spec fn names_ascending(s: Seq<Name>) -> bool {
    forall|i: int, j: int| 0 <= i < j < s.len() ==> name_lt(#[trigger] s[i], #[trigger] s[j])
}

/// An ascending sequence holds nothing twice.
pub proof fn lemma_ascending_no_duplicates(keys: Seq<NamePair>)
    requires
        ascending(keys),
    ensures
        keys.no_duplicates(),
{
    assert forall|i: int, j: int|
        0 <= i < keys.len() && 0 <= j < keys.len() && i != j implies keys[i] != keys[j] by {
        lemma_pair_lt_irreflexive(keys[i]);
    }
}

/// An ascending sequence of names holds no name twice.
pub proof fn lemma_names_ascending_no_duplicates(s: Seq<Name>)
    requires
        names_ascending(s),
    ensures
        s.no_duplicates(),
{
    assert forall|i: int, j: int|
        0 <= i < s.len() && 0 <= j < s.len() && i != j implies s[i] != s[j] by {
        lemma_name_lt_irreflexive(s[i]);
    }
}

/// An ascending sequence is determined by the set of its elements.
pub proof fn lemma_ascending_unique(a: Seq<NamePair>, b: Seq<NamePair>)
    requires
        ascending(a),
        ascending(b),
        a.to_set() == b.to_set(),
    ensures
        a == b,
    decreases a.len(),
{
    if a.len() == 0 {
        if b.len() > 0 {
            assert(b.to_set().contains(b[0]));
        }
    } else if b.len() == 0 {
        assert(a.to_set().contains(a[0]));
    } else {
        // The two greatest elements agree.
        let x = a.last();
        let y = b.last();
        assert(a.to_set().contains(x));
        assert(b.to_set().contains(y));
        let i = choose|i: int| 0 <= i < b.len() && b[i] == x;
        let j = choose|j: int| 0 <= j < a.len() && a[j] == y;
        lemma_pair_lt_irreflexive(x);
        if i < b.len() - 1 && j < a.len() - 1 {
            lemma_pair_lt_transitive(x, y, x);
        }
        let a0 = a.drop_last();
        let b0 = b.drop_last();
        assert forall|k: NamePair| a0.to_set().contains(k) <==> b0.to_set().contains(k) by {
            if a0.to_set().contains(k) {
                assert(a.to_set().contains(k));
                let q = choose|q: int| 0 <= q < b.len() && b[q] == k;
                assert(b0[q] == k);
            }
            if b0.to_set().contains(k) {
                assert(b.to_set().contains(k));
                let q = choose|q: int| 0 <= q < a.len() && a[q] == k;
                assert(a0[q] == k);
            }
        }
        assert(a0.to_set() =~= b0.to_set());
        lemma_ascending_unique(a0, b0);
        assert(a =~= a0.push(x));
    }
}

/// An ascending sequence of names is determined by the set of its names.
pub proof fn lemma_names_ascending_unique(a: Seq<Name>, b: Seq<Name>)
    requires
        names_ascending(a),
        names_ascending(b),
        a.to_set() == b.to_set(),
    ensures
        a == b,
{
    let nothing = Seq::<char>::empty();
    let pa = Seq::new(a.len(), |i: int| (a[i], nothing));
    let pb = Seq::new(b.len(), |i: int| (b[i], nothing));
    assert forall|k: NamePair| pa.to_set().contains(k) <==> pb.to_set().contains(k) by {
        if pa.to_set().contains(k) {
            let i = choose|i: int| 0 <= i < pa.len() && pa[i] == k;
            assert(a.to_set().contains(a[i]));
            let j = choose|j: int| 0 <= j < b.len() && b[j] == a[i];
            assert(pb[j] == k);
        }
        if pb.to_set().contains(k) {
            let i = choose|i: int| 0 <= i < pb.len() && pb[i] == k;
            assert(b.to_set().contains(b[i]));
            let j = choose|j: int| 0 <= j < a.len() && a[j] == b[i];
            assert(pa[j] == k);
        }
    }
    assert(pa.to_set() =~= pb.to_set());
    lemma_ascending_unique(pa, pb);
    assert forall|i: int| 0 <= i < a.len() implies a[i] == b[i] by {
        assert(pa[i] == pb[i]);
    }
}

/// Whether `a` and `b` are the same name.
pub fn str_eq(a: &str, b: &str) -> (r: bool)
    ensures
        r == (a@ == b@),
{
    let x = a.as_bytes();
    let y = b.as_bytes();
    proof {
        encode_utf8_decode_utf8(a@);
        encode_utf8_decode_utf8(b@);
    }
    if x.len() != y.len() {
        return false;
    }
    let n = x.len();
    let mut i: usize = 0;
    while i < n
        invariant
            n == x@.len(),
            n == y@.len(),
            i <= n,
            x@ == encode_utf8(a@),
            y@ == encode_utf8(b@),
            forall|j: int| 0 <= j < i ==> x@[j] == y@[j],
        decreases n - i,
    {
        if x[i] != y[i] {
            return false;
        }
        i += 1;
    }
    assert(x@ =~= y@);
    true
}

/// Whether `a` comes strictly before `b`.
pub fn str_lt(a: &str, b: &str) -> (r: bool)
    ensures
        r == name_lt(a@, b@),
{
    let x = a.as_bytes();
    let y = b.as_bytes();
    let n = x.len();
    let m = y.len();
    let mut i: usize = 0;
    assert(x@.skip(0) =~= x@ && y@.skip(0) =~= y@);
    while i < n && i < m
        invariant
            n == x@.len(),
            m == y@.len(),
            i <= n,
            i <= m,
            x@ == encode_utf8(a@),
            y@ == encode_utf8(b@),
            bytes_lt(x@, y@) == bytes_lt(x@.skip(i as int), y@.skip(i as int)),
        decreases n - i,
    {
        let p = x[i];
        let q = y[i];
        proof {
            let xs = x@.skip(i as int);
            let ys = y@.skip(i as int);
            assert(xs.skip(1) =~= x@.skip(i + 1));
            assert(ys.skip(1) =~= y@.skip(i + 1));
        }
        if p != q {
            return p < q;
        }
        i += 1;
    }
    i < m
}

/// What a list of items is kept in order by.
pub trait SortKey {
    /// The pair of names that an item is ordered by.
    spec fn sort_key(&self) -> NamePair;

    /// Whether this item's key is strictly before that of `other`.
    fn key_lt(&self, other: &Self) -> (r: bool)
        ensures
            r == pair_lt(self.sort_key(), other.sort_key()),
    ;
}

impl SortKey for String {
    /// A name is ordered by itself.
    open spec fn sort_key(&self) -> NamePair {
        (self@, Seq::empty())
    }

    fn key_lt(&self, other: &Self) -> (r: bool) {
        str_lt(self.as_str(), other.as_str())
    }
}

/// The keys of `items`, in order.
pub open spec fn keys_of<T: SortKey>(items: Seq<T>) -> Seq<NamePair> {
    Seq::new(items.len(), |i: int| items[i].sort_key())
}

/// Puts `x` into the ascending list `v` at its place, unless an item with
/// the same key is there already. Says whether `x` was put in.
pub fn insert_sorted<T: SortKey>(v: &mut Vec<T>, x: T) -> (added: bool)
    requires
        ascending(keys_of(old(v)@)),
    ensures
        ascending(keys_of(final(v)@)),
        added == !keys_of(old(v)@).contains(x.sort_key()),
        !added ==> final(v)@ == old(v)@,
        added ==> exists|p: int|
            0 <= p <= old(v)@.len() && final(v)@ == #[trigger] old(v)@.insert(p, x),
        keys_of(final(v)@).to_set() == keys_of(old(v)@).to_set().insert(x.sort_key()),
{
    let ghost before = v@;
    let ghost k = x.sort_key();
    let n = v.len();
    let mut p: usize = 0;
    let mut end: usize = n;
    while p < end
        invariant
            n == v@.len(),
            v@ == before,
            p <= end <= n,
            k == x.sort_key(),
            ascending(keys_of(before)),
            forall|j: int| 0 <= j < p ==> pair_lt(#[trigger] keys_of(before)[j], k),
            forall|j: int| end <= j < n ==> !pair_lt(#[trigger] keys_of(before)[j], k),
        decreases end - p,
    {
        let mid = p + (end - p) / 2;
        let ghost at = keys_of(before)[mid as int];
        if v[mid].key_lt(&x) {
            assert forall|j: int| 0 <= j < mid + 1 implies pair_lt(
                #[trigger] keys_of(before)[j],
                k,
            ) by {
                if j < mid {
                    lemma_pair_lt_transitive(keys_of(before)[j], at, k);
                }
            }
            p = mid + 1;
        } else {
            assert forall|j: int| mid <= j < n implies !pair_lt(
                #[trigger] keys_of(before)[j],
                k,
            ) by {
                if j > mid && pair_lt(keys_of(before)[j], k) {
                    lemma_pair_lt_transitive(at, keys_of(before)[j], k);
                }
            }
            end = mid;
        }
    }
    proof {
        assert forall|j: int| 0 <= j < p implies keys_of(before)[j] != k by {
            lemma_pair_lt_irreflexive(k);
        }
    }
    if p < n && !x.key_lt(&v[p]) {
        proof {
            let kp = keys_of(before)[p as int];
            lemma_pair_lt_total(kp, k);
        }
        return false;
    }
    proof {
        assert forall|j: int| p <= j < n implies pair_lt(k, #[trigger] keys_of(before)[j]) by {
            let kp = keys_of(before)[p as int];
            if j > p {
                lemma_pair_lt_transitive(k, kp, keys_of(before)[j]);
            }
        }
    }
    v.insert(p, x);
    proof {
        let after = keys_of(v@);
        assert(after =~= keys_of(before).insert(p as int, k));
        assert forall|e: NamePair| after.to_set().contains(e) <==> keys_of(
            before,
        ).to_set().insert(k).contains(e) by {
            if keys_of(before).to_set().contains(e) {
                let i = choose|i: int| 0 <= i < keys_of(before).len() && keys_of(before)[i] == e;
                if i < p {
                    assert(after[i] == e);
                } else {
                    assert(after[i + 1] == e);
                }
            }
            if e == k {
                assert(after[p as int] == e);
            }
        }
    }
    true
}

} // verus!
