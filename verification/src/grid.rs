use std::collections::BTreeMap;
use vstd::prelude::*;
use vstd::std_specs::cmp::OrdSpec;
use vstd::std_specs::iter::IteratorSpec;

verus! {

broadcast use {vstd::laws_cmp::group_laws_cmp, vstd::std_specs::btree::group_btree_axioms};

/// Whether cell `a` comes before cell `b`: by `u`, then by `v`
pub open spec fn cell_lt(a: (i32, i32), b: (i32, i32)) -> bool {
    a.0 < b.0 || (a.0 == b.0 && a.1 < b.1)
}

/// Whether the cells of `s` rise
pub open spec fn cells_rise(s: Seq<(i32, i32)>) -> bool {
    forall|i: int, j: int| 0 <= i < j < s.len() ==> cell_lt(s[i], s[j])
}

/// The cells of a set have one rising order: two rising sequences with the
/// same cells are the same sequence.
pub proof fn law_rising_cells_are_unique(a: Seq<(i32, i32)>, b: Seq<(i32, i32)>)
    requires
        cells_rise(a),
        cells_rise(b),
        a.to_set() == b.to_set(),
    ensures
        a == b,
    decreases a.len(),
{
    if a.len() == 0 {
        if b.len() > 0 {
            assert(b.to_set().contains(b[0]));
            assert(a.to_set().contains(b[0]));
        }
        assert(a =~= b);
    } else {
        let x = a.last();
        assert(a.to_set().contains(a[a.len() - 1]));
        assert(b.to_set().contains(x));
        let j = choose|j: int| 0 <= j < b.len() && b[j] == x;
        let y = b.last();
        assert(b.to_set().contains(b[b.len() - 1]));
        assert(a.to_set().contains(y));
        let i = choose|i: int| 0 <= i < a.len() && a[i] == y;
        if i < a.len() - 1 {
            assert(cell_lt(a[i], a[a.len() - 1]));
        }
        if j < b.len() - 1 {
            assert(cell_lt(b[j], b[b.len() - 1]));
        }
        assert(x == y);
        let a0 = a.drop_last();
        let b0 = b.drop_last();
        assert forall|c: (i32, i32)| a0.to_set().contains(c) <==> b0.to_set().contains(c) by {
            if a0.to_set().contains(c) {
                let k = choose|k: int| 0 <= k < a0.len() && a0[k] == c;
                assert(a[k] == c);
                assert(cell_lt(a[k], a[a.len() - 1]));
                assert(a.to_set().contains(c));
                assert(b.to_set().contains(c));
                let m = choose|m: int| 0 <= m < b.len() && b[m] == c;
                assert(m < b.len() - 1);
                assert(b0[m] == c);
            }
            if b0.to_set().contains(c) {
                let k = choose|k: int| 0 <= k < b0.len() && b0[k] == c;
                assert(b[k] == c);
                assert(cell_lt(b[k], b[b.len() - 1]));
                assert(b.to_set().contains(c));
                assert(a.to_set().contains(c));
                let m = choose|m: int| 0 <= m < a.len() && a[m] == c;
                assert(m < a.len() - 1);
                assert(a0[m] == c);
            }
        }
        assert(a0.to_set() =~= b0.to_set());
        assert forall|p: int, q: int| 0 <= p < q < a0.len() implies cell_lt(a0[p], a0[q]) by {
            assert(cell_lt(a[p], a[q]));
        }
        assert forall|p: int, q: int| 0 <= p < q < b0.len() implies cell_lt(b0[p], b0[q]) by {
            assert(cell_lt(b[p], b[q]));
        }
        law_rising_cells_are_unique(a0, b0);
        assert(a =~= a0.push(x));
        assert(b =~= b0.push(y));
    }
}

/// In a rising sequence an earlier item is less than a later one.
proof fn lemma_rising_pair<K: Ord>(s: Seq<K>, i: int, j: int)
    requires
        vstd::laws_cmp::obeys_cmp::<K>(),
        vstd::std_specs::btree::increasing_seq(s),
        0 <= i < j < s.len(),
    ensures
        s[i].cmp_spec(&s[j]) is Less,
{
    vstd::std_specs::btree::axiom_increasing_seq_meaning(s);
}

/// Keys that a map hands out in its order rise by `u`, then by `v`.
proof fn lemma_keys_rise(s: Seq<&(i32, i32)>)
    requires
        vstd::std_specs::btree::increasing_seq(s),
    ensures
        forall|i: int, j: int| 0 <= i < j < s.len() ==> cell_lt(*s[i], *s[j]),
{
    assert(vstd::laws_cmp::obeys_cmp::<i32>());
    assert(vstd::laws_cmp::obeys_cmp::<(i32, i32)>());
    assert(vstd::laws_cmp::obeys_cmp::<&(i32, i32)>());
    assert forall|i: int, j: int| 0 <= i < j < s.len() implies cell_lt(*s[i], *s[j]) by {
        lemma_rising_pair(s, i, j);
    }
}

/// `BTreeMap::pop_first` of std: takes out the entry with the least key.
/// Trusted: `None` for an empty map, which stays as it is; else the entry
/// that leaves is in the map, every other key of the map is greater by `u`,
/// then by `v`, as std orders pairs, and the rest of the map stays.
#[verifier::external_body]
fn pop_first<T>(m: &mut BTreeMap<(i32, i32), T>) -> (r: Option<((i32, i32), T)>)
    ensures
        match r {
            Some((k, t)) => {
                &&& old(m)@.contains_key(k)
                &&& old(m)@[k] == t
                &&& final(m)@ == old(m)@.remove(k)
                &&& forall|o: (i32, i32)| old(m)@.contains_key(o) && o != k ==> cell_lt(k, o)
            },
            None => old(m)@.dom() =~= Set::<(i32, i32)>::empty() && final(m)@ == old(m)@,
        },
{
    m.pop_first()
}

/// `BTreeMap::get_mut` of std: a mutable reference to the value of a key.
/// Trusted: `None` where the map lacks the key, and the map stays as it is;
/// else the reference holds the value of the key, and the map ends as it was
/// but for that value, which is what the reference ends with.
#[verifier::external_body]
fn find_mut<T>(m: &mut BTreeMap<(i32, i32), T>, k: (i32, i32)) -> (r: Option<&mut T>)
    ensures
        match r {
            Some(t) => old(m)@.contains_key(k) && *t == old(m)@[k] && final(m)@ == old(m)@.insert(
                k,
                *final(t),
            ),
            None => !old(m)@.contains_key(k) && final(m)@ == old(m)@,
        },
{
    m.get_mut(&k)
}

/// A 2D grid of (u, v) -> T
#[derive(Debug)]
pub struct Grid2<T>(BTreeMap<(i32, i32), T>);

impl<T> View for Grid2<T> {
    type V = Map<(i32, i32), T>;

    closed spec fn view(&self) -> Map<(i32, i32), T> {
        self.0@
    }
}

impl<T> Default for Grid2<T> {
    fn default() -> (r: Self)
        ensures
            r@ == Map::<(i32, i32), T>::empty(),
    {
        Self::new()
    }
}

impl<T> Grid2<T> {
    /// The grid without cells
    pub fn new() -> (r: Self)
        ensures
            r@ == Map::<(i32, i32), T>::empty(),
    {
        Grid2(BTreeMap::new())
    }

    /// The value at (u, v)
    pub fn get(&self, u: i32, v: i32) -> (r: Option<&T>)
        ensures
            match r {
                Some(t) => self@.contains_key((u, v)) && *t == self@[(u, v)],
                None => !self@.contains_key((u, v)),
            },
    {
        self.0.get(&(u, v))
    }

    /// Put value at (u, v)
    pub fn set(&mut self, u: i32, v: i32, value: T)
        ensures
            final(self)@ == old(self)@.insert((u, v), value),
    {
        self.0.insert((u, v), value);
    }

    /// The number of cells
    pub fn len(&self) -> (r: usize)
        ensures
            r == self@.len(),
            self@.dom().finite(),
    {
        self.0.len()
    }

    /// Whether the grid has no cell
    pub fn is_empty(&self) -> (r: bool)
        ensures
            r == self@.is_empty(),
    {
        self.0.is_empty()
    }

    /// Takes the cell (u, v) out of the grid and gives its value
    pub fn remove(&mut self, u: i32, v: i32) -> (r: Option<T>)
        ensures
            final(self)@ == old(self)@.remove((u, v)),
            match r {
                Some(t) => old(self)@.contains_key((u, v)) && t == old(self)@[(u, v)],
                None => !old(self)@.contains_key((u, v)),
            },
    {
        self.0.remove(&(u, v))
    }

    /// The value at (u, v), to be changed in place
    pub fn get_mut(&mut self, u: i32, v: i32) -> (r: Option<&mut T>)
        ensures
            match r {
                Some(t) => old(self)@.contains_key((u, v)) && *t == old(self)@[(u, v)] && final(self)@ == old(self)@.insert((u, v), *final(t)),
                None => !old(self)@.contains_key((u, v)) && final(self)@ == old(self)@,
            },
    {
        find_mut(&mut self.0, (u, v))
    }

    /// Takes the first cell out of the grid: the least by `u`, then by `v`
    pub fn remove_one(&mut self) -> (r: Option<(i32, i32, T)>)
        ensures
            match r {
                Some((u, v, t)) => {
                    &&& old(self)@.contains_key((u, v))
                    &&& old(self)@[(u, v)] == t
                    &&& final(self)@ == old(self)@.remove((u, v))
                    &&& forall|o: (i32, i32)|
                        old(self)@.contains_key(o) && o != (u, v) ==> cell_lt((u, v), o)
                },
                None => old(self)@.dom() =~= Set::<(i32, i32)>::empty() && final(self)@ == old(self)@,
            },
    {
        match pop_first(&mut self.0) {
            Some(((u, v), t)) => Some((u, v, t)),
            None => None,
        }
    }

    /// The cells of the grid, rising
    pub fn cells(&self) -> (r: Vec<(i32, i32)>)
        ensures
            cells_rise(r@),
            r@.to_set() == self@.dom(),
            r@.len() == self@.len(),
    {
        let mut out: Vec<(i32, i32)> = Vec::new();
        let ghost all = self.0.keys().remaining();
        for k in it: self.0.keys()
            invariant
                it.seq() == all,
                out@ == it.seq().take(it.index() as int).unref(),
        {
            out.push(*k);
        }
        proof {
            assert(out@ =~= all.unref());
            assert(vstd::std_specs::btree::increasing_seq(all));
            lemma_keys_rise(all);
            assert forall|i: int, j: int| 0 <= i < j < out@.len() implies cell_lt(
                out@[i],
                out@[j],
            ) by {
                assert(out@[i] == *all[i]);
                assert(out@[j] == *all[j]);
            }
        }
        out
    }
}

/// An entry of a `VecMap`: a key with a value
pub trait VecMapEntry: Sized {
    type Key;

    type Value;

    /// The key of the entry
    spec fn spec_key(&self) -> Self::Key;

    /// The value of the entry
    spec fn spec_value(&self) -> Self::Value;

    /// Whether `value` is what a new entry holds
    spec fn fresh_value(value: Self::Value) -> bool;

    fn key(&self) -> (r: &Self::Key)
        ensures
            *r == self.spec_key(),
    ;

    /// Whether the entry has the key `k`
    fn has_key(&self, k: &Self::Key) -> (r: bool)
        ensures
            r == (self.spec_key() == *k),
    ;

    fn value_mut(&mut self) -> (r: &mut Self::Value)
        ensures
            *r == old(self).spec_value(),
            final(self).spec_key() == old(self).spec_key(),
            final(self).spec_value() == *final(r),
    ;

    fn new(key: &Self::Key) -> (r: Self)
        ensures
            r.spec_key() == *key,
            Self::fresh_value(r.spec_value()),
    ;
}

/// A map that keeps its entries in the order in which their keys first came
#[derive(Debug)]
pub struct VecMap<E: VecMapEntry>(Vec<E>);

/// The index of the first entry of `s` with the key `k`, or the length of `s`
pub open spec fn position<E: VecMapEntry>(s: Seq<E>, k: E::Key) -> int
    decreases s.len(),
{
    if s.len() == 0 {
        0
    } else if s[0].spec_key() == k {
        0
    } else {
        1 + position(s.drop_first(), k)
    }
}

/// No two entries of `s` have the same key
pub open spec fn keys_differ<E: VecMapEntry>(s: Seq<E>) -> bool {
    forall|i: int, j: int| 0 <= i < j < s.len() ==> s[i].spec_key() != s[j].spec_key()
}

impl<E: VecMapEntry> View for VecMap<E> {
    type V = Seq<E>;

    closed spec fn view(&self) -> Seq<E> {
        self.0@
    }
}

impl<E: VecMapEntry> Default for VecMap<E> {
    fn default() -> (r: Self)
        ensures
            r@ == Seq::<E>::empty(),
    {
        Self::new()
    }
}

impl<E: VecMapEntry> VecMap<E> {
    /// The map without entries
    pub fn new() -> (r: Self)
        ensures
            r@ == Seq::<E>::empty(),
    {
        VecMap(Vec::new())
    }

    /// The value of the key `k`; where no entry has the key, a new entry for
    /// it is added at the end first
    pub fn get_mut(&mut self, k: &E::Key) -> (r: &mut E::Value)
        ensures
            ({
                let i = position(old(self)@, *k);
                &&& i < old(self)@.len() ==> *r == old(self)@[i].spec_value() && final(self)@.len()
                    == old(self)@.len()
                &&& i >= old(self)@.len() ==> E::fresh_value(*r) && final(self)@.len() == old(self)@.len() + 1
                &&& final(self)@[i].spec_key() == *k
                &&& final(self)@[i].spec_value() == *final(r)
                &&& forall|j: int|
                    0 <= j < old(self)@.len() && j != i ==> final(self)@[j] == old(self)@[j]
            }),
    {
        let n = self.0.len();
        let mut index: usize = 0;
        let mut found = false;
        assert(self.0@.skip(0) =~= self.0@);
        while index < n && !found
            invariant
                n == self.0@.len(),
                index <= n,
                found ==> index < n && self.0@[index as int].spec_key() == *k,
                position(self.0@, *k) == index + position(self.0@.skip(index as int), *k),
            decreases n - index + if found { 0int } else { 1int },
        {
            if self.0[index].has_key(k) {
                found = true;
            } else {
                proof {
                    let rest = self.0@.skip(index as int);
                    assert(rest[0] == self.0@[index as int]);
                    assert(rest.drop_first() =~= self.0@.skip(index as int + 1));
                }
                index += 1;
            }
        }
        if !found {
            proof {
                assert(self.0@.skip(n as int).len() == 0);
            }
            self.0.push(E::new(k));
        } else {
            proof {
                let rest = self.0@.skip(index as int);
                assert(rest[0] == self.0@[index as int]);
            }
        }
        self.0[index].value_mut()
    }

    /// The number of entries
    pub fn len(&self) -> (r: usize)
        ensures
            r == self@.len(),
    {
        self.0.len()
    }

    /// Whether the map has no entry
    pub fn is_empty(&self) -> (r: bool)
        ensures
            r <==> self@.len() == 0,
    {
        self.0.len() == 0
    }

    /// The entries, in the order in which their keys first came
    pub fn into_vec(self) -> (r: Vec<E>)
        ensures
            r@ == self@,
    {
        self.0
    }
}

} // verus!
