//! A table of names in insertion order that finds, for a name, the last
//! position where it was inserted.
use vstd::prelude::*;

use std::collections::HashMap;

use crate::text::chars_of;

verus! {

broadcast use vstd::std_specs::hash::group_hash_axioms;

/// The modulus of the bucket hash.
pub const HASH_MODULUS: u64 = 1_000_000_007;

/// A polynomial hash of the characters of `s`, reduced modulo
/// `HASH_MODULUS`; names with different hashes differ.
pub open spec fn name_hash(s: Seq<char>) -> int
    decreases s.len(),
{
    if s.len() == 0 {
        0
    } else {
        (name_hash(s.drop_last()) * 31 + (s.last() as u32) as int) % (HASH_MODULUS as int)
    }
}

/// The last position of `name` in `names`, if it occurs.
pub open spec fn last_index_of(names: Seq<Seq<char>>, name: Seq<char>) -> Option<int>
    decreases names.len(),
{
    if names.len() == 0 {
        None
    } else if names.last() == name {
        Some(names.len() - 1)
    } else {
        last_index_of(names.drop_last(), name)
    }
}

/// `last_index_of` finds the last occurrence, and nothing where there is
/// none.
pub proof fn lemma_last_index_of(names: Seq<Seq<char>>, name: Seq<char>)
    ensures
        match last_index_of(names, name) {
            Some(i) => 0 <= i < names.len() && names[i] == name && forall|k: int|
                i < k < names.len() ==> names[k] != name,
            None => forall|k: int| 0 <= k < names.len() ==> names[k] != name,
        },
    decreases names.len(),
{
    if names.len() > 0 {
        let init = names.drop_last();
        lemma_last_index_of(init, name);
        assert forall|k: int| 0 <= k < init.len() implies names[k] == init[k] by {}
    }
}

/// After adding a name, looking it up finds the new position, and looking
/// up any other name finds what it found before.
pub proof fn lemma_lookup_after_push(names: Seq<Seq<char>>, x: Seq<char>, y: Seq<char>)
    ensures
        last_index_of(names.push(x), x) == Some(names.len() as int),
        y != x ==> last_index_of(names.push(y), x) == last_index_of(names, x),
{
    assert(names.push(x).drop_last() =~= names);
    assert(names.push(y).drop_last() =~= names);
}

fn hash_of(s: &str) -> (h: u64)
    ensures
        h == name_hash(s@),
{
    let cs = chars_of(s);
    let mut h: u64 = 0;
    let mut i: usize = 0;
    while i < cs.len()
        invariant
            i <= cs@.len(),
            cs@ == s@,
            h == name_hash(cs@.take(i as int)),
            h < HASH_MODULUS,
        decreases cs@.len() - i,
    {
        let ghost pre = cs@.take(i + 1);
        assert(pre.drop_last() =~= cs@.take(i as int));
        let c = cs[i];
        assert(pre.last() == c);
        let cv = c as u32 as u64;
        h = (h * 31 + cv) % HASH_MODULUS;
        i = i + 1;
    }
    assert(cs@.take(i as int) =~= s@);
    h
}

/// Names in the order they were added, with buckets of positions by hash.
pub struct NameIndex {
    names: Vec<String>,
    buckets: HashMap<u64, Vec<usize>>,
}

impl View for NameIndex {
    type V = Seq<Seq<char>>;

    closed spec fn view(&self) -> Seq<Seq<char>> {
        self.names@.map_values(|s: String| s@)
    }
}

impl NameIndex {
    /// Each bucket lists, in increasing order, exactly the positions whose
    /// names have its hash.
    pub closed spec fn wf(&self) -> bool {
        &&& forall|k: u64, j: int|
            #![trigger self.buckets@[k]@[j]]
            self.buckets@.contains_key(k) && 0 <= j < self.buckets@[k]@.len() ==> {
                let i = self.buckets@[k]@[j];
                &&& i < self.names@.len()
                &&& name_hash(self.names@[i as int]@) == k
            }
        &&& forall|k: u64, a: int, b: int|
            #![trigger self.buckets@[k]@[a], self.buckets@[k]@[b]]
            self.buckets@.contains_key(k) && 0 <= a < b < self.buckets@[k]@.len()
                ==> self.buckets@[k]@[a] < self.buckets@[k]@[b]
        &&& forall|i: int|
            0 <= i < self.names@.len() ==> {
                let k = name_hash(#[trigger] self.names@[i]@) as u64;
                &&& self.buckets@.contains_key(k)
                &&& exists|j: int|
                    0 <= j < self.buckets@[k]@.len() && #[trigger] self.buckets@[k]@[j] == i
            }
    }

    /// An empty table.
    pub fn new() -> (t: NameIndex)
        ensures
            t.wf(),
            t@ == Seq::<Seq<char>>::empty(),
    {
        let t = NameIndex { names: Vec::new(), buckets: HashMap::new() };
        assert(t@ =~= Seq::<Seq<char>>::empty());
        t
    }

    /// The number of names added.
    pub fn len(&self) -> (n: usize)
        ensures
            n == self@.len(),
    {
        self.names.len()
    }

    /// The name at position `i`.
    pub fn name(&self, i: usize) -> (s: &String)
        requires
            i < self@.len(),
        ensures
            s@ == self@[i as int],
    {
        &self.names[i]
    }

    /// Adds `name` after the names already there.
    pub fn push(&mut self, name: String)
        requires
            old(self).wf(),
            old(self)@.len() < usize::MAX,
        ensures
            final(self).wf(),
            final(self)@ == old(self)@.push(name@),
    {
        let i = self.names.len();
        let h = hash_of(name.as_str());
        let mut bucket = match self.buckets.remove(&h) {
            Some(b) => b,
            None => Vec::new(),
        };
        let ghost old_bucket = bucket@;
        bucket.push(i);
        self.buckets.insert(h, bucket);
        self.names.push(name);
        proof {
            let names = self.names@;
            let buckets = self.buckets@;
            let ob = old(self).buckets@;
            assert(names[i as int] == name);
            assert(old_bucket == (if ob.contains_key(h) {
                ob[h]@
            } else {
                Seq::<usize>::empty()
            }));
            assert(buckets[h]@ == old_bucket.push(i));
            assert forall|k: u64| k != h implies #[trigger] buckets.contains_key(k) == ob.contains_key(k)
                && (ob.contains_key(k) ==> buckets[k] == ob[k]) by {}
            assert forall|x: int| 0 <= x < i implies #[trigger] names[x] == old(self).names@[x] by {}
            assert forall|k: u64, j: int|
                #![trigger buckets[k]@[j]]
                buckets.contains_key(k) && 0 <= j < buckets[k]@.len() implies buckets[k]@[j]
                < names.len() && name_hash(names[buckets[k]@[j] as int]@) == k by {
                if k == h && j + 1 < buckets[k]@.len() {
                    assert(buckets[k]@[j] == old_bucket[j]);
                }
            }
            assert forall|k: u64, a: int, b: int|
                #![trigger buckets[k]@[a], buckets[k]@[b]]
                buckets.contains_key(k) && 0 <= a < b < buckets[k]@.len() implies buckets[k]@[a]
                < buckets[k]@[b] by {
                if k == h && b + 1 == buckets[k]@.len() {
                    assert(buckets[k]@[a] == old_bucket[a]);
                }
            }
            assert forall|x: int| 0 <= x < names.len() implies {
                let k = name_hash(#[trigger] names[x]@) as u64;
                &&& buckets.contains_key(k)
                &&& exists|j: int| 0 <= j < buckets[k]@.len() && #[trigger] buckets[k]@[j] == x
            } by {
                let k = name_hash(names[x]@) as u64;
                if x == i {
                    assert(buckets[k]@[old_bucket.len() as int] == x);
                } else {
                    let j = choose|j: int|
                        0 <= j < old(self).buckets@[k]@.len() && #[trigger] old(
                            self,
                        ).buckets@[k]@[j] == x;
                    if k == h {
                        assert(buckets[k]@[j] == x);
                    } else {
                        assert(buckets[k]@[j] == x);
                    }
                }
            }
            assert(self@ =~= old(self)@.push(name@));
            assert(self.wf());
        }
    }

    /// The last position at which `name` was added.
    pub fn lookup(&self, name: &String) -> (r: Option<usize>)
        requires
            self.wf(),
        ensures
            r matches Some(i) ==> last_index_of(self@, name@) == Some(i as int),
            r is None ==> last_index_of(self@, name@) is None,
    {
        proof {
            lemma_last_index_of(self@, name@);
        }
        let h = hash_of(name.as_str());
        match self.buckets.get(&h) {
            None => {
                assert forall|k: int| 0 <= k < self@.len() implies self@[k] != name@ by {
                    assert(self@[k] == self.names@[k]@);
                    if self@[k] == name@ {
                        assert(name_hash(self.names@[k]@) as u64 == h);
                    }
                }
                None
            },
            Some(b) => {
                let mut p = b.len();
                while p > 0
                    invariant
                        self.wf(),
                        self.buckets@.contains_key(h),
                        b@ == self.buckets@[h]@,
                        p <= b@.len(),
                        forall|q: int| p <= q < b@.len() ==> self@[b@[q] as int] != name@,
                    decreases p,
                {
                    p = p - 1;
                    let j = b[p];
                    assert(j < self.names@.len());
                    if self.names[j] == *name {
                        assert(self@[j as int] == self.names@[j as int]@);
                        assert forall|k: int| j < k < self@.len() implies self@[k] != name@ by {
                            if self@[k] == name@ {
                                assert(self@[k] == self.names@[k]@);
                                assert(name_hash(self.names@[k]@) as u64 == h);
                                let q = choose|q: int|
                                    0 <= q < b@.len() && #[trigger] self.buckets@[h]@[q] == k;
                                if q <= p {
                                    if q < p {
                                        assert(b@[q] < b@[p as int]);
                                    }
                                } else {
                                    assert(self@[b@[q] as int] != name@);
                                }
                            }
                        }
                        let ghost r = last_index_of(self@, name@);
                        proof {
                            lemma_last_index_of(self@, name@);
                            if r is None {
                                assert(self@[j as int] != name@);
                            } else {
                                let i = r->0;
                                if i < j {
                                } else if i > j {
                                    assert(self@[i] != name@);
                                }
                            }
                        }
                        return Some(j);
                    }
                    assert(self@[j as int] == self.names@[j as int]@);
                }
                assert forall|k: int| 0 <= k < self@.len() implies self@[k] != name@ by {
                    if self@[k] == name@ {
                        assert(self@[k] == self.names@[k]@);
                        assert(name_hash(self.names@[k]@) as u64 == h);
                        let q = choose|q: int|
                            0 <= q < b@.len() && #[trigger] self.buckets@[h]@[q] == k;
                        assert(self@[b@[q] as int] != name@);
                    }
                }
                None
            },
        }
    }
}

} // verus!
