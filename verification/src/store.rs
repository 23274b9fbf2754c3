//! The shared store: a mapping from key to value, mutated one whole operation
//! at a time. A `get` never blocks on anything but a concurrent mutation, and
//! no caller ever observes a partially applied write; the holder of the store
//! serializes access (one critical section per operation) and passes each
//! operation through whole.

use vstd::prelude::*;

verus! {

use crate::bytes::{bytes_eq, copy_bytes};

/// The in-memory keyspace. Its view is the mapping it holds: at most one
/// value per key, writes are total replacements.
pub struct Store {
    entries: Vec<(Vec<u8>, Vec<u8>)>,
}

/// The mapping a run of entries denotes; a later entry for the same key wins.
pub open spec fn entries_map(s: Seq<(Vec<u8>, Vec<u8>)>) -> Map<Seq<u8>, Seq<u8>>
    decreases s,
{
    if s.len() == 0 {
        Map::empty()
    } else {
        entries_map(s.drop_last()).insert(s.last().0@, s.last().1@)
    }
}

/// No two entries share a key.
pub open spec fn distinct_keys(s: Seq<(Vec<u8>, Vec<u8>)>) -> bool {
    forall|i: int, j: int| 0 <= i < j < s.len() ==> #[trigger] s[i].0@ != #[trigger] s[j].0@
}

impl View for Store {
    type V = Map<Seq<u8>, Seq<u8>>;

    closed spec fn view(&self) -> Map<Seq<u8>, Seq<u8>> {
        entries_map(self.entries@)
    }
}

proof fn lemma_entries_absent(s: Seq<(Vec<u8>, Vec<u8>)>, k: Seq<u8>)
    requires
        forall|i: int| 0 <= i < s.len() ==> #[trigger] s[i].0@ != k,
    ensures
        !entries_map(s).contains_key(k),
    decreases s,
{
    if s.len() > 0 {
        lemma_entries_absent(s.drop_last(), k);
    }
}

proof fn lemma_entries_found(s: Seq<(Vec<u8>, Vec<u8>)>, i: int)
    requires
        distinct_keys(s),
        0 <= i < s.len(),
    ensures
        entries_map(s).contains_key(s[i].0@),
        entries_map(s)[s[i].0@] == s[i].1@,
    decreases s,
{
    if i < s.len() - 1 {
        assert(distinct_keys(s.drop_last()));
        lemma_entries_found(s.drop_last(), i);
        assert(s.last().0@ != s[i].0@);
    }
}

proof fn lemma_entries_remove(s: Seq<(Vec<u8>, Vec<u8>)>, i: int)
    requires
        distinct_keys(s),
        0 <= i < s.len(),
    ensures
        entries_map(s.remove(i)) == entries_map(s).remove(s[i].0@),
    decreases s,
{
    let k = s[i].0@;
    if i == s.len() - 1 {
        assert(s.remove(i) =~= s.drop_last());
        lemma_entries_absent_of_distinct(s);
        assert(!entries_map(s.drop_last()).contains_key(k));
        assert(entries_map(s.drop_last()).insert(k, s.last().1@).remove(k) =~= entries_map(
            s.drop_last(),
        ));
    } else {
        assert(distinct_keys(s.drop_last()));
        lemma_entries_remove(s.drop_last(), i);
        assert(s.remove(i).drop_last() =~= s.drop_last().remove(i));
        assert(s.remove(i).last() == s.last());
        assert(s.drop_last()[i] == s[i]);
        assert(s.last().0@ != k);
        assert(entries_map(s.drop_last()).remove(k).insert(s.last().0@, s.last().1@)
            =~= entries_map(s.drop_last()).insert(s.last().0@, s.last().1@).remove(k));
    }
}

/// In a run with distinct keys, the last key appears nowhere earlier.
proof fn lemma_entries_absent_of_distinct(s: Seq<(Vec<u8>, Vec<u8>)>)
    requires
        distinct_keys(s),
        s.len() > 0,
    ensures
        !entries_map(s.drop_last()).contains_key(s.last().0@),
{
    assert(forall|j: int| 0 <= j < s.len() - 1 ==> #[trigger] s.drop_last()[j].0@
        != s.last().0@);
    lemma_entries_absent(s.drop_last(), s.last().0@);
}

impl Store {
    /// Well-formedness: the constructor establishes it and every operation
    /// preserves it; each operation asks for it in turn.
    pub closed spec fn wf(&self) -> bool {
        distinct_keys(self.entries@)
    }

    /// An empty store.
    pub fn new() -> (s: Store)
        ensures
            s.wf(),
            s@ == Map::<Seq<u8>, Seq<u8>>::empty(),
    {
        let s = Store { entries: Vec::new() };
        proof {
            assert(s@ =~= Map::<Seq<u8>, Seq<u8>>::empty());
        }
        s
    }

    /// The current value bound to `key`, or none if the key is absent.
    pub fn get(&self, key: &Vec<u8>) -> (r: Option<Vec<u8>>)
        requires
            self.wf(),
        ensures
            match r {
                Some(v) => self@.contains_key(key@) && v@ == self@[key@],
                None => !self@.contains_key(key@),
            },
    {
        let n = self.entries.len();
        let mut i: usize = 0;
        while i < n
            invariant
                i <= n,
                n == self.entries@.len(),
                distinct_keys(self.entries@),
                forall|j: int| 0 <= j < i ==> #[trigger] self.entries@[j].0@ != key@,
            decreases n - i,
        {
            if bytes_eq(&self.entries[i].0, key) {
                proof {
                    lemma_entries_found(self.entries@, i as int);
                }
                return Some(copy_bytes(&self.entries[i].1));
            }
            i = i + 1;
        }
        proof {
            lemma_entries_absent(self.entries@, key@);
        }
        None
    }

    /// Binds `key` to `value`, inserting or replacing: every later `get` of
    /// this key, from any connection, sees this value until the next write.
    pub fn set(&mut self, key: Vec<u8>, value: Vec<u8>)
        requires
            old(self).wf(),
        ensures
            final(self).wf(),
            final(self)@ == old(self)@.insert(key@, value@),
    {
        let ghost s0 = self.entries@;
        let n = self.entries.len();
        let mut i: usize = 0;
        while i < n
            invariant
                i <= n,
                n == self.entries@.len(),
                self.entries@ == s0,
                old(self).entries@ == s0,
                distinct_keys(s0),
                forall|j: int| 0 <= j < i ==> #[trigger] s0[j].0@ != key@,
            decreases n - i,
        {
            if bytes_eq(&self.entries[i].0, &key) {
                proof {
                    lemma_entries_remove(s0, i as int);
                }
                let _ = self.entries.remove(i);
                proof {
                    assert(forall|a: int, b: int|
                        0 <= a < b < s0.remove(i as int).len() ==> #[trigger] s0.remove(
                            i as int,
                        )[a].0@ != #[trigger] s0.remove(i as int)[b].0@);
                    assert(forall|j: int| 0 <= j < s0.remove(i as int).len()
                        ==> #[trigger] s0.remove(i as int)[j].0@ != key@);
                }
                self.entries.push((key, value));
                proof {
                    let t = s0.remove(i as int);
                    assert(t.push((key, value)).drop_last() =~= t);
                    assert(entries_map(t.push((key, value))) == entries_map(t).insert(
                        key@,
                        value@,
                    ));
                    assert(entries_map(s0).remove(key@).insert(key@, value@) =~= entries_map(
                        s0,
                    ).insert(key@, value@));
                    assert(distinct_keys(t.push((key, value))));
                }
                return ;
            }
            i = i + 1;
        }
        self.entries.push((key, value));
        proof {
            assert(s0.push((key, value)).drop_last() =~= s0);
            assert(distinct_keys(s0.push((key, value))));
        }
    }
}

} // verus!
