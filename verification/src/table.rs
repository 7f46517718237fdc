//! A per-layer evaluation table: a mapping from evaluation point to
//! evaluated value, with collisions on a key detected instead of
//! silently overwritten.

use vstd::prelude::*;

use crate::errors::FriError;

verus! {

/// A point-to-value table, stored as an association list with
/// pairwise-distinct keys, viewed as a `Map<int, int>`.
pub struct EvalTable {
    pub(crate) entries: Vec<(i64, i64)>,
}

/// The entries of an association list as a map; a later entry for the
/// same key would win, though well-formed tables never hold one.
pub open spec fn entries_map(s: Seq<(i64, i64)>) -> Map<int, int>
    decreases s.len(),
{
    if s.len() == 0 {
        Map::empty()
    } else {
        entries_map(s.drop_last()).insert(s.last().0 as int, s.last().1 as int)
    }
}

/// All keys of `s` are pairwise distinct.
pub open spec fn unique_keys(s: Seq<(i64, i64)>) -> bool {
    forall|i: int, j: int| 0 <= i < j < s.len() ==> (#[trigger] s[i]).0 != (#[trigger] s[j]).0
}

/// The table's domain is nonempty and every recorded value is the
/// same — the shape the terminal layer of a valid fold must have.
pub open spec fn terminal_unique(m: Map<int, int>) -> bool {
    &&& exists|k: int| m.contains_key(k)
    &&& forall|k1: int, k2: int|
        m.contains_key(k1) && m.contains_key(k2) ==> #[trigger] m[k1] == #[trigger] m[k2]
}

/// How an association list's map relates to its entries: every key of
/// an entry is in the domain, every domain element comes from an
/// entry, and with distinct keys each entry's value is the map's.
pub proof fn lemma_entries_map(s: Seq<(i64, i64)>)
    ensures
        forall|k: int|
            entries_map(s).contains_key(k) ==> exists|i: int|
                0 <= i < s.len() && (#[trigger] s[i]).0 as int == k,
        forall|i: int|
            0 <= i < s.len() ==> entries_map(s).contains_key((#[trigger] s[i]).0 as int),
        unique_keys(s) ==> forall|i: int|
            0 <= i < s.len() ==> entries_map(s)[(#[trigger] s[i]).0 as int] == s[i].1 as int,
    decreases s.len(),
{
    if s.len() > 0 {
        let prefix = s.drop_last();
        lemma_entries_map(prefix);
        assert(forall|i: int| 0 <= i < prefix.len() ==> prefix[i] == #[trigger] s[i]);
        assert forall|k: int| entries_map(s).contains_key(k) implies exists|i: int|
            0 <= i < s.len() && (#[trigger] s[i]).0 as int == k by {
            if k == s.last().0 as int {
                assert(0 <= s.len() - 1 < s.len() && s[s.len() - 1].0 as int == k);
            } else {
                let i = choose|i: int| 0 <= i < prefix.len() && (#[trigger] prefix[i]).0 as int
                    == k;
                assert(0 <= i < s.len() && s[i].0 as int == k);
            }
        }
        if unique_keys(s) {
            assert(unique_keys(prefix));
            assert forall|i: int| 0 <= i < s.len() implies entries_map(s)[(#[trigger] s[i]).0
                as int] == s[i].1 as int by {
                if i < s.len() - 1 {
                    assert(s[i].0 != s[s.len() - 1].0);
                }
            }
        }
    }
}

impl View for EvalTable {
    type V = Map<int, int>;

    closed spec fn view(&self) -> Map<int, int> {
        entries_map(self.entries@)
    }
}

impl EvalTable {
    /// The table's keys are pairwise distinct.
    pub closed spec fn wf(&self) -> bool {
        unique_keys(self.entries@)
    }

    /// An empty table.
    pub fn new() -> (r: EvalTable)
        ensures
            r.wf(),
            r@ == Map::<int, int>::empty(),
    {
        EvalTable { entries: Vec::new() }
    }

    /// Looks the point `key` up.
    pub fn get(&self, key: i64) -> (r: Option<i64>)
        requires
            self.wf(),
        ensures
            r is Some <==> self@.contains_key(key as int),
            r is Some ==> r->0 as int == self@[key as int],
    {
        proof {
            lemma_entries_map(self.entries@);
        }
        let n = self.entries.len();
        let mut i: usize = 0;
        while i < n
            invariant
                0 <= i <= n,
                n == self.entries@.len(),
                self.wf(),
                forall|k: int| 0 <= k < i ==> (#[trigger] self.entries@[k]).0 != key,
            decreases n - i,
        {
            if self.entries[i].0 == key {
                proof {
                    lemma_entries_map(self.entries@);
                }
                return Some(self.entries[i].1);
            }
            i = i + 1;
        }
        proof {
            lemma_entries_map(self.entries@);
            if self@.contains_key(key as int) {
                let j = choose|j: int|
                    0 <= j < self.entries@.len() && (#[trigger] self.entries@[j]).0 as int
                        == key as int;
                assert(self.entries@[j].0 == key);
            }
        }
        None
    }

    /// Binds `key` to `value`.  If the key is already bound to the
    /// same value the table is unchanged; if it is bound to a
    /// different value the insert is refused and the table is left as
    /// it was.
    pub fn insert(&mut self, key: i64, value: i64) -> (r: Result<(), FriError>)
        requires
            old(self).wf(),
        ensures
            final (self).wf(),
            r is Ok <==> !(old(self)@.contains_key(key as int) && old(self)@[key as int]
                != value as int),
            r is Ok ==> final (self)@ == old(self)@.insert(key as int, value as int),
            r is Err ==> final (self)@ == old(self)@ && *final (self) == *old(self) && r->Err_0
                == FriError::ConflictingEvaluation,
    {
        proof {
            lemma_entries_map(self.entries@);
        }
        let n = self.entries.len();
        let mut i: usize = 0;
        while i < n
            invariant
                0 <= i <= n,
                n == self.entries@.len(),
                self.wf(),
                self == old(self),
                forall|k: int| 0 <= k < i ==> (#[trigger] self.entries@[k]).0 != key,
            decreases n - i,
        {
            if self.entries[i].0 == key {
                proof {
                    lemma_entries_map(self.entries@);
                }
                if self.entries[i].1 == value {
                    proof {
                        assert(self@ =~= self@.insert(key as int, value as int));
                    }
                    return Ok(());
                } else {
                    return Err(FriError::ConflictingEvaluation);
                }
            }
            i = i + 1;
        }
        proof {
            lemma_entries_map(self.entries@);
            if self@.contains_key(key as int) {
                let j = choose|j: int|
                    0 <= j < self.entries@.len() && (#[trigger] self.entries@[j]).0 as int
                        == key as int;
                assert(self.entries@[j].0 == key);
            }
        }
        let ghost before = self.entries@;
        self.entries.push((key, value));
        proof {
            assert(self.entries@.drop_last() =~= before);
            assert(self.entries@.last() == (key, value));
        }
        Ok(())
    }

    /// Whether the table is nonempty and records a single distinct
    /// value over all its points.
    pub fn has_unique_value(&self) -> (r: bool)
        requires
            self.wf(),
        ensures
            r <==> terminal_unique(self@),
    {
        proof {
            lemma_entries_map(self.entries@);
        }
        let n = self.entries.len();
        if n == 0 {
            proof {
                if exists|k: int| self@.contains_key(k) {
                    let k = choose|k: int| self@.contains_key(k);
                }
            }
            return false;
        }
        let v0 = self.entries[0].1;
        let mut i: usize = 1;
        while i < n
            invariant
                1 <= i <= n,
                n == self.entries@.len(),
                self.wf(),
                v0 == self.entries@[0].1,
                forall|k: int| 0 <= k < i ==> (#[trigger] self.entries@[k]).1 == v0,
            decreases n - i,
        {
            if self.entries[i].1 != v0 {
                proof {
                    lemma_entries_map(self.entries@);
                    let k0 = self.entries@[0].0 as int;
                    let ki = self.entries@[i as int].0 as int;
                    assert(self.entries@[0].0 != self.entries@[i as int].0);
                    assert(self@[k0] != self@[ki]);
                }
                return false;
            }
            i = i + 1;
        }
        proof {
            lemma_entries_map(self.entries@);
            assert(self@.contains_key(self.entries@[0].0 as int));
            assert forall|k1: int, k2: int|
                self@.contains_key(k1) && self@.contains_key(k2) implies #[trigger] self@[k1]
                == #[trigger] self@[k2] by {
                let i1 = choose|j: int|
                    0 <= j < self.entries@.len() && (#[trigger] self.entries@[j]).0 as int == k1;
                let i2 = choose|j: int|
                    0 <= j < self.entries@.len() && (#[trigger] self.entries@[j]).0 as int == k2;
                assert(self@[k1] == self.entries@[i1].1 as int);
                assert(self@[k2] == self.entries@[i2].1 as int);
            }
        }
        true
    }
}

} // verus!
