//! A hash map that remembers the order in which entries were inserted.
use std::collections::HashMap;
use std::collections::hash_map::Entry;
use std::fmt::Display;
use std::hash::Hash;
use vstd::laws_eq::obeys_concrete_eq;
use vstd::prelude::*;
use vstd::set_lib::lemma_subset_equality;
use vstd::std_specs::cmp::PartialEqSpec;
use vstd::string::{to_string_from_display_ensures, StringExecFns};
use vstd::std_specs::hash::obeys_key_model;
use vstd::std_specs::iter::IteratorSpec;

verus! {

broadcast use {vstd::std_specs::hash::group_hash_axioms, vstd::std_specs::iter::rev_postcondition};

/// ` key: value`, the text of one entry.
pub open spec fn entry_text(entry: (String, String)) -> Seq<char> {
    seq![' '] + entry.0@ + seq![':', ' '] + entry.1@
}

/// The entries' texts, separated by `", "`.
pub open spec fn entries_text(entries: Seq<(String, String)>) -> Seq<char>
    decreases entries.len(),
{
    if entries.len() == 0 {
        Seq::empty()
    } else if entries.len() == 1 {
        entry_text(entries[0])
    } else {
        entries_text(entries.drop_last()) + seq![',', ' '] + entry_text(entries.last())
    }
}

/// `{ k1: v1,  k2: v2}`: the entries' texts between braces.
pub open spec fn map_text(entries: Seq<(String, String)>) -> Seq<char> {
    seq!['{'] + entries_text(entries) + seq!['}']
}

/// Renders already formatted `(key, value)` texts as `map_text` describes.
pub fn render_entries(entries: &Vec<(String, String)>) -> (r: String)
    ensures
        r@ == map_text(entries@),
{
    let mut s = String::new();
    s.append("{");
    proof {
        reveal_strlit("{");
        assert(entries@.subrange(0, 0) =~= Seq::<(String, String)>::empty());
    }
    let mut i: usize = 0;
    while i < entries.len()
        invariant
            i <= entries@.len(),
            s@ == seq!['{'] + entries_text(entries@.subrange(0, i as int)),
        decreases entries@.len() - i,
    {
        let ghost before = s@;
        if i > 0 {
            s.append(", ");
        }
        s.append(" ");
        s.append(entries[i].0.as_str());
        s.append(": ");
        s.append(entries[i].1.as_str());
        proof {
            reveal_strlit(", ");
            reveal_strlit(" ");
            reveal_strlit(": ");
            let done = entries@.subrange(0, i + 1);
            assert(done.drop_last() =~= entries@.subrange(0, i as int));
            assert(done.last() == entries@[i as int]);
            if i == 0 {
                assert(s@ =~= seq!['{'] + entry_text(entries@[0]));
            } else {
                assert(s@ =~= before + seq![',', ' '] + entry_text(entries@[i as int]));
            }
        }
        i = i + 1;
    }
    s.append("}");
    proof {
        reveal_strlit("}");
        assert(entries@.subrange(0, entries@.len() as int) =~= entries@);
    }
    s
}

/// Every key of `index` occurs in `log`, and every key of `log` is in `index`.
pub open spec fn keys_match_log<K, V>(index: Map<K, V>, log: Seq<(K, V)>) -> bool {
    &&& forall|i: int| 0 <= i < log.len() ==> #[trigger] index.contains_key(log[i].0)
    &&& forall|k: K| #[trigger]
        index.contains_key(k) ==> exists|i: int| 0 <= i < log.len() && log[i].0 == k
}

/// A hash map paired with an append-only log of every insertion.
///
/// The map holds the current value of each key; the log holds each `(key,
/// value)` pair handed to `insert`, oldest first, including pairs that a
/// later insertion of the same key has since superseded.
pub struct OrderedHashmap<K, V> {
    map: HashMap<K, V>,
    order: Vec<(K, V)>,
}

impl<K: Copy + Eq + Hash, V: Copy> OrderedHashmap<K, V> {
    /// The current value of each key.
    pub closed spec fn index_map(&self) -> Map<K, V> {
        self.map@
    }

    /// Every insertion so far, oldest first.
    pub closed spec fn order_log(&self) -> Seq<(K, V)> {
        self.order@
    }

    /// The map's keys are exactly the keys that occur in the log.
    pub closed spec fn wf(&self) -> bool {
        &&& obeys_key_model::<K>()
        &&& keys_match_log(self.map@, self.order@)
    }

    /// An empty map. Its keys must hash deterministically, and `==` and
    /// copying on them must agree with identity.
    pub fn new() -> (r: Self)
        requires
            obeys_key_model::<K>(),
        ensures
            r.wf(),
            r.index_map() == Map::<K, V>::empty(),
            r.order_log() == Seq::<(K, V)>::empty(),
    {
        OrderedHashmap { map: HashMap::new(), order: Vec::new() }
    }

    /// The number of keys, not the length of the log.
    pub fn len(&self) -> (r: usize)
        requires
            self.wf(),
        ensures
            r == self.index_map().len(),
    {
        self.map.len()
    }

    /// Whether the map has no keys.
    pub fn is_empty(&self) -> (r: bool)
        requires
            self.wf(),
        ensures
            r == (self.index_map().len() == 0),
    {
        self.map.len() == 0
    }

    /// Drops every entry and the whole log.
    pub fn clear(&mut self)
        requires
            old(self).wf(),
        ensures
            final(self).wf(),
            final(self).index_map() == Map::<K, V>::empty(),
            final(self).index_map().len() == 0,
            final(self).order_log() == Seq::<(K, V)>::empty(),
    {
        self.map = HashMap::new();
        self.order = Vec::new();
    }

    /// Whether `k` has a current value.
    pub fn contains_key(&self, k: &K) -> (r: bool)
        requires
            self.wf(),
        ensures
            r == self.index_map().contains_key(*k),
    {
        self.map.contains_key(k)
    }

    /// The current value of `k`, if any.
    pub fn find(&self, k: &K) -> (r: Option<&V>)
        requires
            self.wf(),
        ensures
            r == (if self.index_map().contains_key(*k) {
                Some(&self.index_map()[*k])
            } else {
                None
            }),
    {
        self.map.get(k)
    }

    /// The current value of `k`, for changing in place. A change made through
    /// it reaches the current value only: the log keeps what was inserted.
    pub fn find_mut(&mut self, k: &K) -> (r: Option<&mut V>)
        requires
            old(self).wf(),
        ensures
            final(self).wf(),
            final(self).order_log() == old(self).order_log(),
            match r {
                Some(v) => {
                    &&& old(self).index_map().contains_key(*k)
                    &&& *v == old(self).index_map()[*k]
                    &&& final(self).index_map() == old(self).index_map().insert(*k, *final(v))
                },
                None => {
                    &&& !old(self).index_map().contains_key(*k)
                    &&& final(self).index_map() == old(self).index_map()
                },
            },
    {
        let ghost before = self.map@;
        match self.map.entry(*k) {
            Entry::Occupied(e) => {
                let v = e.into_mut();
                proof {
                    assert(after_borrow(self.map)@.dom() =~= before.dom());
                    assert(after_borrow(self.order) == self.order);
                }
                Some(v)
            },
            Entry::Vacant(e) => {
                proof {
                    assert(has_resolved(e));
                    assert(after_borrow(self.order) == self.order);
                }
                None
            },
        }
    }

    /// The log, oldest insertion first; a key inserted twice shows twice.
    pub fn iter(&self) -> (r: std::slice::Iter<'_, (K, V)>)
        requires
            self.wf(),
        ensures
            r.remaining().unref() == self.order_log(),
    {
        self.order.iter()
    }

    /// The log, newest insertion first.
    pub fn rev_iter(&self) -> (r: std::iter::Rev<std::slice::Iter<'_, (K, V)>>)
        requires
            self.wf(),
        ensures
            r.remaining().unref() == self.order_log().reverse(),
    {
        self.order.iter().rev()
    }

    /// Sets the current value of `k` to `v` and appends `(k, v)` to the log.
    /// Returns `true` when `k` had no value before.
    pub fn insert(&mut self, k: &K, v: &V) -> (r: bool)
        requires
            old(self).wf(),
        ensures
            final(self).wf(),
            r == !old(self).index_map().contains_key(*k),
            final(self).index_map() == old(self).index_map().insert(*k, *v),
            final(self).index_map().len() == old(self).index_map().len() + if r {
                1int
            } else {
                0int
            },
            final(self).order_log() == old(self).order_log().push((*k, *v)),
    {
        let previous = self.map.insert(*k, *v);
        self.order.push((*k, *v));
        proof {
            let n = self.order@.len() - 1;
            assert(self.order@[n as int].0 == *k);
            assert forall|j: K| #[trigger] self.map@.contains_key(j) implies exists|i: int|
                0 <= i < self.order@.len() && self.order@[i].0 == j by {
                if j != *k {
                    let i0 = choose|i: int|
                        0 <= i < old(self).order@.len() && old(self).order@[i].0 == j;
                    assert(self.order@[i0].0 == j);
                }
            }
            if previous.is_none() {
                assert(self.map@.dom() == old(self).map@.dom().insert(*k));
            } else {
                assert(self.map@.dom() =~= old(self).map@.dom());
            }
        }
        previous.is_none()
    }
}

impl<K: Copy + Eq + Hash, V: Copy> Clone for OrderedHashmap<K, V> {
    /// Copies the current entries and the whole insertion log.
    fn clone(&self) -> (r: Self)
        ensures
            r.index_map() == self.index_map(),
            r.order_log() == self.order_log(),
            r.wf() == self.wf(),
    {
        let mut order: Vec<(K, V)> = Vec::new();
        let mut i: usize = 0;
        while i < self.order.len()
            invariant
                i <= self.order@.len(),
                order@ == self.order@.subrange(0, i as int),
            decreases self.order@.len() - i,
        {
            order.push(self.order[i]);
            i = i + 1;
        }
        proof {
            assert(order@ =~= self.order@);
        }
        OrderedHashmap { map: self.map.clone(), order }
    }
}

impl<K: Copy + Eq + Hash + Display, V: Copy + Display> OrderedHashmap<K, V> {
    /// `texts` holds the `to_string` of each key and value of `log`.
    pub open spec fn texts_of(log: Seq<(K, V)>, texts: Seq<(String, String)>) -> bool {
        &&& texts.len() == log.len()
        &&& forall|i: int|
            0 <= i < log.len() ==> {
                &&& to_string_from_display_ensures::<K>(&log[i].0, #[trigger] texts[i].0)
                &&& to_string_from_display_ensures::<V>(&log[i].1, texts[i].1)
            }
    }

    /// The insertion log as text, `{ k1: v1,  k2: v2}`, oldest first.
    pub fn to_str(&self) -> (r: String)
        requires
            self.wf(),
        ensures
            exists|texts: Seq<(String, String)>|
                Self::texts_of(self.order_log(), texts) && r@ == map_text(texts),
    {
        let mut texts: Vec<(String, String)> = Vec::new();
        let mut i: usize = 0;
        while i < self.order.len()
            invariant
                i <= self.order@.len(),
                Self::texts_of(self.order@.subrange(0, i as int), texts@),
            decreases self.order@.len() - i,
        {
            let k = self.order[i].0.to_string();
            let v = self.order[i].1.to_string();
            texts.push((k, v));
            i = i + 1;
        }
        proof {
            assert(self.order@.subrange(0, self.order@.len() as int) =~= self.order@);
        }
        render_entries(&texts)
    }
}

/// Keys hash deterministically, and `==` on keys and on values is identity.
pub open spec fn exact_eq<K: PartialEq, V: PartialEq>() -> bool {
    &&& obeys_key_model::<K>()
    &&& obeys_concrete_eq::<K>()
    &&& obeys_concrete_eq::<V>()
}

impl<K: Copy + Eq + Hash, V: Copy + PartialEq> PartialEq for OrderedHashmap<K, V> {
    /// Equal current values and equal insertion logs, stale entries included.
    fn eq(&self, other: &Self) -> (r: bool) {
        if self.map.len() != other.map.len() || self.order.len() != other.order.len() {
            return false;
        }
        let mut i: usize = 0;
        while i < self.order.len()
            invariant
                i <= self.order@.len(),
                self.order@.len() == other.order@.len(),
                exact_eq::<K, V>() ==> forall|j: int| 0 <= j < i ==> self.order@[j] == other.order@[j],
            decreases self.order@.len() - i,
        {
            let (k, v) = self.order[i];
            let (k2, v2) = other.order[i];
            if !(k == k2) || !(v == v2) {
                proof {
                    if exact_eq::<K, V>() {
                        reveal(obeys_concrete_eq);
                    }
                }
                return false;
            }
            proof {
                if exact_eq::<K, V>() {
                    reveal(obeys_concrete_eq);
                }
            }
            i = i + 1;
        }
        proof {
            if exact_eq::<K, V>() {
                assert(self.order@ =~= other.order@);
            }
        }
        let mut i: usize = 0;
        while i < self.order.len()
            invariant
                i <= self.order@.len(),
                exact_eq::<K, V>() ==> {
                    &&& self.map@.len() == other.map@.len()
                    &&& self.order@ == other.order@
                    &&& forall|j: int|
                        0 <= j < i ==> #[trigger] self.map@.get(self.order@[j].0) == other.map@.get(
                            self.order@[j].0,
                        )
                },
            decreases self.order@.len() - i,
        {
            let k = &self.order[i].0;
            match (self.map.get(k), other.map.get(k)) {
                (Some(a), Some(b)) => {
                    if !(*a == *b) {
                        proof {
                            if exact_eq::<K, V>() {
                                reveal(obeys_concrete_eq);
                                assert(self.map@.get(self.order@[i as int].0) != other.map@.get(
                                    self.order@[i as int].0,
                                ));
                            }
                        }
                        return false;
                    }
                    proof {
                        if exact_eq::<K, V>() {
                            reveal(obeys_concrete_eq);
                        }
                    }
                },
                (None, None) => {},
                _ => {
                    proof {
                        if exact_eq::<K, V>() {
                            assert(self.map@.get(self.order@[i as int].0) != other.map@.get(
                                self.order@[i as int].0,
                            ));
                        }
                    }
                    return false;
                },
            }
            i = i + 1;
        }
        true
    }
}

impl<K: Copy + Eq + Hash, V: Copy + PartialEq> vstd::std_specs::cmp::PartialEqSpecImpl for OrderedHashmap<K, V> {
    open spec fn obeys_eq_spec() -> bool {
        exact_eq::<K, V>()
    }

    /// Equal logs, equally many entries, and equal current values for every
    /// key of the log; for well-formed maps, equal entries and equal logs.
    open spec fn eq_spec(&self, other: &Self) -> bool {
        &&& self.order_log() == other.order_log()
        &&& self.index_map().len() == other.index_map().len()
        &&& forall|j: int|
            0 <= j < self.order_log().len() ==> #[trigger] self.index_map().get(
                self.order_log()[j].0,
            ) == other.index_map().get(self.order_log()[j].0)
    }
}

impl<K: Copy + Eq + Hash, V: Copy + PartialEq> OrderedHashmap<K, V> {
    /// Two well-formed maps are `==` exactly when their entries and their
    /// logs are equal.
    pub proof fn lemma_eq_is_equality(&self, other: &Self)
        requires
            self.wf(),
            other.wf(),
        ensures
            self.eq_spec(other) <==> (self.index_map() == other.index_map() && self.order_log()
                == other.order_log()),
    {
        if self.eq_spec(other) {
            assert forall|k: K| #[trigger] self.map@.contains_key(k) implies other.map@.contains_key(k)
                && other.map@[k] == self.map@[k] by {
                let j = choose|j: int| 0 <= j < self.order@.len() && self.order@[j].0 == k;
                assert(self.map@.get(self.order@[j].0) == other.map@.get(self.order@[j].0));
            }
            lemma_subset_equality(self.map@.dom(), other.map@.dom());
            assert(self.map@ =~= other.map@);
        }
    }
}

/// The current values after inserting each pair of `ops`, in order, into a
/// map whose current values were `index`.
pub open spec fn replay<K, V>(index: Map<K, V>, ops: Seq<(K, V)>) -> Map<K, V>
    decreases ops.len(),
{
    if ops.len() == 0 {
        index
    } else {
        replay(index, ops.drop_last()).insert(ops.last().0, ops.last().1)
    }
}

/// The keys of `log` in the order of their first occurrence.
pub open spec fn first_keys<K, V>(log: Seq<(K, V)>) -> Seq<K>
    decreases log.len(),
{
    if log.len() == 0 {
        Seq::empty()
    } else {
        let earlier = first_keys(log.drop_last());
        if earlier.contains(log.last().0) {
            earlier
        } else {
            earlier.push(log.last().0)
        }
    }
}

/// No two pairs of `ops` share a key.
pub open spec fn distinct_keys<K, V>(ops: Seq<(K, V)>) -> bool {
    forall|i: int, j: int| 0 <= i < j < ops.len() ==> ops[i].0 != ops[j].0
}

/// Inserting `n` pairs with pairwise distinct keys into an empty map leaves
/// `n` entries.
pub proof fn lemma_distinct_inserts_len<K, V>(ops: Seq<(K, V)>)
    requires
        distinct_keys(ops),
    ensures
        replay(Map::<K, V>::empty(), ops).dom().finite(),
        replay(Map::<K, V>::empty(), ops).len() == ops.len(),
    decreases ops.len(),
{
    if ops.len() > 0 {
        let rest = ops.drop_last();
        lemma_distinct_inserts_len(rest);
        lemma_replay_keys(Map::<K, V>::empty(), rest, ops.last().0);
        assert(!replay(Map::<K, V>::empty(), rest).contains_key(ops.last().0)) by {
            if replay(Map::<K, V>::empty(), rest).contains_key(ops.last().0) {
                let j = choose|j: int| 0 <= j < rest.len() && rest[j].0 == ops.last().0;
                assert(ops[j].0 == ops[ops.len() - 1].0);
            }
        }
    }
}

/// A key is present after a replay exactly when it was present before or one
/// of the replayed pairs has it.
pub proof fn lemma_replay_keys<K, V>(index: Map<K, V>, ops: Seq<(K, V)>, k: K)
    ensures
        replay(index, ops).contains_key(k) <==> (index.contains_key(k) || exists|j: int|
            0 <= j < ops.len() && ops[j].0 == k),
    decreases ops.len(),
{
    if ops.len() > 0 {
        let rest = ops.drop_last();
        lemma_replay_keys(index, rest, k);
        if exists|j: int| 0 <= j < rest.len() && rest[j].0 == k {
            let j = choose|j: int| 0 <= j < rest.len() && rest[j].0 == k;
            assert(ops[j].0 == k);
        }
        if exists|j: int| 0 <= j < ops.len() && ops[j].0 == k {
            let j = choose|j: int| 0 <= j < ops.len() && ops[j].0 == k;
            if j < rest.len() {
                assert(rest[j].0 == k);
            }
        }
    }
}

/// After a replay, each key holds the value of the last pair that has it, and
/// a key that no pair has keeps its earlier value, or stays absent.
pub proof fn lemma_replay_last_wins<K, V>(index: Map<K, V>, ops: Seq<(K, V)>, k: K)
    ensures
        forall|j: int|
            0 <= j < ops.len() && ops[j].0 == k && (forall|l: int| j < l < ops.len() ==> ops[l].0 != k)
                ==> {
                &&& #[trigger] replay(index, ops).contains_key(ops[j].0)
                &&& replay(index, ops)[k] == ops[j].1
            },
        (forall|j: int| 0 <= j < ops.len() ==> ops[j].0 != k) ==> {
            &&& replay(index, ops).contains_key(k) == index.contains_key(k)
            &&& replay(index, ops).contains_key(k) ==> replay(index, ops)[k] == index[k]
        },
    decreases ops.len(),
{
    if ops.len() > 0 {
        let rest = ops.drop_last();
        lemma_replay_last_wins(index, rest, k);
        assert forall|j: int|
            0 <= j < ops.len() && ops[j].0 == k && (forall|l: int| j < l < ops.len() ==> ops[l].0 != k)
                implies {
                &&& #[trigger] replay(index, ops).contains_key(ops[j].0)
                &&& replay(index, ops)[k] == ops[j].1
            } by {
            if j < rest.len() {
                assert(ops[ops.len() - 1].0 != k);
                assert(rest[j] == ops[j]);
                assert forall|l: int| j < l < rest.len() implies rest[l].0 != k by {
                    assert(rest[l] == ops[l]);
                }
                assert(replay(index, rest).contains_key(rest[j].0));
                assert(replay(index, rest)[k] == ops[j].1);
            } else {
                assert(ops[j] == ops.last());
            }
        }
        if forall|j: int| 0 <= j < ops.len() ==> ops[j].0 != k {
            assert forall|j: int| 0 <= j < rest.len() implies rest[j].0 != k by {
                assert(rest[j] == ops[j]);
            }
            assert(ops[ops.len() - 1].0 != k);
        }
    }
}

impl<K: Copy + Eq + Hash, V: Copy> OrderedHashmap<K, V> {
    /// Inserting a key that is already present leaves the order of first
    /// insertions as it was; inserting a new key puts it last.
    pub proof fn lemma_first_keys_after_insert(&self, k: K, v: V)
        requires
            self.wf(),
        ensures
            first_keys(self.order_log().push((k, v))) == if self.index_map().contains_key(k) {
                first_keys(self.order_log())
            } else {
                first_keys(self.order_log()).push(k)
            },
    {
        let log = self.order_log();
        let pushed = log.push((k, v));
        assert(pushed.drop_last() =~= log);
        lemma_first_keys_contains(log, k);
    }

    /// `rev_iter` yields the entry that `iter` yields at position `len - 1 - i`
    /// at position `i`.
    pub proof fn lemma_rev_iter_mirrors_iter(&self)
        ensures
            self.order_log().reverse().len() == self.order_log().len(),
            forall|i: int|
                0 <= i < self.order_log().len() ==> #[trigger] self.order_log().reverse()[i]
                    == self.order_log()[self.order_log().len() - 1 - i],
    {
    }
}

/// A key is among the first keys of `log` exactly when some entry has it.
pub proof fn lemma_first_keys_contains<K, V>(log: Seq<(K, V)>, k: K)
    ensures
        first_keys(log).contains(k) <==> exists|i: int| 0 <= i < log.len() && log[i].0 == k,
    decreases log.len(),
{
    if log.len() > 0 {
        let rest = log.drop_last();
        lemma_first_keys_contains(rest, k);
        if exists|i: int| 0 <= i < rest.len() && rest[i].0 == k {
            let i = choose|i: int| 0 <= i < rest.len() && rest[i].0 == k;
            assert(log[i].0 == k);
        }
        if exists|i: int| 0 <= i < log.len() && log[i].0 == k {
            let i = choose|i: int| 0 <= i < log.len() && log[i].0 == k;
            if i < rest.len() {
                assert(rest[i].0 == k);
            }
        }
        let earlier = first_keys(rest);
        if !earlier.contains(log.last().0) {
            assert(earlier.push(log.last().0).contains(k) <==> (earlier.contains(k) || k
                == log.last().0)) by {
                if earlier.push(log.last().0).contains(k) {
                    let m = choose|m: int| 0 <= m < earlier.len() + 1 && earlier.push(log.last().0)[m] == k;
                    if m < earlier.len() {
                        assert(earlier[m] == k);
                    }
                }
                if earlier.contains(k) {
                    let m = choose|m: int| 0 <= m < earlier.len() && earlier[m] == k;
                    assert(earlier.push(log.last().0)[m] == k);
                }
                if k == log.last().0 {
                    assert(earlier.push(log.last().0)[earlier.len() as int] == k);
                }
            }
        }
    }
}

} // verus!
