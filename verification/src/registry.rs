//! Items kept under ids in the order in which they were first put in, with a cap
//! on their number.
use indexmap::IndexMap;
use vstd::prelude::*;

verus! {

/// `indexmap::IndexMap`, a hash map that remembers the order of insertion.
#[verifier::external_type_specification]
#[verifier::external_body]
#[verifier::reject_recursive_types(K)]
#[verifier::reject_recursive_types(V)]
#[verifier::reject_recursive_types(S)]
pub struct ExIndexMap<K, V, S>(IndexMap<K, V, S>);

/// The keys of the map in their order.
pub uninterp spec fn keys_of(m: IndexMap<String, ()>) -> Seq<Seq<char>>;

/// `IndexMap::new`: a map without keys.
#[verifier::external_body]
fn index_new() -> (r: IndexMap<String, ()>)
    ensures
        keys_of(r) == Seq::<Seq<char>>::empty(),
{
    IndexMap::new()
}

/// `IndexMap::get_index_of`: the position of a key in the order, where the map
/// has it.
#[verifier::external_body]
fn index_find(m: &IndexMap<String, ()>, id: &str) -> (r: Option<usize>)
    ensures
        match r {
            Some(i) => i < keys_of(*m).len() && keys_of(*m)[i as int] == id@,
            None => !keys_of(*m).contains(id@),
        },
{
    m.get_index_of(id)
}

/// `IndexMap::insert`: a new key comes last in the order, a known one keeps its
/// place.
#[verifier::external_body]
fn index_insert(m: &mut IndexMap<String, ()>, id: String)
    ensures
        keys_of(*final(m)) == (if keys_of(*old(m)).contains(id@) {
            keys_of(*old(m))
        } else {
            keys_of(*old(m)).push(id@)
        }),
{
    m.insert(id, ());
}

/// `IndexMap::shift_remove_index`: takes the key at a position out and keeps the
/// order of the others.
#[verifier::external_body]
fn index_remove(m: &mut IndexMap<String, ()>, i: usize)
    requires
        i < keys_of(*old(m)).len(),
    ensures
        keys_of(*final(m)) == keys_of(*old(m)).remove(i as int),
{
    m.shift_remove_index(i);
}

/// `IndexMap::get_index`: the key at a position.
#[verifier::external_body]
fn index_key(m: &IndexMap<String, ()>, i: usize) -> (r: String)
    requires
        i < keys_of(*m).len(),
    ensures
        r@ == keys_of(*m)[i as int],
{
    m.get_index(i).unwrap().0.clone()
}

/// Position of an id among the entries, where there is an entry for it.
pub open spec fn slot_of<V>(entries: Seq<(Seq<char>, V)>, id: Seq<char>) -> Option<int>
    decreases entries.len(),
{
    if entries.len() == 0 {
        None
    } else if entries.last().0 == id {
        Some(entries.len() - 1)
    } else {
        slot_of(entries.drop_last(), id)
    }
}

/// No id has two entries.
pub open spec fn distinct_ids<V>(entries: Seq<(Seq<char>, V)>) -> bool {
    forall|i: int, j: int|
        0 <= i < j < entries.len() ==> (#[trigger] entries[i]).0 != (#[trigger] entries[j]).0
}

/// The entries after `v` is put in under `id`: an entry for the id keeps its place
/// and gets the new item; else the new entry comes last, and where there are
/// already `cap` entries the first one goes.
pub open spec fn put_of<V>(entries: Seq<(Seq<char>, V)>, id: Seq<char>, v: V, cap: nat) -> Seq<
    (Seq<char>, V),
> {
    match slot_of(entries, id) {
        Some(i) => entries.update(i, (id, v)),
        None => if entries.len() >= cap && entries.len() > 0 {
            entries.remove(0).push((id, v))
        } else {
            entries.push((id, v))
        },
    }
}

/// `slot_of` finds the last entry for an id, and none only where there is none.
pub proof fn lemma_slot<V>(entries: Seq<(Seq<char>, V)>, id: Seq<char>)
    ensures
        match slot_of(entries, id) {
            Some(i) => 0 <= i < entries.len() && entries[i].0 == id,
            None => forall|i: int| 0 <= i < entries.len() ==> (#[trigger] entries[i]).0 != id,
        },
    decreases entries.len(),
{
    if entries.len() > 0 && entries.last().0 != id {
        lemma_slot(entries.drop_last(), id);
        if slot_of(entries, id) is None {
            assert forall|i: int| 0 <= i < entries.len() implies (#[trigger] entries[i]).0 != id by {
                if i < entries.len() - 1 {
                    assert(entries.drop_last()[i] == entries[i]);
                }
            }
        }
    }
}

/// With distinct ids the entry for an id is the only one.
pub proof fn lemma_slot_is<V>(entries: Seq<(Seq<char>, V)>, id: Seq<char>, i: int)
    requires
        distinct_ids(entries),
        0 <= i < entries.len(),
        entries[i].0 == id,
    ensures
        slot_of(entries, id) == Some(i),
{
    lemma_slot(entries, id);
    let k = slot_of(entries, id)->0;
    if k < i {
        assert(entries[k].0 != entries[i].0);
    } else if i < k {
        assert(entries[i].0 != entries[k].0);
    }
}

/// Putting an item in keeps the ids distinct, keeps the number of entries within
/// the cap, and makes the item the one found under its id.
pub proof fn lemma_put<V>(entries: Seq<(Seq<char>, V)>, id: Seq<char>, v: V, cap: nat)
    requires
        distinct_ids(entries),
        entries.len() <= cap,
        cap > 0,
    ensures
        distinct_ids(put_of(entries, id, v, cap)),
        put_of(entries, id, v, cap).len() <= cap,
        slot_of(put_of(entries, id, v, cap), id) is Some,
        put_of(entries, id, v, cap)[slot_of(put_of(entries, id, v, cap), id)->0] == (id, v),
{
    lemma_slot(entries, id);
    let after = put_of(entries, id, v, cap);
    match slot_of(entries, id) {
        Some(i) => {
            assert(distinct_ids(after));
            lemma_slot_is(after, id, i);
        },
        None => {
            assert(distinct_ids(after));
            lemma_slot_is(after, id, after.len() - 1);
        },
    }
}

/// The place of an id depends on the ids alone.
pub proof fn lemma_same_slots<V, W>(a: Seq<(Seq<char>, V)>, b: Seq<(Seq<char>, W)>, id: Seq<char>)
    requires
        a.len() == b.len(),
        forall|i: int| 0 <= i < a.len() ==> (#[trigger] a[i]).0 == b[i].0,
    ensures
        slot_of(a, id) == slot_of(b, id),
    decreases a.len(),
{
    if a.len() > 0 {
        let i = a.len() - 1;
        assert(a[i].0 == b[i].0);
        if a.last().0 != id {
            assert forall|k: int| 0 <= k < a.drop_last().len() implies (#[trigger] a.drop_last()[k]).0
                == b.drop_last()[k].0 by {
                assert(a[k].0 == b[k].0);
            }
            lemma_same_slots(a.drop_last(), b.drop_last(), id);
        }
    }
}

/// Items under ids, in the order in which the ids were first put in.
pub struct Registry<T> {
    index: IndexMap<String, ()>,
    items: Vec<T>,
}

impl<T> View for Registry<T> {
    type V = Seq<(Seq<char>, T)>;

    closed spec fn view(&self) -> Seq<(Seq<char>, T)> {
        Seq::new(self.items@.len(), |i: int| (keys_of(self.index)[i], self.items@[i]))
    }
}

impl<T> Registry<T> {
    /// Every item has its id, and no id has two items.
    pub closed spec fn wf(&self) -> bool {
        &&& keys_of(self.index).len() == self.items@.len()
        &&& distinct_ids(self@)
    }

    /// Well-formed registries have distinct ids.
    pub proof fn lemma_wf(&self)
        requires
            self.wf(),
        ensures
            distinct_ids(self@),
    {
    }

    /// A registry without entries.
    pub fn new() -> (r: Registry<T>)
        ensures
            r.wf(),
            r@ == Seq::<(Seq<char>, T)>::empty(),
    {
        let r = Registry { index: index_new(), items: Vec::new() };
        assert(r@ =~= Seq::<(Seq<char>, T)>::empty());
        r
    }

    /// Number of entries.
    pub fn len(&self) -> (n: usize)
        requires
            self.wf(),
        ensures
            n == self@.len(),
    {
        self.items.len()
    }

    /// Position of the entry for an id.
    pub fn find(&self, id: &str) -> (r: Option<usize>)
        requires
            self.wf(),
        ensures
            match r {
                Some(i) => slot_of(self@, id@) == Some(i as int) && i < self@.len(),
                None => slot_of(self@, id@) is None,
            },
    {
        let r = index_find(&self.index, id);
        proof {
            match r {
                Some(i) => {
                    assert(self@[i as int].0 == id@);
                    lemma_slot_is(self@, id@, i as int);
                },
                None => {
                    lemma_slot(self@, id@);
                    if slot_of(self@, id@) is Some {
                        let k = slot_of(self@, id@)->0;
                        assert(self@[k].0 == keys_of(self.index)[k]);
                        assert(keys_of(self.index).contains(id@));
                    }
                },
            }
        }
        r
    }

    /// The id of the entry at a position.
    pub fn id_at(&self, i: usize) -> (r: String)
        requires
            self.wf(),
            i < self@.len(),
        ensures
            r@ == self@[i as int].0,
    {
        index_key(&self.index, i)
    }

    /// The item at a position.
    pub fn item_at(&self, i: usize) -> (r: &T)
        requires
            self.wf(),
            i < self@.len(),
        ensures
            *r == self@[i as int].1,
    {
        &self.items[i]
    }

    /// Replaces the item at a position.
    pub fn set_at(&mut self, i: usize, item: T)
        requires
            old(self).wf(),
            i < old(self)@.len(),
        ensures
            final(self).wf(),
            final(self)@ == old(self)@.update(i as int, (old(self)@[i as int].0, item)),
    {
        let ghost before = self@;
        self.items.set(i, item);
        assert(self@ =~= before.update(i as int, (before[i as int].0, item)));
        assert(distinct_ids(self@));
    }

    /// Puts an item in under an id; past the cap the first entry goes.
    pub fn put(&mut self, id: String, item: T, cap: usize)
        requires
            old(self).wf(),
            old(self)@.len() <= cap,
            cap > 0,
        ensures
            final(self).wf(),
            final(self)@ == put_of(old(self)@, id@, item, cap as nat),
            final(self)@.len() <= cap,
    {
        let ghost before = self@;
        proof {
            lemma_put(before, id@, item, cap as nat);
            lemma_slot(before, id@);
        }
        match self.find(id.as_str()) {
            Some(i) => {
                self.set_at(i, item);
            },
            None => {
                let ghost keys = keys_of(self.index);
                if self.items.len() >= cap {
                    index_remove(&mut self.index, 0);
                    let gone = self.items.remove(0);
                    assert(self@ =~= before.remove(0));
                }
                let ghost mid = self@;
                proof {
                    assert(!keys_of(self.index).contains(id@)) by {
                        if keys_of(self.index).contains(id@) {
                            let k = choose|k: int|
                                0 <= k < keys_of(self.index).len() && keys_of(self.index)[k] == id@;
                            assert(mid[k].0 == id@);
                            if before.len() >= cap {
                                assert(before[k + 1].0 == id@);
                            } else {
                                assert(before[k].0 == id@);
                            }
                        }
                    }
                }
                let ghost name = id@;
                index_insert(&mut self.index, id);
                self.items.push(item);
                assert(self@ =~= mid.push((name, item)));
            },
        }
        assert(self@ == put_of(before, id@, item, cap as nat));
    }
}

} // verus!
