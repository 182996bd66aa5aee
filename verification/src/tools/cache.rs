//! Results of read-only tools remembered within a turn, and the files read in the
//! session.
use vstd::hash_map::StringHashMap;
use vstd::hash_set::StringHashSet;
use vstd::prelude::*;
use crate::text::{cat, decimal, decimal_of};

verus! {

struct CacheEntry {
    value: String,
    generation: u64,
}

/// Remembered tool results and the set of files read. Clearing forgets the results
/// and keeps the set.
pub struct ToolCache {
    entries: StringHashMap<CacheEntry>,
    generation: u64,
    read_files: StringHashSet,
}

impl ToolCache {
    /// The results that can be looked up, under their keys.
    pub closed spec fn results(&self) -> Map<Seq<char>, Seq<char>> {
        Map::new(
            |k: Seq<char>|
                self.entries@.contains_key(k) && self.entries@[k].generation == self.generation,
            |k: Seq<char>| self.entries@[k].value@,
        )
    }

    /// The files read in the session.
    pub closed spec fn read_set(&self) -> Set<Seq<char>> {
        self.read_files@
    }

    /// A cache that remembers nothing.
    pub fn new() -> (r: ToolCache)
        ensures
            r.results() == Map::<Seq<char>, Seq<char>>::empty(),
            r.read_set() == Set::<Seq<char>>::empty(),
    {
        let r = ToolCache {
            entries: StringHashMap::new(),
            generation: 0,
            read_files: StringHashSet::new(),
        };
        assert(r.results() =~= Map::<Seq<char>, Seq<char>>::empty());
        r
    }

    /// Records that the file at a canonical path was read in this session.
    pub fn mark_read(&mut self, path: &str)
        ensures
            final(self).read_set() == old(self).read_set().insert(path@),
            final(self).results() == old(self).results(),
    {
        self.read_files.insert(path.to_owned());
    }

    /// Whether the file at a canonical path was read in this session.
    pub fn has_been_read(&self, path: &str) -> (r: bool)
        ensures
            r == self.read_set().contains(path@),
    {
        self.read_files.contains(path)
    }

    /// The result remembered under a key.
    pub fn get(&self, key: &str) -> (r: Option<String>)
        ensures
            match r {
                Some(v) => self.results().contains_key(key@) && v@ == self.results()[key@],
                None => !self.results().contains_key(key@),
            },
    {
        match self.entries.get(key) {
            Some(e) => {
                if e.generation == self.generation {
                    Some(e.value.clone())
                } else {
                    None
                }
            },
            None => None,
        }
    }

    /// Remembers a result under a key.
    pub fn set(&mut self, key: &str, value: String)
        ensures
            final(self).results() == old(self).results().insert(key@, value@),
            final(self).read_set() == old(self).read_set(),
    {
        let ghost before = self.results();
        let generation: u64 = self.generation;
        self.entries.insert(key.to_owned(), CacheEntry { value, generation });
        assert(self.results() =~= before.insert(key@, value@));
    }

    /// Forgets all results; the files read stay recorded.
    pub fn clear(&mut self)
        ensures
            final(self).results() == Map::<Seq<char>, Seq<char>>::empty(),
            final(self).read_set() == old(self).read_set(),
    {
        self.generation = self.generation.wrapping_add(1);
        self.entries.clear();
        assert(self.results() =~= Map::<Seq<char>, Seq<char>>::empty());
    }
}

impl Default for ToolCache {
    fn default() -> (r: Self)
        ensures
            r.results() == Map::<Seq<char>, Seq<char>>::empty(),
            r.read_set() == Set::<Seq<char>>::empty(),
    {
        ToolCache::new()
    }
}

/// The stamp of a file that was last changed `nanos` nanoseconds after the epoch
/// and has `len` bytes; of a file that cannot be examined, zeros.
pub open spec fn stamp_of(meta: Option<(u128, u64)>) -> Seq<char> {
    match meta {
        Some((nanos, len)) => decimal_of(nanos as nat) + ":"@ + decimal_of(len as nat),
        None => "0:0"@,
    }
}

/// Key part that changes whenever the examined file does.
pub fn fs_stamp(meta: Option<(u128, u64)>) -> (r: String)
    ensures
        r@ == stamp_of(meta),
{
    match meta {
        Some((nanos, len)) => {
            let mut out = decimal(nanos);
            out.append(":");
            let n = decimal(len as u128);
            out.append(n.as_str());
            out
        },
        None => "0:0".to_owned(),
    }
}

/// The stamp for a path: that of the working directory where no path is given, or one that
/// cannot be examined.
pub open spec fn stamp_or_cwd(path: Seq<char>, meta: Option<(u128, u64)>, cwd: Option<(u128, u64)>) -> Seq<char> {
    if path.len() == 0 || meta is None {
        stamp_of(cwd)
    } else {
        stamp_of(meta)
    }
}

/// Key part that changes whenever the directory does that a tool works on: the one at the
/// path, or the working directory where no path is given or nothing can be examined there.
pub fn fs_stamp_or_cwd(path: &str, meta: Option<(u128, u64)>, cwd: Option<(u128, u64)>) -> (r: String)
    ensures
        r@ == stamp_or_cwd(path@, meta, cwd),
{
    if path.is_empty() {
        return fs_stamp(cwd);
    }
    match meta {
        Some(m) => fs_stamp(Some(m)),
        None => fs_stamp(cwd),
    }
}

/// The refusal to change a file that was not read.
pub open spec fn unread_text(path: Seq<char>) -> Seq<char> {
    "file has not been read in this session: "@ + path + " — read it before changing it"@
}

/// The file at a canonical path may be changed: it was read in this session, or nobody keeps
/// track of that.
pub open spec fn may_change(cache: Option<&ToolCache>, path: Seq<char>) -> bool {
    match cache {
        Some(c) => c.read_set().contains(path),
        None => true,
    }
}

/// Refuses to change a file that was not read in this session, so that no change is built
/// on contents that were never seen.
pub fn check_read(cache: Option<&ToolCache>, path: &str) -> (r: Result<(), String>)
    ensures
        r is Ok <==> may_change(cache, path@),
        r is Err ==> r->Err_0@ == unread_text(path@),
{
    let read: bool = match cache {
        Some(c) => c.has_been_read(path),
        None => true,
    };
    if read {
        Ok(())
    } else {
        let mut out = cat("file has not been read in this session: ", path);
        out.append(" — read it before changing it");
        Err(out)
    }
}

/// Something that is done to a cache.
pub enum CacheOp {
    Remember(Seq<char>, Seq<char>),
    Clear,
    MarkRead(Seq<char>),
}

/// Results under their keys, and the files read.
pub struct CacheView {
    pub results: Map<Seq<char>, Seq<char>>,
    pub read: Set<Seq<char>>,
}

/// A cache after something was done to it.
pub open spec fn cache_step(c: CacheView, op: CacheOp) -> CacheView {
    match op {
        CacheOp::Remember(key, value) => CacheView { results: c.results.insert(key, value), ..c },
        CacheOp::Clear => CacheView { results: Map::empty(), ..c },
        CacheOp::MarkRead(path) => CacheView { read: c.read.insert(path), ..c },
    }
}

impl View for ToolCache {
    type V = CacheView;

    open spec fn view(&self) -> CacheView {
        CacheView { results: self.results(), read: self.read_set() }
    }
}

/// Names one of the caches that are shared. A copy of a handle names the same cache.
#[derive(Clone, Copy, Debug, PartialEq, Eq, Structural)]
pub struct CacheHandle {
    id: usize,
}

impl CacheHandle {
    /// Whether two handles name one cache.
    pub fn shares_storage_with(&self, other: &CacheHandle) -> (r: bool)
        ensures
            r == (*self == *other),
    {
        self.id == other.id
    }
}

/// The caches of the sessions, each of which the tools of its session share.
pub struct SharedCaches {
    caches: Vec<ToolCache>,
}

impl SharedCaches {
    /// The handle names one of the caches.
    pub closed spec fn has(&self, h: CacheHandle) -> bool {
        h.id < self.caches@.len()
    }

    /// What the cache holds that a handle names.
    pub closed spec fn at(&self, h: CacheHandle) -> CacheView {
        self.caches@[h.id as int]@
    }

    /// Nothing but the cache that `h` names differs from `before`.
    pub open spec fn differs_at_most_in(&self, before: &SharedCaches, h: CacheHandle) -> bool {
        forall|other: CacheHandle|
            before.has(other) ==> #[trigger] self.has(other) && (other != h ==> self.at(other)
                == before.at(other))
    }

    /// No caches.
    pub fn new() -> (r: SharedCaches)
        ensures
            forall|h: CacheHandle| !#[trigger] r.has(h),
    {
        SharedCaches { caches: Vec::new() }
    }

    /// Opens a cache of its own that remembers nothing.
    pub fn open(&mut self) -> (h: CacheHandle)
        ensures
            !old(self).has(h),
            final(self).has(h),
            final(self).at(h) == (CacheView { results: Map::empty(), read: Set::empty() }),
            final(self).differs_at_most_in(old(self), h),
    {
        let ghost before = *self;
        let h = CacheHandle { id: self.caches.len() };
        self.caches.push(ToolCache::new());
        assert forall|other: CacheHandle| before.has(other) implies #[trigger] self.has(other) && (
        other != h ==> self.at(other) == before.at(other)) by {
            assert(self.caches@[other.id as int] == before.caches@[other.id as int]);
        }
        h
    }

    /// The cache that a handle names.
    pub fn cache(&self, h: CacheHandle) -> (r: &ToolCache)
        requires
            self.has(h),
        ensures
            r@ == self.at(h),
    {
        &self.caches[h.id]
    }

    /// The result remembered under a key.
    pub fn get(&self, h: CacheHandle, key: &str) -> (r: Option<String>)
        requires
            self.has(h),
        ensures
            match r {
                Some(v) => self.at(h).results.contains_key(key@) && v@ == self.at(h).results[key@],
                None => !self.at(h).results.contains_key(key@),
            },
    {
        self.caches[h.id].get(key)
    }

    /// Whether the file at a canonical path was read in the session.
    pub fn has_been_read(&self, h: CacheHandle, path: &str) -> (r: bool)
        requires
            self.has(h),
        ensures
            r == self.at(h).read.contains(path@),
    {
        self.caches[h.id].has_been_read(path)
    }

    /// Remembers a result under a key.
    pub fn set(&mut self, h: CacheHandle, key: &str, value: String)
        requires
            old(self).has(h),
        ensures
            final(self).at(h) == cache_step(old(self).at(h), CacheOp::Remember(key@, value@)),
            final(self).differs_at_most_in(old(self), h),
    {
        self.caches[h.id].set(key, value);
    }

    /// Forgets all results; the files read stay recorded.
    pub fn clear(&mut self, h: CacheHandle)
        requires
            old(self).has(h),
        ensures
            final(self).at(h) == cache_step(old(self).at(h), CacheOp::Clear),
            final(self).differs_at_most_in(old(self), h),
    {
        self.caches[h.id].clear();
    }

    /// Records that the file at a canonical path was changed by a tool: remembered results may
    /// be out of date, and what the file holds is known.
    pub fn note_change(&mut self, h: CacheHandle, path: &str)
        requires
            old(self).has(h),
        ensures
            final(self).at(h) == cache_step(
                cache_step(old(self).at(h), CacheOp::Clear),
                CacheOp::MarkRead(path@),
            ),
            final(self).differs_at_most_in(old(self), h),
    {
        self.clear(h);
        self.mark_read(h, path);
    }

    /// Records that the file at a canonical path was read in the session.
    pub fn mark_read(&mut self, h: CacheHandle, path: &str)
        requires
            old(self).has(h),
        ensures
            final(self).at(h) == cache_step(old(self).at(h), CacheOp::MarkRead(path@)),
            final(self).differs_at_most_in(old(self), h),
    {
        self.caches[h.id].mark_read(path);
    }
}

/// What the cache named by `h` holds after things were done by way of several handles.
pub open spec fn after_ops(c: CacheView, ops: Seq<(CacheHandle, CacheOp)>, h: CacheHandle) -> CacheView
    decreases ops.len(),
{
    if ops.len() == 0 {
        c
    } else {
        let before = after_ops(c, ops.drop_last(), h);
        if ops.last().0 == h {
            cache_step(before, ops.last().1)
        } else {
            before
        }
    }
}

/// The result under `key` may be another one after `op`.
pub open spec fn touches(op: CacheOp, key: Seq<char>) -> bool {
    match op {
        CacheOp::Remember(k, _) => k == key,
        CacheOp::Clear => true,
        CacheOp::MarkRead(_) => false,
    }
}

/// The last result that any copy of a handle remembered under a key is what every copy finds
/// there, as long as none of them cleared the cache since; what is done to other caches, and
/// under other keys, changes nothing.
pub proof fn law_last_set_wins(
    c: CacheView,
    ops: Seq<(CacheHandle, CacheOp)>,
    h: CacheHandle,
    i: int,
    key: Seq<char>,
    value: Seq<char>,
)
    requires
        0 <= i < ops.len(),
        ops[i] == (h, CacheOp::Remember(key, value)),
        forall|j: int| i < j < ops.len() && (#[trigger] ops[j]).0 == h ==> !touches(ops[j].1, key),
    ensures
        after_ops(c, ops, h).results.contains_key(key),
        after_ops(c, ops, h).results[key] == value,
    decreases ops.len(),
{
    if i < ops.len() - 1 {
        let t = ops.drop_last();
        assert forall|j: int| i < j < t.len() && (#[trigger] t[j]).0 == h implies !touches(
            t[j].1,
            key,
        ) by {
            assert(t[j] == ops[j]);
        }
        law_last_set_wins(c, t, h, i, key, value);
        assert(ops[ops.len() - 1] == ops.last());
    }
}

/// Whatever is done without clearing a cache or remembering something under a key leaves what
/// is found there; clearing leaves nothing to find, by whichever copy of the handle.
pub proof fn law_clearing_forgets_results(c: CacheView, ops: Seq<(CacheHandle, CacheOp)>, h: CacheHandle, key: Seq<char>)
    ensures
        after_ops(c, ops.push((h, CacheOp::Clear)), h).results == Map::<Seq<char>, Seq<char>>::empty(),
        after_ops(c, ops.push((h, CacheOp::Clear)), h).read == after_ops(c, ops, h).read,
        (forall|j: int| 0 <= j < ops.len() && (#[trigger] ops[j]).0 == h ==> !touches(ops[j].1, key))
            ==> after_ops(c, ops, h).results.contains_key(key) == c.results.contains_key(key) && (
        c.results.contains_key(key) ==> after_ops(c, ops, h).results[key] == c.results[key]),
    decreases ops.len(),
{
    assert(ops.push((h, CacheOp::Clear)).drop_last() =~= ops);
    if ops.len() > 0 {
        let t = ops.drop_last();
        law_clearing_forgets_results(c, t, h, key);
        if forall|j: int| 0 <= j < ops.len() && (#[trigger] ops[j]).0 == h ==> !touches(ops[j].1, key) {
            assert forall|j: int| 0 <= j < t.len() && (#[trigger] t[j]).0 == h implies !touches(
                t[j].1,
                key,
            ) by {
                assert(t[j] == ops[j]);
            }
            assert(ops[ops.len() - 1] == ops.last());
        }
    }
}

/// A file counts as read exactly if it did before or some copy of the handle recorded it;
/// recording it again changes nothing, and results stay what they are.
pub proof fn law_read_files_stay_read(c: CacheView, ops: Seq<(CacheHandle, CacheOp)>, h: CacheHandle, path: Seq<char>)
    ensures
        after_ops(c, ops, h).read.contains(path) <==> c.read.contains(path) || exists|i: int|
            0 <= i < ops.len() && #[trigger] ops[i] == (h, CacheOp::MarkRead(path)),
        cache_step(c, CacheOp::MarkRead(path)).results == c.results,
        cache_step(cache_step(c, CacheOp::MarkRead(path)), CacheOp::MarkRead(path)) == cache_step(
            c,
            CacheOp::MarkRead(path),
        ),
    decreases ops.len(),
{
    let once = cache_step(c, CacheOp::MarkRead(path));
    assert(once.read.insert(path) =~= once.read);
    if ops.len() > 0 {
        let t = ops.drop_last();
        law_read_files_stay_read(c, t, h, path);
        if exists|i: int| 0 <= i < ops.len() && #[trigger] ops[i] == (h, CacheOp::MarkRead(path)) {
            let i = choose|i: int|
                0 <= i < ops.len() && #[trigger] ops[i] == (h, CacheOp::MarkRead(path));
            if i < t.len() {
                assert(t[i] == (h, CacheOp::MarkRead(path)));
            }
        }
        if exists|i: int| 0 <= i < t.len() && #[trigger] t[i] == (h, CacheOp::MarkRead(path)) {
            let i = choose|i: int| 0 <= i < t.len() && #[trigger] t[i] == (h, CacheOp::MarkRead(path));
            assert(ops[i] == (h, CacheOp::MarkRead(path)));
        }
        if ops.last() == (h, CacheOp::MarkRead(path)) {
            assert(ops[ops.len() - 1] == (h, CacheOp::MarkRead(path)));
        }
    }
}

} // verus!
