//! Lockfiles: a mapping from (name, version) to the locked record of that
//! package, bound to the path it is persisted at.

use vstd::prelude::*;
use crate::keyed::{fold_map, keys_unique, lemma_fold_update, lemma_push_unique};
use crate::registry::{copy_strings, key_of, ResolvedView, VoltPackage};
use crate::specifier::strings_view;

verus! {

/// A key of a lockfile: a package name and a concrete version.
#[derive(Clone, Debug)]
pub struct DependencyID(pub String, pub String);

impl DependencyID {
    /// A copy of this key.
    pub fn copy(&self) -> (r: DependencyID)
        ensures
            r@ == self@,
    {
        DependencyID(self.0.clone(), self.1.clone())
    }
}

impl View for DependencyID {
    type V = (Seq<char>, Seq<char>);

    open spec fn view(&self) -> (Seq<char>, Seq<char>) {
        (self.0@, self.1@)
    }
}

/// What the contracts see of a locked package.
pub struct LockEntryView {
    pub name: Seq<char>,
    pub version: Seq<char>,
    pub tarball: Seq<char>,
    pub integrity: Seq<char>,
    pub dependencies: Seq<Seq<char>>,
}

/// The locked record of one resolved package: where it comes from, its
/// integrity, and the names of its direct dependencies.
#[derive(Clone, Debug)]
pub struct DependencyLock {
    pub name: String,
    pub version: String,
    pub tarball: String,
    pub integrity: String,
    pub dependencies: Vec<String>,
}

impl View for DependencyLock {
    type V = LockEntryView;

    open spec fn view(&self) -> LockEntryView {
        LockEntryView {
            name: self.name@,
            version: self.version@,
            tarball: self.tarball@,
            integrity: self.integrity@,
            dependencies: strings_view(self.dependencies@),
        }
    }
}

pub open spec fn lock_key(e: LockEntryView) -> (Seq<char>, Seq<char>) {
    (e.name, e.version)
}

pub open spec fn lock_views(v: Seq<DependencyLock>) -> Seq<LockEntryView> {
    v.map_values(|e: DependencyLock| e@)
}

pub open spec fn lock_pairs(v: Seq<LockEntryView>) -> Seq<((Seq<char>, Seq<char>), LockEntryView)> {
    v.map_values(|e: LockEntryView| (lock_key(e), e))
}

/// The map `m` with `e` inserted under its key, replacing any entry there.
pub open spec fn upserted(
    m: Map<(Seq<char>, Seq<char>), LockEntryView>,
    e: LockEntryView,
) -> Map<(Seq<char>, Seq<char>), LockEntryView> {
    m.insert(lock_key(e), e)
}

/// The lock record of a resolved package: its peer dependencies and bin
/// entries are dropped, an absent dependency list becomes empty.
pub open spec fn lock_of(p: ResolvedView) -> LockEntryView {
    LockEntryView {
        name: p.name,
        version: p.version,
        tarball: p.tarball,
        integrity: p.integrity,
        dependencies: match p.dependencies {
            Some(d) => d,
            None => Seq::empty(),
        },
    }
}

/// `m` after upserting the lock record of each package of `ps` in order.
pub open spec fn upserted_all(
    m: Map<(Seq<char>, Seq<char>), LockEntryView>,
    ps: Seq<ResolvedView>,
) -> Map<(Seq<char>, Seq<char>), LockEntryView>
    decreases ps.len(),
{
    if ps.len() == 0 {
        m
    } else {
        upserted(upserted_all(m, ps.drop_last()), lock_of(ps.last()))
    }
}

/// The lockfile a stored entry list loads as.
pub open spec fn loaded(path: Seq<char>, stored: Seq<LockEntryView>) -> (
    Seq<char>,
    Map<(Seq<char>, Seq<char>), LockEntryView>,
) {
    (path, fold_map(lock_pairs(stored)))
}

/// A lockfile bound to a path; no two of its entries share a key.
#[derive(Clone, Debug)]
pub struct LockFile {
    pub path: String,
    pub dependencies: Vec<DependencyLock>,
}

/// What reading a lockfile's path gave.
#[derive(Clone, Debug)]
pub enum StoredLock {
    /// No file exists at the path.
    Missing,
    /// The file exists but could not be read or decoded.
    Unreadable,
    /// The entries that the file lists.
    Entries(Vec<DependencyLock>),
}

/// Why a lockfile could not be loaded or persisted.
#[derive(Clone, Debug, PartialEq, Eq)]
pub enum LockError {
    Io,
}

impl View for LockFile {
    type V = (Seq<char>, Map<(Seq<char>, Seq<char>), LockEntryView>);

    open spec fn view(&self) -> (Seq<char>, Map<(Seq<char>, Seq<char>), LockEntryView>) {
        loaded(self.path@, lock_views(self.dependencies@))
    }
}

impl DependencyLock {
    /// A copy of this record.
    pub fn copy(&self) -> (r: DependencyLock)
        ensures
            r@ == self@,
    {
        DependencyLock {
            name: self.name.clone(),
            version: self.version.clone(),
            tarball: self.tarball.clone(),
            integrity: self.integrity.clone(),
            dependencies: copy_strings(&self.dependencies),
        }
    }

    /// The lock record of a resolved package.
    pub fn from_package(p: &VoltPackage) -> (r: DependencyLock)
        ensures
            r@ == lock_of(p@),
    {
        let dependencies = match &p.dependencies {
            Some(d) => copy_strings(d),
            None => {
                let v: Vec<String> = Vec::new();
                assert(strings_view(v@) =~= Seq::<Seq<char>>::empty());
                v
            },
        };
        DependencyLock {
            name: p.name.clone(),
            version: p.version.clone(),
            tarball: p.tarball.clone(),
            integrity: p.integrity.clone(),
            dependencies,
        }
    }

    /// The key of this record.
    pub fn id(&self) -> (r: DependencyID)
        ensures
            r@ == lock_key(self@),
    {
        DependencyID(self.name.clone(), self.version.clone())
    }
}

impl LockFile {
    pub open spec fn wf(&self) -> bool {
        keys_unique(lock_pairs(lock_views(self.dependencies@)))
    }

    /// An empty lockfile bound to `path`.
    pub fn new(path: String) -> (r: LockFile)
        ensures
            r.wf(),
            r@.0 == path@,
            r@.1 == Map::<(Seq<char>, Seq<char>), LockEntryView>::empty(),
    {
        let r = LockFile { path, dependencies: Vec::new() };
        assert(lock_pairs(lock_views(r.dependencies@)) =~= Seq::empty());
        r
    }

    /// Inserts `entry` under its key, replacing the entry there if any.
    pub fn upsert(&mut self, entry: DependencyLock)
        requires
            old(self).wf(),
        ensures
            final(self).wf(),
            final(self)@ == (old(self)@.0, upserted(old(self)@.1, entry@)),
    {
        let ghost s = lock_pairs(lock_views(self.dependencies@));
        let mut i: usize = 0;
        while i < self.dependencies.len()
            invariant
                i <= self.dependencies@.len(),
                *self == *old(self),
                s == lock_pairs(lock_views(self.dependencies@)),
                keys_unique(s),
                forall|j: int| 0 <= j < i ==> s[j].0 != lock_key(entry@),
            decreases self.dependencies.len() - i,
        {
            if self.dependencies[i].name == entry.name && self.dependencies[i].version
                == entry.version {
                proof {
                    lemma_fold_update(s, i as int, entry@);
                }
                self.dependencies[i] = entry;
                assert(lock_pairs(lock_views(self.dependencies@)) =~= s.update(
                    i as int,
                    (s[i as int].0, entry@),
                ));
                return;
            }
            i = i + 1;
        }
        proof {
            lemma_push_unique(s, (lock_key(entry@), entry@));
        }
        self.dependencies.push(entry);
        assert(lock_pairs(lock_views(self.dependencies@)) =~= s.push((lock_key(entry@), entry@)));
        assert(s.push((lock_key(entry@), entry@)).drop_last() =~= s);
    }

    /// The lockfile bound to `path`, from what reading that path gave: a
    /// missing file is a fresh empty lockfile, an unreadable one an error.
    pub fn load(path: String, stored: StoredLock) -> (r: Result<LockFile, LockError>)
        ensures
            match stored {
                StoredLock::Missing => r matches Ok(l) && l.wf() && l@ == loaded(
                    path@,
                    Seq::empty(),
                ),
                StoredLock::Unreadable => r == Err::<LockFile, LockError>(LockError::Io),
                StoredLock::Entries(v) => r matches Ok(l) && l.wf() && l@ == loaded(
                    path@,
                    lock_views(v@),
                ),
            },
    {
        match stored {
            StoredLock::Missing => {
                let l = LockFile::new(path);
                assert(lock_pairs(Seq::<LockEntryView>::empty()) =~= Seq::empty());
                Ok(l)
            },
            StoredLock::Unreadable => Err(LockError::Io),
            StoredLock::Entries(v) => {
                let mut l = LockFile::new(path);
                let mut i: usize = 0;
                assert(lock_pairs(lock_views(v@.subrange(0, 0))) =~= Seq::empty());
                while i < v.len()
                    invariant
                        i <= v@.len(),
                        l.wf(),
                        l@ == loaded(path@, lock_views(v@.subrange(0, i as int))),
                    decreases v.len() - i,
                {
                    l.upsert(v[i].copy());
                    assert(lock_pairs(lock_views(v@.subrange(0, i + 1))).drop_last() =~= lock_pairs(
                        lock_views(v@.subrange(0, i as int)),
                    ));
                    i = i + 1;
                }
                assert(v@.subrange(0, i as int) =~= v@);
                Ok(l)
            },
        }
    }

    /// The entries to persist: one per key, as the lockfile holds them.
    pub fn entries(&self) -> (r: Vec<DependencyLock>)
        ensures
            lock_views(r@) == lock_views(self.dependencies@),
    {
        let mut out: Vec<DependencyLock> = Vec::new();
        let mut i: usize = 0;
        while i < self.dependencies.len()
            invariant
                i <= self.dependencies@.len(),
                out@.len() == i,
                forall|j: int| 0 <= j < i ==> #[trigger] out@[j]@ == self.dependencies@[j]@,
            decreases self.dependencies.len() - i,
        {
            out.push(self.dependencies[i].copy());
            i = i + 1;
        }
        assert(lock_views(out@) =~= lock_views(self.dependencies@));
        out
    }

    /// Whether the lockfile holds an entry under `id`.
    pub fn contains(&self, id: &DependencyID) -> (r: bool)
        requires
            self.wf(),
        ensures
            r == self@.1.dom().contains(id@),
    {
        let ghost s = lock_pairs(lock_views(self.dependencies@));
        let mut i: usize = 0;
        while i < self.dependencies.len()
            invariant
                i <= self.dependencies@.len(),
                s == lock_pairs(lock_views(self.dependencies@)),
                forall|j: int| 0 <= j < i ==> s[j].0 != id@,
            decreases self.dependencies.len() - i,
        {
            if self.dependencies[i].name == id.0 && self.dependencies[i].version == id.1 {
                proof {
                    crate::keyed::lemma_fold_dom(s, id@);
                }
                assert(s[i as int].0 == id@);
                return true;
            }
            i = i + 1;
        }
        proof {
            crate::keyed::lemma_fold_dom(s, id@);
        }
        false
    }
}

/// Upserts one entry into the project lockfile and the global one alike.
pub fn upsert_both(local: &mut LockFile, global: &mut LockFile, entry: DependencyLock)
    requires
        old(local).wf(),
        old(global).wf(),
    ensures
        final(local).wf(),
        final(global).wf(),
        final(local)@ == (old(local)@.0, upserted(old(local)@.1, entry@)),
        final(global)@ == (old(global)@.0, upserted(old(global)@.1, entry@)),
{
    let copy = entry.copy();
    local.upsert(entry);
    global.upsert(copy);
}

/// Records every resolved package in both lockfiles.
pub fn record_resolved(local: &mut LockFile, global: &mut LockFile, packages: &Vec<VoltPackage>)
    requires
        old(local).wf(),
        old(global).wf(),
    ensures
        final(local).wf(),
        final(global).wf(),
        final(local)@ == (old(local)@.0, upserted_all(
            old(local)@.1,
            crate::registry::resolved_views(packages@),
        )),
        final(global)@ == (old(global)@.0, upserted_all(
            old(global)@.1,
            crate::registry::resolved_views(packages@),
        )),
{
    let ghost ps = crate::registry::resolved_views(packages@);
    let mut i: usize = 0;
    assert(ps.subrange(0, 0) =~= Seq::<ResolvedView>::empty());
    while i < packages.len()
        invariant
            i <= packages@.len(),
            ps == crate::registry::resolved_views(packages@),
            local.wf(),
            global.wf(),
            local@ == (old(local)@.0, upserted_all(old(local)@.1, ps.subrange(0, i as int))),
            global@ == (old(global)@.0, upserted_all(old(global)@.1, ps.subrange(0, i as int))),
        decreases packages.len() - i,
    {
        upsert_both(local, global, DependencyLock::from_package(&packages[i]));
        assert(ps.subrange(0, i + 1).drop_last() =~= ps.subrange(0, i as int));
        i = i + 1;
    }
    assert(ps.subrange(0, i as int) =~= ps);
}

/// Upserting the same entry twice leaves the lockfile as upserting it once.
pub proof fn lemma_upsert_idempotent(
    m: Map<(Seq<char>, Seq<char>), LockEntryView>,
    e: LockEntryView,
)
    ensures
        upserted(upserted(m, e), e) == upserted(m, e),
{
    assert(upserted(upserted(m, e), e) =~= upserted(m, e));
}

/// Loading what a lockfile persists reproduces its mapping and its path.
pub proof fn lemma_persist_load_round_trip(l: LockFile, stored: Seq<LockEntryView>)
    requires
        stored == lock_views(l.dependencies@),
    ensures
        loaded(l.path@, stored) == l@,
{
}

/// Recording packages in both lockfiles puts each of them in both, so that
/// a global lockfile that held every key of the local one still does.
pub proof fn lemma_global_covers_local(
    local: Map<(Seq<char>, Seq<char>), LockEntryView>,
    global: Map<(Seq<char>, Seq<char>), LockEntryView>,
    ps: Seq<ResolvedView>,
)
    requires
        local.dom().subset_of(global.dom()),
    ensures
        upserted_all(local, ps).dom().subset_of(upserted_all(global, ps).dom()),
        forall|i: int|
            0 <= i < ps.len() ==> upserted_all(local, ps).dom().contains(key_of(#[trigger] ps[i]))
                && upserted_all(global, ps).dom().contains(key_of(ps[i])),
    decreases ps.len(),
{
    if ps.len() > 0 {
        lemma_global_covers_local(local, global, ps.drop_last());
        assert forall|i: int| 0 <= i < ps.len() implies upserted_all(local, ps).dom().contains(
            key_of(#[trigger] ps[i]),
        ) && upserted_all(global, ps).dom().contains(key_of(ps[i])) by {
            if i < ps.len() - 1 {
                assert(ps.drop_last()[i] == ps[i]);
            }
        }
    }
}

} // verus!
