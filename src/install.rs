//! Install planning: the deduplicated install set, integrity verification
//! of downloaded tarballs, where a package is extracted, and the summary of
//! a batch of installs.

use vstd::prelude::*;
use crate::keyed::{fold_map, keys_unique, lemma_fold_dom};
use crate::lockfile::DependencyID;
use crate::registry::{insert_package, key_of, keyed_pairs, lemma_keyed_push, resolved_views, ResolvedView, VoltPackage};
use crate::specifier::{is_white, is_white_char};

verus! {

/// Whether the SRI string `sri` (e.g. `sha512-...`) accepts `data`: it
/// parses, and the digest of `data` under its strongest algorithm is one
/// it lists.
pub uninterp spec fn sri_verifies(sri: Seq<char>, data: Seq<u8>) -> bool;

/// Whether `s` holds a character other than white space.
pub open spec fn has_token(s: Seq<char>) -> bool {
    exists|i: int| 0 <= i < s.len() && !is_white(s[i])
}

/// Relies on ssri 9: `Integrity::from_str` parses the SRI string and
/// `Integrity::check` hashes `data` with the string's strongest algorithm
/// and compares. `check` indexes the first parsed hash, and a string of
/// white space alone parses to none, hence the `requires`.
#[verifier::external_body]
fn sri_check(sri: &str, data: &[u8]) -> (r: bool)
    requires
        has_token(sri@),
    ensures
        r == sri_verifies(sri@, data@),
{
    match sri.parse::<ssri::Integrity>() {
        Ok(integrity) => integrity.check(data).is_ok(),
        Err(_) => false,
    }
}

/// The step of an install at which a package failed.
#[derive(Clone, Copy, Debug, PartialEq, Eq)]
pub enum InstallStep {
    Download,
    IntegrityMismatch,
    Extract,
}

/// Whether `s` holds a character other than white space.
pub fn holds_token(s: &str) -> (r: bool)
    ensures
        r == has_token(s@),
{
    let n = s.unicode_len();
    let mut i: usize = 0;
    while i < n
        invariant
            n == s@.len(),
            i <= n,
            forall|j: int| 0 <= j < i ==> is_white(s@[j]),
        decreases n - i,
    {
        if !is_white_char(s.get_char(i)) {
            return true;
        }
        i = i + 1;
    }
    false
}

/// Verifies downloaded tarball bytes against the integrity string that the
/// registry gave; an integrity string with nothing in it verifies nothing.
pub fn verify_tarball(integrity: &String, data: &Vec<u8>) -> (r: Result<(), InstallStep>)
    ensures
        r is Ok <==> has_token(integrity@) && sri_verifies(integrity@, data@),
        r is Err ==> r == Err::<(), InstallStep>(InstallStep::IntegrityMismatch),
{
    if !holds_token(integrity.as_str()) {
        return Err(InstallStep::IntegrityMismatch);
    }
    if sri_check(integrity.as_str(), data.as_slice()) {
        Ok(())
    } else {
        Err(InstallStep::IntegrityMismatch)
    }
}

/// The distinct packages of `packages` by (name, version), a later one
/// replacing an earlier one with the same key: each key is installed once.
pub fn dedup_packages(packages: &Vec<VoltPackage>) -> (r: Vec<VoltPackage>)
    ensures
        keys_unique(keyed_pairs(resolved_views(r@))),
        fold_map(keyed_pairs(resolved_views(r@))) == fold_map(
            keyed_pairs(resolved_views(packages@)),
        ),
{
    let ghost ps = resolved_views(packages@);
    let mut acc: Vec<VoltPackage> = Vec::new();
    let mut i: usize = 0;
    assert(keyed_pairs(resolved_views(acc@)) =~= Seq::empty());
    assert(keyed_pairs(ps.subrange(0, 0)) =~= Seq::empty());
    while i < packages.len()
        invariant
            i <= packages@.len(),
            ps == resolved_views(packages@),
            keys_unique(keyed_pairs(resolved_views(acc@))),
            fold_map(keyed_pairs(resolved_views(acc@))) == fold_map(
                keyed_pairs(ps.subrange(0, i as int)),
            ),
        decreases packages.len() - i,
    {
        let p = packages[i].copy();
        insert_package(&mut acc, p);
        proof {
            lemma_keyed_push(ps.subrange(0, i as int), p@);
            assert(ps.subrange(0, i as int).push(p@) =~= ps.subrange(0, i + 1));
        }
        i = i + 1;
    }
    assert(ps.subrange(0, i as int) =~= ps);
    acc
}

/// In an install set built from a list, two packages of the list with the
/// same (name, version) are one entry of the set: one extraction, one task.
pub proof fn lemma_duplicates_install_once(
    ps: Seq<ResolvedView>,
    set: Seq<ResolvedView>,
    i: int,
    j: int,
)
    requires
        keys_unique(keyed_pairs(set)),
        fold_map(keyed_pairs(set)) == fold_map(keyed_pairs(ps)),
        0 <= i < ps.len(),
        0 <= j < ps.len(),
        key_of(ps[i]) == key_of(ps[j]),
    ensures
        exists|a: int|
            0 <= a < set.len() && key_of(set[a]) == key_of(ps[i]) && forall|b: int|
                0 <= b < set.len() && key_of(#[trigger] set[b]) == key_of(ps[i]) ==> b == a,
{
    let k = key_of(ps[i]);
    assert(keyed_pairs(ps)[i].0 == k);
    lemma_fold_dom(keyed_pairs(ps), k);
    lemma_fold_dom(keyed_pairs(set), k);
    let a = choose|a: int| 0 <= a < set.len() && keyed_pairs(set)[a].0 == k;
    assert forall|b: int| 0 <= b < set.len() && key_of(#[trigger] set[b]) == k implies b == a by {
        assert(keyed_pairs(set)[b].0 == k);
    }
}

/// The directory of the package store that a package is extracted into:
/// `name@version`.
pub fn store_dir(p: &VoltPackage) -> (r: String)
    ensures
        r@ == p.name@ + seq!['@'] + p.version@,
{
    let mut dir = p.name.clone();
    dir.append("@");
    proof {
        reveal_strlit("@");
    }
    dir.append(p.version.as_str());
    dir
}

/// A package that could not be installed, and the step that failed.
#[derive(Clone, Debug)]
pub struct InstallFailure {
    pub id: DependencyID,
    pub step: InstallStep,
}

/// The outcome of an install batch: which packages were installed and which
/// failed, each failure with its step.
#[derive(Clone, Debug)]
pub struct InstallReport {
    pub installed: Vec<DependencyID>,
    pub failed: Vec<InstallFailure>,
}

pub open spec fn installed_ids(o: Seq<(DependencyID, Result<(), InstallStep>)>) -> Seq<
    (Seq<char>, Seq<char>),
> {
    o.filter_map(
        |x: (DependencyID, Result<(), InstallStep>)|
            if x.1 is Ok {
                Some(x.0@)
            } else {
                None
            },
    )
}

pub open spec fn failed_ids(o: Seq<(DependencyID, Result<(), InstallStep>)>) -> Seq<
    ((Seq<char>, Seq<char>), InstallStep),
> {
    o.filter_map(
        |x: (DependencyID, Result<(), InstallStep>)|
            match x.1 {
                Ok(_) => None,
                Err(s) => Some((x.0@, s)),
            },
    )
}

impl InstallReport {
    pub open spec fn installed_view(&self) -> Seq<(Seq<char>, Seq<char>)> {
        self.installed@.map_values(|d: DependencyID| d@)
    }

    pub open spec fn failed_view(&self) -> Seq<((Seq<char>, Seq<char>), InstallStep)> {
        self.failed@.map_values(|f: InstallFailure| (f.id@, f.step))
    }

    /// Collects the outcome of every install task of a batch, in the order
    /// they completed: nothing of the batch is dropped on a failure.
    pub fn summarize(outcomes: &Vec<(DependencyID, Result<(), InstallStep>)>) -> (r: InstallReport)
        ensures
            r.installed_view() == installed_ids(outcomes@),
            r.failed_view() == failed_ids(outcomes@),
    {
        let mut installed: Vec<DependencyID> = Vec::new();
        let mut failed: Vec<InstallFailure> = Vec::new();
        let mut i: usize = 0;
        let ghost o = outcomes@;
        assert(o.subrange(0, 0) =~= Seq::<(DependencyID, Result<(), InstallStep>)>::empty());
        assert(installed@.map_values(|d: DependencyID| d@) =~= Seq::empty());
        assert(failed@.map_values(|f: InstallFailure| (f.id@, f.step)) =~= Seq::empty());
        while i < outcomes.len()
            invariant
                i <= o.len(),
                o == outcomes@,
                installed@.map_values(|d: DependencyID| d@) == installed_ids(
                    o.subrange(0, i as int),
                ),
                failed@.map_values(|f: InstallFailure| (f.id@, f.step)) == failed_ids(
                    o.subrange(0, i as int),
                ),
            decreases outcomes.len() - i,
        {
            let ghost pre_i = installed@;
            let ghost pre_f = failed@;
            assert(o.subrange(0, i + 1).drop_last() =~= o.subrange(0, i as int));
            assert(o.subrange(0, i + 1).last() == o[i as int]);
            let id = outcomes[i].0.copy();
            match outcomes[i].1 {
                Ok(_) => {
                    installed.push(id);
                    assert(installed@.map_values(|d: DependencyID| d@) =~= pre_i.map_values(
                        |d: DependencyID| d@,
                    ).push(id@));
                },
                Err(step) => {
                    failed.push(InstallFailure { id, step });
                    assert(failed@.map_values(|f: InstallFailure| (f.id@, f.step))
                        =~= pre_f.map_values(|f: InstallFailure| (f.id@, f.step)).push(
                        (id@, step),
                    ));
                },
            }
            i = i + 1;
        }
        assert(o.subrange(0, i as int) =~= o);
        InstallReport { installed, failed }
    }

    /// Whether every package of the batch was installed.
    pub fn succeeded(&self) -> (r: bool)
        ensures
            r == (self.failed@.len() == 0),
    {
        self.failed.len() == 0
    }
}

} // verus!
