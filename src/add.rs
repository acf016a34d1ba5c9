//! The `add` command's control flow as a state machine, the requests it
//! sends, and the decisions of the `info` command.

use vstd::prelude::*;
use crate::specifier::{opt_view, packages_view, trim, trimmed, Package};

verus! {

/// The `add` command: resolve, lock and install requested packages, then
/// record them in the project manifest.
#[derive(Clone, Debug)]
pub struct Add {}

/// The stages of an `add` operation, in the order they run.
#[derive(Clone, Copy, Debug, PartialEq, Eq)]
pub enum AddState {
    ParsingInput,
    FetchingTree,
    MergingDependencies,
    ReconcilingLockfiles,
    CheckingPeers,
    Installing,
    UpdatingManifest,
    Done,
    Failed,
}

/// The stage that follows `s` when it succeeds.
pub open spec fn successor(s: AddState) -> AddState {
    match s {
        AddState::ParsingInput => AddState::FetchingTree,
        AddState::FetchingTree => AddState::MergingDependencies,
        AddState::MergingDependencies => AddState::ReconcilingLockfiles,
        AddState::ReconcilingLockfiles => AddState::CheckingPeers,
        AddState::CheckingPeers => AddState::Installing,
        AddState::Installing => AddState::UpdatingManifest,
        AddState::UpdatingManifest => AddState::Done,
        AddState::Done => AddState::Done,
        AddState::Failed => AddState::Failed,
    }
}

pub open spec fn is_terminal(s: AddState) -> bool {
    s == AddState::Done || s == AddState::Failed
}

/// The requests of `s` with repeats removed, first occurrences kept.
pub open spec fn distinct<T>(s: Seq<T>) -> Seq<T>
    decreases s.len(),
{
    if s.len() == 0 {
        Seq::empty()
    } else {
        let d = distinct(s.drop_last());
        if d.contains(s.last()) {
            d
        } else {
            d.push(s.last())
        }
    }
}

/// Removing repeats keeps exactly the values of `s`, each once.
pub proof fn lemma_distinct<T>(s: Seq<T>)
    ensures
        distinct(s).no_duplicates(),
        distinct(s).to_set() == s.to_set(),
    decreases s.len(),
{
    if s.len() > 0 {
        let d = distinct(s.drop_last());
        lemma_distinct(s.drop_last());
        assert(s.to_set() =~= s.drop_last().to_set().insert(s.last())) by {
            assert forall|x: T| s.to_set().contains(x) implies s.drop_last().to_set().insert(
                s.last(),
            ).contains(x) by {
                let i = choose|i: int| 0 <= i < s.len() && s[i] == x;
                if i < s.len() - 1 {
                    assert(s.drop_last()[i] == x);
                }
            }
            assert forall|x: T| s.drop_last().to_set().contains(x) implies s.to_set().contains(
                x,
            ) by {
                let i = choose|i: int| 0 <= i < s.drop_last().len() && s.drop_last()[i] == x;
                assert(s[i] == x);
            }
        }
        if d.contains(s.last()) {
            assert(d.to_set().contains(s.last()));
            assert(d.to_set() =~= d.to_set().insert(s.last()));
        } else {
            assert(d.push(s.last()).to_set() =~= d.to_set().insert(s.last())) by {
                assert forall|x: T| d.push(s.last()).to_set().contains(x) implies d.to_set().insert(
                    s.last(),
                ).contains(x) by {
                    let i = choose|i: int| 0 <= i < d.push(s.last()).len() && d.push(s.last())[i] == x;
                    if i < d.len() {
                        assert(d[i] == x);
                    }
                }
                assert forall|x: T| d.to_set().insert(s.last()).contains(x) implies d.push(
                    s.last(),
                ).to_set().contains(x) by {
                    if x == s.last() {
                        assert(d.push(s.last())[d.len() as int] == x);
                    } else {
                        let i = choose|i: int| 0 <= i < d.len() && d[i] == x;
                        assert(d.push(s.last())[i] == x);
                    }
                }
            }
            assert(d.push(s.last()).no_duplicates()) by {
                assert forall|i: int, j: int|
                    0 <= i < d.push(s.last()).len() && 0 <= j < d.push(s.last()).len() && i != j
                        implies d.push(s.last())[i] != d.push(s.last())[j] by {
                    if i < d.len() && j < d.len() {
                    } else if i < d.len() {
                        assert(d.contains(d[i]));
                    } else {
                        assert(d.contains(d[j]));
                    }
                }
            }
        }
    }
}

/// Requesting the same package twice fetches and installs it once: the
/// distinct requests have no repeats and cover every request.
pub proof fn lemma_repeated_request_sent_once(reqs: Seq<(Seq<char>, Option<Seq<char>>)>)
    ensures
        distinct(reqs).no_duplicates(),
        forall|i: int| 0 <= i < reqs.len() ==> distinct(reqs).contains(#[trigger] reqs[i]),
        forall|x| distinct(reqs).contains(x) ==> reqs.contains(x),
{
    lemma_distinct(reqs);
    assert forall|i: int| 0 <= i < reqs.len() implies distinct(reqs).contains(#[trigger] reqs[i]) by {
        assert(reqs.to_set().contains(reqs[i]));
        assert(distinct(reqs).to_set().contains(reqs[i]));
    }
    assert forall|x| distinct(reqs).contains(x) implies reqs.contains(x) by {
        assert(distinct(reqs).to_set().contains(x));
        assert(reqs.to_set().contains(x));
    }
}

fn same_package(a: &Package, b: &Package) -> (r: bool)
    ensures
        r == (a@ == b@),
{
    if a.name != b.name {
        return false;
    }
    match (&a.version, &b.version) {
        (Some(x), Some(y)) => *x == *y,
        (None, None) => true,
        _ => false,
    }
}

fn copy_package_ref(p: &Package) -> (r: Package)
    ensures
        r@ == p@,
{
    Package {
        name: p.name.clone(),
        version: match &p.version {
            Some(v) => Some(v.clone()),
            None => None,
        },
    }
}

impl Add {
    /// The stage after `state`: the next one where the step succeeded,
    /// `Failed` where it did not; `Done` and `Failed` are final.
    pub fn next(state: AddState, step_ok: bool) -> (r: AddState)
        ensures
            r == if is_terminal(state) {
                state
            } else if step_ok {
                successor(state)
            } else {
                AddState::Failed
            },
    {
        match state {
            AddState::Done => AddState::Done,
            AddState::Failed => AddState::Failed,
            _ => {
                if !step_ok {
                    AddState::Failed
                } else {
                    match state {
                        AddState::ParsingInput => AddState::FetchingTree,
                        AddState::FetchingTree => AddState::MergingDependencies,
                        AddState::MergingDependencies => AddState::ReconcilingLockfiles,
                        AddState::ReconcilingLockfiles => AddState::CheckingPeers,
                        AddState::CheckingPeers => AddState::Installing,
                        AddState::Installing => AddState::UpdatingManifest,
                        _ => AddState::Done,
                    }
                }
            },
        }
    }

    /// The requests to send to the registry: each requested package once,
    /// in the order first requested.
    pub fn distinct_requests(refs: &Vec<Package>) -> (r: Vec<Package>)
        ensures
            packages_view(r@) == distinct(packages_view(refs@)),
    {
        let ghost v = packages_view(refs@);
        let mut out: Vec<Package> = Vec::new();
        let mut i: usize = 0;
        assert(v.subrange(0, 0) =~= Seq::<(Seq<char>, Option<Seq<char>>)>::empty());
        assert(packages_view(out@) =~= Seq::empty());
        while i < refs.len()
            invariant
                i <= refs@.len(),
                v == packages_view(refs@),
                packages_view(out@) == distinct(v.subrange(0, i as int)),
            decreases refs.len() - i,
        {
            let ghost d = packages_view(out@);
            assert(v.subrange(0, i + 1).drop_last() =~= v.subrange(0, i as int));
            assert(v.subrange(0, i + 1).last() == refs@[i as int]@);
            let mut found = false;
            let mut j: usize = 0;
            while j < out.len()
                invariant
                    j <= out@.len(),
                    i < refs@.len(),
                    d == packages_view(out@),
                    found == exists|k: int| 0 <= k < j && d[k] == refs@[i as int]@,
                decreases out.len() - j,
            {
                let same = same_package(&out[j], &refs[i]);
                assert(d[j as int] == out@[j as int]@);
                if same {
                    found = true;
                }
                j = j + 1;
            }
            if !found {
                let p = copy_package_ref(&refs[i]);
                out.push(p);
                assert(packages_view(out@) =~= d.push(p@));
            } else {
                proof {
                    let k = choose|k: int| 0 <= k < j && d[k] == refs@[i as int]@;
                    assert(d.contains(refs@[i as int]@));
                }
            }
            i = i + 1;
        }
        assert(v.subrange(0, i as int) =~= v);
        out
    }
}

/// The `info` command: show a package's registry metadata.
#[derive(Clone, Debug)]
pub struct Info {}

/// The package `info` shows: the first argument after the command word,
/// else the directory's name where no manifest is present, else empty.
pub open spec fn info_name(args: Seq<Seq<char>>, manifest_present: bool, dir_name: Seq<char>) -> Seq<
    char,
> {
    if args.len() > 1 {
        args[1]
    } else if !manifest_present {
        dir_name
    } else {
        Seq::empty()
    }
}

/// The field `info` shows: the second argument after the command word, or
/// empty for the summary.
pub open spec fn info_field(args: Seq<Seq<char>>) -> Seq<char> {
    if args.len() > 2 {
        args[2]
    } else {
        Seq::empty()
    }
}

/// The readme `info` prints: the package's own where it holds more than
/// white space, else the latest version's, and none where that is empty.
pub open spec fn chosen_readme(own: Option<Seq<char>>, latest: Option<Seq<char>>) -> Option<
    Seq<char>,
> {
    let text = match own {
        Some(t) if trimmed(t).len() > 0 => t,
        _ => match latest {
            Some(t) => t,
            None => Seq::empty(),
        },
    };
    if text.len() > 0 {
        Some(text)
    } else {
        None
    }
}

impl Info {
    /// The package name and the field that `info` was asked for; `args`
    /// starts with the command word.
    pub fn target(args: &Vec<String>, manifest_present: bool, dir_name: &String) -> (r: (
        String,
        String,
    ))
        ensures
            r.0@ == info_name(crate::specifier::strings_view(args@), manifest_present, dir_name@),
            r.1@ == info_field(crate::specifier::strings_view(args@)),
    {
        let name = if args.len() > 1 {
            args[1].clone()
        } else if !manifest_present {
            dir_name.clone()
        } else {
            String::new()
        };
        let field = if args.len() > 2 {
            args[2].clone()
        } else {
            String::new()
        };
        (name, field)
    }

    /// The readme to print, from the package's own and the latest
    /// version's.
    pub fn readme_text(own: &Option<String>, latest: &Option<String>) -> (r: Option<String>)
        ensures
            opt_view(r) == chosen_readme(opt_view(*own), opt_view(*latest)),
    {
        let text = match own {
            Some(t) if trim(t.as_str()).as_str().unicode_len() > 0 => t.clone(),
            _ => match latest {
                Some(t) => t.clone(),
                None => String::new(),
            },
        };
        if text.as_str().unicode_len() > 0 {
            Some(text)
        } else {
            None
        }
    }
}

} // verus!
