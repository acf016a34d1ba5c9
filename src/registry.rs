//! The registry's flattened dependency tree format, the interpretation of a
//! registry reply, and the merging of several replies into one set of
//! resolved packages keyed by (name, version).

use std::collections::HashMap;
use vstd::prelude::*;
use crate::keyed::{fold_map, keys_unique, lemma_fold_dom, lemma_fold_update, lemma_push_unique};
use crate::specifier::{strings_view, Package};

verus! {

/// What the contracts see of a resolved package.
pub struct ResolvedView {
    pub name: Seq<char>,
    pub version: Seq<char>,
    pub tarball: Seq<char>,
    pub integrity: Seq<char>,
    pub peer_dependencies: Option<Seq<Seq<char>>>,
    pub dependencies: Option<Seq<Seq<char>>>,
}

/// One concrete version of a package as the registry resolved it.
#[derive(Clone, Debug)]
pub struct VoltPackage {
    pub name: String,
    pub version: String,
    pub tarball: String,
    pub bin: Option<HashMap<String, String>>,
    pub integrity: String,
    pub peer_dependencies: Option<Vec<String>>,
    pub dependencies: Option<Vec<String>>,
}

pub open spec fn opt_strings_view(o: Option<Vec<String>>) -> Option<Seq<Seq<char>>> {
    match o {
        Some(v) => Some(strings_view(v@)),
        None => None,
    }
}

impl View for VoltPackage {
    type V = ResolvedView;

    open spec fn view(&self) -> ResolvedView {
        ResolvedView {
            name: self.name@,
            version: self.version@,
            tarball: self.tarball@,
            integrity: self.integrity@,
            peer_dependencies: opt_strings_view(self.peer_dependencies),
            dependencies: opt_strings_view(self.dependencies),
        }
    }
}

/// The identity of a resolved package: its name and its version.
pub open spec fn key_of(p: ResolvedView) -> (Seq<char>, Seq<char>) {
    (p.name, p.version)
}

pub open spec fn resolved_views(v: Seq<VoltPackage>) -> Seq<ResolvedView> {
    v.map_values(|p: VoltPackage| p@)
}

/// The packages as (key, record) pairs.
pub open spec fn keyed_pairs(v: Seq<ResolvedView>) -> Seq<((Seq<char>, Seq<char>), ResolvedView)> {
    v.map_values(|p: ResolvedView| (key_of(p), p))
}

/// The registry's answer for one requested package: the version that the
/// request resolved to, and for each version the full flattened closure of
/// packages that it needs.
#[derive(Clone, Debug)]
pub struct VoltResponse {
    pub version: String,
    pub versions: Vec<(String, Vec<VoltPackage>)>,
}

pub open spec fn tree_views(t: Seq<(String, Vec<VoltPackage>)>) -> Seq<(Seq<char>, Seq<ResolvedView>)> {
    t.map_values(|e: (String, Vec<VoltPackage>)| (e.0@, resolved_views(e.1@)))
}

impl View for VoltResponse {
    type V = (Seq<char>, Seq<(Seq<char>, Seq<ResolvedView>)>);

    open spec fn view(&self) -> (Seq<char>, Seq<(Seq<char>, Seq<ResolvedView>)>) {
        (self.version@, tree_views(self.versions@))
    }
}

/// A package record of the registry's JSON index format.
#[derive(Clone, Debug)]
pub struct JSONVoltPackage {
    pub integrity: String,
    pub tarball: String,
    pub bin: Option<HashMap<String, String>>,
    pub dependencies: Option<Vec<String>>,
    pub peer_dependencies: Option<Vec<String>>,
}

/// The registry's JSON index of a package: its latest version, the schema
/// number, and per version the packages by name.
#[derive(Clone, Debug)]
pub struct JSONVoltResponse {
    pub latest: String,
    pub schema: u8,
    pub versions: Vec<(String, Vec<(String, JSONVoltPackage)>)>,
}

/// The closure listed under `tag`: the first entry with that version.
pub open spec fn tree_for(t: Seq<(Seq<char>, Seq<ResolvedView>)>, tag: Seq<char>) -> Option<
    Seq<ResolvedView>,
>
    decreases t.len(),
{
    if t.len() == 0 {
        None
    } else if t[0].0 == tag {
        Some(t[0].1)
    } else {
        tree_for(t.drop_first(), tag)
    }
}

/// All packages that the responses resolved, in order, or `None` where a
/// response lacks the closure of the version it names.
pub open spec fn selected(rs: Seq<(Seq<char>, Seq<(Seq<char>, Seq<ResolvedView>)>)>) -> Option<
    Seq<ResolvedView>,
>
    decreases rs.len(),
{
    if rs.len() == 0 {
        Some(Seq::empty())
    } else {
        match (selected(rs.drop_last()), tree_for(rs.last().1, rs.last().0)) {
            (Some(a), Some(b)) => Some(a + b),
            _ => None,
        }
    }
}

pub open spec fn response_views(v: Seq<VoltResponse>) -> Seq<
    (Seq<char>, Seq<(Seq<char>, Seq<ResolvedView>)>),
> {
    v.map_values(|r: VoltResponse| r@)
}

/// Why a batch of registry replies could not be used.
#[derive(Clone, Debug, PartialEq, Eq)]
pub enum RegistryError {
    /// The registry could not be reached.
    Network,
    /// The body of a reply was not a valid response.
    Decode,
    /// A response names a version whose closure it does not list.
    MissingVersion,
}

/// A reply of the registry as the transport delivered it: unreachable, or a
/// status with the decoded body (`None` where it did not decode).
#[derive(Clone, Debug)]
pub enum RegistryReply {
    Unreachable,
    Answered { status: u16, body: Option<VoltResponse> },
}

/// Whether an HTTP status is a client error (4xx).
pub open spec fn is_client_error(status: u16) -> bool {
    400 <= status && status < 500
}

/// Interprets one reply: a client error status means the package does not
/// exist (`Ok(None)`); a transport failure or an undecodable body is an
/// error.
pub fn interpret_reply(reply: RegistryReply) -> (r: Result<Option<VoltResponse>, RegistryError>)
    ensures
        match reply {
            RegistryReply::Unreachable => r == Err::<Option<VoltResponse>, RegistryError>(
                RegistryError::Network,
            ),
            RegistryReply::Answered { status, body } => if is_client_error(status) {
                r == Ok::<Option<VoltResponse>, RegistryError>(None)
            } else {
                match body {
                    Some(b) => r == Ok::<Option<VoltResponse>, RegistryError>(Some(b)),
                    None => r == Err::<Option<VoltResponse>, RegistryError>(
                        RegistryError::Decode,
                    ),
                }
            },
        },
{
    match reply {
        RegistryReply::Unreachable => Err(RegistryError::Network),
        RegistryReply::Answered { status, body } => {
            if 400 <= status && status < 500 {
                Ok(None)
            } else {
                match body {
                    Some(b) => Ok(Some(b)),
                    None => Err(RegistryError::Decode),
                }
            }
        },
    }
}

/// A copy of a list of strings.
pub fn copy_strings(v: &Vec<String>) -> (r: Vec<String>)
    ensures
        r@ == v@,
{
    let mut out: Vec<String> = Vec::new();
    let mut i: usize = 0;
    while i < v.len()
        invariant
            i <= v.len(),
            out@ == v@.subrange(0, i as int),
        decreases v.len() - i,
    {
        out.push(v[i].clone());
        i = i + 1;
        assert(out@ =~= v@.subrange(0, i as int));
    }
    assert(v@.subrange(0, i as int) =~= v@);
    out
}

pub fn copy_opt_strings(o: &Option<Vec<String>>) -> (r: Option<Vec<String>>)
    ensures
        opt_strings_view(r) == opt_strings_view(*o),
{
    match o {
        Some(v) => Some(copy_strings(v)),
        None => None,
    }
}

impl VoltPackage {
    /// A copy of this package with the same record.
    pub fn copy(&self) -> (r: VoltPackage)
        ensures
            r@ == self@,
    {
        VoltPackage {
            name: self.name.clone(),
            version: self.version.clone(),
            tarball: self.tarball.clone(),
            bin: self.bin.clone(),
            integrity: self.integrity.clone(),
            peer_dependencies: copy_opt_strings(&self.peer_dependencies),
            dependencies: copy_opt_strings(&self.dependencies),
        }
    }
}

/// Inserts `p` into a set of packages with distinct keys, replacing the
/// package with the same (name, version) if there is one.
pub fn insert_package(acc: &mut Vec<VoltPackage>, p: VoltPackage)
    requires
        keys_unique(keyed_pairs(resolved_views(old(acc)@))),
    ensures
        keys_unique(keyed_pairs(resolved_views(final(acc)@))),
        fold_map(keyed_pairs(resolved_views(final(acc)@))) == fold_map(
            keyed_pairs(resolved_views(old(acc)@)),
        ).insert(key_of(p@), p@),
{
    let ghost s = keyed_pairs(resolved_views(acc@));
    let mut i: usize = 0;
    while i < acc.len()
        invariant
            i <= acc.len(),
            acc@ == old(acc)@,
            s == keyed_pairs(resolved_views(acc@)),
            keys_unique(s),
            forall|j: int| 0 <= j < i ==> s[j].0 != key_of(p@),
        decreases acc.len() - i,
    {
        if acc[i].name == p.name && acc[i].version == p.version {
            proof {
                lemma_fold_update(s, i as int, p@);
            }
            acc[i] = p;
            assert(keyed_pairs(resolved_views(acc@)) =~= s.update(i as int, (s[i as int].0, p@)));
            return;
        }
        i = i + 1;
    }
    proof {
        lemma_push_unique(s, (key_of(p@), p@));
    }
    acc.push(p);
    assert(keyed_pairs(resolved_views(acc@)) =~= s.push((key_of(p@), p@)));
    assert(s.push((key_of(p@), p@)).drop_last() =~= s);
}

/// The packages of all responses, by (name, version), a later one replacing
/// an earlier one with the same key; empty where `selected` fails.
pub open spec fn merged(rs: Seq<(Seq<char>, Seq<(Seq<char>, Seq<ResolvedView>)>)>) -> Map<
    (Seq<char>, Seq<char>),
    ResolvedView,
> {
    match selected(rs) {
        Some(s) => fold_map(keyed_pairs(s)),
        None => Map::empty(),
    }
}

/// The position of the first entry of `t` listed under `tag`.
pub fn find_tree(t: &Vec<(String, Vec<VoltPackage>)>, tag: &String) -> (r: Option<usize>)
    ensures
        match r {
            Some(i) => i < t@.len() && tree_for(tree_views(t@), tag@) == Some(
                resolved_views(t@[i as int].1@),
            ),
            None => tree_for(tree_views(t@), tag@) is None,
        },
{
    let ghost tv = tree_views(t@);
    let mut i: usize = 0;
    assert(tv.subrange(0, tv.len() as int) =~= tv);
    while i < t.len()
        invariant
            i <= t@.len(),
            tv == tree_views(t@),
            tree_for(tv, tag@) == tree_for(tv.subrange(i as int, tv.len() as int), tag@),
        decreases t.len() - i,
    {
        assert(tv.subrange(i as int, tv.len() as int).drop_first() =~= tv.subrange(
            i + 1,
            tv.len() as int,
        ));
        if t[i].0 == *tag {
            return Some(i);
        }
        i = i + 1;
    }
    None
}

proof fn lemma_selected_prefix(rs: Seq<(Seq<char>, Seq<(Seq<char>, Seq<ResolvedView>)>)>, i: int)
    requires
        0 <= i <= rs.len(),
        selected(rs.subrange(0, i)) is None,
    ensures
        selected(rs) is None,
    decreases rs.len(),
{
    if i < rs.len() {
        assert(rs.drop_last().subrange(0, i) =~= rs.subrange(0, i));
        lemma_selected_prefix(rs.drop_last(), i);
    } else {
        assert(rs.subrange(0, i) =~= rs);
    }
}

pub proof fn lemma_keyed_push(s: Seq<ResolvedView>, p: ResolvedView)
    ensures
        fold_map(keyed_pairs(s.push(p))) == fold_map(keyed_pairs(s)).insert(key_of(p), p),
{
    assert(keyed_pairs(s.push(p)).drop_last() =~= keyed_pairs(s));
}

/// Merges the closures that the responses resolved into one set of
/// packages with distinct (name, version) keys; two packages of one name
/// and different versions are both kept.
pub fn merge_responses(responses: &Vec<VoltResponse>) -> (r: Result<Vec<VoltPackage>, RegistryError>)
    ensures
        match r {
            Ok(v) => {
                &&& selected(response_views(responses@)) is Some
                &&& keys_unique(keyed_pairs(resolved_views(v@)))
                &&& fold_map(keyed_pairs(resolved_views(v@))) == merged(
                    response_views(responses@),
                )
            },
            Err(e) => e == RegistryError::MissingVersion && selected(
                response_views(responses@),
            ) is None,
        },
{
    let ghost rv = response_views(responses@);
    let mut acc: Vec<VoltPackage> = Vec::new();
    let ghost mut done: Seq<ResolvedView> = Seq::empty();
    let mut i: usize = 0;
    assert(rv.subrange(0, 0) =~= Seq::<(Seq<char>, Seq<(Seq<char>, Seq<ResolvedView>)>)>::empty());
    assert(keyed_pairs(resolved_views(acc@)) =~= Seq::empty());
    assert(keyed_pairs(done) =~= Seq::empty());
    while i < responses.len()
        invariant
            i <= responses@.len(),
            rv == response_views(responses@),
            selected(rv.subrange(0, i as int)) == Some(done),
            keys_unique(keyed_pairs(resolved_views(acc@))),
            fold_map(keyed_pairs(resolved_views(acc@))) == fold_map(keyed_pairs(done)),
        decreases responses.len() - i,
    {
        let res = &responses[i];
        assert(rv.subrange(0, i + 1).drop_last() =~= rv.subrange(0, i as int));
        assert(rv.subrange(0, i + 1).last() == res@);
        match find_tree(&res.versions, &res.version) {
            None => {
                proof {
                    lemma_selected_prefix(rv, i + 1);
                }
                return Err(RegistryError::MissingVersion);
            },
            Some(k) => {
                let tree = &res.versions[k].1;
                let ghost base = done;
                let mut j: usize = 0;
                assert(base + resolved_views(tree@).subrange(0, 0) =~= base);
                while j < tree.len()
                    invariant
                        j <= tree@.len(),
                        done == base + resolved_views(tree@).subrange(0, j as int),
                        keys_unique(keyed_pairs(resolved_views(acc@))),
                        fold_map(keyed_pairs(resolved_views(acc@))) == fold_map(
                            keyed_pairs(done),
                        ),
                    decreases tree.len() - j,
                {
                    let p = tree[j].copy();
                    insert_package(&mut acc, p);
                    proof {
                        lemma_keyed_push(done, p@);
                        done = done.push(p@);
                        assert(done =~= base + resolved_views(tree@).subrange(0, j + 1));
                    }
                    j = j + 1;
                }
                assert(resolved_views(tree@).subrange(0, j as int) =~= resolved_views(tree@));
            },
        }
        i = i + 1;
    }
    assert(rv.subrange(0, i as int) =~= rv);
    Ok(acc)
}

/// Whether `p` is among the packages that response `r` resolved.
pub open spec fn resolves(r: (Seq<char>, Seq<(Seq<char>, Seq<ResolvedView>)>), p: ResolvedView) -> bool {
    match tree_for(r.1, r.0) {
        Some(t) => t.contains(p),
        None => false,
    }
}

/// Merging two responses that resolved one package name to two different
/// versions keeps both versions, under two distinct keys.
pub proof fn lemma_merge_keeps_versions_apart(
    r1: (Seq<char>, Seq<(Seq<char>, Seq<ResolvedView>)>),
    r2: (Seq<char>, Seq<(Seq<char>, Seq<ResolvedView>)>),
    p: ResolvedView,
    q: ResolvedView,
)
    requires
        resolves(r1, p),
        resolves(r2, q),
        p.name == q.name,
        p.version != q.version,
    ensures
        merged(seq![r1, r2]).dom().contains(key_of(p)),
        merged(seq![r1, r2]).dom().contains(key_of(q)),
        key_of(p) != key_of(q),
{
    let rs = seq![r1, r2];
    let t1 = tree_for(r1.1, r1.0)->0;
    let t2 = tree_for(r2.1, r2.0)->0;
    assert(rs.drop_last() =~= seq![r1]);
    assert(seq![r1].drop_last() =~= Seq::<(Seq<char>, Seq<(Seq<char>, Seq<ResolvedView>)>)>::empty());
    let all = t1 + t2;
    let e = Seq::<(Seq<char>, Seq<(Seq<char>, Seq<ResolvedView>)>)>::empty();
    assert(selected(e) == Some(Seq::<ResolvedView>::empty()));
    assert(seq![r1].last() == r1);
    assert(rs.last() == r2);
    assert(selected(seq![r1]) == Some(Seq::<ResolvedView>::empty() + t1));
    assert(Seq::<ResolvedView>::empty() + t1 =~= t1);
    assert(selected(rs) == Some(all));
    let kp = keyed_pairs(all);
    let i = choose|i: int| 0 <= i < t1.len() && t1[i] == p;
    let j = choose|j: int| 0 <= j < t2.len() && t2[j] == q;
    assert(all[i] == p);
    assert(all[t1.len() + j] == q);
    assert(kp[i].0 == key_of(p));
    assert(kp[t1.len() + j].0 == key_of(q));
    lemma_fold_dom(kp, key_of(p));
    lemma_fold_dom(kp, key_of(q));
}

} // verus!
