//! Advisory peer dependency checks: a requirement `name@range` is met when
//! the installed packages hold that name at a version the range admits.
//! Ranges are not evaluated beyond `*` and an exact version, so an unknown
//! range counts as unmet, which only ever adds a warning.

use vstd::prelude::*;
use crate::keyed::lemma_fold_dom;
use crate::lockfile::{lock_pairs, lock_views, LockEntryView, LockFile};
use crate::registry::{resolved_views, ResolvedView, VoltPackage};
use crate::specifier::{parse_one, parse_spec};

verus! {

/// Whether the installed packages `m` meet the requirement `req`.
pub open spec fn peer_satisfied(req: Seq<char>, m: Map<(Seq<char>, Seq<char>), LockEntryView>) -> bool {
    match parse_spec(req) {
        None => false,
        Some(pv) => match pv.1 {
            Some(r) => if r == seq!['*'] {
                exists|v: Seq<char>| m.dom().contains((pv.0, v))
            } else {
                m.dom().contains((pv.0, r))
            },
            None => exists|v: Seq<char>| m.dom().contains((pv.0, v)),
        },
    }
}

/// The unmet peer requirements of one package, each with the package name.
pub open spec fn unmet_of(p: ResolvedView, m: Map<(Seq<char>, Seq<char>), LockEntryView>) -> Seq<
    (Seq<char>, Seq<char>),
> {
    match p.peer_dependencies {
        None => Seq::empty(),
        Some(rs) => unmet_reqs(p.name, rs, m),
    }
}

/// The requirements of `rs` that `m` does not meet, each paired with `name`.
pub open spec fn unmet_reqs(
    name: Seq<char>,
    rs: Seq<Seq<char>>,
    m: Map<(Seq<char>, Seq<char>), LockEntryView>,
) -> Seq<(Seq<char>, Seq<char>)>
    decreases rs.len(),
{
    if rs.len() == 0 {
        Seq::empty()
    } else if peer_satisfied(rs.last(), m) {
        unmet_reqs(name, rs.drop_last(), m)
    } else {
        unmet_reqs(name, rs.drop_last(), m).push((name, rs.last()))
    }
}

/// The unmet peer requirements of all packages, in order.
pub open spec fn unmet_all(ps: Seq<ResolvedView>, m: Map<(Seq<char>, Seq<char>), LockEntryView>) -> Seq<
    (Seq<char>, Seq<char>),
>
    decreases ps.len(),
{
    if ps.len() == 0 {
        Seq::empty()
    } else {
        unmet_all(ps.drop_last(), m) + unmet_of(ps.last(), m)
    }
}

proof fn lemma_hit(
    req: Seq<char>,
    m: Map<(Seq<char>, Seq<char>), LockEntryView>,
    name: Seq<char>,
    range: Option<Seq<char>>,
    v: Seq<char>,
)
    requires
        parse_spec(req) == Some((name, range)),
        m.dom().contains((name, v)),
        range is None || range == Some(seq!['*']) || range == Some(v),
    ensures
        peer_satisfied(req, m),
{
    let pv = parse_spec(req)->0;
    assert(m.dom().contains((pv.0, v)));
    match range {
        Some(r) => {
            if r == seq!['*'] {
                assert(m.dom().contains((name, v)));
                assert(exists|w: Seq<char>| m.dom().contains((name, w)));
            } else {
                assert(r == v);
            }
        },
        None => {
            assert(m.dom().contains((name, v)));
            assert(exists|w: Seq<char>| m.dom().contains((name, w)));
        },
    }
}

/// Whether `s` is exactly `*`.
fn is_any_range(s: &String) -> (r: bool)
    ensures
        r == (s@ == seq!['*']),
{
    if s.as_str().unicode_len() == 1 && s.as_str().get_char(0) == '*' {
        assert(s@ =~= seq!['*']);
        true
    } else {
        false
    }
}

/// Whether the installed packages meet the peer requirement `req`; a
/// requirement that does not parse is unmet.
pub fn check_peer_dependency(req: &String, installed: &LockFile) -> (r: bool)
    requires
        installed.wf(),
    ensures
        r == peer_satisfied(req@, installed@.1),
{
    let parsed = parse_one(req);
    let ghost s = lock_pairs(lock_views(installed.dependencies@));
    let ghost m = installed@.1;
    match parsed {
        None => false,
        Some(p) => {
            assert(parse_spec(req@) == Some((p.name@, crate::specifier::opt_view(p.version))));
            let any = match &p.version {
                None => true,
                Some(r) => is_any_range(r),
            };
            let mut i: usize = 0;
            while i < installed.dependencies.len()
                invariant
                    i <= installed.dependencies@.len(),
                    s == lock_pairs(lock_views(installed.dependencies@)),
                    m == crate::keyed::fold_map(s),
                    parse_spec(req@) == Some((p.name@, crate::specifier::opt_view(p.version))),
                    any == (p.version is None || crate::specifier::opt_view(p.version) == Some(
                        seq!['*'],
                    )),
                    forall|j: int|
                        0 <= j < i ==> !(#[trigger] s[j].0 .0 == p.name@ && (any || Some(s[j].0.1)
                            == crate::specifier::opt_view(p.version))),
                decreases installed.dependencies.len() - i,
            {
                let e = &installed.dependencies[i];
                if e.name == p.name {
                    let hit = match &p.version {
                        None => true,
                        Some(r) => any || e.version == *r,
                    };
                    if hit {
                        proof {
                            assert(s[i as int].0 == (e.name@, e.version@));
                            lemma_fold_dom(s, (e.name@, e.version@));
                            assert(m.dom().contains((p.name@, e.version@)));
                            lemma_hit(req@, m, p.name@, crate::specifier::opt_view(p.version), e.version@);
                        }
                        return true;
                    }
                }
                i = i + 1;
            }
            proof {
                assert forall|v: Seq<char>| !m.dom().contains((p.name@, v)) || !(any || Some(v)
                    == crate::specifier::opt_view(p.version)) by {
                    lemma_fold_dom(s, (p.name@, v));
                    if m.dom().contains((p.name@, v)) {
                        let j = choose|j: int| 0 <= j < s.len() && s[j].0 == (p.name@, v);
                        assert(s[j].0 .0 == p.name@);
                    }
                }
                match &p.version {
                    Some(r) => {
                        assert(!m.dom().contains((p.name@, r@)) || !(any || Some(r@) == crate::specifier::opt_view(p.version)));
                    },
                    None => {},
                }
            }
            false
        },
    }
}

/// The unmet peer requirements of `packages` against the installed ones, as
/// (package name, requirement) pairs to warn about.
pub fn unmet_peers(packages: &Vec<VoltPackage>, installed: &LockFile) -> (r: Vec<(String, String)>)
    requires
        installed.wf(),
    ensures
        r@.map_values(|x: (String, String)| (x.0@, x.1@)) == unmet_all(
            resolved_views(packages@),
            installed@.1,
        ),
{
    let ghost ps = resolved_views(packages@);
    let ghost m = installed@.1;
    let mut out: Vec<(String, String)> = Vec::new();
    let mut i: usize = 0;
    assert(ps.subrange(0, 0) =~= Seq::<ResolvedView>::empty());
    assert(out@.map_values(|x: (String, String)| (x.0@, x.1@)) =~= Seq::empty());
    while i < packages.len()
        invariant
            i <= packages@.len(),
            ps == resolved_views(packages@),
            m == installed@.1,
            installed.wf(),
            out@.map_values(|x: (String, String)| (x.0@, x.1@)) == unmet_all(
                ps.subrange(0, i as int),
                m,
            ),
        decreases packages.len() - i,
    {
        let p = &packages[i];
        assert(ps.subrange(0, i + 1).drop_last() =~= ps.subrange(0, i as int));
        assert(ps.subrange(0, i + 1).last() == p@);
        let ghost base = out@.map_values(|x: (String, String)| (x.0@, x.1@));
        match &p.peer_dependencies {
            None => {
                assert(base + unmet_of(p@, m) =~= base);
            },
            Some(reqs) => {
                let ghost rv = crate::specifier::strings_view(reqs@);
                let mut j: usize = 0;
                assert(unmet_reqs(p.name@, rv.subrange(0, 0), m) =~= Seq::empty());
                assert(base + unmet_reqs(p.name@, rv.subrange(0, 0), m) =~= base);
                while j < reqs.len()
                    invariant
                        j <= reqs@.len(),
                        rv == crate::specifier::strings_view(reqs@),
                        m == installed@.1,
                        installed.wf(),
                        out@.map_values(|x: (String, String)| (x.0@, x.1@)) == base + unmet_reqs(
                            p.name@,
                            rv.subrange(0, j as int),
                            m,
                        ),
                    decreases reqs.len() - j,
                {
                    let ghost pre = out@;
                    assert(unmet_reqs(p.name@, rv.subrange(0, 0), m) =~= Seq::empty());
                    assert(rv.subrange(0, j + 1).drop_last() =~= rv.subrange(0, j as int));
                    assert(rv.subrange(0, j + 1).last() == reqs@[j as int]@);
                    if !check_peer_dependency(&reqs[j], installed) {
                        out.push((p.name.clone(), reqs[j].clone()));
                        assert(out@.map_values(|x: (String, String)| (x.0@, x.1@)) =~= pre.map_values(
                            |x: (String, String)| (x.0@, x.1@),
                        ).push((p.name@, reqs@[j as int]@)));
                    }
                    j = j + 1;
                }
                assert(rv.subrange(0, j as int) =~= rv);
            },
        }
        i = i + 1;
    }
    assert(ps.subrange(0, i as int) =~= ps);
    out
}

} // verus!
