//! Parsing of user supplied package specifiers such as `react`,
//! `react@17.0.2`, `@scope/pkg` and `@scope/pkg@1.2.3`.

use vstd::prelude::*;
use vstd::string::*;

verus! {

/// Unicode `White_Space` characters, the set that `char::is_whitespace` tests.
pub open spec fn is_white(c: char) -> bool {
    let n = c as u32;
    (9 <= n && n <= 13) || n == 32 || n == 0x85 || n == 0xa0 || n == 0x1680 || (0x2000 <= n
        && n <= 0x200a) || n == 0x2028 || n == 0x2029 || n == 0x202f || n == 0x205f || n
        == 0x3000
}

pub open spec fn trim_start(s: Seq<char>) -> Seq<char>
    decreases s.len(),
{
    if s.len() > 0 && is_white(s[0]) {
        trim_start(s.drop_first())
    } else {
        s
    }
}

pub open spec fn trim_end(s: Seq<char>) -> Seq<char>
    decreases s.len(),
{
    if s.len() > 0 && is_white(s.last()) {
        trim_end(s.drop_last())
    } else {
        s
    }
}

/// `s` without leading and trailing white space.
pub open spec fn trimmed(s: Seq<char>) -> Seq<char> {
    trim_end(trim_start(s))
}

/// The segments of `s` between occurrences of `@` (always at least one).
pub open spec fn split_at_sign(s: Seq<char>) -> Seq<Seq<char>>
    decreases s.len(),
{
    if s.len() == 0 {
        seq![Seq::empty()]
    } else {
        let rest = split_at_sign(s.drop_last());
        if s.last() == '@' {
            rest.push(Seq::empty())
        } else {
            rest.update(rest.len() - 1, rest.last().push(s.last()))
        }
    }
}

/// The trimmed `@`-separated segments of a specifier.
pub open spec fn segments(s: Seq<char>) -> Seq<Seq<char>> {
    split_at_sign(s).map_values(|x: Seq<char>| trimmed(x))
}

/// The (name, version) that one specifier denotes, or `None` for a shape
/// that is skipped.
pub open spec fn parse_spec(s: Seq<char>) -> Option<(Seq<char>, Option<Seq<char>>)> {
    let segs = segments(s);
    let scoped = s.contains('/');
    if segs.len() == 1 {
        Some((segs[0], None))
    } else if segs.len() == 2 && !scoped {
        Some((segs[0], Some(segs[1])))
    } else if segs.len() == 2 {
        Some((seq!['@'] + segs[1], None))
    } else if segs.len() == 3 && scoped {
        Some((seq!['@'] + segs[1], Some(segs[2])))
    } else {
        None
    }
}

/// The references denoted by a list of specifiers, malformed ones left out.
pub open spec fn parse_all(ss: Seq<Seq<char>>) -> Seq<(Seq<char>, Option<Seq<char>>)> {
    ss.filter_map(|s: Seq<char>| parse_spec(s))
}

pub open spec fn opt_view(o: Option<String>) -> Option<Seq<char>> {
    match o {
        Some(v) => Some(v@),
        None => None,
    }
}

pub open spec fn strings_view(v: Seq<String>) -> Seq<Seq<char>> {
    v.map_values(|x: String| x@)
}

/// A requested package: a name, possibly scoped, and an optional version
/// requirement (absent meaning the latest version).
#[derive(Clone, Debug)]
pub struct Package {
    pub name: String,
    pub version: Option<String>,
}

impl View for Package {
    type V = (Seq<char>, Option<Seq<char>>);

    open spec fn view(&self) -> (Seq<char>, Option<Seq<char>>) {
        (self.name@, opt_view(self.version))
    }
}

pub open spec fn packages_view(v: Seq<Package>) -> Seq<(Seq<char>, Option<Seq<char>>)> {
    v.map_values(|p: Package| p@)
}

pub fn is_white_char(c: char) -> (r: bool)
    ensures
        r == is_white(c),
{
    let n = c as u32;
    (9 <= n && n <= 13) || n == 32 || n == 0x85 || n == 0xa0 || n == 0x1680 || (0x2000 <= n
        && n <= 0x200a) || n == 0x2028 || n == 0x2029 || n == 0x202f || n == 0x205f || n
        == 0x3000
}

proof fn lemma_trim_start_step(s: Seq<char>, lo: int)
    requires
        0 <= lo < s.len(),
        is_white(s[lo]),
    ensures
        trim_start(s.subrange(lo, s.len() as int)) == trim_start(
            s.subrange(lo + 1, s.len() as int),
        ),
{
    assert(s.subrange(lo, s.len() as int).drop_first() =~= s.subrange(lo + 1, s.len() as int));
}

proof fn lemma_trim_end_step(s: Seq<char>, hi: int)
    requires
        0 < hi <= s.len(),
        is_white(s[hi - 1]),
    ensures
        trim_end(s.subrange(0, hi)) == trim_end(s.subrange(0, hi - 1)),
{
    assert(s.subrange(0, hi).drop_last() =~= s.subrange(0, hi - 1));
}

/// `s` with leading and trailing white space removed.
pub fn trim(s: &str) -> (r: String)
    ensures
        r@ == trimmed(s@),
{
    let n = s.unicode_len();
    let mut lo: usize = 0;
    assert(s@.subrange(0, n as int) =~= s@);
    while lo < n && is_white_char(s.get_char(lo))
        invariant
            n == s@.len(),
            lo <= n,
            trim_start(s@) == trim_start(s@.subrange(lo as int, n as int)),
        decreases n - lo,
    {
        proof {
            lemma_trim_start_step(s@, lo as int);
        }
        lo = lo + 1;
    }
    let ghost front = s@.subrange(lo as int, n as int);
    assert(trim_start(s@) == front);
    let mut hi: usize = n;
    assert(front.subrange(0, (hi - lo) as int) =~= front);
    while hi > lo && is_white_char(s.get_char(hi - 1))
        invariant
            n == s@.len(),
            lo <= hi <= n,
            front == s@.subrange(lo as int, n as int),
            trim_end(front) == trim_end(front.subrange(0, (hi - lo) as int)),
        decreases hi,
    {
        proof {
            lemma_trim_end_step(front, (hi - lo) as int);
        }
        hi = hi - 1;
    }
    assert(front.subrange(0, (hi - lo) as int) =~= s@.subrange(lo as int, hi as int));
    String::from_str(s.substring_char(lo, hi))
}

proof fn lemma_split_nonempty(s: Seq<char>)
    ensures
        split_at_sign(s).len() >= 1,
    decreases s.len(),
{
    if s.len() > 0 {
        lemma_split_nonempty(s.drop_last());
    }
}

/// The `@`-separated segments of `s`.
pub fn split_at_sign_exec(s: &str) -> (r: Vec<String>)
    ensures
        strings_view(r@) == split_at_sign(s@),
{
    let n = s.unicode_len();
    let mut segs: Vec<String> = Vec::new();
    let mut start: usize = 0;
    let mut i: usize = 0;
    assert(s@.subrange(0, 0) =~= Seq::<char>::empty());
    assert(strings_view(segs@).push(s@.subrange(0, 0)) =~= seq![Seq::<char>::empty()]);
    while i < n
        invariant
            n == s@.len(),
            start <= i <= n,
            strings_view(segs@).push(s@.subrange(start as int, i as int)) == split_at_sign(
                s@.subrange(0, i as int),
            ),
        decreases n - i,
    {
        let c = s.get_char(i);
        let ghost pre = s@.subrange(0, i as int);
        let ghost old_view = strings_view(segs@);
        proof {
            assert(s@.subrange(0, i + 1).drop_last() =~= pre);
            assert(s@.subrange(0, i + 1).last() == c);
        }
        let ghost old_start = start;
        if c == '@' {
            segs.push(String::from_str(s.substring_char(start, i)));
            start = i + 1;
            proof {
                assert(strings_view(segs@) =~= old_view.push(s@.subrange(old_start as int, i as int)));
                assert(s@.subrange(start as int, i + 1) =~= Seq::<char>::empty());
            }
        } else {
            proof {
                assert(s@.subrange(start as int, i + 1) =~= s@.subrange(start as int, i as int).push(
                    c,
                ));
                assert(old_view.push(s@.subrange(start as int, i + 1)) =~= old_view.push(
                    s@.subrange(start as int, i as int),
                ).update(
                    old_view.len() as int,
                    s@.subrange(start as int, i as int).push(c),
                ));
            }
        }
        i = i + 1;
    }
    assert(s@.subrange(0, n as int) =~= s@);
    segs.push(String::from_str(s.substring_char(start, n)));
    assert(strings_view(segs@) =~= split_at_sign(s@));
    segs
}

/// Whether `c` occurs in `s`.
pub fn contains_char(s: &str, c: char) -> (r: bool)
    ensures
        r == s@.contains(c),
{
    let n = s.unicode_len();
    let mut i: usize = 0;
    while i < n
        invariant
            n == s@.len(),
            i <= n,
            forall|j: int| 0 <= j < i ==> s@[j] != c,
        decreases n - i,
    {
        if s.get_char(i) == c {
            return true;
        }
        i = i + 1;
    }
    false
}

pub open spec fn package_opt_view(o: Option<Package>) -> Option<(Seq<char>, Option<Seq<char>>)> {
    match o {
        Some(p) => Some(p@),
        None => None,
    }
}

/// `@` followed by `s`: the name of a scoped package.
fn scoped_name(s: &String) -> (r: String)
    ensures
        r@ == seq!['@'] + s@,
{
    let mut name = String::from_str("@");
    proof {
        reveal_strlit("@");
    }
    name.append(s.as_str());
    name
}

/// The package one specifier denotes, `None` where its shape is not one
/// of `name`, `name@version`, `@scope/name` or `@scope/name@version`.
pub fn parse_one(spec: &String) -> (r: Option<Package>)
    ensures
        package_opt_view(r) == parse_spec(spec@),
{
    let raw = split_at_sign_exec(spec.as_str());
    let mut segs: Vec<String> = Vec::new();
    let mut k: usize = 0;
    while k < raw.len()
        invariant
            k <= raw.len(),
            segs@.len() == k,
            forall|j: int| 0 <= j < k ==> #[trigger] segs@[j]@ == trimmed(raw@[j]@),
        decreases raw.len() - k,
    {
        segs.push(trim(raw[k].as_str()));
        k = k + 1;
    }
    proof {
        assert(strings_view(segs@) =~= segments(spec@));
    }
    let scoped = contains_char(spec.as_str(), '/');
    let len = segs.len();
    if len == 1 {
        Some(Package { name: segs[0].clone(), version: None })
    } else if len == 2 && !scoped {
        Some(Package { name: segs[0].clone(), version: Some(segs[1].clone()) })
    } else if len == 2 {
        Some(Package { name: scoped_name(&segs[1]), version: None })
    } else if len == 3 && scoped {
        Some(Package { name: scoped_name(&segs[1]), version: Some(segs[2].clone()) })
    } else {
        None
    }
}

/// Parses each specifier into a package reference; a specifier of any other
/// shape than the four accepted ones is left out.
pub fn parse_versions(packages: &Vec<String>) -> (r: Vec<Package>)
    ensures
        packages_view(r@) == parse_all(strings_view(packages@)),
{
    let mut parsed: Vec<Package> = Vec::new();
    let mut i: usize = 0;
    assert(strings_view(packages@.subrange(0, 0)) =~= Seq::<Seq<char>>::empty());
    assert(packages_view(parsed@) =~= Seq::empty());
    while i < packages.len()
        invariant
            i <= packages.len(),
            packages_view(parsed@) == parse_all(strings_view(packages@.subrange(0, i as int))),
        decreases packages.len() - i,
    {
        let ghost before = strings_view(packages@.subrange(0, i as int));
        let ghost old_parsed = parsed@;
        proof {
            assert(strings_view(packages@.subrange(0, i + 1)).drop_last() =~= before);
            assert(strings_view(packages@.subrange(0, i + 1)).last() == packages@[i as int]@);
        }
        match parse_one(&packages[i]) {
            Some(p) => {
                parsed.push(p);
                assert(packages_view(parsed@) =~= packages_view(old_parsed).push(p@));
            },
            None => {},
        }
        i = i + 1;
    }
    assert(packages@.subrange(0, i as int) =~= packages@);
    parsed
}

proof fn lemma_split_plain(s: Seq<char>)
    requires
        !s.contains('@'),
    ensures
        split_at_sign(s) == seq![s],
    decreases s.len(),
{
    if s.len() == 0 {
        assert(s =~= Seq::<char>::empty());
    } else {
        assert(!s.drop_last().contains('@')) by {
            if s.drop_last().contains('@') {
                let i = choose|i: int| 0 <= i < s.drop_last().len() && s.drop_last()[i] == '@';
                assert(s[i] == '@');
            }
        }
        lemma_split_plain(s.drop_last());
        assert(s.last() != '@') by {
            assert(s[s.len() - 1] == s.last());
        }
        assert(s.drop_last().push(s.last()) =~= s);
        let r = seq![s.drop_last()];
        assert(r.last() == s.drop_last());
        assert(r.update(0, s.drop_last().push(s.last())) =~= seq![s]);
        assert(split_at_sign(s) == r.update(r.len() - 1, r.last().push(s.last())));
    }
}

proof fn lemma_split_concat(p: Seq<char>, b: Seq<char>)
    ensures
        split_at_sign(p + seq!['@'] + b) == split_at_sign(p) + split_at_sign(b),
    decreases b.len(),
{
    let x = p + seq!['@'];
    lemma_split_nonempty(p);
    if b.len() == 0 {
        assert(x + b =~= x);
        assert(x.drop_last() =~= p);
        assert(split_at_sign(x) =~= split_at_sign(p) + split_at_sign(b));
    } else {
        let b0 = b.drop_last();
        lemma_split_concat(p, b0);
        lemma_split_nonempty(b0);
        assert((x + b).drop_last() =~= x + b0);
        assert((x + b).last() == b.last());
        assert(split_at_sign(x + b) =~= split_at_sign(p) + split_at_sign(b));
    }
}

/// `s` holds neither `@`, `/` nor white space.
pub open spec fn plain_word(s: Seq<char>) -> bool {
    forall|i: int| 0 <= i < s.len() ==> s[i] != '@' && s[i] != '/' && !is_white(#[trigger] s[i])
}

proof fn lemma_plain_trimmed(s: Seq<char>)
    requires
        forall|i: int| 0 <= i < s.len() ==> !is_white(#[trigger] s[i]),
    ensures
        trimmed(s) == s,
{
    if s.len() > 0 {
        assert(s[s.len() - 1] == s.last());
    }
}

proof fn lemma_plain_no_at(s: Seq<char>)
    requires
        plain_word(s),
    ensures
        !s.contains('@'),
        !s.contains('/'),
{
}

/// The four accepted specifier shapes parse to their documented name and
/// version, for a name, scope and version free of `@`, `/` and white
/// space; a name with two versions is dropped.
pub proof fn lemma_specifier_shapes(scope: Seq<char>, name: Seq<char>, version: Seq<char>)
    requires
        plain_word(scope),
        plain_word(name),
        plain_word(version),
    ensures
        parse_spec(name) == Some((name, None::<Seq<char>>)),
        parse_spec(name + seq!['@'] + version) == Some((name, Some(version))),
        parse_spec(seq!['@'] + scope + seq!['/'] + name) == Some(
            (seq!['@'] + scope + seq!['/'] + name, None::<Seq<char>>),
        ),
        parse_spec(seq!['@'] + scope + seq!['/'] + name + seq!['@'] + version) == Some(
            (seq!['@'] + scope + seq!['/'] + name, Some(version)),
        ),
        parse_spec(name + seq!['@'] + version + seq!['@'] + version) is None,
{
    lemma_plain_no_at(name);
    lemma_plain_no_at(version);
    lemma_plain_trimmed(name);
    lemma_plain_trimmed(version);
    let e = Seq::<char>::empty();
    assert(split_at_sign(e) =~= seq![e]);
    assert(trimmed(e) =~= e);
    lemma_split_plain(name);
    lemma_split_plain(version);
    // name
    assert(segments(name) =~= seq![name]);
    // name@version
    lemma_split_concat(name, version);
    assert(segments(name + seq!['@'] + version) =~= seq![name, version]);
    assert(!(name + seq!['@'] + version).contains('/')) by {
        let s = name + seq!['@'] + version;
        if s.contains('/') {
            let i = choose|i: int| 0 <= i < s.len() && s[i] == '/';
            if i < name.len() {
                assert(name[i] == '/');
            } else if i > name.len() {
                assert(version[i - name.len() - 1] == '/');
            }
        }
    }
    // @scope/name
    let rest = scope + seq!['/'] + name;
    assert(plain_word(scope) && plain_word(name));
    assert(!rest.contains('@')) by {
        if rest.contains('@') {
            let i = choose|i: int| 0 <= i < rest.len() && rest[i] == '@';
            if i < scope.len() {
                assert(scope[i] == '@');
            } else if i > scope.len() {
                assert(name[i - scope.len() - 1] == '@');
            }
        }
    }
    assert forall|i: int| 0 <= i < rest.len() implies !is_white(#[trigger] rest[i]) by {
        if i < scope.len() {
            assert(rest[i] == scope[i]);
        } else if i > scope.len() {
            assert(rest[i] == name[i - scope.len() - 1]);
        } else {
            assert(rest[i] == '/');
        }
    }
    lemma_plain_trimmed(rest);
    lemma_split_plain(rest);
    let scoped = seq!['@'] + rest;
    assert(e + seq!['@'] + rest =~= scoped);
    lemma_split_concat(e, rest);
    assert(segments(scoped) =~= seq![e, rest]);
    assert(scoped[scope.len() as int + 1] == '/');
    assert(scoped.contains('/'));
    assert(seq!['@'] + scope + seq!['/'] + name =~= scoped);
    // @scope/name@version
    let full = scoped + seq!['@'] + version;
    assert(e + seq!['@'] + (rest + seq!['@'] + version) =~= full);
    lemma_split_concat(e, rest + seq!['@'] + version);
    lemma_split_concat(rest, version);
    assert(segments(full) =~= seq![e, rest, version]);
    assert(full[scope.len() as int + 1] == '/');
    assert(full.contains('/'));
    assert(seq!['@'] + scope + seq!['/'] + name + seq!['@'] + version =~= full);
    // name@version@version
    let two = name + seq!['@'] + version + seq!['@'] + version;
    lemma_split_concat(name + seq!['@'] + version, version);
    assert(split_at_sign(two).len() == 3);
    assert(segments(two).len() == 3);
    assert(!two.contains('/')) by {
        if two.contains('/') {
            let i = choose|i: int| 0 <= i < two.len() && two[i] == '/';
            if i < name.len() {
                assert(name[i] == '/');
            } else if name.len() < i < name.len() + 1 + version.len() {
                assert(version[i - name.len() - 1] == '/');
            } else if i > name.len() + 1 + version.len() {
                assert(version[i - name.len() - 2 - version.len()] == '/');
            }
        }
    }
}

} // verus!
