//! Resolution of dependency identifiers against a reverse index, and the repository
//! sources from which an index is built for a distribution.
use vstd::prelude::*;
use crate::cache::{cache_rows, cache_text, lemma_index_round_trip, storable};
use crate::distro::Distro;
use crate::index::{map_of, ReverseIndex};
use crate::names::{distinct, insert_text, set_of, views};
use crate::text::{
    after_last, after_last_index, chars_of, copy_range, has_suffix, has_suffix_exec, is_text,
    string_of,
};

verus! {

/// An identifier with each underscore replaced by a hyphen.
pub open spec fn hyphenated(s: Seq<char>) -> Seq<char> {
    s.map_values(|c: char| if c == '_' { '-' } else { c })
}

/// The package an identifier resolves to: its own entry, else the entry of its
/// hyphenated spelling, else none.
pub open spec fn resolve_one(m: Map<Seq<char>, Seq<char>>, d: Seq<char>) -> Option<Seq<char>> {
    if m.contains_key(d) {
        Some(m[d])
    } else if m.contains_key(hyphenated(d)) {
        Some(m[hyphenated(d)])
    } else {
        None
    }
}

/// The packages that the identifiers `ds` resolve to.
pub open spec fn resolved_set(m: Map<Seq<char>, Seq<char>>, ds: Seq<Seq<char>>) -> Set<Seq<char>> {
    Set::new(|p: Seq<char>| exists|i: int| 0 <= i < ds.len() && #[trigger] resolve_one(m, ds[i]) == Some(p))
}

/// The identifiers of `ds` that resolve to nothing, in order.
pub open spec fn unresolved(m: Map<Seq<char>, Seq<char>>, ds: Seq<Seq<char>>) -> Seq<Seq<char>>
    decreases ds.len(),
{
    if ds.len() == 0 {
        Seq::empty()
    } else if resolve_one(m, ds.last()).is_none() {
        unresolved(m, ds.drop_last()).push(ds.last())
    } else {
        unresolved(m, ds.drop_last())
    }
}

/// The outcome of resolving identifiers: the packages, each once, and the identifiers
/// that resolved to nothing, in the order given.
pub struct Resolution {
    pub packages: Vec<String>,
    pub missing: Vec<String>,
}

/// Adding an identifier adds its package, if it has one, and nothing else.
pub proof fn lemma_resolved_push(m: Map<Seq<char>, Seq<char>>, ds: Seq<Seq<char>>, x: Seq<char>)
    ensures
        resolved_set(m, ds.push(x)) == match resolve_one(m, x) {
            Some(p) => resolved_set(m, ds).insert(p),
            None => resolved_set(m, ds),
        },
{
    let e = ds.push(x);
    let target = match resolve_one(m, x) {
        Some(p) => resolved_set(m, ds).insert(p),
        None => resolved_set(m, ds),
    };
    assert forall|p: Seq<char>| resolved_set(m, e).contains(p) implies target.contains(p) by {
        let i = choose|i: int| 0 <= i < e.len() && #[trigger] resolve_one(m, e[i]) == Some(p);
        if i < ds.len() {
            assert(e[i] == ds[i]);
        }
    }
    assert forall|p: Seq<char>| target.contains(p) implies resolved_set(m, e).contains(p) by {
        if resolved_set(m, ds).contains(p) {
            let i = choose|i: int| 0 <= i < ds.len() && #[trigger] resolve_one(m, ds[i]) == Some(p);
            assert(e[i] == ds[i]);
        } else {
            assert(e[ds.len() as int] == x);
        }
    }
    assert(resolved_set(m, e) =~= target);
}

/// An identifier that is in the index resolves to exactly the package it maps to.
pub proof fn lemma_present_identifier_resolves(
    m: Map<Seq<char>, Seq<char>>,
    ds: Seq<Seq<char>>,
    i: int,
)
    requires
        0 <= i < ds.len(),
        m.contains_key(ds[i]),
    ensures
        resolve_one(m, ds[i]) == Some(m[ds[i]]),
        resolved_set(m, ds).contains(m[ds[i]]),
{
}

/// An identifier that is absent, but whose hyphenated spelling is present, resolves to
/// the package of the hyphenated spelling.
pub proof fn lemma_hyphenated_identifier_resolves(
    m: Map<Seq<char>, Seq<char>>,
    ds: Seq<Seq<char>>,
    i: int,
)
    requires
        0 <= i < ds.len(),
        !m.contains_key(ds[i]),
        m.contains_key(hyphenated(ds[i])),
    ensures
        resolve_one(m, ds[i]) == Some(m[hyphenated(ds[i])]),
        resolved_set(m, ds).contains(m[hyphenated(ds[i])]),
{
}

/// An identifier absent under both spellings adds no package, and is reported as missing.
pub proof fn lemma_unresolvable_identifier_dropped(
    m: Map<Seq<char>, Seq<char>>,
    ds: Seq<Seq<char>>,
    x: Seq<char>,
)
    requires
        !m.contains_key(x),
        !m.contains_key(hyphenated(x)),
    ensures
        resolved_set(m, ds.push(x)) == resolved_set(m, ds),
        unresolved(m, ds.push(x)) == unresolved(m, ds).push(x),
{
    lemma_resolved_push(m, ds, x);
    assert(ds.push(x).drop_last() =~= ds);
}

/// Identifiers at different positions that both resolve name different packages.
pub open spec fn resolves_injectively(m: Map<Seq<char>, Seq<char>>, ds: Seq<Seq<char>>) -> bool {
    forall|i: int, j: int|
        0 <= i < j < ds.len() && (#[trigger] resolve_one(m, ds[i])).is_some() && (#[trigger] resolve_one(m, ds[j])).is_some()
            ==> resolve_one(m, ds[i]) != resolve_one(m, ds[j])
}

/// When resolvable identifiers name different packages, there are as many packages as
/// identifiers, less one for each identifier that resolves to nothing.
pub proof fn lemma_package_count(m: Map<Seq<char>, Seq<char>>, ds: Seq<Seq<char>>)
    requires
        resolves_injectively(m, ds),
    ensures
        resolved_set(m, ds).finite(),
        resolved_set(m, ds).len() == ds.len() - unresolved(m, ds).len(),
    decreases ds.len(),
{
    if ds.len() == 0 {
        assert(resolved_set(m, ds) =~= Set::<Seq<char>>::empty());
    } else {
        let pre = ds.drop_last();
        let x = ds.last();
        assert(ds =~= pre.push(x));
        assert forall|i: int, j: int|
            0 <= i < j < pre.len() && (#[trigger] resolve_one(m, pre[i])).is_some() && (#[trigger] resolve_one(m, pre[j])).is_some()
                implies resolve_one(m, pre[i]) != resolve_one(m, pre[j]) by {
            assert(pre[i] == ds[i] && pre[j] == ds[j]);
        }
        lemma_package_count(m, pre);
        lemma_resolved_push(m, pre, x);
        match resolve_one(m, x) {
            Some(p) => {
                if resolved_set(m, pre).contains(p) {
                    let i = choose|i: int| 0 <= i < pre.len() && #[trigger] resolve_one(m, pre[i]) == Some(p);
                    assert(pre[i] == ds[i]);
                    assert(resolve_one(m, ds[ds.len() - 1]) == Some(p));
                }
            },
            None => {},
        }
    }
}

/// Resolving against an index reloaded from its cache text gives the packages, and the
/// missing identifiers, that resolving against the index itself gives.
pub proof fn lemma_cached_resolution_stable(idx: ReverseIndex, ds: Seq<Seq<char>>)
    requires
        idx.wf(),
        forall|k: Seq<char>| #[trigger] idx@.contains_key(k) ==> storable((k, idx@[k])),
    ensures
        resolved_set(map_of(cache_rows(cache_text(idx.rows()))), ds) == resolved_set(idx@, ds),
        unresolved(map_of(cache_rows(cache_text(idx.rows()))), ds) == unresolved(idx@, ds),
{
    lemma_index_round_trip(idx);
}

/// `s` with each underscore replaced by a hyphen.
pub fn hyphenate(s: &String) -> (r: String)
    ensures
        r@ == hyphenated(s@),
{
    let c = chars_of(s.as_str());
    let mut out: Vec<char> = Vec::new();
    let mut i: usize = 0;
    while i < c.len()
        invariant
            i <= c.len(),
            out@ == hyphenated(c@.subrange(0, i as int)),
        decreases c.len() - i,
    {
        if c[i] == '_' {
            out.push('-');
        } else {
            out.push(c[i]);
        }
        i += 1;
        assert(out@ =~= hyphenated(c@.subrange(0, i as int)));
    }
    assert(c@.subrange(0, c.len() as int) =~= c@);
    string_of(&out)
}

impl ReverseIndex {
    /// The package that `dep` resolves to: its own entry, else the entry of its
    /// hyphenated spelling.
    pub fn resolve_dependency(&self, dep: &String) -> (r: Option<String>)
        ensures
            match r {
                Some(p) => resolve_one(self@, dep@) == Some(p@),
                None => resolve_one(self@, dep@).is_none(),
            },
    {
        match self.get(dep) {
            Some(p) => Some(p),
            None => {
                let h = hyphenate(dep);
                self.get(&h)
            },
        }
    }

    /// Resolves every identifier: the packages found, each once, and the identifiers
    /// that resolved to nothing.
    pub fn resolve(&self, deps: &Vec<String>) -> (r: Resolution)
        ensures
            set_of(r.packages@) == resolved_set(self@, views(deps@)),
            distinct(r.packages@),
            views(r.missing@) == unresolved(self@, views(deps@)),
    {
        let ghost ds = views(deps@);
        let mut packages: Vec<String> = Vec::new();
        let mut missing: Vec<String> = Vec::new();
        let mut i: usize = 0;
        assert(set_of(packages@) =~= resolved_set(self@, ds.subrange(0, 0)));
        assert(views(missing@) =~= unresolved(self@, ds.subrange(0, 0)));
        while i < deps.len()
            invariant
                i <= deps.len(),
                ds == views(deps@),
                set_of(packages@) == resolved_set(self@, ds.subrange(0, i as int)),
                distinct(packages@),
                views(missing@) == unresolved(self@, ds.subrange(0, i as int)),
            decreases deps.len() - i,
        {
            let d = &deps[i];
            let ghost pre = ds.subrange(0, i as int);
            proof {
                assert(ds.subrange(0, i + 1) =~= pre.push(d@));
                assert(ds.subrange(0, i + 1).drop_last() =~= pre);
                lemma_resolved_push(self@, pre, d@);
            }
            match self.resolve_dependency(d) {
                Some(p) => {
                    insert_text(&mut packages, p);
                    proof {
                        assert(views(missing@) =~= unresolved(self@, ds.subrange(0, i + 1)));
                    }
                },
                None => {
                    missing.push(d.clone());
                    proof {
                        assert(views(missing@) =~= unresolved(self@, pre).push(d@));
                    }
                },
            }
            i += 1;
        }
        assert(ds.subrange(0, deps.len() as int) =~= ds);
        Resolution { packages, missing }
    }
}

/// The repository metadata URLs of a family and release, in the order they are read.
pub open spec fn source_urls(family: Seq<char>, release: Seq<char>) -> Seq<Seq<char>> {
    if family == "debian"@ {
        seq!["http://deb.debian.org/debian/dists/"@ + release + "/main/Contents-amd64.gz"@]
    } else if family == "ubuntu"@ {
        seq![
            "http://archive.ubuntu.com/ubuntu/dists/"@ + release + "/main/Contents-amd64.gz"@,
            "http://archive.ubuntu.com/ubuntu/dists/"@ + release + "/universe/Contents-amd64.gz"@,
        ]
    } else if family == "arch"@ {
        seq![
            "https://mirrors.kernel.org/archlinux/core/os/x86_64/core.files.tar.gz"@,
            "https://mirrors.kernel.org/archlinux/extra/os/x86_64/extra.files.tar.gz"@,
        ]
    } else {
        Seq::empty()
    }
}

/// One repository metadata source: where it is fetched from, the name of its raw copy
/// in the cache, and whether it is a file-list archive rather than a column file.
pub struct Source {
    pub url: String,
    pub file_name: String,
    pub archive: bool,
}

/// The source read from `url`.
pub open spec fn source_spec(url: Seq<char>, s: Source) -> bool {
    &&& s.url@ == url
    &&& s.file_name@ == after_last(url, '/')
    &&& s.archive == has_suffix(after_last(url, '/'), ".tar.gz"@)
}

/// `a`, then `b`, then `c`.
fn join3(a: &str, b: &str, c: &str) -> (r: String)
    ensures
        r@ == a@ + b@ + c@,
{
    let mut r = String::from_str(a);
    r.append(b);
    r.append(c);
    r
}

/// The source read from `url`.
pub fn source_of(url: String) -> (r: Source)
    ensures
        source_spec(url@, r),
{
    let c = chars_of(url.as_str());
    let n = after_last_index(&c, '/', c.len());
    let name = copy_range(&c, n, c.len());
    let ext = chars_of(".tar.gz");
    let archive = has_suffix_exec(&name, &ext);
    Source { url, file_name: string_of(&name), archive }
}

/// The sources from which the index of `d` is built, in order; an unknown family has none.
pub fn index_sources(d: &Distro) -> (r: Vec<Source>)
    ensures
        r@.len() == source_urls(d.name@, d.version@).len(),
        forall|i: int|
            0 <= i < r@.len() ==> source_spec(
                #[trigger] source_urls(d.name@, d.version@)[i],
                r@[i],
            ),
{
    let v = d.version.as_str();
    let mut urls: Vec<String> = Vec::new();
    if is_text(&d.name, "debian") {
        urls.push(join3("http://deb.debian.org/debian/dists/", v, "/main/Contents-amd64.gz"));
    } else if is_text(&d.name, "ubuntu") {
        urls.push(join3("http://archive.ubuntu.com/ubuntu/dists/", v, "/main/Contents-amd64.gz"));
        urls.push(
            join3("http://archive.ubuntu.com/ubuntu/dists/", v, "/universe/Contents-amd64.gz"),
        );
    } else if is_text(&d.name, "arch") {
        urls.push(
            String::from_str("https://mirrors.kernel.org/archlinux/core/os/x86_64/core.files.tar.gz"),
        );
        urls.push(
            String::from_str(
                "https://mirrors.kernel.org/archlinux/extra/os/x86_64/extra.files.tar.gz",
            ),
        );
    }
    assert(views(urls@) =~= source_urls(d.name@, d.version@));
    let mut out: Vec<Source> = Vec::new();
    let mut i: usize = 0;
    while i < urls.len()
        invariant
            i <= urls.len(),
            views(urls@) == source_urls(d.name@, d.version@),
            out@.len() == i,
            forall|j: int| 0 <= j < i ==> source_spec(#[trigger] views(urls@)[j], out@[j]),
        decreases urls.len() - i,
    {
        out.push(source_of(urls[i].clone()));
        i += 1;
    }
    out
}

/// The sources still to be read for `d`: none when its index is already cached.
pub fn sources_to_fetch(d: &Distro, index_cached: bool) -> (r: Vec<Source>)
    ensures
        index_cached ==> r@.len() == 0,
        !index_cached ==> r@.len() == source_urls(d.name@, d.version@).len() && forall|i: int|
            0 <= i < r@.len() ==> source_spec(
                #[trigger] source_urls(d.name@, d.version@)[i],
                r@[i],
            ),
{
    if index_cached {
        Vec::new()
    } else {
        index_sources(d)
    }
}

/// The name of the cache file that holds the index of `d`: `<family>-<release>-pc.index`.
pub fn index_file_name(d: &Distro) -> (r: String)
    ensures
        r@ == d.name@ + "-"@ + d.version@ + "-pc.index"@,
{
    let mut r = join3(d.name.as_str(), "-", d.version.as_str());
    r.append("-pc.index");
    r
}

/// How a source is read: from its raw copy in the cache, by downloading it into the
/// cache first, or straight from the network.
#[derive(PartialEq, Eq, Structural, Debug, Clone, Copy)]
pub enum Fetch {
    ReadCached,
    DownloadAndKeep,
    Stream,
}

/// How a source is read, given the stream mode and whether its raw copy is cached.
pub fn fetch_mode(stream: bool, raw_cached: bool) -> (r: Fetch)
    ensures
        stream ==> r == Fetch::Stream,
        !stream && raw_cached ==> r == Fetch::ReadCached,
        !stream && !raw_cached ==> r == Fetch::DownloadAndKeep,
{
    if stream {
        Fetch::Stream
    } else if raw_cached {
        Fetch::ReadCached
    } else {
        Fetch::DownloadAndKeep
    }
}

} // verus!
