//! Discovery of dependency identifiers: the gating of manifest declarations by the
//! features of a graph node, and probe detection over the events of a syntax walk.
use vstd::prelude::*;
use crate::index::{lemma_map_of_absent, lemma_map_of_latest, map_of, rows_of};
use crate::names::{contains_text, distinct, insert_text, set_of};
use crate::text::is_text;

verus! {

/// One native dependency declared in a package manifest, under `key`.
pub struct ManifestDecl {
    pub key: String,
    /// The library's name, when it differs from the key.
    pub name: Option<String>,
    /// The feature that gates the declaration.
    pub feature: Option<String>,
    /// Whether the declaration is optional; absent means no.
    pub optional: Option<bool>,
}

/// The name that a declaration contributes.
pub open spec fn decl_name(d: ManifestDecl) -> Seq<char> {
    match d.name {
        Some(n) => n@,
        None => d.key@,
    }
}

/// Whether a declaration is active for a node with the given features: one with a
/// feature needs that feature; one that is optional without a feature needs a
/// feature named as its key; any other is always active.
pub open spec fn decl_active(d: ManifestDecl, features: Set<Seq<char>>) -> bool {
    match d.feature {
        Some(f) => features.contains(f@),
        None => if d.optional == Some(true) {
            features.contains(d.key@)
        } else {
            true
        },
    }
}

/// The names contributed by the declarations that are active for `features`.
pub open spec fn declared_names(decls: Seq<ManifestDecl>, features: Set<Seq<char>>) -> Set<Seq<char>> {
    Set::new(
        |n: Seq<char>|
            exists|i: int|
                0 <= i < decls.len() && decl_active(#[trigger] decls[i], features) && decl_name(
                    decls[i],
                ) == n,
    )
}

impl ManifestDecl {
    /// The name this declaration contributes: its own name, else its key.
    pub fn package_name(&self) -> (r: String)
        ensures
            r@ == decl_name(*self),
    {
        match &self.name {
            Some(n) => n.clone(),
            None => self.key.clone(),
        }
    }

    /// Whether this declaration is active for a node whose features are `features`.
    pub fn is_required(&self, features: &Vec<String>) -> (r: bool)
        ensures
            r == decl_active(*self, set_of(features@)),
    {
        match &self.feature {
            Some(f) => contains_text(features, f),
            None => {
                let optional = match self.optional {
                    Some(b) => b,
                    None => false,
                };
                if optional {
                    contains_text(features, &self.key)
                } else {
                    true
                }
            },
        }
    }
}

/// The names of the declarations that are active for a node with `features`, each once.
pub fn declared_dependencies(decls: &Vec<ManifestDecl>, features: &Vec<String>) -> (r: Vec<String>)
    ensures
        distinct(r@),
        set_of(r@) == declared_names(decls@, set_of(features@)),
{
    let ghost fs = set_of(features@);
    let mut r: Vec<String> = Vec::new();
    let mut i: usize = 0;
    assert(set_of(r@) =~= declared_names(decls@.subrange(0, 0), fs));
    while i < decls.len()
        invariant
            i <= decls.len(),
            fs == set_of(features@),
            distinct(r@),
            set_of(r@) == declared_names(decls@.subrange(0, i as int), fs),
        decreases decls.len() - i,
    {
        let d = &decls[i];
        let ghost pre = decls@.subrange(0, i as int);
        let ghost post = decls@.subrange(0, i + 1);
        if d.is_required(features) {
            let n = d.package_name();
            insert_text(&mut r, n);
            proof {
                assert forall|x: Seq<char>| #[trigger]
                    declared_names(post, fs).contains(x) == declared_names(pre, fs).insert(
                        decl_name(*d),
                    ).contains(x) by {
                    if declared_names(pre, fs).contains(x) {
                        let j = choose|j: int|
                            0 <= j < pre.len() && decl_active(#[trigger] pre[j], fs) && decl_name(
                                pre[j],
                            ) == x;
                        assert(post[j] == pre[j]);
                    }
                    if declared_names(post, fs).contains(x) {
                        let j = choose|j: int|
                            0 <= j < post.len() && decl_active(#[trigger] post[j], fs)
                                && decl_name(post[j]) == x;
                        if j < pre.len() {
                            assert(post[j] == pre[j]);
                        }
                    }
                    assert(post[i as int] == *d);
                }
                assert(declared_names(post, fs) =~= declared_names(pre, fs).insert(decl_name(*d)));
            }
        } else {
            proof {
                assert forall|x: Seq<char>| #[trigger]
                    declared_names(post, fs).contains(x) == declared_names(pre, fs).contains(
                        x,
                    ) by {
                    if declared_names(pre, fs).contains(x) {
                        let j = choose|j: int|
                            0 <= j < pre.len() && decl_active(#[trigger] pre[j], fs) && decl_name(
                                pre[j],
                            ) == x;
                        assert(post[j] == pre[j]);
                    }
                    if declared_names(post, fs).contains(x) {
                        let j = choose|j: int|
                            0 <= j < post.len() && decl_active(#[trigger] post[j], fs)
                                && decl_name(post[j]) == x;
                        if j < pre.len() {
                            assert(post[j] == pre[j]);
                        }
                    }
                    assert(post[i as int] == *d);
                }
                assert(declared_names(post, fs) =~= declared_names(pre, fs));
            }
        }
        i += 1;
    }
    assert(decls@.subrange(0, decls.len() as int) =~= decls@);
    r
}

/// An optional declaration without a feature is active exactly when a feature named as
/// its key is active; one with a feature exactly when that feature is active; one with
/// neither always.
pub proof fn lemma_gating(d: ManifestDecl, features: Set<Seq<char>>)
    ensures
        d.feature.is_none() && d.optional == Some(true) ==> (decl_active(d, features)
            <==> features.contains(d.key@)),
        d.feature.is_some() ==> (decl_active(d, features) <==> features.contains(
            d.feature.unwrap()@,
        )),
        d.feature.is_none() && d.optional != Some(true) ==> decl_active(d, features),
{
}

/// A node of the resolved dependency graph: a package id and its active features.
pub struct GraphNode {
    pub id: String,
    pub features: Vec<String>,
}

/// The features of the last node with id `id`; none when the package has no node, that
/// is when it is an inactive optional dependency.
pub open spec fn features_of(nodes: Seq<GraphNode>, id: Seq<char>) -> Option<Seq<String>>
    decreases nodes.len(),
{
    if nodes.len() == 0 {
        None
    } else if nodes.last().id@ == id {
        Some(nodes.last().features@)
    } else {
        features_of(nodes.drop_last(), id)
    }
}

/// The active features of the package `id`, or none when it has no node in the graph.
pub fn node_features(nodes: &Vec<GraphNode>, id: &String) -> (r: Option<Vec<String>>)
    ensures
        match r {
            Some(f) => features_of(nodes@, id@) == Some(f@),
            None => features_of(nodes@, id@).is_none(),
        },
{
    let mut i: usize = nodes.len();
    assert(nodes@.subrange(0, nodes.len() as int) =~= nodes@);
    while i > 0
        invariant
            i <= nodes.len(),
            features_of(nodes@, id@) == features_of(nodes@.subrange(0, i as int), id@),
        decreases i,
    {
        proof {
            assert(nodes@.subrange(0, i as int).drop_last() =~= nodes@.subrange(0, i - 1));
        }
        if nodes[i - 1].id == *id {
            return Some(nodes[i - 1].features.clone());
        }
        i -= 1;
    }
    None
}

/// Whether a method call is a probe call: the method is named `probe`.
pub fn is_probe_method(name: &String) -> (r: bool)
    ensures
        r == (name@ == "probe"@),
{
    is_text(name, "probe")
}

/// The first argument of a probe call, as far as detection cares.
pub enum ProbeArg {
    /// A string literal.
    Literal(String),
    /// A bare identifier.
    Variable(String),
    /// Anything else.
    Other,
}

/// What a probe call with argument `a` discovers, given the bindings `vars`.
pub open spec fn probe_value(vars: Map<Seq<char>, Seq<char>>, a: ProbeArg) -> Option<Seq<char>> {
    match a {
        ProbeArg::Literal(s) => Some(s@),
        ProbeArg::Variable(v) => if vars.contains_key(v@) {
            Some(vars[v@])
        } else {
            None
        },
        ProbeArg::Other => None,
    }
}

/// One-pass probe detection over a syntax walk: bindings of string literals to local
/// names (one flat scope, the last binding wins) and the identifiers found so far.
pub struct ProbeScanner {
    found: Vec<String>,
    vars: Vec<(String, String)>,
}

impl ProbeScanner {
    /// The identifiers found so far.
    pub closed spec fn found_set(&self) -> Set<Seq<char>> {
        set_of(self.found@)
    }

    /// The current bindings of local names to string literals.
    pub closed spec fn bindings(&self) -> Map<Seq<char>, Seq<char>> {
        map_of(rows_of(self.vars@))
    }

    pub closed spec fn wf(&self) -> bool {
        distinct(self.found@)
    }

    /// A scanner that has seen nothing.
    pub fn new() -> (r: ProbeScanner)
        ensures
            r.wf(),
            r.found_set() == Set::<Seq<char>>::empty(),
            r.bindings() == Map::<Seq<char>, Seq<char>>::empty(),
    {
        let r = ProbeScanner { found: Vec::new(), vars: Vec::new() };
        assert(r.found_set() =~= Set::<Seq<char>>::empty());
        assert(rows_of(r.vars@) =~= Seq::empty());
        r
    }

    /// A local binding of `name` to the string literal `value`.
    pub fn visit_local(&mut self, name: String, value: String)
        requires
            old(self).wf(),
        ensures
            final(self).wf(),
            final(self).bindings() == old(self).bindings().insert(name@, value@),
            final(self).found_set() == old(self).found_set(),
    {
        let ghost before = self.vars@;
        self.vars.push((name, value));
        assert(rows_of(self.vars@) =~= rows_of(before).push((name@, value@)));
        assert(rows_of(self.vars@).drop_last() =~= rows_of(before));
    }

    /// The current binding of `name`, if any.
    fn lookup(&self, name: &String) -> (r: Option<String>)
        ensures
            r.is_some() == self.bindings().contains_key(name@),
            r.is_some() ==> r.unwrap()@ == self.bindings()[name@],
    {
        let ghost rows = rows_of(self.vars@);
        let mut i: usize = self.vars.len();
        while i > 0
            invariant
                i <= self.vars.len(),
                rows == rows_of(self.vars@),
                forall|m: int| i <= m < rows.len() ==> rows[m].0 != name@,
            decreases i,
        {
            if self.vars[i - 1].0 == *name {
                proof {
                    lemma_map_of_latest(rows, name@, i - 1);
                }
                return Some(self.vars[i - 1].1.clone());
            }
            i -= 1;
        }
        proof {
            lemma_map_of_absent(rows, name@);
        }
        None
    }

    /// A probe call whose first argument is `arg`.
    pub fn visit_probe_call(&mut self, arg: &ProbeArg)
        requires
            old(self).wf(),
        ensures
            final(self).wf(),
            final(self).bindings() == old(self).bindings(),
            final(self).found_set() == match probe_value(old(self).bindings(), *arg) {
                Some(v) => old(self).found_set().insert(v),
                None => old(self).found_set(),
            },
    {
        match arg {
            ProbeArg::Literal(s) => {
                insert_text(&mut self.found, s.clone());
            },
            ProbeArg::Variable(v) => {
                match self.lookup(v) {
                    Some(val) => {
                        insert_text(&mut self.found, val);
                    },
                    None => {},
                }
            },
            ProbeArg::Other => {},
        }
    }

    /// The identifiers found so far, each once.
    pub fn found(&self) -> (r: Vec<String>)
        requires
            self.wf(),
        ensures
            distinct(r@),
            set_of(r@) == self.found_set(),
    {
        self.found.clone()
    }
}

} // verus!
