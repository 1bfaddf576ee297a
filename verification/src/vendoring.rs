//! The reconciliation engine: merging every source's constraint for one
//! dependency into a single constraint, or reporting a conflict with full
//! provenance.

use crate::intervals::{
    in_union, interval_to_constraint, lemma_normalized_decision, lemma_union_equiv_transfer,
    lower_from, normalize_union, union_convex, union_nonempty, upper_from,
};
use crate::shared::{ElmVendor, NormalizedElmJson};
use crate::utils::{errs_of, lemma_oks_pointwise, oks_of, try_with_progress};
use crate::version::{lemma_idx_injective, DependencyVersion, VersionRange};
use vstd::prelude::*;
use vstd::string::StrSliceExecFns;
use vstd::string::StringExecFns;

verus! {

/// Source identifier to requested constraint: who wanted what for one
/// dependency. Sources appear in discovery order, the main project first.
pub type VersionsWithSources = Vec<(String, DependencyVersion)>;

/// The intervals the sources request, in source order.
pub open spec fn ranges_of(s: Seq<(String, DependencyVersion)>) -> Seq<VersionRange> {
    s.map(|i: int, p: (String, DependencyVersion)| p.1.as_range_spec())
}

/// Whether the domain position `x` satisfies at least one source's
/// constraint.
pub open spec fn sources_has(s: Seq<(String, DependencyVersion)>, x: int) -> bool {
    in_union(ranges_of(s), x)
}

/// Every source supplies exactly the same constraint as the first one.
pub open spec fn all_same_constraint(s: Seq<(String, DependencyVersion)>) -> bool {
    forall|i: int| 0 <= i < s.len() ==> (#[trigger] s[i]).1 == s[0].1
}

/// Merges all sources' constraints for one dependency into one constraint
/// if their admitted versions form one nonempty contiguous block, and
/// otherwise hands the sources back unchanged as a conflict.
///
/// The merge is the union of the requests: overlapping or adjacent ranges
/// widen each other to their convex hull rather than narrowing to their
/// intersection. A range whose lower bound exceeds its higher bound
/// admits no version, so a group containing one can only end in conflict.
///
/// When every source supplies the very same constraint, the merged result
/// is that constraint unchanged (an exact version stays an exact version;
/// a range stays verbatim unless it admits exactly one version, in which
/// case it collapses to that version).
pub fn collapse_sources(sources: VersionsWithSources) -> (r: Result<
    DependencyVersion,
    VersionsWithSources,
>)
    ensures
        (r matches Ok(c) ==> {
            &&& forall|x: int| #[trigger] c.has(x) <==> sources_has(sources@, x)
            &&& union_nonempty(ranges_of(sources@))
            &&& union_convex(ranges_of(sources@))
        }),
        (r matches Err(back) ==> back == sources && !(union_nonempty(ranges_of(sources@))
            && union_convex(ranges_of(sources@)))),
        (sources@.len() > 0 && all_same_constraint(sources@)
            && !sources@[0].1.as_range_spec().is_empty_spec()) ==> (r matches Ok(c) && {
            let c0 = sources@[0].1;
            let r0 = c0.as_range_spec();
            &&& (c0 matches DependencyVersion::SpecificVersion(_) ==> c == c0)
            &&& (r0.lo_eff() < r0.hi_eff() ==> c == c0)
        }),
{
    let ghost srcseq = sources@;
    let mut ivs: Vec<VersionRange> = Vec::new();
    let mut i: usize = 0;
    while i < sources.len()
        invariant
            i <= sources@.len(),
            ivs@.len() == i,
            forall|k: int| 0 <= k < i ==> ivs@[k] == sources@[k].1.as_range_spec(),
        decreases sources@.len() - i,
    {
        let iv = sources[i].1.to_range();
        ivs.push(iv);
        i += 1;
    }
    proof {
        assert(ivs@ =~= ranges_of(srcseq));
    }
    let ghost ivseq = ivs@;
    let norm = normalize_union(ivs);
    proof {
        lemma_normalized_decision(norm@);
        lemma_union_equiv_transfer(norm@, ranges_of(srcseq));
    }
    if norm.len() == 1 {
        let c = interval_to_constraint(&norm[0]);
        proof {
            let n0 = norm@[0];
            assert(!n0.is_empty_spec());
            assert forall|x: int| #[trigger] c.has(x) <==> sources_has(srcseq, x) by {
                assert(c.has(x) <==> n0.has(x));
                assert(in_union(norm@, x) <==> (in_union(norm@.drop_last(), x) || n0.has(x)));
                assert(norm@ =~= norm@.drop_last().push(n0));
                assert(in_union(norm@, x) == n0.has(x)) by {
                    if in_union(norm@, x) {
                        let ii = choose|ii: int| 0 <= ii < norm@.len() && norm@[ii].has(x);
                        assert(ii == 0);
                    }
                    if n0.has(x) {
                        assert(in_union(norm@, x));
                    }
                }
            }
            if srcseq.len() > 0 && all_same_constraint(srcseq)
                && !srcseq[0].1.as_range_spec().is_empty_spec() {
                let c0 = srcseq[0].1;
                let r0 = c0.as_range_spec();
                assert(lower_from(ivseq, n0));
                assert(upper_from(ivseq, n0));
                let li = choose|li: int|
                    0 <= li < ivseq.len() && n0.lower == ivseq[li].lower && n0.lower_relation
                        == ivseq[li].lower_relation;
                let ui = choose|ui: int|
                    0 <= ui < ivseq.len() && n0.higher == ivseq[ui].higher && n0.higher_relation
                        == ivseq[ui].higher_relation;
                assert(ivseq[li] == srcseq[li].1.as_range_spec());
                assert(srcseq[li].1 == c0);
                assert(srcseq[ui].1 == c0);
                assert(n0 == r0);
                match c0 {
                    DependencyVersion::SpecificVersion(v) => {
                        assert(n0.lo_eff() == v.idx() && n0.hi_eff() == v.idx());
                        let p = c->SpecificVersion_0;
                        assert(c.has(p.idx()));
                        assert(c.has(v.idx()));
                        assert(p.idx() == v.idx());
                        lemma_idx_injective(p, v);
                    },
                    DependencyVersion::VersionRange(rr) => {
                        if r0.lo_eff() < r0.hi_eff() {
                            assert(c == DependencyVersion::VersionRange(n0));
                        }
                    },
                }
            }
        }
        Ok(c)
    } else {
        proof {
            if norm@.len() == 0 {
                assert(!union_nonempty(ranges_of(srcseq)));
            } else {
                assert(!union_convex(ranges_of(srcseq)));
            }
            if srcseq.len() > 0 && all_same_constraint(srcseq)
                && !srcseq[0].1.as_range_spec().is_empty_spec() {
                let r0 = srcseq[0].1.as_range_spec();
                let rseq = ranges_of(srcseq);
                assert(rseq[0] == r0);
                assert(r0.has(r0.lo_eff()));
                assert(in_union(rseq, r0.lo_eff()));
                assert(union_nonempty(rseq));
                assert forall|x: int| in_union(rseq, x) <==> r0.has(x) by {
                    if in_union(rseq, x) {
                        let i = choose|i: int| 0 <= i < rseq.len() && rseq[i].has(x);
                        assert(srcseq[i].1 == srcseq[0].1);
                        assert(rseq[i] == r0);
                    }
                    if r0.has(x) {
                        assert(in_union(rseq, x));
                    }
                }
                assert forall|x: int, y: int, z: int|
                    #![trigger in_union(rseq, x), in_union(rseq, y), in_union(rseq, z)]
                    x <= y <= z && in_union(rseq, x) && in_union(rseq, z) implies in_union(
                    rseq,
                    y,
                ) by {
                    if x <= y <= z && in_union(rseq, x) && in_union(rseq, z) {
                        assert(r0.has(x));
                        assert(r0.has(z));
                        assert(r0.has(y));
                        assert(in_union(rseq, y) <==> r0.has(y));
                    }
                }
                assert(union_convex(rseq));
                assert(false);
            }
        }
        Err(sources)
    }
}

/// Disjoint-conflict law: two sources whose requested intervals are
/// separated by a gap of at least one version admit no contiguous common
/// block, so reconciliation must end in a conflict that carries both
/// sources verbatim.
pub proof fn lemma_disjoint_conflict(s: Seq<(String, DependencyVersion)>)
    requires
        s.len() == 2,
        !s[0].1.as_range_spec().is_empty_spec(),
        !s[1].1.as_range_spec().is_empty_spec(),
        s[0].1.as_range_spec().hi_eff() + 1 < s[1].1.as_range_spec().lo_eff(),
    ensures
        !union_convex(ranges_of(s)),
{
    let r = ranges_of(s);
    let r0 = s[0].1.as_range_spec();
    let r1 = s[1].1.as_range_spec();
    let x0 = r0.hi_eff();
    let y0 = r0.hi_eff() + 1;
    let z0 = r1.lo_eff();
    assert(r[0] == r0 && r[1] == r1);
    assert(r0.has(x0));
    assert(in_union(r, x0));
    assert(r1.has(z0));
    assert(in_union(r, z0));
    assert(!in_union(r, y0)) by {
        if in_union(r, y0) {
            let i = choose|i: int| 0 <= i < r.len() && r[i].has(y0);
            assert(i == 0 || i == 1);
        }
    }
    assert(x0 <= y0 <= z0);
    assert(!union_convex(r));
}

/// Overlap-merge law: two sources whose requested intervals overlap or
/// touch merge to their convex hull: together they admit exactly the
/// positions from the smaller effective lower bound to the larger
/// effective higher bound, with no hole.
pub proof fn lemma_overlap_merge(s: Seq<(String, DependencyVersion)>)
    requires
        s.len() == 2,
        !s[0].1.as_range_spec().is_empty_spec(),
        !s[1].1.as_range_spec().is_empty_spec(),
        s[1].1.as_range_spec().lo_eff() <= s[0].1.as_range_spec().hi_eff() + 1,
        s[0].1.as_range_spec().lo_eff() <= s[1].1.as_range_spec().hi_eff() + 1,
    ensures
        union_nonempty(ranges_of(s)),
        union_convex(ranges_of(s)),
        forall|x: int|
            #[trigger] sources_has(s, x) <==> ((if s[0].1.as_range_spec().lo_eff()
                <= s[1].1.as_range_spec().lo_eff() {
                s[0].1.as_range_spec().lo_eff()
            } else {
                s[1].1.as_range_spec().lo_eff()
            }) <= x <= (if s[0].1.as_range_spec().hi_eff() >= s[1].1.as_range_spec().hi_eff() {
                s[0].1.as_range_spec().hi_eff()
            } else {
                s[1].1.as_range_spec().hi_eff()
            })),
{
    let r = ranges_of(s);
    let r0 = s[0].1.as_range_spec();
    let r1 = s[1].1.as_range_spec();
    let lo = if r0.lo_eff() <= r1.lo_eff() {
        r0.lo_eff()
    } else {
        r1.lo_eff()
    };
    let hi = if r0.hi_eff() >= r1.hi_eff() {
        r0.hi_eff()
    } else {
        r1.hi_eff()
    };
    assert(r[0] == r0 && r[1] == r1);
    assert forall|x: int| #[trigger] sources_has(s, x) <==> (lo <= x <= hi) by {
        assert(in_union(r, x) == (r0.has(x) || r1.has(x))) by {
            if in_union(r, x) {
                let i = choose|i: int| 0 <= i < r.len() && r[i].has(x);
                assert(i == 0 || i == 1);
            }
            if r0.has(x) {
                assert(in_union(r, x));
            }
            if r1.has(x) {
                assert(in_union(r, x));
            }
        }
    }
    assert(r0.has(r0.lo_eff()));
    assert(in_union(r, r0.lo_eff()));
    assert(union_nonempty(r));
    assert forall|x: int, y: int, z: int|
        #![trigger in_union(r, x), in_union(r, y), in_union(r, z)]
        x <= y <= z && in_union(r, x) && in_union(r, z) implies in_union(r, y) by {
        if x <= y <= z && in_union(r, x) && in_union(r, z) {
            assert(sources_has(s, x));
            assert(sources_has(s, z));
            assert(sources_has(s, y));
        }
    }
}

/// Dependency name to the sources that request it, in discovery order.
pub type DependenciesWithSources = Vec<(String, VersionsWithSources)>;

/// One source's request for one dependency.
pub struct Dependency {
    /// The package (or the main project) this request came from.
    pub source: String,
    /// The dependency's name.
    pub dependency: String,
    /// The requested constraint.
    pub version: DependencyVersion,
}

/// An error that occurred during the vendoring process.
#[derive(Debug)]
pub enum VendorChangeError {
    /// Vendored packages requested irreconcilable versions of a
    /// dependency; every source and its request is carried along.
    ConflictingDependency { dependency: String, versions: VersionsWithSources },
    /// The vendored package has no manifest.
    NoElmJsonFound(String),
    /// Reading a package's manifest failed, with the rendered cause.
    IoError(String, String),
    /// A manifest's structure was not what was expected, with the
    /// rendered cause.
    SerdeError(String, String),
}

/// An error that represents multiple causes, carried whole so the caller
/// can render every one.
#[derive(Debug)]
pub struct MultiError {
    pub errors: Vec<VendorChangeError>,
}

impl From<Vec<VendorChangeError>> for MultiError {
    /// A collected failure list carried whole.
    fn from(errors: Vec<VendorChangeError>) -> (r: MultiError) {
        MultiError { errors }
    }
}

impl vstd::std_specs::convert::FromSpecImpl<Vec<VendorChangeError>> for MultiError {
    open spec fn obeys_from_spec() -> bool {
        true
    }

    open spec fn from_spec(errors: Vec<VendorChangeError>) -> MultiError {
        MultiError { errors }
    }
}

/// The sources of a dependency group with their names read as character
/// sequences.
pub open spec fn sources_view(s: Seq<(String, DependencyVersion)>) -> Seq<
    (Seq<char>, DependencyVersion),
> {
    s.map(|i: int, q: (String, DependencyVersion)| (q.0@, q.1))
}

/// A group map with every name read as a character sequence.
pub open spec fn groups_view(g: Seq<(String, VersionsWithSources)>) -> Seq<
    (Seq<char>, Seq<(Seq<char>, DependencyVersion)>),
> {
    g.map(|i: int, p: (String, VersionsWithSources)| (p.0@, sources_view(p.1@)))
}

/// Requests with their names read as (source, dependency, constraint).
pub open spec fn dep_views(ds: Seq<Dependency>) -> Seq<(Seq<char>, Seq<char>, DependencyVersion)> {
    ds.map(|i: int, d: Dependency| (d.source@, d.dependency@, d.version))
}

/// Files one request under its dependency name: an existing group gains
/// the request at its end, a new name opens a new group at the end.
pub open spec fn spec_insert_dep(
    g: Seq<(Seq<char>, Seq<(Seq<char>, DependencyVersion)>)>,
    source: Seq<char>,
    dep: Seq<char>,
    ver: DependencyVersion,
) -> Seq<(Seq<char>, Seq<(Seq<char>, DependencyVersion)>)>
    decreases g.len(),
{
    if g.len() == 0 {
        seq![(dep, seq![(source, ver)])]
    } else if g[0].0 == dep {
        seq![(g[0].0, g[0].1.push((source, ver)))] + g.drop_first()
    } else {
        seq![g[0]] + spec_insert_dep(g.drop_first(), source, dep, ver)
    }
}

/// Files every request in order.
pub open spec fn spec_coalesce(
    g: Seq<(Seq<char>, Seq<(Seq<char>, DependencyVersion)>)>,
    deps: Seq<(Seq<char>, Seq<char>, DependencyVersion)>,
) -> Seq<(Seq<char>, Seq<(Seq<char>, DependencyVersion)>)>
    decreases deps.len(),
{
    if deps.len() == 0 {
        g
    } else {
        spec_coalesce(spec_insert_dep(g, deps[0].0, deps[0].1, deps[0].2), deps.drop_first())
    }
}

/// Filing requests one batch after another is filing their concatenation.
pub proof fn lemma_coalesce_append(
    g: Seq<(Seq<char>, Seq<(Seq<char>, DependencyVersion)>)>,
    a: Seq<(Seq<char>, Seq<char>, DependencyVersion)>,
    b: Seq<(Seq<char>, Seq<char>, DependencyVersion)>,
)
    ensures
        spec_coalesce(g, a + b) == spec_coalesce(spec_coalesce(g, a), b),
    decreases a.len(),
{
    if a.len() == 0 {
        assert(a + b =~= b);
    } else {
        assert((a + b)[0] == a[0]);
        assert((a + b).drop_first() =~= a.drop_first() + b);
        lemma_coalesce_append(spec_insert_dep(g, a[0].0, a[0].1, a[0].2), a.drop_first(), b);
    }
}

/// When the first `i` groups carry other names, filing lands at index `i`.
proof fn lemma_spec_insert_found(
    g: Seq<(Seq<char>, Seq<(Seq<char>, DependencyVersion)>)>,
    source: Seq<char>,
    dep: Seq<char>,
    ver: DependencyVersion,
    i: int,
)
    requires
        0 <= i < g.len(),
        g[i].0 == dep,
        forall|k: int| 0 <= k < i ==> (#[trigger] g[k]).0 != dep,
    ensures
        spec_insert_dep(g, source, dep, ver) == g.update(i, (g[i].0, g[i].1.push((source, ver)))),
    decreases i,
{
    if i == 0 {
        assert(spec_insert_dep(g, source, dep, ver) =~= g.update(
            0,
            (g[0].0, g[0].1.push((source, ver))),
        ));
    } else {
        lemma_spec_insert_found(g.drop_first(), source, dep, ver, i - 1);
        assert(g.drop_first()[i - 1] == g[i]);
        assert(spec_insert_dep(g, source, dep, ver) =~= g.update(
            i,
            (g[i].0, g[i].1.push((source, ver))),
        ));
    }
}

/// When no group carries the name, filing opens a new group at the end.
proof fn lemma_spec_insert_missing(
    g: Seq<(Seq<char>, Seq<(Seq<char>, DependencyVersion)>)>,
    source: Seq<char>,
    dep: Seq<char>,
    ver: DependencyVersion,
)
    requires
        forall|k: int| 0 <= k < g.len() ==> (#[trigger] g[k]).0 != dep,
    ensures
        spec_insert_dep(g, source, dep, ver) == g.push((dep, seq![(source, ver)])),
    decreases g.len(),
{
    if g.len() == 0 {
        assert(spec_insert_dep(g, source, dep, ver) =~= g.push((dep, seq![(source, ver)])));
    } else {
        lemma_spec_insert_missing(g.drop_first(), source, dep, ver);
        assert(spec_insert_dep(g, source, dep, ver) =~= g.push((dep, seq![(source, ver)])));
    }
}

/// Files one request into the group map.
fn insert_dep(
    groups: &mut DependenciesWithSources,
    source: String,
    dep: String,
    ver: DependencyVersion,
)
    ensures
        groups_view(final (groups)@) == spec_insert_dep(
            groups_view(old(groups)@),
            source@,
            dep@,
            ver,
        ),
{
    let ghost orig = groups@;
    let n = groups.len();
    let mut i: usize = 0;
    while i < n
        invariant
            n == groups@.len(),
            groups@ == orig,
            orig == old(groups)@,
            i <= n,
            forall|k: int| 0 <= k < i ==> (#[trigger] groups@[k]).0@ != dep@,
        decreases n - i,
    {
        if groups[i].0 == dep {
            groups[i].1.push((source, ver));
            proof {
                assert(groups_view(orig)[i as int] == (
                    orig[i as int].0@,
                    sources_view(orig[i as int].1@),
                ));
                assert forall|k: int| 0 <= k < i implies (#[trigger] groups_view(orig)[k]).0
                    != dep@ by {
                    assert(groups_view(orig)[k] == (orig[k].0@, sources_view(orig[k].1@)));
                }
                lemma_spec_insert_found(groups_view(orig), source@, dep@, ver, i as int);
                assert(sources_view(groups@[i as int].1@) =~= sources_view(orig[i as int].1@).push(
                    (source@, ver),
                ));
                assert(groups_view(groups@) =~= groups_view(orig).update(
                    i as int,
                    (orig[i as int].0@, sources_view(orig[i as int].1@).push((source@, ver))),
                ));
                assert(spec_insert_dep(groups_view(orig), source@, dep@, ver) == groups_view(
                    orig,
                ).update(
                    i as int,
                    (
                        groups_view(orig)[i as int].0,
                        groups_view(orig)[i as int].1.push((source@, ver)),
                    ),
                ));
                assert(groups_view(groups@) == spec_insert_dep(
                    groups_view(orig),
                    source@,
                    dep@,
                    ver,
                ));
            }
            return ;
        }
        i += 1;
    }
    let mut fresh: VersionsWithSources = Vec::new();
    fresh.push((source, ver));
    proof {
        assert(sources_view(fresh@) =~= seq![(source@, ver)]);
    }
    groups.push((dep, fresh));
    proof {
        lemma_spec_insert_missing(groups_view(orig), source@, dep@, ver);
        assert(groups_view(groups@) =~= groups_view(orig).push((dep@, seq![(source@, ver)])));
    }
}

/// Takes the flattened list of requests and files each under its
/// dependency name, in order.
pub fn coalesce_dependencies(
    dependencies: Vec<Dependency>,
    deps_with_sources: &mut DependenciesWithSources,
)
    ensures
        groups_view(final (deps_with_sources)@) == spec_coalesce(
            groups_view(old(deps_with_sources)@),
            dep_views(dependencies@),
        ),
{
    let ghost g0 = groups_view(old(deps_with_sources)@);
    let ghost all = dep_views(dependencies@);
    let mut todo = dependencies;
    while todo.len() > 0
        invariant
            spec_coalesce(groups_view(deps_with_sources@), dep_views(todo@)) == spec_coalesce(
                g0,
                all,
            ),
        decreases todo@.len(),
    {
        let ghost pre = todo@;
        let d = todo.remove(0);
        let ghost gpre = groups_view(deps_with_sources@);
        insert_dep(deps_with_sources, d.source, d.dependency, d.version);
        proof {
            assert(dep_views(pre)[0] == (d.source@, d.dependency@, d.version));
            assert(dep_views(pre).drop_first() =~= dep_views(todo@));
            assert(spec_coalesce(gpre, dep_views(pre)) == spec_coalesce(
                spec_insert_dep(gpre, d.source@, d.dependency@, d.version),
                dep_views(todo@),
            ));
        }
    }
    proof {
        assert(dep_views(todo@) =~= Seq::<(Seq<char>, Seq<char>, DependencyVersion)>::empty());
    }
}

/// A source directory path placed under a package's directory: the
/// package name and the relative path joined with a separator; an
/// absolute path stands as it is.
pub open spec fn path_join(base: Seq<char>, rel: Seq<char>) -> Seq<char> {
    if rel.len() > 0 && rel[0] == '/' {
        rel
    } else {
        base + seq!['/'] + rel
    }
}

/// Joins a package directory and a relative path.
fn join_path(base: &str, rel: &str) -> (r: String)
    ensures
        r@ == path_join(base@, rel@),
{
    let n = rel.unicode_len();
    if n > 0 && rel.get_char(0) == '/' {
        rel.to_owned()
    } else {
        let mut out = base.to_owned();
        out.append("/");
        out.append(rel);
        proof {
            reveal_strlit("/");
            assert(out@ =~= path_join(base@, rel@));
        }
        out
    }
}

/// The paths of `dirs`, each read as a character sequence.
pub open spec fn dirs_view(dirs: Seq<String>) -> Seq<Seq<char>> {
    dirs.map(|i: int, d: String| d@)
}

/// The paths of `dirs` placed under the package directory `pkg`.
pub open spec fn ctx_dirs(pkg: Seq<char>, dirs: Seq<Seq<char>>) -> Seq<Seq<char>> {
    dirs.map(|i: int, d: Seq<char>| path_join(pkg, d))
}

/// The requests of one manifest, attributed to the package `pkg`.
pub open spec fn man_entries(pkg: Seq<char>, deps: Seq<(String, DependencyVersion)>) -> Seq<
    (Seq<char>, Seq<char>, DependencyVersion),
> {
    deps.map(|i: int, q: (String, DependencyVersion)| (pkg, q.0@, q.1))
}

impl NormalizedElmJson {
    /// All paths to this package's source directories, placed under the
    /// package's own directory.
    pub fn contextualize_source_dirs(&self, name: &str) -> (r: Vec<String>)
        ensures
            dirs_view(r@) == ctx_dirs(name@, dirs_view(self.source_dirs@)),
    {
        let mut out: Vec<String> = Vec::new();
        let mut i: usize = 0;
        while i < self.source_dirs.len()
            invariant
                i <= self.source_dirs@.len(),
                out@.len() == i,
                forall|k: int|
                    0 <= k < i ==> (#[trigger] out@[k])@ == path_join(
                        name@,
                        self.source_dirs@[k]@,
                    ),
            decreases self.source_dirs@.len() - i,
        {
            out.push(join_path(name, self.source_dirs[i].as_str()));
            i += 1;
        }
        proof {
            assert(dirs_view(out@) =~= ctx_dirs(name@, dirs_view(self.source_dirs@)));
        }
        out
    }

    /// This package's requests, each attributed to the package's name.
    pub fn dependencies_with_source_name(&self, package: &str) -> (r: Vec<Dependency>)
        ensures
            dep_views(r@) == man_entries(package@, self.dependencies@),
    {
        let mut out: Vec<Dependency> = Vec::new();
        let mut i: usize = 0;
        while i < self.dependencies.len()
            invariant
                i <= self.dependencies@.len(),
                out@.len() == i,
                forall|k: int|
                    0 <= k < i ==> (#[trigger] out@[k]).source@ == package@ && out@[k].dependency@
                        == self.dependencies@[k].0@ && out@[k].version
                        == self.dependencies@[k].1,
            decreases self.dependencies@.len() - i,
        {
            out.push(
                Dependency {
                    source: String::from_str(package),
                    dependency: self.dependencies[i].0.clone(),
                    version: self.dependencies[i].1,
                },
            );
            i += 1;
        }
        proof {
            assert(dep_views(out@) =~= man_entries(package@, self.dependencies@));
        }
        out
    }
}

/// The merged outcome of a vendor run: every source directory, the main
/// project's own first, and one reconciled constraint per dependency.
#[derive(Debug)]
pub struct MergedElmJson {
    pub source_dirs: Vec<String>,
    pub dependencies: Vec<(String, DependencyVersion)>,
}

/// The intervals of a group whose names are already read off.
pub open spec fn ranges_of_view(s: Seq<(Seq<char>, DependencyVersion)>) -> Seq<VersionRange> {
    s.map(|i: int, p: (Seq<char>, DependencyVersion)| p.1.as_range_spec())
}

/// Reading names off a group leaves its intervals unchanged.
proof fn lemma_ranges_view(s: Seq<(String, DependencyVersion)>)
    ensures
        ranges_of_view(sources_view(s)) == ranges_of(s),
{
    assert(ranges_of_view(sources_view(s)) =~= ranges_of(s));
}

/// What reconciling one dependency group owes: a single constraint
/// admitting exactly the group's combined versions when they form one
/// nonempty contiguous block (and, when every source supplied the very
/// same constraint, that constraint unchanged, unless it was a range
/// admitting exactly one version, which collapses to that version), and
/// otherwise a conflict carrying the dependency's name and every source
/// verbatim.
pub open spec fn group_outcome(
    key: Seq<char>,
    srcs: Seq<(Seq<char>, DependencyVersion)>,
    res: Result<(String, DependencyVersion), VendorChangeError>,
) -> bool {
    if union_nonempty(ranges_of_view(srcs)) && union_convex(ranges_of_view(srcs)) {
        res matches Ok(p) && p.0@ == key && (forall|x: int|
            #[trigger] p.1.has(x) <==> in_union(ranges_of_view(srcs), x)) && ((srcs.len() > 0 && (
        forall|i: int| 0 <= i < srcs.len() ==> (#[trigger] srcs[i]).1 == srcs[0].1)) ==> {
            let c0 = srcs[0].1;
            let r0 = c0.as_range_spec();
            &&& (c0 matches DependencyVersion::SpecificVersion(_) ==> p.1 == c0)
            &&& (r0.lo_eff() < r0.hi_eff() ==> p.1 == c0)
        })
    } else {
        res matches Err(e) && (e matches VendorChangeError::ConflictingDependency {
            dependency,
            versions,
        } && dependency@ == key && sources_view(versions@) == srcs)
    }
}

/// The main project's requests, attributed to its synthetic source name.
pub open spec fn main_entries(main: Seq<(String, DependencyVersion)>) -> Seq<
    (Seq<char>, Seq<char>, DependencyVersion),
> {
    main.map(
        |i: int, p: (String, DependencyVersion)| ("main package (elm-vendor.json)"@, p.0@, p.1),
    )
}

/// The requests of the first `upto` vendored packages, in declared order.
pub open spec fn pkg_entries(v: Seq<(String, NormalizedElmJson)>, upto: int) -> Seq<
    (Seq<char>, Seq<char>, DependencyVersion),
>
    decreases upto,
{
    if upto <= 0 {
        Seq::empty()
    } else {
        pkg_entries(v, upto - 1) + man_entries(v[upto - 1].0@, v[upto - 1].1.dependencies@)
    }
}

/// The dependency groups of a run: the main project's requests first,
/// then every package's, filed under their dependency names.
pub open spec fn spec_groups(
    main: Seq<(String, DependencyVersion)>,
    v: Seq<(String, NormalizedElmJson)>,
) -> Seq<(Seq<char>, Seq<(Seq<char>, DependencyVersion)>)> {
    spec_coalesce(Seq::empty(), main_entries(main) + pkg_entries(v, v.len() as int))
}

/// The merged source directories: the main project's own, then the first
/// `upto` packages' directories placed under their package directories.
pub open spec fn merged_dirs(
    base: Seq<String>,
    v: Seq<(String, NormalizedElmJson)>,
    upto: int,
) -> Seq<Seq<char>>
    decreases upto,
{
    if upto <= 0 {
        dirs_view(base)
    } else {
        merged_dirs(base, v, upto - 1) + ctx_dirs(
            v[upto - 1].0@,
            dirs_view(v[upto - 1].1.source_dirs@),
        )
    }
}

/// Reconciles the main project's constraints with every vendored
/// package's into one constraint per dependency, or fails with every
/// conflict. Pure: the manifests are already loaded; the groups are built
/// in discovery order (main project first, then packages in declared
/// order) and each is reconciled fail-soft, so a conflict in one group
/// never hides another.
pub fn reconcile(
    main_deps: Vec<(String, DependencyVersion)>,
    vendored: Vec<(String, NormalizedElmJson)>,
    main_source_dirs: Vec<String>,
) -> (r: Result<MergedElmJson, Vec<VendorChangeError>>)
    ensures
        ({
            let groups = spec_groups(main_deps@, vendored@);
            exists|rs: Seq<Result<(String, DependencyVersion), VendorChangeError>>|
                #![auto]
                {
                    &&& rs.len() == groups.len()
                    &&& (forall|k: int|
                        0 <= k < rs.len() ==> group_outcome(
                            groups[k].0,
                            groups[k].1,
                            #[trigger] rs[k],
                        ))
                    &&& (errs_of(rs).len() == 0 ==> (r matches Ok(m) && m.dependencies@ == oks_of(
                        rs,
                    ) && dirs_view(m.source_dirs@) == merged_dirs(
                        main_source_dirs@,
                        vendored@,
                        vendored@.len() as int,
                    )))
                    &&& (errs_of(rs).len() > 0 ==> (r matches Err(es) && es@ == errs_of(rs)))
                }
        }),
{
    let ghost vseq = vendored@;
    let ghost mainseq = main_deps@;
    let ghost msd = main_source_dirs@;
    // Group phase: the main project's requests first.
    let mut groups: DependenciesWithSources = Vec::new();
    let mut main_reqs: Vec<Dependency> = Vec::new();
    let mut todo = main_deps;
    while todo.len() > 0
        invariant
            mainseq.len() == main_reqs@.len() + todo@.len(),
            todo@ == mainseq.skip(main_reqs@.len() as int),
            forall|k: int|
                0 <= k < main_reqs@.len() ==> (#[trigger] main_reqs@[k]).source@
                    == "main package (elm-vendor.json)"@ && main_reqs@[k].dependency
                    == mainseq[k].0 && main_reqs@[k].version == mainseq[k].1,
        decreases todo@.len(),
    {
        let ghost pre = todo@;
        let (name, ver) = todo.remove(0);
        proof {
            assert(pre[0] == mainseq[main_reqs@.len() as int]);
            assert(pre.remove(0) =~= mainseq.skip(main_reqs@.len() as int + 1));
        }
        main_reqs.push(
            Dependency {
                source: String::from_str("main package (elm-vendor.json)"),
                dependency: name,
                version: ver,
            },
        );
    }
    proof {
        assert(dep_views(main_reqs@) =~= main_entries(mainseq));
    }
    coalesce_dependencies(main_reqs, &mut groups);
    let mut source_dirs = main_source_dirs;
    let mut i: usize = 0;
    while i < vendored.len()
        invariant
            i <= vseq.len(),
            vendored@ == vseq,
            groups_view(groups@) == spec_coalesce(
                Seq::empty(),
                main_entries(mainseq) + pkg_entries(vseq, i as int),
            ),
            dirs_view(source_dirs@) == merged_dirs(msd, vseq, i as int),
        decreases vseq.len() - i,
    {
        let mut dirs = vendored[i].1.contextualize_source_dirs(vendored[i].0.as_str());
        let ghost dpre = source_dirs@;
        let ghost dnew = dirs@;
        source_dirs.append(&mut dirs);
        let reqs = vendored[i].1.dependencies_with_source_name(vendored[i].0.as_str());
        let ghost gpre = groups_view(groups@);
        let ghost reqviews = dep_views(reqs@);
        coalesce_dependencies(reqs, &mut groups);
        proof {
            assert(dirs_view(source_dirs@) =~= dirs_view(dpre) + dirs_view(dnew));
            assert(merged_dirs(msd, vseq, i + 1) == merged_dirs(msd, vseq, i as int) + ctx_dirs(
                vseq[i as int].0@,
                dirs_view(vseq[i as int].1.source_dirs@),
            ));
            lemma_coalesce_append(
                Seq::empty(),
                main_entries(mainseq) + pkg_entries(vseq, i as int),
                reqviews,
            );
            assert((main_entries(mainseq) + pkg_entries(vseq, i as int)) + reqviews
                =~= main_entries(mainseq) + pkg_entries(vseq, i + 1));
        }
        i += 1;
    }
    proof {
        assert(groups_view(groups@) == spec_groups(mainseq, vseq));
    }
    // Reconcile phase: fail-soft across the groups.
    let ghost gseq = groups@;
    let f = |g: (String, VersionsWithSources)| -> (out: Result<
        (String, DependencyVersion),
        VendorChangeError,
    >)
        ensures
            group_outcome(g.0@, sources_view(g.1@), out),
        {
            let ghost gs = g.1@;
            match collapse_sources(g.1) {
                Ok(c) => {
                    proof {
                        lemma_ranges_view(gs);
                        let srcs = sources_view(gs);
                        if srcs.len() > 0 && (forall|i: int|
                            0 <= i < srcs.len() ==> (#[trigger] srcs[i]).1 == srcs[0].1) {
                            assert forall|i: int| 0 <= i < gs.len() implies (#[trigger] gs[i]).1
                                == gs[0].1 by {
                                assert(srcs[i] == (gs[i].0@, gs[i].1));
                                assert(srcs[0] == (gs[0].0@, gs[0].1));
                            }
                            let x = choose|x: int| in_union(ranges_of(gs), x);
                            let ii = choose|ii: int|
                                0 <= ii < ranges_of(gs).len() && ranges_of(gs)[ii].has(x);
                            assert(ranges_of(gs)[ii] == gs[ii].1.as_range_spec());
                            assert(gs[0].1.as_range_spec().has(x));
                        }
                    }
                    Ok((g.0, c))
                },
                Err(back) => {
                    proof {
                        lemma_ranges_view(gs);
                        assert(sources_view(back@) == sources_view(gs));
                    }
                    Err(
                        VendorChangeError::ConflictingDependency {
                            dependency: g.0,
                            versions: back,
                        },
                    )
                },
            }
        };
    let res = try_with_progress(groups, f);
    proof {
        let rs = choose|rs: Seq<Result<(String, DependencyVersion), VendorChangeError>>|
            #![auto]
            {
                &&& rs.len() == gseq.len()
                &&& (forall|k: int|
                    0 <= k < rs.len() ==> call_ensures(f, (gseq[k],), #[trigger] rs[k]))
                &&& crate::utils::aggregate_outcome(rs, res)
            };
        assert forall|k: int|
            0 <= k < rs.len() implies group_outcome(
            spec_groups(mainseq, vseq)[k].0,
            spec_groups(mainseq, vseq)[k].1,
            #[trigger] rs[k],
        ) by {
            assert(call_ensures(f, (gseq[k],), rs[k]));
            assert(groups_view(gseq)[k] == (gseq[k].0@, sources_view(gseq[k].1@)));
        }
    }
    match res {
        Ok(deps) => Ok(MergedElmJson { source_dirs, dependencies: deps }),
        Err(es) => Err(es),
    }
}

/// The vendored package names paired with their loaded manifests, in
/// declared order.
pub open spec fn zip_pairs(names: Seq<String>, mans: Seq<NormalizedElmJson>) -> Seq<
    (String, NormalizedElmJson),
> {
    Seq::new(names.len(), |i: int| (names[i], mans[i]))
}

/// Runs the whole vendor merge from the load results onward. The load
/// phase is fail-soft: when any package's manifest failed to load, the
/// run fails with exactly the load failures, in declared package order,
/// and no reconciliation is attempted. When every load succeeded, the
/// groups are built (main project first, then packages in declared order)
/// and reconciled fail-soft; conflicts fail the run with one entry per
/// conflicting dependency, each carrying every source verbatim.
pub fn vendor_merge(
    vendor: ElmVendor,
    loads: Vec<Result<NormalizedElmJson, VendorChangeError>>,
) -> (r: Result<MergedElmJson, MultiError>)
    requires
        loads@.len() == vendor.vendored@.len(),
    ensures
        errs_of(loads@).len() > 0 ==> (r matches Err(m) && m.errors@ == errs_of(loads@)),
        errs_of(loads@).len() == 0 ==> ({
            let pairs = zip_pairs(vendor.vendored@, oks_of(loads@));
            let groups = spec_groups(vendor.main_deps@, pairs);
            exists|rs: Seq<Result<(String, DependencyVersion), VendorChangeError>>|
                #![auto]
                {
                    &&& rs.len() == groups.len()
                    &&& (forall|k: int|
                        0 <= k < rs.len() ==> group_outcome(
                            groups[k].0,
                            groups[k].1,
                            #[trigger] rs[k],
                        ))
                    &&& (errs_of(rs).len() == 0 ==> (r matches Ok(m) && m.dependencies@ == oks_of(
                        rs,
                    ) && dirs_view(m.source_dirs@) == merged_dirs(
                        vendor.source_dirs@,
                        pairs,
                        pairs.len() as int,
                    )))
                    &&& (errs_of(rs).len() > 0 ==> (r matches Err(m) && m.errors@ == errs_of(rs)))
                }
        }),
{
    let ghost lseq = loads@;
    // Load phase: pass every result through the fail-soft aggregator, so
    // one missing manifest never hides another.
    let idf = |x: Result<NormalizedElmJson, VendorChangeError>| -> (out: Result<
        NormalizedElmJson,
        VendorChangeError,
    >)
        ensures
            out == x,
        { x };
    let res = try_with_progress(loads, idf);
    proof {
        let rs = choose|rs: Seq<Result<NormalizedElmJson, VendorChangeError>>|
            #![auto]
            {
                &&& rs.len() == lseq.len()
                &&& (forall|k: int|
                    0 <= k < rs.len() ==> call_ensures(idf, (lseq[k],), #[trigger] rs[k]))
                &&& crate::utils::aggregate_outcome(rs, res)
            };
        assert(rs =~= lseq);
    }
    let mans = match res {
        Ok(m) => m,
        Err(es) => {
            return Err(MultiError { errors: es });
        },
    };
    proof {
        lemma_oks_pointwise(lseq);
    }
    let ElmVendor { main_deps, source_dirs, vendored, kind: _ } = vendor;
    // Pair each declared package with its manifest.
    let ghost nseq = vendored@;
    let ghost manseq = mans@;
    let mut pairs: Vec<(String, NormalizedElmJson)> = Vec::new();
    let mut names = vendored;
    let mut ms = mans;
    while names.len() > 0
        invariant
            nseq.len() == manseq.len(),
            nseq.len() == pairs@.len() + names@.len(),
            names@ == nseq.skip(pairs@.len() as int),
            ms@ == manseq.skip(pairs@.len() as int),
            forall|k: int|
                0 <= k < pairs@.len() ==> #[trigger] pairs@[k] == (nseq[k], manseq[k]),
        decreases names@.len(),
    {
        let ghost npre = names@;
        let ghost mpre = ms@;
        let name = names.remove(0);
        let man = ms.remove(0);
        proof {
            assert(npre[0] == nseq[pairs@.len() as int]);
            assert(mpre[0] == manseq[pairs@.len() as int]);
            assert(npre.remove(0) =~= nseq.skip(pairs@.len() as int + 1));
            assert(mpre.remove(0) =~= manseq.skip(pairs@.len() as int + 1));
        }
        pairs.push((name, man));
    }
    proof {
        assert(pairs@ =~= zip_pairs(nseq, manseq));
    }
    match reconcile(main_deps, pairs, source_dirs) {
        Ok(m) => Ok(m),
        Err(es) => Err(MultiError { errors: es }),
    }
}

} // verus!
