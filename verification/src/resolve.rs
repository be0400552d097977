//! Install order of requested components and their dependencies.
//!
//! Components are installed dependencies first. The order is that of a
//! depth-first walk: requests are taken in order; a component not yet seen is
//! marked seen, then its dependencies are walked, in the order the registry
//! lists them, and only then is the component itself installed. A component
//! that was already seen is not walked again, so each is installed once and
//! dependency cycles end.
//!
//! The walk is driven by a queue of frames `(name, emit)`: a frame with
//! `emit == false` asks to walk `name`; one with `emit == true` installs it.

use vstd::prelude::*;
use std::collections::VecDeque;
use crate::add::{after_install, name_part, parse_name, parse_version, version_part};
use crate::config::entry_names;
use crate::registry::{dep_graph, is_first_named, texts, DepGraph, Registry};
use crate::text::text_eq;

verus! {

broadcast use {vstd::seq_lib::group_seq_properties, vstd::set_lib::group_set_lib_default};

// ---------------------------------------------------------------------------
// Specification
// ---------------------------------------------------------------------------

/// Dependencies of the first component named `name`; none when no component
/// has that name.
pub open spec fn deps_of(g: DepGraph, name: Seq<char>) -> Seq<Seq<char>>
    decreases g.len(),
{
    if g.len() == 0 {
        Seq::empty()
    } else if g[0].0 == name {
        g[0].1
    } else {
        deps_of(g.drop_first(), name)
    }
}

/// Every dependency named anywhere in the graph.
pub open spec fn all_deps(g: DepGraph) -> Seq<Seq<char>>
    decreases g.len(),
{
    if g.len() == 0 {
        Seq::empty()
    } else {
        g[0].1 + all_deps(g.drop_first())
    }
}

/// A step of the walk: a name, and whether the step installs it (`true`) or
/// walks it (`false`).
pub type Frame = (Seq<char>, bool);

/// The names in a queue of frames.
pub open spec fn frame_names(q: Seq<Frame>) -> Seq<Seq<char>> {
    q.map_values(|f: Frame| f.0)
}

/// Frames that walk each of `names`, in order.
pub open spec fn walks(names: Seq<Seq<char>>) -> Seq<Frame> {
    names.map_values(|n: Seq<char>| (n, false))
}

/// The frames that walking a new component `name` puts at the front of the
/// queue: walk each dependency, then install the component.
pub open spec fn expand(g: DepGraph, name: Seq<char>) -> Seq<Frame> {
    walks(deps_of(g, name)).push((name, true))
}

/// Names that can still be walked: queued or depended upon, and not seen.
pub open spec fn pending(g: DepGraph, q: Seq<Frame>, seen: Set<Seq<char>>) -> Set<Seq<char>> {
    (all_deps(g) + frame_names(q)).to_set().difference(seen)
}

/// The names installed, in order, by running the queue `q` when the names in
/// `seen` were walked and `out` installed.
pub open spec fn run_frames(
    g: DepGraph,
    q: Seq<Frame>,
    seen: Set<Seq<char>>,
    out: Seq<Seq<char>>,
) -> Seq<Seq<char>>
    decreases pending(g, q, seen).len(), q.len(),
{
    if q.len() == 0 {
        out
    } else if q[0].1 {
        proof {
            lemma_pending_drop(g, q, seen);
        }
        run_frames(g, q.drop_first(), seen, out.push(q[0].0))
    } else if seen.contains(q[0].0) {
        proof {
            lemma_pending_drop(g, q, seen);
        }
        run_frames(g, q.drop_first(), seen, out)
    } else {
        proof {
            lemma_pending_expand(g, q, seen);
        }
        run_frames(g, expand(g, q[0].0) + q.drop_first(), seen.insert(q[0].0), out)
    }
}

/// The names that requests (each `name` or `name@version`) ask for.
pub open spec fn requested_names(requests: Seq<Seq<char>>) -> Seq<Seq<char>> {
    requests.map_values(|r: Seq<char>| name_part(r))
}

/// The order in which `yei add` installs components for `requests`.
pub open spec fn install_order(g: DepGraph, requests: Seq<Seq<char>>) -> Seq<Seq<char>> {
    run_frames(g, walks(requested_names(requests)), Set::empty(), Seq::empty())
}

/// A request pins a version: it is `name@version` with a non-empty version.
pub open spec fn pins(request: Seq<char>) -> bool {
    version_part(request) matches Some(v) && v.len() > 0
}

/// The version pinned for `name` by the first request `name@version`, if
/// any; a request `name@` pins nothing.
pub open spec fn pinned_version(requests: Seq<Seq<char>>, name: Seq<char>) -> Option<Seq<char>>
    decreases requests.len(),
{
    if requests.len() == 0 {
        None
    } else if name_part(requests[0]) == name && pins(requests[0]) {
        version_part(requests[0])
    } else {
        pinned_version(requests.drop_first(), name)
    }
}

/// The version installed for `name`: the pinned one, or else `default`.
pub open spec fn install_version(
    requests: Seq<Seq<char>>,
    name: Seq<char>,
    default: Seq<char>,
) -> Seq<char> {
    match pinned_version(requests, name) {
        Some(v) => v,
        None => default,
    }
}

/// The version of a component is that of the first request `name@version`
/// for it with a non-empty version, whatever other components earlier
/// requests pin.
pub proof fn law_pinned_version(
    requests: Seq<Seq<char>>,
    name: Seq<char>,
    k: int,
    v: Seq<char>,
    default: Seq<char>,
)
    requires
        0 <= k < requests.len(),
        name_part(requests[k]) == name,
        version_part(requests[k]) == Some(v),
        v.len() > 0,
        forall|j: int|
            0 <= j < k && name_part(requests[j]) == name ==> !(version_part(requests[j]) matches Some(
                w,
            ) && w.len() > 0),
    ensures
        install_version(requests, name, default) == v,
    decreases k,
{
    if k > 0 {
        let rest = requests.drop_first();
        assert forall|j: int|
            0 <= j < k - 1 && name_part(rest[j]) == name implies !(version_part(rest[j]) matches Some(
            w,
        ) && w.len() > 0) by {
            assert(rest[j] == requests[j + 1]);
        }
        assert(rest[k - 1] == requests[k]);
        law_pinned_version(rest, name, k - 1, v, default);
        assert(!(name_part(requests[0]) == name && pins(requests[0])));
    }
}

/// A component that no request pins with a non-empty version is installed at
/// the default version.
pub proof fn law_unpinned_version(requests: Seq<Seq<char>>, name: Seq<char>, default: Seq<char>)
    requires
        forall|j: int|
            0 <= j < requests.len() && name_part(requests[j]) == name ==> !(version_part(
                requests[j],
            ) matches Some(w) && w.len() > 0),
    ensures
        install_version(requests, name, default) == default,
    decreases requests.len(),
{
    if requests.len() > 0 {
        let rest = requests.drop_first();
        assert forall|j: int|
            0 <= j < rest.len() && name_part(rest[j]) == name implies !(version_part(rest[j]) matches Some(
            w,
        ) && w.len() > 0) by {
            assert(rest[j] == requests[j + 1]);
        }
        law_unpinned_version(rest, name, default);
        assert(!(name_part(requests[0]) == name && pins(requests[0])));
    }
}

// ---------------------------------------------------------------------------
// Termination of the walk
// ---------------------------------------------------------------------------

/// Every dependency of a component is among all dependencies.
pub proof fn lemma_deps_in_all(g: DepGraph, name: Seq<char>, d: Seq<char>)
    requires
        deps_of(g, name).contains(d),
    ensures
        all_deps(g).contains(d),
    decreases g.len(),
{
    if g.len() > 0 {
        if g[0].0 == name {
            let k = choose|k: int| 0 <= k < g[0].1.len() && g[0].1[k] == d;
            assert((g[0].1 + all_deps(g.drop_first()))[k] == d);
        } else {
            lemma_deps_in_all(g.drop_first(), name, d);
            let k = choose|k: int|
                0 <= k < all_deps(g.drop_first()).len() && all_deps(g.drop_first())[k] == d;
            assert((g[0].1 + all_deps(g.drop_first()))[g[0].1.len() + k] == d);
        }
    }
}

/// A queue drawn from the old queue and the graph, with more names seen,
/// leaves no more names pending.
proof fn lemma_pending_subset(
    g: DepGraph,
    q: Seq<Frame>,
    q2: Seq<Frame>,
    seen: Set<Seq<char>>,
    seen2: Set<Seq<char>>,
)
    requires
        forall|x: Seq<char>|
            frame_names(q2).contains(x) ==> all_deps(g).contains(x) || frame_names(q).contains(x),
        seen.subset_of(seen2),
    ensures
        pending(g, q2, seen2).len() <= (all_deps(g) + frame_names(q)).to_set().difference(
            seen2,
        ).len(),
        pending(g, q2, seen2).finite(),
{
    let a = all_deps(g);
    let n1 = frame_names(q);
    let n2 = frame_names(q2);
    let big = (a + n1).to_set().difference(seen2);
    assert forall|x: Seq<char>| pending(g, q2, seen2).contains(x) implies big.contains(x) by {
        let k = choose|k: int| 0 <= k < (a + n2).len() && (a + n2)[k] == x;
        if k < a.len() {
            assert((a + n1)[k] == x);
        } else {
            assert(n2[k - a.len()] == x);
            if a.contains(x) {
                let j = choose|j: int| 0 <= j < a.len() && a[j] == x;
                assert((a + n1)[j] == x);
            } else {
                let j = choose|j: int| 0 <= j < n1.len() && n1[j] == x;
                assert((a + n1)[a.len() + j] == x);
            }
        }
    }
    vstd::set_lib::lemma_len_subset(pending(g, q2, seen2), big);
}

/// Dropping the front frame leaves no more names pending.
pub proof fn lemma_pending_drop(g: DepGraph, q: Seq<Frame>, seen: Set<Seq<char>>)
    requires
        q.len() > 0,
    ensures
        pending(g, q.drop_first(), seen).len() <= pending(g, q, seen).len(),
{
    assert forall|x: Seq<char>| frame_names(q.drop_first()).contains(x) implies all_deps(
        g,
    ).contains(x) || frame_names(q).contains(x) by {
        let k = choose|k: int|
            0 <= k < frame_names(q.drop_first()).len() && frame_names(q.drop_first())[k] == x;
        assert(frame_names(q)[k + 1] == x);
    }
    lemma_pending_subset(g, q, q.drop_first(), seen, seen);
}

/// Walking a new name leaves fewer names pending.
pub proof fn lemma_pending_expand(g: DepGraph, q: Seq<Frame>, seen: Set<Seq<char>>)
    requires
        q.len() > 0,
        !seen.contains(q[0].0),
    ensures
        pending(g, expand(g, q[0].0) + q.drop_first(), seen.insert(q[0].0)).len() < pending(
            g,
            q,
            seen,
        ).len(),
{
    let n = q[0].0;
    let seen2 = seen.insert(n);
    let ds = deps_of(g, n);
    let q2 = expand(g, n) + q.drop_first();
    assert forall|x: Seq<char>| frame_names(q2).contains(x) implies all_deps(g).contains(x)
        || frame_names(q).contains(x) by {
        let k = choose|k: int| 0 <= k < frame_names(q2).len() && frame_names(q2)[k] == x;
        if k < ds.len() {
            assert(q2[k] == (ds[k], false));
            assert(ds.contains(x));
            lemma_deps_in_all(g, n, x);
        } else if k == ds.len() {
            assert(frame_names(q)[0] == x);
        } else {
            assert(q2[k] == q[k - ds.len()]);
            assert(frame_names(q)[k - ds.len()] == x);
        }
    }
    lemma_pending_subset(g, q, q2, seen, seen2);
    let all = (all_deps(g) + frame_names(q)).to_set();
    assert((all_deps(g) + frame_names(q))[all_deps(g).len() as int] == n);
    all.lemma_set_insert_diff_decreases(seen, n);
}

// ---------------------------------------------------------------------------
// Properties of the install order
// ---------------------------------------------------------------------------

/// `p` is a chain of components, each a dependency of the one before it.
pub open spec fn is_dep_path(g: DepGraph, p: Seq<Seq<char>>) -> bool {
    p.len() > 0 && forall|i: int|
        0 <= i < p.len() - 1 ==> #[trigger] deps_of(g, p[i]).contains(p[i + 1])
}

/// A chain of dependencies leads from `a` to `b` (possibly none: `a == b`).
pub open spec fn reaches(g: DepGraph, a: Seq<char>, b: Seq<char>) -> bool {
    exists|p: Seq<Seq<char>>| is_dep_path(g, p) && p[0] == a && p.last() == b
}

/// `x` is one of `roots` or depended upon, directly or not, by one of them.
pub open spec fn reachable(g: DepGraph, roots: Seq<Seq<char>>, x: Seq<char>) -> bool {
    exists|r: Seq<char>| roots.contains(r) && reaches(g, r, x)
}

/// Each component comes after its dependencies, except a dependency that
/// itself leads back to the component (a dependency cycle).
pub open spec fn deps_first(g: DepGraph, out: Seq<Seq<char>>) -> bool {
    forall|k: int, d: Seq<char>|
        0 <= k < out.len() && #[trigger] deps_of(g, out[k]).contains(d) ==> out.take(k).contains(d)
            || reaches(g, d, out[k])
}

/// Every component reaches itself.
pub proof fn lemma_reaches_refl(g: DepGraph, a: Seq<char>)
    ensures
        reaches(g, a, a),
{
    let p = seq![a];
    assert(is_dep_path(g, p) && p[0] == a && p.last() == a);
}

/// A chain extended by one dependency.
pub proof fn lemma_reaches_step(g: DepGraph, a: Seq<char>, b: Seq<char>, c: Seq<char>)
    requires
        reaches(g, a, b),
        deps_of(g, b).contains(c),
    ensures
        reaches(g, a, c),
{
    let p = choose|p: Seq<Seq<char>>| is_dep_path(g, p) && p[0] == a && p.last() == b;
    let p2 = p.push(c);
    assert forall|i: int| 0 <= i < p2.len() - 1 implies #[trigger] deps_of(g, p2[i]).contains(
        p2[i + 1],
    ) by {
        if i < p.len() - 1 {
            assert(p2[i] == p[i] && p2[i + 1] == p[i + 1]);
        } else {
            assert(p2[i] == b && p2[i + 1] == c);
        }
    }
    assert(is_dep_path(g, p2) && p2[0] == a && p2.last() == c);
}

/// What depends on something reachable is reachable.
pub proof fn lemma_reachable_step(g: DepGraph, roots: Seq<Seq<char>>, b: Seq<char>, c: Seq<char>)
    requires
        reachable(g, roots, b),
        deps_of(g, b).contains(c),
    ensures
        reachable(g, roots, c),
{
    let r = choose|r: Seq<char>| roots.contains(r) && reaches(g, r, b);
    lemma_reaches_step(g, r, b, c);
}

/// The state of the walk: installed names once each; a name is seen when it
/// is installed or waits to be; waiting names are not installed, and each
/// waits once; every queued or installed name is reachable; a waiting name
/// reaches every frame in front of it; a waiting name's dependencies are seen
/// or walked in front of it; a seen name's dependencies are seen or queued;
/// every root is seen or queued; installed names come after their
/// dependencies.
pub open spec fn frames_inv(
    g: DepGraph,
    roots: Seq<Seq<char>>,
    q: Seq<Frame>,
    seen: Set<Seq<char>>,
    out: Seq<Seq<char>>,
) -> bool {
    &&& out.no_duplicates()
    &&& forall|x: Seq<char>| #[trigger]
        seen.contains(x) <==> (out.contains(x) || q.contains((x, true)))
    &&& forall|i: int| 0 <= i < q.len() && (#[trigger] q[i]).1 ==> !out.contains(q[i].0)
    &&& forall|i: int, j: int|
        0 <= i < j < q.len() && (#[trigger] q[i]).1 && (#[trigger] q[j]).1 ==> q[i].0 != q[j].0
    &&& forall|i: int| 0 <= i < q.len() ==> reachable(g, roots, (#[trigger] q[i]).0)
    &&& forall|x: Seq<char>| #[trigger] out.contains(x) ==> reachable(g, roots, x)
    &&& forall|i: int, j: int|
        0 <= i < j < q.len() && (#[trigger] q[j]).1 ==> reaches(g, q[j].0, (#[trigger] q[i]).0)
    &&& forall|j: int, d: Seq<char>|
        0 <= j < q.len() && (#[trigger] q[j]).1 && #[trigger] deps_of(g, q[j].0).contains(d)
            ==> seen.contains(d) || q.take(j).contains((d, false))
    &&& forall|x: Seq<char>, d: Seq<char>|
        #[trigger] seen.contains(x) && #[trigger] deps_of(g, x).contains(d) ==> seen.contains(d)
            || q.contains((d, false))
    &&& forall|r: Seq<char>| #[trigger] roots.contains(r) ==> seen.contains(r) || q.contains((r, false))
    &&& deps_first(g, out)
}

/// What the finished walk gives: names once each, every root, every
/// dependency of an installed name, only reachable names, dependencies first.
pub open spec fn order_facts(g: DepGraph, roots: Seq<Seq<char>>, out: Seq<Seq<char>>) -> bool {
    &&& out.no_duplicates()
    &&& forall|r: Seq<char>| #[trigger] roots.contains(r) ==> out.contains(r)
    &&& forall|x: Seq<char>, d: Seq<char>|
        #[trigger] out.contains(x) && #[trigger] deps_of(g, x).contains(d) ==> out.contains(d)
    &&& forall|x: Seq<char>| #[trigger] out.contains(x) ==> reachable(g, roots, x)
    &&& deps_first(g, out)
}

/// Installing the front frame keeps the state of the walk.
proof fn lemma_inv_emit(
    g: DepGraph,
    roots: Seq<Seq<char>>,
    q: Seq<Frame>,
    seen: Set<Seq<char>>,
    out: Seq<Seq<char>>,
)
    requires
        frames_inv(g, roots, q, seen, out),
        q.len() > 0,
        q[0].1,
    ensures
        frames_inv(g, roots, q.drop_first(), seen, out.push(q[0].0)),
{
    let n = q[0].0;
    let q2 = q.drop_first();
    let out2 = out.push(n);
    assert(!out.contains(n));
    assert(q.contains((n, true))) by {
        assert(q[0] == (n, true));
    }
    assert forall|i: int| 0 <= i < q2.len() implies #[trigger] q2[i] == q[i + 1] by {}
    assert(out2.no_duplicates()) by {
        assert forall|i: int, j: int| 0 <= i < out2.len() && 0 <= j < out2.len() && i != j implies out2[i]
            != out2[j] by {
            if i < out.len() && j < out.len() {
                assert(out2[i] == out[i] && out2[j] == out[j]);
            } else if i < out.len() {
                assert(out.contains(out[i]));
            } else {
                assert(out.contains(out[j]));
            }
        }
    }
    assert forall|x: Seq<char>| out2.contains(x) <==> (out.contains(x) || x == n) by {
        if out2.contains(x) && x != n {
            let k = choose|k: int| 0 <= k < out2.len() && out2[k] == x;
            assert(out[k] == x);
        }
        if out.contains(x) {
            let k = choose|k: int| 0 <= k < out.len() && out[k] == x;
            assert(out2[k] == x);
        }
        if x == n {
            assert(out2[out.len() as int] == n);
        }
    }
    assert forall|f: Frame| q2.contains(f) <==> (q.contains(f) && (f != q[0] || exists|i: int|
        1 <= i < q.len() && q[i] == f)) by {
        if q2.contains(f) {
            let k = choose|k: int| 0 <= k < q2.len() && q2[k] == f;
            assert(q[k + 1] == f);
        }
        if q.contains(f) && (f != q[0] || exists|i: int| 1 <= i < q.len() && q[i] == f) {
            let k = choose|k: int| 0 <= k < q.len() && q[k] == f;
            if k == 0 {
                let i = choose|i: int| 1 <= i < q.len() && q[i] == f;
                assert(q2[i - 1] == f);
            } else {
                assert(q2[k - 1] == f);
            }
        }
    }
    assert forall|x: Seq<char>| #[trigger]
        seen.contains(x) <==> (out2.contains(x) || q2.contains((x, true))) by {
        if q.contains((x, true)) && x != n {
            let k = choose|k: int| 0 <= k < q.len() && q[k] == (x, true);
            assert(q2[k - 1] == (x, true));
        }
        if q2.contains((x, true)) {
            let k = choose|k: int| 0 <= k < q2.len() && q2[k] == (x, true);
            assert(q[k + 1] == (x, true));
        }
    }
    assert forall|i: int| 0 <= i < q2.len() && (#[trigger] q2[i]).1 implies !out2.contains(
        q2[i].0,
    ) by {
        assert(q[i + 1] == q2[i]);
        assert(q[0].1 && q[i + 1].1);
    }
    assert forall|i: int, j: int|
        0 <= i < j < q2.len() && (#[trigger] q2[i]).1 && (#[trigger] q2[j]).1 implies q2[i].0
        != q2[j].0 by {
        assert(q[i + 1] == q2[i] && q[j + 1] == q2[j]);
    }
    assert forall|i: int| 0 <= i < q2.len() implies reachable(g, roots, (#[trigger] q2[i]).0) by {
        assert(q[i + 1] == q2[i]);
    }
    assert(reachable(g, roots, n)) by {
        assert(reachable(g, roots, q[0].0));
    }
    assert forall|x: Seq<char>| #[trigger] out2.contains(x) implies reachable(g, roots, x) by {
        if x != n {
            assert(out.contains(x));
        }
    }
    assert forall|i: int, j: int| 0 <= i < j < q2.len() && (#[trigger] q2[j]).1 implies reaches(
        g,
        q2[j].0,
        (#[trigger] q2[i]).0,
    ) by {
        assert(q[i + 1] == q2[i] && q[j + 1] == q2[j]);
    }
    assert forall|j: int, d: Seq<char>|
        0 <= j < q2.len() && (#[trigger] q2[j]).1 && #[trigger] deps_of(g, q2[j].0).contains(
            d,
        ) implies seen.contains(d) || q2.take(j).contains((d, false)) by {
        assert(q[j + 1] == q2[j]);
        if !seen.contains(d) {
            let t = q.take(j + 1);
            assert(t.contains((d, false)));
            let k = choose|k: int| 0 <= k < t.len() && t[k] == (d, false);
            assert(k != 0);
            assert(q2.take(j)[k - 1] == (d, false));
        }
    }
    assert forall|x: Seq<char>, d: Seq<char>|
        #[trigger] seen.contains(x) && #[trigger] deps_of(g, x).contains(d) implies seen.contains(d)
        || q2.contains((d, false)) by {
        if !seen.contains(d) {
            assert(q.contains((d, false)));
            let k = choose|k: int| 0 <= k < q.len() && q[k] == (d, false);
            assert(q2[k - 1] == (d, false));
        }
    }
    assert forall|r: Seq<char>| #[trigger] roots.contains(r) implies seen.contains(r)
        || q2.contains((r, false)) by {
        if !seen.contains(r) {
            let k = choose|k: int| 0 <= k < q.len() && q[k] == (r, false);
            assert(q2[k - 1] == (r, false));
        }
    }
    assert(deps_first(g, out2)) by {
        assert forall|k: int, d: Seq<char>|
            0 <= k < out2.len() && #[trigger] deps_of(g, out2[k]).contains(d) implies out2.take(
            k,
        ).contains(d) || reaches(g, d, out2[k]) by {
            if k < out.len() {
                assert(out2[k] == out[k]);
                assert(out2.take(k) =~= out.take(k));
            } else {
                assert(out2[k] == n);
                assert(out2.take(k) =~= out);
                assert(q[0].1 && deps_of(g, q[0].0).contains(d));
                assert(q.take(0) =~= Seq::<Frame>::empty());
                assert(seen.contains(d));
                if !out.contains(d) {
                    let i = choose|i: int| 0 <= i < q.len() && q[i] == (d, true);
                    if i == 0 {
                        lemma_reaches_refl(g, n);
                    } else {
                        assert(reaches(g, q[i].0, q[0].0));
                    }
                }
            }
        }
    }
}

/// Skipping a walk of a seen name keeps the state of the walk.
proof fn lemma_inv_skip(
    g: DepGraph,
    roots: Seq<Seq<char>>,
    q: Seq<Frame>,
    seen: Set<Seq<char>>,
    out: Seq<Seq<char>>,
)
    requires
        frames_inv(g, roots, q, seen, out),
        q.len() > 0,
        !q[0].1,
        seen.contains(q[0].0),
    ensures
        frames_inv(g, roots, q.drop_first(), seen, out),
{
    let n = q[0].0;
    let q2 = q.drop_first();
    assert forall|i: int| 0 <= i < q2.len() implies #[trigger] q2[i] == q[i + 1] by {}
    assert forall|x: Seq<char>| #[trigger]
        seen.contains(x) <==> (out.contains(x) || q2.contains((x, true))) by {
        if q.contains((x, true)) {
            let k = choose|k: int| 0 <= k < q.len() && q[k] == (x, true);
            assert(k != 0);
            assert(q2[k - 1] == (x, true));
        }
        if q2.contains((x, true)) {
            let k = choose|k: int| 0 <= k < q2.len() && q2[k] == (x, true);
            assert(q[k + 1] == (x, true));
        }
    }
    assert forall|i: int| 0 <= i < q2.len() && (#[trigger] q2[i]).1 implies !out.contains(
        q2[i].0,
    ) by {
        assert(q[i + 1] == q2[i]);
    }
    assert forall|i: int, j: int|
        0 <= i < j < q2.len() && (#[trigger] q2[i]).1 && (#[trigger] q2[j]).1 implies q2[i].0
        != q2[j].0 by {
        assert(q[i + 1] == q2[i] && q[j + 1] == q2[j]);
    }
    assert forall|i: int| 0 <= i < q2.len() implies reachable(g, roots, (#[trigger] q2[i]).0) by {
        assert(q[i + 1] == q2[i]);
    }
    assert forall|i: int, j: int| 0 <= i < j < q2.len() && (#[trigger] q2[j]).1 implies reaches(
        g,
        q2[j].0,
        (#[trigger] q2[i]).0,
    ) by {
        assert(q[i + 1] == q2[i] && q[j + 1] == q2[j]);
    }
    assert forall|j: int, d: Seq<char>|
        0 <= j < q2.len() && (#[trigger] q2[j]).1 && #[trigger] deps_of(g, q2[j].0).contains(
            d,
        ) implies seen.contains(d) || q2.take(j).contains((d, false)) by {
        assert(q[j + 1] == q2[j]);
        if !seen.contains(d) {
            let t = q.take(j + 1);
            assert(t.contains((d, false)));
            let k = choose|k: int| 0 <= k < t.len() && t[k] == (d, false);
            assert(k != 0);
            assert(q2.take(j)[k - 1] == (d, false));
        }
    }
    assert forall|x: Seq<char>, d: Seq<char>|
        #[trigger] seen.contains(x) && #[trigger] deps_of(g, x).contains(d) implies seen.contains(d)
        || q2.contains((d, false)) by {
        if !seen.contains(d) {
            let k = choose|k: int| 0 <= k < q.len() && q[k] == (d, false);
            assert(k != 0);
            assert(q2[k - 1] == (d, false));
        }
    }
    assert forall|r: Seq<char>| #[trigger] roots.contains(r) implies seen.contains(r)
        || q2.contains((r, false)) by {
        if !seen.contains(r) {
            let k = choose|k: int| 0 <= k < q.len() && q[k] == (r, false);
            assert(k != 0);
            assert(q2[k - 1] == (r, false));
        }
    }
}

/// Walking a new name keeps the state of the walk.
proof fn lemma_inv_expand(
    g: DepGraph,
    roots: Seq<Seq<char>>,
    q: Seq<Frame>,
    seen: Set<Seq<char>>,
    out: Seq<Seq<char>>,
)
    requires
        frames_inv(g, roots, q, seen, out),
        q.len() > 0,
        !q[0].1,
        !seen.contains(q[0].0),
    ensures
        frames_inv(g, roots, expand(g, q[0].0) + q.drop_first(), seen.insert(q[0].0), out),
{
    let n = q[0].0;
    let ds = deps_of(g, n);
    let m = ds.len() as int;
    let q2 = expand(g, n) + q.drop_first();
    let seen2 = seen.insert(n);
    assert(q2.len() == m + q.len());
    assert forall|i: int| 0 <= i < m implies #[trigger] q2[i] == (ds[i], false) by {}
    assert(q2[m] == (n, true));
    assert forall|i: int| m < i < q2.len() implies #[trigger] q2[i] == q[i - m] by {}
    assert(!out.contains(n));
    assert(!q.contains((n, true)));
    assert(reachable(g, roots, n)) by {
        assert(reachable(g, roots, q[0].0));
    }
    assert forall|x: Seq<char>| #[trigger]
        seen2.contains(x) <==> (out.contains(x) || q2.contains((x, true))) by {
        if x == n {
            assert(q2.contains((x, true)));
        } else {
            if q.contains((x, true)) {
                let k = choose|k: int| 0 <= k < q.len() && q[k] == (x, true);
                assert(k != 0);
                assert(q2[k + m] == (x, true));
            }
            if q2.contains((x, true)) {
                let k = choose|k: int| 0 <= k < q2.len() && q2[k] == (x, true);
                if k < m {
                    assert(q2[k].1 == false);
                } else if k == m {
                    assert(x == n);
                } else {
                    assert(q[k - m] == (x, true));
                }
            }
        }
    }
    assert forall|i: int| 0 <= i < q2.len() && (#[trigger] q2[i]).1 implies !out.contains(
        q2[i].0,
    ) by {
        if i > m {
            assert(q[i - m] == q2[i]);
        } else if i < m {
            assert(!q2[i].1);
        }
    }
    assert forall|i: int, j: int|
        0 <= i < j < q2.len() && (#[trigger] q2[i]).1 && (#[trigger] q2[j]).1 implies q2[i].0
        != q2[j].0 by {
        if i < m {
            assert(!q2[i].1);
        } else if i == m {
            assert(q[j - m] == q2[j]);
            if q2[j].0 == n {
                assert(q.contains((n, true)));
            }
        } else {
            assert(q[i - m] == q2[i] && q[j - m] == q2[j]);
        }
    }
    assert forall|i: int| 0 <= i < q2.len() implies reachable(g, roots, (#[trigger] q2[i]).0) by {
        if i < m {
            assert(ds.contains(ds[i]));
            lemma_reachable_step(g, roots, n, ds[i]);
        } else if i > m {
            assert(q[i - m] == q2[i]);
        }
    }
    assert forall|i: int, j: int| 0 <= i < j < q2.len() && (#[trigger] q2[j]).1 implies reaches(
        g,
        q2[j].0,
        (#[trigger] q2[i]).0,
    ) by {
        if j < m {
            assert(!q2[j].1);
        } else if j == m {
            lemma_reaches_refl(g, n);
            assert(ds.contains(ds[i]));
            lemma_reaches_step(g, n, n, ds[i]);
        } else {
            assert(q[j - m] == q2[j]);
            assert(reaches(g, q[j - m].0, q[0].0));
            if i < m {
                assert(ds.contains(ds[i]));
                lemma_reaches_step(g, q[j - m].0, n, ds[i]);
            } else if i > m {
                assert(q[i - m] == q2[i]);
            }
        }
    }
    assert forall|j: int, d: Seq<char>|
        0 <= j < q2.len() && (#[trigger] q2[j]).1 && #[trigger] deps_of(g, q2[j].0).contains(
            d,
        ) implies seen2.contains(d) || q2.take(j).contains((d, false)) by {
        if j < m {
            assert(!q2[j].1);
        } else if j == m {
            let k = choose|k: int| 0 <= k < ds.len() && ds[k] == d;
            assert(q2.take(j)[k] == (d, false));
        } else {
            assert(q[j - m] == q2[j]);
            if !seen.contains(d) {
                let t = q.take(j - m);
                assert(t.contains((d, false)));
                let k = choose|k: int| 0 <= k < t.len() && t[k] == (d, false);
                if k != 0 {
                    assert(q2.take(j)[k + m] == (d, false));
                }
            }
        }
    }
    assert forall|x: Seq<char>, d: Seq<char>|
        #[trigger] seen2.contains(x) && #[trigger] deps_of(g, x).contains(d) implies seen2.contains(
        d,
    ) || q2.contains((d, false)) by {
        if x == n {
            let k = choose|k: int| 0 <= k < ds.len() && ds[k] == d;
            assert(q2[k] == (d, false));
        } else if !seen.contains(d) {
            assert(seen.contains(x));
            let k = choose|k: int| 0 <= k < q.len() && q[k] == (d, false);
            if k != 0 {
                assert(q2[k + m] == (d, false));
            }
        }
    }
    assert forall|r: Seq<char>| #[trigger] roots.contains(r) implies seen2.contains(r)
        || q2.contains((r, false)) by {
        if !seen.contains(r) {
            let k = choose|k: int| 0 <= k < q.len() && q[k] == (r, false);
            if k != 0 {
                assert(q2[k + m] == (r, false));
            }
        }
    }
}

/// The finished walk has the facts of `order_facts`.
pub proof fn lemma_run_frames(
    g: DepGraph,
    roots: Seq<Seq<char>>,
    q: Seq<Frame>,
    seen: Set<Seq<char>>,
    out: Seq<Seq<char>>,
)
    requires
        frames_inv(g, roots, q, seen, out),
    ensures
        order_facts(g, roots, run_frames(g, q, seen, out)),
    decreases pending(g, q, seen).len(), q.len(),
{
    if q.len() == 0 {
        assert forall|x: Seq<char>, d: Seq<char>|
            #[trigger] out.contains(x) && #[trigger] deps_of(g, x).contains(d) implies out.contains(
            d,
        ) by {
            assert(seen.contains(x));
        }
    } else if q[0].1 {
        lemma_pending_drop(g, q, seen);
        lemma_inv_emit(g, roots, q, seen, out);
        lemma_run_frames(g, roots, q.drop_first(), seen, out.push(q[0].0));
    } else if seen.contains(q[0].0) {
        lemma_pending_drop(g, q, seen);
        lemma_inv_skip(g, roots, q, seen, out);
        lemma_run_frames(g, roots, q.drop_first(), seen, out);
    } else {
        lemma_pending_expand(g, q, seen);
        lemma_inv_expand(g, roots, q, seen, out);
        lemma_run_frames(g, roots, expand(g, q[0].0) + q.drop_first(), seen.insert(q[0].0), out);
    }
}

/// Every name along a chain of dependencies from a root is in a set that
/// holds the roots and the dependencies of its members.
proof fn lemma_path_in_closed(
    g: DepGraph,
    roots: Seq<Seq<char>>,
    out: Seq<Seq<char>>,
    p: Seq<Seq<char>>,
    i: int,
)
    requires
        order_facts(g, roots, out),
        is_dep_path(g, p),
        roots.contains(p[0]),
        0 <= i < p.len(),
    ensures
        out.contains(p[i]),
    decreases i,
{
    if i > 0 {
        let j = i - 1;
        lemma_path_in_closed(g, roots, out, p, j);
        assert(deps_of(g, p[j]).contains(p[j + 1]));
    }
}

/// The install order of `yei add`: each component comes once; the components
/// installed are exactly the requested ones and those they depend on,
/// directly or not; and each comes after its dependencies, except where a
/// dependency leads back to it through a cycle.
pub proof fn law_install_order(g: DepGraph, requests: Seq<Seq<char>>)
    ensures
        install_order(g, requests).no_duplicates(),
        forall|x: Seq<char>| #[trigger]
            install_order(g, requests).contains(x) <==> reachable(g, requested_names(requests), x),
        forall|k: int|
            0 <= k < requests.len() ==> install_order(g, requests).contains(
                #[trigger] name_part(requests[k]),
            ),
        deps_first(g, install_order(g, requests)),
{
    let roots = requested_names(requests);
    let q = walks(roots);
    let out = install_order(g, requests);
    assert forall|i: int| 0 <= i < q.len() implies #[trigger] q[i] == (roots[i], false) by {}
    assert forall|x: Seq<char>| #[trigger]
        Set::<Seq<char>>::empty().contains(x) <==> (Seq::<Seq<char>>::empty().contains(x)
            || q.contains((x, true))) by {
        if q.contains((x, true)) {
            let k = choose|k: int| 0 <= k < q.len() && q[k] == (x, true);
            assert(!q[k].1);
        }
    }
    assert forall|i: int| 0 <= i < q.len() implies reachable(g, roots, (#[trigger] q[i]).0) by {
        lemma_reaches_refl(g, roots[i]);
        assert(roots.contains(roots[i]));
    }
    assert forall|r: Seq<char>| #[trigger] roots.contains(r) implies Set::<Seq<char>>::empty().contains(r)
        || q.contains((r, false)) by {
        let k = choose|k: int| 0 <= k < roots.len() && roots[k] == r;
        assert(q[k] == (r, false));
    }
    assert(frames_inv(g, roots, q, Set::empty(), Seq::empty()));
    lemma_run_frames(g, roots, q, Set::empty(), Seq::empty());
    assert forall|x: Seq<char>| #[trigger] out.contains(x) <==> reachable(g, roots, x) by {
        if reachable(g, roots, x) {
            let r = choose|r: Seq<char>| roots.contains(r) && reaches(g, r, x);
            let p = choose|p: Seq<Seq<char>>| is_dep_path(g, p) && p[0] == r && p.last() == x;
            lemma_path_in_closed(g, roots, out, p, p.len() - 1);
        }
    }
    assert forall|k: int| 0 <= k < requests.len() implies out.contains(
        #[trigger] name_part(requests[k]),
    ) by {
        assert(roots[k] == name_part(requests[k]));
        assert(roots.contains(roots[k]));
    }
}

/// What `yei add` installs, in order: each component with its version.
pub open spec fn install_plan(
    g: DepGraph,
    requests: Seq<Seq<char>>,
    default: Seq<char>,
) -> Seq<(Seq<char>, Seq<char>)> {
    install_order(g, requests).map_values(
        |n: Seq<char>| (n, install_version(requests, n, default)),
    )
}

/// The lock after `yei add` runs the install steps of `plan`, in order.
pub open spec fn lock_after_add(
    lock: Map<Seq<char>, Seq<char>>,
    plan: Seq<(Seq<char>, Seq<char>)>,
) -> Map<Seq<char>, Seq<char>>
    decreases plan.len(),
{
    if plan.len() == 0 {
        lock
    } else {
        lock_after_add(after_install(lock, plan[0].0, plan[0].1), plan.drop_first())
    }
}

/// Running install steps keeps what the lock held and adds each planned
/// component it lacked, at its planned version.
proof fn lemma_lock_after_add(lock: Map<Seq<char>, Seq<char>>, plan: Seq<(Seq<char>, Seq<char>)>)
    requires
        entry_names(plan).no_duplicates(),
    ensures
        forall|n: Seq<char>| #[trigger]
            lock_after_add(lock, plan).contains_key(n) <==> (lock.contains_key(n) || entry_names(
                plan,
            ).contains(n)),
        forall|n: Seq<char>|
            lock.contains_key(n) ==> #[trigger] lock_after_add(lock, plan)[n] == lock[n],
        forall|k: int|
            0 <= k < plan.len() && !lock.contains_key(plan[k].0) ==> #[trigger] lock_after_add(
                lock,
                plan,
            )[plan[k].0] == plan[k].1,
    decreases plan.len(),
{
    if plan.len() > 0 {
        let rest = plan.drop_first();
        let next = after_install(lock, plan[0].0, plan[0].1);
        assert(entry_names(rest) =~= entry_names(plan).drop_first());
        lemma_lock_after_add(next, rest);
        let result = lock_after_add(lock, plan);
        assert(result == lock_after_add(next, rest));
        assert forall|n: Seq<char>| entry_names(plan).contains(n) <==> (n == plan[0].0 || entry_names(
            rest,
        ).contains(n)) by {
            if entry_names(plan).contains(n) && n != plan[0].0 {
                let k = choose|k: int| 0 <= k < entry_names(plan).len() && entry_names(plan)[k] == n;
                assert(entry_names(rest)[k - 1] == n);
            }
            if entry_names(rest).contains(n) {
                let k = choose|k: int| 0 <= k < entry_names(rest).len() && entry_names(rest)[k] == n;
                assert(entry_names(plan)[k + 1] == n);
            }
            if n == plan[0].0 {
                assert(entry_names(plan)[0] == n);
            }
        }
        assert forall|n: Seq<char>| #[trigger] result.contains_key(n) <==> (lock.contains_key(n)
            || entry_names(plan).contains(n)) by {
            assert(result.contains_key(n) <==> (next.contains_key(n) || entry_names(rest).contains(n)));
        }
        assert forall|n: Seq<char>| lock.contains_key(n) implies #[trigger] result[n] == lock[n] by {
            assert(next.contains_key(n) && next[n] == lock[n]);
        }
        assert forall|k: int|
            0 <= k < plan.len() && !lock.contains_key(plan[k].0) implies #[trigger] result[plan[k].0]
            == plan[k].1 by {
            if k == 0 {
                assert(next.contains_key(plan[0].0));
            } else {
                assert(rest[k - 1] == plan[k]);
                assert(entry_names(plan)[k] != entry_names(plan)[0]);
                assert(!next.contains_key(rest[k - 1].0));
            }
        }
    }
}

/// After `yei add`, the lock holds what it held before, unchanged, and every
/// requested component and all it depends on, each one it lacked at its
/// install version: the pinned one, or else the default.
pub proof fn law_add_lock(
    lock: Map<Seq<char>, Seq<char>>,
    g: DepGraph,
    requests: Seq<Seq<char>>,
    default: Seq<char>,
)
    ensures
        forall|n: Seq<char>| #[trigger]
            lock_after_add(lock, install_plan(g, requests, default)).contains_key(n) <==> (
            lock.contains_key(n) || reachable(g, requested_names(requests), n)),
        forall|n: Seq<char>|
            lock.contains_key(n) ==> #[trigger] lock_after_add(
                lock,
                install_plan(g, requests, default),
            )[n] == lock[n],
        forall|n: Seq<char>|
            !lock.contains_key(n) && reachable(g, requested_names(requests), n) ==> #[trigger] lock_after_add(
                lock,
                install_plan(g, requests, default),
            )[n] == install_version(requests, n, default),
{
    let plan = install_plan(g, requests, default);
    let order = install_order(g, requests);
    law_install_order(g, requests);
    assert(entry_names(plan) =~= order);
    lemma_lock_after_add(lock, plan);
    assert forall|n: Seq<char>|
        !lock.contains_key(n) && reachable(g, requested_names(requests), n) implies #[trigger] lock_after_add(
        lock,
        plan,
    )[n] == install_version(requests, n, default) by {
        assert(order.contains(n));
        let k = choose|k: int| 0 <= k < order.len() && order[k] == n;
        assert(plan[k].0 == n);
    }
}

// ---------------------------------------------------------------------------
// Execution
// ---------------------------------------------------------------------------

/// Why `yei add` refuses a request.
#[derive(Debug, PartialEq, Eq, Structural)]
pub enum AddError {
    /// No component was named.
    NoComponents,
}

/// Whether `name` is among `names`.
fn contains_name(names: &Vec<String>, name: &String) -> (res: bool)
    ensures
        res == texts(names@).contains(name@),
{
    let mut i: usize = 0;
    while i < names.len()
        invariant
            i <= names.len(),
            forall|k: int| 0 <= k < i ==> names@[k]@ != name@,
        decreases names.len() - i,
    {
        if text_eq(names[i].as_str(), name.as_str()) {
            assert(texts(names@)[i as int] == name@);
            return true;
        }
        i += 1;
    }
    assert forall|k: int| 0 <= k < texts(names@).len() implies texts(names@)[k] != name@ by {
        assert(texts(names@)[k] == names@[k]@);
    }
    false
}

/// The dependencies of the component found for `name` are those of `name` in
/// the graph.
proof fn lemma_found_deps(reg: &Registry, name: Seq<char>, found: Option<usize>)
    requires
        match found {
            Some(i) => is_first_named(reg.components@, name, i as int),
            None => forall|j: int|
                0 <= j < reg.components@.len() ==> reg.components@[j].name@ != name,
        },
    ensures
        deps_of(dep_graph(reg), name) == match found {
            Some(i) => texts(reg.components@[i as int].deps@),
            None => Seq::<Seq<char>>::empty(),
        },
{
    lemma_first_named_deps(reg.components@, name, found);
}

proof fn lemma_first_named_deps(
    comps: Seq<crate::registry::ComponentMeta>,
    name: Seq<char>,
    found: Option<usize>,
)
    requires
        match found {
            Some(i) => is_first_named(comps, name, i as int),
            None => forall|j: int| 0 <= j < comps.len() ==> comps[j].name@ != name,
        },
    ensures
        deps_of(
            comps.map_values(
                |m: crate::registry::ComponentMeta| (m.name@, texts(m.deps@)),
            ),
            name,
        ) == match found {
            Some(i) => texts(comps[i as int].deps@),
            None => Seq::<Seq<char>>::empty(),
        },
    decreases comps.len(),
{
    let g = comps.map_values(|m: crate::registry::ComponentMeta| (m.name@, texts(m.deps@)));
    if comps.len() > 0 {
        let rest = comps.drop_first();
        assert(g.drop_first() =~= rest.map_values(
            |m: crate::registry::ComponentMeta| (m.name@, texts(m.deps@)),
        ));
        match found {
            Some(i) => {
                if i > 0 {
                    assert(is_first_named(rest, name, i - 1)) by {
                        assert forall|j: int| 0 <= j < i - 1 implies rest[j].name@ != name by {
                            assert(rest[j] == comps[j + 1]);
                        }
                    }
                    lemma_first_named_deps(rest, name, Some((i - 1) as usize));
                    assert(rest[i - 1] == comps[i as int]);
                }
            },
            None => {
                assert forall|j: int| 0 <= j < rest.len() implies rest[j].name@ != name by {
                    assert(rest[j] == comps[j + 1]);
                }
                lemma_first_named_deps(rest, name, None);
            },
        }
    }
}


/// The frames of a queue of names and flags.
pub open spec fn frames_of(q: Seq<(String, bool)>) -> Seq<Frame> {
    q.map_values(|f: (String, bool)| (f.0@, f.1))
}

/// Runs the walk: the names that `yei add` installs for `requests`, in order.
fn install_names(requests: &Vec<String>, registry: &Registry) -> (res: Vec<String>)
    ensures
        texts(res@) == install_order(dep_graph(registry), texts(requests@)),
{
    let ghost g = dep_graph(registry);
    let ghost start = walks(requested_names(texts(requests@)));
    let mut queue: VecDeque<(String, bool)> = VecDeque::new();
    let mut i: usize = 0;
    while i < requests.len()
        invariant
            i <= requests.len(),
            start == walks(requested_names(texts(requests@))),
            frames_of(queue@) == start.take(i as int),
        decreases requests.len() - i,
    {
        let name = parse_name(requests[i].as_str());
        let ghost old_queue = queue@;
        let ghost name_view = name@;
        queue.push_back((name, false));
        assert(frames_of(queue@) =~= frames_of(old_queue).push((name_view, false)));
        assert(start[i as int] == (name_view, false));
        assert(start.take(i + 1) =~= start.take(i as int).push(start[i as int]));
        i += 1;
    }
    assert(start.take(requests.len() as int) =~= start);
    let mut seen: Vec<String> = Vec::new();
    let mut out: Vec<String> = Vec::new();
    assert(texts(seen@).to_set() =~= Set::<Seq<char>>::empty());
    assert(texts(out@) =~= Seq::<Seq<char>>::empty());
    while queue.len() > 0
        invariant
            g == dep_graph(registry),
            run_frames(g, frames_of(queue@), texts(seen@).to_set(), texts(out@)) == install_order(
                g,
                texts(requests@),
            ),
        decreases pending(g, frames_of(queue@), texts(seen@).to_set()).len(), queue@.len(),
    {
        let ghost q = frames_of(queue@);
        let ghost seen_set = texts(seen@).to_set();
        let ghost out_v = texts(out@);
        let (name, emit) = queue.pop_front().unwrap();
        assert(q[0] == (name@, emit));
        assert(frames_of(queue@) =~= q.drop_first());
        if emit {
            proof {
                lemma_pending_drop(g, q, seen_set);
            }
            let ghost name_view = name@;
            out.push(name);
            assert(texts(out@) =~= out_v.push(name_view));
        } else if contains_name(&seen, &name) {
            proof {
                lemma_pending_drop(g, q, seen_set);
            }
        } else {
            proof {
                lemma_pending_expand(g, q, seen_set);
            }
            let ghost old_seen = seen@;
            seen.push(name.clone());
            assert(texts(seen@).to_set() =~= seen_set.insert(name@)) by {
                assert(texts(seen@) =~= texts(old_seen).push(name@));
                texts(old_seen).lemma_push_to_set_commute(name@);
            }
            let ghost rest = frames_of(queue@);
            let found = registry.find_component(name.as_str());
            proof {
                lemma_found_deps(registry, name@, found);
            }
            let ghost name_view = name@;
            queue.push_front((name, true));
            assert(frames_of(queue@) =~= seq![(name_view, true)] + rest);
            match found {
                Some(c) => {
                    let deps = &registry.components[c].deps;
                    let ghost dv = texts(deps@);
                    let mut j: usize = deps.len();
                    assert(dv.subrange(j as int, deps.len() as int) =~= Seq::<Seq<char>>::empty());
                    assert(walks(Seq::<Seq<char>>::empty()) =~= Seq::<Frame>::empty());
                    while j > 0
                        invariant
                            j <= deps.len(),
                            dv == texts(deps@),
                            frames_of(queue@) == walks(dv.subrange(j as int, deps.len() as int))
                                + seq![(name_view, true)] + rest,
                        decreases j,
                    {
                        let ghost before = frames_of(queue@);
                        j -= 1;
                        queue.push_front((deps[j].clone(), false));
                        assert(dv[j as int] == deps@[j as int]@);
                        assert(walks(dv.subrange(j as int, deps.len() as int)) =~= seq![
                            (dv[j as int], false),
                        ] + walks(dv.subrange(j + 1, deps.len() as int)));
                        assert(frames_of(queue@) =~= seq![(dv[j as int], false)] + before);
                    }
                    assert(dv.subrange(0, deps.len() as int) =~= dv);
                    assert(frames_of(queue@) =~= expand(g, name_view) + rest);
                },
                None => {
                    assert(walks(Seq::<Seq<char>>::empty()) =~= Seq::<Frame>::empty());
                    assert(frames_of(queue@) =~= expand(g, name_view) + rest);
                },
            }
        }
    }
    assert(frames_of(queue@) =~= Seq::<Frame>::empty());
    out
}

/// The version pinned for `name` by the first request `name@version`.
fn find_pin(requests: &Vec<String>, name: &String) -> (res: Option<String>)
    ensures
        match res {
            Some(v) => pinned_version(texts(requests@), name@) == Some(v@),
            None => pinned_version(texts(requests@), name@) is None,
        },
{
    let mut i: usize = 0;
    assert(texts(requests@).skip(0) =~= texts(requests@));
    while i < requests.len()
        invariant
            i <= requests.len(),
            pinned_version(texts(requests@), name@) == pinned_version(
                texts(requests@).skip(i as int),
                name@,
            ),
        decreases requests.len() - i,
    {
        let ghost rest = texts(requests@).skip(i as int);
        assert(rest[0] == requests@[i as int]@);
        assert(rest.drop_first() =~= texts(requests@).skip(i + 1));
        let n = parse_name(requests[i].as_str());
        if text_eq(n.as_str(), name.as_str()) {
            match parse_version(requests[i].as_str()) {
                Some(v) => {
                    if !v.as_str().is_empty() {
                        return Some(v);
                    }
                },
                None => {},
            }
        }
        i += 1;
    }
    assert(texts(requests@).skip(requests.len() as int) =~= Seq::<Seq<char>>::empty());
    None
}

/// What `yei add` installs for `requests`, in order: each component's name
/// with its version, the one pinned by a request `name@version` or else
/// `default_version`. Dependencies come before the components that need them.
pub fn resolve_install_order(
    requests: &Vec<String>,
    registry: &Registry,
    default_version: &str,
) -> (res: Result<Vec<(String, String)>, AddError>)
    ensures
        match res {
            Ok(plan) => {
                &&& requests.len() > 0
                &&& plan@.map_values(|p: (String, String)| (p.0@, p.1@)) == install_plan(
                    dep_graph(registry),
                    texts(requests@),
                    default_version@,
                )
                &&& plan@.len() == install_order(dep_graph(registry), texts(requests@)).len()
                &&& forall|k: int|
                    0 <= k < plan@.len() ==> {
                        &&& #[trigger] plan@[k].0@ == install_order(
                            dep_graph(registry),
                            texts(requests@),
                        )[k]
                        &&& plan@[k].1@ == install_version(
                            texts(requests@),
                            plan@[k].0@,
                            default_version@,
                        )
                    }
            },
            Err(e) => requests.len() == 0 && e == AddError::NoComponents,
        },
{
    if requests.len() == 0 {
        return Err(AddError::NoComponents);
    }
    let names = install_names(requests, registry);
    let ghost order = install_order(dep_graph(registry), texts(requests@));
    let mut plan: Vec<(String, String)> = Vec::new();
    let mut k: usize = 0;
    while k < names.len()
        invariant
            k <= names.len(),
            texts(names@) == order,
            order == install_order(dep_graph(registry), texts(requests@)),
            plan@.len() == k,
            forall|m: int|
                0 <= m < k ==> {
                    &&& #[trigger] plan@[m].0@ == order[m]
                    &&& plan@[m].1@ == install_version(
                        texts(requests@),
                        plan@[m].0@,
                        default_version@,
                    )
                },
        decreases names.len() - k,
    {
        let name = names[k].clone();
        assert(order[k as int] == names@[k as int]@);
        let version = match find_pin(requests, &name) {
            Some(v) => v,
            None => String::from_str(default_version),
        };
        plan.push((name, version));
        k += 1;
    }
    assert(plan@.map_values(|p: (String, String)| (p.0@, p.1@)) =~= install_plan(
        dep_graph(registry),
        texts(requests@),
        default_version@,
    ));
    Ok(plan)
}

} // verus!
