//! The directory scan: a depth-first walk over a snapshot of a directory
//! tree that collects every subdirectory named "target" and never descends
//! into one it has collected. The surrounding binary reads the real
//! filesystem into a [`DirTree`] and hands it in; paths come back as
//! component lists, root first.

use vstd::prelude::*;
use vstd::string::StringExecFns;

verus! {

/// A snapshot of one directory: its own name and its immediate
/// subdirectories. Plain files are not represented; the scan only ever
/// looks at directories.
pub struct DirTree {
    pub name: String,
    pub children: Vec<DirTree>,
}

/// The name that marks a removable build-artifact directory.
pub open spec fn target_name() -> Seq<char> {
    "target"@
}

/// True exactly when a directory name is the marker name "target".
pub fn is_target_name(name: &String) -> (r: bool)
    ensures
        r == (name@ == target_name()),
{
    let marker: String = String::from_str("target");
    name.eq(&marker)
}

/// The paths the scan yields from the forest `ts`, each extending `prefix`,
/// in depth-first pre-order: a child named "target" contributes its own path
/// and is not descended into; any other child is descended into; the forest
/// is visited left to right.
pub open spec fn scan_forest(ts: Seq<DirTree>, prefix: Seq<Seq<char>>) -> Seq<Seq<Seq<char>>>
    decreases ts,
{
    if ts.len() == 0 {
        Seq::empty()
    } else {
        let first = ts[0];
        let here = if first.name@ == target_name() {
            seq![prefix.push(first.name@)]
        } else {
            scan_forest(first.children@, prefix.push(first.name@))
        };
        here + scan_forest(ts.drop_first(), prefix)
    }
}

/// The paths the scan yields from the whole tree: the root's own name is the
/// first component of every result, and the root itself is never a result.
pub open spec fn spec_scan(t: DirTree) -> Seq<Seq<Seq<char>>> {
    scan_forest(t.children@, seq![t.name@])
}

pub(crate) fn clone_path(p: &Vec<String>) -> (r: Vec<String>)
    ensures
        r.deep_view() == p.deep_view(),
        r@.len() == p@.len(),
{
    let r = p.clone();
    proof {
        assert forall|i: int| 0 <= i < p@.len() implies r@[i]@ == p@[i]@ by {
            assert(cloned::<String>(p@[i], r@[i]));
        }
        assert(r.deep_view() =~= p.deep_view());
    }
    r
}

proof fn lemma_scan_forest_one(t: DirTree, prefix: Seq<Seq<char>>)
    ensures
        t.name@ == target_name() ==> scan_forest(seq![t], prefix) == seq![prefix.push(t.name@)],
        t.name@ != target_name() ==> scan_forest(seq![t], prefix) == scan_forest(
            t.children@,
            prefix.push(t.name@),
        ),
{
    assert(seq![t].drop_first() =~= Seq::<DirTree>::empty());
    assert(scan_forest(Seq::<DirTree>::empty(), prefix) =~= Seq::<Seq<Seq<char>>>::empty());
    assert(seq![t][0] == t);
    if t.name@ == target_name() {
        assert(scan_forest(seq![t], prefix) =~= seq![prefix.push(t.name@)]);
    } else {
        assert(scan_forest(seq![t], prefix) =~= scan_forest(t.children@, prefix.push(t.name@)));
    }
}

proof fn lemma_scan_forest_concat(a: Seq<DirTree>, b: Seq<DirTree>, prefix: Seq<Seq<char>>)
    ensures
        scan_forest(a + b, prefix) == scan_forest(a, prefix) + scan_forest(b, prefix),
    decreases a,
{
    if a.len() == 0 {
        assert(a + b =~= b);
        assert(scan_forest(a, prefix) + scan_forest(b, prefix) =~= scan_forest(b, prefix));
    } else {
        lemma_scan_forest_concat(a.drop_first(), b, prefix);
        assert((a + b).drop_first() =~= a.drop_first() + b);
        assert((a + b)[0] == a[0]);
        assert(scan_forest(a + b, prefix) =~= scan_forest(a, prefix) + scan_forest(b, prefix));
    }
}

fn scan_children(ts: &Vec<DirTree>, prefix: &Vec<String>, out: &mut Vec<Vec<String>>)
    ensures
        final(out).deep_view() == old(out).deep_view() + scan_forest(ts@, prefix.deep_view()),
    decreases ts@,
{
    let mut i: usize = 0;
    while i < ts.len()
        invariant
            i <= ts@.len(),
            out.deep_view() == old(out).deep_view() + scan_forest(
                ts@.subrange(0, i as int),
                prefix.deep_view(),
            ),
        decreases ts@.len() - i,
    {
        let ghost pfx = prefix.deep_view();
        let ghost dv0 = out.deep_view();
        proof {
            assert(ts@.subrange(0, i + 1) =~= ts@.subrange(0, i as int) + seq![ts@[i as int]]);
            lemma_scan_forest_concat(ts@.subrange(0, i as int), seq![ts@[i as int]], pfx);
            lemma_scan_forest_one(ts@[i as int], pfx);
        }
        let child = &ts[i];
        let mut path = clone_path(prefix);
        path.push(child.name.clone());
        proof {
            assert(path.deep_view() =~= pfx.push(child.name@));
        }
        if is_target_name(&child.name) {
            out.push(path);
            proof {
                assert(out.deep_view() =~= dv0.push(path.deep_view()));
                assert(out.deep_view() =~= old(out).deep_view() + scan_forest(
                    ts@.subrange(0, i + 1),
                    pfx,
                ));
            }
        } else {
            proof {
                assert(decreases_to!(ts@ => ts@[i as int].children@));
            }
            scan_children(&child.children, &path, out);
            proof {
                assert(out.deep_view() =~= old(out).deep_view() + scan_forest(
                    ts@.subrange(0, i + 1),
                    pfx,
                ));
            }
        }
        i = i + 1;
    }
    proof {
        assert(ts@.subrange(0, ts@.len() as int) =~= ts@);
    }
}

/// `path` descends through existing directories of the forest `ts`: its
/// first component names one of them, and the rest of it descends into
/// that one's children.
pub open spec fn forest_has_path(ts: Seq<DirTree>, path: Seq<Seq<char>>) -> bool
    decreases path.len(),
{
    path.len() > 0 && exists|i: int|
        #![trigger ts[i]]
        0 <= i < ts.len() && ts[i].name@ == path[0] && (path.len() == 1 || forest_has_path(
            ts[i].children@,
            path.drop_first(),
        ))
}

/// A path the scan owes for the tree `t`: it starts at the root, descends
/// through directories that exist in the tree, ends in one named "target",
/// and passes no directory named "target" on the way down — that is, the
/// named directory is not nested inside another result.
pub open spec fn is_target_result(t: DirTree, p: Seq<Seq<char>>) -> bool {
    &&& p.len() >= 2
    &&& p[0] == t.name@
    &&& forest_has_path(t.children@, p.drop_first())
    &&& p[p.len() - 1] == target_name()
    &&& forall|j: int| 1 <= j < p.len() - 1 ==> p[j] != target_name()
}

/// [`is_target_result`] relative to a forest under an already-walked prefix.
spec fn forest_result(ts: Seq<DirTree>, prefix: Seq<Seq<char>>, p: Seq<Seq<char>>) -> bool {
    &&& p.len() > prefix.len()
    &&& p.subrange(0, prefix.len() as int) == prefix
    &&& forest_has_path(ts, p.subrange(prefix.len() as int, p.len() as int))
    &&& p[p.len() - 1] == target_name()
    &&& forall|j: int| prefix.len() <= j < p.len() - 1 ==> p[j] != target_name()
}

proof fn lemma_scan_forest_exact(ts: Seq<DirTree>, prefix: Seq<Seq<char>>, p: Seq<Seq<char>>)
    ensures
        scan_forest(ts, prefix).contains(p) <==> forest_result(ts, prefix, p),
    decreases ts,
{
    let plen: int = prefix.len() as int;
    if ts.len() == 0 {
        assert(!scan_forest(ts, prefix).contains(p));
        assert(!forest_result(ts, prefix, p));
    } else {
        let first = ts[0];
        let rest = ts.drop_first();
        let prefix2 = prefix.push(first.name@);
        let here = if first.name@ == target_name() {
            seq![prefix.push(first.name@)]
        } else {
            scan_forest(first.children@, prefix2)
        };
        let s2 = scan_forest(rest, prefix);
        assert(scan_forest(ts, prefix) == here + s2);
        assert(scan_forest(ts, prefix).contains(p) <==> (here.contains(p) || s2.contains(p))) by {
            if (here + s2).contains(p) {
                let k = choose|k: int|
                    0 <= k < (here + s2).len() && (#[trigger] (here + s2)[k]) == p;
                if k < here.len() {
                    assert(here[k] == p);
                } else {
                    assert(s2[k - here.len()] == p);
                }
            }
            if here.contains(p) {
                let k = choose|k: int| 0 <= k < here.len() && (#[trigger] here[k]) == p;
                assert((here + s2)[k] == p);
            }
            if s2.contains(p) {
                let k = choose|k: int| 0 <= k < s2.len() && (#[trigger] s2[k]) == p;
                assert((here + s2)[here.len() + k] == p);
            }
        }
        lemma_scan_forest_exact(rest, prefix, p);
        if first.name@ != target_name() {
            assert(decreases_to!(ts => ts[0].children@));
            lemma_scan_forest_exact(first.children@, prefix2, p);
        }
        // Either way the scan finds `p` exactly when the forest owes it;
        // relate the owed paths of `ts` to those of its first tree and of
        // the rest.
        assert(forest_result(ts, prefix, p) ==> here.contains(p) || s2.contains(p)) by {
            if forest_result(ts, prefix, p) {
                let suffix = p.subrange(plen, p.len() as int);
                let i = choose|i: int|
                    #![trigger ts[i]]
                    0 <= i < ts.len() && ts[i].name@ == suffix[0] && (suffix.len() == 1
                        || forest_has_path(ts[i].children@, suffix.drop_first()));
                if i == 0 {
                    assert(first.name@ == suffix[0]);
                    assert(suffix[0] == p[plen]);
                    if first.name@ == target_name() {
                        // the walk stops right here, so the suffix is the
                        // single marker component
                        assert(suffix.len() == 1) by {
                            if suffix.len() > 1 {
                                assert(p[plen] == target_name());
                                assert(plen < p.len() - 1);
                            }
                        }
                        assert(p =~= prefix.push(first.name@));
                        assert(here[0] == p);
                    } else {
                        // the walk descends into the first tree
                        assert(suffix.len() > 1) by {
                            if suffix.len() == 1 {
                                assert(p[p.len() - 1] == p[plen]);
                            }
                        }
                        assert(forest_has_path(first.children@, suffix.drop_first()));
                        assert(forest_result(first.children@, prefix2, p)) by {
                            assert(p.subrange(0, plen + 1) =~= prefix2);
                            assert(p.subrange(plen + 1, p.len() as int) =~= suffix.drop_first());
                        }
                    }
                } else {
                    // the owed path starts below a later sibling
                    assert(forest_result(rest, prefix, p)) by {
                        assert(rest[i - 1] == ts[i]);
                    }
                }
            }
        }
        assert(here.contains(p) ==> forest_result(ts, prefix, p)) by {
            if here.contains(p) {
                if first.name@ == target_name() {
                    assert(p == prefix.push(first.name@));
                    assert(p.subrange(0, plen) =~= prefix);
                    let suffix = p.subrange(plen, p.len() as int);
                    assert(suffix =~= seq![first.name@]);
                    assert(forest_has_path(ts, suffix)) by {
                        assert(ts[0].name@ == suffix[0]);
                    }
                } else {
                    assert(forest_result(first.children@, prefix2, p));
                    let suffix = p.subrange(plen, p.len() as int);
                    assert(p.subrange(0, plen + 1) == prefix2);
                    assert(p.subrange(0, plen) =~= prefix) by {
                        assert forall|j: int| 0 <= j < plen implies p.subrange(0, plen)[j]
                            == prefix[j] by {
                            assert(p.subrange(0, plen + 1)[j] == prefix2[j]);
                        }
                    }
                    assert(p[plen] == first.name@) by {
                        assert(p.subrange(0, plen + 1)[plen] == prefix2[plen]);
                    }
                    assert(forest_has_path(ts, suffix)) by {
                        assert(suffix.len() > 1);
                        assert(ts[0].name@ == suffix[0]);
                        assert(suffix.drop_first() =~= p.subrange(plen + 1, p.len() as int));
                        assert(forest_has_path(ts[0].children@, suffix.drop_first()));
                    }
                    assert forall|j: int| plen <= j < p.len() - 1 implies p[j]
                        != target_name() by {
                        if j == plen {
                            assert(p[j] == first.name@);
                        }
                    }
                }
            }
        }
        assert(s2.contains(p) ==> forest_result(ts, prefix, p)) by {
            if s2.contains(p) {
                assert(forest_result(rest, prefix, p));
                let suffix = p.subrange(plen, p.len() as int);
                let i = choose|i: int|
                    #![trigger rest[i]]
                    0 <= i < rest.len() && rest[i].name@ == suffix[0] && (suffix.len() == 1
                        || forest_has_path(rest[i].children@, suffix.drop_first()));
                assert(ts[i + 1] == rest[i]);
                assert(forest_has_path(ts, suffix));
            }
        }
    }
}

/// The scan returns exactly the "target" directories of the tree that are
/// not nested inside another returned one, however deep they lie.
pub proof fn lemma_scan_exact(t: DirTree, p: Seq<Seq<char>>)
    ensures
        spec_scan(t).contains(p) <==> is_target_result(t, p),
{
    lemma_scan_forest_exact(t.children@, seq![t.name@], p);
    if p.len() >= 1 {
        assert(p.subrange(1, p.len() as int) =~= p.drop_first());
        if p[0] == t.name@ {
            assert(p.subrange(0, 1) =~= seq![t.name@]);
        }
        if p.subrange(0, 1) == seq![t.name@] {
            assert(p.subrange(0, 1)[0] == p[0]);
        }
    }
}

/// No returned path is a strict ancestor of another returned path: once a
/// directory is matched, the scan never descends into it, so nothing below
/// it is ever returned.
pub proof fn lemma_no_nested_results(t: DirTree, p: Seq<Seq<char>>, q: Seq<Seq<char>>)
    requires
        spec_scan(t).contains(p),
        spec_scan(t).contains(q),
        p.len() < q.len(),
    ensures
        p != q.subrange(0, p.len() as int),
{
    lemma_scan_exact(t, p);
    lemma_scan_exact(t, q);
    let plen: int = p.len() as int;
    if p == q.subrange(0, plen) {
        assert(q[plen - 1] == p[plen - 1]) by {
            assert(q.subrange(0, plen)[plen - 1] == q[plen - 1]);
        }
        assert(p[plen - 1] == target_name());
        assert(1 <= plen - 1 < q.len() - 1);
        assert(q[plen - 1] != target_name());
        assert(false);
    }
}

/// Scans the tree depth-first and returns the full path, root first, of
/// every directory named "target" that is not inside another one, in the
/// order the walk meets them.
pub fn scan(root: &DirTree) -> (r: Vec<Vec<String>>)
    ensures
        r.deep_view() == spec_scan(*root),
{
    let mut prefix: Vec<String> = Vec::new();
    prefix.push(root.name.clone());
    proof {
        assert(prefix.deep_view() =~= seq![root.name@]);
    }
    let mut out: Vec<Vec<String>> = Vec::new();
    proof {
        assert(out.deep_view() =~= Seq::<Seq<Seq<char>>>::empty());
    }
    scan_children(&root.children, &prefix, &mut out);
    out
}

/// A path's components joined with `/` between them, the way the walk
/// writes a found directory on the screen.
pub open spec fn joined(p: Seq<Seq<char>>) -> Seq<char>
    decreases p.len(),
{
    if p.len() == 0 {
        Seq::empty()
    } else if p.len() == 1 {
        p[0]
    } else {
        joined(p.drop_last()) + seq!['/'] + p.last()
    }
}

/// Writes a component path as one string, with `/` between components.
pub fn join_path(p: &Vec<String>) -> (r: String)
    ensures
        r@ == joined(p.deep_view()),
{
    let mut r = String::new();
    let mut i: usize = 0;
    while i < p.len()
        invariant
            i <= p@.len(),
            r@ == joined(p.deep_view().subrange(0, i as int)),
        decreases p@.len() - i,
    {
        proof {
            reveal_strlit("/");
            assert("/"@ =~= seq!['/']);
            let dv = p.deep_view();
            if i > 0 {
                assert(dv.subrange(0, i + 1).drop_last() =~= dv.subrange(0, i as int));
                assert(dv.subrange(0, i + 1).last() == dv[i as int]);
            } else {
                assert(dv.subrange(0, 1).len() == 1);
                assert(dv.subrange(0, 1)[0] == dv[0]);
            }
        }
        if i > 0 {
            r.append("/");
        }
        r.append(p[i].as_str());
        i = i + 1;
    }
    proof {
        assert(p.deep_view().subrange(0, p@.len() as int) =~= p.deep_view());
    }
    r
}

} // verus!
