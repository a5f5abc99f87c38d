//! The target dependency graph: edges, cycles, topological orders, and the
//! algorithms that find them.
use vstd::prelude::*;

use crate::target::{names_view, Target};
use crate::text::{lex_lt, same_text};

verus! {

/// The dependency names of each target (`depends_on`, then `check_deps`).
pub open spec fn deps_of(ts: Seq<Target>) -> Seq<Seq<Seq<char>>> {
    ts.map_values(|t: Target| t.all_deps())
}

/// Keys and targets line up, and no key occurs twice.
pub open spec fn graph_ok(keys: Seq<String>, ts: Seq<Target>) -> bool {
    &&& keys.len() == ts.len()
    &&& names_view(keys).no_duplicates()
}

/// Target `i` depends (directly, by `depends_on` or `check_deps`) on target `j`.
pub open spec fn edge(kv: Seq<Seq<char>>, dv: Seq<Seq<Seq<char>>>, i: int, j: int) -> bool {
    0 <= i < kv.len() && 0 <= j < kv.len() && dv[i].contains(kv[j])
}

/// `c` is a cycle: each target depends on the next, and the last on the first.
pub open spec fn is_cycle(kv: Seq<Seq<char>>, dv: Seq<Seq<Seq<char>>>, c: Seq<int>) -> bool {
    &&& c.len() > 0
    &&& forall|k: int| 0 <= k < c.len() - 1 ==> edge(kv, dv, c[k], #[trigger] c[k + 1])
    &&& edge(kv, dv, c.last(), c[0])
}

/// Every dependency of an element of `ord` occurs earlier in `ord`.
pub open spec fn deps_before(kv: Seq<Seq<char>>, dv: Seq<Seq<Seq<char>>>, ord: Seq<int>) -> bool {
    forall|a: int, j: int|
        0 <= a < ord.len() && #[trigger] edge(kv, dv, ord[a], j) ==> ord.take(a).contains(j)
}

/// The graph can be ordered so that every target comes after all its
/// dependencies.
pub open spec fn acyclic(kv: Seq<Seq<char>>, dv: Seq<Seq<Seq<char>>>) -> bool {
    exists|ord: Seq<int>|
        ord.no_duplicates() && (forall|i: int| 0 <= i < kv.len() ==> #[trigger] ord.contains(i))
            && deps_before(kv, dv, ord)
}

proof fn lemma_pos_decreases(
    kv: Seq<Seq<char>>,
    dv: Seq<Seq<Seq<char>>>,
    ord: Seq<int>,
    c: Seq<int>,
    k: int,
)
    requires
        ord.no_duplicates(),
        forall|i: int| 0 <= i < kv.len() ==> #[trigger] ord.contains(i),
        deps_before(kv, dv, ord),
        is_cycle(kv, dv, c),
        0 <= k < c.len(),
    ensures
        ord.contains(c[k]),
        ord.index_of(c[k]) <= ord.index_of(c[0]) - k,
    decreases k,
{
    assert(edge(kv, dv, c.last(), c[0]));
    assert(ord.contains(c[0]));
    if k > 0 {
        lemma_pos_decreases(kv, dv, ord, c, k - 1);
        let p = ord.index_of(c[k - 1]);
        let q = k - 1;
        assert(edge(kv, dv, c[q], c[q + 1]));
        assert(ord[p] == c[k - 1]);
        assert(edge(kv, dv, ord[p], c[k]));
        assert(ord.take(p).contains(c[k]));
        let q = choose|q: int| 0 <= q < p && ord.take(p)[q] == c[k];
        assert(ord[q] == c[k]);
        assert(ord.contains(c[k]));
        assert(ord.index_of(c[k]) == q);
    }
}

/// A graph with a cycle has no dependency order.
pub proof fn lemma_cycle_not_acyclic(kv: Seq<Seq<char>>, dv: Seq<Seq<Seq<char>>>, c: Seq<int>)
    requires
        is_cycle(kv, dv, c),
    ensures
        !acyclic(kv, dv),
{
    if acyclic(kv, dv) {
        let ord = choose|ord: Seq<int>|
            ord.no_duplicates() && (forall|i: int| 0 <= i < kv.len() ==> #[trigger] ord.contains(i))
                && deps_before(kv, dv, ord);
        let l = c.len() - 1;
        lemma_pos_decreases(kv, dv, ord, c, l);
        let p = ord.index_of(c[l]);
        assert(edge(kv, dv, ord[p], c[0]));
        assert(ord.take(p).contains(c[0]));
        let q = choose|q: int| 0 <= q < p && ord.take(p)[q] == c[0];
        assert(ord[q] == c[0]);
    }
}

/// The index of the target named `name`, if there is one.
pub fn find_key(keys: &Vec<String>, name: &str) -> (r: Option<usize>)
    ensures
        match r {
            Some(i) => i < keys@.len() && keys@[i as int]@ == name@,
            None => !names_view(keys@).contains(name@),
        },
{
    let mut i: usize = 0;
    while i < keys.len()
        invariant
            i <= keys@.len(),
            forall|j: int| 0 <= j < i ==> keys@[j]@ != name@,
        decreases keys.len() - i,
    {
        if same_text(keys[i].as_str(), name) {
            return Some(i);
        }
        i = i + 1;
    }
    proof {
        if names_view(keys@).contains(name@) {
            let j = choose|j: int| 0 <= j < keys@.len() && names_view(keys@)[j] == name@;
            assert(keys@[j]@ == name@);
        }
    }
    None
}

pub open spec fn white_count(s: Seq<u8>) -> nat
    decreases s.len(),
{
    if s.len() == 0 {
        0
    } else {
        white_count(s.drop_last()) + if s.last() == 0 { 1nat } else { 0nat }
    }
}

proof fn lemma_white_le(a: Seq<u8>, b: Seq<u8>)
    requires
        a.len() == b.len(),
        forall|i: int| 0 <= i < b.len() && b[i] == 0 ==> a[i] == 0,
    ensures
        white_count(b) <= white_count(a),
        (exists|i: int| 0 <= i < b.len() && a[i] == 0 && b[i] != 0) ==> white_count(b)
            < white_count(a),
    decreases a.len(),
{
    if a.len() > 0 {
        lemma_white_le(a.drop_last(), b.drop_last());
        if exists|i: int| 0 <= i < b.len() && a[i] == 0 && b[i] != 0 {
            let i = choose|i: int| 0 <= i < b.len() && a[i] == 0 && b[i] != 0;
            if i < b.len() - 1 {
                assert(a.drop_last()[i] == 0 && b.drop_last()[i] != 0);
            }
        }
    }
}

pub open spec fn path_ints(p: Seq<usize>) -> Seq<int> {
    p.map_values(|x: usize| x as int)
}

/// The bookkeeping of the depth-first cycle search: grey targets are exactly
/// those on the current path, which is a chain of dependencies; black targets
/// are exactly those finished, and they were finished dependencies first.
pub open spec fn dfs_inv(
    kv: Seq<Seq<char>>,
    dv: Seq<Seq<Seq<char>>>,
    color: Seq<u8>,
    path: Seq<usize>,
    fin: Seq<int>,
) -> bool {
    let n = kv.len();
    &&& color.len() == n
    &&& forall|i: int| 0 <= i < n ==> #[trigger] color[i] <= 2
    &&& forall|k: int| 0 <= k < path.len() ==> #[trigger] path[k] < n
    &&& path_ints(path).no_duplicates()
    &&& forall|i: int| 0 <= i < n ==> (#[trigger] color[i] == 1 <==> path_ints(path).contains(i))
    &&& forall|k: int|
        0 <= k < path.len() - 1 ==> edge(kv, dv, path[k] as int, #[trigger] path[k + 1] as int)
    &&& forall|k: int| 0 <= k < fin.len() ==> 0 <= #[trigger] fin[k] < n
    &&& fin.no_duplicates()
    &&& forall|i: int| 0 <= i < n ==> (#[trigger] color[i] == 2 <==> fin.contains(i))
    &&& deps_before(kv, dv, fin)
}

/// Colours only darken: black stays black, and nothing becomes white.
pub open spec fn darker(old_c: Seq<u8>, new_c: Seq<u8>) -> bool {
    &&& old_c.len() == new_c.len()
    &&& forall|i: int| 0 <= i < old_c.len() && old_c[i] == 2 ==> #[trigger] new_c[i] == 2
    &&& forall|i: int| 0 <= i < old_c.len() && new_c[i] == 0 ==> #[trigger] old_c[i] == 0
}

/// Depth-first visit of target `v` for cycle detection.
fn visit(
    keys: &Vec<String>,
    targets: &Vec<Target>,
    v: usize,
    color: &mut Vec<u8>,
    path: &mut Vec<usize>,
    fin: &mut Ghost<Seq<int>>,
) -> (r: Result<(), Vec<usize>>)
    requires
        graph_ok(keys@, targets@),
        dfs_inv(names_view(keys@), deps_of(targets@), old(color)@, old(path)@, old(fin)@),
        v < keys@.len(),
        old(path)@.len() > 0 ==> edge(
            names_view(keys@),
            deps_of(targets@),
            old(path)@.last() as int,
            v as int,
        ),
    ensures
        match r {
            Ok(()) => {
                &&& dfs_inv(
                    names_view(keys@),
                    deps_of(targets@),
                    final(color)@,
                    final(path)@,
                    final(fin)@,
                )
                &&& final(path)@ == old(path)@
                &&& final(color)@[v as int] == 2
                &&& darker(old(color)@, final(color)@)
            },
            Err(c) => is_cycle(names_view(keys@), deps_of(targets@), path_ints(c@)),
        },
    decreases white_count(old(color)@),
{
    let ghost kv = names_view(keys@);
    let ghost dv = deps_of(targets@);
    let ghost n = keys@.len();
    if color[v] == 1 {
        proof {
            assert(path_ints(path@).contains(v as int));
        }
        let plen = path.len();
        let mut k: usize = 0;
        while path[k] != v
            invariant
                plen == path@.len(),
                0 <= k < path@.len(),
                path_ints(path@).contains(v as int),
                forall|q: int| 0 <= q < k ==> path@[q] != v,
            decreases path@.len() - k,
        {
            k = k + 1;
            proof {
                if k == path@.len() {
                    let q = choose|q: int| 0 <= q < path@.len() && path_ints(path@)[q] == v as int;
                    assert(path@[q] == v);
                }
            }
        }
        let mut cyc: Vec<usize> = Vec::new();
        let mut idx = k;
        while idx < path.len()
            invariant
                k <= idx <= path@.len(),
                cyc@ == path@.subrange(k as int, idx as int),
            decreases path@.len() - idx,
        {
            cyc.push(path[idx]);
            idx = idx + 1;
        }
        proof {
            let c = path_ints(cyc@);
            assert(cyc@ == path@.subrange(k as int, path@.len() as int));
            assert forall|q: int| 0 <= q < c.len() - 1 implies edge(kv, dv, c[q], #[trigger] c[q + 1]) by {
                assert(c[q] == path@[k + q] as int);
                assert(c[q + 1] == path@[k + q + 1] as int);
            }
            assert(c[0] == v as int);
            assert(c.last() == path@.last() as int);
        }
        return Err(cyc);
    }
    if color[v] == 2 {
        return Ok(());
    }
    let ghost old_color = color@;
    let ghost old_path = path@;
    color.set(v, 1);
    path.push(v);
    proof {
        lemma_white_le(old_color, color@);
        assert(!path_ints(old_path).contains(v as int));
        assert(path_ints(path@) =~= path_ints(old_path).push(v as int));
        assert forall|i: int| 0 <= i < n implies (#[trigger] color@[i] == 1 <==> path_ints(
            path@,
        ).contains(i)) by {
            if i != v {
                if path_ints(path@).contains(i) {
                    let q = choose|q: int| 0 <= q < path@.len() && path_ints(path@)[q] == i;
                    assert(q < old_path.len());
                    assert(path_ints(old_path)[q] == i);
                }
                if path_ints(old_path).contains(i) {
                    let q = choose|q: int| 0 <= q < old_path.len() && path_ints(old_path)[q] == i;
                    assert(path_ints(path@)[q] == i);
                }
            } else {
                assert(path_ints(path@)[path@.len() - 1] == i);
            }
        }
    }
    let t = &targets[v];
    let mut d: usize = 0;
    while d < t.depends_on.len()
        invariant
            graph_ok(keys@, targets@),
            kv == names_view(keys@),
            dv == deps_of(targets@),
            n == keys@.len(),
            v < n,
            t == targets@[v as int],
            d <= t.depends_on@.len(),
            dfs_inv(kv, dv, color@, path@, fin@),
            path@ == old_path.push(v),
            color@[v as int] == 1,
            darker(old_color, color@),
            old_color[v as int] == 0,
            white_count(color@) < white_count(old_color),
            old_color == old(color)@,
            forall|j: int, e: int|
                #![trigger kv[j], t.depends_on@[e]]
                0 <= j < n && 0 <= e < d && kv[j] == t.depends_on@[e]@ ==> color@[j] == 2,
        decreases t.depends_on@.len() - d,
    {
        match find_key(keys, t.depends_on[d].as_str()) {
            Some(j) => {
                proof {
                    assert(dv[v as int] == t.all_deps());
                    assert(t.all_deps()[d as int] == t.depends_on@[d as int]@);
                    assert(kv[j as int] == keys@[j as int]@);
                    assert(edge(kv, dv, v as int, j as int));
                    lemma_white_le(old_color, color@);
                }
                let ghost before = color@;
                let r = visit(keys, targets, j, color, path, fin);
                match r {
                    Ok(()) => {
                        proof {
                            assert forall|jj: int, e: int|
                                #![trigger kv[jj], t.depends_on@[e]]
                                0 <= jj < n && 0 <= e < d + 1 && kv[jj]
                                    == t.depends_on@[e]@ implies color@[jj] == 2 by {
                                if e == d {
                                    assert(kv[jj] == kv[j as int]);
                                    assert(names_view(keys@)[jj] == names_view(keys@)[j as int]);
                                }
                            }
                            lemma_white_le(before, color@);
                        }
                    },
                    Err(c) => {
                        return Err(c);
                    },
                }
            },
            None => {
                proof {
                    assert forall|jj: int, e: int|
                        #![trigger kv[jj], t.depends_on@[e]]
                        0 <= jj < n && 0 <= e < d + 1 && kv[jj]
                            == t.depends_on@[e]@ implies color@[jj] == 2 by {
                        if e == d {
                            assert(names_view(keys@)[jj] == t.depends_on@[d as int]@);
                            assert(names_view(keys@).contains(t.depends_on@[d as int]@));
                        }
                    }
                }
            },
        }
        d = d + 1;
    }
    let mut d: usize = 0;
    while d < t.check_deps.len()
        invariant
            graph_ok(keys@, targets@),
            kv == names_view(keys@),
            dv == deps_of(targets@),
            n == keys@.len(),
            v < n,
            t == targets@[v as int],
            d <= t.check_deps@.len(),
            dfs_inv(kv, dv, color@, path@, fin@),
            path@ == old_path.push(v),
            color@[v as int] == 1,
            darker(old_color, color@),
            old_color[v as int] == 0,
            white_count(color@) < white_count(old_color),
            old_color == old(color)@,
            forall|j: int, e: int|
                #![trigger kv[j], t.depends_on@[e]]
                0 <= j < n && 0 <= e < t.depends_on@.len() && kv[j] == t.depends_on@[e]@
                    ==> color@[j] == 2,
            forall|j: int, e: int|
                #![trigger kv[j], t.check_deps@[e]]
                0 <= j < n && 0 <= e < d && kv[j] == t.check_deps@[e]@ ==> color@[j] == 2,
        decreases t.check_deps@.len() - d,
    {
        match find_key(keys, t.check_deps[d].as_str()) {
            Some(j) => {
                proof {
                    assert(dv[v as int] == t.all_deps());
                    let off = t.depends_on@.len() as int;
                    assert(t.all_deps()[off + d] == t.check_deps@[d as int]@);
                    assert(t.all_deps().contains(kv[j as int]));
                    assert(edge(kv, dv, v as int, j as int));
                    lemma_white_le(old_color, color@);
                }
                let ghost before = color@;
                let r = visit(keys, targets, j, color, path, fin);
                match r {
                    Ok(()) => {
                        proof {
                            assert forall|jj: int, e: int|
                                #![trigger kv[jj], t.check_deps@[e]]
                                0 <= jj < n && 0 <= e < d + 1 && kv[jj]
                                    == t.check_deps@[e]@ implies color@[jj] == 2 by {
                                if e == d {
                                    assert(names_view(keys@)[jj] == names_view(keys@)[j as int]);
                                }
                            }
                            lemma_white_le(before, color@);
                        }
                    },
                    Err(c) => {
                        return Err(c);
                    },
                }
            },
            None => {
                proof {
                    assert forall|jj: int, e: int|
                        #![trigger kv[jj], t.check_deps@[e]]
                        0 <= jj < n && 0 <= e < d + 1 && kv[jj]
                            == t.check_deps@[e]@ implies color@[jj] == 2 by {
                        if e == d {
                            assert(names_view(keys@)[jj] == t.check_deps@[d as int]@);
                            assert(names_view(keys@).contains(t.check_deps@[d as int]@));
                        }
                    }
                }
            },
        }
        d = d + 1;
    }
    let ghost mid_color = color@;
    let ghost mid_fin = fin@;
    path.pop();
    color.set(v, 2);
    proof {
        fin@ = fin@.push(v as int);
    }
    proof {
        // every dependency of v is finished
        assert forall|j: int| #[trigger] edge(kv, dv, v as int, j) implies mid_color[j] == 2 by {
            assert(dv[v as int] == t.all_deps());
            let ad = t.all_deps();
            let q = choose|q: int| 0 <= q < ad.len() && ad[q] == kv[j];
            let nd = t.depends_on@.len() as int;
            if q < nd {
                assert(ad[q] == names_view(t.depends_on@)[q]);
                assert(kv[j] == t.depends_on@[q]@);
            } else {
                assert(ad[q] == names_view(t.check_deps@)[q - nd]);
                assert(kv[j] == t.check_deps@[q - nd]@);
            }
        }
        assert(path@ == old_path);
        assert(!mid_fin.contains(v as int));
        assert forall|a: int, j: int|
            0 <= a < fin@.len() && #[trigger] edge(kv, dv, fin@[a], j) implies fin@.take(a).contains(j) by {
            if a == fin@.len() - 1 {
                assert(mid_color[j] == 2);
                assert(mid_fin.contains(j));
                assert(fin@.take(a) =~= mid_fin);
            } else {
                assert(fin@.take(a) =~= mid_fin.take(a));
                assert(mid_fin[a] == fin@[a]);
            }
        }
        assert forall|i: int| 0 <= i < n implies (#[trigger] color@[i] == 2 <==> fin@.contains(i)) by {
            if i != v {
                if fin@.contains(i) {
                    let q = choose|q: int| 0 <= q < fin@.len() && fin@[q] == i;
                    assert(mid_fin[q] == i);
                }
                if mid_fin.contains(i) {
                    let q = choose|q: int| 0 <= q < mid_fin.len() && mid_fin[q] == i;
                    assert(fin@[q] == i);
                }
            } else {
                assert(fin@[fin@.len() - 1] == i);
            }
        }
        assert forall|i: int| 0 <= i < n implies (#[trigger] color@[i] == 1 <==> path_ints(
            path@,
        ).contains(i)) by {
            if i != v {
                assert(path_ints(mid_color_path(old_path, v)).contains(i) == path_ints(
                    old_path,
                ).contains(i)) by {
                    lemma_push_contains(old_path, v, i);
                }
            }
        }
    }
    Ok(())
}

spec fn mid_color_path(p: Seq<usize>, v: usize) -> Seq<usize> {
    p.push(v)
}

proof fn lemma_push_contains(p: Seq<usize>, v: usize, i: int)
    requires
        i != v,
    ensures
        path_ints(p.push(v)).contains(i) == path_ints(p).contains(i),
{
    if path_ints(p.push(v)).contains(i) {
        let q = choose|q: int| 0 <= q < p.len() + 1 && path_ints(p.push(v))[q] == i;
        assert(q < p.len());
        assert(path_ints(p)[q] == i);
    }
    if path_ints(p).contains(i) {
        let q = choose|q: int| 0 <= q < p.len() && path_ints(p)[q] == i;
        assert(path_ints(p.push(v))[q] == i);
    }
}

/// Looks for a dependency cycle. `Ok` when the graph has a dependency order;
/// otherwise a cycle, each target depending on the next and the last on the
/// first.
pub fn detect_cycles(keys: &Vec<String>, targets: &Vec<Target>) -> (r: Result<(), Vec<usize>>)
    requires
        graph_ok(keys@, targets@),
    ensures
        match r {
            Ok(()) => acyclic(names_view(keys@), deps_of(targets@)),
            Err(c) => is_cycle(names_view(keys@), deps_of(targets@), path_ints(c@)),
        },
{
    let ghost kv = names_view(keys@);
    let ghost dv = deps_of(targets@);
    let n = keys.len();
    let mut color: Vec<u8> = Vec::new();
    let mut i: usize = 0;
    while i < n
        invariant
            i <= n,
            color@.len() == i,
            forall|k: int| 0 <= k < i ==> color@[k] == 0,
        decreases n - i,
    {
        color.push(0);
        i = i + 1;
    }
    let mut path: Vec<usize> = Vec::new();
    let mut fin: Ghost<Seq<int>> = Ghost(Seq::empty());
    proof {
        assert(path_ints(path@) =~= Seq::<int>::empty());
    }
    let mut i: usize = 0;
    while i < n
        invariant
            graph_ok(keys@, targets@),
            kv == names_view(keys@),
            dv == deps_of(targets@),
            n == keys@.len(),
            i <= n,
            dfs_inv(kv, dv, color@, path@, fin@),
            path@.len() == 0,
            forall|k: int| 0 <= k < i ==> color@[k] == 2,
        decreases n - i,
    {
        if color[i] == 0 {
            match visit(keys, targets, i, &mut color, &mut path, &mut fin) {
                Ok(()) => {},
                Err(c) => return Err(c),
            }
        } else {
            proof {
                if color@[i as int] == 1 {
                    assert(path_ints(path@).contains(i as int));
                }
            }
        }
        i = i + 1;
    }
    proof {
        assert forall|k: int| 0 <= k < kv.len() implies #[trigger] fin@.contains(k) by {
            assert(color@[k] == 2);
        }
    }
    Ok(())
}


/// `p` is a chain of dependencies: each element depends on the next.
pub open spec fn is_chain(kv: Seq<Seq<char>>, dv: Seq<Seq<Seq<char>>>, p: Seq<int>) -> bool {
    &&& p.len() > 0
    &&& 0 <= p[0] < kv.len()
    &&& forall|k: int| 0 <= k < p.len() - 1 ==> edge(kv, dv, p[k], #[trigger] p[k + 1])
}

/// Target `j` is one of the requested targets or a (transitive) dependency
/// of one.
pub open spec fn reachable(
    kv: Seq<Seq<char>>,
    dv: Seq<Seq<Seq<char>>>,
    req: Seq<Seq<char>>,
    j: int,
) -> bool {
    exists|p: Seq<int>|
        #[trigger] is_chain(kv, dv, p) && req.contains(kv[p[0]]) && p.last() == j
}

/// The targets a run considers: all of them when none are requested,
/// otherwise the requested ones and their (transitive) dependencies.
pub open spec fn relevant(
    kv: Seq<Seq<char>>,
    dv: Seq<Seq<Seq<char>>>,
    req: Seq<Seq<char>>,
    j: int,
) -> bool {
    0 <= j < kv.len() && (req.len() == 0 || reachable(kv, dv, req, j))
}

proof fn lemma_reach_step(
    kv: Seq<Seq<char>>,
    dv: Seq<Seq<Seq<char>>>,
    req: Seq<Seq<char>>,
    i: int,
    j: int,
)
    requires
        reachable(kv, dv, req, i),
        edge(kv, dv, i, j),
    ensures
        reachable(kv, dv, req, j),
{
    let p = choose|p: Seq<int>| #[trigger] is_chain(kv, dv, p) && req.contains(kv[p[0]]) && p.last() == i;
    let p2 = p.push(j);
    assert forall|k: int| 0 <= k < p2.len() - 1 implies edge(kv, dv, p2[k], #[trigger] p2[k + 1]) by {
        if k < p.len() - 1 {
            assert(p2[k] == p[k] && p2[k + 1] == p[k + 1]);
        }
    }
    assert(is_chain(kv, dv, p2));
}

proof fn lemma_closed_has_reachable(
    kv: Seq<Seq<char>>,
    dv: Seq<Seq<Seq<char>>>,
    req: Seq<Seq<char>>,
    m: Seq<bool>,
    p: Seq<int>,
)
    requires
        m.len() == kv.len(),
        is_chain(kv, dv, p),
        req.contains(kv[p[0]]),
        forall|i: int| 0 <= i < kv.len() && req.contains(kv[i]) ==> #[trigger] m[i],
        forall|i: int, j: int| 0 <= i < kv.len() && m[i] && #[trigger] edge(kv, dv, i, j) ==> m[j],
    ensures
        m[p.last()],
    decreases p.len(),
{
    if p.len() > 1 {
        let p1 = p.drop_last();
        assert forall|k: int| 0 <= k < p1.len() - 1 implies edge(kv, dv, p1[k], #[trigger] p1[k + 1]) by {
            assert(p1[k] == p[k] && p1[k + 1] == p[k + 1]);
        }
        lemma_closed_has_reachable(kv, dv, req, m, p1);
        let q = p.len() - 2;
        assert(edge(kv, dv, p[q], p[q + 1]));
    }
}

pub open spec fn count_false(s: Seq<bool>) -> nat
    decreases s.len(),
{
    if s.len() == 0 {
        0
    } else {
        count_false(s.drop_last()) + if s.last() { 0nat } else { 1nat }
    }
}

proof fn lemma_count_false_set(s: Seq<bool>, i: int)
    requires
        0 <= i < s.len(),
        !s[i],
    ensures
        count_false(s.update(i, true)) < count_false(s),
    decreases s.len(),
{
    let t = s.update(i, true);
    if i < s.len() - 1 {
        assert(t.drop_last() =~= s.drop_last().update(i, true));
        lemma_count_false_set(s.drop_last(), i);
    } else {
        assert(t.drop_last() =~= s.drop_last());
    }
}

/// Marks the requested targets and everything they (transitively) depend on.
fn reach_mask(keys: &Vec<String>, targets: &Vec<Target>, starts: &Vec<usize>) -> (m: Vec<bool>)
    requires
        graph_ok(keys@, targets@),
        forall|k: int| 0 <= k < starts@.len() ==> #[trigger] starts@[k] < keys@.len(),
    ensures
        m@.len() == keys@.len(),
        forall|j: int|
            0 <= j < keys@.len() ==> (#[trigger] m@[j] <==> reachable(
                names_view(keys@),
                deps_of(targets@),
                starts@.map_values(|s: usize| names_view(keys@)[s as int]),
                j,
            )),
{
    let ghost kv = names_view(keys@);
    let ghost dv = deps_of(targets@);
    let ghost req = starts@.map_values(|s: usize| names_view(keys@)[s as int]);
    let n = keys.len();
    let mut m: Vec<bool> = Vec::new();
    let mut i: usize = 0;
    while i < n
        invariant
            i <= n,
            m@.len() == i,
            forall|k: int| 0 <= k < i ==> !m@[k],
        decreases n - i,
    {
        m.push(false);
        i = i + 1;
    }
    let mut stack: Vec<usize> = Vec::new();
    let mut i: usize = 0;
    while i < starts.len()
        invariant
            n == keys@.len(),
            i <= starts@.len(),
            stack@ == starts@.take(i as int),
            forall|k: int| 0 <= k < starts@.len() ==> #[trigger] starts@[k] < n,
        decreases starts@.len() - i,
    {
        stack.push(starts[i]);
        i = i + 1;
        proof {
            assert(starts@.take(i as int) =~= starts@.take(i - 1).push(starts@[i - 1]));
        }
    }
    proof {
        assert(stack@ =~= starts@);
        assert forall|k: int| 0 <= k < stack@.len() implies reachable(kv, dv, req, #[trigger] stack@[k] as int) by {
            let p = seq![stack@[k] as int];
            assert(req[k] == kv[p[0]]);
            assert(is_chain(kv, dv, p));
        }
    }
    while stack.len() > 0
        invariant
            graph_ok(keys@, targets@),
            kv == names_view(keys@),
            dv == deps_of(targets@),
            req == starts@.map_values(|s: usize| names_view(keys@)[s as int]),
            n == keys@.len(),
            m@.len() == n,
            forall|k: int| 0 <= k < starts@.len() ==> #[trigger] starts@[k] < n,
            forall|k: int| 0 <= k < stack@.len() ==> #[trigger] stack@[k] < n,
            forall|j: int| 0 <= j < n && #[trigger] m@[j] ==> reachable(kv, dv, req, j),
            forall|k: int| 0 <= k < stack@.len() ==> reachable(kv, dv, req, #[trigger] stack@[k] as int),
            forall|k: int| 0 <= k < starts@.len() ==> #[trigger] m@[starts@[k] as int] || stack@.contains(starts@[k]),
            forall|i: int, j: int|
                0 <= i < n && m@[i] && #[trigger] edge(kv, dv, i, j) ==> m@[j] || stack@.contains(j as usize),
        decreases count_false(m@), stack@.len(),
    {
        let ghost st0 = stack@;
        let x = stack.pop().unwrap();
        proof {
            assert(st0 =~= stack@.push(x));
        }
        if m[x] {
            proof {
                assert forall|k: int| 0 <= k < starts@.len() implies #[trigger] m@[starts@[k] as int] || stack@.contains(starts@[k]) by {
                    if !m@[starts@[k] as int] {
                        let s2 = stack@.push(x);
                        assert(st0.contains(starts@[k]));
                        let q = choose|q: int| 0 <= q < s2.len() && s2[q] == starts@[k];
                        if q < stack@.len() {
                            assert(stack@[q] == starts@[k]);
                        }
                    }
                }
                assert forall|i: int, j: int|
                    0 <= i < n && m@[i] && #[trigger] edge(kv, dv, i, j) implies m@[j] || stack@.contains(j as usize) by {
                    if !m@[j] {
                        let s2 = stack@.push(x);
                        assert(st0.contains(j as usize));
                        let q = choose|q: int| 0 <= q < s2.len() && s2[q] == j as usize;
                        if q < stack@.len() {
                            assert(stack@[q] == j as usize);
                        }
                    }
                }
            }
            continue;
        }
        let ghost pre_m = m@;
        let ghost pre_stack = stack@;
        proof {
            lemma_count_false_set(m@, x as int);
        }
        m.set(x, true);
        let t = &targets[x];
        let mut d: usize = 0;
        while d < t.depends_on.len()
            invariant
                graph_ok(keys@, targets@),
                kv == names_view(keys@),
                dv == deps_of(targets@),
                n == keys@.len(),
                x < n,
                t == targets@[x as int],
                reachable(kv, dv, req, x as int),
                d <= t.depends_on@.len(),
                m@.len() == n,
                m@ == pre_m.update(x as int, true),
                stack@.len() >= pre_stack.len(),
                stack@.take(pre_stack.len() as int) == pre_stack,
                forall|k: int| 0 <= k < stack@.len() ==> #[trigger] stack@[k] < n,
                forall|k: int| 0 <= k < stack@.len() ==> reachable(kv, dv, req, #[trigger] stack@[k] as int),
                forall|j: int, e: int|
                    #![trigger kv[j], t.depends_on@[e]]
                    0 <= j < n && 0 <= e < d && kv[j] == t.depends_on@[e]@ ==> stack@.contains(j as usize),
            decreases t.depends_on@.len() - d,
        {
            match find_key(keys, t.depends_on[d].as_str()) {
                Some(j) => {
                    proof {
                        assert(dv[x as int] == t.all_deps());
                        assert(t.all_deps()[d as int] == t.depends_on@[d as int]@);
                        assert(edge(kv, dv, x as int, j as int));
                        lemma_reach_step(kv, dv, req, x as int, j as int);
                    }
                    let ghost before = stack@;
                    stack.push(j);
                    proof {
                        assert(stack@.take(pre_stack.len() as int) =~= before.take(pre_stack.len() as int));
                        assert forall|jj: int, e: int|
                            #![trigger kv[jj], t.depends_on@[e]]
                            0 <= jj < n && 0 <= e < d + 1 && kv[jj] == t.depends_on@[e]@ implies stack@.contains(jj as usize) by {
                            if e == d {
                                assert(names_view(keys@)[jj] == names_view(keys@)[j as int]);
                                assert(stack@[stack@.len() - 1] == j);
                            } else {
                                let q = choose|q: int| 0 <= q < before.len() && before[q] == jj as usize;
                                assert(stack@[q] == jj as usize);
                            }
                        }
                    }
                },
                None => {
                    proof {
                        assert forall|jj: int, e: int|
                            #![trigger kv[jj], t.depends_on@[e]]
                            0 <= jj < n && 0 <= e < d + 1 && kv[jj] == t.depends_on@[e]@ implies stack@.contains(jj as usize) by {
                            if e == d {
                                assert(names_view(keys@)[jj] == t.depends_on@[d as int]@);
                                assert(names_view(keys@).contains(t.depends_on@[d as int]@));
                            }
                        }
                    }
                },
            }
            d = d + 1;
        }
        let mut d: usize = 0;
        while d < t.check_deps.len()
            invariant
                graph_ok(keys@, targets@),
                kv == names_view(keys@),
                dv == deps_of(targets@),
                n == keys@.len(),
                x < n,
                t == targets@[x as int],
                reachable(kv, dv, req, x as int),
                d <= t.check_deps@.len(),
                m@.len() == n,
                m@ == pre_m.update(x as int, true),
                stack@.len() >= pre_stack.len(),
                stack@.take(pre_stack.len() as int) == pre_stack,
                forall|k: int| 0 <= k < stack@.len() ==> #[trigger] stack@[k] < n,
                forall|k: int| 0 <= k < stack@.len() ==> reachable(kv, dv, req, #[trigger] stack@[k] as int),
                forall|j: int, e: int|
                    #![trigger kv[j], t.depends_on@[e]]
                    0 <= j < n && 0 <= e < t.depends_on@.len() && kv[j] == t.depends_on@[e]@ ==> stack@.contains(j as usize),
                forall|j: int, e: int|
                    #![trigger kv[j], t.check_deps@[e]]
                    0 <= j < n && 0 <= e < d && kv[j] == t.check_deps@[e]@ ==> stack@.contains(j as usize),
            decreases t.check_deps@.len() - d,
        {
            match find_key(keys, t.check_deps[d].as_str()) {
                Some(j) => {
                    proof {
                        assert(dv[x as int] == t.all_deps());
                        let off = t.depends_on@.len() as int;
                        assert(t.all_deps()[off + d] == t.check_deps@[d as int]@);
                        assert(t.all_deps().contains(kv[j as int]));
                        assert(edge(kv, dv, x as int, j as int));
                        lemma_reach_step(kv, dv, req, x as int, j as int);
                    }
                    let ghost before = stack@;
                    stack.push(j);
                    proof {
                        assert(stack@.take(pre_stack.len() as int) =~= before.take(pre_stack.len() as int));
                        assert forall|jj: int, e: int|
                            #![trigger kv[jj], t.depends_on@[e]]
                            0 <= jj < n && 0 <= e < t.depends_on@.len() && kv[jj] == t.depends_on@[e]@ implies stack@.contains(jj as usize) by {
                            let q = choose|q: int| 0 <= q < before.len() && before[q] == jj as usize;
                            assert(stack@[q] == jj as usize);
                        }
                        assert forall|jj: int, e: int|
                            #![trigger kv[jj], t.check_deps@[e]]
                            0 <= jj < n && 0 <= e < d + 1 && kv[jj] == t.check_deps@[e]@ implies stack@.contains(jj as usize) by {
                            if e == d {
                                assert(names_view(keys@)[jj] == names_view(keys@)[j as int]);
                                assert(stack@[stack@.len() - 1] == j);
                            } else {
                                let q = choose|q: int| 0 <= q < before.len() && before[q] == jj as usize;
                                assert(stack@[q] == jj as usize);
                            }
                        }
                    }
                },
                None => {
                    proof {
                        assert forall|jj: int, e: int|
                            #![trigger kv[jj], t.check_deps@[e]]
                            0 <= jj < n && 0 <= e < d + 1 && kv[jj] == t.check_deps@[e]@ implies stack@.contains(jj as usize) by {
                            if e == d {
                                assert(names_view(keys@)[jj] == t.check_deps@[d as int]@);
                                assert(names_view(keys@).contains(t.check_deps@[d as int]@));
                            }
                        }
                    }
                },
            }
            d = d + 1;
        }
        proof {
            let s_old = pre_stack.push(x);
            assert forall|k: int| 0 <= k < pre_stack.len() implies stack@[k] == pre_stack[k] by {
                assert(stack@.take(pre_stack.len() as int)[k] == pre_stack[k]);
            }
            assert forall|k: int| 0 <= k < starts@.len() implies #[trigger] m@[starts@[k] as int] || stack@.contains(starts@[k]) by {
                if !m@[starts@[k] as int] {
                    assert(!pre_m[starts@[k] as int]);
                    assert(s_old.contains(starts@[k]));
                    let q = choose|q: int| 0 <= q < s_old.len() && s_old[q] == starts@[k];
                    if q < pre_stack.len() {
                        assert(stack@[q] == starts@[k]);
                    }
                }
            }
            assert forall|i: int, j: int|
                0 <= i < n && m@[i] && #[trigger] edge(kv, dv, i, j) implies m@[j] || stack@.contains(j as usize) by {
                if i == x {
                    assert(dv[x as int] == t.all_deps());
                    let ad = t.all_deps();
                    let q = choose|q: int| 0 <= q < ad.len() && ad[q] == kv[j];
                    let nd = t.depends_on@.len() as int;
                    if q < nd {
                        assert(ad[q] == names_view(t.depends_on@)[q]);
                        assert(kv[j] == t.depends_on@[q]@);
                    } else {
                        assert(ad[q] == names_view(t.check_deps@)[q - nd]);
                        assert(kv[j] == t.check_deps@[q - nd]@);
                    }
                } else if !m@[j] {
                    assert(pre_m[i]);
                    assert(!pre_m[j]);
                    assert(s_old.contains(j as usize));
                    let q = choose|q: int| 0 <= q < s_old.len() && s_old[q] == j as usize;
                    if q < pre_stack.len() {
                        assert(stack@[q] == j as usize);
                    } else {
                        assert(j == x);
                    }
                }
            }
        }
    }
    proof {
        assert forall|j: int| 0 <= j < n implies (#[trigger] m@[j] <==> reachable(kv, dv, req, j)) by {
            if reachable(kv, dv, req, j) {
                let p = choose|p: Seq<int>| #[trigger] is_chain(kv, dv, p) && req.contains(kv[p[0]]) && p.last() == j;
                assert forall|i: int| 0 <= i < kv.len() && req.contains(kv[i]) implies #[trigger] m@[i] by {
                    let k = choose|k: int| 0 <= k < req.len() && req[k] == kv[i];
                    assert(kv[starts@[k] as int] == kv[i]);
                    assert(names_view(keys@)[starts@[k] as int] == names_view(keys@)[i]);
                }
                lemma_closed_has_reachable(kv, dv, req, m@, p);
            }
        }
    }
    m
}



/// The marked targets, ordered by name.
/// `rs` lists targets in increasing order of their names.
pub open spec fn sorted_by_name(kv: Seq<Seq<char>>, rs: Seq<usize>) -> bool {
    forall|a: int, b: int|
        #![trigger rs[a], rs[b]]
        0 <= a < b < rs.len() ==> lex_lt(kv[rs[a] as int], kv[rs[b] as int])
}

fn sorted_members(keys: &Vec<String>, m: &Vec<bool>) -> (rs: Vec<usize>)
    requires
        m@.len() == keys@.len(),
        names_view(keys@).no_duplicates(),
    ensures
        sorted_by_name(names_view(keys@), rs@),
        path_ints(rs@).no_duplicates(),
        forall|k: int| 0 <= k < rs@.len() ==> #[trigger] rs@[k] < keys@.len(),
        forall|j: int| 0 <= j < keys@.len() ==> (#[trigger] m@[j] <==> rs@.contains(j as usize)),
{
    let ghost kv = names_view(keys@);
    let n = keys.len();
    let mut rs: Vec<usize> = Vec::new();
    let mut i: usize = 0;
    while i < n
        invariant
            n == keys@.len(),
            kv == names_view(keys@),
            kv.no_duplicates(),
            m@.len() == n,
            i <= n,
            sorted_by_name(kv, rs@),
            path_ints(rs@).no_duplicates(),
            forall|k: int| 0 <= k < rs@.len() ==> #[trigger] rs@[k] < i,
            forall|j: int| 0 <= j < i ==> (#[trigger] m@[j] <==> rs@.contains(j as usize)),
        decreases n - i,
    {
        if m[i] {
            let mut p: usize = 0;
            while p < rs.len() && !crate::text::str_lt(keys[i].as_str(), keys[rs[p]].as_str())
                invariant
                    p <= rs@.len(),
                    forall|k: int| 0 <= k < rs@.len() ==> #[trigger] rs@[k] < i,
                    i < n,
                    n == keys@.len(),
                    kv == names_view(keys@),
                    forall|q: int| 0 <= q < p ==> !lex_lt(kv[i as int], #[trigger] kv[rs@[q] as int]),
                decreases rs@.len() - p,
            {
                p = p + 1;
            }
            let ghost pre = rs@;
            proof {
                assert(p < pre.len() ==> lex_lt(kv[i as int], kv[pre[p as int] as int]));
            }
            rs.insert(p, i);
            proof {
                assert(rs@ == pre.insert(p as int, i));
                assert forall|a: int, b: int| #![trigger rs@[a], rs@[b]] 0 <= a < b < rs@.len() implies lex_lt(
                    kv[rs@[a] as int],
                    kv[rs@[b] as int],
                ) by {
                    if a < p && b < p {
                        assert(rs@[a] == pre[a] && rs@[b] == pre[b]);
                    } else if a < p && b == p {
                        assert(rs@[a] == pre[a]);
                        assert(pre[a] < i);
                        assert(kv[pre[a] as int] != kv[i as int]);
                        assert(!lex_lt(kv[i as int], kv[pre[a] as int]));
                        crate::text::lemma_lex_total(kv[pre[a] as int], kv[i as int]);
                    } else if a < p {
                        assert(rs@[a] == pre[a] && rs@[b] == pre[b - 1]);
                    } else if a == p {
                        assert(rs@[b] == pre[b - 1]);
                        if b - 1 > p {
                            assert(lex_lt(kv[pre[p as int] as int], kv[pre[b - 1] as int]));
                            crate::text::lemma_lex_trans(kv[i as int], kv[pre[p as int] as int], kv[pre[b - 1] as int]);
                        }
                    } else {
                        assert(rs@[a] == pre[a - 1] && rs@[b] == pre[b - 1]);
                    }
                }
                assert forall|k: int| 0 <= k < rs@.len() implies #[trigger] rs@[k] < i + 1 by {
                    if k < p {
                        assert(rs@[k] == pre[k]);
                    } else if k > p {
                        assert(rs@[k] == pre[k - 1]);
                    }
                }
                assert forall|a: int, b: int| 0 <= a < b < rs@.len() implies path_ints(rs@)[a] != path_ints(rs@)[b] by {
                    let a2 = if a < p { a } else { a - 1 };
                    let b2 = if b < p { b } else { b - 1 };
                    if a != p && b != p {
                        assert(path_ints(pre)[a2] != path_ints(pre)[b2]);
                    } else if a == p {
                        assert(pre[b2] < i);
                    } else {
                        assert(pre[a2] < i);
                    }
                }
                assert forall|j: int| 0 <= j < i + 1 implies (#[trigger] m@[j] <==> rs@.contains(j as usize)) by {
                    if j < i {
                        if pre.contains(j as usize) {
                            let q = choose|q: int| 0 <= q < pre.len() && pre[q] == j as usize;
                            if q < p {
                                assert(rs@[q] == j as usize);
                            } else {
                                assert(rs@[q + 1] == j as usize);
                            }
                        }
                        if rs@.contains(j as usize) {
                            let q = choose|q: int| 0 <= q < rs@.len() && rs@[q] == j as usize;
                            if q < p {
                                assert(pre[q] == j as usize);
                            } else if q > p {
                                assert(pre[q - 1] == j as usize);
                            }
                        }
                    } else {
                        assert(rs@[p as int] == i);
                    }
                }
            }
        } else {
            proof {
                assert(!rs@.contains(i));
            }
        }
        i = i + 1;
    }
    rs
}

/// How often `name` occurs in `ds`.
pub open spec fn occ(ds: Seq<Seq<char>>, name: Seq<char>) -> nat
    decreases ds.len(),
{
    if ds.len() == 0 {
        0
    } else {
        occ(ds.drop_last(), name) + if ds.last() == name { 1nat } else { 0nat }
    }
}

/// Name `d` is that of a considered target not yet placed.
pub open spec fn is_pend(kv: Seq<Seq<char>>, inr: Seq<bool>, outm: Seq<bool>, d: Seq<char>) -> bool {
    exists|j: int| 0 <= j < kv.len() && kv[j] == d && #[trigger] inr[j] && !outm[j]
}

/// How many entries of `ds` name a considered target not yet placed.
pub open spec fn pend(kv: Seq<Seq<char>>, inr: Seq<bool>, outm: Seq<bool>, ds: Seq<Seq<char>>) -> nat
    decreases ds.len(),
{
    if ds.len() == 0 {
        0
    } else {
        pend(kv, inr, outm, ds.drop_last()) + if is_pend(kv, inr, outm, ds.last()) {
            1nat
        } else {
            0nat
        }
    }
}

proof fn lemma_pend_place(
    kv: Seq<Seq<char>>,
    inr: Seq<bool>,
    outm: Seq<bool>,
    x: int,
    ds: Seq<Seq<char>>,
)
    requires
        kv.no_duplicates(),
        inr.len() == kv.len(),
        outm.len() == kv.len(),
        0 <= x < kv.len(),
        inr[x],
        !outm[x],
    ensures
        pend(kv, inr, outm.update(x, true), ds) + occ(ds, kv[x]) == pend(kv, inr, outm, ds),
    decreases ds.len(),
{
    if ds.len() > 0 {
        lemma_pend_place(kv, inr, outm, x, ds.drop_last());
        let d = ds.last();
        let o2 = outm.update(x, true);
        if d == kv[x] {
            assert(is_pend(kv, inr, outm, d));
            if is_pend(kv, inr, o2, d) {
                let j = choose|j: int| 0 <= j < kv.len() && kv[j] == d && #[trigger] inr[j] && !o2[j];
                assert(kv[j] == kv[x]);
            }
        } else {
            if is_pend(kv, inr, outm, d) {
                let j = choose|j: int| 0 <= j < kv.len() && kv[j] == d && #[trigger] inr[j] && !outm[j];
                assert(j != x);
                assert(is_pend(kv, inr, o2, d));
            }
            if is_pend(kv, inr, o2, d) {
                let j = choose|j: int| 0 <= j < kv.len() && kv[j] == d && #[trigger] inr[j] && !o2[j];
                assert(is_pend(kv, inr, outm, d));
            }
        }
    }
}

proof fn lemma_pend_zero(kv: Seq<Seq<char>>, inr: Seq<bool>, outm: Seq<bool>, ds: Seq<Seq<char>>)
    ensures
        pend(kv, inr, outm, ds) == 0 <==> forall|k: int| 0 <= k < ds.len() ==> !is_pend(kv, inr, outm, #[trigger] ds[k]),
    decreases ds.len(),
{
    if ds.len() > 0 {
        lemma_pend_zero(kv, inr, outm, ds.drop_last());
        if pend(kv, inr, outm, ds) == 0 {
            assert forall|k: int| 0 <= k < ds.len() implies !is_pend(kv, inr, outm, #[trigger] ds[k]) by {
                if k < ds.len() - 1 {
                    assert(ds.drop_last()[k] == ds[k]);
                }
            }
        } else {
            if pend(kv, inr, outm, ds.drop_last()) > 0 {
                let k = choose|k: int| 0 <= k < ds.drop_last().len() && is_pend(kv, inr, outm, #[trigger] ds.drop_last()[k]);
                assert(ds[k] == ds.drop_last()[k]);
            } else {
                assert(is_pend(kv, inr, outm, ds[ds.len() - 1]));
            }
        }
        if forall|k: int| 0 <= k < ds.len() ==> !is_pend(kv, inr, outm, #[trigger] ds[k]) {
            assert forall|k: int| 0 <= k < ds.drop_last().len() implies !is_pend(kv, inr, outm, #[trigger] ds.drop_last()[k]) by {
                assert(ds.drop_last()[k] == ds[k]);
            }
            assert(!is_pend(kv, inr, outm, ds[ds.len() - 1]));
        }
    }
}

/// Counts the entries of `names` that equal `name`.
fn count_name(names: &Vec<String>, name: &str) -> (c: usize)
    ensures
        c == occ(names_view(names@), name@),
{
    let mut c: usize = 0;
    let mut i: usize = 0;
    while i < names.len()
        invariant
            i <= names@.len(),
            c <= i,
            c == occ(names_view(names@).take(i as int), name@),
        decreases names@.len() - i,
    {
        proof {
            assert(names_view(names@).take(i + 1).drop_last() =~= names_view(names@).take(i as int));
        }
        if crate::text::same_text(names[i].as_str(), name) {
            c = c + 1;
        }
        i = i + 1;
    }
    proof {
        assert(names_view(names@).take(names@.len() as int) =~= names_view(names@));
    }
    c
}

proof fn lemma_occ_concat(a: Seq<Seq<char>>, b: Seq<Seq<char>>, name: Seq<char>)
    ensures
        occ(a + b, name) == occ(a, name) + occ(b, name),
    decreases b.len(),
{
    if b.len() > 0 {
        lemma_occ_concat(a, b.drop_last(), name);
        assert((a + b).drop_last() =~= a + b.drop_last());
    } else {
        assert(a + b =~= a);
    }
}

proof fn lemma_pend_concat(kv: Seq<Seq<char>>, inr: Seq<bool>, outm: Seq<bool>, a: Seq<Seq<char>>, b: Seq<Seq<char>>)
    ensures
        pend(kv, inr, outm, a + b) == pend(kv, inr, outm, a) + pend(kv, inr, outm, b),
    decreases b.len(),
{
    if b.len() > 0 {
        lemma_pend_concat(kv, inr, outm, a, b.drop_last());
        assert((a + b).drop_last() =~= a + b.drop_last());
    } else {
        assert(a + b =~= a);
    }
}

/// Counts the entries of `names` that name a considered target not yet placed.
fn count_pending(keys: &Vec<String>, inr: &Vec<bool>, outm: &Vec<bool>, names: &Vec<String>) -> (c: usize)
    requires
        inr@.len() == keys@.len(),
        outm@.len() == keys@.len(),
        names_view(keys@).no_duplicates(),
    ensures
        c == pend(names_view(keys@), inr@, outm@, names_view(names@)),
{
    let ghost kv = names_view(keys@);
    let mut c: usize = 0;
    let mut i: usize = 0;
    while i < names.len()
        invariant
            kv == names_view(keys@),
            kv.no_duplicates(),
            inr@.len() == keys@.len(),
            outm@.len() == keys@.len(),
            i <= names@.len(),
            c <= i,
            c == pend(kv, inr@, outm@, names_view(names@).take(i as int)),
        decreases names@.len() - i,
    {
        let ghost cur = names@[i as int]@;
        proof {
            assert(names_view(names@).take(i + 1).drop_last() =~= names_view(names@).take(i as int));
            assert(names_view(names@).take(i + 1).last() == cur);
            assert(pend(kv, inr@, outm@, names_view(names@).take(i + 1)) == pend(kv, inr@, outm@, names_view(names@).take(i as int)) + if is_pend(kv, inr@, outm@, cur) { 1nat } else { 0nat });
        }
        match find_key(keys, names[i].as_str()) {
            Some(j) => {
                if inr[j] && !outm[j] {
                    proof {
                        assert(kv[j as int] == names@[i as int]@);
                        assert(is_pend(kv, inr@, outm@, names@[i as int]@));
                        assert(names_view(names@).take(i + 1).last() == names@[i as int]@);
                    }
                    c = c + 1;
                } else {
                    proof {
                        if is_pend(kv, inr@, outm@, names@[i as int]@) {
                            let jj = choose|jj: int| 0 <= jj < kv.len() && kv[jj] == names@[i as int]@ && #[trigger] inr@[jj] && !outm@[jj];
                            assert(kv[jj] == kv[j as int]);
                        }
                        assert(names_view(names@).take(i + 1).last() == names@[i as int]@);
                    }
                }
            },
            None => {
                proof {
                    if is_pend(kv, inr@, outm@, names@[i as int]@) {
                        let jj = choose|jj: int| 0 <= jj < kv.len() && kv[jj] == names@[i as int]@ && #[trigger] inr@[jj] && !outm@[jj];
                        assert(kv.contains(names@[i as int]@));
                    }
                    assert(names_view(names@).take(i + 1).last() == names@[i as int]@);
                }
            },
        }
        i = i + 1;
    }
    proof {
        assert(names_view(names@).take(names@.len() as int) =~= names_view(names@));
    }
    c
}


pub open spec fn stuck(inr: Seq<bool>, outm: Seq<bool>, j: int) -> bool {
    0 <= j < inr.len() && inr[j] && !outm[j]
}

proof fn lemma_no_stuck_below(
    kv: Seq<Seq<char>>,
    dv: Seq<Seq<Seq<char>>>,
    ord: Seq<int>,
    inr: Seq<bool>,
    outm: Seq<bool>,
    b: int,
)
    requires
        inr.len() == kv.len(),
        outm.len() == kv.len(),
        deps_before(kv, dv, ord),
        0 <= b <= ord.len(),
        forall|j: int|
            #[trigger] stuck(inr, outm, j) ==> exists|jj: int|
                #[trigger] edge(kv, dv, j, jj) && stuck(inr, outm, jj),
    ensures
        forall|p: int| 0 <= p < b ==> !stuck(inr, outm, #[trigger] ord[p]),
    decreases b,
{
    if b > 0 {
        lemma_no_stuck_below(kv, dv, ord, inr, outm, b - 1);
        let p = b - 1;
        if stuck(inr, outm, ord[p]) {
            let jj = choose|jj: int| #[trigger] edge(kv, dv, ord[p], jj) && stuck(inr, outm, jj);
            assert(ord.take(p).contains(jj));
            let q = choose|q: int| 0 <= q < p && ord.take(p)[q] == jj;
            assert(ord[q] == jj);
        }
    }
}

proof fn lemma_no_stuck(
    kv: Seq<Seq<char>>,
    dv: Seq<Seq<Seq<char>>>,
    inr: Seq<bool>,
    outm: Seq<bool>,
)
    requires
        inr.len() == kv.len(),
        outm.len() == kv.len(),
        acyclic(kv, dv),
        forall|j: int|
            #[trigger] stuck(inr, outm, j) ==> exists|jj: int|
                #[trigger] edge(kv, dv, j, jj) && stuck(inr, outm, jj),
    ensures
        forall|j: int| 0 <= j < kv.len() ==> !stuck(inr, outm, j),
{
    let ord = choose|ord: Seq<int>|
        ord.no_duplicates() && (forall|i: int| 0 <= i < kv.len() ==> #[trigger] ord.contains(i))
            && deps_before(kv, dv, ord);
    lemma_no_stuck_below(kv, dv, ord, inr, outm, ord.len() as int);
    assert forall|j: int| 0 <= j < kv.len() implies !stuck(inr, outm, j) by {
        assert(ord.contains(j));
        let p = choose|p: int| 0 <= p < ord.len() && ord[p] == j;
    }
}

/// The two wait counts of target `t` are its pending `depends_on` and
/// `check_deps` entries.
pub open spec fn deg_is(da: int, db: int, kv: Seq<Seq<char>>, inr: Seq<bool>, outm: Seq<bool>, t: Target) -> bool {
    da == pend(kv, inr, outm, names_view(t.depends_on@)) && db == pend(kv, inr, outm, names_view(t.check_deps@))
}

/// No target placed yet.
pub open spec fn none_placed(n: nat) -> Seq<bool> {
    Seq::new(n, |i: int| false)
}

/// For each considered target, how many of its dependencies (those for its
/// check when `checks`, the others otherwise) are considered targets, before
/// any is placed; zero for the other targets.
pub open spec fn start_deg(kv: Seq<Seq<char>>, ts: Seq<Target>, inr: Seq<bool>, checks: bool) -> Seq<usize> {
    Seq::new(
        kv.len(),
        |j: int|
            if inr[j] {
                pend(
                    kv,
                    inr,
                    none_placed(kv.len()),
                    names_view(if checks { ts[j].check_deps@ } else { ts[j].depends_on@ }),
                ) as usize
            } else {
                0usize
            },
    )
}

/// The state of Kahn's ordering: the stack of freed targets (top last), the
/// targets placed so far, and the pending counts of each target.
pub struct KahnState {
    pub stack: Seq<usize>,
    pub out: Seq<usize>,
    pub da: Seq<usize>,
    pub db: Seq<usize>,
}

/// The targets of `rs[i..]` that wait on nothing, pushed from the last to
/// the first, so that the first by position is on top.
pub open spec fn kahn_ready(rs: Seq<usize>, da: Seq<usize>, db: Seq<usize>, i: int) -> Seq<usize>
    decreases rs.len() - i,
{
    if i < 0 || i >= rs.len() {
        Seq::empty()
    } else {
        let s = kahn_ready(rs, da, db, i + 1);
        if da[rs[i] as int] == 0 && db[rs[i] as int] == 0 {
            s.push(rs[i])
        } else {
            s
        }
    }
}

/// After `x` is placed: the first `q` targets of `rs` that wait on `x` no
/// longer do, and each that then waits on nothing is pushed, in the order of
/// `rs`.
pub open spec fn kahn_release(
    kv: Seq<Seq<char>>,
    ts: Seq<Target>,
    rs: Seq<usize>,
    x: usize,
    s: KahnState,
    q: nat,
) -> KahnState
    decreases q,
{
    if q == 0 || q > rs.len() {
        s
    } else {
        let p = kahn_release(kv, ts, rs, x, s, (q - 1) as nat);
        let k = rs[q - 1];
        let ca = occ(names_view(ts[k as int].depends_on@), kv[x as int]);
        let cb = occ(names_view(ts[k as int].check_deps@), kv[x as int]);
        if ca > 0 || cb > 0 {
            let na = (p.da[k as int] - ca) as usize;
            let nb = (p.db[k as int] - cb) as usize;
            KahnState {
                stack: if na == 0 && nb == 0 {
                    p.stack.push(k)
                } else {
                    p.stack
                },
                out: p.out,
                da: p.da.update(k as int, na),
                db: p.db.update(k as int, nb),
            }
        } else {
            p
        }
    }
}

/// One step: the target on top of the stack is placed, and what waited on
/// it is released.
pub open spec fn kahn_step(kv: Seq<Seq<char>>, ts: Seq<Target>, rs: Seq<usize>, s: KahnState) -> KahnState {
    let x = s.stack.last();
    kahn_release(kv, ts, rs, x, KahnState { stack: s.stack.drop_last(), out: s.out.push(x), da: s.da, db: s.db }, rs.len())
}

/// Steps until the stack is empty, at most `fuel` of them.
pub open spec fn kahn_run(kv: Seq<Seq<char>>, ts: Seq<Target>, rs: Seq<usize>, s: KahnState, fuel: nat) -> KahnState
    decreases fuel,
{
    if fuel == 0 || s.stack.len() == 0 {
        s
    } else {
        kahn_run(kv, ts, rs, kahn_step(kv, ts, rs, s), (fuel - 1) as nat)
    }
}

pub open spec fn kahn_start(kv: Seq<Seq<char>>, ts: Seq<Target>, rs: Seq<usize>, inr: Seq<bool>) -> KahnState {
    let da = start_deg(kv, ts, inr, false);
    let db = start_deg(kv, ts, inr, true);
    KahnState { stack: kahn_ready(rs, da, db, 0), out: Seq::empty(), da: da, db: db }
}

/// The order in which Kahn's algorithm places the considered targets `rs`:
/// targets that wait on nothing go on a stack, the first of `rs` on top;
/// the top is placed next, and the targets it frees are pushed in the order
/// of `rs`.
pub open spec fn kahn_order(kv: Seq<Seq<char>>, ts: Seq<Target>, rs: Seq<usize>, inr: Seq<bool>) -> Seq<usize> {
    kahn_run(kv, ts, rs, kahn_start(kv, ts, rs, inr), rs.len()).out
}

/// Kahn's ordering of the considered targets (`rs`, by name): targets whose
/// dependencies are all placed wait on a stack; the last one freed goes next.
fn kahn(keys: &Vec<String>, targets: &Vec<Target>, rs: &Vec<usize>, inr: &Vec<bool>) -> (out: Vec<usize>)
    requires
        graph_ok(keys@, targets@),
        inr@.len() == keys@.len(),
        path_ints(rs@).no_duplicates(),
        forall|k: int| 0 <= k < rs@.len() ==> #[trigger] rs@[k] < keys@.len(),
        forall|j: int| 0 <= j < keys@.len() ==> (#[trigger] inr@[j] <==> rs@.contains(j as usize)),
    ensures
        out@.no_duplicates(),
        forall|k: int| 0 <= k < out@.len() ==> #[trigger] out@[k] < keys@.len() && inr@[out@[k] as int],
        forall|a: int, j: int|
            0 <= a < out@.len() && #[trigger] edge(names_view(keys@), deps_of(targets@), out@[a] as int, j) && inr@[j]
                ==> out@.take(a).contains(j as usize),
        acyclic(names_view(keys@), deps_of(targets@)) ==> forall|j: int|
            0 <= j < keys@.len() && inr@[j] ==> out@.contains(j as usize),
        out@ == kahn_order(names_view(keys@), targets@, rs@, inr@),
{
    let ghost kv = names_view(keys@);
    let ghost dv = deps_of(targets@);
    let n = keys.len();
    let mut outm: Vec<bool> = Vec::new();
    let mut deg_a: Vec<usize> = Vec::new();
    let mut deg_b: Vec<usize> = Vec::new();
    let mut i: usize = 0;
    while i < n
        invariant
            i <= n,
            outm@.len() == i,
            deg_a@.len() == i,
            deg_b@.len() == i,
            forall|k: int| 0 <= k < i ==> !outm@[k],
            forall|k: int| 0 <= k < i ==> deg_a@[k] == 0 && deg_b@[k] == 0,
        decreases n - i,
    {
        outm.push(false);
        deg_a.push(0);
        deg_b.push(0);
        i = i + 1;
    }
    let mut idx: usize = 0;
    while idx < rs.len()
        invariant
            graph_ok(keys@, targets@),
            kv == names_view(keys@),
            n == keys@.len(),
            idx <= rs@.len(),
            outm@.len() == n,
            deg_a@.len() == n,
            deg_b@.len() == n,
            forall|k: int| 0 <= k < n ==> !outm@[k],
            forall|k: int| 0 <= k < rs@.len() ==> #[trigger] rs@[k] < n,
            path_ints(rs@).no_duplicates(),
            inr@.len() == n,
            forall|q: int|
                0 <= q < idx ==> deg_is(deg_a@[#[trigger] rs@[q] as int] as int, deg_b@[rs@[q] as int] as int, kv, inr@, outm@, targets@[rs@[q] as int]),
            forall|j: int| 0 <= j < n ==> (#[trigger] inr@[j] <==> rs@.contains(j as usize)),
            forall|j: int| 0 <= j < n && !inr@[j] ==> deg_a@[j] == 0 && deg_b@[j] == 0,
        decreases rs@.len() - idx,
    {
        let k = rs[idx];
        proof {
            assert(rs@.contains(k));
        }
        let ca = count_pending(keys, inr, &outm, &targets[k].depends_on);
        let cb = count_pending(keys, inr, &outm, &targets[k].check_deps);
        deg_a.set(k, ca);
        deg_b.set(k, cb);
        proof {
            assert forall|q: int|
                0 <= q < idx + 1 implies deg_is(deg_a@[#[trigger] rs@[q] as int] as int, deg_b@[rs@[q] as int] as int, kv, inr@, outm@, targets@[rs@[q] as int]) by {
                if q < idx {
                    assert(path_ints(rs@)[q] != path_ints(rs@)[idx as int]);
                }
            }
        }
        idx = idx + 1;
    }
    let ghost da_start = start_deg(kv, targets@, inr@, false);
    let ghost db_start = start_deg(kv, targets@, inr@, true);
    proof {
        assert(outm@ =~= none_placed(n as nat));
        assert forall|j: int| 0 <= j < n implies deg_a@[j] == da_start[j] && deg_b@[j] == db_start[j] by {
            if inr@[j] {
                let q = choose|q: int| 0 <= q < rs@.len() && rs@[q] == j as usize;
                assert(deg_is(deg_a@[rs@[q] as int] as int, deg_b@[rs@[q] as int] as int, kv, inr@, outm@, targets@[rs@[q] as int]));
            }
        }
        assert(deg_a@ =~= da_start);
        assert(deg_b@ =~= db_start);
    }
    // the stack of freed targets, the first by name on top
    let mut stack: Vec<usize> = Vec::new();
    let mut idx: usize = rs.len();
    while idx > 0
        invariant
            n == keys@.len(),
            idx <= rs@.len(),
            outm@.len() == n,
            deg_a@.len() == n,
            deg_b@.len() == n,
            forall|k: int| 0 <= k < rs@.len() ==> #[trigger] rs@[k] < n,
            path_ints(rs@).no_duplicates(),
            stack@.no_duplicates(),
            forall|k: int| 0 <= k < stack@.len() ==> exists|q: int| idx <= q < rs@.len() && #[trigger] stack@[k] == rs@[q],
            forall|k: int| 0 <= k < stack@.len() ==> #[trigger] stack@[k] < n && deg_a@[stack@[k] as int] == 0 && deg_b@[stack@[k] as int] == 0,
            forall|q: int| idx <= q < rs@.len() && deg_a@[#[trigger] rs@[q] as int] == 0 && deg_b@[rs@[q] as int] == 0 ==> stack@.contains(rs@[q]),
            stack@ == kahn_ready(rs@, deg_a@, deg_b@, idx as int),
        decreases idx,
    {
        let k = rs[idx - 1];
        if deg_a[k] == 0 && deg_b[k] == 0 {
            let ghost before = stack@;
            proof {
                if before.contains(k) {
                    let kk = choose|kk: int| 0 <= kk < before.len() && before[kk] == k;
                    let q = choose|q: int| idx <= q < rs@.len() && #[trigger] before[kk] == rs@[q];
                    assert(path_ints(rs@)[q] != path_ints(rs@)[idx - 1]);
                }
            }
            stack.push(k);
            proof {
                assert forall|kk: int| 0 <= kk < stack@.len() implies exists|q: int| idx - 1 <= q < rs@.len() && #[trigger] stack@[kk] == rs@[q] by {
                    if kk < before.len() {
                        let q = choose|q: int| idx <= q < rs@.len() && #[trigger] before[kk] == rs@[q];
                        assert(stack@[kk] == rs@[q]);
                    } else {
                        assert(stack@[kk] == rs@[idx - 1]);
                    }
                }
                assert forall|q: int| idx - 1 <= q < rs@.len() && deg_a@[#[trigger] rs@[q] as int] == 0 && deg_b@[rs@[q] as int] == 0 implies stack@.contains(rs@[q]) by {
                    if q >= idx {
                        let kk = choose|kk: int| 0 <= kk < before.len() && before[kk] == rs@[q];
                        assert(stack@[kk] == rs@[q]);
                    } else {
                        assert(stack@[stack@.len() - 1] == rs@[q]);
                    }
                }
            }
        }
        proof {
            assert(stack@ == kahn_ready(rs@, deg_a@, deg_b@, idx - 1));
        }
        idx = idx - 1;
    }
    proof {
        assert forall|k: int| 0 <= k < stack@.len() implies inr@[#[trigger] stack@[k] as int] by {
            let q = choose|q: int| 0 <= q < rs@.len() && #[trigger] stack@[k] == rs@[q];
            assert(rs@.contains(stack@[k]));
        }
        assert forall|j: int| 0 <= j < n && inr@[j] && !outm@[j] && deg_a@[j] == 0 && deg_b@[j] == 0 implies stack@.contains(j as usize) by {
            assert(rs@.contains(j as usize));
            let q = choose|q: int| 0 <= q < rs@.len() && rs@[q] == j as usize;
            assert(deg_a@[rs@[q] as int] == 0);
        }
    }
    let mut out: Vec<usize> = Vec::new();
    let ghost big = rs@.len();
    let ghost start = kahn_start(kv, targets@, rs@, inr@);
    proof {
        assert(KahnState { stack: stack@, out: out@, da: deg_a@, db: deg_b@ } == start);
    }
    while stack.len() > 0
        invariant
            big == rs@.len(),
            kahn_run(kv, targets@, rs@, start, big as nat) == kahn_run(
                kv,
                targets@,
                rs@,
                (KahnState { stack: stack@, out: out@, da: deg_a@, db: deg_b@ }),
                (big - out@.len()) as nat,
            ),
            graph_ok(keys@, targets@),
            kv == names_view(keys@),
            dv == deps_of(targets@),
            n == keys@.len(),
            inr@.len() == n,
            outm@.len() == n,
            deg_a@.len() == n,
            deg_b@.len() == n,
            path_ints(rs@).no_duplicates(),
            forall|k: int| 0 <= k < rs@.len() ==> #[trigger] rs@[k] < n,
            forall|j: int| 0 <= j < n ==> (#[trigger] inr@[j] <==> rs@.contains(j as usize)),
            out@.no_duplicates(),
            forall|k: int| 0 <= k < out@.len() ==> #[trigger] out@[k] < n && inr@[out@[k] as int],
            forall|j: int| 0 <= j < n ==> (#[trigger] outm@[j] <==> out@.contains(j as usize)),
            forall|j: int|
                0 <= j < n && inr@[j] ==> deg_is(deg_a@[j] as int, deg_b@[j] as int, kv, inr@, outm@, targets@[j]),
            forall|j: int| 0 <= j < n && #[trigger] outm@[j] ==> deg_a@[j] == 0 && deg_b@[j] == 0,
            stack@.no_duplicates(),
            forall|k: int|
                0 <= k < stack@.len() ==> #[trigger] stack@[k] < n && inr@[stack@[k] as int] && !outm@[stack@[k] as int]
                    && deg_a@[stack@[k] as int] == 0 && deg_b@[stack@[k] as int] == 0,
            forall|j: int|
                0 <= j < n && inr@[j] && !outm@[j] && deg_a@[j] == 0 && deg_b@[j] == 0 ==> stack@.contains(j as usize),
            forall|a: int, j: int|
                0 <= a < out@.len() && #[trigger] edge(kv, dv, out@[a] as int, j) && inr@[j] ==> out@.take(a).contains(j as usize),
            out@.len() <= rs@.len(),
        decreases rs@.len() - out@.len(),
    {
        let ghost st0 = stack@;
        let ghost o0 = outm@;
        let ghost out0 = out@;
        let ghost da0 = deg_a@;
        let ghost db0 = deg_b@;
        let x = stack.pop().unwrap();
        proof {
            assert(st0 =~= stack@.push(x));
            assert(st0[st0.len() - 1] == x);
            assert(!out0.contains(x));
            // placing x leaves room: out is a duplicate-free part of rs
            assert(out0.push(x).to_set().subset_of(rs@.to_set())) by {
                assert forall|v: usize| out0.push(x).to_set().contains(v) implies rs@.to_set().contains(v) by {
                    let q = choose|q: int| 0 <= q < out0.push(x).len() && out0.push(x)[q] == v;
                    if q < out0.len() {
                        assert(out0[q] == v);
                    }
                    assert(inr@[v as int]);
                }
            }
            assert(rs@.no_duplicates()) by {
                assert forall|a: int, b: int| 0 <= a < b < rs@.len() implies rs@[a] != rs@[b] by {
                    assert(path_ints(rs@)[a] != path_ints(rs@)[b]);
                }
            }
            assert(out0.push(x).no_duplicates());
            out0.push(x).unique_seq_to_set();
            rs@.unique_seq_to_set();
            vstd::set_lib::lemma_len_subset(out0.push(x).to_set(), rs@.to_set());
            // x has no pending dependency
            let tx = targets@[x as int];
            lemma_pend_concat(kv, inr@, o0, names_view(tx.depends_on@), names_view(tx.check_deps@));
            lemma_pend_zero(kv, inr@, o0, tx.all_deps());
        }
        out.push(x);
        outm.set(x, true);
        proof {
            let tx = targets@[x as int];
            assert forall|a: int, j: int|
                0 <= a < out@.len() && #[trigger] edge(kv, dv, out@[a] as int, j) && inr@[j] implies out@.take(a).contains(j as usize) by {
                if a < out0.len() {
                    assert(out@.take(a) =~= out0.take(a));
                    assert(out0[a] == out@[a]);
                } else {
                    assert(dv[x as int] == tx.all_deps());
                    let k = choose|k: int| 0 <= k < tx.all_deps().len() && tx.all_deps()[k] == kv[j];
                    assert(!is_pend(kv, inr@, o0, tx.all_deps()[k]));
                    assert(o0[j]);
                    assert(out@.take(a) =~= out0);
                }
            }
            assert forall|j: int| 0 <= j < n implies (#[trigger] outm@[j] <==> out@.contains(j as usize)) by {
                if j != x {
                    if out@.contains(j as usize) {
                        let q = choose|q: int| 0 <= q < out@.len() && out@[q] == j as usize;
                        assert(q < out0.len());
                        assert(out0[q] == j as usize);
                    }
                    if out0.contains(j as usize) {
                        let q = choose|q: int| 0 <= q < out0.len() && out0[q] == j as usize;
                        assert(out@[q] == j as usize);
                    }
                } else {
                    assert(out@[out@.len() - 1] == x);
                }
            }
        }
        let mut idx: usize = 0;
        while idx < rs.len()
            invariant
                graph_ok(keys@, targets@),
                kv == names_view(keys@),
                dv == deps_of(targets@),
                n == keys@.len(),
                x < n,
                inr@.len() == n,
                inr@[x as int],
                !o0[x as int],
                o0.len() == n,
                outm@ == o0.update(x as int, true),
                deg_a@.len() == n,
                deg_b@.len() == n,
                da0.len() == n,
                db0.len() == n,
                idx <= rs@.len(),
                path_ints(rs@).no_duplicates(),
                forall|k: int| 0 <= k < rs@.len() ==> #[trigger] rs@[k] < n,
                forall|j: int| 0 <= j < n ==> (#[trigger] inr@[j] <==> rs@.contains(j as usize)),
                forall|j: int|
                    0 <= j < n && inr@[j] ==> deg_is(da0[j] as int, db0[j] as int, kv, inr@, o0, targets@[j]),
                forall|j: int| 0 <= j < n && #[trigger] o0[j] ==> da0[j] == 0 && db0[j] == 0,
                da0[x as int] == 0,
                db0[x as int] == 0,
                forall|q: int|
                    0 <= q < idx ==> deg_is(deg_a@[#[trigger] rs@[q] as int] as int, deg_b@[rs@[q] as int] as int, kv, inr@, outm@, targets@[rs@[q] as int]),
                forall|q: int|
                    idx <= q < rs@.len() ==> deg_a@[#[trigger] rs@[q] as int] == da0[rs@[q] as int] && deg_b@[rs@[q] as int] == db0[rs@[q] as int],
                forall|j: int| 0 <= j < n && !inr@[j] ==> deg_a@[j] == da0[j] && deg_b@[j] == db0[j],
                stack@.no_duplicates(),
                forall|k: int|
                    0 <= k < stack@.len() ==> #[trigger] stack@[k] < n && inr@[stack@[k] as int] && !outm@[stack@[k] as int]
                        && deg_a@[stack@[k] as int] == 0 && deg_b@[stack@[k] as int] == 0,
                forall|j: int|
                    0 <= j < n && inr@[j] && !outm@[j] && deg_a@[j] == 0 && deg_b@[j] == 0 ==> stack@.contains(j as usize),
                st0.len() > 0,
                x == st0.last(),
                out@ == out0.push(x),
                (KahnState { stack: stack@, out: out@, da: deg_a@, db: deg_b@ }) == kahn_release(
                    kv,
                    targets@,
                    rs@,
                    x,
                    (KahnState { stack: st0.drop_last(), out: out0.push(x), da: da0, db: db0 }),
                    idx as nat,
                ),
            decreases rs@.len() - idx,
        {
            let k = rs[idx];
            let ghost tk = targets@[k as int];
            let ca = count_name(&targets[k].depends_on, keys[x].as_str());
            let cb = count_name(&targets[k].check_deps, keys[x].as_str());
            proof {
                assert(rs@.contains(k));
                assert(inr@[k as int]);
                lemma_pend_place(kv, inr@, o0, x as int, names_view(tk.depends_on@));
                lemma_pend_place(kv, inr@, o0, x as int, names_view(tk.check_deps@));
                assert(keys@[x as int]@ == kv[x as int]);
                assert(deg_a@[k as int] == da0[k as int]);
                assert(ca == occ(names_view(targets@[k as int].depends_on@), kv[x as int]));
                assert(cb == occ(names_view(targets@[k as int].check_deps@), kv[x as int]));
            }
            let ghost cur = KahnState { stack: stack@, out: out@, da: deg_a@, db: deg_b@ };
            if ca > 0 || cb > 0 {
                proof {
                    // k still waited on x, so it was not on the stack
                    if stack@.contains(k) {
                        let kk = choose|kk: int| 0 <= kk < stack@.len() && stack@[kk] == k;
                        assert(deg_a@[stack@[kk] as int] == 0);
                    }
                    if k == x {
                        assert(da0[x as int] == 0);
                    }
                }
                let na = deg_a[k] - ca;
                let nb = deg_b[k] - cb;
                deg_a.set(k, na);
                deg_b.set(k, nb);
                if na == 0 && nb == 0 {
                    let ghost before = stack@;
                    stack.push(k);
                    proof {
                        assert forall|kk: int|
                            0 <= kk < stack@.len() implies #[trigger] stack@[kk] < n && inr@[stack@[kk] as int] && !outm@[stack@[kk] as int]
                                && deg_a@[stack@[kk] as int] == 0 && deg_b@[stack@[kk] as int] == 0 by {
                            if kk < before.len() {
                                assert(stack@[kk] == before[kk]);
                            }
                        }
                        assert forall|j: int|
                            0 <= j < n && inr@[j] && !outm@[j] && deg_a@[j] == 0 && deg_b@[j] == 0 implies stack@.contains(j as usize) by {
                            if j != k {
                                let kk = choose|kk: int| 0 <= kk < before.len() && before[kk] == j as usize;
                                assert(stack@[kk] == j as usize);
                            } else {
                                assert(stack@[stack@.len() - 1] == k);
                            }
                        }
                    }
                } else {
                    proof {
                        assert forall|kk: int|
                            0 <= kk < stack@.len() implies #[trigger] stack@[kk] < n && inr@[stack@[kk] as int] && !outm@[stack@[kk] as int]
                                && deg_a@[stack@[kk] as int] == 0 && deg_b@[stack@[kk] as int] == 0 by {
                            assert(stack@[kk] != k);
                        }
                    }
                }
            }
            proof {
                let popped = KahnState { stack: st0.drop_last(), out: out0.push(x), da: da0, db: db0 };
                assert(cur == kahn_release(kv, targets@, rs@, x, popped, idx as nat));
                assert(KahnState { stack: stack@, out: out@, da: deg_a@, db: deg_b@ } == kahn_release(
                    kv,
                    targets@,
                    rs@,
                    x,
                    popped,
                    (idx + 1) as nat,
                ));
                assert forall|q: int|
                    0 <= q < idx + 1 implies deg_is(deg_a@[#[trigger] rs@[q] as int] as int, deg_b@[rs@[q] as int] as int, kv, inr@, outm@, targets@[rs@[q] as int]) by {
                    if q < idx {
                        assert(path_ints(rs@)[q] != path_ints(rs@)[idx as int]);
                    }
                }
                assert forall|q: int|
                    idx + 1 <= q < rs@.len() implies deg_a@[#[trigger] rs@[q] as int] == da0[rs@[q] as int] && deg_b@[rs@[q] as int] == db0[rs@[q] as int] by {
                    assert(path_ints(rs@)[q] != path_ints(rs@)[idx as int]);
                }
            }
            idx = idx + 1;
        }
        proof {
            assert forall|j: int|
                0 <= j < n && inr@[j] implies deg_is(deg_a@[j] as int, deg_b@[j] as int, kv, inr@, outm@, targets@[j]) by {
                assert(rs@.contains(j as usize));
                let q = choose|q: int| 0 <= q < rs@.len() && rs@[q] == j as usize;
                assert(deg_a@[rs@[q] as int] == deg_a@[j]);
            }
            assert forall|j: int| 0 <= j < n && #[trigger] outm@[j] implies deg_a@[j] == 0 && deg_b@[j] == 0 by {
                assert(inr@[j]) by {
                    assert(out@.contains(j as usize));
                    let q = choose|q: int| 0 <= q < out@.len() && out@[q] == j as usize;
                }
                let t = targets@[j];
                if j != x {
                    assert(o0[j]);
                }
                lemma_pend_place(kv, inr@, o0, x as int, names_view(t.depends_on@));
                lemma_pend_place(kv, inr@, o0, x as int, names_view(t.check_deps@));
            }
            let cur0 = KahnState { stack: st0, out: out0, da: da0, db: db0 };
            assert(out0.len() < big);
            assert(kahn_step(kv, targets@, rs@, cur0) == KahnState { stack: stack@, out: out@, da: deg_a@, db: deg_b@ });
            assert(kahn_run(kv, targets@, rs@, cur0, (big - out0.len()) as nat) == kahn_run(
                kv,
                targets@,
                rs@,
                kahn_step(kv, targets@, rs@, cur0),
                (big - out0.len() - 1) as nat,
            ));
        }
    }
    proof {
        assert(kahn_run(kv, targets@, rs@, KahnState { stack: stack@, out: out@, da: deg_a@, db: deg_b@ }, (big - out@.len()) as nat)
            == KahnState { stack: stack@, out: out@, da: deg_a@, db: deg_b@ });
        if acyclic(kv, dv) {
            assert forall|j: int| #[trigger] stuck(inr@, outm@, j) implies exists|jj: int|
                #[trigger] edge(kv, dv, j, jj) && stuck(inr@, outm@, jj) by {
                let t = targets@[j];
                assert(deg_a@[j] != 0 || deg_b@[j] != 0);
                lemma_pend_concat(kv, inr@, outm@, names_view(t.depends_on@), names_view(t.check_deps@));
                lemma_pend_zero(kv, inr@, outm@, t.all_deps());
                let k = choose|k: int| 0 <= k < t.all_deps().len() && is_pend(kv, inr@, outm@, #[trigger] t.all_deps()[k]);
                let d = t.all_deps()[k];
                let jj = choose|jj: int| 0 <= jj < kv.len() && kv[jj] == d && #[trigger] inr@[jj] && !outm@[jj];
                assert(dv[j] == t.all_deps());
                assert(edge(kv, dv, j, jj));
            }
            lemma_no_stuck(kv, dv, inr@, outm@);
            assert forall|j: int| 0 <= j < keys@.len() && inr@[j] implies out@.contains(j as usize) by {
                assert(!stuck(inr@, outm@, j));
            }
        }
    }
    out
}


/// Which targets a run for `req` considers.
pub open spec fn relevance(kv: Seq<Seq<char>>, dv: Seq<Seq<Seq<char>>>, req: Seq<Seq<char>>) -> Seq<bool> {
    Seq::new(kv.len(), |j: int| relevant(kv, dv, req, j))
}

/// `rs` lists exactly the targets flagged in `inr`, each once, by name.
pub open spec fn listed_by_name(kv: Seq<Seq<char>>, rs: Seq<usize>, inr: Seq<bool>) -> bool {
    &&& inr.len() == kv.len()
    &&& kv.len() <= usize::MAX
    &&& sorted_by_name(kv, rs)
    &&& rs.no_duplicates()
    &&& forall|k: int| 0 <= k < rs.len() ==> #[trigger] rs[k] < kv.len()
    &&& forall|j: int| 0 <= j < kv.len() ==> (#[trigger] inr[j] <==> rs.contains(j as usize))
}

/// There is one way to list a set of targets by name.
pub proof fn lemma_listed_unique(kv: Seq<Seq<char>>, rs1: Seq<usize>, rs2: Seq<usize>, inr: Seq<bool>)
    requires
        listed_by_name(kv, rs1, inr),
        listed_by_name(kv, rs2, inr),
    ensures
        rs1 == rs2,
    decreases rs1.len(),
{
    if rs1.len() == 0 {
        if rs2.len() > 0 {
            let j = rs2[0];
            assert(rs2.contains(j));
            assert(inr[j as int]);
            assert(rs1.contains(j));
        }
        assert(rs1 =~= rs2);
    } else {
        let m1 = rs1.last();
        assert(rs1.contains(m1));
        assert(inr[m1 as int]);
        assert(rs2.contains(m1));
        let m2 = rs2.last();
        assert(rs2.contains(m2));
        assert(inr[m2 as int]);
        assert(rs1.contains(m2));
        if m1 != m2 {
            let p = choose|p: int| 0 <= p < rs2.len() && rs2[p] == m1;
            let q = choose|q: int| 0 <= q < rs1.len() && rs1[q] == m2;
            assert(lex_lt(kv[rs2[p] as int], kv[rs2[rs2.len() - 1] as int]));
            assert(lex_lt(kv[rs1[q] as int], kv[rs1[rs1.len() - 1] as int]));
            crate::text::lemma_lex_asym(kv[m1 as int], kv[m2 as int]);
        }
        let inr2 = inr.update(m1 as int, false);
        let a = rs1.drop_last();
        let b = rs2.drop_last();
        assert forall|j: int| 0 <= j < kv.len() implies (#[trigger] inr2[j] <==> a.contains(j as usize)) by {
            if j == m1 as int {
                if a.contains(j as usize) {
                    let k = choose|k: int| 0 <= k < a.len() && a[k] == j as usize;
                    assert(rs1[k] == rs1[rs1.len() - 1]);
                }
            } else {
                if rs1.contains(j as usize) {
                    let k = choose|k: int| 0 <= k < rs1.len() && rs1[k] == j as usize;
                    assert(k != rs1.len() - 1);
                    assert(a[k] == j as usize);
                }
                if a.contains(j as usize) {
                    let k = choose|k: int| 0 <= k < a.len() && a[k] == j as usize;
                    assert(rs1[k] == j as usize);
                }
            }
        }
        assert forall|j: int| 0 <= j < kv.len() implies (#[trigger] inr2[j] <==> b.contains(j as usize)) by {
            if j == m1 as int {
                if b.contains(j as usize) {
                    let k = choose|k: int| 0 <= k < b.len() && b[k] == j as usize;
                    assert(rs2[k] == rs2[rs2.len() - 1]);
                }
            } else {
                if rs2.contains(j as usize) {
                    let k = choose|k: int| 0 <= k < rs2.len() && rs2[k] == j as usize;
                    assert(k != rs2.len() - 1);
                    assert(b[k] == j as usize);
                }
                if b.contains(j as usize) {
                    let k = choose|k: int| 0 <= k < b.len() && b[k] == j as usize;
                    assert(rs2[k] == j as usize);
                }
            }
        }
        assert(sorted_by_name(kv, a)) by {
            assert forall|x: int, y: int| #![trigger a[x], a[y]] 0 <= x < y < a.len() implies lex_lt(
                kv[a[x] as int],
                kv[a[y] as int],
            ) by {
                assert(a[x] == rs1[x] && a[y] == rs1[y]);
            }
        }
        assert(sorted_by_name(kv, b)) by {
            assert forall|x: int, y: int| #![trigger b[x], b[y]] 0 <= x < y < b.len() implies lex_lt(
                kv[b[x] as int],
                kv[b[y] as int],
            ) by {
                assert(b[x] == rs2[x] && b[y] == rs2[y]);
            }
        }
        assert(listed_by_name(kv, a, inr2));
        assert(listed_by_name(kv, b, inr2));
        lemma_listed_unique(kv, a, b, inr2);
        assert(rs1 =~= a.push(m1));
        assert(rs2 =~= b.push(m2));
    }
}

/// `ord` is the order of a run for `req`: the considered targets, listed
/// by name, in the order Kahn's algorithm places them (see [`kahn_order`]).
pub open spec fn exact_order(kv: Seq<Seq<char>>, ts: Seq<Target>, req: Seq<Seq<char>>, ord: Seq<int>) -> bool {
    exists|rs: Seq<usize>|
        #[trigger] listed_by_name(kv, rs, relevance(kv, deps_of(ts), req)) && ord == path_ints(
            kahn_order(kv, ts, rs, relevance(kv, deps_of(ts), req)),
        )
}

/// The targets to consider for `names` (all when empty; otherwise those
/// named and their transitive dependencies), ordered so that every target
/// comes after its dependencies. Independent targets are taken by name, the
/// first name first, through a stack of freed targets.
pub fn topo_order(keys: &Vec<String>, targets: &Vec<Target>, names: &[String]) -> (out: Vec<usize>)
    requires
        graph_ok(keys@, targets@),
        forall|k: int| 0 <= k < names@.len() ==> names_view(keys@).contains(#[trigger] names@[k]@),
    ensures
        out@.no_duplicates(),
        forall|k: int|
            0 <= k < out@.len() ==> #[trigger] out@[k] < keys@.len() && relevant(
                names_view(keys@),
                deps_of(targets@),
                names_view(names@),
                out@[k] as int,
            ),
        forall|a: int, j: int|
            0 <= a < out@.len() && #[trigger] edge(names_view(keys@), deps_of(targets@), out@[a] as int, j)
                ==> out@.take(a).contains(j as usize),
        acyclic(names_view(keys@), deps_of(targets@)) ==> forall|j: int|
            #[trigger] relevant(names_view(keys@), deps_of(targets@), names_view(names@), j)
                ==> out@.contains(j as usize),
        exact_order(names_view(keys@), targets@, names_view(names@), path_ints(out@)),
{
    let ghost kv = names_view(keys@);
    let ghost dv = deps_of(targets@);
    let ghost req = names_view(names@);
    let n = keys.len();
    let mut inr: Vec<bool> = Vec::new();
    if names.len() == 0 {
        let mut i: usize = 0;
        while i < n
            invariant
                i <= n,
                inr@.len() == i,
                forall|k: int| 0 <= k < i ==> inr@[k],
            decreases n - i,
        {
            inr.push(true);
            i = i + 1;
        }
    } else {
        let mut starts: Vec<usize> = Vec::new();
        let mut i: usize = 0;
        while i < names.len()
            invariant
                n == keys@.len(),
                kv == names_view(keys@),
                i <= names@.len(),
                starts@.len() == i,
                forall|k: int| 0 <= k < names@.len() ==> kv.contains(#[trigger] names@[k]@),
                forall|k: int| 0 <= k < i ==> #[trigger] starts@[k] < n && kv[starts@[k] as int] == names@[k]@,
            decreases names@.len() - i,
        {
            match find_key(keys, names[i].as_str()) {
                Some(j) => {
                    starts.push(j);
                },
                None => {
                    proof {
                        assert(kv.contains(names@[i as int]@));
                    }
                    starts.push(0);
                },
            }
            i = i + 1;
        }
        proof {
            assert(starts@.map_values(|s: usize| names_view(keys@)[s as int]) =~= req);
        }
        inr = reach_mask(keys, targets, &starts);
    }
    proof {
        assert forall|j: int| 0 <= j < n implies (#[trigger] inr@[j] <==> relevant(kv, dv, req, j)) by {}
    }
    let rs = sorted_members(keys, &inr);
    let out = kahn(keys, targets, &rs, &inr);
    proof {
        assert(inr@ =~= relevance(kv, dv, req));
        assert(rs@.no_duplicates()) by {
            assert forall|a: int, b: int| 0 <= a < b < rs@.len() implies rs@[a] != rs@[b] by {
                assert(path_ints(rs@)[a] != path_ints(rs@)[b]);
            }
        }
        assert(listed_by_name(kv, rs@, relevance(kv, dv, req)));
        assert(exact_order(kv, targets@, req, path_ints(out@)));
        assert forall|a: int, j: int|
            0 <= a < out@.len() && #[trigger] edge(kv, dv, out@[a] as int, j) implies out@.take(a).contains(j as usize) by {
            let i = out@[a] as int;
            assert(inr@[i]);
            if req.len() > 0 {
                lemma_reach_step(kv, dv, req, i, j);
            }
            assert(inr@[j]);
        }
        assert forall|k: int| 0 <= k < out@.len() implies #[trigger] out@[k] < keys@.len() && relevant(kv, dv, req, out@[k] as int) by {
            assert(inr@[out@[k] as int]);
        }
        if acyclic(kv, dv) {
            assert forall|j: int| #[trigger] relevant(kv, dv, req, j) implies out@.contains(j as usize) by {
                assert(inr@[j]);
            }
        }
    }
    out
}


/// `ord` is an order a run may take for the requested names `req`: each
/// considered target once, every target after its dependencies, and, when
/// the graph has no cycle, all considered targets.
pub open spec fn run_order(kv: Seq<Seq<char>>, dv: Seq<Seq<Seq<char>>>, req: Seq<Seq<char>>, ord: Seq<int>) -> bool {
    &&& ord.no_duplicates()
    &&& forall|k: int| 0 <= k < ord.len() ==> relevant(kv, dv, req, #[trigger] ord[k])
    &&& deps_before(kv, dv, ord)
    &&& acyclic(kv, dv) ==> forall|j: int| #[trigger] relevant(kv, dv, req, j) ==> ord.contains(j)
}

pub proof fn lemma_run_order(kv: Seq<Seq<char>>, dv: Seq<Seq<Seq<char>>>, req: Seq<Seq<char>>, out: Seq<usize>)
    requires
        kv.len() <= usize::MAX,
        out.no_duplicates(),
        forall|k: int| 0 <= k < out.len() ==> #[trigger] out[k] < kv.len() && relevant(kv, dv, req, out[k] as int),
        forall|a: int, j: int| 0 <= a < out.len() && #[trigger] edge(kv, dv, out[a] as int, j) ==> out.take(a).contains(j as usize),
        acyclic(kv, dv) ==> forall|j: int| #[trigger] relevant(kv, dv, req, j) ==> out.contains(j as usize),
    ensures
        run_order(kv, dv, req, path_ints(out)),
{
    let o = path_ints(out);
    assert forall|a: int, b: int| 0 <= a < o.len() && 0 <= b < o.len() && a != b implies o[a] != o[b] by {
        assert(out[a] != out[b]);
    }
    assert forall|k: int| 0 <= k < o.len() implies relevant(kv, dv, req, #[trigger] o[k]) by {
        assert(out[k] < kv.len());
    }
    assert forall|a: int, j: int| 0 <= a < o.len() && #[trigger] edge(kv, dv, o[a], j) implies o.take(a).contains(j) by {
        assert(edge(kv, dv, out[a] as int, j));
        assert(out.take(a).contains(j as usize));
        let q = choose|q: int| 0 <= q < out.take(a).len() && out.take(a)[q] == j as usize;
        assert(o.take(a)[q] == j);
    }
    if acyclic(kv, dv) {
        assert forall|j: int| #[trigger] relevant(kv, dv, req, j) implies o.contains(j) by {
            assert(out.contains(j as usize));
            let q = choose|q: int| 0 <= q < out.len() && out[q] == j as usize;
            assert(o[q] == j);
        }
    }
}

} // verus!
