//! Moving around the tree: everything below a set of nodes, the way up from
//! a folder to the root, paths typed at a prompt, and the plain records the
//! front ends exchange.
use vstd::prelude::*;
use crate::vfs::{children_of, generations, in_subtree, is_entry_list, entry_keys, VfsNode, VfsTree};
use crate::external::{lowercase, unicode_lowercase};
use crate::text::{chars_of, contains_seq, has_infix, push_all, push_str_chars, split_chars, split_on,
    str_eq, string_from_chars, trim_chars, trim_spec};

verus! {

broadcast use vstd::std_specs::hash::group_hash_axioms;

// ----------------------------------------------------------------------
// Records exchanged with the front ends
// ----------------------------------------------------------------------

/// A file dropped onto the window, with the folder it goes to and the group
/// of files it was dropped with.
pub struct DropFile {
    pub path: String,
    pub target_pid: u64,
    pub group_id: Option<String>,
    pub group_name: Option<String>,
}

/// One step of the way from the root to the current folder.
pub struct Breadcrumb {
    pub id: u64,
    pub name: String,
}

/// A file below a folder, with its path relative to that folder.
pub struct FlatFile {
    pub id: u64,
    pub name: String,
    pub size: String,
    pub rel_path: String,
}

/// What a share code carries: name, checksum, size, chunk count, the share
/// link and its password.
pub struct SharePayload {
    pub n: String,
    pub m: String,
    pub s: String,
    pub c: u32,
    pub l: String,
    pub p: String,
}

/// What a share code shows before it is saved.
pub struct ResolveResult {
    pub name: String,
    pub size: String,
    pub md5: String,
    pub chunks: u32,
    pub is_folder: bool,
}

// ----------------------------------------------------------------------
// Everything below a set of nodes
// ----------------------------------------------------------------------

/// `x` is one of `ids` or lies below one of them.
pub open spec fn below_any(m: Map<u64, VfsNode>, ids: Seq<u64>, x: u64) -> bool {
    exists|t: int| 0 <= t < ids.len() && #[trigger] in_subtree(m, ids[t], x)
}

/// `c` is the id of a node whose parent is `p`.
pub open spec fn is_child_id(m: Map<u64, VfsNode>, p: u64, c: u64) -> bool {
    exists|k: u64| #[trigger] m.contains_key(k) && m[k].pid == p && m[k].id == c
}

/// A sequence without repeats, drawn from `extra` and the ids of `m`'s
/// nodes, is no longer than both together.
proof fn lemma_ids_bound(m: Map<u64, VfsNode>, s: Seq<u64>, extra: Seq<u64>)
    requires
        m.dom().finite(),
        s.no_duplicates(),
        forall|i: int| 0 <= i < s.len() ==> extra.contains(s[i]) || exists|k: u64| #[trigger]
            m.contains_key(k) && m[k].id == s[i],
    ensures
        s.len() <= m.dom().len() + extra.len(),
{
    let f = |k: u64| m[k].id;
    let img = m.dom().map(f);
    vstd::set_lib::lemma_map_size_bound(m.dom(), img, f);
    let all = img.union(extra.to_set());
    assert(s.to_set().subset_of(all)) by {
        assert forall|x: u64| s.to_set().contains(x) implies all.contains(x) by {
            let i = choose|i: int| 0 <= i < s.len() && s[i] == x;
            if !extra.contains(x) {
                let k = choose|k: u64| #[trigger] m.contains_key(k) && m[k].id == s[i];
                assert(img.contains(f(k)));
            }
        }
    }
    extra.lemma_cardinality_of_set();
    vstd::set_lib::lemma_set_union_finite_iff(img, extra.to_set());
    vstd::set_lib::lemma_len_union(img, extra.to_set());
    vstd::set_lib::lemma_len_subset(s.to_set(), all);
    s.unique_seq_to_set();
}

/// Everything closed under children that holds a node holds its subtree.
proof fn lemma_closed_holds_subtree(m: Map<u64, VfsNode>, s: Seq<u64>, target: u64, n: nat)
    requires
        s.contains(target),
        forall|p: u64, c: u64| s.contains(p) && #[trigger] is_child_id(m, p, c) ==> s.contains(c),
    ensures
        forall|x: u64| #[trigger] generations(m, target, n).contains(x) ==> s.contains(x),
    decreases n,
{
    if n > 0 {
        lemma_closed_holds_subtree(m, s, target, (n - 1) as nat);
        assert forall|x: u64| #[trigger] generations(m, target, n).contains(x) implies s.contains(x) by {
            let r = generations(m, target, (n - 1) as nat);
            if !r.contains(x) {
                assert(children_of(m, r).contains(x));
                let k = choose|k: u64| #[trigger] m.contains_key(k) && r.contains(m[k].pid) && m[k].id == x;
                assert(s.contains(m[k].pid));
                assert(is_child_id(m, m[k].pid, x));
            }
        }
    }
}

/// Each entry smaller than the next.
pub open spec fn ascending(s: Seq<u64>) -> bool {
    forall|i: int, j: int| 0 <= i < j < s.len() ==> s[i] < s[j]
}

/// The ids of the children of `p`, each once, smallest first.
pub open spec fn ordered_children(m: Map<u64, VfsNode>, p: u64) -> Seq<u64> {
    choose|s: Seq<u64>| ascending(s) && forall|c: u64| s.contains(c) <==> #[trigger] is_child_id(m, p, c)
}

/// Two ascending sequences that hold the same values are equal.
proof fn lemma_ascending_unique(a: Seq<u64>, b: Seq<u64>)
    requires
        ascending(a),
        ascending(b),
        forall|x: u64| a.contains(x) <==> b.contains(x),
    ensures
        a == b,
    decreases a.len(),
{
    if a.len() == 0 {
        if b.len() > 0 {
            assert(b.contains(b[0]));
        }
        assert(a =~= b);
    } else if b.len() == 0 {
        assert(a.contains(a[0]));
    } else {
        assert(a.contains(a[0]));
        assert(b.contains(b[0]));
        let ka = choose|k: int| 0 <= k < a.len() && a[k] == b[0];
        let kb = choose|k: int| 0 <= k < b.len() && b[k] == a[0];
        assert(a[0] <= a[ka]);
        assert(b[0] <= b[kb]);
        let ra = a.drop_first();
        let rb = b.drop_first();
        assert forall|x: u64| ra.contains(x) <==> rb.contains(x) by {
            if ra.contains(x) {
                let i = choose|i: int| 0 <= i < ra.len() && ra[i] == x;
                assert(a[i + 1] == x && a[0] < a[i + 1]);
                assert(a.contains(x));
                let j = choose|j: int| 0 <= j < b.len() && b[j] == x;
                assert(j != 0);
                assert(rb[j - 1] == x);
            }
            if rb.contains(x) {
                let i = choose|i: int| 0 <= i < rb.len() && rb[i] == x;
                assert(b[i + 1] == x && b[0] < b[i + 1]);
                assert(b.contains(x));
                let j = choose|j: int| 0 <= j < a.len() && a[j] == x;
                assert(j != 0);
                assert(ra[j - 1] == x);
            }
        }
        lemma_ascending_unique(ra, rb);
        assert(a =~= seq![a[0]] + ra);
        assert(b =~= seq![b[0]] + rb);
    }
}

/// A node has no more children than the tree has nodes.
proof fn lemma_ordered_children_len(m: Map<u64, VfsNode>, p: u64, s: Seq<u64>)
    requires
        m.dom().finite(),
        ascending(s),
        forall|c: u64| s.contains(c) ==> #[trigger] is_child_id(m, p, c),
    ensures
        s.len() <= m.dom().len(),
{
    assert forall|i: int| 0 <= i < s.len() implies Seq::<u64>::empty().contains(s[i]) || exists|k: u64| #[trigger]
        m.contains_key(k) && m[k].id == s[i] by {
        assert(s.contains(s[i]));
        assert(is_child_id(m, p, s[i]));
    }
    assert(s.no_duplicates()) by {
        assert forall|i: int, j: int| 0 <= i < s.len() && 0 <= j < s.len() && i != j implies s[i] != s[j] by {
            if i < j {
                assert(s[i] < s[j]);
            } else {
                assert(s[j] < s[i]);
            }
        }
    }
    lemma_ids_bound(m, s, Seq::empty());
}

/// The ids of the children of `parent`, each once, smallest first.
fn ordered_child_ids(tree: &VfsTree, parent: u64) -> (r: Vec<u64>)
    ensures
        r@ == ordered_children(tree.nodes@, parent),
        ascending(r@),
        forall|c: u64| r@.contains(c) <==> #[trigger] is_child_id(tree.nodes@, parent, c),
{
    let ghost m = tree.nodes@;
    let cs = tree.child_ids(parent);
    let mut out: Vec<u64> = Vec::new();
    let mut i: usize = 0;
    while i < cs.len()
        invariant
            i <= cs@.len(),
            ascending(out@),
            forall|x: u64| out@.contains(x) <==> exists|j: int| 0 <= j < i && cs@[j] == x,
        decreases cs.len() - i,
    {
        let c = cs[i];
        let mut pos: usize = 0;
        while pos < out.len() && out[pos] < c
            invariant
                pos <= out@.len(),
                forall|j: int| 0 <= j < pos ==> out@[j] < c,
            decreases out.len() - pos,
        {
            pos = pos + 1;
        }
        let ghost o0 = out@;
        if pos < out.len() && out[pos] == c {
            proof {
                assert forall|x: u64| out@.contains(x) <==> exists|j: int| 0 <= j < i + 1 && cs@[j] == x by {
                    if x == c {
                        assert(out@.contains(out@[pos as int]));
                    }
                    if exists|j: int| 0 <= j < i + 1 && cs@[j] == x {
                        let j = choose|j: int| 0 <= j < i + 1 && cs@[j] == x;
                        if j < i {
                            assert(exists|jj: int| 0 <= jj < i && cs@[jj] == x);
                        }
                    }
                }
            }
        } else {
            out.insert(pos, c);
            proof {
                assert(pos < o0.len() ==> o0[pos as int] > c);
                assert forall|a: int, b: int| 0 <= a < b < out@.len() implies out@[a] < out@[b] by {
                    if b < pos {
                        assert(out@[a] == o0[a] && out@[b] == o0[b]);
                    } else if b == pos {
                        assert(out@[a] == o0[a]);
                    } else if a < pos {
                        assert(out@[a] == o0[a] && out@[b] == o0[b - 1]);
                        assert(o0[b - 1] >= o0[pos as int]);
                    } else if a == pos {
                        assert(out@[b] == o0[b - 1]);
                        assert(o0[b - 1] >= o0[pos as int]);
                    } else {
                        assert(out@[a] == o0[a - 1] && out@[b] == o0[b - 1]);
                    }
                }
                assert forall|x: u64| out@.contains(x) <==> exists|j: int| 0 <= j < i + 1 && cs@[j] == x by {
                    if out@.contains(x) {
                        let t = choose|t: int| 0 <= t < out@.len() && out@[t] == x;
                        if t < pos {
                            assert(o0[t] == x && o0.contains(x));
                        } else if t > pos {
                            assert(o0[t - 1] == x && o0.contains(x));
                        } else {
                            assert(cs@[i as int] == x);
                        }
                    }
                    if exists|j: int| 0 <= j < i + 1 && cs@[j] == x {
                        let j = choose|j: int| 0 <= j < i + 1 && cs@[j] == x;
                        if j < i {
                            assert(o0.contains(x));
                            let t = choose|t: int| 0 <= t < o0.len() && o0[t] == x;
                            if t < pos {
                                assert(out@[t] == x);
                            } else {
                                assert(out@[t + 1] == x);
                            }
                        } else {
                            assert(out@[pos as int] == x);
                        }
                    }
                }
            }
        }
        i = i + 1;
    }
    proof {
        assert forall|c: u64| out@.contains(c) <==> #[trigger] is_child_id(m, parent, c) by {
            if out@.contains(c) {
                let j = choose|j: int| 0 <= j < i && cs@[j] == c;
                assert(cs@.contains(c));
            }
            if is_child_id(m, parent, c) {
                assert(cs@.contains(c));
                let j = choose|j: int| 0 <= j < cs@.len() && cs@[j] == c;
            }
        }
        let w = ordered_children(m, parent);
        assert(ascending(w) && forall|c: u64| w.contains(c) <==> #[trigger] is_child_id(m, parent, c));
        assert forall|x: u64| out@.contains(x) <==> w.contains(x) by {
            if out@.contains(x) || w.contains(x) {
                assert(is_child_id(m, parent, x) == out@.contains(x));
                assert(is_child_id(m, parent, x) == w.contains(x));
            }
        }
        lemma_ascending_unique(out@, w);
    }
    out
}

fn reversed_ids(v: &Vec<u64>) -> (r: Vec<u64>)
    ensures
        r@ == v@.reverse(),
{
    let mut out: Vec<u64> = Vec::new();
    let mut k: usize = v.len();
    while k > 0
        invariant
            k <= v@.len(),
            out@.len() == v@.len() - k,
            forall|i: int| 0 <= i < out@.len() ==> #[trigger] out@[i] == v@[v@.len() - 1 - i],
        decreases k,
    {
        k = k - 1;
        out.push(v[k]);
    }
    proof {
        assert(out@ =~= v@.reverse());
    }
    out
}

/// The depth-first walk from a stack of ids: take the last id off the
/// stack; if it was not met before, note it and put its children on the
/// stack, smallest first, so that the largest is taken next. `fuel` bounds
/// the number of steps.
pub open spec fn dfs_walk(m: Map<u64, VfsNode>, stack: Seq<u64>, done: Seq<u64>, fuel: nat) -> Seq<u64>
    decreases fuel,
{
    if fuel == 0 || stack.len() == 0 {
        done
    } else {
        let cur = stack.last();
        if done.contains(cur) {
            dfs_walk(m, stack.drop_last(), done, (fuel - 1) as nat)
        } else {
            dfs_walk(m, stack.drop_last() + ordered_children(m, cur), done.push(cur), (fuel - 1) as nat)
        }
    }
}

/// The walk from `ids` to its end: each step either notes a new node, which
/// happens at most once per id and node, or drops a repeat from a stack that
/// no step grows by more than the tree's size.
pub open spec fn descendant_walk(m: Map<u64, VfsNode>, ids: Seq<u64>) -> Seq<u64> {
    dfs_walk(m, ids, Seq::empty(), ids.len() + (m.dom().len() + ids.len()) * (m.dom().len() + 1))
}

/// The nodes `ids` and everything below them, each once, in the order of a
/// depth-first walk that starts from the last of `ids`. Top down, every
/// entry that is not one of `ids` comes after an entry that is its parent;
/// bottom up, the same list reversed, so it comes before one.
pub fn get_descendants(tree: &VfsTree, ids: &Vec<u64>, top_down: bool) -> (r: Vec<u64>)
    ensures
        r@ == if top_down {
            descendant_walk(tree.nodes@, ids@)
        } else {
            descendant_walk(tree.nodes@, ids@).reverse()
        },
        r@.no_duplicates(),
        forall|x: u64| r@.contains(x) <==> below_any(tree.nodes@, ids@, x),
        top_down ==> forall|i: int| 0 <= i < r@.len() ==> ids@.contains(#[trigger] r@[i]) || exists|j: int|
            0 <= j < i && is_child_id(tree.nodes@, r@[j], r@[i]),
        !top_down ==> forall|i: int| 0 <= i < r@.len() ==> ids@.contains(#[trigger] r@[i]) || exists|j: int|
            i < j < r@.len() && is_child_id(tree.nodes@, r@[j], r@[i]),
{
    let ghost m = tree.nodes@;
    let ghost bound: nat = m.dom().len() + ids@.len();
    let mut result: Vec<u64> = Vec::new();
    let mut queue: Vec<u64> = Vec::new();
    let mut t: usize = 0;
    while t < ids.len()
        invariant
            t <= ids@.len(),
            queue@ == ids@.take(t as int),
        decreases ids.len() - t,
    {
        queue.push(ids[t]);
        t = t + 1;
        proof {
            assert(queue@ =~= ids@.take(t as int));
        }
    }
    proof {
        assert(ids@.take(t as int) =~= ids@);
        assert forall|i: int| 0 <= i < queue@.len() implies below_any(m, ids@, #[trigger] queue@[i]) by {
            assert(generations(m, ids@[i], 0).contains(ids@[i]));
            assert(in_subtree(m, ids@[i], ids@[i]));
        }
    }
    let ghost mut fuel: nat = ids@.len() + bound * (m.dom().len() + 1);
    proof {
        assert(result@ =~= Seq::<u64>::empty());
        assert(dfs_walk(m, queue@, result@, fuel) == descendant_walk(m, ids@));
    }
    while queue.len() > 0
        invariant
            dfs_walk(m, queue@, result@, fuel) == descendant_walk(m, ids@),
            result@.len() <= bound,
            fuel >= queue@.len() + (bound - result@.len()) * (m.dom().len() + 1),
            m == tree.nodes@,
            m.dom().finite(),
            bound == m.dom().len() + ids@.len(),
            result@.no_duplicates(),
            forall|i: int| 0 <= i < result@.len() ==> below_any(m, ids@, #[trigger] result@[i]),
            forall|i: int| 0 <= i < queue@.len() ==> below_any(m, ids@, #[trigger] queue@[i]),
            forall|i: int| 0 <= i < result@.len() ==> ids@.contains(#[trigger] result@[i]) || exists|k: u64| #[trigger]
                m.contains_key(k) && m[k].id == result@[i],
            forall|x: u64| ids@.contains(x) ==> result@.contains(x) || queue@.contains(x),
            forall|p: u64, c: u64| result@.contains(p) && #[trigger] is_child_id(m, p, c) ==> result@.contains(c) || queue@.contains(c),
            forall|i: int| 0 <= i < result@.len() ==> ids@.contains(#[trigger] result@[i]) || exists|j: int|
                0 <= j < i && is_child_id(m, result@[j], result@[i]),
            forall|i: int| 0 <= i < queue@.len() ==> ids@.contains(#[trigger] queue@[i]) || exists|j: int|
                0 <= j < result@.len() && is_child_id(m, result@[j], queue@[i]),
        decreases bound - result@.len(), queue@.len(),
    {
        proof {
            lemma_ids_bound(m, result@, ids@);
        }
        let ghost q0 = queue@;
        let current = queue.pop().unwrap();
        proof {
            assert(q0 =~= queue@.push(current));
            assert(queue@ =~= q0.drop_last());
            assert(q0[q0.len() - 1] == current);
            assert(0 <= (bound - result@.len()) * (m.dom().len() + 1)) by (nonlinear_arith)
                requires
                    result@.len() <= bound,
            ;
            assert forall|x: u64| q0.contains(x) implies queue@.contains(x) || x == current by {
                let i = choose|i: int| 0 <= i < q0.len() && q0[i] == x;
                if i < q0.len() - 1 {
                    assert(queue@[i] == x);
                }
            }
        }
        if !crate::vfs::vec_contains_u64(&result, current) {
            let ghost r0 = result@;
            result.push(current);
            proof {
                assert(result@[r0.len() as int] == current);
                assert forall|x: u64| r0.contains(x) implies result@.contains(x) by {
                    let i = choose|i: int| 0 <= i < r0.len() && r0[i] == x;
                    assert(result@[i] == x);
                }
                assert(result@.contains(current));
                assert forall|i: int, j: int| 0 <= i < result@.len() && 0 <= j < result@.len() && i != j implies result@[i] != result@[j] by {
                    if i < r0.len() && j < r0.len() {
                        assert(result@[i] == r0[i] && result@[j] == r0[j]);
                    } else if i < r0.len() {
                        assert(r0.contains(result@[i]));
                    } else {
                        assert(r0.contains(result@[j]));
                    }
                }
                assert(ids@.contains(current) || exists|k: u64| #[trigger] m.contains_key(k) && m[k].id == current) by {
                    assert(ids@.contains(q0[q0.len() - 1]) || exists|j: int| 0 <= j < r0.len() && is_child_id(m, r0[j], q0[q0.len() - 1]));
                    if !ids@.contains(current) {
                        let j = choose|j: int| 0 <= j < r0.len() && is_child_id(m, r0[j], current);
                        let k = choose|k: u64| #[trigger] m.contains_key(k) && m[k].pid == r0[j] && m[k].id == current;
                    }
                }
                assert forall|i: int| 0 <= i < result@.len() implies ids@.contains(#[trigger] result@[i]) || exists|j: int|
                    0 <= j < i && is_child_id(m, result@[j], result@[i]) by {
                    if i < r0.len() {
                        assert(result@[i] == r0[i]);
                        if !ids@.contains(r0[i]) {
                            let j = choose|j: int| 0 <= j < i && is_child_id(m, r0[j], r0[i]);
                            assert(result@[j] == r0[j]);
                        }
                    } else {
                        if !ids@.contains(current) {
                            let j = choose|j: int| 0 <= j < r0.len() && is_child_id(m, r0[j], q0[q0.len() - 1]);
                            assert(result@[j] == r0[j]);
                        }
                    }
                }
            }
            let children = ordered_child_ids(tree, current);
            let mut c: usize = 0;
            while c < children.len()
                invariant
                    m == tree.nodes@,
                    result@.len() >= 1,
                    result@[result@.len() - 1] == current,
                    forall|cc: u64| children@.contains(cc) <==> is_child_id(m, current, cc),
                    forall|i: int| 0 <= i < c ==> queue@.contains(#[trigger] children@[i]),
                    forall|x: u64| q0.contains(x) ==> queue@.contains(x) || x == current,
                    forall|i: int| 0 <= i < queue@.len() ==> below_any(m, ids@, #[trigger] queue@[i]),
                    below_any(m, ids@, current),
                    forall|i: int| 0 <= i < queue@.len() ==> ids@.contains(#[trigger] queue@[i]) || exists|j: int|
                        0 <= j < result@.len() && is_child_id(m, result@[j], queue@[i]),
                    c <= children@.len(),
                    queue@ == q0.drop_last() + children@.take(c as int),
                decreases children@.len() - c,
            {
                let child = children[c];
                let ghost qb = queue@;
                proof {
                    assert(children@.contains(child));
                    assert(is_child_id(m, current, child));
                    let t = choose|t: int| 0 <= t < ids@.len() && #[trigger] in_subtree(m, ids@[t], current);
                    let n = choose|n: nat| #[trigger] generations(m, ids@[t], n).contains(current);
                    let k = choose|k: u64| #[trigger] m.contains_key(k) && m[k].pid == current && m[k].id == child;
                    assert(children_of(m, generations(m, ids@[t], n)).contains(child));
                    assert(generations(m, ids@[t], n + 1).contains(child));
                    assert(in_subtree(m, ids@[t], child));
                }
                queue.push(child);
                proof {
                    assert(queue@ =~= qb.push(child));
                    assert(children@.take(c + 1) =~= children@.take(c as int).push(child));
                    assert(queue@ =~= q0.drop_last() + children@.take(c + 1));
                    assert forall|x: u64| qb.contains(x) implies queue@.contains(x) by {
                        let i = choose|i: int| 0 <= i < qb.len() && qb[i] == x;
                        assert(queue@[i] == x);
                    }
                    assert(queue@[qb.len() as int] == child);
                    assert(is_child_id(m, result@[result@.len() - 1], child));
                }
                c = c + 1;
            }
            proof {
                assert forall|p: u64, cc: u64| result@.contains(p) && #[trigger] is_child_id(m, p, cc) implies result@.contains(cc) || queue@.contains(cc) by {
                    if p == current {
                        assert(children@.contains(cc));
                        let i = choose|i: int| 0 <= i < children@.len() && children@[i] == cc;
                    } else {
                        assert(r0.contains(p)) by {
                            let i = choose|i: int| 0 <= i < result@.len() && result@[i] == p;
                            if i < r0.len() {
                                assert(r0[i] == p);
                            }
                        }
                        if !r0.contains(cc) {
                            assert(q0.contains(cc));
                        }
                    }
                }
                assert forall|x: u64| ids@.contains(x) implies result@.contains(x) || queue@.contains(x) by {
                    if !r0.contains(x) {
                        assert(q0.contains(x));
                    }
                }
                lemma_ids_bound(m, result@, ids@);
                assert(children@.take(children@.len() as int) =~= children@);
                assert(!r0.contains(current));
                assert(dfs_walk(m, q0, r0, fuel) == dfs_walk(
                    m,
                    q0.drop_last() + ordered_children(m, current),
                    r0.push(current),
                    (fuel - 1) as nat,
                ));
                assert(result@ =~= r0.push(current));
                lemma_ordered_children_len(m, current, children@);
                let nn: int = m.dom().len() as int + 1;
                let left: int = bound - r0.len();
                assert(left * nn == (left - 1) * nn + nn) by (nonlinear_arith);
                fuel = (fuel - 1) as nat;
            }
        } else {
            proof {
                assert(result@.contains(current));
                assert(dfs_walk(m, q0, result@, fuel) == dfs_walk(m, q0.drop_last(), result@, (fuel - 1) as nat));
                fuel = (fuel - 1) as nat;
                assert forall|p: u64, cc: u64| result@.contains(p) && #[trigger] is_child_id(m, p, cc) implies result@.contains(cc) || queue@.contains(cc) by {
                    if !result@.contains(cc) {
                        assert(q0.contains(cc));
                    }
                }
                assert forall|i: int| 0 <= i < queue@.len() implies ids@.contains(#[trigger] queue@[i]) || exists|j: int|
                    0 <= j < result@.len() && is_child_id(m, result@[j], queue@[i]) by {
                    assert(queue@[i] == q0[i]);
                }
                assert forall|i: int| 0 <= i < queue@.len() implies below_any(m, ids@, #[trigger] queue@[i]) by {
                    assert(queue@[i] == q0[i]);
                }
            }
        }
    }
    proof {
        assert(queue@.len() == 0);
        assert(result@ == descendant_walk(m, ids@));
        assert forall|p: u64, c: u64| result@.contains(p) && #[trigger] is_child_id(m, p, c) implies result@.contains(c) by {
            assert(!queue@.contains(c));
        }
        assert forall|x: u64| ids@.contains(x) implies result@.contains(x) by {
            assert(!queue@.contains(x));
        }
        assert forall|x: u64| result@.contains(x) <==> below_any(m, ids@, x) by {
            if result@.contains(x) {
                let i = choose|i: int| 0 <= i < result@.len() && result@[i] == x;
            }
            if below_any(m, ids@, x) {
                let t = choose|t: int| 0 <= t < ids@.len() && #[trigger] in_subtree(m, ids@[t], x);
                let n = choose|n: nat| #[trigger] generations(m, ids@[t], n).contains(x);
                assert(ids@.contains(ids@[t]));
                lemma_closed_holds_subtree(m, result@, ids@[t], n);
            }
        }
        assert(forall|x: u64| result@.contains(x) <==> below_any(tree.nodes@, ids@, x));
    }
    let ghost fwd_all = result@;
    if !top_down {
        let ghost fwd = result@;
        result = reversed_ids(&result);
        proof {
            assert forall|i: int| 0 <= i < result@.len() implies ids@.contains(#[trigger] result@[i]) || exists|j: int|
                i < j < result@.len() && is_child_id(m, result@[j], result@[i]) by {
                let ii = fwd.len() - 1 - i;
                assert(result@[i] == fwd[ii]);
                if !ids@.contains(fwd[ii]) {
                    let jj = choose|jj: int| 0 <= jj < ii && is_child_id(m, fwd[jj], fwd[ii]);
                    assert(result@[fwd.len() - 1 - jj] == fwd[jj]);
                }
            }
            assert(fwd == fwd_all);
            assert forall|x: u64| result@.contains(x) <==> fwd.contains(x) by {
                if result@.contains(x) {
                    let i = choose|i: int| 0 <= i < result@.len() && result@[i] == x;
                    assert(fwd[fwd.len() - 1 - i] == x);
                }
                if fwd.contains(x) {
                    let i = choose|i: int| 0 <= i < fwd.len() && fwd[i] == x;
                    assert(result@[fwd.len() - 1 - i] == x);
                }
            }
            assert forall|i: int, j: int| 0 <= i < result@.len() && 0 <= j < result@.len() && i != j implies result@[i] != result@[j] by {
                assert(result@[i] == fwd[fwd.len() - 1 - i]);
                assert(result@[j] == fwd[fwd.len() - 1 - j]);
            }
        }
    }
    proof {
        assert forall|x: u64| result@.contains(x) <==> below_any(tree.nodes@, ids@, x) by {
            assert(result@.contains(x) <==> fwd_all.contains(x));
        }
    }
    result
}

// ----------------------------------------------------------------------
// The way up to the root
// ----------------------------------------------------------------------

/// Climbing from `c` by parents reaches the root (id 0) or a missing node
/// within `n` steps.
pub open spec fn climbs_out(m: Map<u64, VfsNode>, c: u64, n: nat) -> bool
    decreases n,
{
    c == 0 || !m.contains_key(c) || (n > 0 && climbs_out(m, m[c].pid, (n - 1) as nat))
}

/// The nodes met climbing from `c` (itself first), up to `n` of them,
/// stopping at the root or a missing node, as id and name.
pub open spec fn climb(m: Map<u64, VfsNode>, c: u64, n: nat) -> Seq<(u64, Seq<char>)>
    decreases n,
{
    if c == 0 || !m.contains_key(c) || n == 0 {
        Seq::<(u64, Seq<char>)>::empty()
    } else {
        seq![(c, m[c].name@)] + climb(m, m[c].pid, (n - 1) as nat)
    }
}

/// The nodes above `c` up to the root, `c` first.
pub open spec fn climb_from(m: Map<u64, VfsNode>, c: u64) -> Seq<(u64, Seq<char>)> {
    climb(m, c, choose|n: nat| climbs_out(m, c, n))
}

pub open spec fn all_files_name() -> Seq<char> {
    "All Files"@
}

pub open spec fn crumb_views(v: Seq<Breadcrumb>) -> Seq<(u64, Seq<char>)> {
    v.map_values(|b: Breadcrumb| (b.id, b.name@))
}

/// Climbing with more steps than needed meets the same nodes.
proof fn lemma_climb_stable(m: Map<u64, VfsNode>, c: u64, n: nat, k: nat)
    requires
        climbs_out(m, c, n),
        n <= k,
    ensures
        climb(m, c, n) == climb(m, c, k),
        climbs_out(m, c, k),
    decreases n,
{
    if c == 0 || !m.contains_key(c) {
    } else {
        lemma_climb_stable(m, m[c].pid, (n - 1) as nat, (k - 1) as nat);
    }
}

proof fn lemma_climb_choose(m: Map<u64, VfsNode>, c: u64, n: nat)
    requires
        climbs_out(m, c, n),
    ensures
        climb_from(m, c) == climb(m, c, n),
{
    let w = choose|w: nat| climbs_out(m, c, w);
    if w <= n {
        lemma_climb_stable(m, c, w, n);
    } else {
        lemma_climb_stable(m, c, n, w);
    }
}

/// The way from the root to folder `current_pid`: the root as `All Files`,
/// then each folder down to the current one. The climb must end, as it does
/// in any tree without a cycle of parents.
pub fn breadcrumbs(tree: &VfsTree, current_pid: u64) -> (r: Vec<Breadcrumb>)
    requires
        exists|n: nat| climbs_out(tree.nodes@, current_pid, n),
    ensures
        crumb_views(r@) == (climb_from(tree.nodes@, current_pid) + seq![(0u64, all_files_name())]).reverse(),
{
    let ghost m = tree.nodes@;
    let ghost n0 = choose|n: nat| climbs_out(m, current_pid, n);
    let mut path: Vec<Breadcrumb> = Vec::new();
    let mut current = current_pid;
    let ghost mut fuel: nat = n0;
    while current != 0
        invariant
            m == tree.nodes@,
            climbs_out(m, current, fuel),
            crumb_views(path@) + climb(m, current, fuel) == climb(m, current_pid, n0),
        ensures
            crumb_views(path@) + climb(m, current, fuel) == climb(m, current_pid, n0),
            current == 0 || !m.contains_key(current),
        decreases fuel,
    {
        match tree.nodes.get(&current) {
            Some(node) => {
                let ghost before = crumb_views(path@);
                path.push(Breadcrumb { id: current, name: node.name.clone() });
                proof {
                    assert(crumb_views(path@) =~= before.push((current, m[current].name@)));
                    assert(crumb_views(path@) + climb(m, m[current].pid, (fuel - 1) as nat) =~= before + climb(m, current, fuel));
                    fuel = (fuel - 1) as nat;
                }
                current = node.pid;
            },
            None => {
                break;
            },
        }
    }
    proof {
        assert(climb(m, current, fuel) =~= Seq::<(u64, Seq<char>)>::empty());
        lemma_climb_choose(m, current_pid, n0);
    }
    let ghost up = crumb_views(path@);
    path.push(Breadcrumb { id: 0, name: "All Files".to_string() });
    let mut out: Vec<Breadcrumb> = Vec::new();
    let mut k: usize = path.len();
    let ghost full = crumb_views(path@);
    proof {
        assert(full =~= up + seq![(0u64, all_files_name())]);
    }
    while k > 0
        invariant
            k <= path@.len(),
            full == crumb_views(path@),
            crumb_views(out@) =~= full.reverse().take(path@.len() - k),
        decreases k,
    {
        k = k - 1;
        let b = Breadcrumb { id: path[k].id, name: path[k].name.clone() };
        let ghost before = crumb_views(out@);
        out.push(b);
        proof {
            assert(crumb_views(out@) =~= before.push(full[k as int]));
            assert(full.reverse().take(path@.len() - k) =~= full.reverse().take(path@.len() - k - 1).push(full[k as int]));
        }
    }
    proof {
        assert(full.reverse().take(path@.len() as int) =~= full.reverse());
    }
    out
}

/// Climbing from `c` by parents leaves the table within `n` steps.
pub open spec fn leaves_table(m: Map<u64, VfsNode>, c: u64, n: nat) -> bool
    decreases n,
{
    !m.contains_key(c) || (n > 0 && leaves_table(m, m[c].pid, (n - 1) as nat))
}

/// The names met climbing from `c` until a missing node, `c`'s first.
pub open spec fn names_up(m: Map<u64, VfsNode>, c: u64, n: nat) -> Seq<Seq<char>>
    decreases n,
{
    if !m.contains_key(c) || n == 0 {
        Seq::<Seq<char>>::empty()
    } else {
        seq![m[c].name@] + names_up(m, m[c].pid, (n - 1) as nat)
    }
}

pub open spec fn names_above(m: Map<u64, VfsNode>, c: u64) -> Seq<Seq<char>> {
    names_up(m, c, choose|n: nat| leaves_table(m, c, n))
}

proof fn lemma_names_stable(m: Map<u64, VfsNode>, c: u64, n: nat, k: nat)
    requires
        leaves_table(m, c, n),
        n <= k,
    ensures
        names_up(m, c, n) == names_up(m, c, k),
        leaves_table(m, c, k),
    decreases n,
{
    if m.contains_key(c) {
        lemma_names_stable(m, m[c].pid, (n - 1) as nat, (k - 1) as nat);
    }
}

proof fn lemma_names_choose(m: Map<u64, VfsNode>, c: u64, n: nat)
    requires
        leaves_table(m, c, n),
    ensures
        names_above(m, c) == names_up(m, c, n),
{
    let w = choose|w: nat| leaves_table(m, c, w);
    if w <= n {
        lemma_names_stable(m, c, w, n);
    } else {
        lemma_names_stable(m, c, n, w);
    }
}

/// Pieces joined with a separator text.
pub open spec fn join_text(parts: Seq<Seq<char>>, sep: Seq<char>) -> Seq<char>
    decreases parts.len(),
{
    if parts.len() == 0 {
        Seq::<char>::empty()
    } else if parts.len() == 1 {
        parts[0]
    } else {
        join_text(parts.drop_last(), sep) + sep + parts.last()
    }
}

/// The names met climbing from `c` until the table ends, `c`'s first.
fn climb_names(tree: &VfsTree, c: u64) -> (r: Vec<String>)
    requires
        exists|n: nat| leaves_table(tree.nodes@, c, n),
    ensures
        r@.map_values(|x: String| x@) == names_above(tree.nodes@, c),
{
    let ghost m = tree.nodes@;
    let ghost n0 = choose|n: nat| leaves_table(m, c, n);
    let mut out: Vec<String> = Vec::new();
    let mut curr = c;
    let ghost mut fuel: nat = n0;
    loop
        invariant
            m == tree.nodes@,
            leaves_table(m, curr, fuel),
            out@.map_values(|x: String| x@) + names_up(m, curr, fuel) == names_up(m, c, n0),
        ensures
            out@.map_values(|x: String| x@) == names_up(m, c, n0),
        decreases fuel,
    {
        match tree.nodes.get(&curr) {
            Some(node) => {
                let ghost before = out@.map_values(|x: String| x@);
                out.push(node.name.clone());
                proof {
                    assert(out@.map_values(|x: String| x@) =~= before.push(m[curr].name@));
                    assert(out@.map_values(|x: String| x@) + names_up(m, m[curr].pid, (fuel - 1) as nat) =~= before + names_up(m, curr, fuel));
                    fuel = (fuel - 1) as nat;
                }
                curr = node.pid;
            },
            None => {
                proof {
                    assert(names_up(m, curr, fuel) =~= Seq::<Seq<char>>::empty());
                    assert(out@.map_values(|x: String| x@) =~= names_up(m, c, n0));
                }
                break;
            },
        }
    }
    proof {
        lemma_names_choose(m, c, n0);
    }
    out
}

/// Joins texts with a separator.
fn join_strings(parts: &Vec<String>, sep: &str) -> (r: Vec<char>)
    ensures
        r@ == join_text(parts@.map_values(|x: String| x@), sep@),
{
    let ghost v = parts@.map_values(|x: String| x@);
    let mut out: Vec<char> = Vec::new();
    let mut i: usize = 0;
    while i < parts.len()
        invariant
            i <= parts@.len(),
            v == parts@.map_values(|x: String| x@),
            out@ == join_text(v.take(i as int), sep@),
        decreases parts.len() - i,
    {
        if i > 0 {
            push_str_chars(&mut out, sep);
        }
        push_str_chars(&mut out, parts[i].as_str());
        proof {
            assert(v[i as int] == parts@[i as int]@);
            if i == 0 {
                assert(v.take(1) =~= seq![v[0]]);
            } else {
                assert(v.take(i + 1).drop_last() =~= v.take(i as int));
            }
            assert(out@ =~= join_text(v.take(i + 1), sep@));
        }
        i = i + 1;
    }
    proof {
        assert(v.take(i as int) =~= v);
    }
    out
}

fn reversed_strings(v: Vec<String>) -> (r: Vec<String>)
    ensures
        r@.map_values(|x: String| x@) == v@.map_values(|x: String| x@).reverse(),
{
    let mut out: Vec<String> = Vec::new();
    let mut k: usize = v.len();
    while k > 0
        invariant
            k <= v@.len(),
            out@.len() == v@.len() - k,
            forall|i: int| 0 <= i < out@.len() ==> (#[trigger] out@[i])@ == v@[v@.len() - 1 - i]@,
        decreases k,
    {
        k = k - 1;
        out.push(v[k].clone());
    }
    proof {
        assert(out@.map_values(|x: String| x@) =~= v@.map_values(|x: String| x@).reverse());
    }
    out
}

/// The absolute path of a node: `/` and the names from the top down,
/// joined with `/`; `/` alone when the node is not in the table.
pub open spec fn full_path_text(m: Map<u64, VfsNode>, id: u64) -> Seq<char> {
    let names = names_above(m, id).reverse();
    if names.len() == 0 {
        seq!['/']
    } else {
        seq!['/'] + join_text(names, seq!['/'])
    }
}

pub fn get_full_path(tree: &VfsTree, id: u64) -> (r: String)
    requires
        exists|n: nat| leaves_table(tree.nodes@, id, n),
    ensures
        r@ == full_path_text(tree.nodes@, id),
{
    let names = climb_names(tree, id);
    let top_down = reversed_strings(names);
    let ghost tv = top_down@.map_values(|x: String| x@);
    proof {
        reveal_strlit("/");
        assert(tv == names_above(tree.nodes@, id).reverse());
        assert(tv.len() == top_down@.len());
    }
    if top_down.len() == 0 {
        return "/".to_string();
    }
    let joined = join_strings(&top_down, "/");
    let mut out: Vec<char> = Vec::new();
    out.push('/');
    push_all(&mut out, joined.as_slice());
    proof {
        reveal_strlit("/");
        assert("/"@ =~= seq!['/']);
        assert(joined@ == join_text(tv, seq!['/']));
        assert(out@ =~= full_path_text(tree.nodes@, id));
    }
    string_from_chars(out.as_slice())
}

// ----------------------------------------------------------------------
// Search
// ----------------------------------------------------------------------

/// A live node whose lower-cased name holds the lower-cased query.
pub open spec fn search_hit(n: VfsNode, query: Seq<char>) -> bool {
    !n.is_deleted && !n.is_trashed && has_infix(unicode_lowercase(n.name@), unicode_lowercase(query))
}

/// Search finds only live nodes: nothing tombstoned and nothing in the
/// recycle bin is ever a hit, and every hit's name holds the query, in any
/// case; any live node whose name holds it is a hit.
pub proof fn law_search_finds_only_live_nodes(n: VfsNode, query: Seq<char>)
    ensures
        search_hit(n, query) ==> !n.is_deleted && !n.is_trashed,
        search_hit(n, query) ==> has_infix(unicode_lowercase(n.name@), unicode_lowercase(query)),
        !n.is_deleted && !n.is_trashed && has_infix(unicode_lowercase(n.name@), unicode_lowercase(query))
            ==> search_hit(n, query),
{
}

/// Where a hit is shown: `All Files` and the folders above it, top down,
/// joined with ` > `.
pub open spec fn search_path_text(m: Map<u64, VfsNode>, n: VfsNode) -> Seq<char> {
    join_text((names_above(m, n.pid) + seq![all_files_name()]).reverse(), " > "@)
}

/// Every climb from a node's parent leaves the table.
pub open spec fn parents_leave(m: Map<u64, VfsNode>) -> bool {
    forall|k: u64| #[trigger] m.contains_key(k) ==> exists|n: nat| leaves_table(m, m[k].pid, n)
}

/// The nodes whose names hold `query`, case aside, each with the path it is
/// shown under; in table order.
pub fn search_nodes(tree: &VfsTree, query: &str) -> (r: Vec<(VfsNode, String)>)
    requires
        parents_leave(tree.nodes@),
    ensures
        exists|ks: Seq<u64>| #![trigger ks.len()] {
            &&& ks.no_duplicates()
            &&& forall|k: u64| ks.contains(k) <==> (tree.nodes@.contains_key(k) && search_hit(tree.nodes@[k], query@))
            &&& r@.len() == ks.len()
            &&& forall|i: int| 0 <= i < r@.len() ==> (#[trigger] r@[i]).0 == tree.nodes@[ks[i]] && r@[i].1@
                == search_path_text(tree.nodes@, tree.nodes@[ks[i]])
        },
        forall|i: int| 0 <= i < r@.len() ==> !(#[trigger] r@[i]).0.is_deleted && !r@[i].0.is_trashed,
{
    let ghost m = tree.nodes@;
    let q = lowercase(query);
    let qc = chars_of(q.as_str());
    let es = tree.entries();
    let mut out: Vec<(VfsNode, String)> = Vec::new();
    let ghost mut ks: Seq<u64> = Seq::empty();
    let mut i: usize = 0;
    while i < es.len()
        invariant
            i <= es@.len(),
            m == tree.nodes@,
            parents_leave(m),
            qc@ == unicode_lowercase(query@),
            is_entry_list(es@, m),
            ks.no_duplicates(),
            forall|k: u64| ks.contains(k) <==> (exists|j: int| 0 <= j < i && (#[trigger] es@[j]).0 == k
                && search_hit(m[k], query@)),
            forall|k: u64| ks.contains(k) ==> m.contains_key(k),
            out@.len() == ks.len(),
            forall|t: int| 0 <= t < out@.len() ==> (#[trigger] out@[t]).0 == m[ks[t]] && out@[t].1@
                == search_path_text(m, m[ks[t]]),
        decreases es.len() - i,
    {
        let e = &es[i];
        proof {
            assert(entry_keys(es@)[i as int] == es@[i as int].0);
            assert(entry_keys(es@).contains(es@[i as int].0));
            assert(es@[i as int].1 == m[es@[i as int].0]);
        }
        let name_lower = lowercase(e.1.name.as_str());
        let nc = chars_of(name_lower.as_str());
        let ghost ks0 = ks;
        if !e.1.is_deleted && !e.1.is_trashed && contains_seq(nc.as_slice(), qc.as_slice()) {
            proof {
                assert(m.contains_key(e.0));
                assert(exists|n: nat| leaves_table(m, m[e.0].pid, n));
            }
            let names = climb_names(tree, e.1.pid);
            let mut parts = names;
            parts.push("All Files".to_string());
            let top_down = reversed_strings(parts);
            let joined = join_strings(&top_down, " > ");
            let path = string_from_chars(joined.as_slice());
            proof {
                assert(top_down@.map_values(|x: String| x@) =~= (names_above(m, m[e.0].pid) + seq![all_files_name()]).reverse());
                assert(!ks.contains(e.0)) by {
                    if ks.contains(e.0) {
                        let j = choose|j: int| 0 <= j < i && (#[trigger] es@[j]).0 == e.0 && search_hit(m[e.0], query@);
                        assert(entry_keys(es@)[j] == entry_keys(es@)[i as int]);
                    }
                }
                ks = ks.push(e.0);
            }
            out.push((e.1.duplicate(), path));
        }
        proof {
            assert forall|k: u64| ks.contains(k) <==> (exists|j: int| 0 <= j < i + 1 && (#[trigger] es@[j]).0 == k
                && search_hit(m[k], query@)) by {
                crate::vfs::lemma_push_contains(ks0, es@[i as int].0, k);
                if ks.contains(k) && ks0.contains(k) {
                    let j = choose|j: int| 0 <= j < i && (#[trigger] es@[j]).0 == k && search_hit(m[k], query@);
                    assert(0 <= j < i + 1);
                }
                if exists|j: int| 0 <= j < i + 1 && (#[trigger] es@[j]).0 == k && search_hit(m[k], query@) {
                    let j = choose|j: int| 0 <= j < i + 1 && (#[trigger] es@[j]).0 == k && search_hit(m[k], query@);
                    if j < i {
                        assert(ks0.contains(k));
                    }
                }
            }
            assert forall|k: u64| ks.contains(k) implies m.contains_key(k) by {
                crate::vfs::lemma_push_contains(ks0, es@[i as int].0, k);
            }
        }
        i = i + 1;
    }
    proof {
        assert forall|k: u64| ks.contains(k) <==> (m.contains_key(k) && search_hit(m[k], query@)) by {
            if m.contains_key(k) && search_hit(m[k], query@) {
                assert(entry_keys(es@).contains(k));
                let j = choose|j: int| 0 <= j < entry_keys(es@).len() && entry_keys(es@)[j] == k;
                assert(es@[j].0 == k);
            }
        }
        assert(ks.len() == ks.len());
        assert forall|j: int| 0 <= j < out@.len() implies !(#[trigger] out@[j]).0.is_deleted && !out@[j].0.is_trashed by {
            assert(ks.contains(ks[j]));
        }
    }
    out
}

// ----------------------------------------------------------------------
// Paths typed at the prompt
// ----------------------------------------------------------------------

/// A live node under `curr` named `seg`.
pub open spec fn named_child(m: Map<u64, VfsNode>, curr: u64, seg: Seq<char>, k: u64) -> bool {
    m.contains_key(k) && m[k].pid == curr && !m[k].is_deleted && !m[k].is_trashed && m[k].name@ == seg
}

/// One segment of a typed path taken from folder `curr` to `next`: `.`
/// stays, `..` goes to the parent (the root when the folder is unknown), a
/// name goes to a live child of that name.
pub open spec fn cli_step(m: Map<u64, VfsNode>, curr: u64, seg: Seq<char>, next: u64) -> bool {
    if seg == seq!['.'] {
        next == curr
    } else if seg == seq!['.', '.'] {
        next == (if m.contains_key(curr) {
            m[curr].pid
        } else {
            0
        })
    } else {
        exists|k: u64| #[trigger] named_child(m, curr, seg, k) && m[k].id == next
    }
}

/// A name that no live child of `curr` has.
pub open spec fn cli_stuck(m: Map<u64, VfsNode>, curr: u64, seg: Seq<char>) -> bool {
    seg != seq!['.'] && seg != seq!['.', '.'] && !exists|k: u64| #[trigger] named_child(m, curr, seg, k)
}

/// `chain` walks the first `chain.len() - 1` segments from `chain[0]`.
pub open spec fn is_cli_chain(m: Map<u64, VfsNode>, segs: Seq<Seq<char>>, chain: Seq<u64>) -> bool {
    chain.len() >= 1 && chain.len() <= segs.len() + 1 && forall|i: int|
        0 <= i < chain.len() - 1 ==> cli_step(m, #[trigger] chain[i], segs[i], chain[i + 1])
}

/// The segments of a typed path.
pub open spec fn cli_segments(t: Seq<char>) -> Seq<Seq<char>> {
    crate::dav::nonempty_pieces(split_on(t, '/'))
}

/// The live child of `curr` named `seg`, if any; any one of them where
/// several share the name.
fn find_named_child(tree: &VfsTree, curr: u64, seg: &Vec<char>) -> (r: Option<u64>)
    ensures
        match r {
            Some(x) => exists|k: u64| #[trigger] named_child(tree.nodes@, curr, seg@, k) && tree.nodes@[k].id == x,
            None => forall|k: u64| !(#[trigger] named_child(tree.nodes@, curr, seg@, k)),
        },
{
    let ghost m = tree.nodes@;
    let es = tree.entries();
    let mut j: usize = 0;
    while j < es.len()
        invariant
            j <= es@.len(),
            m == tree.nodes@,
            is_entry_list(es@, m),
            forall|jj: int| 0 <= jj < j ==> !named_child(m, curr, seg@, (#[trigger] es@[jj]).0),
        decreases es.len() - j,
    {
        let e = &es[j];
        proof {
            assert(es@[j as int].1 == m[es@[j as int].0]);
            assert(entry_keys(es@)[j as int] == es@[j as int].0);
            assert(entry_keys(es@).contains(es@[j as int].0));
        }
        let same = crate::text::chars_eq(chars_of(e.1.name.as_str()).as_slice(), seg.as_slice());
        if e.1.pid == curr && !e.1.is_deleted && !e.1.is_trashed && same {
            proof {
                assert(named_child(m, curr, seg@, e.0));
            }
            return Some(e.1.id);
        }
        j = j + 1;
    }
    proof {
        assert forall|k: u64| !(#[trigger] named_child(m, curr, seg@, k)) by {
            if named_child(m, curr, seg@, k) {
                assert(entry_keys(es@).contains(k));
                let jj = choose|jj: int| 0 <= jj < entry_keys(es@).len() && entry_keys(es@)[jj] == k;
                assert(es@[jj].0 == k);
            }
        }
    }
    None
}

/// Where one non-empty segment leads from `curr`; `None` when it names no
/// live child.
fn cli_next(tree: &VfsTree, curr: u64, seg: &Vec<char>) -> (r: Option<u64>)
    requires
        seg@.len() > 0,
    ensures
        match r {
            Some(x) => cli_step(tree.nodes@, curr, seg@, x),
            None => cli_stuck(tree.nodes@, curr, seg@),
        },
{
    if seg.len() == 1 && seg[0] == '.' {
        proof {
            assert(seg@ =~= seq!['.']);
        }
        return Some(curr);
    }
    if seg.len() == 2 && seg[0] == '.' && seg[1] == '.' {
        proof {
            assert(seg@ =~= seq!['.', '.']);
        }
        return match tree.nodes.get(&curr) {
            Some(n) => Some(n.pid),
            None => Some(0),
        };
    }
    proof {
        if seg@ == seq!['.'] {
            assert(seg@.len() == 1);
        }
        if seg@ == seq!['.', '.'] {
            assert(seg@.len() == 2);
        }
    }
    find_named_child(tree, curr, seg)
}

/// What resolving the trimmed typed path `t` from working folder `cwd` may
/// give: empty or `.` is the working folder, `/` the root; otherwise the
/// segments are walked from the root when `t` starts with `/`, else from the
/// working folder, and the first segment that names nothing is reported.
pub open spec fn cli_outcome(m: Map<u64, VfsNode>, cwd: u64, t: Seq<char>, r: Result<u64, String>) -> bool {
    if t.len() == 0 || t == seq!['.'] {
        r == Ok::<u64, String>(cwd)
    } else if t == seq!['/'] {
        r == Ok::<u64, String>(0)
    } else {
        let start: u64 = if t[0] == '/' {
            0
        } else {
            cwd
        };
        let segs = cli_segments(t);
        &&& r matches Ok(id) ==> exists|chain: Seq<u64>|
            #![trigger is_cli_chain(m, segs, chain)]
            is_cli_chain(m, segs, chain) && chain.len() == segs.len() + 1 && chain[0] == start
                && chain.last() == id
        &&& r matches Err(e) ==> exists|chain: Seq<u64>|
            #![trigger is_cli_chain(m, segs, chain)]
            is_cli_chain(m, segs, chain) && chain.len() <= segs.len() && chain[0] == start
                && cli_stuck(m, chain.last(), segs[chain.len() - 1]) && e@ == seq!['\''] + segs[chain.len()
                - 1] + "' not found"@
    }
}

/// Resolves a path typed at the prompt against working folder `cwd_id`,
/// after trimming white space. Where two live children share a name,
/// either may be taken.
pub fn resolve_path(tree: &VfsTree, cwd_id: u64, path: &str) -> (r: Result<u64, String>)
    ensures
        cli_outcome(tree.nodes@, cwd_id, trim_spec(path@), r),
{
    let pc = chars_of(path);
    let t = trim_chars(pc.as_slice());
    resolve_trimmed(tree, cwd_id, &t)
}

fn resolve_trimmed(tree: &VfsTree, cwd_id: u64, t: &Vec<char>) -> (r: Result<u64, String>)
    ensures
        cli_outcome(tree.nodes@, cwd_id, t@, r),
{
    let ghost m = tree.nodes@;
    if t.len() == 0 || (t.len() == 1 && t[0] == '.') {
        proof {
            if t@.len() == 1 {
                assert(t@ =~= seq!['.']);
            }
        }
        return Ok(cwd_id);
    }
    if t.len() == 1 && t[0] == '/' {
        proof {
            assert(t@ =~= seq!['/']);
        }
        return Ok(0);
    }
    proof {
        if t@ == seq!['.'] || t@ == seq!['/'] {
            assert(t@.len() == 1);
        }
    }
    let mut curr: u64 = if t[0] == '/' {
        0
    } else {
        cwd_id
    };
    let pieces = split_chars(t.as_slice(), '/');
    let ghost sp = split_on(t@, '/');
    let ghost segs = cli_segments(t@);
    proof {
        assert(sp.take(0) =~= Seq::<Seq<char>>::empty());
    }
    let ghost mut chain: Seq<u64> = seq![curr];
    let mut i: usize = 0;
    while i < pieces.len()
        invariant
            i <= pieces@.len(),
            m == tree.nodes@,
            pieces@.len() == sp.len(),
            forall|k: int| 0 <= k < pieces@.len() ==> (#[trigger] pieces@[k])@ == sp[k],
            segs == crate::dav::nonempty_pieces(sp),
            segs == cli_segments(t@),
            sp == split_on(t@, '/'),
            t@.len() > 0,
            t@ != seq!['.'],
            t@ != seq!['/'],
            chain.len() == crate::dav::nonempty_pieces(sp.take(i as int)).len() + 1,
            is_cli_chain(m, segs, chain),
            chain[0] == (if t@[0] == '/' { 0u64 } else { cwd_id }),
            chain.last() == curr,
        decreases pieces.len() - i,
    {
        proof {
            lemma_piece_step(sp, i as int);
            assert(pieces@[i as int]@ == sp[i as int]);
        }
        let piece = &pieces[i];
        if piece.len() > 0 {
            let next: u64 = match cli_next(tree, curr, piece) {
                Some(x) => x,
                None => {
                    let mut msg: Vec<char> = Vec::new();
                    msg.push('\'');
                    push_all(&mut msg, piece.as_slice());
                    push_str_chars(&mut msg, "' not found");
                    proof {
                        assert(msg@ =~= seq!['\''] + segs[chain.len() - 1] + "' not found"@);
                        assert(chain.len() <= segs.len());
                        assert(is_cli_chain(m, segs, chain));
                    }
                    return Err(string_from_chars(msg.as_slice()));
                },
            };
            proof {
                lemma_chain_push(m, segs, chain, next);
                chain = chain.push(next);
            }
            curr = next;
        }
        i = i + 1;
    }
    proof {
        assert(sp.take(i as int) =~= sp);
        assert(chain.len() == segs.len() + 1);
        assert(is_cli_chain(m, segs, chain));
    }
    Ok(curr)
}

/// One more piece: an empty one adds no segment, another adds itself as the
/// next segment.
proof fn lemma_piece_step(sp: Seq<Seq<char>>, i: int)
    requires
        0 <= i < sp.len(),
    ensures
        ({
            let a = crate::dav::nonempty_pieces(sp.take(i));
            let b = crate::dav::nonempty_pieces(sp.take(i + 1));
            let segs = crate::dav::nonempty_pieces(sp);
            &&& sp[i].len() == 0 ==> b == a
            &&& sp[i].len() > 0 ==> b == a.push(sp[i]) && a.len() < segs.len() && segs[a.len() as int] == sp[i]
        }),
{
    assert(sp.take(i + 1).drop_last() =~= sp.take(i));
    assert(sp.take(i + 1).last() == sp[i]);
    lemma_nonempty_prefix(sp, i + 1);
    let a = crate::dav::nonempty_pieces(sp.take(i));
    let b = crate::dav::nonempty_pieces(sp.take(i + 1));
    let segs = crate::dav::nonempty_pieces(sp);
    if sp[i].len() > 0 {
        assert(segs.take(b.len() as int)[a.len() as int] == b[a.len() as int]);
    }
}

/// A chain extended by one more step.
proof fn lemma_chain_push(m: Map<u64, VfsNode>, segs: Seq<Seq<char>>, chain: Seq<u64>, next: u64)
    requires
        is_cli_chain(m, segs, chain),
        chain.len() <= segs.len(),
        cli_step(m, chain.last(), segs[chain.len() - 1], next),
    ensures
        is_cli_chain(m, segs, chain.push(next)),
        chain.push(next)[0] == chain[0],
{
    let c2 = chain.push(next);
    assert forall|i: int| 0 <= i < c2.len() - 1 implies cli_step(m, #[trigger] c2[i], segs[i], c2[i + 1]) by {
        if i < chain.len() - 1 {
            assert(c2[i] == chain[i] && c2[i + 1] == chain[i + 1]);
        }
    }
}

/// The non-empty pieces of a prefix are a prefix of the non-empty pieces.
proof fn lemma_nonempty_prefix(sp: Seq<Seq<char>>, i: int)
    requires
        0 <= i <= sp.len(),
    ensures
        crate::dav::nonempty_pieces(sp.take(i)).len() <= crate::dav::nonempty_pieces(sp).len(),
        crate::dav::nonempty_pieces(sp).take(crate::dav::nonempty_pieces(sp.take(i)).len() as int)
            == crate::dav::nonempty_pieces(sp.take(i)),
    decreases sp.len() - i,
{
    if i < sp.len() {
        lemma_nonempty_prefix(sp, i + 1);
        assert(sp.take(i + 1).drop_last() =~= sp.take(i));
        let a = crate::dav::nonempty_pieces(sp.take(i));
        let b = crate::dav::nonempty_pieces(sp.take(i + 1));
        let all = crate::dav::nonempty_pieces(sp);
        assert(all.take(b.len() as int).take(a.len() as int) =~= all.take(a.len() as int));
        assert(b.take(a.len() as int) =~= a);
    } else {
        assert(sp.take(i) =~= sp);
        let all = crate::dav::nonempty_pieces(sp);
        assert(all.take(all.len() as int) =~= all);
    }
}

// ----------------------------------------------------------------------
// Command-line arguments
// ----------------------------------------------------------------------

/// Splits the arguments of a copy-like command: with more than one, the
/// last is the destination; else the destination is the working folder.
pub fn split_destination(args: Vec<String>) -> (r: (Vec<String>, String))
    ensures
        args@.len() > 1 ==> r.0@ == args@.drop_last() && r.1 == args@.last(),
        args@.len() <= 1 ==> r.0@ == args@ && r.1@ == "."@,
{
    let mut args = args;
    if args.len() > 1 {
        let last = args.pop().unwrap();
        (args, last)
    } else {
        (args, ".".to_string())
    }
}

/// A path with its leading `~` (alone, or before `/`) replaced by the home
/// folder; others unchanged.
pub open spec fn expand_home_spec(path: Seq<char>, home: Seq<char>) -> Seq<char> {
    if path == seq!['~'] || (path.len() >= 2 && path[0] == '~' && path[1] == '/') {
        home + path.skip(1)
    } else {
        path
    }
}

pub fn expand_home(path: &str, home: &str) -> (r: String)
    ensures
        r@ == expand_home_spec(path@, home@),
{
    let pc = chars_of(path);
    let tilde = pc.len() == 1 && pc[0] == '~';
    let tilde_slash = pc.len() >= 2 && pc[0] == '~' && pc[1] == '/';
    proof {
        if pc@.len() == 1 && pc@[0] == '~' {
            assert(pc@ =~= seq!['~']);
        }
    }
    if tilde || tilde_slash {
        let mut out = chars_of(home);
        let rest = crate::text::slice_chars(pc.as_slice(), 1, pc.len());
        push_all(&mut out, rest.as_slice());
        string_from_chars(out.as_slice())
    } else {
        path.to_string()
    }
}

// ----------------------------------------------------------------------
// Every file below a folder
// ----------------------------------------------------------------------

/// A listed file as plain values: id, name, size and relative path.
pub open spec fn flat_view(f: FlatFile) -> (u64, Seq<char>, Seq<char>, Seq<char>) {
    (f.id, f.name@, f.size@, f.rel_path@)
}

pub open spec fn flat_views(v: Seq<FlatFile>) -> Seq<(u64, Seq<char>, Seq<char>, Seq<char>)> {
    v.map_values(|f: FlatFile| flat_view(f))
}

/// The path of a child named `name` below `path`.
pub open spec fn child_path(path: Seq<char>, name: Seq<char>) -> Seq<char> {
    if path.len() == 0 {
        name
    } else {
        path + seq!['/'] + name
    }
}

/// The files below folder `pid`, walking the table's keys from the `i`-th
/// in the order `ks`: each file of `pid` with its path, each folder of `pid`
/// in its place by the files below it, up to `fuel` folders deep.
pub open spec fn flat_level(
    m: Map<u64, VfsNode>,
    ks: Seq<u64>,
    pid: u64,
    path: Seq<char>,
    fuel: nat,
    i: nat,
) -> Seq<(u64, Seq<char>, Seq<char>, Seq<char>)>
    decreases fuel, ks.len() - i,
{
    if i >= ks.len() || fuel == 0 {
        Seq::empty()
    } else {
        let n = m[ks[i as int]];
        let here = if n.pid == pid {
            let p = child_path(path, n.name@);
            if n.node_type == crate::vfs::NodeType::File {
                seq![(n.id, n.name@, n.size@, p)]
            } else {
                flat_level(m, ks, n.id, p, (fuel - 1) as nat, 0)
            }
        } else {
            Seq::empty()
        };
        here + flat_level(m, ks, pid, path, fuel, i + 1)
    }
}

fn child_path_chars(path: &Vec<char>, name: &str) -> (r: Vec<char>)
    ensures
        r@ == child_path(path@, name@),
{
    let mut out: Vec<char> = Vec::new();
    push_all(&mut out, path.as_slice());
    if path.len() > 0 {
        out.push('/');
    }
    push_str_chars(&mut out, name);
    proof {
        if path@.len() == 0 {
            assert(out@ =~= name@);
        } else {
            assert(out@ =~= path@ + seq!['/'] + name@);
        }
    }
    out
}

fn flatten_from(
    es: &Vec<(u64, VfsNode)>,
    pid: u64,
    path: &Vec<char>,
    fuel: u64,
    out: &mut Vec<FlatFile>,
    Ghost(m): Ghost<Map<u64, VfsNode>>,
)
    requires
        is_entry_list(es@, m),
    ensures
        flat_views(final(out)@) == flat_views(old(out)@) + flat_level(m, entry_keys(es@), pid, path@, fuel as nat, 0),
    decreases fuel,
{
    let ghost ks = entry_keys(es@);
    if fuel == 0 {
        proof {
            assert(flat_views(out@) =~= flat_views(old(out)@) + flat_level(m, ks, pid, path@, fuel as nat, 0));
        }
        return;
    }
    let mut i: usize = 0;
    while i < es.len()
        invariant
            i <= es@.len(),
            fuel > 0,
            is_entry_list(es@, m),
            ks == entry_keys(es@),
            flat_views(out@) + flat_level(m, ks, pid, path@, fuel as nat, i as nat) == flat_views(old(out)@)
                + flat_level(m, ks, pid, path@, fuel as nat, 0),
        decreases es.len() - i,
    {
        let e = &es[i];
        let ghost before = flat_views(out@);
        proof {
            assert(e.1 == m[ks[i as int]]);
            assert(ks[i as int] == e.0);
        }
        if e.1.pid == pid {
            let p = child_path_chars(path, e.1.name.as_str());
            match e.1.node_type {
                crate::vfs::NodeType::File => {
                    out.push(FlatFile {
                        id: e.1.id,
                        name: e.1.name.clone(),
                        size: e.1.size.clone(),
                        rel_path: string_from_chars(p.as_slice()),
                    });
                    proof {
                        assert(flat_views(out@) =~= before + seq![(e.1.id, e.1.name@, e.1.size@, p@)]);
                    }
                },
                crate::vfs::NodeType::Directory => {
                    flatten_from(es, e.1.id, &p, fuel - 1, out, Ghost(m));
                },
            }
        }
        proof {
            assert(flat_level(m, ks, pid, path@, fuel as nat, i as nat) == ({
                let n = m[ks[i as int]];
                let here = if n.pid == pid {
                    let p = child_path(path@, n.name@);
                    if n.node_type == crate::vfs::NodeType::File {
                        seq![(n.id, n.name@, n.size@, p)]
                    } else {
                        flat_level(m, ks, n.id, p, (fuel - 1) as nat, 0)
                    }
                } else {
                    Seq::empty()
                };
                here + flat_level(m, ks, pid, path@, fuel as nat, (i + 1) as nat)
            }));
            assert(flat_views(out@) + flat_level(m, ks, pid, path@, fuel as nat, (i + 1) as nat) =~= before
                + flat_level(m, ks, pid, path@, fuel as nat, i as nat));
        }
        i = i + 1;
    }
    proof {
        assert(flat_level(m, ks, pid, path@, fuel as nat, i as nat) =~= Seq::empty());
        assert(flat_views(out@) =~= flat_views(old(out)@) + flat_level(m, ks, pid, path@, fuel as nat, 0));
    }
}

/// Appends to `out` every file below folder `pid`, with its path below it
/// (starting from `current_path`), folders in table order. The walk goes
/// at most as many folders deep as the table has nodes, which is deep
/// enough for any tree without a cycle of parents.
pub fn flatten_tree(tree: &VfsTree, pid: u64, current_path: String, out: &mut Vec<FlatFile>)
    ensures
        exists|ks: Seq<u64>|
            crate::tsv::is_key_order(ks, tree.nodes@) && flat_views(final(out)@) == flat_views(old(out)@)
                + #[trigger] flat_level(tree.nodes@, ks, pid, current_path@, tree.nodes@.len(), 0),
{
    let es = tree.entries();
    let path = chars_of(current_path.as_str());
    let n = tree.nodes.len();
    let fuel: u64 = n as u64;
    proof {
        assert(crate::tsv::is_key_order(entry_keys(es@), tree.nodes@)) by {
            assert(entry_keys(es@).no_duplicates());
        }
    }
    flatten_from(&es, pid, &path, fuel, out, Ghost(tree.nodes@));
    proof {
        assert(fuel as nat == tree.nodes@.len());
    }
}

/// Every file below node `id`, its paths starting with the node's name;
/// nothing when the tree does not hold it.
pub fn folder_tree(tree: &VfsTree, id: u64) -> (r: Vec<FlatFile>)
    ensures
        !tree.nodes@.contains_key(id) ==> r@.len() == 0,
        tree.nodes@.contains_key(id) ==> exists|ks: Seq<u64>|
            crate::tsv::is_key_order(ks, tree.nodes@) && flat_views(r@) == #[trigger] flat_level(
                tree.nodes@,
                ks,
                id,
                tree.nodes@[id].name@,
                tree.nodes@.len(),
                0,
            ),
{
    let mut out: Vec<FlatFile> = Vec::new();
    match tree.nodes.get(&id) {
        Some(n) => {
            let name = n.name.clone();
            flatten_tree(tree, id, name, &mut out);
            proof {
                let ks = choose|ks: Seq<u64>|
                    crate::tsv::is_key_order(ks, tree.nodes@) && flat_views(out@) == flat_views(Seq::<FlatFile>::empty())
                        + #[trigger] flat_level(tree.nodes@, ks, id, tree.nodes@[id].name@, tree.nodes@.len(), 0);
                assert(flat_views(Seq::<FlatFile>::empty()) =~= Seq::empty());
                assert(flat_views(out@) =~= flat_level(tree.nodes@, ks, id, tree.nodes@[id].name@, tree.nodes@.len(), 0));
            }
        },
        None => {},
    }
    out
}

// ----------------------------------------------------------------------
// Checking that climbs end
// ----------------------------------------------------------------------

/// Whether climbing from `c` through parents leaves the table within as
/// many steps as it has nodes; when it does, the climb ends.
pub fn climb_leaves_table(tree: &VfsTree, c: u64) -> (r: bool)
    ensures
        r == leaves_table(tree.nodes@, c, tree.nodes@.len()),
        r ==> exists|n: nat| leaves_table(tree.nodes@, c, n),
{
    let ghost m = tree.nodes@;
    let limit = tree.nodes.len();
    let mut cur = c;
    let mut steps: usize = 0;
    while steps < limit
        invariant
            m == tree.nodes@,
            limit == m.len(),
            steps <= limit,
            leaves_table(m, c, limit as nat) == leaves_table(m, cur, (limit - steps) as nat),
        decreases limit - steps,
    {
        match tree.nodes.get(&cur) {
            None => {
                return true;
            },
            Some(node) => {
                let next = node.pid;
                proof {
                    assert(m.contains_key(cur) && m[cur].pid == next);
                    assert(leaves_table(m, cur, (limit - steps) as nat) == leaves_table(
                        m,
                        next,
                        (limit - steps - 1) as nat,
                    ));
                }
                cur = next;
                steps = steps + 1;
            },
        }
    }
    !tree.nodes.contains_key(&cur)
}

/// Whether climbing from `c` reaches the root or a missing node within as
/// many steps as the table has nodes; when it does, the climb ends.
pub fn climb_reaches_root(tree: &VfsTree, c: u64) -> (r: bool)
    ensures
        r == climbs_out(tree.nodes@, c, tree.nodes@.len()),
        r ==> exists|n: nat| climbs_out(tree.nodes@, c, n),
{
    let ghost m = tree.nodes@;
    let limit = tree.nodes.len();
    let mut cur = c;
    let mut steps: usize = 0;
    while steps < limit
        invariant
            m == tree.nodes@,
            limit == m.len(),
            steps <= limit,
            climbs_out(m, c, limit as nat) == climbs_out(m, cur, (limit - steps) as nat),
        decreases limit - steps,
    {
        if cur == 0 {
            return true;
        }
        match tree.nodes.get(&cur) {
            None => {
                return true;
            },
            Some(node) => {
                let next = node.pid;
                proof {
                    assert(m.contains_key(cur) && m[cur].pid == next);
                    assert(climbs_out(m, cur, (limit - steps) as nat) == climbs_out(
                        m,
                        next,
                        (limit - steps - 1) as nat,
                    ));
                }
                cur = next;
                steps = steps + 1;
            },
        }
    }
    cur == 0 || !tree.nodes.contains_key(&cur)
}

/// Every node's climb from its parent leaves the table within as many
/// steps as the table has nodes.
pub open spec fn parents_leave_within(m: Map<u64, VfsNode>) -> bool {
    forall|k: u64| #[trigger] m.contains_key(k) ==> leaves_table(m, m[k].pid, m.len())
}

/// Whether every node's climb from its parent leaves the table within as
/// many steps as it has nodes, as the search needs.
pub fn all_parents_leave(tree: &VfsTree) -> (r: bool)
    ensures
        r == parents_leave_within(tree.nodes@),
        r ==> parents_leave(tree.nodes@),
{
    let ghost m = tree.nodes@;
    let es = tree.entries();
    let mut i: usize = 0;
    while i < es.len()
        invariant
            i <= es@.len(),
            m == tree.nodes@,
            is_entry_list(es@, m),
            forall|j: int| 0 <= j < i ==> leaves_table(m, m[(#[trigger] es@[j]).0].pid, m.len()),
        decreases es.len() - i,
    {
        proof {
            assert(es@[i as int].1 == m[es@[i as int].0]);
            assert(entry_keys(es@)[i as int] == es@[i as int].0);
            assert(entry_keys(es@).contains(es@[i as int].0));
        }
        if !climb_leaves_table(tree, es[i].1.pid) {
            proof {
                assert(m.contains_key(es@[i as int].0));
            }
            return false;
        }
        i = i + 1;
    }
    proof {
        assert forall|k: u64| #[trigger] m.contains_key(k) implies leaves_table(m, m[k].pid, m.len()) by {
            assert(entry_keys(es@).contains(k));
            let j = choose|j: int| 0 <= j < entry_keys(es@).len() && entry_keys(es@)[j] == k;
            assert(es@[j].0 == k);
        }
    }
    true
}

/// The group id of the files of a dropped folder: `g_{millis}_{folder}`.
pub fn drop_group_id(millis: u64, folder_pid: u64) -> (r: String)
    ensures
        r@ == "g_"@ + crate::text::decimal(millis as nat) + seq!['_'] + crate::text::decimal(folder_pid as nat),
{
    let mut out = chars_of("g_");
    crate::text::push_decimal(&mut out, millis);
    out.push('_');
    crate::text::push_decimal(&mut out, folder_pid);
    string_from_chars(out.as_slice())
}

} // verus!
