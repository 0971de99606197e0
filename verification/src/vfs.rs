//! The virtual file system: a flat table of nodes keyed by id, each naming
//! its parent by id (0 is the root). Deleting leaves tombstones so that two
//! copies of the table can be merged node by node, the later write winning.
use vstd::prelude::*;
use std::collections::HashMap;
use std::path::PathBuf;
use vstd::std_specs::iter::IteratorSpec;
use crate::order::{lex_le, lemma_lex_total, lemma_lex_trans, str_le};
use crate::text::{chars_of, decimal, decimal_chars, str_eq, string_from_chars};
use crate::external::{lowercase, unicode_lowercase};

verus! {

broadcast use vstd::std_specs::hash::group_hash_axioms;

#[verifier::external_type_specification]
#[verifier::external_body]
pub struct ExPathBuf(PathBuf);

/// `PathBuf::clone`: a copy of the same path.
#[verifier::external_body]
fn clone_path(p: &PathBuf) -> (r: PathBuf)
    ensures
        r == *p,
{
    p.clone()
}

#[derive(Debug, Clone, Copy, PartialEq, Eq, Structural)]
pub enum NodeType {
    Directory,
    File,
}

impl NodeType {
    /// The type coded by a row's first field: `D` is a directory, anything else a file.
    pub fn from_str(s: &str) -> (r: NodeType)
        ensures
            r == (if s@ == seq!['D'] {
                NodeType::Directory
            } else {
                NodeType::File
            }),
    {
        let cs = chars_of(s);
        if cs.len() == 1 && cs[0] == 'D' {
            proof {
                assert(s@ =~= seq!['D']);
            }
            NodeType::Directory
        } else {
            proof {
                if s@ == seq!['D'] {
                    assert(cs@.len() == 1);
                }
            }
            NodeType::File
        }
    }

    /// The one-letter code of the type.
    pub fn as_str(&self) -> (r: &'static str)
        ensures
            r@ == node_type_code(*self),
    {
        match self {
            NodeType::Directory => {
                let r = "D";
                proof {
                    reveal_strlit("D");
                }
                r
            },
            NodeType::File => {
                let r = "F";
                proof {
                    reveal_strlit("F");
                }
                r
            },
        }
    }
}

pub open spec fn node_type_code(t: NodeType) -> Seq<char> {
    match t {
        NodeType::Directory => seq!['D'],
        NodeType::File => seq!['F'],
    }
}

#[derive(Debug, Clone)]
pub struct VfsNode {
    pub node_type: NodeType,
    pub id: u64,
    pub pid: u64,
    pub name: String,
    pub lanzou_id: String,
    pub time: u64,
    pub size: String,
    pub md5: String,
    pub ext: String,
    pub chunks: String,
    pub is_trashed: bool,
    pub is_deleted: bool,
}

impl VfsNode {
    /// A field-by-field copy.
    pub fn duplicate(&self) -> (r: VfsNode)
        ensures
            r == *self,
    {
        VfsNode {
            node_type: self.node_type,
            id: self.id,
            pid: self.pid,
            name: self.name.clone(),
            lanzou_id: self.lanzou_id.clone(),
            time: self.time,
            size: self.size.clone(),
            md5: self.md5.clone(),
            ext: self.ext.clone(),
            chunks: self.chunks.clone(),
            is_trashed: self.is_trashed,
            is_deleted: self.is_deleted,
        }
    }
}

pub struct VfsTree {
    pub last_modified: u64,
    pub root_lanzou_id: String,
    pub deeperdir_lanzou_id: String,
    pub nodes: HashMap<u64, VfsNode>,
    pub next_id: u64,
    pub file_path: PathBuf,
}

// ----------------------------------------------------------------------
// Specifications
// ----------------------------------------------------------------------

/// The ids of the nodes whose parent lies in `parents`.
pub open spec fn children_of(m: Map<u64, VfsNode>, parents: Set<u64>) -> Set<u64> {
    Set::new(|c: u64| exists|k: u64| #[trigger] m.contains_key(k) && parents.contains(m[k].pid) && m[k].id == c)
}

/// The ids within `n` generations below `target` (and `target` itself).
pub open spec fn generations(m: Map<u64, VfsNode>, target: u64, n: nat) -> Set<u64>
    decreases n,
{
    if n == 0 {
        set![target]
    } else {
        let r = generations(m, target, (n - 1) as nat);
        r.union(children_of(m, r))
    }
}

/// `x` is `target` or lies, at any depth, below it.
pub open spec fn in_subtree(m: Map<u64, VfsNode>, target: u64, x: u64) -> bool {
    exists|n: nat| #[trigger] generations(m, target, n).contains(x)
}

/// The node after a tombstoning at time `now`.
pub open spec fn tombstoned(n: VfsNode, now: u64) -> VfsNode {
    VfsNode { is_deleted: true, time: now, ..n }
}

/// The nodes of `m` at the keys `ks`, in order.
pub open spec fn nodes_at(m: Map<u64, VfsNode>, ks: Seq<u64>) -> Seq<VfsNode> {
    ks.map_values(|k: u64| m[k])
}

/// The nodes that `r` lists, with multiplicity, are the values of `m` at the
/// keys that `keep` accepts, each once.
pub open spec fn is_selection(r: Seq<VfsNode>, m: Map<u64, VfsNode>, keep: spec_fn(VfsNode) -> bool) -> bool {
    exists|ks: Seq<u64>|
        #![trigger nodes_at(m, ks)]
        ks.no_duplicates() && (forall|k: u64| ks.contains(k) <==> (m.contains_key(k) && keep(m[k])))
            && r.to_multiset() == nodes_at(m, ks).to_multiset()
}

/// The listing order: folders before files, then by name.
pub open spec fn listing_le(a: VfsNode, b: VfsNode) -> bool {
    if a.node_type != b.node_type {
        a.node_type == NodeType::Directory
    } else {
        lex_le(a.name@, b.name@)
    }
}

/// Ascending by id.
pub open spec fn id_le(a: VfsNode, b: VfsNode) -> bool {
    a.id <= b.id
}

pub enum SortKey {
    Listing,
    Id,
}

pub open spec fn key_le(key: SortKey, a: VfsNode, b: VfsNode) -> bool {
    match key {
        SortKey::Listing => listing_le(a, b),
        SortKey::Id => id_le(a, b),
    }
}

pub open spec fn sorted_by(s: Seq<VfsNode>, key: SortKey) -> bool {
    forall|i: int, j: int| 0 <= i < j < s.len() ==> key_le(key, #[trigger] s[i], #[trigger] s[j])
}

/// A child of `pid` that is not tombstoned and, when `skip_trashed` holds,
/// not in the recycle bin.
pub open spec fn child_filter(pid: u64, skip_trashed: bool) -> spec_fn(VfsNode) -> bool {
    |n: VfsNode| n.pid == pid && !n.is_deleted && !(skip_trashed && n.is_trashed)
}

pub open spec fn listed_in(pid: u64) -> spec_fn(VfsNode) -> bool {
    |n: VfsNode| n.pid == pid && !n.is_deleted
}

/// The text of a file's chunk count as it is stored: the count when above
/// one, else `1`.
pub open spec fn chunk_text(chunks: u32) -> Seq<char> {
    if chunks > 1 {
        decimal(chunks as nat)
    } else {
        seq!['1']
    }
}

/// The node a merge takes for `k`: the local one when it is strictly newer,
/// else the cloud one.
pub open spec fn newer_of(local: Map<u64, VfsNode>, cloud: Map<u64, VfsNode>, k: u64) -> VfsNode {
    if local.contains_key(k) && cloud.contains_key(k) {
        if local[k].time > cloud[k].time {
            local[k]
        } else {
            cloud[k]
        }
    } else if local.contains_key(k) {
        local[k]
    } else {
        cloud[k]
    }
}

/// Phase one of a merge: every node of either side, the later write winning.
pub open spec fn merged_nodes(local: Map<u64, VfsNode>, cloud: Map<u64, VfsNode>) -> Map<u64, VfsNode> {
    Map::new(
        |k: u64| local.contains_key(k) || cloud.contains_key(k),
        |k: u64| newer_of(local, cloud, k),
    )
}

/// A live node below the root whose parent is missing or tombstoned.
pub open spec fn is_orphan(m: Map<u64, VfsNode>, n: VfsNode) -> bool {
    n.pid != 0 && !n.is_deleted && !(m.contains_key(n.pid) && !m[n.pid].is_deleted)
}

/// Phase two of a merge: orphans are moved to the root, stamped `now`.
pub open spec fn rescued(m: Map<u64, VfsNode>, now: u64) -> Map<u64, VfsNode> {
    Map::new(
        |k: u64| m.contains_key(k),
        |k: u64|
            if is_orphan(m, m[k]) {
                VfsNode { pid: 0, time: now, ..m[k] }
            } else {
                m[k]
            },
    )
}

pub open spec fn merge_spec(local: Map<u64, VfsNode>, cloud: Map<u64, VfsNode>, now: u64) -> Map<u64, VfsNode> {
    rescued(merged_nodes(local, cloud), now)
}

// ----------------------------------------------------------------------
// Lemmas
// ----------------------------------------------------------------------

pub proof fn lemma_key_le_total(key: SortKey, a: VfsNode, b: VfsNode)
    ensures
        key_le(key, a, b) || key_le(key, b, a),
{
    lemma_lex_total(a.name@, b.name@);
}

pub proof fn lemma_key_le_trans(key: SortKey, a: VfsNode, b: VfsNode, c: VfsNode)
    requires
        key_le(key, a, b),
        key_le(key, b, c),
    ensures
        key_le(key, a, c),
{
    match key {
        SortKey::Listing => {
            if a.node_type == b.node_type && b.node_type == c.node_type {
                lemma_lex_trans(a.name@, b.name@, c.name@);
            }
        },
        SortKey::Id => {},
    }
}

/// A sequence without repeats, drawn from `extra` and the ids of `m`'s nodes,
/// is at most one longer than `m`.
proof fn lemma_id_seq_bound(m: Map<u64, VfsNode>, s: Seq<u64>, extra: u64)
    requires
        m.dom().finite(),
        s.no_duplicates(),
        forall|i: int|
            0 <= i < s.len() ==> s[i] == extra || exists|k: u64| #[trigger]
                m.contains_key(k) && m[k].id == s[i],
    ensures
        s.len() <= m.dom().len() + 1,
{
    let f = |k: u64| m[k].id;
    let img = m.dom().map(f);
    vstd::set_lib::lemma_map_size_bound(m.dom(), img, f);
    let all = img.insert(extra);
    assert(s.to_set().subset_of(all)) by {
        assert forall|x: u64| s.to_set().contains(x) implies all.contains(x) by {
            let i = choose|i: int| 0 <= i < s.len() && s[i] == x;
            if x != extra {
                let k = choose|k: u64| #[trigger] m.contains_key(k) && m[k].id == s[i];
                assert(img.contains(f(k)));
            }
        }
    }
    vstd::set_lib::lemma_len_subset(s.to_set(), all);
    s.unique_seq_to_set();
}

proof fn lemma_generations_monotone(m: Map<u64, VfsNode>, target: u64, a: nat, b: nat)
    requires
        a <= b,
    ensures
        generations(m, target, a).subset_of(generations(m, target, b)),
    decreases b - a,
{
    if a < b {
        lemma_generations_monotone(m, target, a, (b - 1) as nat);
    }
}

// ----------------------------------------------------------------------
// Operations
// ----------------------------------------------------------------------

/// Inserts `x` into the sorted `v` after every entry that is not above it.
fn insert_sorted(v: &mut Vec<VfsNode>, x: VfsNode, key: &SortKey)
    requires
        sorted_by(old(v)@, *key),
    ensures
        sorted_by(final(v)@, *key),
        final(v)@.to_multiset() == old(v)@.to_multiset().insert(x),
{
    let mut p: usize = 0;
    while p < v.len() && node_key_le(key, &v[p], &x)
        invariant
            p <= v.len(),
            v@ == old(v)@,
            forall|i: int| 0 <= i < p ==> key_le(*key, #[trigger] v@[i], x),
        decreases v.len() - p,
    {
        p = p + 1;
    }
    let ghost before = v@;
    proof {
        if p < before.len() {
            lemma_key_le_total(*key, before[p as int], x);
        }
    }
    let xx = x.duplicate();
    v.insert(p, xx);
    proof {
        let after = v@;
        assert(after =~= before.insert(p as int, x));
        assert forall|i: int, j: int| 0 <= i < j < after.len() implies key_le(
            *key,
            #[trigger] after[i],
            #[trigger] after[j],
        ) by {
            if j < p {
                assert(after[i] == before[i] && after[j] == before[j]);
            } else if j == p {
                assert(after[i] == before[i]);
            } else if i == p {
                assert(after[j] == before[j - 1]);
                if j - 1 > p {
                    assert(key_le(*key, before[p as int], before[j - 1]));
                    lemma_key_le_trans(*key, x, before[p as int], before[j - 1]);
                }
            } else if i < p {
                assert(after[i] == before[i] && after[j] == before[j - 1]);
            } else {
                assert(after[i] == before[i - 1] && after[j] == before[j - 1]);
            }
        }
        assert(after.remove(p as int) =~= before);
        broadcast use vstd::seq_lib::group_to_multiset_ensures;

        assert(after.to_multiset().count(x) > 0) by {
            assert(after[p as int] == x);
            assert(after.contains(x));
        }
        assert(after.to_multiset() =~= before.to_multiset().insert(x)) by {
            assert(before.to_multiset() == after.to_multiset().remove(x));
        }
    }
}

fn node_key_le(key: &SortKey, a: &VfsNode, b: &VfsNode) -> (r: bool)
    ensures
        r == key_le(*key, *a, *b),
{
    match key {
        SortKey::Listing => {
            if a.node_type != b.node_type {
                a.node_type == NodeType::Directory
            } else {
                str_le(a.name.as_str(), b.name.as_str())
            }
        },
        SortKey::Id => a.id <= b.id,
    }
}

/// Sorts `v` stably by `key`.
pub fn sort_nodes(v: Vec<VfsNode>, key: SortKey) -> (r: Vec<VfsNode>)
    ensures
        sorted_by(r@, key),
        r@.to_multiset() == v@.to_multiset(),
{
    let mut out: Vec<VfsNode> = Vec::new();
    let mut i: usize = 0;
    proof {
        broadcast use vstd::seq_lib::group_to_multiset_ensures;

        assert(v@.take(0) =~= Seq::<VfsNode>::empty());
    }
    while i < v.len()
        invariant
            i <= v.len(),
            sorted_by(out@, key),
            out@.to_multiset() == v@.take(i as int).to_multiset(),
        decreases v.len() - i,
    {
        let x = v[i].duplicate();
        insert_sorted(&mut out, x, &key);
        proof {
            broadcast use vstd::seq_lib::group_to_multiset_ensures;

            assert(v@.take(i + 1) =~= v@.take(i as int).push(v@[i as int]));
        }
        i = i + 1;
    }
    proof {
        assert(v@.take(i as int) =~= v@);
    }
    out
}

/// A node that sits in the recycle bin: trashed, not tombstoned.
pub open spec fn in_bin() -> spec_fn(VfsNode) -> bool {
    |n: VfsNode| n.is_trashed && !n.is_deleted
}

/// Which nodes a selection keeps.
#[derive(Clone, Copy)]
pub enum NodeFilter {
    Children { pid: u64, skip_trashed: bool },
    Bin,
}

pub open spec fn filter_of(f: NodeFilter) -> spec_fn(VfsNode) -> bool {
    match f {
        NodeFilter::Children { pid, skip_trashed } => child_filter(pid, skip_trashed),
        NodeFilter::Bin => in_bin(),
    }
}

fn passes(f: NodeFilter, n: &VfsNode) -> (r: bool)
    ensures
        r == filter_of(f)(*n),
{
    match f {
        NodeFilter::Children { pid, skip_trashed } => n.pid == pid && !n.is_deleted && !(skip_trashed && n.is_trashed),
        NodeFilter::Bin => n.is_trashed && !n.is_deleted,
    }
}

pub open spec fn entry_keys(r: Seq<(u64, VfsNode)>) -> Seq<u64> {
    r.map_values(|e: (u64, VfsNode)| e.0)
}

/// The entries of the table: each key once, with its node.
pub open spec fn is_entry_list(r: Seq<(u64, VfsNode)>, m: Map<u64, VfsNode>) -> bool {
    &&& entry_keys(r).no_duplicates()
    &&& forall|k: u64| entry_keys(r).contains(k) <==> m.contains_key(k)
    &&& forall|i: int| 0 <= i < r.len() ==> (#[trigger] r[i]).1 == m[r[i].0]
}

impl VfsTree {
    /// A fresh, empty tree.
    pub fn new(root_lanzou_id: String, deeperdir_lanzou_id: String, file_path: PathBuf) -> (r:
        Self)
        ensures
            r.last_modified == 0,
            r.root_lanzou_id == root_lanzou_id,
            r.deeperdir_lanzou_id == deeperdir_lanzou_id,
            r.nodes@ == Map::<u64, VfsNode>::empty(),
            r.next_id == 1,
            r.file_path == file_path,
    {
        VfsTree {
            last_modified: 0,
            root_lanzou_id,
            deeperdir_lanzou_id,
            nodes: HashMap::new(),
            next_id: 1,
            file_path,
        }
    }

    /// Stamps the tree as modified at `now`.
    pub fn touch(&mut self, now: u64)
        ensures
            final(self).last_modified == now,
            final(self).nodes@ == old(self).nodes@,
            final(self).next_id == old(self).next_id,
            final(self).root_lanzou_id == old(self).root_lanzou_id,
            final(self).deeperdir_lanzou_id == old(self).deeperdir_lanzou_id,
            final(self).file_path == old(self).file_path,
    {
        self.last_modified = now;
    }

    /// Takes `deeperdir_lanzou_id` as the overflow folder when the tree
    /// has none yet (a tree saved before it had one); says whether it did.
    pub fn adopt_overflow(&mut self, deeperdir_lanzou_id: String) -> (r: bool)
        ensures
            r == (old(self).deeperdir_lanzou_id@.len() == 0),
            final(self).deeperdir_lanzou_id@ == (if r {
                deeperdir_lanzou_id@
            } else {
                old(self).deeperdir_lanzou_id@
            }),
            final(self).last_modified == old(self).last_modified,
            final(self).nodes@ == old(self).nodes@,
            final(self).next_id == old(self).next_id,
            final(self).root_lanzou_id == old(self).root_lanzou_id,
    {
        if chars_of(self.deeperdir_lanzou_id.as_str()).len() == 0 {
            self.deeperdir_lanzou_id = deeperdir_lanzou_id;
            true
        } else {
            false
        }
    }

    /// Every key of the table with its node, in the table's own order.
    pub fn entries(&self) -> (r: Vec<(u64, VfsNode)>)
        ensures
            is_entry_list(r@, self.nodes@),
    {
        let mut out: Vec<(u64, VfsNode)> = Vec::new();
        let ghost s = self.nodes.iter().remaining();
        let ghost m = self.nodes@;
        for (k, v) in it: self.nodes.iter()
            invariant
                it.seq() == s,
                m == self.nodes@,
                out@.len() == it.index(),
                forall|i: int| 0 <= i < it.index() ==> (#[trigger] out@[i]).0 == *it.seq()[i].0,
                forall|i: int| 0 <= i < it.index() ==> (#[trigger] out@[i]).1 == *it.seq()[i].1,
        {
            let kk: u64 = *k;
            let vv = v.duplicate();
            out.push((kk, vv));
        }
        proof {
            let ks = entry_keys(out@);
            assert(s.len() == m.dom().len());
            assert(out@.len() == s.len());
            assert forall|i: int| 0 <= i < out@.len() implies (#[trigger] out@[i]).1 == m[out@[i].0] by {
                assert(m.contains_key(*s[i].0) && m[*s[i].0] == *s[i].1);
            }
            assert forall|i: int, j: int| 0 <= i < j < ks.len() implies ks[i] != ks[j] by {
                if ks[i] == ks[j] {
                    assert(*s[i].0 == *s[j].0);
                    assert(m.contains_key(*s[i].0) && m[*s[i].0] == *s[i].1);
                    assert(m.contains_key(*s[j].0) && m[*s[j].0] == *s[j].1);
                    assert(s[i] == s[j]);
                }
            }
            assert forall|k: u64| ks.contains(k) <==> m.contains_key(k) by {
                if m.contains_key(k) {
                    assert(s.contains((&k, &m[k])));
                    let i = choose|i: int| 0 <= i < s.len() && s[i] == (&k, &m[k]);
                    assert(ks[i] == k);
                }
                if ks.contains(k) {
                    let i = choose|i: int| 0 <= i < ks.len() && ks[i] == k;
                    assert(m.contains_key(*s[i].0));
                }
            }
        }
        out
    }

    /// The nodes that `f` accepts, in table order.
    fn select_by(&self, f: NodeFilter) -> (r: Vec<VfsNode>)
        ensures
            is_selection(r@, self.nodes@, filter_of(f)),
    {
        let es = self.entries();
        let ghost m = self.nodes@;
        let mut picked: Vec<VfsNode> = Vec::new();
        let ghost mut ks: Seq<u64> = Seq::empty();
        let mut i: usize = 0;
        while i < es.len()
            invariant
                i <= es.len(),
                m == self.nodes@,
                is_entry_list(es@, m),
                ks.no_duplicates(),
                forall|k: u64|
                    ks.contains(k) <==> (exists|j: int|
                        0 <= j < i && (#[trigger] es@[j]).0 == k && filter_of(f)(m[k])),
                forall|k: u64| ks.contains(k) ==> m.contains_key(k),
                picked@ == nodes_at(m, ks),
            decreases es.len() - i,
        {
            let e = &es[i];
            let ghost ks0 = ks;
            proof {
                assert(entry_keys(es@)[i as int] == es@[i as int].0);
            }
            if passes(f, &e.1) {
                proof {
                    assert(!ks.contains(e.0)) by {
                        if ks.contains(e.0) {
                            let j = choose|j: int| 0 <= j < i && (#[trigger] es@[j]).0 == e.0 && filter_of(f)(m[e.0]);
                            assert(entry_keys(es@)[j] == entry_keys(es@)[i as int]);
                        }
                    }
                    assert(entry_keys(es@).contains(e.0));
                    ks = ks.push(e.0);
                }
                let n = e.1.duplicate();
                picked.push(n);
            }
            proof {
                assert(picked@ =~= nodes_at(m, ks));
                assert forall|k: u64| ks.contains(k) implies m.contains_key(k) by {
                    lemma_push_contains(ks0, e.0, k);
                    if ks.contains(k) && !ks0.contains(k) {
                        assert(entry_keys(es@).contains(e.0));
                    }
                }
                assert forall|k: u64|
                    ks.contains(k) <==> (exists|j: int|
                        0 <= j < i + 1 && (#[trigger] es@[j]).0 == k && filter_of(f)(m[k])) by {
                    lemma_push_contains(ks0, e.0, k);
                    if ks.contains(k) {
                        if ks0.contains(k) {
                            let j = choose|j: int| 0 <= j < i && (#[trigger] es@[j]).0 == k && filter_of(f)(m[k]);
                            assert(0 <= j < i + 1);
                        } else {
                            assert(es@[i as int].0 == k);
                        }
                    }
                    if exists|j: int| 0 <= j < i + 1 && (#[trigger] es@[j]).0 == k && filter_of(f)(m[k]) {
                        let j = choose|j: int| 0 <= j < i + 1 && (#[trigger] es@[j]).0 == k && filter_of(f)(m[k]);
                        if j < i {
                            assert(ks0.contains(k));
                        } else {
                            assert(es@[i as int].1 == m[k]);
                        }
                    }
                }
            }
            i = i + 1;
        }
        proof {
            assert forall|k: u64| ks.contains(k) <==> (m.contains_key(k) && filter_of(f)(m[k])) by {
                if m.contains_key(k) && filter_of(f)(m[k]) {
                    assert(entry_keys(es@).contains(k));
                    let j = choose|j: int| 0 <= j < entry_keys(es@).len() && entry_keys(es@)[j] == k;
                    assert(es@[j].0 == k);
                }
            }
        }
        proof {
            assert(is_selection(picked@, m, filter_of(f)));
        }
        picked
    }

    /// The children of folder `pid` that are not tombstoned, and, when
    /// `skip_trashed` holds, not in the recycle bin either; in table order.
    pub fn select_children(&self, pid: u64, skip_trashed: bool) -> (r: Vec<VfsNode>)
        ensures
            is_selection(r@, self.nodes@, child_filter(pid, skip_trashed)),
    {
        let r = self.select_by(NodeFilter::Children { pid, skip_trashed });
        proof {
            assert(filter_of(NodeFilter::Children { pid, skip_trashed }) =~= child_filter(pid, skip_trashed));
        }
        r
    }

    /// The contents of the recycle bin: the nodes trashed and not
    /// tombstoned, in table order.
    pub fn list_bin(&self) -> (r: Vec<VfsNode>)
        ensures
            is_selection(r@, self.nodes@, in_bin()),
    {
        let r = self.select_by(NodeFilter::Bin);
        proof {
            assert(filter_of(NodeFilter::Bin) =~= in_bin());
        }
        r
    }

    /// The live children of folder `pid` (0 = root): folders first, then files,
    /// each group by name.
    pub fn list_dir(&self, pid: u64) -> (r: Vec<VfsNode>)
        ensures
            sorted_by(r@, SortKey::Listing),
            is_selection(r@, self.nodes@, listed_in(pid)),
    {
        let picked = self.select_children(pid, false);
        let r = sort_nodes(picked, SortKey::Listing);
        proof {
            assert(listed_in(pid) =~= child_filter(pid, false));
            let m = self.nodes@;
            let ks = choose|ks: Seq<u64>|
                #![trigger nodes_at(m, ks)]
                ks.no_duplicates() && (forall|k: u64| ks.contains(k) <==> (m.contains_key(k) && child_filter(pid, false)(m[k])))
                    && picked@.to_multiset() == nodes_at(m, ks).to_multiset();
            assert(r@.to_multiset() == nodes_at(m, ks).to_multiset());
        }
        r
    }

    /// Registers a new folder under `pid`, created at `now`; returns its id.
    pub fn create_folder(&mut self, pid: u64, name: &str, lanzou_id: &str, now: u64) -> (r: u64)
        requires
            old(self).next_id < u64::MAX,
        ensures
            r == old(self).next_id,
            final(self).next_id == old(self).next_id + 1,
            final(self).nodes@ == old(self).nodes@.insert(r, VfsNode {
                node_type: NodeType::Directory,
                id: r,
                pid,
                name: final(self).nodes@[r].name,
                lanzou_id: final(self).nodes@[r].lanzou_id,
                time: now,
                size: final(self).nodes@[r].size,
                md5: final(self).nodes@[r].md5,
                ext: final(self).nodes@[r].ext,
                chunks: final(self).nodes@[r].chunks,
                is_trashed: false,
                is_deleted: false,
            }),
            final(self).nodes@[r].name@ == name@,
            final(self).nodes@[r].lanzou_id@ == lanzou_id@,
            final(self).nodes@[r].size@ == Seq::<char>::empty(),
            final(self).nodes@[r].md5@ == Seq::<char>::empty(),
            final(self).nodes@[r].ext@ == Seq::<char>::empty(),
            final(self).nodes@[r].chunks@ == Seq::<char>::empty(),
            final(self).last_modified == now,
            final(self).root_lanzou_id == old(self).root_lanzou_id,
            final(self).deeperdir_lanzou_id == old(self).deeperdir_lanzou_id,
            final(self).file_path == old(self).file_path,
    {
        let id = self.next_id;
        self.next_id = self.next_id + 1;
        let name_s = string_from_chars(chars_of(name).as_slice());
        let lid_s = string_from_chars(chars_of(lanzou_id).as_slice());
        let node = VfsNode {
            node_type: NodeType::Directory,
            id,
            pid,
            name: name_s,
            lanzou_id: lid_s,
            time: now,
            size: String::new(),
            md5: String::new(),
            ext: String::new(),
            chunks: String::new(),
            is_trashed: false,
            is_deleted: false,
        };
        self.nodes.insert(id, node);
        self.touch(now);
        id
    }

    /// Registers a new file (or chunked file) under `pid`, created at `now`;
    /// returns its id.
    pub fn add_file(
        &mut self,
        pid: u64,
        name: &str,
        lanzou_id: &str,
        size: &str,
        md5: &str,
        original_ext: &str,
        chunks: u32,
        now: u64,
    ) -> (r: u64)
        requires
            old(self).next_id < u64::MAX,
        ensures
            r == old(self).next_id,
            final(self).next_id == old(self).next_id + 1,
            final(self).nodes@ == old(self).nodes@.insert(r, VfsNode {
                node_type: NodeType::File,
                id: r,
                pid,
                name: final(self).nodes@[r].name,
                lanzou_id: final(self).nodes@[r].lanzou_id,
                time: now,
                size: final(self).nodes@[r].size,
                md5: final(self).nodes@[r].md5,
                ext: final(self).nodes@[r].ext,
                chunks: final(self).nodes@[r].chunks,
                is_trashed: false,
                is_deleted: false,
            }),
            final(self).nodes@[r].name@ == name@,
            final(self).nodes@[r].lanzou_id@ == lanzou_id@,
            final(self).nodes@[r].size@ == size@,
            final(self).nodes@[r].md5@ == md5@,
            final(self).nodes@[r].ext@ == original_ext@,
            final(self).nodes@[r].chunks@ == chunk_text(chunks),
            final(self).last_modified == now,
            final(self).root_lanzou_id == old(self).root_lanzou_id,
            final(self).deeperdir_lanzou_id == old(self).deeperdir_lanzou_id,
            final(self).file_path == old(self).file_path,
    {
        let id = self.next_id;
        self.next_id = self.next_id + 1;
        let chunk_chars = if chunks > 1 {
            decimal_chars(chunks as u64)
        } else {
            let mut one: Vec<char> = Vec::new();
            one.push('1');
            proof {
                assert(one@ =~= seq!['1']);
            }
            one
        };
        let node = VfsNode {
            node_type: NodeType::File,
            id,
            pid,
            name: string_from_chars(chars_of(name).as_slice()),
            lanzou_id: string_from_chars(chars_of(lanzou_id).as_slice()),
            time: now,
            size: string_from_chars(chars_of(size).as_slice()),
            md5: string_from_chars(chars_of(md5).as_slice()),
            ext: string_from_chars(chars_of(original_ext).as_slice()),
            chunks: string_from_chars(chunk_chars.as_slice()),
            is_trashed: false,
            is_deleted: false,
        };
        self.nodes.insert(id, node);
        self.touch(now);
        id
    }

    /// Moves node `id` under `new_pid` by rewriting its parent, stamped `now`.
    /// A folder cannot go into itself or anywhere below itself: such a move
    /// fails and leaves the tree as it was.
    pub fn move_node(&mut self, id: u64, new_pid: u64, now: u64) -> (r: Result<(), String>)
        ensures
            r is Err <==> (!old(self).nodes@.contains_key(id) || in_subtree(old(self).nodes@, id, new_pid)),
            r is Err ==> *final(self) == *old(self),
            match r {
                Err(e) => e@ == (if !old(self).nodes@.contains_key(id) {
                    "Node not found"@
                } else if id == new_pid {
                    "Cannot move a folder into itself"@
                } else {
                    "Cannot move a folder into its own subfolder"@
                }),
                Ok(_) => {
                    &&& final(self).nodes@ == old(self).nodes@.insert(
                        id,
                        VfsNode { pid: new_pid, time: now, ..old(self).nodes@[id] },
                    )
                    &&& final(self).last_modified == now
                },
            },
            final(self).next_id == old(self).next_id,
            final(self).root_lanzou_id == old(self).root_lanzou_id,
            final(self).deeperdir_lanzou_id == old(self).deeperdir_lanzou_id,
            final(self).file_path == old(self).file_path,
    {
        if !self.nodes.contains_key(&id) {
            return Err("Node not found".to_string());
        }
        if id == new_pid {
            proof {
                assert(generations(self.nodes@, id, 0).contains(id));
            }
            return Err("Cannot move a folder into itself".to_string());
        }
        let below = self.subtree_ids(id);
        if vec_contains_u64(&below, new_pid) {
            return Err("Cannot move a folder into its own subfolder".to_string());
        }
        let moved = match self.nodes.get(&id) {
            Some(n) => {
                let mut m = n.duplicate();
                m.pid = new_pid;
                m.time = now;
                m
            },
            None => {
                return Err("Node not found".to_string());
            },
        };
        self.nodes.insert(id, moved);
        self.touch(now);
        Ok(())
    }

    /// The ids of the nodes whose parent is `parent`.
    pub fn child_ids(&self, parent: u64) -> (r: Vec<u64>)
        ensures
            forall|c: u64|
                r@.contains(c) <==> exists|k: u64| #[trigger]
                    self.nodes@.contains_key(k) && self.nodes@[k].pid == parent && self.nodes@[k].id
                        == c,
    {
        let es = self.entries();
        let ghost m = self.nodes@;
        let mut out: Vec<u64> = Vec::new();
        let mut i: usize = 0;
        while i < es.len()
            invariant
                i <= es.len(),
                m == self.nodes@,
                is_entry_list(es@, m),
                forall|c: u64|
                    out@.contains(c) <==> exists|j: int|
                        0 <= j < i && (#[trigger] es@[j]).1.pid == parent && es@[j].1.id == c,
            decreases es.len() - i,
        {
            let ghost before = out@;
            if es[i].1.pid == parent {
                out.push(es[i].1.id);
            }
            proof {
                assert forall|c: u64|
                    out@.contains(c) <==> exists|j: int|
                        0 <= j < i + 1 && (#[trigger] es@[j]).1.pid == parent && es@[j].1.id
                            == c by {
                    if out@.contains(c) {
                        let t = choose|t: int| 0 <= t < out@.len() && out@[t] == c;
                        if t < before.len() {
                            assert(before.contains(c));
                        }
                    }
                    if exists|j: int|
                        0 <= j < i + 1 && (#[trigger] es@[j]).1.pid == parent && es@[j].1.id == c {
                        let j = choose|j: int|
                            0 <= j < i + 1 && (#[trigger] es@[j]).1.pid == parent && es@[j].1.id
                                == c;
                        if j < i {
                            assert(before.contains(c));
                            let t = choose|t: int| 0 <= t < before.len() && before[t] == c;
                            assert(out@[t] == c);
                        } else {
                            assert(out@[out@.len() - 1] == c);
                        }
                    }
                }
            }
            i = i + 1;
        }
        proof {
            assert forall|c: u64|
                out@.contains(c) <==> exists|k: u64| #[trigger]
                    m.contains_key(k) && m[k].pid == parent && m[k].id == c by {
                if out@.contains(c) {
                    let j = choose|j: int| 0 <= j < i && (#[trigger] es@[j]).1.pid == parent && es@[j].1.id == c;
                    let k = es@[j].0;
                    assert(entry_keys(es@)[j] == k);
                    assert(m.contains_key(k));
                }
                if exists|k: u64| #[trigger] m.contains_key(k) && m[k].pid == parent && m[k].id == c {
                    let k = choose|k: u64| #[trigger] m.contains_key(k) && m[k].pid == parent && m[k].id == c;
                    assert(entry_keys(es@).contains(k));
                    let j = choose|j: int| 0 <= j < entry_keys(es@).len() && entry_keys(es@)[j] == k;
                    assert(es@[j].0 == k);
                }
            }
        }
        out
    }

    /// The ids of `target_id` and of every node below it, each once.
    pub fn subtree_ids(&self, target_id: u64) -> (r: Vec<u64>)
        ensures
            r@.no_duplicates(),
            forall|x: u64| in_subtree(self.nodes@, target_id, x) <==> r@.contains(x),
    {
        let ghost m = self.nodes@;
        let mut to_delete: Vec<u64> = Vec::new();
        to_delete.push(target_id);
        let mut i: usize = 0;
        proof {
            assert(generations(m, target_id, 0).contains(target_id));
        }
        while i < to_delete.len()
            invariant
                m == self.nodes@,
                m.dom().finite(),
                i <= to_delete@.len(),
                to_delete@.len() >= 1,
                to_delete@[0] == target_id,
                to_delete@.no_duplicates(),
                forall|j: int| 0 <= j < to_delete@.len() ==> in_subtree(m, target_id, #[trigger] to_delete@[j]),
                forall|j: int|
                    0 <= j < to_delete@.len() ==> to_delete@[j] == target_id || exists|k: u64| #[trigger]
                        m.contains_key(k) && m[k].id == to_delete@[j],
                forall|j: int, k: u64|
                    0 <= j < i && #[trigger] m.contains_key(k) && m[k].pid == #[trigger] to_delete@[j]
                        ==> to_delete@.contains(m[k].id),
            decreases m.dom().len() + 1 - i,
        {
            proof {
                lemma_id_seq_bound(m, to_delete@, target_id);
            }
            let current = to_delete[i];
            let children = self.child_ids(current);
            let mut c: usize = 0;
            while c < children.len()
                invariant
                    m == self.nodes@,
                    i < to_delete@.len(),
                    to_delete@[i as int] == current,
                    c <= children@.len(),
                    to_delete@.len() >= 1,
                    to_delete@[0] == target_id,
                    to_delete@.no_duplicates(),
                    forall|cc: u64|
                        children@.contains(cc) <==> exists|k: u64| #[trigger]
                            m.contains_key(k) && m[k].pid == current && m[k].id == cc,
                    forall|j: int| 0 <= j < to_delete@.len() ==> in_subtree(m, target_id, #[trigger] to_delete@[j]),
                    forall|j: int|
                        0 <= j < to_delete@.len() ==> to_delete@[j] == target_id || exists|k: u64| #[trigger]
                            m.contains_key(k) && m[k].id == to_delete@[j],
                    forall|j: int, k: u64|
                        0 <= j < i && #[trigger] m.contains_key(k) && m[k].pid == #[trigger] to_delete@[j]
                            ==> to_delete@.contains(m[k].id),
                    forall|t: int| 0 <= t < c ==> to_delete@.contains(#[trigger] children@[t]),
                decreases children@.len() - c,
            {
                let child = children[c];
                proof {
                    assert(children@.contains(child));
                }
                if !crate::vfs::vec_contains_u64(&to_delete, child) {
                    let ghost before = to_delete@;
                    proof {
                        let k = choose|k: u64| #[trigger] m.contains_key(k) && m[k].pid == current && m[k].id == child;
                        let n = choose|n: nat| #[trigger] generations(m, target_id, n).contains(current);
                        assert(generations(m, target_id, n + 1).contains(child)) by {
                            assert(children_of(m, generations(m, target_id, n)).contains(child));
                        }
                        assert(in_subtree(m, target_id, child));
                    }
                    to_delete.push(child);
                    proof {
                        assert forall|j: int, k: u64|
                            0 <= j < i && #[trigger] m.contains_key(k) && m[k].pid == #[trigger] to_delete@[j]
                                ==> to_delete@.contains(m[k].id) by {
                            if 0 <= j < i && m.contains_key(k) && m[k].pid == to_delete@[j] {
                                assert(to_delete@[j] == before[j]);
                                assert(before.contains(m[k].id));
                                let t = choose|t: int| 0 <= t < before.len() && before[t] == m[k].id;
                                assert(to_delete@[t] == m[k].id);
                            }
                        }
                        assert forall|t: int| 0 <= t < c + 1 implies to_delete@.contains(#[trigger] children@[t]) by {
                            if t < c {
                                assert(before.contains(children@[t]));
                                let u = choose|u: int| 0 <= u < before.len() && before[u] == children@[t];
                                assert(to_delete@[u] == children@[t]);
                            } else {
                                assert(to_delete@[to_delete@.len() - 1] == children@[t]);
                            }
                        }
                        assert forall|j: int| 0 <= j < to_delete@.len() implies in_subtree(m, target_id, #[trigger] to_delete@[j]) by {
                            if j < before.len() {
                                assert(to_delete@[j] == before[j]);
                            }
                        }
                        assert forall|j: int|
                            0 <= j < to_delete@.len() implies to_delete@[j] == target_id || exists|k: u64| #[trigger]
                                m.contains_key(k) && m[k].id == to_delete@[j] by {
                            if j < before.len() {
                                assert(to_delete@[j] == before[j]);
                            }
                        }
                    }
                }
                c = c + 1;
            }
            proof {
                assert forall|j: int, k: u64|
                    0 <= j < i + 1 && #[trigger] m.contains_key(k) && m[k].pid == #[trigger] to_delete@[j]
                        ==> to_delete@.contains(m[k].id) by {
                    if j == i && m.contains_key(k) && m[k].pid == to_delete@[j] {
                        assert(children@.contains(m[k].id));
                        let t = choose|t: int| 0 <= t < children@.len() && children@[t] == m[k].id;
                    }
                }
            }
            i = i + 1;
        }
        // Every id below the target was collected.
        proof {
            assert forall|x: u64| in_subtree(m, target_id, x) implies to_delete@.contains(x) by {
                let n = choose|n: nat| #[trigger] generations(m, target_id, n).contains(x);
                lemma_collected(m, target_id, to_delete@, n);
            }
        }
        to_delete
    }

    /// Tombstones `target_id` and everything below it at time `now`.
    pub fn delete_node(&mut self, target_id: u64, now: u64)
        ensures
            final(self).nodes@.dom() == old(self).nodes@.dom(),
            forall|k: u64| #[trigger]
                final(self).nodes@.contains_key(k) ==> final(self).nodes@[k] == (if in_subtree(
                    old(self).nodes@,
                    target_id,
                    k,
                ) {
                    tombstoned(old(self).nodes@[k], now)
                } else {
                    old(self).nodes@[k]
                }),
            final(self).last_modified == now,
            final(self).next_id == old(self).next_id,
            final(self).root_lanzou_id == old(self).root_lanzou_id,
            final(self).deeperdir_lanzou_id == old(self).deeperdir_lanzou_id,
            final(self).file_path == old(self).file_path,
    {
        let ghost m = self.nodes@;
        let to_delete = self.subtree_ids(target_id);
        let ghost d = to_delete@;
        let mut j: usize = 0;
        while j < to_delete.len()
            invariant
                j <= to_delete@.len(),
                d == to_delete@,
                self.nodes@.dom() == m.dom(),
                self.next_id == old(self).next_id,
                self.root_lanzou_id == old(self).root_lanzou_id,
                self.deeperdir_lanzou_id == old(self).deeperdir_lanzou_id,
                self.file_path == old(self).file_path,
                forall|x: u64| in_subtree(m, target_id, x) <==> d.contains(x),
                forall|k: u64| #[trigger]
                    self.nodes@.contains_key(k) ==> self.nodes@[k] == (if d.take(j as int).contains(k) {
                        tombstoned(m[k], now)
                    } else {
                        m[k]
                    }),
                d.no_duplicates(),
            decreases to_delete@.len() - j,
        {
            let del_id = to_delete[j];
            let ghost before = self.nodes@;
            proof {
                assert(!d.take(j as int).contains(del_id)) by {
                    if d.take(j as int).contains(del_id) {
                        let t = choose|t: int| 0 <= t < j && d.take(j as int)[t] == del_id;
                        assert(d[t] == d[j as int]);
                    }
                }
            }
            match self.nodes.get(&del_id) {
                Some(n) => {
                    let mut dead = n.duplicate();
                    dead.is_deleted = true;
                    dead.time = now;
                    self.nodes.insert(del_id, dead);
                },
                None => {},
            }
            proof {
                assert(d.take(j + 1) =~= d.take(j as int).push(del_id));
                assert forall|k: u64| #[trigger]
                    self.nodes@.contains_key(k) implies self.nodes@[k] == (if d.take(j + 1).contains(k) {
                        tombstoned(m[k], now)
                    } else {
                        m[k]
                    }) by {
                    lemma_push_contains(d.take(j as int), del_id, k);
                }
            }
            j = j + 1;
        }
        proof {
            assert(d.take(j as int) =~= d);
        }
        self.touch(now);
    }
    /// Merges the cloud copy of the tree into this one. Node by node the
    /// later write wins (the cloud one on a tie); then every live node whose
    /// parent is missing or tombstoned is moved to the root, stamped `now`.
    pub fn merge_with(&self, cloud_tree: &VfsTree, now: u64) -> (r: Self)
        ensures
            r.nodes@ == merge_spec(self.nodes@, cloud_tree.nodes@, now),
            r.last_modified == (if self.last_modified >= cloud_tree.last_modified {
                self.last_modified
            } else {
                cloud_tree.last_modified
            }),
            r.next_id == (if self.next_id >= cloud_tree.next_id {
                self.next_id
            } else {
                cloud_tree.next_id
            }),
            r.root_lanzou_id == cloud_tree.root_lanzou_id,
            r.deeperdir_lanzou_id == cloud_tree.deeperdir_lanzou_id,
            r.file_path == self.file_path,
    {
        let ghost lm = self.nodes@;
        let ghost cm = cloud_tree.nodes@;
        let ghost mm = merged_nodes(lm, cm);
        // Phase 1: node-level resolution.
        let mut merged: HashMap<u64, VfsNode> = HashMap::new();
        let les = self.entries();
        let mut i: usize = 0;
        while i < les.len()
            invariant
                i <= les.len(),
                lm == self.nodes@,
                cm == cloud_tree.nodes@,
                mm == merged_nodes(lm, cm),
                is_entry_list(les@, lm),
                forall|k: u64| #[trigger] merged@.contains_key(k) <==> exists|j: int| 0 <= j < i && (#[trigger] les@[j]).0 == k,
                forall|k: u64| #[trigger] merged@.contains_key(k) ==> merged@[k] == mm[k],
            decreases les.len() - i,
        {
            let k = les[i].0;
            proof {
                assert(entry_keys(les@)[i as int] == k);
                assert(lm.contains_key(k));
            }
            let pick = match cloud_tree.nodes.get(&k) {
                Some(c) => {
                    if les[i].1.time > c.time {
                        les[i].1.duplicate()
                    } else {
                        c.duplicate()
                    }
                },
                None => les[i].1.duplicate(),
            };
            merged.insert(k, pick);
            proof {
                assert forall|kk: u64| #[trigger] merged@.contains_key(kk) <==> exists|j: int| 0 <= j < i + 1 && (#[trigger] les@[j]).0 == kk by {
                    if merged@.contains_key(kk) && kk != k {
                        let j = choose|j: int| 0 <= j < i && (#[trigger] les@[j]).0 == kk;
                        assert(0 <= j < i + 1);
                    }
                }
            }
            i = i + 1;
        }
        let ces = cloud_tree.entries();
        let mut j: usize = 0;
        proof {
            assert forall|k: u64| #[trigger] merged@.contains_key(k) <==> lm.contains_key(k) by {
                if lm.contains_key(k) {
                    assert(entry_keys(les@).contains(k));
                    let t = choose|t: int| 0 <= t < entry_keys(les@).len() && entry_keys(les@)[t] == k;
                    assert(les@[t].0 == k);
                }
                if merged@.contains_key(k) {
                    let t = choose|t: int| 0 <= t < i && (#[trigger] les@[t]).0 == k;
                    assert(entry_keys(les@)[t] == k);
                }
            }
        }
        while j < ces.len()
            invariant
                j <= ces.len(),
                lm == self.nodes@,
                cm == cloud_tree.nodes@,
                mm == merged_nodes(lm, cm),
                is_entry_list(ces@, cm),
                forall|k: u64| #[trigger] merged@.contains_key(k) <==> (lm.contains_key(k) || exists|t: int| 0 <= t < j && (#[trigger] ces@[t]).0 == k),
                forall|k: u64| #[trigger] merged@.contains_key(k) ==> merged@[k] == mm[k],
            decreases ces.len() - j,
        {
            let k = ces[j].0;
            proof {
                assert(entry_keys(ces@)[j as int] == k);
                assert(cm.contains_key(k));
            }
            if !self.nodes.contains_key(&k) {
                let c = ces[j].1.duplicate();
                merged.insert(k, c);
            }
            proof {
                assert forall|kk: u64| #[trigger] merged@.contains_key(kk) <==> (lm.contains_key(kk) || exists|t: int| 0 <= t < j + 1 && (#[trigger] ces@[t]).0 == kk) by {
                    if merged@.contains_key(kk) && kk != k && !lm.contains_key(kk) {
                        let t = choose|t: int| 0 <= t < j && (#[trigger] ces@[t]).0 == kk;
                        assert(0 <= t < j + 1);
                    }
                    if exists|t: int| 0 <= t < j + 1 && (#[trigger] ces@[t]).0 == kk {
                        let t = choose|t: int| 0 <= t < j + 1 && (#[trigger] ces@[t]).0 == kk;
                        if t == j {
                            assert(kk == k);
                        }
                    }
                }
            }
            j = j + 1;
        }
        proof {
            assert forall|k: u64| #[trigger] merged@.contains_key(k) <==> mm.contains_key(k) by {
                if cm.contains_key(k) {
                    assert(entry_keys(ces@).contains(k));
                    let t = choose|t: int| 0 <= t < entry_keys(ces@).len() && entry_keys(ces@)[t] == k;
                    assert(ces@[t].0 == k);
                }
                if merged@.contains_key(k) && !lm.contains_key(k) {
                    let t = choose|t: int| 0 <= t < j && (#[trigger] ces@[t]).0 == k;
                    assert(entry_keys(ces@)[t] == k);
                }
            }
            assert(merged@ =~= mm);
        }
        // Phase 2: structural repair of orphans.
        let mut repaired: HashMap<u64, VfsNode> = merged.clone();
        let mut merged_tree = VfsTree {
            last_modified: 0,
            root_lanzou_id: String::new(),
            deeperdir_lanzou_id: String::new(),
            nodes: merged,
            next_id: 0,
            file_path: clone_path(&self.file_path),
        };
        let mes = merged_tree.entries();
        let ghost target = rescued(mm, now);
        let mut t: usize = 0;
        while t < mes.len()
            invariant
                t <= mes.len(),
                mm == merged_tree.nodes@,
                target == rescued(mm, now),
                is_entry_list(mes@, mm),
                repaired@.dom() == mm.dom(),
                forall|k: u64| #[trigger] repaired@.contains_key(k) ==> repaired@[k].is_deleted == mm[k].is_deleted,
                forall|k: u64| #[trigger] repaired@.contains_key(k) ==> repaired@[k] == (if entry_keys(mes@).take(t as int).contains(k) { target[k] } else { mm[k] }),
            decreases mes.len() - t,
        {
            let id = mes[t].0;
            let ghost before = repaired@;
            proof {
                assert(entry_keys(mes@)[t as int] == id);
                assert(mm.contains_key(id));
                assert(!entry_keys(mes@).take(t as int).contains(id)) by {
                    if entry_keys(mes@).take(t as int).contains(id) {
                        let u = choose|u: int| 0 <= u < t && entry_keys(mes@).take(t as int)[u] == id;
                        assert(entry_keys(mes@)[u] == entry_keys(mes@)[t as int]);
                    }
                }
                assert(mes@[t as int].1 == mm[id]);
            }
            let node_pid = mes[t].1.pid;
            let node_dead = mes[t].1.is_deleted;
            if node_pid != 0 {
                let parent_alive = match repaired.get(&node_pid) {
                    Some(p) => !p.is_deleted,
                    None => false,
                };
                if !parent_alive && !node_dead {
                    match repaired.get(&id) {
                        Some(n) => {
                            let mut moved = n.duplicate();
                            moved.pid = 0;
                            moved.time = now;
                            repaired.insert(id, moved);
                        },
                        None => {},
                    }
                }
            }
            proof {
                assert(entry_keys(mes@).take(t + 1) =~= entry_keys(mes@).take(t as int).push(id));
                assert forall|k: u64| #[trigger] repaired@.contains_key(k) implies repaired@[k] == (if entry_keys(mes@).take(t + 1).contains(k) { target[k] } else { mm[k] }) by {
                    lemma_push_contains(entry_keys(mes@).take(t as int), id, k);
                }
            }
            t = t + 1;
        }
        proof {
            assert(entry_keys(mes@).take(t as int) =~= entry_keys(mes@));
            assert forall|k: u64| #[trigger] repaired@.contains_key(k) implies repaired@[k] == target[k] by {
                assert(entry_keys(mes@).contains(k));
            }
            assert(repaired@ =~= target);
        }
        merged_tree.nodes = repaired;
        merged_tree.last_modified = if self.last_modified >= cloud_tree.last_modified {
            self.last_modified
        } else {
            cloud_tree.last_modified
        };
        merged_tree.next_id = if self.next_id >= cloud_tree.next_id {
            self.next_id
        } else {
            cloud_tree.next_id
        };
        merged_tree.root_lanzou_id = cloud_tree.root_lanzou_id.clone();
        merged_tree.deeperdir_lanzou_id = cloud_tree.deeperdir_lanzou_id.clone();
        merged_tree
    }
}

proof fn lemma_collected(m: Map<u64, VfsNode>, target: u64, d: Seq<u64>, n: nat)
    requires
        d.len() >= 1,
        d[0] == target,
        forall|j: int, k: u64|
            0 <= j < d.len() && #[trigger] m.contains_key(k) && m[k].pid == #[trigger] d[j] ==> d.contains(m[k].id),
    ensures
        forall|x: u64| #[trigger] generations(m, target, n).contains(x) ==> d.contains(x),
    decreases n,
{
    if n == 0 {
        assert(d[0] == target);
    } else {
        lemma_collected(m, target, d, (n - 1) as nat);
        let r = generations(m, target, (n - 1) as nat);
        assert forall|x: u64| #[trigger] generations(m, target, n).contains(x) implies d.contains(x) by {
            if !r.contains(x) {
                assert(children_of(m, r).contains(x));
                let k = choose|k: u64| #[trigger] m.contains_key(k) && r.contains(m[k].pid) && m[k].id == x;
                assert(d.contains(m[k].pid));
                let j = choose|j: int| 0 <= j < d.len() && d[j] == m[k].pid;
            }
        }
    }
}

pub proof fn lemma_push_contains<T>(s: Seq<T>, x: T, k: T)
    ensures
        s.push(x).contains(k) == (s.contains(k) || k == x),
{
    if s.contains(k) {
        let t = choose|t: int| 0 <= t < s.len() && s[t] == k;
        assert(s.push(x)[t] == k);
    }
    if k == x {
        assert(s.push(x)[s.len() as int] == k);
    }
    if s.push(x).contains(k) {
        let t = choose|t: int| 0 <= t < s.push(x).len() && s.push(x)[t] == k;
        if t < s.len() {
            assert(s[t] == k);
        }
    }
}

/// Whether `x` occurs in `v`.
pub fn vec_contains_u64(v: &Vec<u64>, x: u64) -> (r: bool)
    ensures
        r == v@.contains(x),
{
    let mut i: usize = 0;
    while i < v.len()
        invariant
            i <= v.len(),
            forall|j: int| 0 <= j < i ==> v@[j] != x,
        decreases v.len() - i,
    {
        if v[i] == x {
            return true;
        }
        i = i + 1;
    }
    false
}

} // verus!

verus! {

/// A merge keeps every node of both sides: nothing is lost, nothing appears.
pub proof fn law_merge_keeps_every_node(local: Map<u64, VfsNode>, cloud: Map<u64, VfsNode>, now: u64)
    ensures
        merge_spec(local, cloud, now).dom() == local.dom().union(cloud.dom()),
{
    assert(merge_spec(local, cloud, now).dom() =~= local.dom().union(cloud.dom()));
}

/// After a merge no live node hangs below a missing or tombstoned parent.
pub proof fn law_merge_leaves_no_orphans(local: Map<u64, VfsNode>, cloud: Map<u64, VfsNode>, now: u64)
    ensures
        forall|k: u64| #[trigger] merge_spec(local, cloud, now).contains_key(k) ==> !is_orphan(
            merge_spec(local, cloud, now),
            merge_spec(local, cloud, now)[k],
        ),
{
    let mm = merged_nodes(local, cloud);
    let r = merge_spec(local, cloud, now);
    assert forall|k: u64| #[trigger] r.contains_key(k) implies !is_orphan(r, r[k]) by {
        let n = r[k];
        if n.pid != 0 && !n.is_deleted {
            assert(!is_orphan(mm, mm[k]));
            assert(mm.contains_key(n.pid));
            assert(r[n.pid].is_deleted == mm[n.pid].is_deleted);
        }
    }
}

/// For a node that both sides hold, the merge keeps the strictly newer local
/// copy, else the cloud copy; at most its parent and time are rewritten, when
/// it had to be rescued to the root.
pub proof fn law_merge_later_write_wins(local: Map<u64, VfsNode>, cloud: Map<u64, VfsNode>, now: u64, k: u64)
    requires
        local.contains_key(k),
        cloud.contains_key(k),
    ensures
        ({
            let w = if local[k].time > cloud[k].time {
                local[k]
            } else {
                cloud[k]
            };
            let r = merge_spec(local, cloud, now)[k];
            r == w || r == VfsNode { pid: 0, time: now, ..w }
        }),
{
}

/// A node that only one side holds (one created on this device since the
/// last sync, or one the cloud got from elsewhere) comes through the merge as
/// that side has it: its flags, name and contents are kept, and at most its
/// parent and time are rewritten, when it had to be rescued to the root.
pub proof fn law_merge_keeps_one_sided_nodes(local: Map<u64, VfsNode>, cloud: Map<u64, VfsNode>, now: u64, k: u64)
    ensures
        local.contains_key(k) && !cloud.contains_key(k) ==> {
            let r = merge_spec(local, cloud, now)[k];
            &&& merge_spec(local, cloud, now).contains_key(k)
            &&& r == local[k] || r == VfsNode { pid: 0, time: now, ..local[k] }
            &&& r.is_deleted == local[k].is_deleted
            &&& r.is_trashed == local[k].is_trashed
        },
        cloud.contains_key(k) && !local.contains_key(k) ==> {
            let r = merge_spec(local, cloud, now)[k];
            &&& merge_spec(local, cloud, now).contains_key(k)
            &&& r == cloud[k] || r == VfsNode { pid: 0, time: now, ..cloud[k] }
            &&& r.is_deleted == cloud[k].is_deleted
            &&& r.is_trashed == cloud[k].is_trashed
        },
{
}

/// The merge moves a node only to rescue it: the node that wins for `k`
/// (the strictly newer local copy when both sides hold it, else the cloud
/// copy, else the only copy) stays exactly as it is when it sits at the root,
/// is tombstoned, or has a live parent in the merged tree; otherwise it is
/// moved to the root and stamped `now`, nothing else changing.
pub proof fn law_merge_rescues_only_orphans(local: Map<u64, VfsNode>, cloud: Map<u64, VfsNode>, now: u64, k: u64)
    requires
        local.contains_key(k) || cloud.contains_key(k),
    ensures
        ({
            let w = if local.contains_key(k) && (!cloud.contains_key(k) || local[k].time > cloud[k].time) {
                local[k]
            } else {
                cloud[k]
            };
            let m = merge_spec(local, cloud, now);
            let parent_live = m.contains_key(w.pid) && !m[w.pid].is_deleted;
            &&& m.contains_key(k)
            &&& (w.pid == 0 || w.is_deleted || parent_live) ==> m[k] == w
            &&& !(w.pid == 0 || w.is_deleted || parent_live) ==> m[k] == VfsNode { pid: 0, time: now, ..w }
        }),
{
    let mm = merged_nodes(local, cloud);
    let m = merge_spec(local, cloud, now);
    let w = mm[k];
    if m.contains_key(w.pid) {
        assert(m[w.pid].is_deleted == mm[w.pid].is_deleted);
    }
}

/// Merging a tree that has no orphans with itself gives it back unchanged.
pub proof fn law_merge_with_itself(m: Map<u64, VfsNode>, now: u64)
    requires
        forall|k: u64| #[trigger] m.contains_key(k) ==> !is_orphan(m, m[k]),
    ensures
        merge_spec(m, m, now) == m,
{
    let mm = merged_nodes(m, m);
    assert(mm =~= m);
    assert(merge_spec(m, m, now) =~= m);
}

/// Deleting a node tombstones it and everything below it; no node leaves the
/// table, and nothing outside the subtree changes.
pub proof fn law_delete_tombstones_subtree(m: Map<u64, VfsNode>, after: Map<u64, VfsNode>, target: u64, now: u64)
    requires
        after.dom() == m.dom(),
        forall|k: u64| #[trigger] after.contains_key(k) ==> after[k] == (if in_subtree(m, target, k) {
            tombstoned(m[k], now)
        } else {
            m[k]
        }),
    ensures
        forall|k: u64| #[trigger] after.contains_key(k) && in_subtree(m, target, k) ==> after[k].is_deleted,
        forall|k: u64| #[trigger] after.contains_key(k) && !in_subtree(m, target, k) ==> after[k] == m[k],
        forall|k: u64| #[trigger] m.contains_key(k) && m[k].pid == target && m[k].id == k ==> after[k].is_deleted,
{
    assert forall|k: u64| #[trigger] m.contains_key(k) && m[k].pid == target && m[k].id == k implies after[k].is_deleted by {
        assert(generations(m, target, 0).contains(target));
        assert(children_of(m, generations(m, target, 0)).contains(k));
        assert(generations(m, target, 1).contains(k));
    }
}

// ----------------------------------------------------------------------
// Upload extensions
// ----------------------------------------------------------------------

/// The extensions the cloud accepts for uploads, in lower case.
pub open spec fn is_allowed_ext(e: Seq<char>) -> bool {
    e == "doc"@ || e == "docx"@ || e == "zip"@ || e == "rar"@ || e == "apk"@ || e == "txt"@ || e
        == "exe"@ || e == "7z"@ || e == "e"@ || e == "z"@ || e == "ct"@ || e == "ke"@ || e ==
        "cetrainer"@ || e == "db"@ || e == "tar"@ || e == "pdf"@ || e == "w3x"@ || e == "epub"@
        || e == "mobi"@ || e == "azw"@ || e == "azw3"@ || e == "osk"@ || e == "osz"@ || e ==
        "xpa"@ || e == "cpk"@ || e == "lua"@ || e == "jar"@ || e == "dmg"@ || e == "ppt"@ || e
        == "pptx"@ || e == "xls"@ || e == "xlsx"@ || e == "mp3"@ || e == "ipa"@ || e == "iso"@
        || e == "img"@ || e == "gho"@ || e == "ttf"@ || e == "ttc"@ || e == "txf"@ || e ==
        "dwg"@ || e == "bat"@ || e == "imazingapp"@ || e == "dll"@ || e == "crx"@ || e ==
        "xapk"@ || e == "conf"@ || e == "deb"@ || e == "rp"@ || e == "rpm"@ || e == "rplib"@ ||
        e == "mobileconfig"@ || e == "appimage"@ || e == "lolgezi"@ || e == "flac"@ || e ==
        "cad"@ || e == "hwt"@ || e == "accdb"@ || e == "ce"@ || e == "xmind"@ || e == "enc"@ ||
        e == "bds"@ || e == "bdi"@ || e == "ssf"@ || e == "it"@ || e == "pkg"@ || e == "cfg"@ ||
        e == "mp4"@ || e == "avi"@ || e == "png"@ || e == "jpeg"@ || e == "jpg"@ || e == "gif"@
        || e == "webp"@ || e == "brushset"@
}

fn allowed_ext(e: &str) -> (r: bool)
    ensures
        r == is_allowed_ext(e@),
{
    str_eq(e, "doc") || str_eq(e, "docx") || str_eq(e, "zip") || str_eq(e, "rar") || str_eq(e,
        "apk") || str_eq(e, "txt") || str_eq(e, "exe") || str_eq(e, "7z") || str_eq(e, "e") ||
        str_eq(e, "z") || str_eq(e, "ct") || str_eq(e, "ke") || str_eq(e, "cetrainer") ||
        str_eq(e, "db") || str_eq(e, "tar") || str_eq(e, "pdf") || str_eq(e, "w3x") || str_eq(e,
        "epub") || str_eq(e, "mobi") || str_eq(e, "azw") || str_eq(e, "azw3") || str_eq(e,
        "osk") || str_eq(e, "osz") || str_eq(e, "xpa") || str_eq(e, "cpk") || str_eq(e, "lua")
        || str_eq(e, "jar") || str_eq(e, "dmg") || str_eq(e, "ppt") || str_eq(e, "pptx") ||
        str_eq(e, "xls") || str_eq(e, "xlsx") || str_eq(e, "mp3") || str_eq(e, "ipa") ||
        str_eq(e, "iso") || str_eq(e, "img") || str_eq(e, "gho") || str_eq(e, "ttf") ||
        str_eq(e, "ttc") || str_eq(e, "txf") || str_eq(e, "dwg") || str_eq(e, "bat") ||
        str_eq(e, "imazingapp") || str_eq(e, "dll") || str_eq(e, "crx") || str_eq(e, "xapk") ||
        str_eq(e, "conf") || str_eq(e, "deb") || str_eq(e, "rp") || str_eq(e, "rpm") ||
        str_eq(e, "rplib") || str_eq(e, "mobileconfig") || str_eq(e, "appimage") || str_eq(e,
        "lolgezi") || str_eq(e, "flac") || str_eq(e, "cad") || str_eq(e, "hwt") || str_eq(e,
        "accdb") || str_eq(e, "ce") || str_eq(e, "xmind") || str_eq(e, "enc") || str_eq(e,
        "bds") || str_eq(e, "bdi") || str_eq(e, "ssf") || str_eq(e, "it") || str_eq(e, "pkg") ||
        str_eq(e, "cfg") || str_eq(e, "mp4") || str_eq(e, "avi") || str_eq(e, "png") ||
        str_eq(e, "jpeg") || str_eq(e, "jpg") || str_eq(e, "gif") || str_eq(e, "webp") ||
        str_eq(e, "brushset")
}

/// The extension a file is uploaded under, for its own extension `e`.
pub open spec fn safe_ext_spec(e: Seq<char>) -> Seq<char> {
    if is_allowed_ext(unicode_lowercase(e)) {
        unicode_lowercase(e)
    } else {
        "iso"@
    }
}

proof fn lemma_lower_fixed(e: Seq<char>)
    requires
        forall|i: int| 0 <= i < e.len() ==> ('a' <= #[trigger] e[i] && e[i] <= 'z') || ('0' <= e[i] && e[i] <= '9'),
    ensures
        crate::text::all_ascii(e),
        crate::text::ascii_lower(e) == e,
{
    assert(crate::text::ascii_lower(e) =~= e);
}

proof fn lemma_allowed_is_lower(e: Seq<char>)
    requires
        is_allowed_ext(e),
    ensures
        forall|i: int| 0 <= i < e.len() ==> ('a' <= #[trigger] e[i] && e[i] <= 'z') || ('0' <= e[i] && e[i] <= '9'),
{
    reveal_strlit("doc");
    reveal_strlit("docx");
    reveal_strlit("zip");
    reveal_strlit("rar");
    reveal_strlit("apk");
    reveal_strlit("txt");
    reveal_strlit("exe");
    reveal_strlit("7z");
    reveal_strlit("e");
    reveal_strlit("z");
    reveal_strlit("ct");
    reveal_strlit("ke");
    reveal_strlit("cetrainer");
    reveal_strlit("db");
    reveal_strlit("tar");
    reveal_strlit("pdf");
    reveal_strlit("w3x");
    reveal_strlit("epub");
    reveal_strlit("mobi");
    reveal_strlit("azw");
    reveal_strlit("azw3");
    reveal_strlit("osk");
    reveal_strlit("osz");
    reveal_strlit("xpa");
    reveal_strlit("cpk");
    reveal_strlit("lua");
    reveal_strlit("jar");
    reveal_strlit("dmg");
    reveal_strlit("ppt");
    reveal_strlit("pptx");
    reveal_strlit("xls");
    reveal_strlit("xlsx");
    reveal_strlit("mp3");
    reveal_strlit("ipa");
    reveal_strlit("iso");
    reveal_strlit("img");
    reveal_strlit("gho");
    reveal_strlit("ttf");
    reveal_strlit("ttc");
    reveal_strlit("txf");
    reveal_strlit("dwg");
    reveal_strlit("bat");
    reveal_strlit("imazingapp");
    reveal_strlit("dll");
    reveal_strlit("crx");
    reveal_strlit("xapk");
    reveal_strlit("conf");
    reveal_strlit("deb");
    reveal_strlit("rp");
    reveal_strlit("rpm");
    reveal_strlit("rplib");
    reveal_strlit("mobileconfig");
    reveal_strlit("appimage");
    reveal_strlit("lolgezi");
    reveal_strlit("flac");
    reveal_strlit("cad");
    reveal_strlit("hwt");
    reveal_strlit("accdb");
    reveal_strlit("ce");
    reveal_strlit("xmind");
    reveal_strlit("enc");
    reveal_strlit("bds");
    reveal_strlit("bdi");
    reveal_strlit("ssf");
    reveal_strlit("it");
    reveal_strlit("pkg");
    reveal_strlit("cfg");
    reveal_strlit("mp4");
    reveal_strlit("avi");
    reveal_strlit("png");
    reveal_strlit("jpeg");
    reveal_strlit("jpg");
    reveal_strlit("gif");
    reveal_strlit("webp");
    reveal_strlit("brushset");
}

/// Choosing the upload extension is idempotent: the extension chosen for a
/// file is one the cloud accepts, and choosing again for it keeps it.
pub proof fn law_upload_extension_is_stable(original_ext: Seq<char>)
    ensures
        is_allowed_ext(safe_ext_spec(original_ext)),
        safe_ext_spec(safe_ext_spec(original_ext)) == safe_ext_spec(original_ext),
{
    reveal_strlit("iso");
    let y = safe_ext_spec(original_ext);
    assert(is_allowed_ext(y));
    lemma_allowed_is_lower(y);
    lemma_lower_fixed(y);
}

/// The extension to upload a file under: its own, lower-cased, when the
/// cloud accepts it, else `iso`.
pub fn get_safe_lanzou_ext(original_ext: &str) -> (r: String)
    ensures
        r@ == safe_ext_spec(original_ext@),
{
    let lower = lowercase(original_ext);
    if allowed_ext(lower.as_str()) {
        lower
    } else {
        "iso".to_string()
    }
}

} // verus!
