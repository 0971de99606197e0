//! The tree's text form: a header line `V2|modified|count|root|overflow`
//! and one pipe-separated row per node, the name in Base64. Version-1 files,
//! whose names were stored raw and may hold pipes, are still read.
use vstd::prelude::*;
use vstd::utf8::{decode_utf8, encode_utf8, valid_utf8};
use std::collections::HashMap;
use std::path::PathBuf;
use crate::external::{base64_standard, base64_standard_decode, base64_standard_decoded,
    base64_standard_encode, is_base64_standard_char, utf8_to_string};
use crate::text::{all_space, chars_of, decimal, is_blank, join_with, lemma_split_on_len, lines_chars,
    lines_of, parse_u64, parse_unsigned, push_all, push_decimal, push_str_chars, split_chars,
    split_on, string_from_chars};
use crate::vfs::{entry_keys, is_entry_list, node_type_code, NodeType, VfsNode, VfsTree};

verus! {

broadcast use vstd::std_specs::hash::group_hash_axioms;

/// A node as its text fields read.
pub ghost struct NodeText {
    pub node_type: NodeType,
    pub id: u64,
    pub pid: u64,
    pub name: Seq<char>,
    pub lanzou_id: Seq<char>,
    pub time: u64,
    pub size: Seq<char>,
    pub md5: Seq<char>,
    pub ext: Seq<char>,
    pub chunks: Seq<char>,
    pub is_trashed: bool,
    pub is_deleted: bool,
}

pub open spec fn node_text(n: VfsNode) -> NodeText {
    NodeText {
        node_type: n.node_type,
        id: n.id,
        pid: n.pid,
        name: n.name@,
        lanzou_id: n.lanzou_id@,
        time: n.time,
        size: n.size@,
        md5: n.md5@,
        ext: n.ext@,
        chunks: n.chunks@,
        is_trashed: n.is_trashed,
        is_deleted: n.is_deleted,
    }
}

/// The table as text fields.
pub open spec fn table_text(m: Map<u64, VfsNode>) -> Map<u64, NodeText> {
    m.map_values(|n: VfsNode| node_text(n))
}

pub open spec fn views(v: Seq<Vec<char>>) -> Seq<Seq<char>> {
    v.map_values(|x: Vec<char>| x@)
}

pub open spec fn true_text() -> Seq<char> {
    seq!['t', 'r', 'u', 'e']
}

pub open spec fn false_text() -> Seq<char> {
    seq!['f', 'a', 'l', 's', 'e']
}

/// How `Display` prints a `bool`.
pub open spec fn bool_text(b: bool) -> Seq<char> {
    if b {
        true_text()
    } else {
        false_text()
    }
}

// ----------------------------------------------------------------------
// Writing
// ----------------------------------------------------------------------

/// The fields of a node's row.
pub open spec fn row_fields(n: VfsNode) -> Seq<Seq<char>> {
    seq![
        node_type_code(n.node_type),
        decimal(n.id as nat),
        decimal(n.pid as nat),
        base64_standard(encode_utf8(n.name@)),
        n.lanzou_id@,
        decimal(n.time as nat),
        n.size@,
        n.md5@,
        n.ext@,
        n.chunks@,
        bool_text(n.is_trashed),
        bool_text(n.is_deleted),
    ]
}

pub open spec fn header_fields(modified: u64, count: nat, root: Seq<char>, overflow: Seq<char>) -> Seq<Seq<char>> {
    seq![seq!['V', '2'], decimal(modified as nat), decimal(count), root, overflow]
}

/// Lines, each followed by a line feed.
pub open spec fn terminated(lines: Seq<Seq<char>>) -> Seq<char>
    decreases lines.len(),
{
    if lines.len() == 0 {
        Seq::<char>::empty()
    } else {
        terminated(lines.drop_last()) + lines.last() + seq!['\n']
    }
}

/// The text of the tree with its rows in the key order `ks`.
pub open spec fn tsv_text(t: VfsTree, ks: Seq<u64>) -> Seq<char> {
    terminated(
        seq![
            join_with(
                header_fields(
                    t.last_modified,
                    t.nodes@.len(),
                    t.root_lanzou_id@,
                    t.deeperdir_lanzou_id@,
                ),
                '|',
            ),
        ] + ks.map_values(|k: u64| join_with(row_fields(t.nodes@[k]), '|')),
    )
}

/// `ks` lists every key of `m` once.
pub open spec fn is_key_order(ks: Seq<u64>, m: Map<u64, VfsNode>) -> bool {
    ks.no_duplicates() && forall|k: u64| ks.contains(k) <==> m.contains_key(k)
}

fn push_bool(out: &mut Vec<char>, b: bool)
    ensures
        final(out)@ == old(out)@ + bool_text(b),
{
    if b {
        out.push('t');
        out.push('r');
        out.push('u');
        out.push('e');
    } else {
        out.push('f');
        out.push('a');
        out.push('l');
        out.push('s');
        out.push('e');
    }
    proof {
        assert(final(out)@ =~= old(out)@ + bool_text(b));
    }
}

proof fn lemma_join_push(parts: Seq<Seq<char>>, x: Seq<char>, sep: char)
    requires
        parts.len() >= 1,
    ensures
        join_with(parts.push(x), sep) == join_with(parts, sep).push(sep) + x,
{
    assert(parts.push(x).drop_last() =~= parts);
}

/// One more piece of a join.
proof fn lemma_join_next(f: Seq<Seq<char>>, k: int, sep: char)
    requires
        1 <= k < f.len(),
    ensures
        join_with(f.take(k + 1), sep) == join_with(f.take(k), sep).push(sep) + f[k],
{
    assert(f.take(k + 1) =~= f.take(k).push(f[k]));
    lemma_join_push(f.take(k), f[k], sep);
}

/// A join unrolled: the pieces with the separator between them.
proof fn lemma_join_steps(f: Seq<Seq<char>>, n: int, sep: char)
    requires
        1 <= n == f.len(),
    ensures
        forall|k: int| 1 <= k < n ==> #[trigger] join_with(f.take(k + 1), sep) == join_with(f.take(k), sep).push(sep) + f[k],
        join_with(f.take(1), sep) == f[0],
        join_with(f.take(n), sep) == join_with(f, sep),
{
    assert forall|k: int| 1 <= k < n implies #[trigger] join_with(f.take(k + 1), sep) == join_with(f.take(k), sep).push(sep) + f[k] by {
        assert(f.take(k + 1) =~= f.take(k).push(f[k]));
        lemma_join_push(f.take(k), f[k], sep);
    }
    assert(f.take(1).len() == 1);
    assert(f.take(n) =~= f);
}

/// Appends `|` and then `piece` to a row.
fn push_field(row: &mut Vec<char>, piece: &str)
    ensures
        final(row)@ == old(row)@.push('|') + piece@,
{
    row.push('|');
    push_str_chars(row, piece);
}

/// Appends `|` and then the decimal text of `n` to a row.
fn push_number_field(row: &mut Vec<char>, n: u64)
    ensures
        final(row)@ == old(row)@.push('|') + decimal(n as nat),
{
    row.push('|');
    push_decimal(row, n);
}

/// Appends `|` and then `true` or `false` to a row.
fn push_bool_field(row: &mut Vec<char>, b: bool)
    ensures
        final(row)@ == old(row)@.push('|') + bool_text(b),
{
    row.push('|');
    push_bool(row, b);
}

/// The row of a node, its fields joined with `|`.
fn row_chars(n: &VfsNode) -> (r: Vec<char>)
    ensures
        r@ == join_with(row_fields(*n), '|'),
        name_codec_ok(*n),
{
    let ghost f = row_fields(*n);
    proof {
        lemma_join_steps(f, 12, '|');
    }
    let mut row: Vec<char> = Vec::new();
    push_str_chars(&mut row, n.node_type.as_str());
    assert(row@ =~= join_with(f.take(1), '|'));
    push_number_field(&mut row, n.id);
    proof { lemma_join_next(f, 1, '|'); }
    assert(row@ =~= join_with(f.take(2), '|'));
    push_number_field(&mut row, n.pid);
    proof { lemma_join_next(f, 2, '|'); }
    assert(row@ =~= join_with(f.take(3), '|'));
    let enc = base64_standard_encode(n.name.as_str().as_bytes());
    push_field(&mut row, enc.as_str());
    proof { lemma_join_next(f, 3, '|'); }
    assert(row@ =~= join_with(f.take(4), '|'));
    push_field(&mut row, n.lanzou_id.as_str());
    proof { lemma_join_next(f, 4, '|'); }
    assert(row@ =~= join_with(f.take(5), '|'));
    push_number_field(&mut row, n.time);
    proof { lemma_join_next(f, 5, '|'); }
    assert(row@ =~= join_with(f.take(6), '|'));
    push_field(&mut row, n.size.as_str());
    proof { lemma_join_next(f, 6, '|'); }
    assert(row@ =~= join_with(f.take(7), '|'));
    push_field(&mut row, n.md5.as_str());
    proof { lemma_join_next(f, 7, '|'); }
    assert(row@ =~= join_with(f.take(8), '|'));
    push_field(&mut row, n.ext.as_str());
    proof { lemma_join_next(f, 8, '|'); }
    assert(row@ =~= join_with(f.take(9), '|'));
    push_field(&mut row, n.chunks.as_str());
    proof { lemma_join_next(f, 9, '|'); }
    assert(row@ =~= join_with(f.take(10), '|'));
    push_bool_field(&mut row, n.is_trashed);
    proof { lemma_join_next(f, 10, '|'); }
    assert(row@ =~= join_with(f.take(11), '|'));
    push_bool_field(&mut row, n.is_deleted);
    proof { lemma_join_next(f, 11, '|'); }
    assert(row@ =~= join_with(f.take(12), '|'));
    row
}

impl VfsTree {
    /// The tree's text form, one row per node; the rows come in the order in
    /// which the table yields its nodes.
    pub fn to_tsv(&self) -> (r: String)
        ensures
            exists|ks: Seq<u64>| is_key_order(ks, self.nodes@) && r@ == #[trigger] tsv_text(*self, ks),
            text_safe(*self) ==> reads_back(r@, *self),
    {
        let mut out: Vec<char> = Vec::new();
        let ghost hdr = header_fields(
            self.last_modified,
            self.nodes@.len(),
            self.root_lanzou_id@,
            self.deeperdir_lanzou_id@,
        );
        proof {
            lemma_join_steps(hdr, 5, '|');
        }
        out.push('V');
        out.push('2');
        assert(out@ =~= join_with(hdr.take(1), '|'));
        push_number_field(&mut out, self.last_modified);
        proof { lemma_join_next(hdr, 1, '|'); }
        assert(out@ =~= join_with(hdr.take(2), '|'));
        push_number_field(&mut out, self.nodes.len() as u64);
        proof { lemma_join_next(hdr, 2, '|'); }
        assert(out@ =~= join_with(hdr.take(3), '|'));
        push_field(&mut out, self.root_lanzou_id.as_str());
        proof { lemma_join_next(hdr, 3, '|'); }
        assert(out@ =~= join_with(hdr.take(4), '|'));
        push_field(&mut out, self.deeperdir_lanzou_id.as_str());
        proof { lemma_join_next(hdr, 4, '|'); }
        assert(out@ =~= join_with(hdr.take(5), '|'));
        out.push('\n');
        let es = self.entries();
        let ghost m = self.nodes@;
        let ghost ks = entry_keys(es@);
        let ghost lines = seq![join_with(hdr, '|')] + ks.map_values(
            |k: u64| join_with(row_fields(m[k]), '|'),
        );
        let mut i: usize = 0;
        proof {
            assert(lines.take(1) =~= seq![join_with(hdr, '|')]);
            assert(lines.take(1).drop_last() =~= Seq::<Seq<char>>::empty());
            assert(terminated(Seq::<Seq<char>>::empty()) =~= Seq::<char>::empty());
            assert(terminated(lines.take(1)) =~= join_with(hdr, '|') + seq!['\n']);
        }
        while i < es.len()
            invariant
                i <= es.len(),
                m == self.nodes@,
                is_entry_list(es@, m),
                ks == entry_keys(es@),
                lines == seq![join_with(hdr, '|')] + ks.map_values(
                    |k: u64| join_with(row_fields(m[k]), '|'),
                ),
                out@ == terminated(lines.take(i + 1)),
                forall|j: int| 0 <= j < i ==> name_codec_ok(#[trigger] m[ks[j]]),
            decreases es.len() - i,
        {
            let row = row_chars(&es[i].1);
            push_all(&mut out, row.as_slice());
            out.push('\n');
            proof {
                assert(es@[i as int].1 == m[es@[i as int].0]);
                assert(lines.take(i + 2).drop_last() =~= lines.take(i + 1));
                assert(lines[i + 1] == join_with(row_fields(m[ks[i as int]]), '|'));
            }
            i = i + 1;
        }
        proof {
            assert(lines.take(i + 1) =~= lines);
            assert(lines =~= seq![join_with(hdr, '|')] + ks.map_values(
                |k: u64| join_with(row_fields(self.nodes@[k]), '|'),
            ));
            assert(is_key_order(ks, m));
            assert(out@ == tsv_text(*self, ks));
            assert forall|k: u64| #[trigger] m.contains_key(k) implies name_codec_ok(m[k]) by {
                assert(ks.contains(k));
                let j = choose|j: int| 0 <= j < ks.len() && ks[j] == k;
                assert(name_codec_ok(m[ks[j]]));
            }
            if text_safe(*self) {
                lemma_text_reads_back(*self, ks);
            }
        }
        string_from_chars(out.as_slice())
    }
}

// ----------------------------------------------------------------------
// Reading
// ----------------------------------------------------------------------

/// The lines that hold something besides white space.
pub open spec fn data_lines(text: Seq<char>) -> Seq<Seq<char>> {
    lines_of(text).filter(|l: Seq<char>| !all_space(l))
}

pub open spec fn is_version_tag(s: Seq<char>) -> bool {
    s == seq!['V', '1'] || s == seq!['V', '2']
}

pub open spec fn header_ok(h: Seq<Seq<char>>) -> bool {
    h.len() >= 4 && is_version_tag(h[0])
}

/// A field read as a number, `0` when it is not one (`parse().unwrap_or(0)`).
pub open spec fn num_or_zero(s: Seq<char>) -> u64 {
    match parse_unsigned(s, 10, u64::MAX as nat) {
        Some(v) => v as u64,
        None => 0,
    }
}

pub open spec fn is_bool_text(s: Seq<char>) -> bool {
    s == true_text() || s == false_text()
}

/// Where the fixed tail of a version-1 row starts: six fields, plus one or
/// two trailing flags when present.
pub open spec fn v1_tail_start(p: Seq<Seq<char>>) -> int {
    let n = p.len() as int;
    if is_bool_text(p[n - 2]) && is_bool_text(p[n - 1]) {
        n - 8
    } else if is_bool_text(p[n - 1]) {
        n - 7
    } else {
        n - 6
    }
}

/// A version-1 row that the reader cannot cut: its name would end before it begins.
pub open spec fn v1_row_uncuttable(p: Seq<Seq<char>>) -> bool {
    p.len() >= 10 && v1_tail_start(p) < 3
}

/// A version-2 name: Base64 of UTF-8; undecodable Base64 reads as empty,
/// bytes that are not UTF-8 leave the field as it stands.
pub open spec fn v2_name(field: Seq<char>) -> Seq<char> {
    let bytes = match base64_standard_decoded(field) {
        Some(b) => b,
        None => Seq::<u8>::empty(),
    };
    if valid_utf8(bytes) {
        decode_utf8(bytes)
    } else {
        field
    }
}

/// The node that a row of at least ten fields reads as.
pub open spec fn row_node(p: Seq<Seq<char>>, v2: bool) -> NodeText {
    let s = if v2 {
        4
    } else {
        v1_tail_start(p)
    };
    NodeText {
        node_type: if p[0] == seq!['D'] {
            NodeType::Directory
        } else {
            NodeType::File
        },
        id: num_or_zero(p[1]),
        pid: num_or_zero(p[2]),
        name: if v2 {
            v2_name(p[3])
        } else {
            join_with(p.subrange(3, s), '|')
        },
        lanzou_id: p[s],
        time: num_or_zero(p[s + 1]),
        size: p[s + 2],
        md5: p[s + 3],
        ext: p[s + 4],
        chunks: p[s + 5],
        is_trashed: s + 6 < p.len() && p[s + 6] == true_text(),
        is_deleted: s + 7 < p.len() && p[s + 7] == true_text(),
    }
}

/// The table read from `rows` (each already split at `|`): rows of fewer than
/// ten fields are skipped, a later row for an id replaces an earlier one.
pub open spec fn rows_table(rows: Seq<Seq<Seq<char>>>, v2: bool) -> Map<u64, NodeText>
    decreases rows.len(),
{
    if rows.len() == 0 {
        Map::<u64, NodeText>::empty()
    } else {
        let m = rows_table(rows.drop_last(), v2);
        let p = rows.last();
        if p.len() < 10 {
            m
        } else {
            m.insert(row_node(p, v2).id, row_node(p, v2))
        }
    }
}

/// The largest id among the rows of at least ten fields, or 0.
pub open spec fn rows_max_id(rows: Seq<Seq<Seq<char>>>) -> u64
    decreases rows.len(),
{
    if rows.len() == 0 {
        0
    } else {
        let m = rows_max_id(rows.drop_last());
        let p = rows.last();
        if p.len() >= 10 && num_or_zero(p[1]) > m {
            num_or_zero(p[1])
        } else {
            m
        }
    }
}

/// The rows of a tree text, split at `|`.
pub open spec fn tsv_rows(text: Seq<char>) -> Seq<Seq<Seq<char>>> {
    data_lines(text).skip(1).map_values(|l: Seq<char>| split_on(l, '|'))
}

pub open spec fn tsv_header(text: Seq<char>) -> Seq<Seq<char>> {
    split_on(data_lines(text)[0], '|')
}

/// The inputs on which reading a tree text would panic: a version-1 row it
/// cannot cut, or an id so large that the next free id overflows.
pub open spec fn tsv_unreadable(text: Seq<char>) -> bool {
    &&& data_lines(text).len() > 0
    &&& header_ok(tsv_header(text))
    &&& ({
        let v2 = tsv_header(text)[0] == seq!['V', '2'];
        let rows = tsv_rows(text);
        (!v2 && exists|i: int| 0 <= i < rows.len() && v1_row_uncuttable(#[trigger] rows[i]))
            || rows_max_id(rows) == u64::MAX
    })
}

fn is_chars2(s: &[char], a: char, b: char) -> (r: bool)
    ensures
        r == (s@ == seq![a, b]),
{
    if s.len() == 2 && s[0] == a && s[1] == b {
        proof {
            assert(s@ =~= seq![a, b]);
        }
        true
    } else {
        false
    }
}

fn is_true_text(s: &[char]) -> (r: bool)
    ensures
        r == (s@ == true_text()),
{
    if s.len() == 4 && s[0] == 't' && s[1] == 'r' && s[2] == 'u' && s[3] == 'e' {
        proof {
            assert(s@ =~= true_text());
        }
        true
    } else {
        false
    }
}

fn is_bool_chars(s: &[char]) -> (r: bool)
    ensures
        r == is_bool_text(s@),
{
    if is_true_text(s) {
        true
    } else if s.len() == 5 && s[0] == 'f' && s[1] == 'a' && s[2] == 'l' && s[3] == 's' && s[4]
        == 'e' {
        proof {
            assert(s@ =~= false_text());
        }
        true
    } else {
        false
    }
}

fn num_or_zero_chars(s: &[char]) -> (r: u64)
    ensures
        r == num_or_zero(s@),
{
    match parse_u64(s) {
        Some(v) => v,
        None => 0,
    }
}

/// Joins `parts[from..to]` with `sep`.
fn join_range(parts: &Vec<Vec<char>>, from: usize, to: usize, sep: char) -> (r: Vec<char>)
    requires
        from <= to <= parts@.len(),
    ensures
        r@ == join_with(views(parts@).subrange(from as int, to as int), sep),
{
    let mut out: Vec<char> = Vec::new();
    let ghost v = views(parts@);
    if from == to {
        proof {
            assert(v.subrange(from as int, to as int).len() == 0);
        }
        return out;
    }
    push_all(&mut out, parts[from].as_slice());
    proof {
        assert(v.subrange(from as int, from + 1) =~= seq![v[from as int]]);
        assert(out@ =~= v[from as int]);
    }
    let mut i: usize = from + 1;
    while i < to
        invariant
            from < i <= to,
            to <= parts@.len(),
            v == views(parts@),
            out@ == join_with(v.subrange(from as int, i as int), sep),
        decreases to - i,
    {
        out.push(sep);
        push_all(&mut out, parts[i].as_slice());
        proof {
            assert(v.subrange(from as int, i + 1) =~= v.subrange(from as int, i as int).push(
                v[i as int],
            ));
            lemma_join_push(v.subrange(from as int, i as int), v[i as int], sep);
        }
        i = i + 1;
    }
    out
}

/// `split_chars` as one sequence of views.
fn split_views(s: &[char], sep: char) -> (r: Vec<Vec<char>>)
    ensures
        views(r@) == split_on(s@, sep),
{
    let r = split_chars(s, sep);
    proof {
        assert(views(r@) =~= split_on(s@, sep));
    }
    r
}

/// Reads the name field of a version-2 row.
fn read_v2_name(field: &Vec<char>) -> (r: String)
    ensures
        r@ == v2_name(field@),
{
    let text = string_from_chars(field.as_slice());
    let bytes = match base64_standard_decode(text.as_str()) {
        Some(b) => b,
        None => Vec::new(),
    };
    proof {
        assert(bytes@ == (match base64_standard_decoded(field@) {
            Some(b) => b,
            None => Seq::<u8>::empty(),
        }));
    }
    match utf8_to_string(bytes) {
        Some(s) => s,
        None => text,
    }
}

/// Reads one row of at least ten fields.
fn read_row(p: &Vec<Vec<char>>, v2: bool) -> (r: VfsNode)
    requires
        p@.len() >= 10,
        !v2 ==> !v1_row_uncuttable(views(p@)),
    ensures
        node_text(r) == row_node(views(p@), v2),
{
    let ghost pv = views(p@);
    let n = p.len();
    let s: usize = if v2 {
        4
    } else {
        let last_b = is_bool_chars(p[n - 1].as_slice());
        let prev_b = is_bool_chars(p[n - 2].as_slice());
        if prev_b && last_b {
            n - 8
        } else if last_b {
            n - 7
        } else {
            n - 6
        }
    };
    proof {
        assert(pv[n - 1] == p@[n - 1]@);
        assert(pv[n - 2] == p@[n - 2]@);
        assert(s as int == (if v2 { 4 } else { v1_tail_start(pv) }));
    }
    let name = if v2 {
        read_v2_name(&p[3])
    } else {
        let joined = join_range(p, 3, s, '|');
        string_from_chars(joined.as_slice())
    };
    let node_type = if p[0].len() == 1 && p[0][0] == 'D' {
        proof {
            assert(p@[0]@ =~= seq!['D']);
        }
        NodeType::Directory
    } else {
        proof {
            if pv[0] == seq!['D'] {
                assert(p@[0]@.len() == 1);
            }
        }
        NodeType::File
    };
    let is_trashed = n - s > 6 && is_true_text(p[s + 6].as_slice());
    let is_deleted = n - s > 7 && is_true_text(p[s + 7].as_slice());
    let r = VfsNode {
        node_type,
        id: num_or_zero_chars(p[1].as_slice()),
        pid: num_or_zero_chars(p[2].as_slice()),
        name,
        lanzou_id: string_from_chars(p[s].as_slice()),
        time: num_or_zero_chars(p[s + 1].as_slice()),
        size: string_from_chars(p[s + 2].as_slice()),
        md5: string_from_chars(p[s + 3].as_slice()),
        ext: string_from_chars(p[s + 4].as_slice()),
        chunks: string_from_chars(p[s + 5].as_slice()),
        is_trashed,
        is_deleted,
    };
    proof {
        assert(node_text(r) =~= row_node(pv, v2));
    }
    r
}

fn string_of(v: &Vec<char>) -> (r: String)
    ensures
        r@ == v@,
{
    string_from_chars(v.as_slice())
}

/// The lines of a tree text that are not blank.
fn non_blank_lines(data: &str) -> (r: Vec<Vec<char>>)
    ensures
        views(r@) == data_lines(data@),
{
    let text = chars_of(data);
    let all_lines = lines_chars(text.as_slice());
    let mut lines: Vec<Vec<char>> = Vec::new();
    let ghost al = lines_of(data@);
    let ghost pred = |l: Seq<char>| !all_space(l);
    let mut i: usize = 0;
    while i < all_lines.len()
        invariant
            i <= all_lines@.len(),
            all_lines@.len() == al.len(),
            al == lines_of(data@),
            forall|k: int| 0 <= k < al.len() ==> (#[trigger] all_lines@[k])@ == al[k],
            pred == (|l: Seq<char>| !all_space(l)),
            views(lines@) == al.take(i as int).filter(pred),
        decreases all_lines.len() - i,
    {
        let ghost before = views(lines@);
        assert(all_lines@[i as int]@ == al[i as int]);
        let blank = is_blank(all_lines[i].as_slice());
        if !blank {
            let mut l: Vec<char> = Vec::new();
            push_all(&mut l, all_lines[i].as_slice());
            lines.push(l);
            proof {
                assert(views(lines@) =~= before.push(al[i as int]));
            }
        }
        proof {
            assert(blank == all_space(al[i as int]));
            assert(pred(al[i as int]) == !blank);
            lemma_filter_step(al, i as int, pred);
            if blank {
                assert(views(lines@) == before);
            }
        }
        i = i + 1;
    }
    proof {
        assert(al.take(i as int) =~= al);
        assert(views(lines@) == data_lines(data@));
    }
    lines
}

/// Whether a tree text can be read without a fault: not `tsv_unreadable`.
pub fn tsv_is_readable(data: &str) -> (r: bool)
    ensures
        r == !tsv_unreadable(data@),
{
    let lines = non_blank_lines(data);
    if lines.len() == 0 {
        return true;
    }
    let h = split_views(lines[0].as_slice(), '|');
    proof {
        assert(views(lines@)[0] == lines@[0]@);
        lemma_split_on_len(lines@[0]@, '|');
        assert(views(h@)[0] == h@[0]@);
    }
    if h.len() < 4 || (!is_chars2(h[0].as_slice(), 'V', '1') && !is_chars2(h[0].as_slice(), 'V', '2')) {
        return true;
    }
    let is_v2 = is_chars2(h[0].as_slice(), 'V', '2');
    let ghost rows = tsv_rows(data@);
    let mut bad = false;
    let mut max_id: u64 = 0;
    let mut j: usize = 1;
    proof {
        assert(rows.len() == lines@.len() - 1);
    }
    while j < lines.len()
        invariant
            1 <= j <= lines@.len(),
            rows == tsv_rows(data@),
            views(lines@) == data_lines(data@),
            rows.len() == lines@.len() - 1,
            is_v2 == (tsv_header(data@)[0] == seq!['V', '2']),
            bad == (!is_v2 && exists|i: int| 0 <= i < j - 1 && v1_row_uncuttable(#[trigger] rows[i])),
            max_id == rows_max_id(rows.take(j - 1)),
        decreases lines.len() - j,
    {
        let p = split_views(lines[j].as_slice(), '|');
        proof {
            assert(views(lines@)[j as int] == lines@[j as int]@);
            assert(rows[j - 1] == views(p@));
            assert(rows.take(j as int).drop_last() =~= rows.take(j - 1));
            assert(rows.take(j as int).last() == rows[j - 1]);
        }
        let ghost bad0 = bad;
        if p.len() >= 10 {
            let n = p.len();
            let last_b = is_bool_chars(p[n - 1].as_slice());
            let prev_b = is_bool_chars(p[n - 2].as_slice());
            let start: usize = if prev_b && last_b { n - 8 } else if last_b { n - 7 } else { n - 6 };
            proof {
                assert(views(p@)[n - 1] == p@[n - 1]@);
                assert(views(p@)[n - 2] == p@[n - 2]@);
                assert(start as int == v1_tail_start(rows[j - 1]));
            }
            if !is_v2 && start < 3 {
                bad = true;
            }
            let id = num_or_zero_chars(p[1].as_slice());
            proof {
                assert(views(p@)[1] == p@[1]@);
            }
            if id > max_id {
                max_id = id;
            }
        }
        proof {
            if !is_v2 {
                if v1_row_uncuttable(rows[j - 1]) {
                    assert(bad);
                }
                assert(bad == exists|i: int| 0 <= i < j && v1_row_uncuttable(#[trigger] rows[i])) by {
                    if exists|i: int| 0 <= i < j && v1_row_uncuttable(#[trigger] rows[i]) {
                        let i = choose|i: int| 0 <= i < j && v1_row_uncuttable(#[trigger] rows[i]);
                        if i < j - 1 {
                            assert(bad0);
                        }
                    }
                }
            }
        }
        j = j + 1;
    }
    proof {
        assert(rows.take(j - 1) =~= rows);
    }
    !(bad || max_id == u64::MAX)
}

impl VfsTree {
    /// Reads a tree from its text form. Blank lines are skipped; the first
    /// line left is the header. Rows of fewer than ten fields are skipped, and
    /// a later row for an id replaces an earlier one.
    pub fn from_tsv(data: &str, file_path: PathBuf) -> (r: Result<Self, String>)
        requires
            !tsv_unreadable(data@),
        ensures
            data_lines(data@).len() == 0 ==> (r matches Err(e) && e@ == "Empty tree file"@),
            data_lines(data@).len() > 0 && !header_ok(tsv_header(data@)) ==> (r matches Err(e)
                && e@ == "Invalid or unsupported tree file version"@),
            data_lines(data@).len() > 0 && header_ok(tsv_header(data@)) ==> r is Ok,
            r matches Ok(t) ==> ({
                let h = tsv_header(data@);
                let v2 = h[0] == seq!['V', '2'];
                &&& t.last_modified == num_or_zero(h[1])
                &&& t.root_lanzou_id@ == h[3]
                &&& t.deeperdir_lanzou_id@ == (if h.len() > 4 {
                    h[4]
                } else {
                    Seq::<char>::empty()
                })
                &&& table_text(t.nodes@) == rows_table(tsv_rows(data@), v2)
                &&& t.next_id == rows_max_id(tsv_rows(data@)) + 1
                &&& t.file_path == file_path
            }),
    {
        let lines = non_blank_lines(data);
        if lines.len() == 0 {
            return Err("Empty tree file".to_string());
        }
        let h = split_views(lines[0].as_slice(), '|');
        proof {
            assert(views(lines@)[0] == lines@[0]@);
            lemma_split_on_len(lines@[0]@, '|');
        }
        if h.len() < 4 || (!is_chars2(h[0].as_slice(), 'V', '1') && !is_chars2(h[0].as_slice(), 'V', '2')) {
            proof {
                assert(views(h@)[0] == h@[0]@);
            }
            return Err("Invalid or unsupported tree file version".to_string());
        }
        let is_v2 = is_chars2(h[0].as_slice(), 'V', '2');
        let last_modified = num_or_zero_chars(h[1].as_slice());
        let root_lanzou_id = string_of(&h[3]);
        let deeperdir_lanzou_id = if h.len() > 4 {
            string_of(&h[4])
        } else {
            String::new()
        };
        proof {
            assert(views(h@)[0] == h@[0]@);
            assert(views(h@)[1] == h@[1]@);
            assert(views(h@)[3] == h@[3]@);
            if h@.len() > 4 {
                assert(views(h@)[4] == h@[4]@);
            }
        }
        let ghost rows = tsv_rows(data@);
        let mut nodes: HashMap<u64, VfsNode> = HashMap::new();
        let mut max_id: u64 = 0;
        let mut j: usize = 1;
        proof {
            assert(rows.len() == lines@.len() - 1);
            assert(rows.take(0) =~= Seq::<Seq<Seq<char>>>::empty());
        }
        while j < lines.len()
            invariant
                1 <= j <= lines@.len(),
                rows == tsv_rows(data@),
                views(lines@) == data_lines(data@),
                rows.len() == lines@.len() - 1,
                is_v2 == (tsv_header(data@)[0] == seq!['V', '2']),
                header_ok(tsv_header(data@)),
                !tsv_unreadable(data@),
                table_text(nodes@) == rows_table(rows.take(j - 1), is_v2),
                max_id == rows_max_id(rows.take(j - 1)),
            decreases lines.len() - j,
        {
            let p = split_views(lines[j].as_slice(), '|');
            proof {
                assert(views(lines@)[j as int] == lines@[j as int]@);
                assert(rows[j - 1] == views(p@));
                assert(rows.take(j as int).drop_last() =~= rows.take(j - 1));
                assert(rows.take(j as int).last() == rows[j - 1]);
            }
            if p.len() >= 10 {
                proof {
                    if !is_v2 {
                        assert(!v1_row_uncuttable(rows[j - 1]));
                    }
                    lemma_max_id_below(rows, j as int);
                }
                let node = read_row(&p, is_v2);
                let id = node.id;
                if id > max_id {
                    max_id = id;
                }
                nodes.insert(id, node);
                proof {
                    assert(table_text(nodes@) =~= rows_table(rows.take(j as int), is_v2));
                }
            }
            j = j + 1;
        }
        proof {
            assert(rows.take(j - 1) =~= rows);
            lemma_max_id_below(rows, rows.len() as int);
        }
        Ok(VfsTree {
            last_modified,
            root_lanzou_id,
            deeperdir_lanzou_id,
            nodes,
            next_id: max_id + 1,
            file_path,
        })
    }
}

/// Filtering one more element of a prefix.
proof fn lemma_filter_step<A>(s: Seq<A>, i: int, pred: spec_fn(A) -> bool)
    requires
        0 <= i < s.len(),
    ensures
        s.take(i + 1).filter(pred) == (if pred(s[i]) {
            s.take(i).filter(pred).push(s[i])
        } else {
            s.take(i).filter(pred)
        }),
{
    reveal_with_fuel(Seq::filter, 1);
    assert(s.take(i + 1).drop_last() =~= s.take(i));
}

/// Below the last row, the running largest id is no larger than the final one.
proof fn lemma_max_id_below(rows: Seq<Seq<Seq<char>>>, j: int)
    requires
        0 <= j <= rows.len(),
    ensures
        rows_max_id(rows.take(j)) <= rows_max_id(rows),
    decreases rows.len() - j,
{
    if j < rows.len() {
        lemma_max_id_below(rows, j + 1);
        assert(rows.take(j + 1).drop_last() =~= rows.take(j));
    } else {
        assert(rows.take(j) =~= rows);
    }
}

// ----------------------------------------------------------------------
// Reading back what was written
// ----------------------------------------------------------------------

/// A field that a row or the header can carry as it is: no `|`, no line feed.
pub open spec fn field_safe(s: Seq<char>) -> bool {
    !s.contains('|') && !s.contains('\n')
}

/// The Base64 text of a node's name is drawn from the Base64 alphabet and
/// decodes to the name's bytes.
pub open spec fn name_codec_ok(n: VfsNode) -> bool {
    let b = base64_standard(encode_utf8(n.name@));
    &&& forall|i: int| 0 <= i < b.len() ==> is_base64_standard_char(#[trigger] b[i])
    &&& base64_standard_decoded(b) == Some(encode_utf8(n.name@))
}

/// A tree whose text reads back as itself: every node stored under its own
/// id, below the largest id (whose successor would overflow), the cloud ids
/// and the other raw fields free of `|` and line feeds, and the header not
/// ending in a carriage return, which reading would take for a line end.
pub open spec fn text_safe(t: VfsTree) -> bool {
    &&& forall|k: u64| #[trigger] t.nodes@.contains_key(k) ==> t.nodes@[k].id == k && k < u64::MAX
    &&& forall|k: u64| #[trigger] t.nodes@.contains_key(k) ==> {
        let n = t.nodes@[k];
        field_safe(n.lanzou_id@) && field_safe(n.size@) && field_safe(n.md5@) && field_safe(n.ext@)
            && field_safe(n.chunks@)
    }
    &&& field_safe(t.root_lanzou_id@)
    &&& field_safe(t.deeperdir_lanzou_id@)
    &&& !(t.deeperdir_lanzou_id@.len() > 0 && t.deeperdir_lanzou_id@.last() == '\r')
}

/// `text` reads back as tree `t`: a version-2 text that can be read, whose
/// header gives the tree's time and cloud folders and whose rows give its
/// table.
pub open spec fn reads_back(text: Seq<char>, t: VfsTree) -> bool {
    let h = tsv_header(text);
    &&& data_lines(text).len() > 0
    &&& header_ok(h)
    &&& h[0] == seq!['V', '2']
    &&& !tsv_unreadable(text)
    &&& rows_table(tsv_rows(text), true) == table_text(t.nodes@)
    &&& num_or_zero(h[1]) == t.last_modified
    &&& h[3] == t.root_lanzou_id@
    &&& h.len() > 4
    &&& h[4] == t.deeperdir_lanzou_id@
}

proof fn lemma_rows_max_id(rows: Seq<Seq<Seq<char>>>, v2: bool)
    ensures
        forall|k: u64| #[trigger] rows_table(rows, v2).contains_key(k) ==> k <= rows_max_id(rows),
        rows_table(rows, v2).dom().len() == 0 || rows_table(rows, v2).contains_key(rows_max_id(rows)),
        rows_table(rows, v2).dom().finite(),
        rows_table(rows, v2).dom().len() == 0 ==> rows_max_id(rows) == 0,
    decreases rows.len(),
{
    if rows.len() > 0 {
        let init = rows.drop_last();
        lemma_rows_max_id(init, v2);
        let p = rows.last();
        let m = rows_table(init, v2);
        if p.len() >= 10 {
            assert(row_node(p, v2).id == num_or_zero(p[1]));
            let r = rows_table(rows, v2);
            assert(r == m.insert(num_or_zero(p[1]), row_node(p, v2)));
            assert(r.contains_key(num_or_zero(p[1])));
            assert(r.dom().len() > 0);
        }
    } else {
        assert(rows_table(rows, v2).dom() =~= Set::<u64>::empty());
    }
}

/// How a version-1 row reads: its six fixed fields (cloud id, time, size,
/// checksum, extension, chunk count) are counted from the end of the row,
/// after them come up to two `true`/`false` flags: with two, the first says
/// the node is in the recycle bin and the last that it is deleted; with one,
/// it is the recycle-bin flag and the node is not deleted. What lies between
/// the first three fields and the tail is the name, pipes included.
pub proof fn law_v1_row_reads_from_its_end(p: Seq<Seq<char>>)
    requires
        p.len() >= 10,
    ensures
        ({
            let n = p.len() as int;
            let r = row_node(p, false);
            &&& r.id == num_or_zero(p[1]) && r.pid == num_or_zero(p[2])
            &&& (n >= 11 && is_bool_text(p[n - 2]) && is_bool_text(p[n - 1])) ==> {
                &&& r.is_deleted == (p[n - 1] == true_text())
                &&& r.is_trashed == (p[n - 2] == true_text())
                &&& r.chunks == p[n - 3] && r.ext == p[n - 4] && r.md5 == p[n - 5] && r.size == p[n - 6]
                &&& r.time == num_or_zero(p[n - 7]) && r.lanzou_id == p[n - 8]
                &&& r.name == join_with(p.subrange(3, n - 8), '|')
            }
            &&& (!is_bool_text(p[n - 2]) && is_bool_text(p[n - 1])) ==> {
                &&& !r.is_deleted
                &&& r.is_trashed == (p[n - 1] == true_text())
                &&& r.chunks == p[n - 2] && r.ext == p[n - 3] && r.md5 == p[n - 4] && r.size == p[n - 5]
                &&& r.time == num_or_zero(p[n - 6]) && r.lanzou_id == p[n - 7]
                &&& r.name == join_with(p.subrange(3, n - 7), '|')
            }
            &&& !is_bool_text(p[n - 1]) ==> {
                &&& !r.is_deleted && !r.is_trashed
                &&& r.chunks == p[n - 1] && r.ext == p[n - 2] && r.md5 == p[n - 3] && r.size == p[n - 4]
                &&& r.time == num_or_zero(p[n - 5]) && r.lanzou_id == p[n - 6]
                &&& r.name == join_with(p.subrange(3, n - 6), '|')
            }
        }),
{
}

/// How a version-2 row reads, field by field: type, id, parent, the name in
/// Base64, cloud id, time, size, checksum, extension, chunk count, then the
/// recycle-bin flag and the deleted flag when the row holds them.
pub proof fn law_v2_row_reads_by_position(p: Seq<Seq<char>>)
    requires
        p.len() >= 10,
    ensures
        ({
            let r = row_node(p, true);
            &&& r.id == num_or_zero(p[1]) && r.pid == num_or_zero(p[2]) && r.name == v2_name(p[3])
            &&& r.lanzou_id == p[4] && r.time == num_or_zero(p[5]) && r.size == p[6] && r.md5 == p[7]
            &&& r.ext == p[8] && r.chunks == p[9]
            &&& r.is_trashed == (p.len() > 10 && p[10] == true_text())
            &&& r.is_deleted == (p.len() > 11 && p[11] == true_text())
        }),
{
}

/// Reading back a text that holds tree `t` gives the next id after the
/// largest id of the tree: the reader's `rows_max_id` is the tree's largest
/// key, and 0 for an empty tree.
pub proof fn law_read_back_next_id(text: Seq<char>, t: VfsTree)
    requires
        reads_back(text, t),
    ensures
        forall|k: u64| #[trigger] t.nodes@.contains_key(k) ==> k <= rows_max_id(tsv_rows(text)),
        t.nodes@.dom().len() > 0 ==> t.nodes@.contains_key(rows_max_id(tsv_rows(text))),
        t.nodes@.dom().len() == 0 ==> rows_max_id(tsv_rows(text)) == 0,
{
    let rows = tsv_rows(text);
    lemma_rows_max_id(rows, true);
    assert(rows_table(rows, true).dom() =~= t.nodes@.dom());
}

proof fn lemma_decimal_safe(n: nat)
    ensures
        field_safe(decimal(n)),
        decimal(n).len() >= 1,
{
    crate::text::lemma_decimal_digits(n);
    assert(!decimal(n).contains('|')) by {
        if decimal(n).contains('|') {
            let i = choose|i: int| 0 <= i < decimal(n).len() && decimal(n)[i] == '|';
            assert(crate::text::is_digit_char(decimal(n)[i]));
        }
    }
    assert(!decimal(n).contains('\n')) by {
        if decimal(n).contains('\n') {
            let i = choose|i: int| 0 <= i < decimal(n).len() && decimal(n)[i] == '\n';
            assert(crate::text::is_digit_char(decimal(n)[i]));
        }
    }
}

proof fn lemma_base64_safe(b: Seq<char>)
    requires
        forall|i: int| 0 <= i < b.len() ==> is_base64_standard_char(#[trigger] b[i]),
    ensures
        field_safe(b),
{
    assert(!b.contains('|')) by {
        if b.contains('|') {
            let i = choose|i: int| 0 <= i < b.len() && b[i] == '|';
            assert(is_base64_standard_char(b[i]));
        }
    }
    assert(!b.contains('\n')) by {
        if b.contains('\n') {
            let i = choose|i: int| 0 <= i < b.len() && b[i] == '\n';
            assert(is_base64_standard_char(b[i]));
        }
    }
}

/// The last character of a join is that of its last piece, when that piece
/// is not empty.
proof fn lemma_join_last(parts: Seq<Seq<char>>, sep: char)
    requires
        parts.len() >= 1,
    ensures
        parts.last().len() > 0 ==> join_with(parts, sep).len() > 0 && join_with(parts, sep).last()
            == parts.last().last(),
        parts.last().len() == 0 && parts.len() >= 2 ==> join_with(parts, sep).len() > 0 && join_with(
            parts,
            sep,
        ).last() == sep,
{
    if parts.len() >= 2 {
        let j = join_with(parts.drop_last(), sep).push(sep);
        assert(join_with(parts, sep) == j + parts.last());
        if parts.last().len() == 0 {
            assert(j + parts.last() =~= j);
        }
    }
}

/// Splitting the terminated lines at line feeds gives the lines and one
/// empty piece after the last line feed.
proof fn lemma_split_terminated(ls: Seq<Seq<char>>)
    requires
        forall|i: int| 0 <= i < ls.len() ==> !(#[trigger] ls[i]).contains('\n'),
    ensures
        split_on(terminated(ls), '\n') == ls.push(Seq::<char>::empty()),
    decreases ls.len(),
{
    if ls.len() == 0 {
        assert(split_on(Seq::<char>::empty(), '\n') =~= seq![Seq::<char>::empty()]);
    } else {
        let init = ls.drop_last();
        assert forall|i: int| 0 <= i < init.len() implies !(#[trigger] init[i]).contains('\n') by {
            assert(init[i] == ls[i]);
        }
        lemma_split_terminated(init);
        let y = terminated(init) + ls.last();
        assert(!ls.last().contains('\n')) by {
            assert(ls[ls.len() - 1] == ls.last());
        }
        crate::text::lemma_split_append_free(terminated(init), ls.last(), '\n');
        let p = init.push(Seq::<char>::empty());
        assert(Seq::<char>::empty() + ls.last() =~= ls.last());
        assert(p.update(p.len() - 1, p.last() + ls.last()) =~= ls);
        assert(terminated(ls) == y.push('\n')) by {
            assert(y + seq!['\n'] =~= y.push('\n'));
        }
        assert(y.push('\n').drop_last() =~= y);
        assert(split_on(terminated(ls), '\n') =~= ls.push(Seq::<char>::empty()));
    }
}

proof fn lemma_lines_terminated(ls: Seq<Seq<char>>)
    requires
        forall|i: int| 0 <= i < ls.len() ==> !(#[trigger] ls[i]).contains('\n'),
        forall|i: int| 0 <= i < ls.len() ==> !((#[trigger] ls[i]).len() > 0 && ls[i].last() == '\r'),
    ensures
        lines_of(terminated(ls)) == ls,
{
    lemma_split_terminated(ls);
    let parts = ls.push(Seq::<char>::empty());
    assert(parts.take(parts.len() - 1) =~= ls);
    assert(ls.map_values(|l: Seq<char>| crate::text::strip_cr(l)) =~= ls) by {
        assert forall|i: int| 0 <= i < ls.len() implies crate::text::strip_cr(#[trigger] ls[i]) == ls[i] by {}
    }
}

proof fn lemma_filter_all<A>(s: Seq<A>, pred: spec_fn(A) -> bool)
    requires
        forall|i: int| 0 <= i < s.len() ==> pred(#[trigger] s[i]),
    ensures
        s.filter(pred) == s,
    decreases s.len(),
{
    if s.len() > 0 {
        let d = s.drop_last();
        assert forall|i: int| 0 <= i < d.len() implies pred(#[trigger] d[i]) by {
            assert(d[i] == s[i]);
        }
        lemma_filter_all(d, pred);
        reveal_with_fuel(Seq::filter, 1);
        let l = s.last();
        assert(l == s[s.len() - 1]);
        assert(pred(l));
        assert(s.filter(pred) == d.filter(pred).push(l));
        assert(d.push(l) =~= s);
    }
}

/// A line that starts with a letter is not blank.
proof fn lemma_not_blank(l: Seq<char>)
    requires
        l.len() > 0,
        l[0] == 'V' || l[0] == 'D' || l[0] == 'F',
    ensures
        !all_space(l),
{
    assert(!crate::text::is_space_char(l[0]));
}

/// A row's fields read back as its node.
proof fn lemma_row_reads_back(n: VfsNode)
    requires
        name_codec_ok(n),
        field_safe(n.lanzou_id@),
        field_safe(n.size@),
        field_safe(n.md5@),
        field_safe(n.ext@),
        field_safe(n.chunks@),
    ensures
        split_on(join_with(row_fields(n), '|'), '|') == row_fields(n),
        row_node(row_fields(n), true) == node_text(n),
        num_or_zero(row_fields(n)[1]) == n.id,
{
    let f = row_fields(n);
    lemma_decimal_safe(n.id as nat);
    lemma_decimal_safe(n.pid as nat);
    lemma_decimal_safe(n.time as nat);
    lemma_base64_safe(base64_standard(encode_utf8(n.name@)));
    assert(field_safe(node_type_code(n.node_type))) by {
        assert(!node_type_code(n.node_type).contains('|')) by {
            if node_type_code(n.node_type).contains('|') {
                let i = choose|i: int| 0 <= i < node_type_code(n.node_type).len() && node_type_code(n.node_type)[i] == '|';
            }
        }
        assert(!node_type_code(n.node_type).contains('\n')) by {
            if node_type_code(n.node_type).contains('\n') {
                let i = choose|i: int| 0 <= i < node_type_code(n.node_type).len() && node_type_code(n.node_type)[i] == '\n';
            }
        }
    }
    assert(field_safe(bool_text(n.is_trashed)) && field_safe(bool_text(n.is_deleted))) by {
        assert forall|b: bool| field_safe(#[trigger] bool_text(b)) by {
            assert(!bool_text(b).contains('|')) by {
                if bool_text(b).contains('|') {
                    let i = choose|i: int| 0 <= i < bool_text(b).len() && bool_text(b)[i] == '|';
                }
            }
            assert(!bool_text(b).contains('\n')) by {
                if bool_text(b).contains('\n') {
                    let i = choose|i: int| 0 <= i < bool_text(b).len() && bool_text(b)[i] == '\n';
                }
            }
        }
    }
    assert forall|i: int| 0 <= i < f.len() implies crate::text::free_of(#[trigger] f[i], '|') by {
        assert(field_safe(f[i]));
    }
    crate::text::lemma_split_join(f, '|');
    crate::text::lemma_decimal_parses(n.id as nat);
    crate::text::lemma_decimal_parses(n.pid as nat);
    crate::text::lemma_decimal_parses(n.time as nat);
    vstd::utf8::encode_utf8_valid_utf8(n.name@);
    vstd::utf8::encode_utf8_decode_utf8(n.name@);
    assert(v2_name(f[3]) == n.name@);
    if n.node_type == NodeType::File {
        assert(f[0][0] == 'F');
    }
    assert(f[0] == seq!['D'] <==> n.node_type == NodeType::Directory);
    assert(f[10] == true_text() <==> n.is_trashed);
    assert(f[11] == true_text() <==> n.is_deleted);
}

pub open spec fn row_lines(t: VfsTree, ks: Seq<u64>) -> Seq<Seq<char>> {
    ks.map_values(|k: u64| join_with(row_fields(t.nodes@[k]), '|'))
}

pub open spec fn header_line(t: VfsTree) -> Seq<char> {
    join_with(
        header_fields(t.last_modified, t.nodes@.len(), t.root_lanzou_id@, t.deeperdir_lanzou_id@),
        '|',
    )
}

/// The table a prefix of the rows builds: the nodes of the keys read so far.
proof fn lemma_rows_table_prefix(t: VfsTree, ks: Seq<u64>, rows: Seq<Seq<Seq<char>>>, j: int)
    requires
        is_key_order(ks, t.nodes@),
        text_safe(t),
        forall|k: u64| #[trigger] t.nodes@.contains_key(k) ==> name_codec_ok(t.nodes@[k]),
        rows == ks.map_values(|k: u64| row_fields(t.nodes@[k])),
        0 <= j <= ks.len(),
    ensures
        rows_table(rows.take(j), true) == Map::new(
            |k: u64| ks.take(j).contains(k),
            |k: u64| node_text(t.nodes@[k]),
        ),
        rows_max_id(rows.take(j)) < u64::MAX,
    decreases j,
{
    let m = t.nodes@;
    if j == 0 {
        assert(rows.take(0) =~= Seq::<Seq<Seq<char>>>::empty());
        assert(Map::new(|k: u64| ks.take(0).contains(k), |k: u64| node_text(m[k])) =~= Map::<u64, NodeText>::empty());
    } else {
        lemma_rows_table_prefix(t, ks, rows, j - 1);
        let k = ks[j - 1];
        assert(ks.contains(k)) by {
            assert(0 <= j - 1 < ks.len() && ks[j - 1] == k);
        }
        assert(m.contains_key(k));
        let n = m[k];
        lemma_row_reads_back(n);
        assert(rows.take(j).drop_last() =~= rows.take(j - 1));
        assert(rows.take(j).last() == row_fields(n));
        assert(row_node(row_fields(n), true).id == k);
        assert(Map::new(|x: u64| ks.take(j).contains(x), |x: u64| node_text(m[x])) =~= Map::new(
            |x: u64| ks.take(j - 1).contains(x),
            |x: u64| node_text(m[x]),
        ).insert(k, node_text(n))) by {
            assert forall|x: u64| ks.take(j).contains(x) <==> (ks.take(j - 1).contains(x) || x == k) by {
                if ks.take(j).contains(x) {
                    let i = choose|i: int| 0 <= i < j && #[trigger] ks.take(j)[i] == x;
                    if i < j - 1 {
                        assert(ks.take(j - 1)[i] == x);
                    }
                }
                if ks.take(j - 1).contains(x) {
                    let i = choose|i: int| 0 <= i < j - 1 && #[trigger] ks.take(j - 1)[i] == x;
                    assert(ks.take(j)[i] == x);
                }
                if x == k {
                    assert(ks.take(j)[j - 1] == x);
                }
            }
        }
    }
}

/// A row line: one line, not blank, not ending in a carriage return, and
/// split back into its fields.
proof fn lemma_row_line(n: VfsNode)
    requires
        name_codec_ok(n),
        field_safe(n.lanzou_id@),
        field_safe(n.size@),
        field_safe(n.md5@),
        field_safe(n.ext@),
        field_safe(n.chunks@),
    ensures
        ({
            let l = join_with(row_fields(n), '|');
            &&& !l.contains('\n')
            &&& l.len() > 0
            &&& !all_space(l)
            &&& l.last() != '\r'
            &&& split_on(l, '|') == row_fields(n)
        }),
{
    let f = row_fields(n);
    lemma_row_reads_back(n);
    lemma_decimal_safe(n.id as nat);
    lemma_decimal_safe(n.pid as nat);
    lemma_decimal_safe(n.time as nat);
    lemma_base64_safe(base64_standard(encode_utf8(n.name@)));
    assert forall|x: int| 0 <= x < f.len() implies !(#[trigger] f[x]).contains('\n') by {
        if x == 0 || x == 10 || x == 11 {
            if f[x].contains('\n') {
                let y = choose|y: int| 0 <= y < f[x].len() && f[x][y] == '\n';
            }
        }
    }
    lemma_join_free(f, '|', '\n');
    lemma_join_last(f, '|');
    lemma_join_first(f, '|');
    let l = join_with(f, '|');
    assert(l[0] == 'D' || l[0] == 'F');
    lemma_not_blank(l);
}

/// The header line: one line, not blank, not ending in a carriage return,
/// and split back into its fields.
proof fn lemma_header_line(t: VfsTree)
    requires
        text_safe(t),
    ensures
        ({
            let hdr = header_fields(t.last_modified, t.nodes@.len(), t.root_lanzou_id@, t.deeperdir_lanzou_id@);
            let l = header_line(t);
            &&& !l.contains('\n')
            &&& !all_space(l)
            &&& !(l.len() > 0 && l.last() == '\r')
            &&& split_on(l, '|') == hdr
        }),
{
    let hdr = header_fields(t.last_modified, t.nodes@.len(), t.root_lanzou_id@, t.deeperdir_lanzou_id@);
    lemma_decimal_safe(t.last_modified as nat);
    lemma_decimal_safe(t.nodes@.len());
    assert(field_safe(seq!['V', '2'])) by {
        assert(!seq!['V', '2'].contains('|')) by {
            if seq!['V', '2'].contains('|') {
                let i = choose|i: int| 0 <= i < 2 && seq!['V', '2'][i] == '|';
            }
        }
        assert(!seq!['V', '2'].contains('\n')) by {
            if seq!['V', '2'].contains('\n') {
                let i = choose|i: int| 0 <= i < 2 && seq!['V', '2'][i] == '\n';
            }
        }
    }
    assert forall|i: int| 0 <= i < hdr.len() implies crate::text::free_of(#[trigger] hdr[i], '|') by {
        assert(field_safe(hdr[i]));
    }
    assert forall|i: int| 0 <= i < hdr.len() implies !(#[trigger] hdr[i]).contains('\n') by {
        assert(field_safe(hdr[i]));
    }
    crate::text::lemma_split_join(hdr, '|');
    lemma_join_last(hdr, '|');
    lemma_join_free(hdr, '|', '\n');
    lemma_join_first(hdr, '|');
    lemma_not_blank(header_line(t));
}

/// The text of a safe tree reads back as the tree.
#[verifier::rlimit(60)]
proof fn lemma_text_reads_back(t: VfsTree, ks: Seq<u64>)
    requires
        is_key_order(ks, t.nodes@),
        text_safe(t),
        forall|k: u64| #[trigger] t.nodes@.contains_key(k) ==> name_codec_ok(t.nodes@[k]),
    ensures
        reads_back(tsv_text(t, ks), t),
{
    let m = t.nodes@;
    let text = tsv_text(t, ks);
    let hdr = header_fields(t.last_modified, m.len(), t.root_lanzou_id@, t.deeperdir_lanzou_id@);
    let hl = header_line(t);
    let rl = row_lines(t, ks);
    let ls = seq![hl] + rl;
    assert(text == terminated(ls));
    lemma_header_line(t);
    assert forall|i: int| 0 <= i < rl.len() implies {
        &&& !(#[trigger] rl[i]).contains('\n')
        &&& !all_space(rl[i])
        &&& !(rl[i].len() > 0 && rl[i].last() == '\r')
        &&& split_on(rl[i], '|') == row_fields(m[ks[i]])
    } by {
        assert(ks.contains(ks[i]));
        lemma_row_line(m[ks[i]]);
    }
    assert forall|i: int| 0 <= i < ls.len() implies !(#[trigger] ls[i]).contains('\n') && !(ls[i].len() > 0
        && ls[i].last() == '\r') && !all_space(ls[i]) by {
        if i > 0 {
            assert(ls[i] == rl[i - 1]);
        }
    }
    lemma_lines_terminated(ls);
    let pred = |l: Seq<char>| !all_space(l);
    assert forall|i: int| 0 <= i < ls.len() implies pred(#[trigger] ls[i]) by {}
    lemma_filter_all(ls, pred);
    assert(data_lines(text) == ls);
    assert(tsv_header(text) == hdr);
    let rows = ks.map_values(|k: u64| row_fields(m[k]));
    assert(tsv_rows(text) =~= rows) by {
        assert(ls.skip(1) =~= rl);
    }
    lemma_rows_table_prefix(t, ks, rows, ks.len() as int);
    assert(rows.take(ks.len() as int) =~= rows);
    assert(ks.take(ks.len() as int) =~= ks);
    assert(rows_table(rows, true) =~= table_text(m)) by {
        assert forall|k: u64| #[trigger] m.contains_key(k) implies ks.contains(k) by {}
    }
    crate::text::lemma_decimal_parses(t.last_modified as nat);
}

proof fn lemma_join_free(parts: Seq<Seq<char>>, sep: char, c: char)
    requires
        sep != c,
        forall|i: int| 0 <= i < parts.len() ==> !(#[trigger] parts[i]).contains(c),
    ensures
        !join_with(parts, sep).contains(c),
    decreases parts.len(),
{
    if parts.len() == 1 {
        assert(!parts[0].contains(c));
    } else if parts.len() >= 2 {
        let init = parts.drop_last();
        assert forall|i: int| 0 <= i < init.len() implies !(#[trigger] init[i]).contains(c) by {
            assert(init[i] == parts[i]);
        }
        lemma_join_free(init, sep, c);
        let j = join_with(init, sep).push(sep);
        assert(!parts.last().contains(c)) by {
            assert(parts[parts.len() - 1] == parts.last());
        }
        if (j + parts.last()).contains(c) {
            let x = choose|x: int| 0 <= x < (j + parts.last()).len() && (j + parts.last())[x] == c;
            if x < j.len() - 1 {
                assert(join_with(init, sep)[x] == c);
            } else if x >= j.len() {
                assert(parts.last()[x - j.len()] == c);
            }
        }
    }
}

proof fn lemma_join_first(parts: Seq<Seq<char>>, sep: char)
    requires
        parts.len() >= 1,
        parts[0].len() > 0,
    ensures
        join_with(parts, sep).len() > 0,
        join_with(parts, sep)[0] == parts[0][0],
    decreases parts.len(),
{
    if parts.len() >= 2 {
        let init = parts.drop_last();
        assert(init[0] == parts[0]);
        lemma_join_first(init, sep);
    }
}

} // verus!
