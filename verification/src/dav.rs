//! The WebDAV view of the tree: percent-decoding of request paths,
//! percent-encoding of hrefs, XML escaping, the Basic credentials a request
//! must carry, the listing of a folder with repeated names numbered, the
//! walk from a request path to a node and the `PROPFIND` reply.
use vstd::prelude::*;
use vstd::utf8::{decode_utf8, encode_utf8, valid_utf8};
use crate::external::{base64_standard, base64_standard_encode, utf8_to_string};
use std::collections::HashMap;
use crate::vfs::{child_filter, id_le, is_selection, nodes_at, sort_nodes, sorted_by, NodeType, SortKey,
    VfsNode, VfsTree};
use crate::text::{last_of, rfind_char, slice_chars, split_chars, split_on, str_eq, chars_of, decimal, parse_radix, parse_unsigned, push_all, push_decimal,
    push_str_chars, string_from_chars};

verus! {

broadcast use {vstd::utf8::group_utf8_lib, vstd::std_specs::hash::group_hash_axioms};

// ----------------------------------------------------------------------
// Percent-decoding
// ----------------------------------------------------------------------

/// The bytes a percent-encoded text stands for: `%` and the two characters
/// after it (a missing one reads as `0`) as a hexadecimal byte, dropped when
/// they are not one; `+` as a space; any other character as its UTF-8 bytes.
pub open spec fn percent_bytes(s: Seq<char>) -> Seq<u8>
    decreases s.len(),
{
    if s.len() == 0 {
        Seq::<u8>::empty()
    } else if s[0] == '%' {
        let h1 = if s.len() > 1 {
            s[1]
        } else {
            '0'
        };
        let h2 = if s.len() > 2 {
            s[2]
        } else {
            '0'
        };
        let rest = if s.len() > 3 {
            s.skip(3)
        } else {
            Seq::<char>::empty()
        };
        match parse_unsigned(seq![h1, h2], 16, 255) {
            Some(b) => seq![b as u8] + percent_bytes(rest),
            None => percent_bytes(rest),
        }
    } else if s[0] == '+' {
        seq![32u8] + percent_bytes(s.drop_first())
    } else {
        encode_utf8(seq![s[0]]) + percent_bytes(s.drop_first())
    }
}

/// A percent-encoded text decoded; the text itself when the bytes are not UTF-8.
pub open spec fn url_decoded(s: Seq<char>) -> Seq<char> {
    if valid_utf8(percent_bytes(s)) {
        decode_utf8(percent_bytes(s))
    } else {
        s
    }
}

fn push_bytes(out: &mut Vec<u8>, b: &[u8])
    ensures
        final(out)@ == old(out)@ + b@,
{
    let mut i: usize = 0;
    while i < b.len()
        invariant
            i <= b@.len(),
            out@ == old(out)@ + b@.take(i as int),
        decreases b.len() - i,
    {
        out.push(b[i]);
        i = i + 1;
        proof {
            assert(out@ =~= old(out)@ + b@.take(i as int));
        }
    }
    proof {
        assert(b@.take(i as int) =~= b@);
    }
}

/// The UTF-8 bytes of one character.
fn char_bytes(c: char) -> (r: Vec<u8>)
    ensures
        r@ == encode_utf8(seq![c]),
{
    let mut one: Vec<char> = Vec::new();
    one.push(c);
    let s = string_from_chars(one.as_slice());
    let b = s.as_str().as_bytes();
    let mut out: Vec<u8> = Vec::new();
    push_bytes(&mut out, b);
    proof {
        assert(one@ =~= seq![c]);
        assert(out@ =~= encode_utf8(seq![c]));
    }
    out
}

pub fn decode_url(input: &str) -> (r: String)
    ensures
        r@ == url_decoded(input@),
{
    let s = chars_of(input);
    let mut bytes: Vec<u8> = Vec::new();
    let mut i: usize = 0;
    proof {
        assert(s@.skip(0) =~= s@);
        assert(bytes@ + percent_bytes(s@) =~= percent_bytes(s@));
    }
    while i < s.len()
        invariant
            i <= s@.len(),
            s@ == input@,
            bytes@ + percent_bytes(s@.skip(i as int)) == percent_bytes(s@),
        decreases s.len() - i,
    {
        let ghost t = s@.skip(i as int);
        let c = s[i];
        if c == '%' {
            let h1 = if s.len() - i > 1 {
                s[i + 1]
            } else {
                '0'
            };
            let h2 = if s.len() - i > 2 {
                s[i + 2]
            } else {
                '0'
            };
            let mut pair: Vec<char> = Vec::new();
            pair.push(h1);
            pair.push(h2);
            let next = if s.len() - i > 3 {
                i + 3
            } else {
                s.len()
            };
            proof {
                assert(pair@ =~= seq![if t.len() > 1 { t[1] } else { '0' }, if t.len() > 2 { t[2] } else { '0' }]);
                if t.len() > 3 {
                    assert(s@.skip(next as int) =~= t.skip(3));
                } else {
                    assert(s@.skip(next as int) =~= Seq::<char>::empty());
                }
            }
            match parse_radix(pair.as_slice(), 16, 255) {
                Some(b) => {
                    bytes.push(b as u8);
                },
                None => {},
            }
            proof {
                assert(bytes@ + percent_bytes(s@.skip(next as int)) =~= percent_bytes(s@));
            }
            i = next;
        } else if c == '+' {
            bytes.push(32u8);
            proof {
                assert(s@.skip(i + 1) =~= t.drop_first());
                assert(bytes@ + percent_bytes(s@.skip(i + 1)) =~= percent_bytes(s@));
            }
            i = i + 1;
        } else {
            let cb = char_bytes(c);
            push_bytes(&mut bytes, cb.as_slice());
            proof {
                assert(s@.skip(i + 1) =~= t.drop_first());
                assert(bytes@ + percent_bytes(s@.skip(i + 1)) =~= percent_bytes(s@));
            }
            i = i + 1;
        }
    }
    proof {
        assert(s@.skip(i as int) =~= Seq::<char>::empty());
        assert(bytes@ =~= percent_bytes(input@));
    }
    match utf8_to_string(bytes) {
        Some(t) => t,
        None => string_from_chars(s.as_slice()),
    }
}

// ----------------------------------------------------------------------
// XML escaping
// ----------------------------------------------------------------------

/// A character as it is written in XML text.
pub open spec fn xml_char(c: char) -> Seq<char> {
    if c == '&' {
        "&amp;"@
    } else if c == '<' {
        "&lt;"@
    } else if c == '>' {
        "&gt;"@
    } else if c == '"' {
        "&quot;"@
    } else if c == '\'' {
        "&apos;"@
    } else {
        seq![c]
    }
}

/// Text with the five XML special characters replaced by their entities.
pub open spec fn xml_escaped(s: Seq<char>) -> Seq<char>
    decreases s.len(),
{
    if s.len() == 0 {
        Seq::<char>::empty()
    } else {
        xml_escaped(s.drop_last()) + xml_char(s.last())
    }
}

pub fn quick_xml_escape(s: &str) -> (r: String)
    ensures
        r@ == xml_escaped(s@),
{
    let cs = chars_of(s);
    let mut out: Vec<char> = Vec::new();
    let mut i: usize = 0;
    while i < cs.len()
        invariant
            i <= cs@.len(),
            cs@ == s@,
            out@ == xml_escaped(cs@.take(i as int)),
        decreases cs.len() - i,
    {
        let c = cs[i];
        if c == '&' {
            push_str_chars(&mut out, "&amp;");
        } else if c == '<' {
            push_str_chars(&mut out, "&lt;");
        } else if c == '>' {
            push_str_chars(&mut out, "&gt;");
        } else if c == '"' {
            push_str_chars(&mut out, "&quot;");
        } else if c == '\'' {
            push_str_chars(&mut out, "&apos;");
        } else {
            out.push(c);
        }
        proof {
            assert(cs@.take(i + 1).drop_last() =~= cs@.take(i as int));
            assert(out@ =~= xml_escaped(cs@.take(i + 1)));
        }
        i = i + 1;
    }
    proof {
        assert(cs@.take(i as int) =~= s@);
    }
    string_from_chars(out.as_slice())
}

// ----------------------------------------------------------------------
// Percent-encoding of path segments
// ----------------------------------------------------------------------

/// A byte that stands for itself in a segment: an ASCII letter or digit, or
/// one of `-`, `_`, `.`, `~`.
pub open spec fn is_unreserved(b: u8) -> bool {
    (48 <= b <= 57) || (65 <= b <= 90) || (97 <= b <= 122) || b == 45 || b == 95 || b == 46
        || b == 126
}

pub open spec fn upper_hex_char(d: nat) -> char {
    if d < 10 {
        ((d + 48) as u8) as char
    } else {
        ((d + 55) as u8) as char
    }
}

/// A byte as a segment writes it.
pub open spec fn encoded_byte(b: u8) -> Seq<char> {
    if is_unreserved(b) {
        seq![b as char]
    } else {
        seq!['%', upper_hex_char((b / 16) as nat), upper_hex_char((b % 16) as nat)]
    }
}

pub open spec fn encoded_bytes(b: Seq<u8>) -> Seq<char>
    decreases b.len(),
{
    if b.len() == 0 {
        Seq::<char>::empty()
    } else {
        encoded_bytes(b.drop_last()) + encoded_byte(b.last())
    }
}

/// A path segment percent-encoded byte by byte, as an href carries it.
pub open spec fn segment_encoded(s: Seq<char>) -> Seq<char> {
    encoded_bytes(encode_utf8(s))
}

fn upper_hex_exec(d: u8) -> (c: char)
    requires
        d < 16,
    ensures
        c == upper_hex_char(d as nat),
{
    if d < 10 {
        (d + 48) as char
    } else {
        (d + 55) as char
    }
}

pub fn url_encode_segment(input: &str) -> (r: String)
    ensures
        r@ == segment_encoded(input@),
{
    let bytes = input.as_bytes();
    let mut out: Vec<char> = Vec::new();
    let mut i: usize = 0;
    while i < bytes.len()
        invariant
            i <= bytes@.len(),
            bytes@ == encode_utf8(input@),
            out@ == encoded_bytes(bytes@.take(i as int)),
        decreases bytes.len() - i,
    {
        let b = bytes[i];
        if (48 <= b && b <= 57) || (65 <= b && b <= 90) || (97 <= b && b <= 122) || b == 45 || b
            == 95 || b == 46 || b == 126 {
            out.push(b as char);
        } else {
            out.push('%');
            out.push(upper_hex_exec(b / 16));
            out.push(upper_hex_exec(b % 16));
        }
        proof {
            assert(bytes@.take(i + 1).drop_last() =~= bytes@.take(i as int));
            assert(out@ =~= encoded_bytes(bytes@.take(i + 1)));
        }
        i = i + 1;
    }
    proof {
        assert(bytes@.take(i as int) =~= bytes@);
    }
    string_from_chars(out.as_slice())
}

// ----------------------------------------------------------------------
// Credentials
// ----------------------------------------------------------------------

/// The `Authorization` value a request must carry for `username` and `password`.
pub open spec fn basic_auth_value(username: Seq<char>, password: Seq<char>) -> Seq<char> {
    "Basic "@ + base64_standard(encode_utf8(username + seq![':'] + password))
}

pub fn expected_basic_auth(username: &str, password: &str) -> (r: String)
    ensures
        r@ == basic_auth_value(username@, password@),
{
    let mut raw: Vec<char> = chars_of(username);
    raw.push(':');
    push_str_chars(&mut raw, password);
    let raw_s = string_from_chars(raw.as_slice());
    let enc = base64_standard_encode(raw_s.as_str().as_bytes());
    let mut out: Vec<char> = chars_of("Basic ");
    push_str_chars(&mut out, enc.as_str());
    proof {
        assert(raw@ =~= username@ + seq![':'] + password@);
    }
    string_from_chars(out.as_slice())
}

/// Whether a request's `Authorization` value (empty when it has none) grants access.
pub fn is_authorized(auth: &str, username: &str, password: &str) -> (r: bool)
    ensures
        r == (auth@ == basic_auth_value(username@, password@)),
{
    let expected = expected_basic_auth(username, password);
    crate::text::str_eq(auth, expected.as_str())
}

// ----------------------------------------------------------------------
// Folder listings with repeated names numbered
// ----------------------------------------------------------------------

/// Every node is stored under its own id, as every tree the library builds is.
pub open spec fn ids_match(m: Map<u64, VfsNode>) -> bool {
    forall|k: u64| m.contains_key(k) ==> #[trigger] m[k].id == k
}

pub open spec fn strictly_by_id(s: Seq<VfsNode>) -> bool {
    forall|i: int, j: int| 0 <= i < j < s.len() ==> (#[trigger] s[i]).id < (#[trigger] s[j]).id
}

/// `s` lists, by ascending id, the children of `pid` that are neither
/// tombstoned nor in the recycle bin.
pub open spec fn is_dav_listing(s: Seq<VfsNode>, m: Map<u64, VfsNode>, pid: u64) -> bool {
    &&& strictly_by_id(s)
    &&& forall|n: VfsNode| #[trigger] s.contains(n) <==> (m.contains_key(n.id) && m[n.id] == n && child_filter(pid, true)(n))
}

/// The nodes shown in folder `pid`, by ascending id.
pub open spec fn dav_nodes(m: Map<u64, VfsNode>, pid: u64) -> Seq<VfsNode> {
    choose|s: Seq<VfsNode>| is_dav_listing(s, m, pid)
}

/// How many nodes of `s` are named `name`.
pub open spec fn name_count(s: Seq<VfsNode>, name: Seq<char>) -> nat
    decreases s.len(),
{
    if s.len() == 0 {
        0
    } else {
        name_count(s.drop_last(), name) + if s.last().name@ == name {
            1nat
        } else {
            0nat
        }
    }
}

/// The name shown for the `k`-th repeat of `name` (0 for the first): the
/// number goes in brackets before the extension.
pub open spec fn numbered_name(name: Seq<char>, k: nat) -> Seq<char> {
    if k == 0 {
        name
    } else {
        match last_of(name, '.') {
            Some(i) => name.take(i) + " ("@ + decimal(k) + ")"@ + name.skip(i),
            None => name + " ("@ + decimal(k) + ")"@,
        }
    }
}

/// Nodes paired with the names they are shown under.
pub open spec fn with_shown_names(s: Seq<VfsNode>) -> Seq<(VfsNode, Seq<char>)> {
    Seq::new(s.len(), |i: int| (s[i], numbered_name(s[i].name@, name_count(s.take(i), s[i].name@))))
}

/// Folder `pid` as WebDAV shows it.
pub open spec fn dav_listing(m: Map<u64, VfsNode>, pid: u64) -> Seq<(VfsNode, Seq<char>)> {
    with_shown_names(dav_nodes(m, pid))
}

pub open spec fn pair_views(r: Seq<(VfsNode, String)>) -> Seq<(VfsNode, Seq<char>)> {
    r.map_values(|p: (VfsNode, String)| (p.0, p.1@))
}

pub open spec fn first_nodes(r: Seq<(VfsNode, String)>) -> Seq<VfsNode> {
    r.map_values(|p: (VfsNode, String)| p.0)
}

/// Two listings by strictly ascending id with the same nodes are the same.
proof fn lemma_strict_listing_unique(s1: Seq<VfsNode>, s2: Seq<VfsNode>)
    requires
        strictly_by_id(s1),
        strictly_by_id(s2),
        forall|n: VfsNode| s1.contains(n) <==> s2.contains(n),
    ensures
        s1 == s2,
    decreases s1.len(),
{
    if s1.len() == 0 {
        if s2.len() > 0 {
            assert(s2.contains(s2[0]));
        }
        assert(s1 =~= s2);
    } else {
        assert(s1.contains(s1[0]));
        assert(s2.len() > 0);
        assert(s2.contains(s2[0]));
        let j = choose|j: int| 0 <= j < s2.len() && s2[j] == s1[0];
        let i = choose|i: int| 0 <= i < s1.len() && s1[i] == s2[0];
        assert(s1[0] == s2[0]) by {
            if j > 0 {
                assert(s2[0].id < s2[j].id);
                if i > 0 {
                    assert(s1[0].id < s1[i].id);
                }
            }
        }
        let t1 = s1.drop_first();
        let t2 = s2.drop_first();
        assert forall|n: VfsNode| t1.contains(n) <==> t2.contains(n) by {
            if t1.contains(n) {
                let a = choose|a: int| 0 <= a < t1.len() && t1[a] == n;
                assert(s1[a + 1] == n);
                assert(s1[0].id < s1[a + 1].id);
                assert(s2.contains(n));
                let b = choose|b: int| 0 <= b < s2.len() && s2[b] == n;
                assert(b != 0);
                assert(t2[b - 1] == n);
            }
            if t2.contains(n) {
                let a = choose|a: int| 0 <= a < t2.len() && t2[a] == n;
                assert(s2[a + 1] == n);
                assert(s2[0].id < s2[a + 1].id);
                assert(s1.contains(n));
                let b = choose|b: int| 0 <= b < s1.len() && s1[b] == n;
                assert(b != 0);
                assert(t1[b - 1] == n);
            }
        }
        lemma_strict_listing_unique(t1, t2);
        assert(s1 =~= seq![s1[0]] + t1);
        assert(s2 =~= seq![s2[0]] + t2);
    }
}

/// In a tree whose nodes are stored under their ids, a selection of the
/// children sorted by id is the listing.
proof fn lemma_selection_is_listing(s: Seq<VfsNode>, m: Map<u64, VfsNode>, pid: u64)
    requires
        ids_match(m),
        sorted_by(s, SortKey::Id),
        is_selection(s, m, child_filter(pid, true)),
    ensures
        is_dav_listing(s, m, pid),
        s == dav_nodes(m, pid),
{
    broadcast use vstd::seq_lib::group_to_multiset_ensures;

    let keep = child_filter(pid, true);
    let ks = choose|ks: Seq<u64>|
        #![trigger nodes_at(m, ks)]
        ks.no_duplicates() && (forall|k: u64| ks.contains(k) <==> (m.contains_key(k) && keep(m[k])))
            && s.to_multiset() == nodes_at(m, ks).to_multiset();
    let na = nodes_at(m, ks);
    assert forall|a: int, b: int| 0 <= a < na.len() && 0 <= b < na.len() && a != b implies na[a] != na[b] by {
        assert(ks.contains(ks[a]) && ks.contains(ks[b]));
        assert(m[ks[a]].id == ks[a]);
        assert(m[ks[b]].id == ks[b]);
    }
    na.lemma_multiset_has_no_duplicates();
    s.lemma_multiset_has_no_duplicates_conv();
    assert forall|n: VfsNode| #[trigger] s.contains(n) <==> (m.contains_key(n.id) && m[n.id] == n && keep(n)) by {
        if s.contains(n) {
            assert(s.to_multiset().contains(n));
            assert(na.contains(n));
            let a = choose|a: int| 0 <= a < na.len() && na[a] == n;
            assert(ks.contains(ks[a]));
            assert(m[ks[a]].id == ks[a]);
        }
        if m.contains_key(n.id) && m[n.id] == n && keep(n) {
            assert(ks.contains(n.id));
            let a = choose|a: int| 0 <= a < ks.len() && ks[a] == n.id;
            assert(na[a] == n);
            assert(na.contains(n));
            assert(na.to_multiset().contains(n));
        }
    }
    assert forall|i: int, j: int| 0 <= i < j < s.len() implies (#[trigger] s[i]).id < (#[trigger] s[j]).id by {
        assert(id_le(s[i], s[j]));
        if s[i].id == s[j].id {
            assert(s.contains(s[i]) && s.contains(s[j]));
            assert(s[i] == s[j]);
        }
    }
    assert(is_dav_listing(s, m, pid));
    let c = dav_nodes(m, pid);
    assert(is_dav_listing(c, m, pid));
    lemma_strict_listing_unique(s, c);
}

/// How many of `s[..i]` are named like `name`.
fn count_named(s: &Vec<VfsNode>, i: usize, name: &String) -> (r: u64)
    requires
        i <= s@.len(),
    ensures
        r == name_count(s@.take(i as int), name@),
{
    let mut c: u64 = 0;
    let mut j: usize = 0;
    while j < i
        invariant
            j <= i <= s@.len(),
            c == name_count(s@.take(j as int), name@),
            c <= j,
        decreases i - j,
    {
        let same = str_eq(s[j].name.as_str(), name.as_str());
        if same {
            c = c + 1;
        }
        proof {
            assert(s@.take(j + 1).drop_last() =~= s@.take(j as int));
        }
        j = j + 1;
    }
    c
}

/// The name shown for the `k`-th repeat of `name`.
fn shown_name(name: &String, k: u64) -> (r: String)
    ensures
        r@ == numbered_name(name@, k as nat),
{
    if k == 0 {
        return name.clone();
    }
    let cs = chars_of(name.as_str());
    let mut out: Vec<char> = Vec::new();
    match rfind_char(cs.as_slice(), '.') {
        Some(i) => {
            let head = slice_chars(cs.as_slice(), 0, i);
            let tail = slice_chars(cs.as_slice(), i, cs.len());
            push_all(&mut out, head.as_slice());
            push_str_chars(&mut out, " (");
            push_decimal(&mut out, k);
            push_str_chars(&mut out, ")");
            push_all(&mut out, tail.as_slice());
            proof {
                assert(head@ =~= name@.take(i as int));
                assert(tail@ =~= name@.skip(i as int));
                assert(out@ =~= numbered_name(name@, k as nat));
            }
        },
        None => {
            push_all(&mut out, cs.as_slice());
            push_str_chars(&mut out, " (");
            push_decimal(&mut out, k);
            push_str_chars(&mut out, ")");
            proof {
                assert(out@ =~= numbered_name(name@, k as nat));
            }
        },
    }
    string_from_chars(out.as_slice())
}

/// The children of `pid` shown over WebDAV, by ascending id, each with the
/// name it is shown under: a name that an earlier child already has gets
/// ` (n)` before its extension, `n` counting the earlier ones.
pub fn get_resolved_children(tree: &VfsTree, pid: u64) -> (r: Vec<(VfsNode, String)>)
    ensures
        sorted_by(first_nodes(r@), SortKey::Id),
        is_selection(first_nodes(r@), tree.nodes@, child_filter(pid, true)),
        pair_views(r@) == with_shown_names(first_nodes(r@)),
        ids_match(tree.nodes@) ==> pair_views(r@) == dav_listing(tree.nodes@, pid),
{
    let picked = tree.select_children(pid, true);
    let sorted = sort_nodes(picked, SortKey::Id);
    proof {
        let m = tree.nodes@;
        let ks = choose|ks: Seq<u64>|
            #![trigger nodes_at(m, ks)]
            ks.no_duplicates() && (forall|k: u64| ks.contains(k) <==> (m.contains_key(k) && child_filter(pid, true)(m[k])))
                && picked@.to_multiset() == nodes_at(m, ks).to_multiset();
        assert(sorted@.to_multiset() == nodes_at(m, ks).to_multiset());
        assert(is_selection(sorted@, m, child_filter(pid, true)));
    }
    let mut out: Vec<(VfsNode, String)> = Vec::new();
    let mut i: usize = 0;
    while i < sorted.len()
        invariant
            i <= sorted@.len(),
            first_nodes(out@) == sorted@.take(i as int),
            pair_views(out@) == with_shown_names(sorted@).take(i as int),
        decreases sorted.len() - i,
    {
        let k = count_named(&sorted, i, &sorted[i].name);
        let name = shown_name(&sorted[i].name, k);
        out.push((sorted[i].duplicate(), name));
        proof {
            assert(first_nodes(out@) =~= sorted@.take(i + 1));
            assert(pair_views(out@) =~= with_shown_names(sorted@).take(i + 1));
        }
        i = i + 1;
    }
    proof {
        assert(first_nodes(out@) =~= sorted@);
        assert(pair_views(out@) =~= with_shown_names(sorted@));
        if ids_match(tree.nodes@) {
            lemma_selection_is_listing(sorted@, tree.nodes@, pid);
        }
    }
    out
}

// ----------------------------------------------------------------------
// From a request path to a node
// ----------------------------------------------------------------------

/// The non-empty pieces of `p`, in order.
pub open spec fn nonempty_pieces(p: Seq<Seq<char>>) -> Seq<Seq<char>>
    decreases p.len(),
{
    if p.len() == 0 {
        Seq::<Seq<char>>::empty()
    } else if p.last().len() == 0 {
        nonempty_pieces(p.drop_last())
    } else {
        nonempty_pieces(p.drop_last()).push(p.last())
    }
}

pub open spec fn dav_prefix() -> Seq<char> {
    seq!['/', 'd', 'a', 'v']
}

/// The decoded segments of a request path below `/dav` (none when the path
/// is not below it).
pub open spec fn dav_segments(path: Seq<char>) -> Seq<Seq<char>> {
    let p = if path.len() >= 4 && path.take(4) == dav_prefix() {
        path.skip(4)
    } else {
        Seq::<char>::empty()
    };
    nonempty_pieces(split_on(p, '/')).map_values(|x: Seq<char>| url_decoded(x))
}

pub open spec fn string_views(v: Seq<String>) -> Seq<Seq<char>> {
    v.map_values(|x: String| x@)
}

/// Where a walk through the tree stands: the id reached, whether it is a
/// folder, its node (none for a root without one) and the name it was
/// reached by.
pub ghost struct DavPos {
    pub id: u64,
    pub is_dir: bool,
    pub node: Option<VfsNode>,
    pub name: Seq<char>,
}

pub open spec fn dav_root(m: Map<u64, VfsNode>) -> DavPos {
    DavPos {
        id: 0,
        is_dir: true,
        node: if m.contains_key(0) {
            Some(m[0])
        } else {
            None
        },
        name: "Root"@,
    }
}

/// `j` is the first entry of `l` shown as `name`.
pub open spec fn is_first_named(l: Seq<(VfsNode, Seq<char>)>, name: Seq<char>, j: int) -> bool {
    0 <= j < l.len() && l[j].1 == name && forall|k: int| 0 <= k < j ==> l[k].1 != name
}

/// One step down: the first child of the current folder shown as `seg`.
pub open spec fn dav_step(m: Map<u64, VfsNode>, pos: DavPos, seg: Seq<char>) -> Option<DavPos> {
    let l = dav_listing(m, pos.id);
    if exists|j: int| is_first_named(l, seg, j) {
        let j = choose|j: int| is_first_named(l, seg, j);
        Some(
            DavPos {
                id: l[j].0.id,
                is_dir: l[j].0.node_type == NodeType::Directory,
                node: Some(l[j].0),
                name: seg,
            },
        )
    } else {
        None
    }
}

/// The walk from the root along `segs`; `None` where a segment names no child.
pub open spec fn dav_walk(m: Map<u64, VfsNode>, segs: Seq<Seq<char>>) -> Option<DavPos>
    decreases segs.len(),
{
    if segs.len() == 0 {
        Some(dav_root(m))
    } else {
        match dav_walk(m, segs.drop_last()) {
            None => None,
            Some(p) => dav_step(m, p, segs.last()),
        }
    }
}

/// A walk that leads nowhere leads nowhere with more segments after it.
proof fn lemma_walk_none_extends(m: Map<u64, VfsNode>, s: Seq<Seq<char>>, k: int)
    requires
        0 <= k <= s.len(),
        dav_walk(m, s.take(k)) is None,
    ensures
        dav_walk(m, s) is None,
    decreases s.len() - k,
{
    if k < s.len() {
        assert(s.take(k + 1).drop_last() =~= s.take(k));
        lemma_walk_none_extends(m, s, k + 1);
    } else {
        assert(s.take(k) =~= s);
    }
}

/// What a request path leads to.
pub struct DavTarget {
    pub id: u64,
    pub is_dir: bool,
    pub node: Option<VfsNode>,
    pub name: String,
    pub segments: Vec<String>,
}

pub open spec fn target_pos(t: DavTarget) -> DavPos {
    DavPos { id: t.id, is_dir: t.is_dir, node: t.node, name: t.name@ }
}

/// The decoded segments of a request path below `/dav`.
pub fn dav_path_segments(path: &str) -> (r: Vec<String>)
    ensures
        string_views(r@) == dav_segments(path@),
{
    let cs = chars_of(path);
    let pre = chars_of("/dav");
    proof {
        reveal_strlit("/dav");
        assert(pre@ =~= dav_prefix());
    }
    let rest = if crate::text::has_prefix(cs.as_slice(), pre.as_slice()) {
        slice_chars(cs.as_slice(), 4, cs.len())
    } else {
        Vec::new()
    };
    let ghost p = if path@.len() >= 4 && path@.take(4) == dav_prefix() {
        path@.skip(4)
    } else {
        Seq::<char>::empty()
    };
    proof {
        assert(rest@ =~= p);
    }
    let pieces = split_chars(rest.as_slice(), '/');
    let ghost sp = split_on(p, '/');
    let mut out: Vec<String> = Vec::new();
    let mut i: usize = 0;
    while i < pieces.len()
        invariant
            i <= pieces@.len(),
            pieces@.len() == sp.len(),
            forall|k: int| 0 <= k < pieces@.len() ==> (#[trigger] pieces@[k])@ == sp[k],
            string_views(out@) == nonempty_pieces(sp.take(i as int)).map_values(|x: Seq<char>| url_decoded(x)),
        decreases pieces.len() - i,
    {
        proof {
            assert(sp.take(i + 1).drop_last() =~= sp.take(i as int));
            assert(pieces@[i as int]@ == sp[i as int]);
        }
        let ghost before = out@;
        if pieces[i].len() > 0 {
            let piece = string_from_chars(pieces[i].as_slice());
            let d = decode_url(piece.as_str());
            out.push(d);
            proof {
                assert(sp.take(i + 1).last() == sp[i as int]);
                assert(nonempty_pieces(sp.take(i + 1)) == nonempty_pieces(sp.take(i as int)).push(sp[i as int]));
                assert(string_views(out@) =~= string_views(before).push(d@));
                assert(nonempty_pieces(sp.take(i + 1)).map_values(|x: Seq<char>| url_decoded(x)) =~= nonempty_pieces(
                    sp.take(i as int),
                ).map_values(|x: Seq<char>| url_decoded(x)).push(url_decoded(sp[i as int])));
                assert(string_views(out@) =~= nonempty_pieces(sp.take(i + 1)).map_values(|x: Seq<char>| url_decoded(x)));
            }
        } else {
            proof {
                assert(sp.take(i + 1).last() == sp[i as int]);
                assert(string_views(out@) =~= nonempty_pieces(sp.take(i + 1)).map_values(|x: Seq<char>| url_decoded(x)));
            }
        }
        i = i + 1;
    }
    proof {
        assert(sp.take(i as int) =~= sp);
    }
    out
}

/// Walks from the root along the segments of a request path. In a tree
/// whose nodes are stored under their ids, the target is where `dav_walk`
/// leads, and there is none exactly where it leads nowhere.
pub fn resolve_dav_path(tree: &VfsTree, path: &str) -> (r: Option<DavTarget>)
    ensures
        r matches Some(t) ==> string_views(t.segments@) == dav_segments(path@),
        ids_match(tree.nodes@) ==> match r {
            Some(t) => dav_walk(tree.nodes@, dav_segments(path@)) == Some(target_pos(t)),
            None => dav_walk(tree.nodes@, dav_segments(path@)) is None,
        },
{
    let segs = dav_path_segments(path);
    let ghost m = tree.nodes@;
    let ghost sv = string_views(segs@);
    let mut id: u64 = 0;
    let mut is_dir = true;
    let mut node: Option<VfsNode> = match tree.nodes.get(&0) {
        Some(n) => Some(n.duplicate()),
        None => None,
    };
    let mut name = "Root".to_string();
    let mut i: usize = 0;
    proof {
        assert(sv.take(0) =~= Seq::<Seq<char>>::empty());
    }
    while i < segs.len()
        invariant
            i <= segs@.len(),
            m == tree.nodes@,
            sv == string_views(segs@),
            sv == dav_segments(path@),
            ids_match(m) ==> dav_walk(m, sv.take(i as int)) == Some(DavPos { id, is_dir, node, name: name@ }),
        decreases segs.len() - i,
    {
        let children = get_resolved_children(tree, id);
        let mut found: Option<usize> = None;
        let mut j: usize = 0;
        while j < children.len()
            invariant
                j <= children@.len(),
                i < segs@.len(),
                match found {
                    None => forall|k: int| 0 <= k < j ==> (#[trigger] children@[k]).1@ != segs@[i as int]@,
                    Some(x) => x < j && children@[x as int].1@ == segs@[i as int]@ && forall|k: int|
                        0 <= k < x ==> (#[trigger] children@[k]).1@ != segs@[i as int]@,
                },
            decreases children.len() - j,
        {
            if found.is_none() && str_eq(children[j].1.as_str(), segs[i].as_str()) {
                found = Some(j);
            }
            j = j + 1;
        }
        proof {
            assert(sv.take(i + 1).drop_last() =~= sv.take(i as int));
            assert(sv[i as int] == segs@[i as int]@);
        }
        match found {
            None => {
                proof {
                    if ids_match(m) {
                        let l = dav_listing(m, id);
                        assert(pair_views(children@) == l);
                        assert forall|jj: int| !is_first_named(l, sv[i as int], jj) by {
                            if 0 <= jj < l.len() {
                                assert(l[jj].1 == children@[jj].1@);
                            }
                        }
                        assert(dav_walk(m, sv.take(i + 1)) is None);
                        lemma_walk_none_extends(m, sv, i + 1);
                    }
                }
                return None;
            },
            Some(j) => {
                proof {
                    if ids_match(m) {
                        let l = dav_listing(m, id);
                        assert(pair_views(children@) == l);
                        assert(is_first_named(l, sv[i as int], j as int)) by {
                            assert forall|k: int| 0 <= k < j implies l[k].1 != sv[i as int] by {
                                assert(l[k].1 == children@[k].1@);
                            }
                        }
                        let w = choose|w: int| is_first_named(l, sv[i as int], w);
                        assert(w == j) by {
                            if w < j {
                                assert(l[w].1 == children@[w].1@);
                            }
                            if w > j {
                                assert(l[j as int].1 == sv[i as int]);
                            }
                        }
                    }
                }
                let n = children[j].0.duplicate();
                id = n.id;
                is_dir = match n.node_type {
                    NodeType::Directory => true,
                    NodeType::File => false,
                };
                name = children[j].1.clone();
                node = Some(n);
            },
        }
        i = i + 1;
    }
    proof {
        assert(sv.take(i as int) =~= sv);
    }
    Some(DavTarget { id, is_dir, node, name, segments: segs })
}

// ----------------------------------------------------------------------
// PROPFIND replies
// ----------------------------------------------------------------------

/// The segments percent-encoded and joined with `/`.
pub open spec fn encoded_path(segs: Seq<Seq<char>>) -> Seq<char> {
    crate::text::join_with(segs.map_values(|x: Seq<char>| segment_encoded(x)), '/')
}

/// The href of a node reached by `segs`; a folder's ends with `/`.
pub open spec fn dav_href(segs: Seq<Seq<char>>, is_dir: bool) -> Seq<char> {
    let h = "/dav/"@ + encoded_path(segs);
    if is_dir && !(h.len() > 0 && h.last() == '/') {
        h.push('/')
    } else {
        h
    }
}

/// The `<D:response>` element of one node: its href, shown name, kind, size
/// for a file, a fixed modification date and status 200.
pub open spec fn propfind_entry(is_dir: bool, display_name: Seq<char>, segs: Seq<Seq<char>>, size: u64) -> Seq<char> {
    "  <D:response>\n"@ + "    <D:href>"@ + dav_href(segs, is_dir) + "</D:href>\n"@ + "    <D:propstat>\n"@
        + "      <D:prop>\n"@ + "        <D:displayname>"@ + xml_escaped(display_name)
        + "</D:displayname>\n"@ + (if is_dir {
        "        <D:resourcetype><D:collection/></D:resourcetype>\n"@
    } else {
        "        <D:resourcetype/>\n"@ + "        <D:getcontentlength>"@ + decimal(size as nat)
            + "</D:getcontentlength>\n"@
    }) + "        <D:getlastmodified>Tue, 23 Jun 2026 13:00:00 GMT</D:getlastmodified>\n"@
        + "      </D:prop>\n"@ + "      <D:status>HTTP/1.1 200 OK</D:status>\n"@
        + "    </D:propstat>\n"@ + "  </D:response>\n"@
}

fn encoded_path_chars(segs: &Vec<String>) -> (r: Vec<char>)
    ensures
        r@ == encoded_path(string_views(segs@)),
{
    let ghost e = string_views(segs@).map_values(|x: Seq<char>| segment_encoded(x));
    let mut out: Vec<char> = Vec::new();
    let mut i: usize = 0;
    while i < segs.len()
        invariant
            i <= segs@.len(),
            e == string_views(segs@).map_values(|x: Seq<char>| segment_encoded(x)),
            out@ == crate::text::join_with(e.take(i as int), '/'),
        decreases segs.len() - i,
    {
        let enc = url_encode_segment(segs[i].as_str());
        if i > 0 {
            out.push('/');
        }
        push_str_chars(&mut out, enc.as_str());
        proof {
            assert(e[i as int] == enc@);
            if i == 0 {
                assert(e.take(1) =~= seq![e[0]]);
            } else {
                assert(e.take(i + 1).drop_last() =~= e.take(i as int));
            }
            assert(out@ =~= crate::text::join_with(e.take(i + 1), '/'));
        }
        i = i + 1;
    }
    proof {
        assert(e.take(i as int) =~= e);
    }
    out
}

/// Appends the `<D:response>` element of one node to a `PROPFIND` reply.
/// `size` is the file's size in bytes (unused for a folder).
pub fn append_propfind_node(xml: &mut String, is_dir: bool, display_name: &str, path_segments: &Vec<String>, size: u64)
    ensures
        final(xml)@ == old(xml)@ + propfind_entry(is_dir, display_name@, string_views(path_segments@), size),
{
    let mut href: Vec<char> = chars_of("/dav/");
    let enc = encoded_path_chars(path_segments);
    push_all(&mut href, enc.as_slice());
    let ends_slash = href.len() > 0 && href[href.len() - 1] == '/';
    if is_dir && !ends_slash {
        href.push('/');
    }
    proof {
        assert(href@ =~= dav_href(string_views(path_segments@), is_dir));
    }
    let mut out: Vec<char> = Vec::new();
    push_str_chars(&mut out, "  <D:response>\n");
    push_str_chars(&mut out, "    <D:href>");
    push_all(&mut out, href.as_slice());
    push_str_chars(&mut out, "</D:href>\n");
    push_str_chars(&mut out, "    <D:propstat>\n");
    push_str_chars(&mut out, "      <D:prop>\n");
    push_str_chars(&mut out, "        <D:displayname>");
    let esc = quick_xml_escape(display_name);
    push_str_chars(&mut out, esc.as_str());
    push_str_chars(&mut out, "</D:displayname>\n");
    let ghost mid = out@;
    if is_dir {
        push_str_chars(&mut out, "        <D:resourcetype><D:collection/></D:resourcetype>\n");
    } else {
        push_str_chars(&mut out, "        <D:resourcetype/>\n");
        push_str_chars(&mut out, "        <D:getcontentlength>");
        push_decimal(&mut out, size);
        push_str_chars(&mut out, "</D:getcontentlength>\n");
    }
    push_str_chars(&mut out, "        <D:getlastmodified>Tue, 23 Jun 2026 13:00:00 GMT</D:getlastmodified>\n");
    push_str_chars(&mut out, "      </D:prop>\n");
    push_str_chars(&mut out, "      <D:status>HTTP/1.1 200 OK</D:status>\n");
    push_str_chars(&mut out, "    </D:propstat>\n");
    push_str_chars(&mut out, "  </D:response>\n");
    proof {
        assert(out@ =~= propfind_entry(is_dir, display_name@, string_views(path_segments@), size));
    }
    let text = string_from_chars(out.as_slice());
    xml.append(text.as_str());
}

/// The entries of the children of a folder reached by `segs`, each with its
/// size from `sizes`.
pub open spec fn children_entries(l: Seq<(VfsNode, Seq<char>)>, sizes: Seq<u64>, segs: Seq<Seq<char>>) -> Seq<char>
    decreases l.len(),
{
    if l.len() == 0 {
        Seq::<char>::empty()
    } else {
        let k = (l.len() - 1) as int;
        children_entries(l.drop_last(), sizes, segs) + propfind_entry(
            l[k].0.node_type == NodeType::Directory,
            l[k].1,
            segs.push(l[k].1),
            sizes[k],
        )
    }
}

pub open spec fn multistatus_head() -> Seq<char> {
    "<?xml version=\"1.0\" encoding=\"utf-8\" ?>\n<D:multistatus xmlns:D=\"DAV:\">\n"@
}

/// The `PROPFIND` reply for a target: its own entry and, for a folder asked
/// with `Depth: 1`, one entry per child.
pub open spec fn propfind_reply_text(
    t: DavTarget,
    target_size: u64,
    l: Seq<(VfsNode, Seq<char>)>,
    sizes: Seq<u64>,
    depth: Seq<char>,
) -> Seq<char> {
    let segs = string_views(t.segments@);
    multistatus_head() + propfind_entry(t.is_dir, t.name@, segs, target_size) + (if depth == "1"@
        && t.is_dir {
        children_entries(l, sizes, segs)
    } else {
        Seq::<char>::empty()
    }) + "</D:multistatus>"@
}

/// The whole `PROPFIND` reply. `target_size` is the target's size in bytes
/// and `child_sizes` those of `children`, in the same order.
pub fn propfind_reply(
    target: &DavTarget,
    target_size: u64,
    children: &Vec<(VfsNode, String)>,
    child_sizes: &Vec<u64>,
    depth: &str,
) -> (r: String)
    requires
        child_sizes@.len() == children@.len(),
    ensures
        r@ == propfind_reply_text(*target, target_size, pair_views(children@), child_sizes@, depth@),
{
    let mut xml = String::from_str("<?xml version=\"1.0\" encoding=\"utf-8\" ?>\n<D:multistatus xmlns:D=\"DAV:\">\n");
    append_propfind_node(&mut xml, target.is_dir, target.name.as_str(), &target.segments, target_size);
    let ghost segs = string_views(target.segments@);
    let ghost l = pair_views(children@);
    let ghost after_target = xml@;
    let one = str_eq(depth, "1");
    if one && target.is_dir {
        let mut i: usize = 0;
        proof {
            assert(l.take(0) =~= Seq::<(VfsNode, Seq<char>)>::empty());
        }
        while i < children.len()
            invariant
                i <= children@.len(),
                child_sizes@.len() == children@.len(),
                l == pair_views(children@),
                segs == string_views(target.segments@),
                xml@ == after_target + children_entries(l.take(i as int), child_sizes@, segs),
            decreases children.len() - i,
        {
            let mut child_path: Vec<String> = Vec::new();
            let mut k: usize = 0;
            while k < target.segments.len()
                invariant
                    k <= target.segments@.len(),
                    string_views(child_path@) == string_views(target.segments@).take(k as int),
                decreases target.segments.len() - k,
            {
                let ghost before = child_path@;
                let seg = target.segments[k].clone();
                assert(seg@ == target.segments@[k as int]@);
                child_path.push(seg);
                proof {
                    assert(child_path@ == before.push(seg));
                    assert(string_views(child_path@) =~= string_views(before).push(seg@));
                    assert(string_views(target.segments@).take(k + 1) =~= string_views(target.segments@).take(k as int).push(seg@));
                }
                k = k + 1;
            }
            child_path.push(children[i].1.clone());
            let child_is_dir = match children[i].0.node_type {
                NodeType::Directory => true,
                NodeType::File => false,
            };
            proof {
                assert(string_views(target.segments@).take(k as int) =~= segs);
                assert(string_views(child_path@) =~= segs.push(l[i as int].1));
                assert(l.take(i + 1).drop_last() =~= l.take(i as int));
            }
            append_propfind_node(&mut xml, child_is_dir, children[i].1.as_str(), &child_path, child_sizes[i]);
            proof {
                assert(xml@ =~= after_target + children_entries(l.take(i + 1), child_sizes@, segs));
            }
            i = i + 1;
        }
        proof {
            assert(l.take(i as int) =~= l);
        }
    }
    xml.append("</D:multistatus>");
    proof {
        reveal_strlit("1");
        assert(xml@ =~= propfind_reply_text(*target, target_size, l, child_sizes@, depth@));
    }
    xml
}

// ----------------------------------------------------------------------
// Answering a request
// ----------------------------------------------------------------------

/// What the server does with a request.
#[derive(Debug, Clone, Copy, PartialEq, Eq, Structural)]
pub enum DavAction {
    /// 401, asking for credentials.
    Unauthorized,
    /// 404: the path leads nowhere.
    NotFound,
    /// The methods the server takes.
    Options,
    /// 207 with the `PROPFIND` reply.
    Propfind,
    /// 403: a folder cannot be read as a file.
    Forbidden,
    /// The file's headers, without its bytes.
    Head { id: u64 },
    /// The file's bytes, from the streaming proxy.
    Stream { id: u64 },
    /// 405.
    MethodNotAllowed,
}

pub open spec fn dav_action_spec(authorized: bool, target: Option<(u64, bool)>, method: Seq<char>) -> DavAction {
    if !authorized {
        DavAction::Unauthorized
    } else {
        match target {
            None => DavAction::NotFound,
            Some((id, is_dir)) => if method == "OPTIONS"@ {
                DavAction::Options
            } else if method == "PROPFIND"@ {
                DavAction::Propfind
            } else if method == "GET"@ || method == "HEAD"@ {
                if is_dir {
                    DavAction::Forbidden
                } else if method == "HEAD"@ {
                    DavAction::Head { id }
                } else {
                    DavAction::Stream { id }
                }
            } else {
                DavAction::MethodNotAllowed
            },
        }
    }
}

/// Decides a request: credentials first, then the path, then the method.
pub fn dav_action(authorized: bool, target: &Option<DavTarget>, method: &str) -> (r: DavAction)
    ensures
        r == dav_action_spec(
            authorized,
            match target {
                Some(t) => Some((t.id, t.is_dir)),
                None => None,
            },
            method@,
        ),
{
    if !authorized {
        return DavAction::Unauthorized;
    }
    match target {
        None => DavAction::NotFound,
        Some(t) => {
            if str_eq(method, "OPTIONS") {
                DavAction::Options
            } else if str_eq(method, "PROPFIND") {
                DavAction::Propfind
            } else if str_eq(method, "GET") || str_eq(method, "HEAD") {
                if t.is_dir {
                    DavAction::Forbidden
                } else if str_eq(method, "HEAD") {
                    DavAction::Head { id: t.id }
                } else {
                    DavAction::Stream { id: t.id }
                }
            } else {
                DavAction::MethodNotAllowed
            }
        },
    }
}

// ----------------------------------------------------------------------
// Settings
// ----------------------------------------------------------------------

/// The server's settings: its port, the WebDAV credentials and the cloud
/// account to sign in with.
pub struct WebdavConfig {
    pub port: u16,
    pub username: String,
    pub password: String,
    pub lanzou_phone: String,
    pub lanzou_pass: String,
}

/// The settings used when none are saved: port 8888, `admin`/`admin`, no account.
pub fn default_webdav_config() -> (r: WebdavConfig)
    ensures
        r.port == 8888,
        r.username@ == "admin"@,
        r.password@ == "admin"@,
        r.lanzou_phone@.len() == 0,
        r.lanzou_pass@.len() == 0,
{
    WebdavConfig {
        port: 8888,
        username: "admin".to_string(),
        password: "admin".to_string(),
        lanzou_phone: String::new(),
        lanzou_pass: String::new(),
    }
}

/// Takes new credentials and port from `update`, keeping the account;
/// says whether the port changed, so that the server must bind anew.
pub fn apply_config_update(config: &mut WebdavConfig, update: &WebdavConfig) -> (restart: bool)
    ensures
        restart == (old(config).port != update.port),
        final(config).port == update.port,
        final(config).username@ == update.username@,
        final(config).password@ == update.password@,
        final(config).lanzou_phone@ == old(config).lanzou_phone@,
        final(config).lanzou_pass@ == old(config).lanzou_pass@,
{
    config.username = update.username.clone();
    config.password = update.password.clone();
    if config.port != update.port {
        config.port = update.port;
        true
    } else {
        false
    }
}

// ----------------------------------------------------------------------
// An href leads back to its name
// ----------------------------------------------------------------------

/// A character an href segment carries as it is.
pub open spec fn is_unreserved_char(c: char) -> bool {
    ('0' <= c && c <= '9') || ('A' <= c && c <= 'Z') || ('a' <= c && c <= 'z') || c == '-' || c == '_'
        || c == '.' || c == '~'
}

pub open spec fn is_upper_hex_digit(c: char) -> bool {
    ('0' <= c && c <= '9') || ('A' <= c && c <= 'F')
}

/// Text made only of unreserved characters and `%XX` escapes with two
/// uppercase hexadecimal digits.
pub open spec fn percent_clean(s: Seq<char>) -> bool
    decreases s.len(),
{
    if s.len() == 0 {
        true
    } else if is_unreserved_char(s[0]) {
        percent_clean(s.drop_first())
    } else {
        s.len() >= 3 && s[0] == '%' && is_upper_hex_digit(s[1]) && is_upper_hex_digit(s[2]) && percent_clean(
            s.skip(3),
        )
    }
}

proof fn lemma_upper_hex_char_digit(d: nat)
    requires
        d < 16,
    ensures
        is_upper_hex_digit(upper_hex_char(d)),
        !is_unreserved_char('%'),
{
}

proof fn lemma_clean_prefix(b: u8, rest: Seq<char>)
    requires
        percent_clean(rest),
    ensures
        percent_clean(encoded_byte(b) + rest),
{
    let s = encoded_byte(b) + rest;
    if is_unreserved(b) {
        assert(s[0] == b as char);
        assert(is_unreserved_char(b as char));
        assert(s.drop_first() =~= rest);
    } else {
        lemma_upper_hex_char_digit((b / 16) as nat);
        lemma_upper_hex_char_digit((b % 16) as nat);
        assert(s.skip(3) =~= rest);
    }
}

proof fn lemma_encoded_bytes_clean(b: Seq<u8>)
    ensures
        percent_clean(encoded_bytes(b)),
    decreases b.len(),
{
    if b.len() > 0 {
        lemma_encoded_bytes_first(b);
        lemma_encoded_bytes_clean(b.drop_first());
        lemma_clean_prefix(b[0], encoded_bytes(b.drop_first()));
    }
}

/// An encoded href segment holds only unreserved characters (ASCII letters
/// and digits, `-`, `_`, `.`, `~`) and `%XX` escapes with two uppercase
/// hexadecimal digits.
pub proof fn law_segment_is_percent_clean(name: Seq<char>)
    ensures
        percent_clean(segment_encoded(name)),
{
    lemma_encoded_bytes_clean(encode_utf8(name));
}

proof fn lemma_encoded_bytes_first(b: Seq<u8>)
    requires
        b.len() > 0,
    ensures
        encoded_bytes(b) == encoded_byte(b[0]) + encoded_bytes(b.drop_first()),
    decreases b.len(),
{
    if b.len() == 1 {
        assert(b.drop_last() =~= Seq::<u8>::empty());
        assert(b.drop_first() =~= Seq::<u8>::empty());
        assert(encoded_byte(b[0]) + Seq::<char>::empty() =~= encoded_byte(b[0]));
    } else {
        lemma_encoded_bytes_first(b.drop_last());
        assert(b.drop_last().drop_first() =~= b.drop_first().drop_last());
        assert(b.drop_first().last() == b.last());
        assert(b.drop_last()[0] == b[0]);
    }
}

proof fn lemma_upper_hex_digit(d: nat)
    requires
        d < 16,
    ensures
        crate::text::digit_of(upper_hex_char(d), 16) == Some(d),
        upper_hex_char(d) != '+',
{
}

proof fn lemma_percent_unit(b: u8, rest: Seq<char>)
    ensures
        percent_bytes(encoded_byte(b) + rest) == seq![b] + percent_bytes(rest),
{
    let s = encoded_byte(b) + rest;
    if is_unreserved(b) {
        let c = b as char;
        assert(s[0] == c);
        assert(s.drop_first() =~= rest);
        assert(c != '%' && c != '+');
        vstd::utf8::is_ascii_chars_encode_utf8(seq![c]);
        assert(encode_utf8(seq![c]) =~= seq![b]);
    } else {
        let h1 = upper_hex_char((b / 16) as nat);
        let h2 = upper_hex_char((b % 16) as nat);
        assert(s[0] == '%' && s[1] == h1 && s[2] == h2);
        lemma_upper_hex_digit((b / 16) as nat);
        lemma_upper_hex_digit((b % 16) as nat);
        let hs = seq![h1, h2];
        assert(hs.drop_last() =~= seq![h1]);
        assert(seq![h1].drop_last() =~= Seq::<char>::empty());
        assert(crate::text::digits_value(seq![h1], 16) == (b / 16) as nat) by {
            let one = seq![h1];
            assert(one.last() == h1);
            assert(one.drop_last() =~= Seq::<char>::empty());
            assert(crate::text::digits_value(one.drop_last(), 16) == 0);
            assert(crate::text::digit_of(h1, 16) == Some((b / 16) as nat));
        }
        assert(hs.last() == h2);
        assert(crate::text::digits_value(hs, 16) == ((b / 16) as nat) * 16 + (b % 16) as nat);
        assert(((b / 16) as nat) * 16 + (b % 16) as nat == b as nat);
        assert(crate::text::all_digits(hs, 16));
        assert(crate::text::parse_unsigned(hs, 16, 255) == Some(b as nat));
        if s.len() > 3 {
            assert(s.skip(3) =~= rest);
        } else {
            assert(rest =~= Seq::<char>::empty());
        }
    }
}

proof fn lemma_percent_encoded(b: Seq<u8>)
    ensures
        percent_bytes(encoded_bytes(b)) == b,
    decreases b.len(),
{
    if b.len() == 0 {
    } else {
        lemma_encoded_bytes_first(b);
        lemma_percent_encoded(b.drop_first());
        lemma_percent_unit(b[0], encoded_bytes(b.drop_first()));
        assert(seq![b[0]] + b.drop_first() =~= b);
    }
}

/// An href segment decodes back to the name it was made from: what a client
/// follows from a listing leads to the entry listed.
pub proof fn law_segment_decodes_back(name: Seq<char>)
    ensures
        url_decoded(segment_encoded(name)) == name,
{
    lemma_percent_encoded(encode_utf8(name));
    vstd::utf8::encode_utf8_valid_utf8(name);
    vstd::utf8::encode_utf8_decode_utf8(name);
}

} // verus!
