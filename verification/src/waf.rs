//! The answer to the web application firewall's `acw_sc__v2` challenge:
//! the challenge string is unshuffled by a fixed permutation, then XORed
//! pairwise, as hexadecimal bytes, with a fixed mask.
use vstd::prelude::*;
use vstd::utf8::{decode_utf8, encode_utf8, is_continuation_byte};
use crate::crypto::{hex_lower, push_hex_lower};
use crate::external::utf8_to_string;
use crate::text::{chars_of, parse_radix, parse_unsigned, string_from_chars};

verus! {

broadcast use vstd::utf8::group_utf8_lib;

/// Where each character of the answer's first half comes from: position
/// `j` of the unshuffled string holds character `waf_position(j) - 1` of
/// the challenge.
pub open spec fn waf_positions() -> Seq<int> {
    seq![
        15, 35, 29, 24, 33, 16, 1, 38, 10, 9, 19, 31, 40, 27, 22, 23, 25, 13, 6, 11, 39, 18, 20,
        8, 14, 21, 32, 26, 2, 30, 7, 4, 17, 5, 3, 28, 34, 37, 12, 36,
    ]
}

pub(crate) fn waf_position(j: usize) -> (r: usize)
    requires
        j < 40,
    ensures
        r == waf_positions()[j as int],
{
    let pos: [usize; 40] = [
        15, 35, 29, 24, 33, 16, 1, 38, 10, 9, 19, 31, 40, 27, 22, 23, 25, 13, 6, 11, 39, 18, 20,
        8, 14, 21, 32, 26, 2, 30, 7, 4, 17, 5, 3, 28, 34, 37, 12, 36,
    ];
    pos[j]
}

/// The challenge unshuffled: forty characters, a space where the challenge
/// is too short.
pub open spec fn waf_unshuffled(a: Seq<char>) -> Seq<char> {
    Seq::new(
        40,
        |j: int|
            {
                let i = waf_positions()[j] - 1;
                if i < a.len() {
                    a[i]
                } else {
                    ' '
                }
            },
    )
}

pub open spec fn waf_mask() -> Seq<char> {
    "3000176000856006061501533003690027800375"@
}

/// `u32::from_str_radix(s, 16)`, or 0 when that fails.
pub open spec fn hexdec_spec(s: Seq<char>) -> u32 {
    match parse_unsigned(s, 16, u32::MAX as nat) {
        Some(v) => v as u32,
        None => 0,
    }
}

pub fn hexdec(hex_str: &str) -> (r: u32)
    ensures
        r == hexdec_spec(hex_str@),
{
    let cs = chars_of(hex_str);
    match parse_radix(cs.as_slice(), 16, 0xffff_ffff) {
        Some(v) => v as u32,
        None => 0,
    }
}

/// `v` as `{:02x}` writes it: lowercase hexadecimal, at least two digits.
pub open spec fn hex02(v: nat) -> Seq<char> {
    if v < 16 {
        seq!['0'] + hex_lower(v)
    } else {
        hex_lower(v)
    }
}

/// The UTF-8 bytes of the unshuffled challenge.
pub open spec fn waf_bytes(a: Seq<char>) -> Seq<u8> {
    encode_utf8(waf_unshuffled(a))
}

/// The challenges whose unshuffled form can be cut into two-byte pieces: a
/// piece never starts inside a character (the answer slices the string at
/// every second byte).
pub open spec fn waf_cuttable(a: Seq<char>) -> bool {
    forall|k: int| 0 <= k <= 20 ==> !(2 * k < waf_bytes(a).len() && is_continuation_byte(#[trigger] waf_bytes(a)[2 * k]))
}

/// The first `k` pairs of the answer.
pub open spec fn waf_pairs(a: Seq<char>, k: nat) -> Seq<char>
    decreases k,
{
    if k == 0 {
        Seq::<char>::empty()
    } else {
        let x = 2 * (k - 1);
        waf_pairs(a, (k - 1) as nat) + hex02(
            (hexdec_spec(decode_utf8(waf_bytes(a).subrange(x, x + 2))) ^ hexdec_spec(
                waf_mask().subrange(x, x + 2),
            )) as nat,
        )
    }
}

/// The answer to a challenge.
pub open spec fn waf_answer(a: Seq<char>) -> Seq<char> {
    waf_pairs(a, 20)
}

fn waf_unshuffle(chars: &Vec<char>) -> (r: Vec<char>)
    ensures
        r@ == waf_unshuffled(chars@),
{
    let mut q: Vec<char> = Vec::new();
    let mut j: usize = 0;
    while j < 40
        invariant
            j <= 40,
            q@.len() == j,
            forall|t: int| 0 <= t < j ==> #[trigger] q@[t] == waf_unshuffled(chars@)[t],
        decreases 40 - j,
    {
        let i = waf_position(j) - 1;
        if i < chars.len() {
            q.push(chars[i]);
        } else {
            q.push(' ');
        }
        j = j + 1;
    }
    proof {
        assert(q@ =~= waf_unshuffled(chars@));
    }
    q
}

fn push_hex02(out: &mut Vec<char>, v: u32)
    ensures
        final(out)@ == old(out)@ + hex02(v as nat),
{
    if v < 16 {
        out.push('0');
    }
    push_hex_lower(out, v);
    proof {
        assert(final(out)@ =~= old(out)@ + hex02(v as nat));
    }
}

fn copy_bytes(b: &[u8], from: usize, to: usize) -> (r: Vec<u8>)
    requires
        from <= to <= b@.len(),
    ensures
        r@ == b@.subrange(from as int, to as int),
{
    let mut out: Vec<u8> = Vec::new();
    let mut k: usize = from;
    while k < to
        invariant
            from <= k <= to,
            to <= b@.len(),
            out@ == b@.subrange(from as int, k as int),
        decreases to - k,
    {
        out.push(b[k]);
        k = k + 1;
        proof {
            assert(out@ =~= b@.subrange(from as int, k as int));
        }
    }
    out
}

/// Answers an `acw_sc__v2` challenge.
pub fn solve_ali_waf(arg1: &str) -> (r: String)
    requires
        waf_cuttable(arg1@),
    ensures
        r@ == waf_answer(arg1@),
{
    let chars = chars_of(arg1);
    let q = waf_unshuffle(&chars);
    let u = string_from_chars(q.as_slice());
    let b = u.as_str().as_bytes();
    let mask = chars_of("3000176000856006061501533003690027800375");
    proof {
        reveal_strlit("3000176000856006061501533003690027800375");
        assert(b@ == waf_bytes(arg1@));
        assert(b@.len() >= 40) by {
            lemma_encode_len_at_least(q@);
        }
    }
    let mut out: Vec<char> = Vec::new();
    let mut k: usize = 0;
    while k < 20
        invariant
            k <= 20,
            b@ == waf_bytes(arg1@),
            b@.len() >= 40,
            mask@ == waf_mask(),
            mask@.len() == 40,
            waf_cuttable(arg1@),
            out@ == waf_pairs(arg1@, k as nat),
        decreases 20 - k,
    {
        let x = 2 * k;
        let piece = copy_bytes(b, x, x + 2);
        proof {
            let bb = waf_bytes(arg1@);
            assert(!is_continuation_byte(bb[x as int]));
            assert(vstd::utf8::is_char_boundary(bb, x as int));
            if x + 2 < bb.len() {
                assert(!is_continuation_byte(bb[2 * (k + 1)]));
                assert(vstd::utf8::is_char_boundary(bb, x + 2));
            } else {
                assert(vstd::utf8::is_char_boundary(bb, bb.len() as int));
            }
            lemma_piece_valid(bb, x as int);
        }
        let left: u32 = match utf8_to_string(piece) {
            Some(s) => hexdec(s.as_str()),
            None => 0,
        };
        let mpiece = crate::text::slice_chars(mask.as_slice(), x, x + 2);
        let ms = string_from_chars(mpiece.as_slice());
        let right = hexdec(ms.as_str());
        push_hex02(&mut out, left ^ right);
        proof {
            assert(mpiece@ =~= waf_mask().subrange(x as int, x + 2));
        }
        k = k + 1;
    }
    string_from_chars(out.as_slice())
}

/// The same answer, as the direct-link page's challenge asks for it.
pub fn acw_sc_v2_simple(arg1: &str) -> (r: String)
    requires
        waf_cuttable(arg1@),
    ensures
        r@ == waf_answer(arg1@),
{
    solve_ali_waf(arg1)
}

/// Every character takes at least one byte.
proof fn lemma_encode_len_at_least(s: Seq<char>)
    ensures
        encode_utf8(s).len() >= s.len(),
    decreases s.len(),
{
    if s.len() > 0 {
        lemma_encode_len_at_least(s.drop_first());
    }
}

/// Two bytes between character boundaries of valid UTF-8 are valid UTF-8.
proof fn lemma_piece_valid(b: Seq<u8>, x: int)
    requires
        vstd::utf8::valid_utf8(b),
        0 <= x,
        x + 2 <= b.len(),
        vstd::utf8::is_char_boundary(b, x),
        vstd::utf8::is_char_boundary(b, x + 2),
    ensures
        vstd::utf8::valid_utf8(b.subrange(x, x + 2)),
{
    let tail = b.subrange(x, b.len() as int);
    vstd::utf8::valid_utf8_split(b, x);
    if x + 2 < b.len() {
        vstd::utf8::is_char_boundary_iff_not_is_continuation_byte(b, x + 2);
        vstd::utf8::is_char_boundary_iff_not_is_continuation_byte(tail, 2);
        assert(tail[2] == b[x + 2]);
    } else {
        vstd::utf8::is_char_boundary_start_end_of_seq(tail);
        assert(tail.len() == 2);
    }
    vstd::utf8::valid_utf8_split(tail, 2);
    assert(tail.subrange(0, 2) =~= b.subrange(x, x + 2));
}

} // verus!
