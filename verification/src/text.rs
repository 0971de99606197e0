//! Character-level text primitives shared by the tree codec, the WebDAV
//! layer and the challenge solvers: integer parsing and printing with the
//! standard library's rules, splitting, line breaking and trimming.
use vstd::prelude::*;

verus! {

// ----------------------------------------------------------------------
// Character classes
// ----------------------------------------------------------------------

pub open spec fn is_digit_char(c: char) -> bool {
    '0' <= c && c <= '9'
}

/// The value of `c` as a digit in `radix` (at most 16), as `char::to_digit` gives it.
pub open spec fn digit_of(c: char, radix: nat) -> Option<nat> {
    let v: int = if '0' <= c && c <= '9' {
        c as int - '0' as int
    } else if 'a' <= c && c <= 'z' {
        c as int - 'a' as int + 10
    } else if 'A' <= c && c <= 'Z' {
        c as int - 'A' as int + 10
    } else {
        99
    };
    if v < radix {
        Some(v as nat)
    } else {
        None
    }
}

/// Unicode `White_Space`, the property behind `char::is_whitespace`.
pub open spec fn is_space_char(c: char) -> bool {
    let u = c as u32;
    ||| (0x09 <= u && u <= 0x0d)
    ||| u == 0x20
    ||| u == 0x85
    ||| u == 0xa0
    ||| u == 0x1680
    ||| (0x2000 <= u && u <= 0x200a)
    ||| u == 0x2028
    ||| u == 0x2029
    ||| u == 0x202f
    ||| u == 0x205f
    ||| u == 0x3000
}

pub open spec fn is_ascii_char(c: char) -> bool {
    (c as u32) < 128
}

pub open spec fn all_ascii(s: Seq<char>) -> bool {
    forall|i: int| 0 <= i < s.len() ==> is_ascii_char(#[trigger] s[i])
}

pub open spec fn ascii_lower_char(c: char) -> char {
    if 'A' <= c && c <= 'Z' {
        ((c as u32) + 32) as char
    } else {
        c
    }
}

pub open spec fn ascii_lower(s: Seq<char>) -> Seq<char> {
    s.map_values(|c: char| ascii_lower_char(c))
}

pub fn is_space(c: char) -> (r: bool)
    ensures
        r == is_space_char(c),
{
    let u = c as u32;
    (0x09 <= u && u <= 0x0d) || u == 0x20 || u == 0x85 || u == 0xa0 || u == 0x1680 || (0x2000
        <= u && u <= 0x200a) || u == 0x2028 || u == 0x2029 || u == 0x202f || u == 0x205f || u
        == 0x3000
}

pub fn digit_value(c: char, radix: u32) -> (r: Option<u32>)
    requires
        radix <= 16,
    ensures
        match r {
            Some(v) => digit_of(c, radix as nat) == Some(v as nat),
            None => digit_of(c, radix as nat) is None,
        },
{
    let v: u32 = if '0' <= c && c <= '9' {
        (c as u32) - 48
    } else if 'a' <= c && c <= 'z' {
        (c as u32) - 97 + 10
    } else if 'A' <= c && c <= 'Z' {
        (c as u32) - 65 + 10
    } else {
        99
    };
    if v < radix {
        Some(v)
    } else {
        None
    }
}

pub fn lower_ascii_char(c: char) -> (r: char)
    ensures
        r == ascii_lower_char(c),
{
    if 'A' <= c && c <= 'Z' {
        ((c as u8) + 32) as char
    } else {
        c
    }
}

// ----------------------------------------------------------------------
// Conversions between `str`, `String` and character vectors
// ----------------------------------------------------------------------

/// The characters of `s`, in order.
pub fn chars_of(s: &str) -> (r: Vec<char>)
    ensures
        r@ == s@,
{
    let mut out: Vec<char> = Vec::new();
    for c in it: s.chars()
        invariant
            out@ == it.seq().take(it.index() as int),
    {
        out.push(c);
    }
    proof {
        assert(out@ =~= s@);
    }
    out
}

/// Collects characters into a `String` (`FromIterator<&char>` for `String`).
#[verifier::external_body]
pub(crate) fn string_from_chars(cs: &[char]) -> (r: String)
    ensures
        r@ == cs@,
{
    cs.iter().collect()
}

/// Appends all of `src` to `dst`.
pub fn push_all(dst: &mut Vec<char>, src: &[char])
    ensures
        final(dst)@ == old(dst)@ + src@,
{
    let mut i: usize = 0;
    while i < src.len()
        invariant
            i <= src.len(),
            dst@ == old(dst)@ + src@.take(i as int),
        decreases src.len() - i,
    {
        dst.push(src[i]);
        i = i + 1;
        proof {
            assert(src@.take(i as int) =~= src@.take(i - 1) .push(src@[i - 1]));
        }
    }
    proof {
        assert(src@.take(i as int) =~= src@);
    }
}

/// Appends the characters of `src` to `dst`.
pub fn push_str_chars(dst: &mut Vec<char>, src: &str)
    ensures
        final(dst)@ == old(dst)@ + src@,
{
    let cs = chars_of(src);
    push_all(dst, cs.as_slice());
}

pub fn chars_eq(a: &[char], b: &[char]) -> (r: bool)
    ensures
        r == (a@ == b@),
{
    if a.len() != b.len() {
        return false;
    }
    let mut i: usize = 0;
    while i < a.len()
        invariant
            a.len() == b.len(),
            i <= a.len(),
            forall|j: int| 0 <= j < i ==> a@[j] == b@[j],
        decreases a.len() - i,
    {
        if a[i] != b[i] {
            return false;
        }
        i = i + 1;
    }
    proof {
        assert(a@ =~= b@);
    }
    true
}

/// Whether `s` begins with `p`.
pub fn has_prefix(s: &[char], p: &[char]) -> (r: bool)
    ensures
        r == (p@.len() <= s@.len() && s@.take(p@.len() as int) == p@),
{
    if p.len() > s.len() {
        return false;
    }
    let mut i: usize = 0;
    while i < p.len()
        invariant
            p.len() <= s.len(),
            i <= p.len(),
            forall|j: int| 0 <= j < i ==> s@[j] == p@[j],
        decreases p.len() - i,
    {
        if s[i] != p[i] {
            proof {
                assert(s@.take(p@.len() as int)[i as int] != p@[i as int]);
            }
            return false;
        }
        i = i + 1;
    }
    proof {
        assert(s@.take(p@.len() as int) =~= p@);
    }
    true
}

/// Whether `s` ends with `p`.
pub fn has_suffix(s: &[char], p: &[char]) -> (r: bool)
    ensures
        r == (p@.len() <= s@.len() && s@.skip(s@.len() - p@.len()) == p@),
{
    if p.len() > s.len() {
        return false;
    }
    let off = s.len() - p.len();
    let mut i: usize = 0;
    while i < p.len()
        invariant
            p.len() <= s.len(),
            off == s.len() - p.len(),
            i <= p.len(),
            forall|j: int| 0 <= j < i ==> s@[off + j] == p@[j],
        decreases p.len() - i,
    {
        if s[off + i] != p[i] {
            proof {
                assert(s@.skip(off as int)[i as int] != p@[i as int]);
            }
            return false;
        }
        i = i + 1;
    }
    proof {
        assert(s@.skip(off as int) =~= p@);
    }
    true
}

/// Whether `c` occurs in `s`.
pub fn contains_char(s: &[char], c: char) -> (r: bool)
    ensures
        r == s@.contains(c),
{
    let mut i: usize = 0;
    while i < s.len()
        invariant
            i <= s.len(),
            forall|j: int| 0 <= j < i ==> s@[j] != c,
        decreases s.len() - i,
    {
        if s[i] == c {
            return true;
        }
        i = i + 1;
    }
    false
}

/// Whether `p` occurs in `s` as a contiguous piece.
pub open spec fn occurs_at(s: Seq<char>, p: Seq<char>, i: int) -> bool {
    0 <= i && i + p.len() <= s.len() && s.subrange(i, i + p.len()) == p
}

pub open spec fn has_infix(s: Seq<char>, p: Seq<char>) -> bool {
    exists|i: int| occurs_at(s, p, i)
}

pub fn contains_seq(s: &[char], p: &[char]) -> (r: bool)
    ensures
        r == has_infix(s@, p@),
{
    if p.len() > s.len() {
        proof {
            assert forall|i: int| !occurs_at(s@, p@, i) by {}
        }
        return false;
    }
    let last = s.len() - p.len();
    let mut i: usize = 0;
    while i <= last
        invariant
            p.len() <= s.len(),
            last == s.len() - p.len(),
            i <= last + 1,
            forall|k: int| 0 <= k < i ==> !occurs_at(s@, p@, k),
        decreases last + 1 - i,
    {
        let mut j: usize = 0;
        let mut ok = true;
        while j < p.len()
            invariant
                i <= last,
                last == s.len() - p.len(),
                j <= p.len(),
                ok ==> forall|t: int| 0 <= t < j ==> s@[i + t] == p@[t],
                !ok ==> exists|t: int| 0 <= t < p.len() && s@[i + t] != p@[t],
            decreases p.len() - j,
        {
            if s[i + j] != p[j] {
                ok = false;
            }
            j = j + 1;
        }
        if ok {
            proof {
                assert(s@.subrange(i as int, i + p.len()) =~= p@);
                assert(occurs_at(s@, p@, i as int));
            }
            return true;
        }
        proof {
            let t = choose|t: int| 0 <= t < p.len() && s@[i + t] != p@[t];
            assert(s@.subrange(i as int, i + p.len())[t] != p@[t]);
        }
        i = i + 1;
    }
    proof {
        assert forall|k: int| !occurs_at(s@, p@, k) by {
            if 0 <= k && k + p.len() <= s.len() {
                assert(k < i);
            }
        }
    }
    false
}

// ----------------------------------------------------------------------
// Unsigned integers: parsing as `str::parse` / `from_str_radix` does,
// and decimal printing as `Display` does
// ----------------------------------------------------------------------

pub open spec fn all_digits(s: Seq<char>, radix: nat) -> bool {
    forall|i: int| 0 <= i < s.len() ==> (#[trigger] digit_of(s[i], radix)) is Some
}

pub open spec fn digits_value(s: Seq<char>, radix: nat) -> nat
    decreases s.len(),
{
    if s.len() == 0 {
        0
    } else {
        digits_value(s.drop_last(), radix) * radix + match digit_of(s.last(), radix) {
            Some(d) => d,
            None => 0,
        }
    }
}

/// What `from_str_radix` returns for an unsigned type whose largest value is `max`:
/// an optional leading `+`, then at least one digit of `radix`, no overflow.
pub open spec fn parse_unsigned(s: Seq<char>, radix: nat, max: nat) -> Option<nat> {
    let d = if s.len() > 0 && s[0] == '+' {
        s.drop_first()
    } else {
        s
    };
    if s.len() == 0 || d.len() == 0 || !all_digits(d, radix) {
        None
    } else if digits_value(d, radix) <= max {
        Some(digits_value(d, radix))
    } else {
        None
    }
}

pub proof fn lemma_digits_value_monotone(s: Seq<char>, radix: nat, i: int)
    requires
        0 <= i <= s.len(),
        radix >= 1,
    ensures
        digits_value(s.take(i), radix) <= digits_value(s, radix),
    decreases s.len() - i,
{
    if i < s.len() {
        lemma_digits_value_monotone(s, radix, i + 1);
        assert(s.take(i + 1).drop_last() =~= s.take(i));
        let a = digits_value(s.take(i), radix);
        assert(a * radix >= a) by (nonlinear_arith)
            requires
                radix >= 1,
        ;
    } else {
        assert(s.take(i) =~= s);
    }
}

/// Parses `s` as an unsigned number in `radix`, with the rules of `from_str_radix`,
/// and accepts it when it is at most `max`.
pub fn parse_radix(s: &[char], radix: u32, max: u64) -> (r: Option<u64>)
    requires
        2 <= radix <= 16,
    ensures
        match r {
            Some(v) => parse_unsigned(s@, radix as nat, max as nat) == Some(v as nat),
            None => parse_unsigned(s@, radix as nat, max as nat) is None,
        },
{
    if s.len() == 0 {
        return None;
    }
    let start: usize = if s[0] == '+' {
        1
    } else {
        0
    };
    let ghost d = if s@.len() > 0 && s@[0] == '+' {
        s@.drop_first()
    } else {
        s@
    };
    proof {
        assert(d =~= s@.skip(start as int));
    }
    if start == s.len() {
        return None;
    }
    let mut acc: u64 = 0;
    let mut i: usize = start;
    while i < s.len()
        invariant
            2 <= radix <= 16,
            start <= i <= s.len(),
            d == s@.skip(start as int),
            s@.len() > 0,
            d == (if s@.len() > 0 && s@[0] == '+' {
                s@.drop_first()
            } else {
                s@
            }),
            acc as nat == digits_value(d.take(i - start), radix as nat),
            acc <= max,
            all_digits(d.take(i - start), radix as nat),
        decreases s.len() - i,
    {
        let dv = digit_value(s[i], radix);
        let ghost pre = d.take(i - start);
        let ghost nxt = d.take(i - start + 1);
        proof {
            assert(nxt.drop_last() =~= pre);
            assert(nxt.last() == s@[i as int]);
        }
        match dv {
            None => {
                proof {
                    assert(d[i - start] == s@[i as int]);
                    assert(digit_of(d[i - start], radix as nat) is None);
                    assert(!all_digits(d, radix as nat));
                    assert(s@.len() > 0);
                    assert(d.len() > 0);
                    assert(parse_unsigned(s@, radix as nat, max as nat) is None);
                }
                return None;
            },
            Some(v) => {
                if (v as u64) > max {
                    proof {
                        assert(digits_value(nxt, radix as nat) == acc * radix + v);
                        assert(acc * radix >= 0) by (nonlinear_arith)
                            requires
                                acc >= 0,
                                radix >= 0,
                        ;
                        lemma_digits_value_monotone(d, radix as nat, i - start + 1);
                    }
                    return None;
                }
                let ok = if acc <= (max - v as u64) / (radix as u64) {
                    true
                } else {
                    false
                };
                if !ok {
                    proof {
                        let a = acc as int;
                        let m = max as int;
                        let rr = radix as int;
                        let vv = v as int;
                        assert(a * rr + vv > m) by (nonlinear_arith)
                            requires
                                a > (m - vv) / rr,
                                rr >= 2,
                                vv >= 0,
                                m >= vv,
                        ;
                        assert(digits_value(nxt, radix as nat) == a * rr + vv);
                        lemma_digits_value_monotone(d, radix as nat, i - start + 1);
                    }
                    // Either a later digit is invalid or the value overflows: both are errors.
                    return None;
                }
                proof {
                    let a = acc as int;
                    let m = max as int;
                    let rr = radix as int;
                    let vv = v as int;
                    assert(a * rr + vv <= m) by (nonlinear_arith)
                        requires
                            a <= (m - vv) / rr,
                            rr >= 2,
                            vv >= 0,
                            m >= vv,
                    ;
                }
                acc = acc * (radix as u64) + v as u64;
                i = i + 1;
                proof {
                    assert forall|j: int| 0 <= j < nxt.len() implies (#[trigger] digit_of(
                        nxt[j],
                        radix as nat,
                    )) is Some by {
                        if j < pre.len() {
                            assert(nxt[j] == pre[j]);
                        }
                    }
                }
            },
        }
    }
    proof {
        assert(d.take(i - start) =~= d);
    }
    Some(acc)
}

pub fn parse_u64(s: &[char]) -> (r: Option<u64>)
    ensures
        match r {
            Some(v) => parse_unsigned(s@, 10, u64::MAX as nat) == Some(v as nat),
            None => parse_unsigned(s@, 10, u64::MAX as nat) is None,
        },
{
    parse_radix(s, 10, u64::MAX)
}

pub open spec fn digit_char(d: nat) -> char {
    if d == 0 {
        '0'
    } else if d == 1 {
        '1'
    } else if d == 2 {
        '2'
    } else if d == 3 {
        '3'
    } else if d == 4 {
        '4'
    } else if d == 5 {
        '5'
    } else if d == 6 {
        '6'
    } else if d == 7 {
        '7'
    } else if d == 8 {
        '8'
    } else {
        '9'
    }
}

pub fn digit_char_exec(d: u64) -> (c: char)
    requires
        d < 10,
    ensures
        c == digit_char(d as nat),
{
    if d == 0 {
        '0'
    } else if d == 1 {
        '1'
    } else if d == 2 {
        '2'
    } else if d == 3 {
        '3'
    } else if d == 4 {
        '4'
    } else if d == 5 {
        '5'
    } else if d == 6 {
        '6'
    } else if d == 7 {
        '7'
    } else if d == 8 {
        '8'
    } else {
        '9'
    }
}

/// The decimal digits of `n`, as `Display` prints an unsigned integer.
pub open spec fn decimal(n: nat) -> Seq<char>
    decreases n,
{
    if n < 10 {
        seq![digit_char(n)]
    } else {
        decimal(n / 10).push(digit_char(n % 10))
    }
}

/// Appends the decimal digits of `n` to `out`.
pub fn push_decimal(out: &mut Vec<char>, n: u64)
    ensures
        final(out)@ == old(out)@ + decimal(n as nat),
    decreases n,
{
    if n >= 10 {
        push_decimal(out, n / 10);
    }
    let c = digit_char_exec(n % 10);
    out.push(c);
    proof {
        if n >= 10 {
            assert(decimal(n as nat) == decimal((n / 10) as nat).push(c));
        } else {
            assert(decimal(n as nat) =~= seq![c]);
        }
    }
}

/// The decimal text of `n`.
pub fn decimal_chars(n: u64) -> (r: Vec<char>)
    ensures
        r@ == decimal(n as nat),
{
    let mut v: Vec<char> = Vec::new();
    push_decimal(&mut v, n);
    proof {
        assert(v@ =~= decimal(n as nat));
    }
    v
}

pub proof fn lemma_decimal_digits(n: nat)
    ensures
        decimal(n).len() >= 1,
        forall|i: int| 0 <= i < decimal(n).len() ==> is_digit_char(#[trigger] decimal(n)[i]),
    decreases n,
{
    if n >= 10 {
        lemma_decimal_digits(n / 10);
    }
}

/// Printing then parsing a number gives it back.
pub proof fn lemma_decimal_parses(n: nat)
    requires
        n <= u64::MAX,
    ensures
        parse_unsigned(decimal(n), 10, u64::MAX as nat) == Some(n),
    decreases n,
{
    lemma_decimal_value(n);
    lemma_decimal_digits(n);
    let s = decimal(n);
    assert(s[0] != '+');
    assert forall|i: int| 0 <= i < s.len() implies (#[trigger] digit_of(s[i], 10)) is Some by {
        assert(is_digit_char(s[i]));
    }
}

pub proof fn lemma_decimal_value(n: nat)
    ensures
        digits_value(decimal(n), 10) == n,
    decreases n,
{
    let s = decimal(n);
    if n >= 10 {
        lemma_decimal_value(n / 10);
        assert(s.drop_last() =~= decimal(n / 10));
        assert(digit_of(s.last(), 10) == Some(n % 10));
        assert(digits_value(s.drop_last(), 10) == n / 10);
        assert(digits_value(s, 10) == digits_value(s.drop_last(), 10) * 10 + (n % 10));
        assert(n == (n / 10) * 10 + n % 10) by (nonlinear_arith);
    } else {
        assert(s.drop_last() =~= Seq::<char>::empty());
        assert(digit_of(s.last(), 10) == Some(n));
        assert(digits_value(s.drop_last(), 10) == 0);
    }
}

// ----------------------------------------------------------------------
// Splitting, lines, trimming
// ----------------------------------------------------------------------

/// The pieces of `s` between occurrences of `sep`, as `str::split` with a
/// `char` pattern yields them (always at least one piece).
pub open spec fn split_on(s: Seq<char>, sep: char) -> Seq<Seq<char>>
    decreases s.len(),
{
    if s.len() == 0 {
        seq![Seq::<char>::empty()]
    } else {
        let p = split_on(s.drop_last(), sep);
        if s.last() == sep {
            p.push(Seq::<char>::empty())
        } else {
            p.update(p.len() - 1, p.last().push(s.last()))
        }
    }
}

pub proof fn lemma_split_on_len(s: Seq<char>, sep: char)
    ensures
        split_on(s, sep).len() >= 1,
    decreases s.len(),
{
    if s.len() > 0 {
        lemma_split_on_len(s.drop_last(), sep);
    }
}

/// The pieces joined back with `sep` between them.
pub open spec fn join_with(parts: Seq<Seq<char>>, sep: char) -> Seq<char>
    decreases parts.len(),
{
    if parts.len() <= 1 {
        if parts.len() == 0 {
            Seq::<char>::empty()
        } else {
            parts[0]
        }
    } else {
        join_with(parts.drop_last(), sep).push(sep) + parts.last()
    }
}

pub open spec fn free_of(s: Seq<char>, c: char) -> bool {
    !s.contains(c)
}

pub proof fn lemma_split_append_free(a: Seq<char>, b: Seq<char>, sep: char)
    requires
        free_of(b, sep),
    ensures
        split_on(a + b, sep) == ({
            let p = split_on(a, sep);
            p.update(p.len() - 1, p.last() + b)
        }),
    decreases b.len(),
{
    lemma_split_on_len(a, sep);
    if b.len() == 0 {
        assert(a + b =~= a);
        let p = split_on(a, sep);
        assert(p.last() + b =~= p.last());
        assert(p.update(p.len() - 1, p.last() + b) =~= p);
    } else {
        let b0 = b.drop_last();
        assert(!b0.contains(sep)) by {
            if b0.contains(sep) {
                let k = choose|k: int| 0 <= k < b0.len() && b0[k] == sep;
                assert(b[k] == sep);
            }
        }
        lemma_split_append_free(a, b0, sep);
        assert((a + b).drop_last() =~= a + b0);
        assert((a + b).last() == b.last());
        assert(b.last() != sep) by {
            assert(b[b.len() - 1] == b.last());
        }
        let p = split_on(a, sep);
        assert(p.last() + b0 + seq![b.last()] =~= p.last() + b);
        assert((p.last() + b0).push(b.last()) =~= p.last() + b);
        assert(split_on(a + b, sep) =~= p.update(p.len() - 1, p.last() + b));
    }
}

/// Splitting the joined pieces gives the pieces back, when none of them holds the separator.
pub proof fn lemma_split_join(parts: Seq<Seq<char>>, sep: char)
    requires
        parts.len() >= 1,
        forall|i: int| 0 <= i < parts.len() ==> free_of(#[trigger] parts[i], sep),
    ensures
        split_on(join_with(parts, sep), sep) == parts,
    decreases parts.len(),
{
    if parts.len() == 1 {
        let e = Seq::<char>::empty();
        assert(split_on(e, sep) =~= seq![e]);
        lemma_split_append_free(e, parts[0], sep);
        assert(e + parts[0] =~= parts[0]);
        assert(seq![e].update(0, e + parts[0]) =~= parts);
    } else {
        let init = parts.drop_last();
        assert forall|i: int| 0 <= i < init.len() implies free_of(#[trigger] init[i], sep) by {
            assert(init[i] == parts[i]);
        }
        lemma_split_join(init, sep);
        let j = join_with(init, sep);
        let jp = j.push(sep);
        assert(split_on(jp, sep) == init.push(Seq::<char>::empty())) by {
            assert(jp.drop_last() =~= j);
        }
        assert(free_of(parts.last(), sep));
        lemma_split_append_free(jp, parts.last(), sep);
        let q = init.push(Seq::<char>::empty());
        assert(Seq::<char>::empty() + parts.last() =~= parts.last());
        assert(q.update(q.len() - 1, q.last() + parts.last()) =~= parts);
    }
}

/// Splits `s` at every `sep`.
pub fn split_chars(s: &[char], sep: char) -> (r: Vec<Vec<char>>)
    ensures
        r@.len() == split_on(s@, sep).len(),
        forall|i: int| 0 <= i < r@.len() ==> (#[trigger] r@[i])@ == split_on(s@, sep)[i],
{
    let mut out: Vec<Vec<char>> = Vec::new();
    let mut cur: Vec<char> = Vec::new();
    let mut i: usize = 0;
    while i < s.len()
        invariant
            i <= s.len(),
            ({
                let p = split_on(s@.take(i as int), sep);
                &&& out@.len() + 1 == p.len()
                &&& forall|k: int| 0 <= k < out@.len() ==> (#[trigger] out@[k])@ == p[k]
                &&& cur@ == p.last()
            }),
        decreases s.len() - i,
    {
        let ghost p = split_on(s@.take(i as int), sep);
        proof {
            lemma_split_on_len(s@.take(i as int), sep);
            assert(s@.take(i + 1).drop_last() =~= s@.take(i as int));
            assert(s@.take(i + 1).last() == s@[i as int]);
        }
        if s[i] == sep {
            let done = cur;
            out.push(done);
            cur = Vec::new();
        } else {
            cur.push(s[i]);
        }
        i = i + 1;
    }
    let ghost p = split_on(s@, sep);
    proof {
        assert(s@.take(i as int) =~= s@);
    }
    out.push(cur);
    proof {
        assert forall|k: int| 0 <= k < out@.len() implies (#[trigger] out@[k])@ == p[k] by {}
    }
    out
}

pub open spec fn strip_cr(line: Seq<char>) -> Seq<char> {
    if line.len() > 0 && line.last() == '\r' {
        line.drop_last()
    } else {
        line
    }
}

/// The lines of `s` as `str::lines` yields them: split at `\n`, a `\r` right
/// before a `\n` removed, no final empty line after a closing `\n`.
pub open spec fn lines_of(s: Seq<char>) -> Seq<Seq<char>> {
    let parts = split_on(s, '\n');
    let n = parts.len();
    let ended = parts.take(n - 1).map_values(|l: Seq<char>| strip_cr(l));
    if parts[n - 1].len() == 0 {
        ended
    } else {
        ended.push(parts[n - 1])
    }
}

pub fn strip_cr_chars(line: &mut Vec<char>)
    ensures
        final(line)@ == strip_cr(old(line)@),
{
    let n = line.len();
    if n > 0 && line[n - 1] == '\r' {
        line.pop();
        proof {
            assert(line@ =~= strip_cr(old(line)@));
        }
    }
}

/// The lines of `s`.
pub fn lines_chars(s: &[char]) -> (r: Vec<Vec<char>>)
    ensures
        r@.len() == lines_of(s@).len(),
        forall|i: int| 0 <= i < r@.len() ==> (#[trigger] r@[i])@ == lines_of(s@)[i],
{
    let parts = split_chars(s, '\n');
    let ghost sp = split_on(s@, '\n');
    proof {
        lemma_split_on_len(s@, '\n');
    }
    let n = parts.len();
    let ghost ended = sp.take(n - 1).map_values(|l: Seq<char>| strip_cr(l));
    let mut out: Vec<Vec<char>> = Vec::new();
    let mut i: usize = 0;
    while i + 1 < n
        invariant
            n == parts@.len(),
            n == sp.len(),
            n >= 1,
            i + 1 <= n,
            forall|k: int| 0 <= k < n ==> (#[trigger] parts@[k])@ == sp[k],
            ended == sp.take(n - 1).map_values(|l: Seq<char>| strip_cr(l)),
            out@.len() == i,
            forall|k: int| 0 <= k < i ==> (#[trigger] out@[k])@ == ended[k],
        decreases n - i,
    {
        let mut line = parts[i].clone();
        strip_cr_chars(&mut line);
        out.push(line);
        i = i + 1;
    }
    if parts[n - 1].len() != 0 {
        let last = parts[n - 1].clone();
        out.push(last);
    }
    proof {
        let l = lines_of(s@);
        assert(out@.len() == l.len());
        assert forall|k: int| 0 <= k < out@.len() implies (#[trigger] out@[k])@ == l[k] by {}
    }
    out
}

pub open spec fn all_space(s: Seq<char>) -> bool {
    forall|i: int| 0 <= i < s.len() ==> is_space_char(#[trigger] s[i])
}

/// Whether `s.trim()` is empty.
pub fn is_blank(s: &[char]) -> (r: bool)
    ensures
        r == all_space(s@),
{
    let mut i: usize = 0;
    while i < s.len()
        invariant
            i <= s.len(),
            forall|j: int| 0 <= j < i ==> is_space_char(#[trigger] s@[j]),
        decreases s.len() - i,
    {
        if !is_space(s[i]) {
            return false;
        }
        i = i + 1;
    }
    true
}

/// `s` without leading and trailing white space, as `str::trim` gives it.
pub open spec fn trim_spec(s: Seq<char>) -> Seq<char> {
    if all_space(s) {
        Seq::<char>::empty()
    } else {
        let a = choose|a: int|
            0 <= a < s.len() && !is_space_char(s[a]) && forall|j: int|
                0 <= j < a ==> is_space_char(#[trigger] s[j]);
        let b = choose|b: int|
            0 <= b < s.len() && !is_space_char(s[b]) && forall|j: int|
                b < j < s.len() ==> is_space_char(#[trigger] s[j]);
        s.subrange(a, b + 1)
    }
}

pub fn trim_chars(s: &[char]) -> (r: Vec<char>)
    ensures
        r@ == trim_spec(s@),
{
    let mut a: usize = 0;
    while a < s.len() && is_space(s[a])
        invariant
            a <= s.len(),
            forall|j: int| 0 <= j < a ==> is_space_char(#[trigger] s@[j]),
        decreases s.len() - a,
    {
        a = a + 1;
    }
    if a == s.len() {
        return Vec::new();
    }
    let mut b: usize = s.len() - 1;
    while is_space(s[b])
        invariant
            a < s.len(),
            a <= b < s.len(),
            !is_space_char(s@[a as int]),
            forall|j: int| b < j < s.len() ==> is_space_char(#[trigger] s@[j]),
        decreases b,
    {
        b = b - 1;
    }
    let mut out: Vec<char> = Vec::new();
    let mut k: usize = a;
    while k <= b
        invariant
            a <= k <= b + 1,
            b < s.len(),
            out@ == s@.subrange(a as int, k as int),
        decreases b + 1 - k,
    {
        out.push(s[k]);
        k = k + 1;
        proof {
            assert(s@.subrange(a as int, k as int) =~= s@.subrange(a as int, k - 1).push(
                s@[k - 1],
            ));
        }
    }
    proof {
        assert(!all_space(s@));
        let aa = choose|aa: int|
            0 <= aa < s@.len() && !is_space_char(s@[aa]) && forall|j: int|
                0 <= j < aa ==> is_space_char(#[trigger] s@[j]);
        let bb = choose|bb: int|
            0 <= bb < s@.len() && !is_space_char(s@[bb]) && forall|j: int|
                bb < j < s@.len() ==> is_space_char(#[trigger] s@[j]);
        assert(aa == a) by {
            if aa < a {
                assert(is_space_char(s@[aa]));
            }
            if aa > a {
                assert(is_space_char(s@[a as int]));
            }
        }
        assert(bb == b) by {
            if bb > b {
                assert(is_space_char(s@[bb]));
            }
            if bb < b {
                assert(is_space_char(s@[b as int]));
            }
        }
    }
    out
}

pub fn to_ascii_lower(s: &[char]) -> (r: Vec<char>)
    ensures
        r@ == ascii_lower(s@),
{
    let mut out: Vec<char> = Vec::new();
    let mut i: usize = 0;
    while i < s.len()
        invariant
            i <= s.len(),
            out@ == ascii_lower(s@.take(i as int)),
        decreases s.len() - i,
    {
        out.push(lower_ascii_char(s[i]));
        i = i + 1;
        proof {
            assert(ascii_lower(s@.take(i as int)) =~= ascii_lower(s@.take(i - 1)).push(
                ascii_lower_char(s@[i - 1]),
            ));
        }
    }
    proof {
        assert(s@.take(i as int) =~= s@);
    }
    out
}

// ----------------------------------------------------------------------
// Searching for a character
// ----------------------------------------------------------------------

/// `i` is where `c` first occurs in `s`.
pub open spec fn is_first_index(s: Seq<char>, c: char, i: int) -> bool {
    0 <= i < s.len() && s[i] == c && forall|j: int| 0 <= j < i ==> s[j] != c
}

/// `i` is where `c` last occurs in `s`.
pub open spec fn is_last_index(s: Seq<char>, c: char, i: int) -> bool {
    0 <= i < s.len() && s[i] == c && forall|j: int| i < j < s.len() ==> s[j] != c
}

/// Where `c` first occurs in `s`, as `str::find` gives it.
pub open spec fn first_of(s: Seq<char>, c: char) -> Option<int> {
    if s.contains(c) {
        Some(choose|i: int| is_first_index(s, c, i))
    } else {
        None
    }
}

/// Where `c` last occurs in `s`, as `str::rfind` gives it.
pub open spec fn last_of(s: Seq<char>, c: char) -> Option<int> {
    if s.contains(c) {
        Some(choose|i: int| is_last_index(s, c, i))
    } else {
        None
    }
}

/// The piece of `s` before the first `c`, or all of `s` (`split(c).next()`).
pub open spec fn before_first(s: Seq<char>, c: char) -> Seq<char> {
    match first_of(s, c) {
        Some(i) => s.take(i),
        None => s,
    }
}

/// The piece of `s` after the last `c`, or all of `s` (`rsplit(c).next()`).
pub open spec fn after_last(s: Seq<char>, c: char) -> Seq<char> {
    match last_of(s, c) {
        Some(i) => s.skip(i + 1),
        None => s,
    }
}

pub fn find_char(s: &[char], c: char) -> (r: Option<usize>)
    ensures
        match r {
            Some(i) => first_of(s@, c) == Some(i as int) && is_first_index(s@, c, i as int),
            None => first_of(s@, c) is None && !s@.contains(c),
        },
{
    let mut i: usize = 0;
    while i < s.len()
        invariant
            i <= s.len(),
            forall|j: int| 0 <= j < i ==> s@[j] != c,
        decreases s.len() - i,
    {
        if s[i] == c {
            proof {
                assert(is_first_index(s@, c, i as int));
                assert(s@.contains(c));
                let w = choose|w: int| is_first_index(s@, c, w);
                assert(w == i) by {
                    if w < i {
                        assert(s@[w] != c);
                    }
                    if w > i {
                        assert(s@[i as int] != c);
                    }
                }
            }
            return Some(i);
        }
        i = i + 1;
    }
    None
}

pub fn rfind_char(s: &[char], c: char) -> (r: Option<usize>)
    ensures
        match r {
            Some(i) => last_of(s@, c) == Some(i as int) && is_last_index(s@, c, i as int),
            None => last_of(s@, c) is None && !s@.contains(c),
        },
{
    let mut k: usize = s.len();
    while k > 0
        invariant
            k <= s.len(),
            forall|j: int| k <= j < s.len() ==> s@[j] != c,
        decreases k,
    {
        let i = k - 1;
        if s[i] == c {
            proof {
                assert(is_last_index(s@, c, i as int));
                assert(s@.contains(c));
                let w = choose|w: int| is_last_index(s@, c, w);
                assert(w == i) by {
                    if w < i {
                        assert(s@[i as int] != c);
                    }
                    if w > i {
                        assert(s@[w] != c);
                    }
                }
            }
            return Some(i);
        }
        k = i;
    }
    None
}

/// The characters of `s[from..to]`.
pub fn slice_chars(s: &[char], from: usize, to: usize) -> (r: Vec<char>)
    requires
        from <= to <= s@.len(),
    ensures
        r@ == s@.subrange(from as int, to as int),
{
    let mut out: Vec<char> = Vec::new();
    let mut k: usize = from;
    while k < to
        invariant
            from <= k <= to,
            to <= s@.len(),
            out@ == s@.subrange(from as int, k as int),
        decreases to - k,
    {
        out.push(s[k]);
        k = k + 1;
        proof {
            assert(s@.subrange(from as int, k as int) =~= s@.subrange(from as int, k - 1).push(
                s@[k - 1],
            ));
        }
    }
    out
}

pub fn before_first_chars(s: &[char], c: char) -> (r: Vec<char>)
    ensures
        r@ == before_first(s@, c),
{
    match find_char(s, c) {
        Some(i) => {
            let r = slice_chars(s, 0, i);
            proof {
                assert(r@ =~= s@.take(i as int));
            }
            r
        },
        None => slice_chars(s, 0, s.len()),
    }
}

pub fn after_last_chars(s: &[char], c: char) -> (r: Vec<char>)
    ensures
        r@ == after_last(s@, c),
{
    match rfind_char(s, c) {
        Some(i) => {
            assert(is_last_index(s@, c, i as int));
            assert(i < s@.len());
            assert(s@.len() == s.len());
            let r = slice_chars(s, i + 1, s.len());
            proof {
                assert(r@ =~= s@.skip(i + 1));
            }
            r
        },
        None => slice_chars(s, 0, s.len()),
    }
}

/// Whether two strings hold the same characters.
pub fn str_eq(a: &str, b: &str) -> (r: bool)
    ensures
        r == (a@ == b@),
{
    let x = chars_of(a);
    let y = chars_of(b);
    chars_eq(x.as_slice(), y.as_slice())
}

} // verus!
