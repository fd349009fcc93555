//! Character-level helpers: conversions between strings and character
//! vectors, number formatting, prefix/suffix/substring tests and joining.

use vstd::prelude::*;

verus! {

// ---------------------------------------------------------------------------
// Conversions (std)
// ---------------------------------------------------------------------------

/// The characters of `s` (`str::chars` collected into a vector).
#[verifier::external_body]
pub(crate) fn str_chars(s: &str) -> (r: Vec<char>)
    ensures
        r@ == s@,
{
    s.chars().collect()
}

/// The string made of the characters of `v` (`String: FromIterator<char>`).
#[verifier::external_body]
pub(crate) fn string_from_chars(v: &[char]) -> (r: String)
    ensures
        r@ == v@,
{
    v.iter().collect()
}

// ---------------------------------------------------------------------------
// Number formatting
// ---------------------------------------------------------------------------

/// The lowercase hexadecimal digit for `d < 16`.
pub open spec fn hex_char(d: nat) -> char {
    if d < 10 {
        ((48 + d) as u8) as char
    } else {
        ((87 + d) as u8) as char
    }
}

/// The lowercase hexadecimal digits of `n`, without leading zeros (`{:x}`).
pub open spec fn hex_digits(n: nat) -> Seq<char>
    decreases n,
{
    if n < 16 {
        seq![hex_char(n)]
    } else {
        hex_digits(n / 16).push(hex_char(n % 16))
    }
}

/// The decimal digits of `n`, without leading zeros (`{}`).
pub open spec fn dec_digits(n: nat) -> Seq<char>
    decreases n,
{
    if n < 10 {
        seq![hex_char(n)]
    } else {
        dec_digits(n / 10).push(hex_char(n % 10))
    }
}

/// `0x` followed by the hexadecimal digits of `n` (`0x{:x}`).
pub open spec fn hex_prefixed(n: nat) -> Seq<char> {
    seq!['0', 'x'] + hex_digits(n)
}

/// Two lowercase hexadecimal digits of a byte (`{:02x}`).
pub open spec fn hex_byte(b: u8) -> Seq<char> {
    seq![hex_char((b / 16) as nat), hex_char((b % 16) as nat)]
}

fn digit_char(d: u8) -> (c: char)
    requires
        d < 16,
    ensures
        c == hex_char(d as nat),
{
    if d < 10 {
        (48 + d) as char
    } else {
        (87 + d) as char
    }
}

fn push_hex_digits(m: u128, out: &mut Vec<char>)
    ensures
        final(out)@ == old(out)@ + hex_digits(m as nat),
    decreases m,
{
    if m >= 16 {
        push_hex_digits(m / 16, out);
    }
    out.push(digit_char((m % 16) as u8));
    proof {
        if m >= 16 {
            assert(hex_digits(m as nat) == hex_digits((m / 16) as nat).push(hex_char((m % 16) as nat)));
        }
        assert(final(out)@ =~= old(out)@ + hex_digits(m as nat));
    }
}

fn push_dec_digits(m: u64, out: &mut Vec<char>)
    ensures
        final(out)@ == old(out)@ + dec_digits(m as nat),
    decreases m,
{
    if m >= 10 {
        push_dec_digits(m / 10, out);
    }
    out.push(digit_char((m % 10) as u8));
    proof {
        if m >= 10 {
            assert(dec_digits(m as nat) == dec_digits((m / 10) as nat).push(hex_char((m % 10) as nat)));
        }
        assert(final(out)@ =~= old(out)@ + dec_digits(m as nat));
    }
}

/// Formats `n` as lowercase hexadecimal without leading zeros.
pub fn fmt_hex(n: u128) -> (r: String)
    ensures
        r@ == hex_digits(n as nat),
{
    let mut out: Vec<char> = Vec::new();
    push_hex_digits(n, &mut out);
    proof {
        assert(out@ =~= hex_digits(n as nat));
    }
    string_from_chars(out.as_slice())
}

/// Formats `n` in decimal without leading zeros.
pub fn fmt_dec(n: u64) -> (r: String)
    ensures
        r@ == dec_digits(n as nat),
{
    let mut out: Vec<char> = Vec::new();
    push_dec_digits(n, &mut out);
    proof {
        assert(out@ =~= dec_digits(n as nat));
    }
    string_from_chars(out.as_slice())
}

/// Formats `n` as `0x` followed by lowercase hexadecimal digits.
pub fn fmt_hex_prefixed(n: u128) -> (r: String)
    ensures
        r@ == hex_prefixed(n as nat),
{
    let mut s = String::from_str("0x");
    proof {
        reveal_strlit("0x");
    }
    let h = fmt_hex(n);
    s.append(h.as_str());
    s
}

/// Formats a byte as exactly two lowercase hexadecimal digits.
pub fn fmt_hex_byte(b: u8) -> (r: String)
    ensures
        r@ == hex_byte(b),
{
    let v: Vec<char> = vec![digit_char(b / 16), digit_char(b % 16)];
    proof {
        assert(v@ =~= hex_byte(b));
    }
    string_from_chars(v.as_slice())
}

// ---------------------------------------------------------------------------
// Character sequence predicates
// ---------------------------------------------------------------------------

/// `p` is a prefix of `s`.
pub open spec fn starts_with(s: Seq<char>, p: Seq<char>) -> bool {
    p.len() <= s.len() && s.subrange(0, p.len() as int) == p
}

/// `p` is a suffix of `s`.
pub open spec fn ends_with(s: Seq<char>, p: Seq<char>) -> bool {
    p.len() <= s.len() && s.subrange(s.len() - p.len(), s.len() as int) == p
}

/// `p` occurs in `s` at position `i`.
pub open spec fn occurs_at(s: Seq<char>, p: Seq<char>, i: int) -> bool {
    0 <= i && i + p.len() <= s.len() && s.subrange(i, i + p.len()) == p
}

/// `p` occurs somewhere in `s`.
pub open spec fn contains(s: Seq<char>, p: Seq<char>) -> bool {
    exists|i: int| occurs_at(s, p, i)
}

fn chars_match_at(s: &Vec<char>, p: &Vec<char>, i: usize) -> (r: bool)
    requires
        i + p.len() <= s.len(),
    ensures
        r == (s@.subrange(i as int, i + p.len()) == p@),
{
    let mut j: usize = 0;
    while j < p.len()
        invariant
            j <= p.len(),
            i + p.len() <= s.len(),
            forall|k: int| 0 <= k < j ==> s@[i + k] == p@[k],
        decreases p.len() - j,
    {
        if s[i + j] != p[j] {
            proof {
                assert(s@.subrange(i as int, i + p.len())[j as int] != p@[j as int]);
            }
            return false;
        }
        j = j + 1;
    }
    proof {
        assert(s@.subrange(i as int, i + p.len()) =~= p@);
    }
    true
}

/// Whether `s` starts with `p`.
pub fn str_starts_with(s: &str, p: &str) -> (r: bool)
    ensures
        r == starts_with(s@, p@),
{
    let sv = str_chars(s);
    let pv = str_chars(p);
    if pv.len() > sv.len() {
        return false;
    }
    chars_match_at(&sv, &pv, 0)
}

/// Whether `s` ends with `p`.
pub fn str_ends_with(s: &str, p: &str) -> (r: bool)
    ensures
        r == ends_with(s@, p@),
{
    let sv = str_chars(s);
    let pv = str_chars(p);
    if pv.len() > sv.len() {
        return false;
    }
    chars_match_at(&sv, &pv, sv.len() - pv.len())
}

/// Whether `p` occurs in `s`.
pub fn str_contains(s: &str, p: &str) -> (r: bool)
    ensures
        r == contains(s@, p@),
{
    let sv = str_chars(s);
    let pv = str_chars(p);
    if pv.len() > sv.len() {
        proof {
            assert forall|i: int| !occurs_at(s@, p@, i) by {}
        }
        return false;
    }
    if pv.len() == 0 {
        proof {
            assert(s@.subrange(0, 0) =~= p@);
            assert(occurs_at(s@, p@, 0));
        }
        return true;
    }
    let mut i: usize = 0;
    while i <= sv.len() - pv.len()
        invariant
            0 < pv.len() <= sv.len(),
            sv@ == s@,
            pv@ == p@,
            forall|k: int| 0 <= k < i ==> !occurs_at(s@, p@, k),
        decreases sv.len() - pv.len() + 1 - i,
    {
        if chars_match_at(&sv, &pv, i) {
            proof {
                assert(occurs_at(s@, p@, i as int));
            }
            return true;
        }
        i = i + 1;
    }
    proof {
        assert forall|k: int| !occurs_at(s@, p@, k) by {
            if 0 <= k && k + p@.len() <= s@.len() {
                assert(k < i);
            }
        }
    }
    false
}

/// Whether two strings are equal.
pub fn str_eq(a: &str, b: &str) -> (r: bool)
    ensures
        r == (a@ == b@),
{
    let av = str_chars(a);
    let bv = str_chars(b);
    if av.len() != bv.len() {
        return false;
    }
    let r = chars_match_at(&av, &bv, 0);
    proof {
        assert(av@.subrange(0, bv@.len() as int) =~= av@);
    }
    r
}

/// Replaces every occurrence of `from` in `s` by `to`.
pub open spec fn replace_char(s: Seq<char>, from: char, to: Seq<char>) -> Seq<char>
    decreases s.len(),
{
    if s.len() == 0 {
        Seq::empty()
    } else {
        replace_char(s.drop_last(), from, to) + if s.last() == from {
            to
        } else {
            seq![s.last()]
        }
    }
}

/// `s` with every `from` replaced by `to` (`str::replace` with a character pattern).
pub fn str_replace_char(s: &str, from: char, to: &str) -> (r: String)
    ensures
        r@ == replace_char(s@, from, to@),
{
    let sv = str_chars(s);
    let tv = str_chars(to);
    let mut out: Vec<char> = Vec::new();
    let mut i: usize = 0;
    while i < sv.len()
        invariant
            i <= sv.len(),
            sv@ == s@,
            tv@ == to@,
            out@ == replace_char(sv@.subrange(0, i as int), from, to@),
        decreases sv.len() - i,
    {
        proof {
            assert(sv@.subrange(0, i + 1).drop_last() =~= sv@.subrange(0, i as int));
        }
        if sv[i] == from {
            let mut j: usize = 0;
            let ghost before = out@;
            while j < tv.len()
                invariant
                    j <= tv.len(),
                    out@ == before + tv@.subrange(0, j as int),
                decreases tv.len() - j,
            {
                out.push(tv[j]);
                proof {
                    assert(before + tv@.subrange(0, j + 1) =~= (before + tv@.subrange(
                        0,
                        j as int,
                    )).push(tv@[j as int]));
                }
                j = j + 1;
            }
            proof {
                assert(tv@.subrange(0, tv.len() as int) =~= tv@);
            }
        } else {
            out.push(sv[i]);
            proof {
                assert(out@ =~= replace_char(sv@.subrange(0, i as int), from, to@) + seq![
                    sv@[i as int],
                ]);
            }
        }
        i = i + 1;
    }
    proof {
        assert(sv@.subrange(0, sv.len() as int) =~= sv@);
    }
    string_from_chars(out.as_slice())
}

// ---------------------------------------------------------------------------
// Decimal parsing
// ---------------------------------------------------------------------------

/// Whether `c` is an ASCII decimal digit.
pub open spec fn is_digit(c: char) -> bool {
    48 <= (c as u32) <= 57
}

/// Whether every character of `s` is an ASCII decimal digit.
pub open spec fn all_digits(s: Seq<char>) -> bool {
    forall|i: int| 0 <= i < s.len() ==> is_digit(#[trigger] s[i])
}

/// The value of a string of decimal digits.
pub open spec fn digits_value(s: Seq<char>) -> nat
    decreases s.len(),
{
    if s.len() == 0 {
        0
    } else {
        digits_value(s.drop_last()) * 10 + ((s.last() as u32) - 48) as nat
    }
}

/// `u32::from_str`: an optional `+` followed by at least one decimal digit,
/// with a value that fits in a `u32`.
pub open spec fn parse_u32_spec(s: Seq<char>) -> Option<u32> {
    let d = if s.len() > 1 && s[0] == '+' {
        s.skip(1)
    } else {
        s
    };
    if d.len() > 0 && all_digits(d) && digits_value(d) <= u32::MAX {
        Some(digits_value(d) as u32)
    } else {
        None
    }
}

proof fn lemma_digits_value_mono(p: Seq<char>, q: Seq<char>)
    requires
        all_digits(q),
    ensures
        digits_value(p + q) >= digits_value(p),
    decreases q.len(),
{
    if q.len() == 0 {
        assert(p + q =~= p);
    } else {
        let q1 = q.drop_last();
        assert(all_digits(q1)) by {
            assert forall|i: int| 0 <= i < q1.len() implies is_digit(#[trigger] q1[i]) by {
                assert(q1[i] == q[i]);
            }
        }
        lemma_digits_value_mono(p, q1);
        assert((p + q).drop_last() =~= p + q1);
        assert(is_digit(q[q.len() - 1]));
    }
}

/// Whether every character of `s` is an ASCII decimal digit.
pub fn str_all_digits(s: &str) -> (r: bool)
    ensures
        r == all_digits(s@),
{
    let v = str_chars(s);
    let mut i: usize = 0;
    while i < v.len()
        invariant
            i <= v.len(),
            v@ == s@,
            forall|j: int| 0 <= j < i ==> is_digit(#[trigger] v@[j]),
        decreases v.len() - i,
    {
        let c = v[i] as u32;
        if !(48 <= c && c <= 57) {
            return false;
        }
        i = i + 1;
    }
    true
}

/// Parses a `u32` as `u32::from_str` does.
pub fn parse_u32(s: &str) -> (r: Option<u32>)
    ensures
        r == parse_u32_spec(s@),
{
    let v = str_chars(s);
    let start: usize = if v.len() > 1 && v[0] == '+' {
        1
    } else {
        0
    };
    let ghost d = v@.skip(start as int);
    proof {
        assert(d =~= if s@.len() > 1 && s@[0] == '+' {
            s@.skip(1)
        } else {
            s@
        });
    }
    if start == v.len() {
        return None;
    }
    let mut val: u64 = 0;
    let mut i: usize = start;
    while i < v.len()
        invariant
            start <= i <= v.len(),
            v@ == s@,
            d == v@.skip(start as int),
            d == (if s@.len() > 1 && s@[0] == '+' {
                s@.skip(1)
            } else {
                s@
            }),
            val as nat == digits_value(v@.subrange(start as int, i as int)),
            val <= u32::MAX,
            forall|j: int| start <= j < i ==> is_digit(#[trigger] v@[j]),
        decreases v.len() - i,
    {
        let c = v[i] as u32;
        if !(48 <= c && c <= 57) {
            proof {
                assert(d[i - start] == v@[i as int]);
                assert(!is_digit(d[i - start]));
            }
            return None;
        }
        proof {
            assert(v@.subrange(start as int, i + 1).drop_last() =~= v@.subrange(
                start as int,
                i as int,
            ));
        }
        val = val * 10 + (c - 48) as u64;
        if val > 0xffff_ffff {
            proof {
                let p = v@.subrange(start as int, i + 1);
                let rest = v@.subrange(i + 1, v.len() as int);
                assert(d =~= p + rest);
                if all_digits(d) {
                    assert(all_digits(rest)) by {
                        assert forall|j: int| 0 <= j < rest.len() implies is_digit(#[trigger] rest[j]) by {
                            assert(rest[j] == d[j + (i + 1 - start)]);
                        }
                    }
                    lemma_digits_value_mono(p, rest);
                }
            }
            return None;
        }
        i = i + 1;
    }
    proof {
        assert(v@.subrange(start as int, v.len() as int) =~= d);
        assert(all_digits(d)) by {
            assert forall|j: int| 0 <= j < d.len() implies is_digit(#[trigger] d[j]) by {
                assert(d[j] == v@[j + start]);
            }
        }
    }
    Some(val as u32)
}

// ---------------------------------------------------------------------------
// Joining
// ---------------------------------------------------------------------------

/// The views of a list of strings.
pub open spec fn strings_view(v: Seq<String>) -> Seq<Seq<char>> {
    v.map_values(|s: String| s@)
}

/// The strings of `parts` with `sep` between consecutive ones.
pub open spec fn join(parts: Seq<Seq<char>>, sep: Seq<char>) -> Seq<char>
    decreases parts.len(),
{
    if parts.len() == 0 {
        Seq::empty()
    } else if parts.len() == 1 {
        parts[0]
    } else {
        join(parts.drop_last(), sep) + sep + parts.last()
    }
}

/// Joins `parts` with `sep` (`[String]::join`).
pub fn join_strings(parts: &Vec<String>, sep: &str) -> (r: String)
    ensures
        r@ == join(strings_view(parts@), sep@),
{
    let ghost views = strings_view(parts@);
    let mut out = String::new();
    let mut i: usize = 0;
    while i < parts.len()
        invariant
            i <= parts.len(),
            views == strings_view(parts@),
            out@ == join(views.subrange(0, i as int), sep@),
        decreases parts.len() - i,
    {
        proof {
            assert(views.subrange(0, i + 1).drop_last() =~= views.subrange(0, i as int));
        }
        if i > 0 {
            out.append(sep);
        }
        out.append(parts[i].as_str());
        proof {
            if i == 0 {
                assert(out@ =~= views.subrange(0, 1)[0]);
            }
        }
        i = i + 1;
    }
    proof {
        assert(views.subrange(0, parts.len() as int) =~= views);
    }
    out
}

/// Concatenates two strings.
pub fn concat(a: &str, b: &str) -> (r: String)
    ensures
        r@ == a@ + b@,
{
    let mut s = String::from_str(a);
    s.append(b);
    s
}

} // verus!
