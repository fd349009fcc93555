//! The lexical layer of the source grammar: byte classes, fixed tags,
//! comments and blanks ("junk"), integers, escapes, labels and references.
//!
//! Every scanner reads a byte slice from a position and is specified by a
//! spec function over `(Seq<u8>, nat)` that gives the value read and the
//! position after it, or `None` where the input does not match.

use vstd::prelude::*;
use vstd::utf8::{decode_utf8, valid_utf8};

verus! {

// ---------------------------------------------------------------------------
// Byte classes
// ---------------------------------------------------------------------------

pub open spec fn is_alpha(c: u8) -> bool {
    (('a' as u8) <= c && c <= ('z' as u8)) || (('A' as u8) <= c && c <= ('Z' as u8))
}

pub open spec fn is_dec(c: u8) -> bool {
    ('0' as u8) <= c && c <= ('9' as u8)
}

pub open spec fn is_hex(c: u8) -> bool {
    is_dec(c) || (('a' as u8) <= c && c <= ('f' as u8)) || (('A' as u8) <= c && c <= ('F' as u8))
}

pub open spec fn is_oct(c: u8) -> bool {
    ('0' as u8) <= c && c <= ('7' as u8)
}

pub open spec fn is_alnum(c: u8) -> bool {
    is_alpha(c) || is_dec(c)
}

/// A byte that may stand in a label: a letter, a digit or `_`.
pub open spec fn label_char(c: u8) -> bool {
    is_alnum(c) || c == '_' as u8
}

/// A byte that may stand in a property or node name.
pub open spec fn prop_node_char(c: u8) -> bool {
    is_alnum(c) || c == ',' as u8 || c == '.' as u8 || c == '_' as u8 || c == '+' as u8 || c
        == '*' as u8 || c == '#' as u8 || c == '?' as u8 || c == '@' as u8 || c == '-' as u8
}

/// A byte that may stand in a node path.
pub open spec fn path_char(c: u8) -> bool {
    prop_node_char(c) || c == '/' as u8
}

/// The classes of bytes that the scanners skip over.
#[derive(Clone, Copy)]
pub enum Class {
    /// A space or a tab.
    Space,
    /// A space, a tab, a carriage return or a line feed.
    Multispace,
    Dec,
    Hex,
    Oct,
    Label,
    PropNode,
    Path,
    /// Anything but a carriage return or a line feed.
    NotLineEnd,
    /// Anything but a backslash or a double quote.
    Plain,
}

pub open spec fn in_class(k: Class, c: u8) -> bool {
    match k {
        Class::Space => c == ' ' as u8 || c == '\t' as u8,
        Class::Multispace => c == ' ' as u8 || c == '\t' as u8 || c == '\r' as u8 || c == '\n' as u8,
        Class::Dec => is_dec(c),
        Class::Hex => is_hex(c),
        Class::Oct => is_oct(c),
        Class::Label => label_char(c),
        Class::PropNode => prop_node_char(c),
        Class::Path => path_char(c),
        Class::NotLineEnd => c != '\r' as u8 && c != '\n' as u8,
        Class::Plain => c != '\\' as u8 && c != '"' as u8,
    }
}

/// Whether `c` may stand in a property or node name.
pub fn is_prop_node_char(c: u8) -> (r: bool)
    ensures
        r == prop_node_char(c),
{
    is_label_char(c) || c == ',' as u8 || c == '.' as u8 || c == '+' as u8 || c == '*' as u8 || c
        == '#' as u8 || c == '?' as u8 || c == '@' as u8 || c == '-' as u8
}

/// Whether `c` may stand in a node path.
pub fn is_path_char(c: u8) -> (r: bool)
    ensures
        r == path_char(c),
{
    is_prop_node_char(c) || c == '/' as u8
}

/// Whether `c` may stand in a label.
pub fn is_label_char(c: u8) -> (r: bool)
    ensures
        r == label_char(c),
{
    (('a' as u8) <= c && c <= ('z' as u8)) || (('A' as u8) <= c && c <= ('Z' as u8)) || (('0' as u8)
        <= c && c <= ('9' as u8)) || c == '_' as u8
}

fn class_has(k: Class, c: u8) -> (r: bool)
    ensures
        r == in_class(k, c),
{
    match k {
        Class::Space => c == ' ' as u8 || c == '\t' as u8,
        Class::Multispace => c == ' ' as u8 || c == '\t' as u8 || c == '\r' as u8 || c == '\n' as u8,
        Class::Dec => ('0' as u8) <= c && c <= ('9' as u8),
        Class::Hex => (('0' as u8) <= c && c <= ('9' as u8)) || (('a' as u8) <= c && c <= ('f' as u8))
            || (('A' as u8) <= c && c <= ('F' as u8)),
        Class::Oct => ('0' as u8) <= c && c <= ('7' as u8),
        Class::Label => is_label_char(c),
        Class::PropNode => is_prop_node_char(c),
        Class::Path => is_path_char(c),
        Class::NotLineEnd => c != '\r' as u8 && c != '\n' as u8,
        Class::Plain => c != '\\' as u8 && c != '"' as u8,
    }
}

// ---------------------------------------------------------------------------
// Spans, single bytes and tags
// ---------------------------------------------------------------------------

/// The end of the longest run of bytes of class `k` that starts at `p`.
pub open spec fn span(s: Seq<u8>, p: nat, k: Class) -> nat
    decreases s.len() - p,
{
    if p < s.len() && in_class(k, s[p as int]) {
        span(s, p + 1, k)
    } else {
        p
    }
}

pub proof fn lemma_span(s: Seq<u8>, p: nat, k: Class)
    ensures
        p <= span(s, p, k),
        p <= s.len() ==> span(s, p, k) <= s.len(),
        p > s.len() ==> span(s, p, k) == p,
        forall|i: int| p <= i < span(s, p, k) ==> in_class(k, #[trigger] s[i]),
        span(s, p, k) < s.len() ==> !in_class(k, s[span(s, p, k) as int]),
    decreases s.len() - p,
{
    if p < s.len() && in_class(k, s[p as int]) {
        lemma_span(s, p + 1, k);
    }
}

/// The end of the run of bytes of class `k` that starts at `p`.
pub fn skip(s: &[u8], p: usize, k: Class) -> (r: usize)
    ensures
        r == span(s@, p as nat, k),
{
    let mut i = p;
    while i < s.len() && class_has(k, s[i])
        invariant
            p <= i,
            span(s@, i as nat, k) == span(s@, p as nat, k),
        decreases s.len() - i,
    {
        i = i + 1;
    }
    i
}

/// The byte at `p` is `c`.
pub open spec fn at(s: Seq<u8>, p: nat, c: u8) -> bool {
    p < s.len() && s[p as int] == c
}

/// Whether the byte at `p` is `c`.
pub fn byte_at(s: &[u8], p: usize, c: u8) -> (r: bool)
    ensures
        r == at(s@, p as nat, c),
{
    p < s.len() && s[p] == c
}

/// The bytes of `t` stand at `p`.
pub open spec fn has_tag(s: Seq<u8>, p: nat, t: Seq<u8>) -> bool {
    p + t.len() <= s.len() && s.subrange(p as int, p + t.len() as int) == t
}

/// Whether the bytes of `t` stand at `p`.
pub fn tag_at(s: &[u8], p: usize, t: &[u8]) -> (r: bool)
    ensures
        r == has_tag(s@, p as nat, t@),
{
    if p > s.len() || t.len() > s.len() - p {
        return false;
    }
    let mut i: usize = 0;
    while i < t.len()
        invariant
            p + t.len() <= s.len(),
            i <= t.len(),
            forall|j: int| 0 <= j < i ==> s@[p + j] == t@[j],
        decreases t.len() - i,
    {
        if s[p + i] != t[i] {
            proof {
                assert(s@.subrange(p as int, p + t.len() as int)[i as int] != t@[i as int]);
            }
            return false;
        }
        i = i + 1;
    }
    proof {
        assert(s@.subrange(p as int, p + t.len() as int) =~= t@);
    }
    true
}

/// The first position at or after `p` where `t` stands.
pub open spec fn find_tag(s: Seq<u8>, p: nat, t: Seq<u8>) -> Option<nat>
    decreases s.len() - p,
{
    if p >= s.len() || p + t.len() > s.len() {
        None
    } else if has_tag(s, p, t) {
        Some(p)
    } else {
        find_tag(s, p + 1, t)
    }
}

pub proof fn lemma_find_tag(s: Seq<u8>, p: nat, t: Seq<u8>)
    ensures
        find_tag(s, p, t) matches Some(q) ==> p <= q && q + t.len() <= s.len(),
    decreases s.len() - p,
{
    if !(p >= s.len() || p + t.len() > s.len()) && !has_tag(s, p, t) {
        lemma_find_tag(s, p + 1, t);
    }
}

/// The first position at or after `p` where `t` stands.
pub fn find_tag_from(s: &[u8], p: usize, t: &[u8]) -> (r: Option<usize>)
    ensures
        match r {
            Some(q) => find_tag(s@, p as nat, t@) == Some(q as nat),
            None => find_tag(s@, p as nat, t@) is None,
        },
{
    let mut i = p;
    while i < s.len() && t.len() <= s.len() - i
        invariant
            p <= i,
            find_tag(s@, i as nat, t@) == find_tag(s@, p as nat, t@),
        decreases s.len() - i,
    {
        if tag_at(s, i, t) {
            return Some(i);
        }
        i = i + 1;
    }
    None
}

// ---------------------------------------------------------------------------
// Line ends
// ---------------------------------------------------------------------------

/// The end of the rest of a line (`not_line_ending`): the first carriage
/// return or line feed at or after `p`, or the end of the input; a carriage
/// return that no line feed follows fails.
pub open spec fn line_end(s: Seq<u8>, p: nat) -> Option<nat> {
    let q = span(s, p, Class::NotLineEnd);
    if at(s, q, '\r' as u8) && !at(s, q + 1, '\n' as u8) {
        None
    } else {
        Some(q)
    }
}

/// The position after a line ending (`\n` or `\r\n`) at `p`, or `p`.
pub open spec fn skip_line_ending(s: Seq<u8>, p: nat) -> nat {
    if at(s, p, '\n' as u8) {
        p + 1
    } else if at(s, p, '\r' as u8) && at(s, p + 1, '\n' as u8) {
        p + 2
    } else {
        p
    }
}

fn line_end_from(s: &[u8], p: usize) -> (r: Option<usize>)
    requires
        p <= s.len(),
    ensures
        match r {
            Some(q) => line_end(s@, p as nat) == Some(q as nat),
            None => line_end(s@, p as nat) is None,
        },
{
    let q = skip(s, p, Class::NotLineEnd);
    proof {
        lemma_span(s@, p as nat, Class::NotLineEnd);
    }
    if byte_at(s, q, '\r' as u8) && !byte_at(s, q + 1, '\n' as u8) {
        None
    } else {
        Some(q)
    }
}

fn skip_line_ending_from(s: &[u8], p: usize) -> (r: usize)
    requires
        p <= s.len(),
    ensures
        r == skip_line_ending(s@, p as nat),
{
    if byte_at(s, p, '\n' as u8) {
        p + 1
    } else if byte_at(s, p, '\r' as u8) && byte_at(s, p + 1, '\n' as u8) {
        p + 2
    } else {
        p
    }
}

// ---------------------------------------------------------------------------
// Junk: comments, line markers and blanks
// ---------------------------------------------------------------------------

pub open spec fn tag_block_open() -> Seq<u8> {
    seq!['/' as u8, '*' as u8]
}

pub open spec fn tag_block_close() -> Seq<u8> {
    seq!['*' as u8, '/' as u8]
}

pub open spec fn tag_line_comment() -> Seq<u8> {
    seq!['/' as u8, '/' as u8]
}

pub open spec fn tag_line() -> Seq<u8> {
    seq!['l' as u8, 'i' as u8, 'n' as u8, 'e' as u8]
}

/// `/* ... */`.
pub open spec fn block_comment(s: Seq<u8>, p: nat) -> Option<nat> {
    if has_tag(s, p, tag_block_open()) {
        match find_tag(s, p + 2, tag_block_close()) {
            Some(q) => Some(q + 2),
            None => None,
        }
    } else {
        None
    }
}

/// `// ...` up to and including the line ending.
pub open spec fn line_comment(s: Seq<u8>, p: nat) -> Option<nat> {
    if has_tag(s, p, tag_line_comment()) {
        match line_end(s, p + 2) {
            Some(q) => Some(skip_line_ending(s, q)),
            None => None,
        }
    } else {
        None
    }
}

/// A preprocessor line marker: `#`, optionally `line`, blanks, a line
/// number, optionally blanks and the rest of the line, and the line ending.
pub open spec fn line_marker(s: Seq<u8>, p: nat) -> Option<nat> {
    if at(s, p, '#' as u8) {
        let a = span(s, p + 1, Class::Space);
        let b0 = if has_tag(s, a, tag_line()) {
            a + 4
        } else {
            p + 1
        };
        let b = span(s, b0, Class::Space);
        let c = span(s, b, Class::Dec);
        if b > b0 && c > b {
            let d0 = span(s, c, Class::Space);
            let d = if d0 > c {
                match line_end(s, d0) {
                    Some(d) => d,
                    None => c,
                }
            } else {
                c
            };
            Some(skip_line_ending(s, d))
        } else {
            None
        }
    } else {
        None
    }
}

/// One or more blanks or line endings.
pub open spec fn blanks(s: Seq<u8>, p: nat) -> Option<nat> {
    let q = span(s, p, Class::Multispace);
    if q > p {
        Some(q)
    } else {
        None
    }
}

/// One piece of junk, the first of the four kinds that matches.
pub open spec fn junk_step(s: Seq<u8>, p: nat) -> Option<nat> {
    if block_comment(s, p) is Some {
        block_comment(s, p)
    } else if line_comment(s, p) is Some {
        line_comment(s, p)
    } else if line_marker(s, p) is Some {
        line_marker(s, p)
    } else {
        blanks(s, p)
    }
}

pub proof fn lemma_line_end(s: Seq<u8>, p: nat)
    ensures
        line_end(s, p) matches Some(q) ==> p <= q && (p <= s.len() ==> q <= s.len()),
{
    lemma_span(s, p, Class::NotLineEnd);
}

pub proof fn lemma_junk_step(s: Seq<u8>, p: nat)
    ensures
        junk_step(s, p) matches Some(q) ==> p < q <= s.len(),
{
    lemma_find_tag(s, p + 2, tag_block_close());
    lemma_line_end(s, p + 2);
    lemma_span(s, p, Class::Multispace);
    if at(s, p, '#' as u8) {
        let a = span(s, p + 1, Class::Space);
        lemma_span(s, p + 1, Class::Space);
        let b0 = if has_tag(s, a, tag_line()) {
            a + 4
        } else {
            p + 1
        };
        lemma_span(s, b0, Class::Space);
        let b = span(s, b0, Class::Space);
        lemma_span(s, b, Class::Dec);
        let c = span(s, b, Class::Dec);
        lemma_span(s, c, Class::Space);
        let d0 = span(s, c, Class::Space);
        lemma_line_end(s, d0);
    }
}

/// The position after all the junk at `p` (`eat_junk`).
pub open spec fn eat_junk(s: Seq<u8>, p: nat) -> nat
    decreases s.len() - p,
    via eat_junk_decreases
{
    match junk_step(s, p) {
        Some(q) => eat_junk(s, q),
        None => p,
    }
}

#[via_fn]
proof fn eat_junk_decreases(s: Seq<u8>, p: nat) {
    lemma_junk_step(s, p);
}

pub proof fn lemma_eat_junk(s: Seq<u8>, p: nat)
    ensures
        p <= eat_junk(s, p),
        p <= s.len() ==> eat_junk(s, p) <= s.len(),
        p > s.len() ==> eat_junk(s, p) == p,
    decreases s.len() - p,
{
    lemma_junk_step(s, p);
    if let Some(q) = junk_step(s, p) {
        lemma_eat_junk(s, q);
    }
}

fn block_comment_at(s: &[u8], p: usize) -> (r: Option<usize>)
    requires
        p <= s.len(),
    ensures
        match r {
            Some(q) => block_comment(s@, p as nat) == Some(q as nat),
            None => block_comment(s@, p as nat) is None,
        },
{
    let open: [u8; 2] = ['/' as u8, '*' as u8];
    let close: [u8; 2] = ['*' as u8, '/' as u8];
    if tag_at(s, p, &open) {
        proof {
            lemma_find_tag(s@, (p + 2) as nat, tag_block_close());
        }
        match find_tag_from(s, p + 2, &close) {
            Some(q) => Some(q + 2),
            None => None,
        }
    } else {
        None
    }
}

fn line_comment_at(s: &[u8], p: usize) -> (r: Option<usize>)
    requires
        p <= s.len(),
    ensures
        match r {
            Some(q) => line_comment(s@, p as nat) == Some(q as nat),
            None => line_comment(s@, p as nat) is None,
        },
{
    let open: [u8; 2] = ['/' as u8, '/' as u8];
    if tag_at(s, p, &open) {
        proof {
            lemma_line_end(s@, (p + 2) as nat);
        }
        match line_end_from(s, p + 2) {
            Some(q) => Some(skip_line_ending_from(s, q)),
            None => None,
        }
    } else {
        None
    }
}

fn line_marker_at(s: &[u8], p: usize) -> (r: Option<usize>)
    requires
        p <= s.len(),
    ensures
        match r {
            Some(q) => line_marker(s@, p as nat) == Some(q as nat),
            None => line_marker(s@, p as nat) is None,
        },
{
    let line: [u8; 4] = ['l' as u8, 'i' as u8, 'n' as u8, 'e' as u8];
    if !byte_at(s, p, '#' as u8) {
        return None;
    }
    let a = skip(s, p + 1, Class::Space);
    proof {
        lemma_span(s@, (p + 1) as nat, Class::Space);
    }
    let b0 = if tag_at(s, a, &line) {
        a + 4
    } else {
        p + 1
    };
    let b = skip(s, b0, Class::Space);
    proof {
        lemma_span(s@, b0 as nat, Class::Space);
    }
    let c = skip(s, b, Class::Dec);
    proof {
        lemma_span(s@, b as nat, Class::Dec);
    }
    if b > b0 && c > b {
        let d0 = skip(s, c, Class::Space);
        proof {
            lemma_span(s@, c as nat, Class::Space);
            lemma_line_end(s@, d0 as nat);
        }
        let d = if d0 > c {
            match line_end_from(s, d0) {
                Some(d) => d,
                None => c,
            }
        } else {
            c
        };
        Some(skip_line_ending_from(s, d))
    } else {
        None
    }
}

fn junk_step_at(s: &[u8], p: usize) -> (r: Option<usize>)
    requires
        p <= s.len(),
    ensures
        match r {
            Some(q) => junk_step(s@, p as nat) == Some(q as nat),
            None => junk_step(s@, p as nat) is None,
        },
{
    if let Some(q) = block_comment_at(s, p) {
        return Some(q);
    }
    if let Some(q) = line_comment_at(s, p) {
        return Some(q);
    }
    if let Some(q) = line_marker_at(s, p) {
        return Some(q);
    }
    let q = skip(s, p, Class::Multispace);
    if q > p {
        Some(q)
    } else {
        None
    }
}

/// Skips comments, line markers and blanks.
pub fn eat_junk_at(s: &[u8], p: usize) -> (r: usize)
    requires
        p <= s.len(),
    ensures
        r == eat_junk(s@, p as nat),
        p <= r <= s.len(),
{
    let mut i = p;
    proof {
        lemma_eat_junk(s@, p as nat);
    }
    loop
        invariant
            p <= i <= s.len(),
            eat_junk(s@, i as nat) == eat_junk(s@, p as nat),
        decreases s.len() - i,
    {
        proof {
            lemma_junk_step(s@, i as nat);
        }
        match junk_step_at(s, i) {
            Some(q) => {
                i = q;
            },
            None => {
                return i;
            },
        }
    }
}

// ---------------------------------------------------------------------------
// Numbers
// ---------------------------------------------------------------------------

/// The value of a hexadecimal (hence also octal or decimal) digit.
pub open spec fn digit_value(c: u8) -> nat {
    if is_dec(c) {
        (c - ('0' as u8)) as nat
    } else if ('a' as u8) <= c && c <= ('f' as u8) {
        (c - ('a' as u8) + 10) as nat
    } else if ('A' as u8) <= c && c <= ('F' as u8) {
        (c - ('A' as u8) + 10) as nat
    } else {
        0
    }
}

/// The number that the digits `d` write in base `radix`.
pub open spec fn radix_value(d: Seq<u8>, radix: nat) -> nat
    decreases d.len(),
{
    if d.len() == 0 {
        0
    } else {
        radix_value(d.drop_last(), radix) * radix + digit_value(d.last())
    }
}

/// The number that the digits `s[a..b]` write in base `radix`, where it
/// fits in a `u64`.
pub open spec fn digits_u64(s: Seq<u8>, a: nat, b: nat, radix: nat) -> Option<u64> {
    let v = radix_value(s.subrange(a as int, b as int), radix);
    if v <= u64::MAX {
        Some(v as u64)
    } else {
        None
    }
}

/// A non-empty run of digits of class `k` at `a`, read in base `radix`,
/// with the position after it; `None` where there is no digit or the
/// number does not fit in a `u64`.
pub open spec fn number_at(s: Seq<u8>, a: nat, k: Class, radix: nat) -> Option<(u64, nat)> {
    let e = span(s, a, k);
    if e > a {
        match digits_u64(s, a, e, radix) {
            Some(v) => Some((v, e)),
            None => None,
        }
    } else {
        None
    }
}

proof fn lemma_radix_prefix(d: Seq<u8>, k: int, radix: nat)
    requires
        0 <= k <= d.len(),
        radix >= 1,
    ensures
        radix_value(d.subrange(0, k), radix) <= radix_value(d, radix),
    decreases d.len(),
{
    if k < d.len() {
        let d0 = d.drop_last();
        lemma_radix_prefix(d0, k, radix);
        assert(d0.subrange(0, k) =~= d.subrange(0, k));
        let x = radix_value(d0, radix);
        assert(x * radix >= x) by (nonlinear_arith)
            requires
                radix >= 1,
        ;
    } else {
        assert(d.subrange(0, k) =~= d);
    }
}

pub fn digit_of(c: u8) -> (r: u64)
    ensures
        r == digit_value(c),
        r < 16,
{
    if ('0' as u8) <= c && c <= ('9' as u8) {
        (c - ('0' as u8)) as u64
    } else if ('a' as u8) <= c && c <= ('f' as u8) {
        (c - ('a' as u8) + 10) as u64
    } else if ('A' as u8) <= c && c <= ('F' as u8) {
        (c - ('A' as u8) + 10) as u64
    } else {
        0
    }
}

/// Reads the digits `s[a..b]` in base `radix` (`from_str_radix` on digits).
pub fn from_str_radix(s: &[u8], a: usize, b: usize, radix: u64) -> (r: Option<u64>)
    requires
        a <= b <= s.len(),
        1 <= radix,
    ensures
        r == digits_u64(s@, a as nat, b as nat, radix as nat),
{
    let mut acc: u64 = 0;
    let mut i = a;
    proof {
        assert(s@.subrange(a as int, a as int) =~= Seq::<u8>::empty());
    }
    while i < b
        invariant
            a <= i <= b <= s.len(),
            1 <= radix,
            acc as nat == radix_value(s@.subrange(a as int, i as int), radix as nat),
        decreases b - i,
    {
        let ghost d = s@.subrange(a as int, (i + 1) as int);
        proof {
            assert(d.drop_last() =~= s@.subrange(a as int, i as int));
            assert(d.last() == s@[i as int]);
            let whole = s@.subrange(a as int, b as int);
            assert(whole.subrange(0, (i + 1 - a) as int) =~= d);
            lemma_radix_prefix(whole, (i + 1 - a) as int, radix as nat);
        }
        let dv = digit_of(s[i]);
        match acc.checked_mul(radix) {
            Some(m) => match m.checked_add(dv) {
                Some(v) => {
                    acc = v;
                },
                None => {
                    return None;
                },
            },
            None => {
                proof {
                    assert(acc * radix <= radix_value(d, radix as nat));
                }
                return None;
            },
        }
        i = i + 1;
    }
    Some(acc)
}

/// Reads hexadecimal digits.
pub fn from_str_hex(s: &[u8], a: usize, b: usize) -> (r: Option<u64>)
    requires
        a <= b <= s.len(),
    ensures
        r == digits_u64(s@, a as nat, b as nat, 16),
{
    from_str_radix(s, a, b, 16)
}

/// Reads octal digits.
pub fn from_str_oct(s: &[u8], a: usize, b: usize) -> (r: Option<u64>)
    requires
        a <= b <= s.len(),
    ensures
        r == digits_u64(s@, a as nat, b as nat, 8),
{
    from_str_radix(s, a, b, 8)
}

/// Reads decimal digits.
pub fn from_str_dec(s: &[u8], a: usize, b: usize) -> (r: Option<u64>)
    requires
        a <= b <= s.len(),
    ensures
        r == digits_u64(s@, a as nat, b as nat, 10),
{
    from_str_radix(s, a, b, 10)
}

/// Reads a non-empty run of digits of class `k` in base `radix`.
pub fn number_from(s: &[u8], a: usize, k: Class, radix: u64) -> (r: Option<(u64, usize)>)
    requires
        a <= s.len(),
        1 <= radix,
    ensures
        match r {
            Some((v, e)) => number_at(s@, a as nat, k, radix as nat) == Some((v, e as nat)),
            None => number_at(s@, a as nat, k, radix as nat) is None,
        },
{
    let e = skip(s, a, k);
    proof {
        lemma_span(s@, a as nat, k);
    }
    if e > a {
        let v = if radix == 16 {
            from_str_hex(s, a, e)
        } else if radix == 8 {
            from_str_oct(s, a, e)
        } else if radix == 10 {
            from_str_dec(s, a, e)
        } else {
            from_str_radix(s, a, e, radix)
        };
        match v {
            Some(v) => Some((v, e)),
            None => None,
        }
    } else {
        None
    }
}

/// A hexadecimal number with a `0x` or `0X` prefix.
pub open spec fn hex_number(s: Seq<u8>, p: nat) -> Option<(u64, nat)> {
    if at(s, p, '0' as u8) && (at(s, p + 1, 'x' as u8) || at(s, p + 1, 'X' as u8)) {
        number_at(s, p + 2, Class::Hex, 16)
    } else {
        None
    }
}

/// An octal number with a `0` prefix.
pub open spec fn oct_number(s: Seq<u8>, p: nat) -> Option<(u64, nat)> {
    if at(s, p, '0' as u8) {
        number_at(s, p + 1, Class::Oct, 8)
    } else {
        None
    }
}

pub open spec fn tag_ull() -> Seq<u8> {
    seq!['U' as u8, 'L' as u8, 'L' as u8]
}

pub open spec fn tag_ll() -> Seq<u8> {
    seq!['L' as u8, 'L' as u8]
}

pub open spec fn tag_ul() -> Seq<u8> {
    seq!['U' as u8, 'L' as u8]
}

/// The position after an optional integer suffix (`ULL`, `LL`, `UL`, `L`
/// or `U`).
pub open spec fn int_suffix(s: Seq<u8>, q: nat) -> nat {
    if has_tag(s, q, tag_ull()) {
        q + 3
    } else if has_tag(s, q, tag_ll()) || has_tag(s, q, tag_ul()) {
        q + 2
    } else if at(s, q, 'L' as u8) || at(s, q, 'U' as u8) {
        q + 1
    } else {
        q
    }
}

/// An integer literal: hexadecimal, else octal, else decimal (each only
/// where its digits fit in a `u64`), then an optional suffix.
pub open spec fn integer(s: Seq<u8>, p: nat) -> Option<(u64, nat)> {
    let body = if hex_number(s, p) is Some {
        hex_number(s, p)
    } else if oct_number(s, p) is Some {
        oct_number(s, p)
    } else {
        number_at(s, p, Class::Dec, 10)
    };
    match body {
        Some((v, e)) => Some((v, int_suffix(s, e))),
        None => None,
    }
}

pub proof fn lemma_number_at(s: Seq<u8>, a: nat, k: Class, radix: nat)
    ensures
        number_at(s, a, k, radix) matches Some((_, e)) ==> a < e <= s.len(),
{
    lemma_span(s, a, k);
}

pub proof fn lemma_integer(s: Seq<u8>, p: nat)
    ensures
        integer(s, p) matches Some((_, q)) ==> p < q <= s.len(),
{
    lemma_number_at(s, p + 2, Class::Hex, 16);
    lemma_number_at(s, p + 1, Class::Oct, 8);
    lemma_number_at(s, p, Class::Dec, 10);
}

fn int_suffix_at(s: &[u8], q: usize) -> (r: usize)
    requires
        q <= s.len(),
    ensures
        r == int_suffix(s@, q as nat),
        r <= s.len(),
{
    let ull: [u8; 3] = ['U' as u8, 'L' as u8, 'L' as u8];
    let ll: [u8; 2] = ['L' as u8, 'L' as u8];
    let ul: [u8; 2] = ['U' as u8, 'L' as u8];
    if tag_at(s, q, &ull) {
        q + 3
    } else if tag_at(s, q, &ll) || tag_at(s, q, &ul) {
        q + 2
    } else if byte_at(s, q, 'L' as u8) || byte_at(s, q, 'U' as u8) {
        q + 1
    } else {
        q
    }
}

/// Reads an integer literal.
pub fn integer_at(s: &[u8], p: usize) -> (r: Option<(u64, usize)>)
    requires
        p <= s.len(),
    ensures
        match r {
            Some((v, q)) => integer(s@, p as nat) == Some((v, q as nat)),
            None => integer(s@, p as nat) is None,
        },
{
    proof {
        lemma_number_at(s@, (p + 2) as nat, Class::Hex, 16);
        lemma_number_at(s@, (p + 1) as nat, Class::Oct, 8);
        lemma_number_at(s@, p as nat, Class::Dec, 10);
    }
    let mut body: Option<(u64, usize)> = None;
    if byte_at(s, p, '0' as u8) && (byte_at(s, p + 1, 'x' as u8) || byte_at(s, p + 1, 'X' as u8)) {
        body = number_from(s, p + 2, Class::Hex, 16);
    }
    if body.is_none() && byte_at(s, p, '0' as u8) {
        body = number_from(s, p + 1, Class::Oct, 8);
    }
    if body.is_none() {
        body = number_from(s, p, Class::Dec, 10);
    }
    match body {
        Some((v, e)) => Some((v, int_suffix_at(s, e))),
        None => None,
    }
}

// ---------------------------------------------------------------------------
// Escapes and strings
// ---------------------------------------------------------------------------

/// The byte that `\c` stands for in a character literal.
pub open spec fn char_escape(c: u8) -> Option<u8> {
    if c == 'a' as u8 {
        Some(7)
    } else if c == 'b' as u8 {
        Some(8)
    } else if c == 't' as u8 {
        Some(9)
    } else if c == 'n' as u8 {
        Some(10)
    } else if c == 'v' as u8 {
        Some(11)
    } else if c == 'f' as u8 {
        Some(12)
    } else if c == 'r' as u8 {
        Some(13)
    } else if c == '\\' as u8 {
        Some(92)
    } else if c == '\'' as u8 {
        Some(39)
    } else {
        None
    }
}

/// The byte that `\c` stands for in a string literal.
pub open spec fn string_escape(c: u8) -> Option<u8> {
    if c == '"' as u8 {
        Some(34)
    } else if c == '\'' as u8 {
        None
    } else {
        char_escape(c)
    }
}

/// A number that fits in a byte.
pub open spec fn small(r: Option<(u64, nat)>) -> Option<(u8, nat)> {
    match r {
        Some((v, e)) => if v < 256 {
            Some((v as u8, e))
        } else {
            None
        },
        None => None,
    }
}

/// A `\x` escape: hexadecimal digits that fit in a byte.
pub open spec fn hex_escape(s: Seq<u8>, p: nat) -> Option<(u8, nat)> {
    if at(s, p, '\\' as u8) && (at(s, p + 1, 'x' as u8) || at(s, p + 1, 'X' as u8)) {
        small(number_at(s, p + 2, Class::Hex, 16))
    } else {
        None
    }
}

/// A `\` escape with octal digits that fit in a byte.
pub open spec fn oct_escape(s: Seq<u8>, p: nat) -> Option<(u8, nat)> {
    if at(s, p, '\\' as u8) {
        small(number_at(s, p + 1, Class::Oct, 8))
    } else {
        None
    }
}

/// The body of a character literal: a named escape, a hexadecimal or an
/// octal escape, else any one byte.
pub open spec fn escaped_char(s: Seq<u8>, p: nat) -> Option<(u8, nat)> {
    if at(s, p, '\\' as u8) && p + 1 < s.len() && char_escape(s[(p + 1) as int]) is Some {
        Some((char_escape(s[(p + 1) as int]).unwrap(), p + 2))
    } else if hex_escape(s, p) is Some {
        hex_escape(s, p)
    } else if oct_escape(s, p) is Some {
        oct_escape(s, p)
    } else if p < s.len() {
        Some((s[p as int], p + 1))
    } else {
        None
    }
}

pub proof fn lemma_escaped_char(s: Seq<u8>, p: nat)
    ensures
        escaped_char(s, p) matches Some((_, q)) ==> p < q <= s.len(),
{
    lemma_number_at(s, p + 2, Class::Hex, 16);
    lemma_number_at(s, p + 1, Class::Oct, 8);
}

/// One piece of a string body: a run of plain bytes or one escape.
pub open spec fn string_piece(s: Seq<u8>, p: nat) -> Option<(Seq<u8>, nat)> {
    let e = span(s, p, Class::Plain);
    if e > p {
        Some((s.subrange(p as int, e as int), e))
    } else if at(s, p, '\\' as u8) && p + 1 < s.len() && string_escape(s[(p + 1) as int]) is Some {
        Some((seq![string_escape(s[(p + 1) as int]).unwrap()], p + 2))
    } else {
        match hex_escape(s, p) {
            Some((b, q)) => Some((seq![b], q)),
            None => match oct_escape(s, p) {
                Some((b, q)) => Some((seq![b], q)),
                None => None,
            },
        }
    }
}

pub proof fn lemma_string_piece(s: Seq<u8>, p: nat)
    ensures
        string_piece(s, p) matches Some((_, q)) ==> p < q <= s.len(),
{
    lemma_span(s, p, Class::Plain);
    lemma_number_at(s, p + 2, Class::Hex, 16);
    lemma_number_at(s, p + 1, Class::Oct, 8);
}

/// The bytes of a string body up to the first byte that no piece matches.
pub open spec fn string_bytes(s: Seq<u8>, p: nat) -> (Seq<u8>, nat)
    decreases s.len() - p,
    via string_bytes_decreases
{
    match string_piece(s, p) {
        Some((b, q)) => {
            let (rest, e) = string_bytes(s, q);
            (b + rest, e)
        },
        None => (seq![], p),
    }
}

#[via_fn]
proof fn string_bytes_decreases(s: Seq<u8>, p: nat) {
    lemma_string_piece(s, p);
}

pub proof fn lemma_string_bytes(s: Seq<u8>, p: nat)
    requires
        p <= s.len(),
    ensures
        p <= string_bytes(s, p).1 <= s.len(),
    decreases s.len() - p,
{
    lemma_string_piece(s, p);
    if let Some((b, q)) = string_piece(s, p) {
        lemma_string_bytes(s, q);
    }
}

/// A string body: its bytes decoded as UTF-8, where they are valid.
pub open spec fn escaped_string(s: Seq<u8>, p: nat) -> Option<(Seq<char>, nat)> {
    let (b, e) = string_bytes(s, p);
    if valid_utf8(b) {
        Some((decode_utf8(b), e))
    } else {
        None
    }
}

/// `String::from_utf8`: the text that the bytes encode, where they are
/// valid UTF-8.
#[verifier::external_body]
fn string_from_utf8(v: Vec<u8>) -> (r: Option<String>)
    ensures
        r is Some <==> valid_utf8(v@),
        r matches Some(t) ==> t@ == decode_utf8(v@),
{
    String::from_utf8(v).ok()
}

fn small_of(r: Option<(u64, usize)>) -> (o: Option<(u8, usize)>)
    ensures
        match o {
            Some((b, e)) => r matches Some((v, e2)) && v < 256 && b == v && e == e2,
            None => !(r matches Some((v, _)) && v < 256),
        },
{
    match r {
        Some((v, e)) => if v < 256 {
            Some((v as u8, e))
        } else {
            None
        },
        None => None,
    }
}

fn char_escape_of(c: u8) -> (r: Option<u8>)
    ensures
        r == char_escape(c),
{
    if c == 'a' as u8 {
        Some(7)
    } else if c == 'b' as u8 {
        Some(8)
    } else if c == 't' as u8 {
        Some(9)
    } else if c == 'n' as u8 {
        Some(10)
    } else if c == 'v' as u8 {
        Some(11)
    } else if c == 'f' as u8 {
        Some(12)
    } else if c == 'r' as u8 {
        Some(13)
    } else if c == '\\' as u8 {
        Some(92)
    } else if c == '\'' as u8 {
        Some(39)
    } else {
        None
    }
}

fn string_escape_of(c: u8) -> (r: Option<u8>)
    ensures
        r == string_escape(c),
{
    if c == '"' as u8 {
        Some(34)
    } else if c == '\'' as u8 {
        None
    } else {
        char_escape_of(c)
    }
}

fn hex_escape_at(s: &[u8], p: usize) -> (r: Option<(u8, usize)>)
    requires
        p <= s.len(),
    ensures
        match r {
            Some((b, q)) => hex_escape(s@, p as nat) == Some((b, q as nat)),
            None => hex_escape(s@, p as nat) is None,
        },
{
    if byte_at(s, p, '\\' as u8) && (byte_at(s, p + 1, 'x' as u8) || byte_at(s, p + 1, 'X' as u8)) {
        small_of(number_from(s, p + 2, Class::Hex, 16))
    } else {
        None
    }
}

fn oct_escape_at(s: &[u8], p: usize) -> (r: Option<(u8, usize)>)
    requires
        p <= s.len(),
    ensures
        match r {
            Some((b, q)) => oct_escape(s@, p as nat) == Some((b, q as nat)),
            None => oct_escape(s@, p as nat) is None,
        },
{
    if byte_at(s, p, '\\' as u8) {
        small_of(number_from(s, p + 1, Class::Oct, 8))
    } else {
        None
    }
}

/// Reads the body of a character literal.
pub fn escaped_char_at(s: &[u8], p: usize) -> (r: Option<(u8, usize)>)
    requires
        p <= s.len(),
    ensures
        match r {
            Some((b, q)) => escaped_char(s@, p as nat) == Some((b, q as nat)),
            None => escaped_char(s@, p as nat) is None,
        },
{
    if byte_at(s, p, '\\' as u8) && p + 1 < s.len() {
        if let Some(b) = char_escape_of(s[p + 1]) {
            return Some((b, p + 2));
        }
    }
    if let Some(r) = hex_escape_at(s, p) {
        return Some(r);
    }
    if let Some(r) = oct_escape_at(s, p) {
        return Some(r);
    }
    if p < s.len() {
        Some((s[p], p + 1))
    } else {
        None
    }
}

fn string_piece_at(s: &[u8], p: usize, out: &mut Vec<u8>) -> (r: Option<usize>)
    requires
        p <= s.len(),
    ensures
        match r {
            Some(q) => string_piece(s@, p as nat) matches Some((b, q2)) && q2 == q as nat
                && final(out)@ == old(out)@ + b,
            None => string_piece(s@, p as nat) is None && final(out)@ == old(out)@,
        },
{
    let e = skip(s, p, Class::Plain);
    proof {
        lemma_span(s@, p as nat, Class::Plain);
    }
    if e > p {
        let mut i = p;
        while i < e
            invariant
                p <= i <= e <= s.len(),
                out@ == old(out)@ + s@.subrange(p as int, i as int),
            decreases e - i,
        {
            out.push(s[i]);
            proof {
                assert(s@.subrange(p as int, i + 1) =~= s@.subrange(p as int, i as int).push(
                    s@[i as int],
                ));
            }
            i = i + 1;
        }
        return Some(e);
    }
    if byte_at(s, p, '\\' as u8) && p + 1 < s.len() {
        if let Some(b) = string_escape_of(s[p + 1]) {
            out.push(b);
            return Some(p + 2);
        }
    }
    if let Some((b, q)) = hex_escape_at(s, p) {
        out.push(b);
        return Some(q);
    }
    if let Some((b, q)) = oct_escape_at(s, p) {
        out.push(b);
        return Some(q);
    }
    None
}

/// Reads a string body (up to the first byte that is neither plain nor a
/// known escape) and decodes it as UTF-8.
pub fn escaped_string_at(s: &[u8], p: usize) -> (r: Option<(String, usize)>)
    requires
        p <= s.len(),
    ensures
        match r {
            Some((t, q)) => escaped_string(s@, p as nat) == Some((t@, q as nat)),
            None => escaped_string(s@, p as nat) is None,
        },
        r matches Some((_, q)) ==> p <= q <= s.len(),
{
    let mut out: Vec<u8> = Vec::new();
    let mut i = p;
    loop
        invariant
            p <= i <= s.len(),
            string_bytes(s@, p as nat) == (out@ + string_bytes(s@, i as nat).0, string_bytes(
                s@,
                i as nat,
            ).1),
        decreases s.len() - i,
    {
        proof {
            lemma_string_piece(s@, i as nat);
        }
        let ghost before = out@;
        match string_piece_at(s, i, &mut out) {
            Some(q) => {
                proof {
                    let (b, _) = string_piece(s@, i as nat).unwrap();
                    let rest = string_bytes(s@, q as nat);
                    assert(before + (b + rest.0) =~= out@ + rest.0);
                }
                i = q;
            },
            None => {
                proof {
                    assert(string_bytes(s@, i as nat) == (Seq::<u8>::empty(), i as nat));
                    assert(out@ + Seq::<u8>::empty() =~= out@);
                }
                return match string_from_utf8(out) {
                    Some(t) => Some((t, i)),
                    None => None,
                };
            },
        }
    }
}

// ---------------------------------------------------------------------------
// Labels, references and names
// ---------------------------------------------------------------------------

/// Bytes read as characters, one for one.
pub open spec fn ascii_text(b: Seq<u8>) -> Seq<char> {
    b.map_values(|c: u8| c as char)
}

/// The characters of `s[a..b]`.
pub fn ascii_string(s: &[u8], a: usize, b: usize) -> (r: String)
    requires
        a <= b <= s.len(),
    ensures
        r@ == ascii_text(s@.subrange(a as int, b as int)),
{
    let mut v: Vec<char> = Vec::new();
    let mut i = a;
    while i < b
        invariant
            a <= i <= b <= s.len(),
            v@ == ascii_text(s@.subrange(a as int, i as int)),
        decreases b - i,
    {
        v.push(s[i] as char);
        proof {
            assert(ascii_text(s@.subrange(a as int, i + 1)) =~= ascii_text(
                s@.subrange(a as int, i as int),
            ).push(s@[i as int] as char));
        }
        i = i + 1;
    }
    crate::text::string_from_chars(v.as_slice())
}

/// A label: a letter or `_`, then letters, digits and `_`.
pub open spec fn label(s: Seq<u8>, p: nat) -> Option<(Seq<char>, nat)> {
    if p < s.len() && (is_alpha(s[p as int]) || s[p as int] == '_' as u8) {
        let e = span(s, p, Class::Label);
        Some((ascii_text(s.subrange(p as int, e as int)), e))
    } else {
        None
    }
}

/// The labels `name:` that stand one right after the other at `p`.
pub open spec fn labels(s: Seq<u8>, p: nat) -> (Seq<Seq<char>>, nat)
    decreases s.len() - p,
    via labels_decreases
{
    match label(s, p) {
        Some((l, e)) => if at(s, e, ':' as u8) {
            let (rest, q) = labels(s, e + 1);
            (seq![l] + rest, q)
        } else {
            (seq![], p)
        },
        None => (seq![], p),
    }
}

pub proof fn lemma_label(s: Seq<u8>, p: nat)
    ensures
        label(s, p) matches Some((_, e)) ==> p < e <= s.len(),
{
    lemma_span(s, p, Class::Label);
}

#[via_fn]
proof fn labels_decreases(s: Seq<u8>, p: nat) {
    lemma_label(s, p);
}

pub proof fn lemma_labels(s: Seq<u8>, p: nat)
    requires
        p <= s.len(),
    ensures
        p <= labels(s, p).1 <= s.len(),
    decreases s.len() - p,
{
    lemma_label(s, p);
    if let Some((l, e)) = label(s, p) {
        if at(s, e, ':' as u8) {
            lemma_labels(s, e + 1);
        }
    }
}

/// Reads a label.
pub fn label_at(s: &[u8], p: usize) -> (r: Option<(String, usize)>)
    requires
        p <= s.len(),
    ensures
        match r {
            Some((t, q)) => label(s@, p as nat) == Some((t@, q as nat)),
            None => label(s@, p as nat) is None,
        },
{
    if p < s.len() && (is_label_char(s[p]) && !(('0' as u8) <= s[p] && s[p] <= ('9' as u8))) {
        let e = skip(s, p, Class::Label);
        proof {
            lemma_span(s@, p as nat, Class::Label);
        }
        Some((ascii_string(s, p, e), e))
    } else {
        None
    }
}

/// Reads the labels `name:` that stand one right after the other.
pub fn labels_at(s: &[u8], p: usize) -> (r: (Vec<String>, usize))
    requires
        p <= s.len(),
    ensures
        labels(s@, p as nat) == (crate::text::strings_view(r.0@), r.1 as nat),
        p <= r.1 <= s.len(),
{
    let mut out: Vec<String> = Vec::new();
    let mut i = p;
    proof {
        lemma_labels(s@, p as nat);
    }
    loop
        invariant
            p <= i <= s.len(),
            labels(s@, p as nat) == (crate::text::strings_view(out@) + labels(s@, i as nat).0, labels(
                s@,
                i as nat,
            ).1),
        decreases s.len() - i,
    {
        proof {
            lemma_label(s@, i as nat);
            lemma_labels(s@, i as nat);
        }
        match label_at(s, i) {
            Some((l, e)) => {
                if byte_at(s, e, ':' as u8) {
                    let ghost before = crate::text::strings_view(out@);
                    let ghost lv = l@;
                    out.push(l);
                    proof {
                        let rest = labels(s@, (e + 1) as nat);
                        assert(crate::text::strings_view(out@) =~= before.push(lv));
                        assert(before + (seq![lv] + rest.0) =~= before.push(lv) + rest.0);
                    }
                    i = e + 1;
                } else {
                    proof {
                        assert(crate::text::strings_view(out@) + Seq::<Seq<char>>::empty()
                            =~= crate::text::strings_view(out@));
                    }
                    return (out, i);
                }
            },
            None => {
                proof {
                    assert(crate::text::strings_view(out@) + Seq::<Seq<char>>::empty()
                        =~= crate::text::strings_view(out@));
                }
                return (out, i);
            },
        }
    }
}

/// A reference: `&{path}` or `&label`.
pub open spec fn reference(s: Seq<u8>, p: nat) -> Option<(Seq<char>, nat)> {
    if at(s, p, '&' as u8) {
        let e = span(s, p + 2, Class::Path);
        if at(s, p + 1, '{' as u8) && e > p + 2 && at(s, e, '}' as u8) {
            Some((ascii_text(s.subrange((p + 2) as int, e as int)), e + 1))
        } else {
            let f = span(s, p + 1, Class::Label);
            if f > p + 1 {
                Some((ascii_text(s.subrange((p + 1) as int, f as int)), f))
            } else {
                None
            }
        }
    } else {
        None
    }
}

pub proof fn lemma_reference(s: Seq<u8>, p: nat)
    ensures
        reference(s, p) matches Some((_, e)) ==> p < e <= s.len(),
{
    lemma_span(s, p + 2, Class::Path);
    lemma_span(s, p + 1, Class::Label);
}

/// Reads a reference.
pub fn reference_at(s: &[u8], p: usize) -> (r: Option<(String, usize)>)
    requires
        p <= s.len(),
    ensures
        match r {
            Some((t, q)) => reference(s@, p as nat) == Some((t@, q as nat)),
            None => reference(s@, p as nat) is None,
        },
{
    if !byte_at(s, p, '&' as u8) {
        return None;
    }
    if byte_at(s, p + 1, '{' as u8) {
        let e = skip(s, p + 2, Class::Path);
        proof {
            lemma_span(s@, (p + 2) as nat, Class::Path);
        }
        if e > p + 2 && byte_at(s, e, '}' as u8) {
            return Some((ascii_string(s, p + 2, e), e + 1));
        }
    }
    let f = skip(s, p + 1, Class::Label);
    proof {
        lemma_span(s@, (p + 1) as nat, Class::Label);
    }
    if f > p + 1 {
        Some((ascii_string(s, p + 1, f), f))
    } else {
        None
    }
}

/// A property or node name: a run of name bytes.
pub open spec fn prop_name(s: Seq<u8>, p: nat) -> Option<(Seq<char>, nat)> {
    let e = span(s, p, Class::PropNode);
    if e > p {
        Some((ascii_text(s.subrange(p as int, e as int)), e))
    } else {
        None
    }
}

/// A node name: a run of name bytes, else `/`.
pub open spec fn node_name(s: Seq<u8>, p: nat) -> Option<(Seq<char>, nat)> {
    if prop_name(s, p) is Some {
        prop_name(s, p)
    } else if at(s, p, '/' as u8) {
        Some((seq!['/'], p + 1))
    } else {
        None
    }
}

pub proof fn lemma_node_name(s: Seq<u8>, p: nat)
    ensures
        prop_name(s, p) matches Some((_, e)) ==> p < e && (p <= s.len() ==> e <= s.len()),
        node_name(s, p) matches Some((_, e)) ==> p < e && (p <= s.len() ==> e <= s.len()),
{
    lemma_span(s, p, Class::PropNode);
}

/// Reads a property or node name.
pub fn prop_name_at(s: &[u8], p: usize) -> (r: Option<(String, usize)>)
    requires
        p <= s.len(),
    ensures
        match r {
            Some((t, q)) => prop_name(s@, p as nat) == Some((t@, q as nat)),
            None => prop_name(s@, p as nat) is None,
        },
{
    let e = skip(s, p, Class::PropNode);
    proof {
        lemma_span(s@, p as nat, Class::PropNode);
    }
    if e > p {
        Some((ascii_string(s, p, e), e))
    } else {
        None
    }
}

/// Reads a node name.
pub fn node_name_at(s: &[u8], p: usize) -> (r: Option<(String, usize)>)
    requires
        p <= s.len(),
    ensures
        match r {
            Some((t, q)) => node_name(s@, p as nat) == Some((t@, q as nat)),
            None => node_name(s@, p as nat) is None,
        },
{
    if let Some(r) = prop_name_at(s, p) {
        return Some(r);
    }
    if byte_at(s, p, '/' as u8) {
        let slash: [char; 1] = ['/'];
        let t = crate::text::string_from_chars(&slash);
        proof {
            assert(t@ =~= seq!['/']);
        }
        Some((t, p + 1))
    } else {
        None
    }
}

} // verus!
