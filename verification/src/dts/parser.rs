//! The device tree source grammar.
//!
//! Each production is a spec function over the input bytes and a position,
//! giving the value read and the position after it (`None` where the input
//! does not match), and an exec function that reads it and is proved to give
//! exactly that. Offsets recorded in properties and nodes are counted from
//! the start of a source of `ilen` bytes of which the input is the tail.

use crate::dts::completion::{completed, completion, n_completions};
use crate::dts::expr::{c_expr, lemma_c_expr, parse_c_expr};
use crate::dts::lexer::{
    at, byte_at, eat_junk, eat_junk_at, escaped_char, escaped_char_at, escaped_string,
    escaped_string_at, lemma_escaped_char, find_tag, find_tag_from, has_tag, is_hex, digit_value, label, labels,
    labels_at, lemma_eat_junk, lemma_find_tag, lemma_labels, lemma_node_name, lemma_reference,
    lemma_span, lemma_string_bytes, node_name, node_name_at, prop_name, prop_name_at, reference,
    reference_at, skip, span, tag_at, Class, digits_u64, from_str_dec,
};
use crate::dts::tree::{
    cells_view, children_insert, children_view, datas_view, entries_insert, keys_unique,
    lemma_find_key, nodes_view,
    prop_entries, prop_map_insert, prop_map_new, reserves_view, Cell, CellV, DTInfo, DTInfoV,
    Data, DataV, Node, NodeName, NodeNameV, NodeV, Property, PropertyV, ReserveInfo, ReserveV,
};
use crate::dts::ParseError;
use crate::text::strings_view;
use vstd::prelude::*;

verus! {

/// The bytes of `/bits/`.
pub open spec fn tag_bits() -> Seq<u8> {
    seq!['/' as u8, 'b' as u8, 'i' as u8, 't' as u8, 's' as u8, '/' as u8]
}

fn at_tag_bits(s: &[u8], p: usize) -> (r: bool)
    ensures
        r == has_tag(s@, p as nat, tag_bits()),
{
    let t: [u8; 6] = ['/' as u8, 'b' as u8, 'i' as u8, 't' as u8, 's' as u8, '/' as u8];
    tag_at(s, p, &t)
}

/// The bytes of `/delete-node/`.
pub open spec fn tag_delete_node() -> Seq<u8> {
    seq!['/' as u8, 'd' as u8, 'e' as u8, 'l' as u8, 'e' as u8, 't' as u8, 'e' as u8, '-' as u8, 'n' as u8, 'o' as u8, 'd' as u8, 'e' as u8, '/' as u8]
}

fn at_tag_delete_node(s: &[u8], p: usize) -> (r: bool)
    ensures
        r == has_tag(s@, p as nat, tag_delete_node()),
{
    let t: [u8; 13] = ['/' as u8, 'd' as u8, 'e' as u8, 'l' as u8, 'e' as u8, 't' as u8, 'e' as u8, '-' as u8, 'n' as u8, 'o' as u8, 'd' as u8, 'e' as u8, '/' as u8];
    tag_at(s, p, &t)
}

/// The bytes of `/delete-property/`.
pub open spec fn tag_delete_property() -> Seq<u8> {
    seq!['/' as u8, 'd' as u8, 'e' as u8, 'l' as u8, 'e' as u8, 't' as u8, 'e' as u8, '-' as u8, 'p' as u8, 'r' as u8, 'o' as u8, 'p' as u8, 'e' as u8, 'r' as u8, 't' as u8, 'y' as u8, '/' as u8]
}

fn at_tag_delete_property(s: &[u8], p: usize) -> (r: bool)
    ensures
        r == has_tag(s@, p as nat, tag_delete_property()),
{
    let t: [u8; 17] = ['/' as u8, 'd' as u8, 'e' as u8, 'l' as u8, 'e' as u8, 't' as u8, 'e' as u8, '-' as u8, 'p' as u8, 'r' as u8, 'o' as u8, 'p' as u8, 'e' as u8, 'r' as u8, 't' as u8, 'y' as u8, '/' as u8];
    tag_at(s, p, &t)
}

/// The bytes of `/memreserve/`.
pub open spec fn tag_memreserve() -> Seq<u8> {
    seq!['/' as u8, 'm' as u8, 'e' as u8, 'm' as u8, 'r' as u8, 'e' as u8, 's' as u8, 'e' as u8, 'r' as u8, 'v' as u8, 'e' as u8, '/' as u8]
}

fn at_tag_memreserve(s: &[u8], p: usize) -> (r: bool)
    ensures
        r == has_tag(s@, p as nat, tag_memreserve()),
{
    let t: [u8; 12] = ['/' as u8, 'm' as u8, 'e' as u8, 'm' as u8, 'r' as u8, 'e' as u8, 's' as u8, 'e' as u8, 'r' as u8, 'v' as u8, 'e' as u8, '/' as u8];
    tag_at(s, p, &t)
}

/// The bytes of `/dts-v1/;`.
pub open spec fn tag_dts_v1() -> Seq<u8> {
    seq!['/' as u8, 'd' as u8, 't' as u8, 's' as u8, '-' as u8, 'v' as u8, '1' as u8, '/' as u8, ';' as u8]
}

fn at_tag_dts_v1(s: &[u8], p: usize) -> (r: bool)
    ensures
        r == has_tag(s@, p as nat, tag_dts_v1()),
{
    let t: [u8; 9] = ['/' as u8, 'd' as u8, 't' as u8, 's' as u8, '-' as u8, 'v' as u8, '1' as u8, '/' as u8, ';' as u8];
    tag_at(s, p, &t)
}

// ---------------------------------------------------------------------------
// Cells
// ---------------------------------------------------------------------------

/// The largest value of a cell of `bits` bits (for 8, 16 and 32).
pub open spec fn bits_mask(bits: u64) -> u64 {
    if bits == 8 {
        0xff
    } else if bits == 16 {
        0xffff
    } else {
        0xffff_ffff
    }
}

/// A number fits a cell of `bits` bits: it is at most the cell's largest
/// value, or all its bits above the cell's are set (a negative value).
pub open spec fn fits_bits(num: u64, bits: u64) -> bool {
    bits == 64 || !(num > bits_mask(bits) && (num | bits_mask(bits)) != u64::MAX)
}

/// A character literal `'c'` at `p`, as a number.
pub open spec fn char_literal(s: Seq<u8>, p: nat) -> Option<(u64, nat)> {
    if at(s, p, '\'' as u8) {
        match escaped_char(s, p + 1) {
            Some((c, e)) => if at(s, e, '\'' as u8) {
                Some((c as u64, e + 1))
            } else {
                None
            },
            None => None,
        }
    } else {
        None
    }
}

/// One cell of a `bits`-bit list after junk: a character literal or an
/// expression whose value fits, else (in 32-bit lists only) a reference.
pub open spec fn cell(s: Seq<u8>, p0: nat, bits: u64) -> Option<(CellV, nat)> {
    let p = eat_junk(s, p0);
    let num = if char_literal(s, p) is Some {
        char_literal(s, p)
    } else {
        c_expr(s, p)
    };
    match num {
        Some((v, q)) if fits_bits(v, bits) => Some((CellV::Num(v), q)),
        _ => if bits == 32 {
            match reference(s, p) {
                Some((r, q)) => Some((CellV::Ref(r, None), q)),
                None => None,
            }
        } else {
            None
        },
    }
}

pub proof fn lemma_cell(s: Seq<u8>, p: nat, bits: u64)
    ensures
        cell(s, p, bits) matches Some((_, q)) ==> p < q <= s.len(),
{
    let p1 = eat_junk(s, p);
    lemma_eat_junk(s, p);
    lemma_reference(s, p1);
    lemma_c_expr(s, p1);
    lemma_escaped_char(s, p1 + 1);
}

/// The cells of a `bits`-bit list, up to the first that does not parse.
pub open spec fn cells(s: Seq<u8>, p: nat, bits: u64) -> (Seq<CellV>, nat)
    decreases s.len() - p,
    via cells_decreases
{
    match cell(s, p, bits) {
        Some((c, q)) => {
            let (rest, e) = cells(s, q, bits);
            (seq![c] + rest, e)
        },
        None => (seq![], p),
    }
}

#[via_fn]
proof fn cells_decreases(s: Seq<u8>, p: nat, bits: u64) {
    lemma_cell(s, p, bits);
}

pub proof fn lemma_cells(s: Seq<u8>, p: nat, bits: u64)
    ensures
        p <= cells(s, p, bits).1,
        p <= s.len() ==> cells(s, p, bits).1 <= s.len(),
    decreases s.len() - p,
{
    lemma_cell(s, p, bits);
    if let Some((c, q)) = cell(s, p, bits) {
        lemma_cells(s, q, bits);
    }
}

/// The number between `/bits/` and `<` (at `a` and `l`): decimal digits,
/// with blanks around them.
pub open spec fn bits_value(s: Seq<u8>, a: nat, l: nat) -> Option<u64> {
    let d = span(s, a, Class::Multispace);
    let e = span(s, d, Class::Dec);
    if e > d && span(s, e, Class::Multispace) == l {
        digits_u64(s, d, e, 10)
    } else {
        None
    }
}

pub open spec fn tag_open_cells() -> Seq<u8> {
    seq!['<' as u8]
}

/// The width of the cells of a list: `/bits/ n` where it is given (with
/// the position of the `<`), else 32 (and the position is unchanged).
pub open spec fn cell_bits(s: Seq<u8>, p: nat) -> (u64, nat) {
    let p1 = eat_junk(s, p);
    if has_tag(s, p1, tag_bits()) {
        match find_tag(s, p1 + 6, tag_open_cells()) {
            Some(l) => match bits_value(s, p1 + 6, l) {
                Some(b) => (b, l),
                None => (32, p),
            },
            None => (32, p),
        }
    } else {
        (32, p)
    }
}

/// A cell list: an optional width of 8, 16, 32 or 64 bits, then
/// `< cells >`.
pub open spec fn data_cells(s: Seq<u8>, p: nat) -> Option<(DataV, nat)> {
    let (bits, p2) = cell_bits(s, p);
    if bits == 8 || bits == 16 || bits == 32 || bits == 64 {
        let p3 = eat_junk(s, p2);
        if at(s, p3, '<' as u8) {
            let (cs, p4) = cells(s, p3 + 1, bits);
            let p5 = eat_junk(s, p4);
            if at(s, p5, '>' as u8) {
                Some((DataV::Cells(bits as usize, cs), p5 + 1))
            } else {
                None
            }
        } else {
            None
        }
    } else {
        None
    }
}

/// Two bytes read as a hexadecimal byte (a `+` sign may stand first).
pub open spec fn pair_value(c1: u8, c2: u8) -> Option<u8> {
    if is_hex(c1) && is_hex(c2) {
        Some((digit_value(c1) * 16 + digit_value(c2)) as u8)
    } else if c1 == '+' as u8 && is_hex(c2) {
        Some(digit_value(c2) as u8)
    } else {
        None
    }
}

/// One byte of a byte string after junk: the next two bytes.
pub open spec fn byte_pair(s: Seq<u8>, p: nat) -> Option<(u8, nat)> {
    let p1 = eat_junk(s, p);
    if p1 + 2 <= s.len() {
        match pair_value(s[p1 as int], s[(p1 + 1) as int]) {
            Some(b) => Some((b, p1 + 2)),
            None => None,
        }
    } else {
        None
    }
}

/// The bytes of a byte string, up to the first pair that does not parse.
pub open spec fn byte_pairs(s: Seq<u8>, p: nat) -> (Seq<u8>, nat)
    decreases s.len() - p,
    via byte_pairs_decreases
{
    match byte_pair(s, p) {
        Some((b, q)) => {
            let (rest, e) = byte_pairs(s, q);
            (seq![b] + rest, e)
        },
        None => (seq![], p),
    }
}

pub proof fn lemma_byte_pair(s: Seq<u8>, p: nat)
    ensures
        byte_pair(s, p) matches Some((_, q)) ==> p < q <= s.len(),
{
    lemma_eat_junk(s, p);
}

#[via_fn]
proof fn byte_pairs_decreases(s: Seq<u8>, p: nat) {
    lemma_byte_pair(s, p);
}

pub proof fn lemma_byte_pairs(s: Seq<u8>, p: nat)
    ensures
        p <= byte_pairs(s, p).1,
        p <= s.len() ==> byte_pairs(s, p).1 <= s.len(),
    decreases s.len() - p,
{
    lemma_byte_pair(s, p);
    if let Some((b, q)) = byte_pair(s, p) {
        lemma_byte_pairs(s, q);
    }
}

/// A byte string `[ab cd ...]` with at least one byte.
pub open spec fn byte_array(s: Seq<u8>, p: nat) -> Option<(DataV, nat)> {
    if at(s, p, '[' as u8) {
        let (bs, e) = byte_pairs(s, p + 1);
        if bs.len() > 0 && at(s, e, ']' as u8) {
            Some((DataV::Bytes(bs), e + 1))
        } else {
            None
        }
    } else {
        None
    }
}

/// A quoted string.
pub open spec fn string_data(s: Seq<u8>, p: nat) -> Option<(DataV, nat)> {
    if at(s, p, '"' as u8) {
        match escaped_string(s, p + 1) {
            Some((t, e)) => if at(s, e, '"' as u8) {
                Some((DataV::Str(t), e + 1))
            } else {
                None
            },
            None => None,
        }
    } else {
        None
    }
}

/// One piece of a property value after junk: a string, a cell list, a byte
/// string or a reference, tried in that order.
pub open spec fn data(s: Seq<u8>, p0: nat) -> Option<(DataV, nat)> {
    let p = eat_junk(s, p0);
    if string_data(s, p) is Some {
        string_data(s, p)
    } else if data_cells(s, p) is Some {
        data_cells(s, p)
    } else if byte_array(s, p) is Some {
        byte_array(s, p)
    } else {
        match reference(s, p) {
            Some((r, q)) => Some((DataV::Reference(r, None), q)),
            None => None,
        }
    }
}

pub proof fn lemma_data(s: Seq<u8>, p0: nat)
    ensures
        data(s, p0) matches Some((_, q)) ==> p0 < q <= s.len(),
{
    let p = eat_junk(s, p0);
    lemma_eat_junk(s, p0);
    lemma_reference(s, p);
    if at(s, p, '"' as u8) {
        lemma_string_bytes(s, p + 1);
    }
    if at(s, p, '[' as u8) {
        lemma_byte_pairs(s, p + 1);
    }
    let p1 = eat_junk(s, p);
    lemma_eat_junk(s, p);
    lemma_find_tag(s, p1 + 6, tag_open_cells());
    let (bits, p2) = cell_bits(s, p);
    lemma_eat_junk(s, p2);
    let p3 = eat_junk(s, p2);
    lemma_cells(s, p3 + 1, bits);
    lemma_eat_junk(s, cells(s, p3 + 1, bits).1);
}

/// The pieces that follow the first one, each after a comma; a comma that
/// no piece follows is left unread.
pub open spec fn data_more(s: Seq<u8>, i: nat) -> (Seq<DataV>, nat)
    decreases s.len() - i,
    via data_more_decreases
{
    let j = eat_junk(s, i);
    if at(s, j, ',' as u8) {
        match data(s, j + 1) {
            Some((d, q)) => {
                let (rest, e) = data_more(s, q);
                (seq![d] + rest, e)
            },
            None => (seq![], i),
        }
    } else {
        (seq![], i)
    }
}

#[via_fn]
proof fn data_more_decreases(s: Seq<u8>, i: nat) {
    lemma_eat_junk(s, i);
    lemma_data(s, eat_junk(s, i) + 1);
}

pub proof fn lemma_data_more(s: Seq<u8>, i: nat)
    ensures
        i <= data_more(s, i).1,
        i <= s.len() ==> data_more(s, i).1 <= s.len(),
    decreases s.len() - i,
{
    let j = eat_junk(s, i);
    lemma_eat_junk(s, i);
    lemma_data(s, j + 1);
    if at(s, j, ',' as u8) {
        if let Some((d, q)) = data(s, j + 1) {
            lemma_data_more(s, q);
        }
    }
}

/// A property value: one or more pieces separated by commas.
pub open spec fn data_list(s: Seq<u8>, p: nat) -> Option<(Seq<DataV>, nat)> {
    match data(s, p) {
        Some((d, q)) => {
            let (rest, e) = data_more(s, q);
            Some((seq![d] + rest, e))
        },
        None => None,
    }
}

// ---------------------------------------------------------------------------
// Reading cells and data
// ---------------------------------------------------------------------------

fn fits(num: u64, bits: u64) -> (r: bool)
    ensures
        r == fits_bits(num, bits),
{
    if bits == 64 {
        return true;
    }
    let mask: u64 = if bits == 8 {
        0xff
    } else if bits == 16 {
        0xffff
    } else {
        0xffff_ffff
    };
    !(num > mask && (num | mask) != u64::MAX)
}

fn char_literal_at(s: &[u8], p: usize) -> (r: Option<(u64, usize)>)
    requires
        p <= s.len(),
    ensures
        match r {
            Some((v, q)) => char_literal(s@, p as nat) == Some((v, q as nat)),
            None => char_literal(s@, p as nat) is None,
        },
{
    if !byte_at(s, p, '\'' as u8) {
        return None;
    }
    match escaped_char_at(s, p + 1) {
        Some((c, e)) => if byte_at(s, e, '\'' as u8) {
            Some((c as u64, e + 1))
        } else {
            None
        },
        None => None,
    }
}

/// Reads one cell of a `bits`-bit list.
pub fn cell_at(s: &[u8], p0: usize, bits: u64) -> (r: Option<(Cell, usize)>)
    requires
        p0 <= s.len(),
    ensures
        match r {
            Some((c, q)) => cell(s@, p0 as nat, bits) == Some((c@, q as nat)),
            None => cell(s@, p0 as nat, bits) is None,
        },
{
    let p = eat_junk_at(s, p0);
    let num = match char_literal_at(s, p) {
        Some(x) => Some(x),
        None => parse_c_expr(s, p),
    };
    if let Some((v, q)) = num {
        if fits(v, bits) {
            return Some((Cell::Num(v), q));
        }
    }
    if bits == 32 {
        match reference_at(s, p) {
            Some((r, q)) => Some((Cell::Ref(r, None), q)),
            None => None,
        }
    } else {
        None
    }
}

/// Reads the cells of a `bits`-bit list.
pub fn cells_at(s: &[u8], p: usize, bits: u64) -> (r: (Vec<Cell>, usize))
    requires
        p <= s.len(),
    ensures
        cells(s@, p as nat, bits) == (cells_view(r.0@), r.1 as nat),
        p <= r.1 <= s.len(),
{
    let mut out: Vec<Cell> = Vec::new();
    let mut i = p;
    proof {
        lemma_cells(s@, p as nat, bits);
    }
    loop
        invariant
            p <= i <= s.len(),
            cells(s@, p as nat, bits) == (cells_view(out@) + cells(s@, i as nat, bits).0, cells(
                s@,
                i as nat,
                bits,
            ).1),
        decreases s.len() - i,
    {
        proof {
            lemma_cell(s@, i as nat, bits);
        }
        match cell_at(s, i, bits) {
            Some((c, q)) => {
                let ghost before = cells_view(out@);
                let ghost cv = c@;
                out.push(c);
                proof {
                    let rest = cells(s@, q as nat, bits);
                    assert(cells_view(out@) =~= before.push(cv));
                    assert(before + (seq![cv] + rest.0) =~= before.push(cv) + rest.0);
                }
                i = q;
            },
            None => {
                proof {
                    assert(cells_view(out@) + Seq::<CellV>::empty() =~= cells_view(out@));
                }
                return (out, i);
            },
        }
    }
}

fn bits_value_at(s: &[u8], a: usize, l: usize) -> (r: Option<u64>)
    requires
        a <= s.len(),
    ensures
        r == bits_value(s@, a as nat, l as nat),
{
    let d = skip(s, a, Class::Multispace);
    proof {
        lemma_span(s@, a as nat, Class::Multispace);
    }
    let e = skip(s, d, Class::Dec);
    proof {
        lemma_span(s@, d as nat, Class::Dec);
    }
    if e > d && skip(s, e, Class::Multispace) == l {
        from_str_dec(s, d, e)
    } else {
        None
    }
}

fn cell_bits_at(s: &[u8], p: usize) -> (r: (u64, usize))
    requires
        p <= s.len(),
    ensures
        cell_bits(s@, p as nat) == (r.0, r.1 as nat),
        r.1 <= s.len(),
{
    let p1 = eat_junk_at(s, p);
    let open: [u8; 1] = ['<' as u8];
    if at_tag_bits(s, p1) {
        proof {
            lemma_find_tag(s@, (p1 + 6) as nat, tag_open_cells());
            assert(open@ =~= tag_open_cells());
        }
        match find_tag_from(s, p1 + 6, &open) {
            Some(l) => match bits_value_at(s, p1 + 6, l) {
                Some(b) => (b, l),
                None => (32, p),
            },
            None => (32, p),
        }
    } else {
        (32, p)
    }
}

fn data_cells_at(s: &[u8], p: usize) -> (r: Option<(Data, usize)>)
    requires
        p <= s.len(),
    ensures
        match r {
            Some((d, q)) => data_cells(s@, p as nat) == Some((d@, q as nat)),
            None => data_cells(s@, p as nat) is None,
        },
{
    let (bits, p2) = cell_bits_at(s, p);
    if bits == 8 || bits == 16 || bits == 32 || bits == 64 {
        let p3 = eat_junk_at(s, p2);
        if byte_at(s, p3, '<' as u8) {
            let (cs, p4) = cells_at(s, p3 + 1, bits);
            let p5 = eat_junk_at(s, p4);
            if byte_at(s, p5, '>' as u8) {
                return Some((Data::Cells(bits as usize, cs), p5 + 1));
            }
        }
    }
    None
}

fn pair_value_of(c1: u8, c2: u8) -> (r: Option<u8>)
    ensures
        r == pair_value(c1, c2),
{
    let h1 = (('0' as u8) <= c1 && c1 <= ('9' as u8)) || (('a' as u8) <= c1 && c1 <= ('f' as u8)) || ((
    'A' as u8) <= c1 && c1 <= ('F' as u8));
    let h2 = (('0' as u8) <= c2 && c2 <= ('9' as u8)) || (('a' as u8) <= c2 && c2 <= ('f' as u8)) || ((
    'A' as u8) <= c2 && c2 <= ('F' as u8));
    if h1 && h2 {
        let v1 = crate::dts::lexer::digit_of(c1);
        let v2 = crate::dts::lexer::digit_of(c2);
        Some((v1 * 16 + v2) as u8)
    } else if c1 == '+' as u8 && h2 {
        Some(crate::dts::lexer::digit_of(c2) as u8)
    } else {
        None
    }
}

fn byte_pair_at(s: &[u8], p: usize) -> (r: Option<(u8, usize)>)
    requires
        p <= s.len(),
    ensures
        match r {
            Some((b, q)) => byte_pair(s@, p as nat) == Some((b, q as nat)),
            None => byte_pair(s@, p as nat) is None,
        },
{
    let p1 = eat_junk_at(s, p);
    if p1 < s.len() && s.len() - p1 >= 2 {
        match pair_value_of(s[p1], s[p1 + 1]) {
            Some(b) => Some((b, p1 + 2)),
            None => None,
        }
    } else {
        None
    }
}

fn byte_pairs_at(s: &[u8], p: usize) -> (r: (Vec<u8>, usize))
    requires
        p <= s.len(),
    ensures
        byte_pairs(s@, p as nat) == (r.0@, r.1 as nat),
        p <= r.1 <= s.len(),
{
    let mut out: Vec<u8> = Vec::new();
    let mut i = p;
    proof {
        lemma_byte_pairs(s@, p as nat);
    }
    loop
        invariant
            p <= i <= s.len(),
            byte_pairs(s@, p as nat) == (out@ + byte_pairs(s@, i as nat).0, byte_pairs(
                s@,
                i as nat,
            ).1),
        decreases s.len() - i,
    {
        proof {
            lemma_byte_pair(s@, i as nat);
        }
        match byte_pair_at(s, i) {
            Some((b, q)) => {
                let ghost before = out@;
                out.push(b);
                proof {
                    let rest = byte_pairs(s@, q as nat);
                    assert(before + (seq![b] + rest.0) =~= out@ + rest.0);
                }
                i = q;
            },
            None => {
                proof {
                    assert(out@ + Seq::<u8>::empty() =~= out@);
                }
                return (out, i);
            },
        }
    }
}

fn byte_array_at(s: &[u8], p: usize) -> (r: Option<(Data, usize)>)
    requires
        p <= s.len(),
    ensures
        match r {
            Some((d, q)) => byte_array(s@, p as nat) == Some((d@, q as nat)),
            None => byte_array(s@, p as nat) is None,
        },
{
    if !byte_at(s, p, '[' as u8) {
        return None;
    }
    let (bs, e) = byte_pairs_at(s, p + 1);
    if bs.len() > 0 && byte_at(s, e, ']' as u8) {
        Some((Data::ByteArray(bs), e + 1))
    } else {
        None
    }
}

fn string_data_at(s: &[u8], p: usize) -> (r: Option<(Data, usize)>)
    requires
        p <= s.len(),
    ensures
        match r {
            Some((d, q)) => string_data(s@, p as nat) == Some((d@, q as nat)),
            None => string_data(s@, p as nat) is None,
        },
{
    if !byte_at(s, p, '"' as u8) {
        return None;
    }
    match escaped_string_at(s, p + 1) {
        Some((t, e)) => if byte_at(s, e, '"' as u8) {
            Some((Data::String(t), e + 1))
        } else {
            None
        },
        None => None,
    }
}

/// Reads one piece of a property value.
pub fn data_at(s: &[u8], p0: usize) -> (r: Option<(Data, usize)>)
    requires
        p0 <= s.len(),
    ensures
        match r {
            Some((d, q)) => data(s@, p0 as nat) == Some((d@, q as nat)),
            None => data(s@, p0 as nat) is None,
        },
        r matches Some((_, q)) ==> p0 < q <= s.len(),
{
    proof {
        lemma_data(s@, p0 as nat);
    }
    let p = eat_junk_at(s, p0);
    if let Some(r) = string_data_at(s, p) {
        return Some(r);
    }
    if let Some(r) = data_cells_at(s, p) {
        return Some(r);
    }
    if let Some(r) = byte_array_at(s, p) {
        return Some(r);
    }
    match reference_at(s, p) {
        Some((r, q)) => Some((Data::Reference(r, None), q)),
        None => None,
    }
}

fn data_more_at(s: &[u8], i0: usize) -> (r: (Vec<Data>, usize))
    requires
        i0 <= s.len(),
    ensures
        data_more(s@, i0 as nat) == (datas_view(r.0@), r.1 as nat),
        i0 <= r.1 <= s.len(),
{
    let mut out: Vec<Data> = Vec::new();
    let mut i = i0;
    proof {
        lemma_data_more(s@, i0 as nat);
    }
    loop
        invariant
            i0 <= i <= s.len(),
            data_more(s@, i0 as nat) == (datas_view(out@) + data_more(s@, i as nat).0, data_more(
                s@,
                i as nat,
            ).1),
        decreases s.len() - i,
    {
        let j = eat_junk_at(s, i);
        let next = if byte_at(s, j, ',' as u8) {
            data_at(s, j + 1)
        } else {
            None
        };
        match next {
            Some((d, q)) => {
                let ghost before = datas_view(out@);
                let ghost dv = d@;
                out.push(d);
                proof {
                    let rest = data_more(s@, q as nat);
                    assert(datas_view(out@) =~= before.push(dv));
                    assert(before + (seq![dv] + rest.0) =~= before.push(dv) + rest.0);
                }
                i = q;
            },
            None => {
                proof {
                    assert(datas_view(out@) + Seq::<DataV>::empty() =~= datas_view(out@));
                }
                return (out, i);
            },
        }
    }
}

/// Reads a property value: pieces separated by commas.
pub fn data_list_at(s: &[u8], p: usize) -> (r: Option<(Vec<Data>, usize)>)
    requires
        p <= s.len(),
    ensures
        match r {
            Some((d, q)) => data_list(s@, p as nat) == Some((datas_view(d@), q as nat)),
            None => data_list(s@, p as nat) is None,
        },
        r matches Some((_, q)) ==> p < q <= s.len(),
{
    match data_at(s, p) {
        Some((first, q0)) => {
            let (mut out, e) = data_more_at(s, q0);
            let ghost fv = first@;
            let ghost rest = datas_view(out@);
            out.insert(0, first);
            proof {
                assert(datas_view(out@) =~= seq![fv] + rest);
            }
            Some((out, e))
        },
        None => None,
    }
}

// ---------------------------------------------------------------------------
// Properties and nodes
// ---------------------------------------------------------------------------

/// A property or a node of a node's body.
#[derive(Debug, PartialEq, Eq)]
pub enum Item {
    Prop(Property),
    Node(Node),
}

/// An item as seen by specifications.
pub enum ItemV {
    Prop(PropertyV),
    Node(NodeV),
}

impl View for Item {
    type V = ItemV;

    open spec fn view(&self) -> ItemV {
        match self {
            Item::Prop(p) => ItemV::Prop(p@),
            Item::Node(n) => ItemV::Node(n@),
        }
    }
}

/// The views of a list of properties.
pub open spec fn props_view(v: Seq<Property>) -> Seq<PropertyV> {
    v.map_values(|p: Property| p@)
}

/// The offset of position `p` in a source of `ilen` bytes whose tail is `s`.
pub open spec fn offset_of(s: Seq<u8>, ilen: nat, p: nat) -> usize {
    (ilen - (s.len() - p)) as usize
}

/// A property list made from properties in order, each under its name (a
/// later property with a name already there takes its place).
pub open spec fn prop_entries_of(ps: Seq<PropertyV>) -> Seq<(Seq<char>, PropertyV)>
    decreases ps.len(),
{
    if ps.len() == 0 {
        seq![]
    } else {
        entries_insert(prop_entries_of(ps.drop_last()), ps.last().name(), ps.last())
    }
}

/// A child list made from nodes in order, each under its name.
pub open spec fn child_entries_of(ns: Seq<NodeV>) -> Seq<(Seq<char>, NodeV)>
    decreases ns.len(),
{
    if ns.len() == 0 {
        seq![]
    } else {
        entries_insert(child_entries_of(ns.drop_last()), ns.last().name().text(), ns.last())
    }
}

/// The node with this name, body, labels and offset.
pub open spec fn make_node(
    name: NodeNameV,
    ps: Seq<PropertyV>,
    ns: Seq<NodeV>,
    labels: Seq<Seq<char>>,
    offset: usize,
) -> NodeV {
    NodeV::Existing {
        name,
        props: prop_entries_of(ps),
        children: child_entries_of(ns),
        labels,
        offset,
    }
}

/// `/delete-node/ name;`
pub open spec fn deleted_node(s: Seq<u8>, p: nat, ilen: nat) -> Option<(NodeV, nat)> {
    if has_tag(s, p, tag_delete_node()) {
        match prop_name(s, p + 13) {
            Some((n, e)) => if at(s, e, ';' as u8) {
                Some(
                    (
                        NodeV::Deleted { name: NodeNameV::Full(n), offset: offset_of(s, ilen, p) },
                        e + 1,
                    ),
                )
            } else {
                None
            },
            None => None,
        }
    } else {
        None
    }
}

/// `/delete-property/ name;`
pub open spec fn deleted_prop(s: Seq<u8>, p: nat, ilen: nat) -> Option<(PropertyV, nat)> {
    if has_tag(s, p, tag_delete_property()) {
        match prop_name(s, p + 17) {
            Some((n, e)) => if at(s, e, ';' as u8) {
                Some((PropertyV::Deleted { name: n, offset: offset_of(s, ilen, p) }, e + 1))
            } else {
                None
            },
            None => None,
        }
    } else {
        None
    }
}

/// A node body after junk: `{`, the items, `}` and `;`, each after junk.
pub open spec fn block(s: Seq<u8>, p: nat, ilen: nat) -> Option<
    (Seq<PropertyV>, Seq<NodeV>, nat),
>
    decreases s.len() - p, 0nat,
    via block_decreases
{
    let a = eat_junk(s, p);
    if at(s, a, '{' as u8) {
        match contents(s, a + 1, ilen) {
            Some((ps, ns, q)) => {
                let b = eat_junk(s, q);
                if at(s, b, '}' as u8) {
                    let c = eat_junk(s, b + 1);
                    if at(s, c, ';' as u8) {
                        Some((ps, ns, c + 1))
                    } else {
                        None
                    }
                } else {
                    None
                }
            },
            None => None,
        }
    } else {
        None
    }
}

/// The items of a node body, up to the first that does not parse, split
/// into properties and child nodes (each in order). An item that reads
/// nothing is an error.
pub open spec fn contents(s: Seq<u8>, p: nat, ilen: nat) -> Option<
    (Seq<PropertyV>, Seq<NodeV>, nat),
>
    decreases s.len() - p, 3nat,
{
    match item(s, p, ilen) {
        None => Some((seq![], seq![], p)),
        Some((it, q)) => if p < q && q <= s.len() {
            add_item(it, contents(s, q, ilen))
        } else {
            None
        },
    }
}

/// `r` with `it` put before its properties or its nodes.
pub open spec fn add_item(it: ItemV, r: Option<(Seq<PropertyV>, Seq<NodeV>, nat)>) -> Option<
    (Seq<PropertyV>, Seq<NodeV>, nat),
> {
    match r {
        Some((ps, ns, e)) => match it {
            ItemV::Prop(x) => Some((seq![x] + ps, ns, e)),
            ItemV::Node(n) => Some((ps, seq![n] + ns, e)),
        },
        None => None,
    }
}

/// An item after junk: a node deletion, a property deletion, else a
/// property or a node.
pub open spec fn item(s: Seq<u8>, p0: nat, ilen: nat) -> Option<(ItemV, nat)>
    decreases s.len() - p0, 2nat,
    via item_decreases
{
    let p = eat_junk(s, p0);
    match deleted_node(s, p, ilen) {
        Some((n, q)) => Some((ItemV::Node(n), q)),
        None => match deleted_prop(s, p, ilen) {
            Some((x, q)) => Some((ItemV::Prop(x), q)),
            None => prop_or_node(s, p, ilen),
        },
    }
}

/// A property or a node: labels, junk, a name and junk; then a body where a
/// `{` follows, else an optional `= value` and a `;`.
pub open spec fn prop_or_node(s: Seq<u8>, p: nat, ilen: nat) -> Option<(ItemV, nat)>
    decreases s.len() - p, 1nat,
    via prop_or_node_decreases
{
    let (ls, p2) = labels(s, p);
    let p3 = eat_junk(s, p2);
    match node_name(s, p3) {
        None => None,
        Some((name, p4)) => {
            let p5 = eat_junk(s, p4);
            if p5 >= s.len() {
                None
            } else if s[p5 as int] == '{' as u8 {
                match block(s, p5, ilen) {
                    Some((ps, ns, q)) => Some(
                        (
                            ItemV::Node(
                                make_node(NodeNameV::Full(name), ps, ns, ls, offset_of(s, ilen, p)),
                            ),
                            q,
                        ),
                    ),
                    None => None,
                }
            } else {
                let j = eat_junk(s, p5);
                let (val, k) = if at(s, j, '=' as u8) {
                    match data_list(s, j + 1) {
                        Some((d, e)) => (Some(d), e),
                        None => (None, p5),
                    }
                } else {
                    (None, p5)
                };
                let m = eat_junk(s, k);
                if at(s, m, ';' as u8) {
                    Some(
                        (
                            ItemV::Prop(
                                PropertyV::Existing {
                                    name,
                                    val,
                                    labels: ls,
                                    offset: offset_of(s, ilen, p),
                                },
                            ),
                            m + 1,
                        ),
                    )
                } else {
                    None
                }
            }
        },
    }
}

#[via_fn]
proof fn block_decreases(s: Seq<u8>, p: nat, ilen: nat) {
    lemma_eat_junk(s, p);
}

#[via_fn]
proof fn item_decreases(s: Seq<u8>, p0: nat, ilen: nat) {
    lemma_eat_junk(s, p0);
}

#[via_fn]
proof fn prop_or_node_decreases(s: Seq<u8>, p: nat, ilen: nat) {
    lemma_labels_any(s, p);
    let p2 = labels(s, p).1;
    lemma_eat_junk(s, p2);
    let p3 = eat_junk(s, p2);
    lemma_node_name(s, p3);
    if let Some((name, p4)) = node_name(s, p3) {
        lemma_eat_junk(s, p4);
    }
}

pub proof fn lemma_labels_any(s: Seq<u8>, p: nat)
    ensures
        p <= labels(s, p).1,
        p > s.len() ==> labels(s, p).1 == p,
{
    if p <= s.len() {
        lemma_labels(s, p);
    } else {
        assert(label(s, p) is None);
    }
}

// ---------------------------------------------------------------------------
// Reading properties and nodes
// ---------------------------------------------------------------------------

/// Makes a node: its properties keyed by name and its children keyed by
/// the text of their names, in order.
pub fn build_node(
    name: NodeName,
    props: Vec<Property>,
    nodes: Vec<Node>,
    labels: Vec<String>,
    offset: usize,
) -> (r: Node)
    ensures
        r@ == make_node(
            name@,
            props_view(props@),
            nodes_view(nodes@),
            strings_view(labels@),
            offset,
        ),
{
    let ghost porig = props@;
    let ghost norig = nodes@;
    let mut props = props;
    let mut nodes = nodes;
    let mut proplist = prop_map_new();
    let ghost mut k: int = 0;
    proof {
        assert(props_view(porig.subrange(0, 0)) =~= Seq::<PropertyV>::empty());
        assert(props@ =~= porig.subrange(0, porig.len() as int));
    }
    while props.len() > 0
        invariant
            0 <= k <= porig.len(),
            props@ == porig.subrange(k, porig.len() as int),
            prop_entries(proplist) == prop_entries_of(props_view(porig.subrange(0, k))),
        decreases props.len(),
    {
        let x = props.remove(0);
        let key = x.name().to_owned();
        prop_map_insert(&mut proplist, key, x);
        proof {
            let before = props_view(porig.subrange(0, k));
            let after = props_view(porig.subrange(0, k + 1));
            assert(after.drop_last() =~= before);
            assert(after.last() == porig[k]@);
            k = k + 1;
            assert(props@ =~= porig.subrange(k, porig.len() as int));
        }
    }
    proof {
        assert(porig.subrange(0, k) =~= porig);
    }
    let mut children: Vec<(String, Node)> = Vec::new();
    let ghost mut j: int = 0;
    proof {
        assert(nodes_view(norig.subrange(0, 0)) =~= Seq::<NodeV>::empty());
        assert(nodes@ =~= norig.subrange(0, norig.len() as int));
        assert(children_view(children@) =~= Seq::<(Seq<char>, NodeV)>::empty());
    }
    while nodes.len() > 0
        invariant
            0 <= j <= norig.len(),
            nodes@ == norig.subrange(j, norig.len() as int),
            children_view(children@) == child_entries_of(nodes_view(norig.subrange(0, j))),
        decreases nodes.len(),
    {
        let x = nodes.remove(0);
        let key = x.name().as_str().to_owned();
        children_insert(&mut children, key, x);
        proof {
            let before = nodes_view(norig.subrange(0, j));
            let after = nodes_view(norig.subrange(0, j + 1));
            assert(after.drop_last() =~= before);
            assert(after.last() == norig[j]@);
            j = j + 1;
            assert(nodes@ =~= norig.subrange(j, norig.len() as int));
        }
    }
    proof {
        assert(norig.subrange(0, j) =~= norig);
    }
    Node::Existing { name, proplist, children, labels, offset }
}

fn deleted_node_at(s: &[u8], p: usize, ilen: usize) -> (r: Option<(Node, usize)>)
    requires
        p <= s.len() <= ilen,
    ensures
        match r {
            Some((n, q)) => deleted_node(s@, p as nat, ilen as nat) == Some((n@, q as nat)),
            None => deleted_node(s@, p as nat, ilen as nat) is None,
        },
{
    if !at_tag_delete_node(s, p) {
        return None;
    }
    match prop_name_at(s, p + 13) {
        Some((n, e)) => if byte_at(s, e, ';' as u8) {
            Some((Node::Deleted { name: NodeName::Full(n), offset: ilen - (s.len() - p) }, e + 1))
        } else {
            None
        },
        None => None,
    }
}

fn deleted_prop_at(s: &[u8], p: usize, ilen: usize) -> (r: Option<(Property, usize)>)
    requires
        p <= s.len() <= ilen,
    ensures
        match r {
            Some((x, q)) => deleted_prop(s@, p as nat, ilen as nat) == Some((x@, q as nat)),
            None => deleted_prop(s@, p as nat, ilen as nat) is None,
        },
{
    if !at_tag_delete_property(s, p) {
        return None;
    }
    match prop_name_at(s, p + 17) {
        Some((n, e)) => if byte_at(s, e, ';' as u8) {
            Some((Property::Deleted { name: n, offset: ilen - (s.len() - p) }, e + 1))
        } else {
            None
        },
        None => None,
    }
}

/// Reads a node body: `{`, the items, `}` and `;`.
pub fn block_at(s: &[u8], p: usize, ilen: usize) -> (r: Option<(Vec<Property>, Vec<Node>, usize)>)
    requires
        p <= s.len() <= ilen,
    ensures
        match r {
            Some((ps, ns, q)) => block(s@, p as nat, ilen as nat) == Some(
                (props_view(ps@), nodes_view(ns@), q as nat),
            ),
            None => block(s@, p as nat, ilen as nat) is None,
        },
        r matches Some((_, _, q)) ==> p < q <= s.len(),
    decreases s.len() - p, 0nat,
{
    let a = eat_junk_at(s, p);
    if !byte_at(s, a, '{' as u8) {
        return None;
    }
    match contents_at(s, a + 1, ilen) {
        Some((ps, ns, q)) => {
            let b = eat_junk_at(s, q);
            if byte_at(s, b, '}' as u8) {
                let c = eat_junk_at(s, b + 1);
                if byte_at(s, c, ';' as u8) {
                    return Some((ps, ns, c + 1));
                }
            }
            None
        },
        None => None,
    }
}

/// `r` with `pv` and `nv` put before its properties and nodes.
pub open spec fn prefixed(
    pv: Seq<PropertyV>,
    nv: Seq<NodeV>,
    r: Option<(Seq<PropertyV>, Seq<NodeV>, nat)>,
) -> Option<(Seq<PropertyV>, Seq<NodeV>, nat)> {
    match r {
        Some((ps, ns, e)) => Some((pv + ps, nv + ns, e)),
        None => None,
    }
}

proof fn lemma_prefixed_add(
    pv: Seq<PropertyV>,
    nv: Seq<NodeV>,
    itv: ItemV,
    r: Option<(Seq<PropertyV>, Seq<NodeV>, nat)>,
)
    ensures
        prefixed(pv, nv, add_item(itv, r)) == match itv {
            ItemV::Prop(x) => prefixed(pv.push(x), nv, r),
            ItemV::Node(n) => prefixed(pv, nv.push(n), r),
        },
{
    match r {
        Some((ps, ns, e)) => {
            match itv {
                ItemV::Prop(x) => {
                    assert(pv + (seq![x] + ps) =~= pv.push(x) + ps);
                },
                ItemV::Node(n) => {
                    assert(nv + (seq![n] + ns) =~= nv.push(n) + ns);
                },
            }
        },
        None => {},
    }
}

/// Reads the items of a node body.
pub fn contents_at(s: &[u8], p: usize, ilen: usize) -> (r: Option<
    (Vec<Property>, Vec<Node>, usize),
>)
    requires
        p <= s.len() <= ilen,
    ensures
        match r {
            Some((ps, ns, q)) => contents(s@, p as nat, ilen as nat) == Some(
                (props_view(ps@), nodes_view(ns@), q as nat),
            ),
            None => contents(s@, p as nat, ilen as nat) is None,
        },
        r matches Some((_, _, q)) ==> p <= q <= s.len(),
    decreases s.len() - p, 3nat,
{
    let mut props: Vec<Property> = Vec::new();
    let mut nodes: Vec<Node> = Vec::new();
    let mut i = p;
    let ghost sv = s@;
    let ghost il = ilen as nat;
    proof {
        assert(props_view(props@) =~= Seq::<PropertyV>::empty());
        assert(nodes_view(nodes@) =~= Seq::<NodeV>::empty());
        match contents(sv, p as nat, il) {
            Some((ps, ns, e)) => {
                assert(Seq::<PropertyV>::empty() + ps =~= ps);
                assert(Seq::<NodeV>::empty() + ns =~= ns);
            },
            None => {},
        }
    }
    loop
        invariant
            p <= i <= s.len() <= ilen,
            sv == s@,
            il == ilen as nat,
            contents(sv, p as nat, il) == prefixed(
                props_view(props@),
                nodes_view(nodes@),
                contents(sv, i as nat, il),
            ),
        decreases s.len() - i,
    {
        match item_at(s, i, ilen) {
            None => {
                proof {
                    assert(contents(sv, i as nat, il) == Some(
                        (Seq::<PropertyV>::empty(), Seq::<NodeV>::empty(), i as nat),
                    ));
                    assert(props_view(props@) + Seq::<PropertyV>::empty() =~= props_view(props@));
                    assert(nodes_view(nodes@) + Seq::<NodeV>::empty() =~= nodes_view(nodes@));
                }
                return Some((props, nodes, i));
            },
            Some((it, q)) => {
                if !(i < q && q <= s.len()) {
                    return None;
                }
                let ghost pv = props_view(props@);
                let ghost nv = nodes_view(nodes@);
                let ghost itv = it@;
                proof {
                    assert(contents(sv, i as nat, il) == add_item(itv, contents(sv, q as nat, il)));
                    lemma_prefixed_add(pv, nv, itv, contents(sv, q as nat, il));
                }
                match it {
                    Item::Prop(x) => {
                        props.push(x);
                        proof {
                            assert(props_view(props@) =~= pv.push(itv->Prop_0));
                        }
                    },
                    Item::Node(n) => {
                        nodes.push(n);
                        proof {
                            assert(nodes_view(nodes@) =~= nv.push(itv->Node_0));
                        }
                    },
                }
                i = q;
            },
        }
    }
}

/// Reads an item: a node deletion, a property deletion, a property or a
/// node.
pub fn item_at(s: &[u8], p0: usize, ilen: usize) -> (r: Option<(Item, usize)>)
    requires
        p0 <= s.len() <= ilen,
    ensures
        match r {
            Some((it, q)) => item(s@, p0 as nat, ilen as nat) == Some((it@, q as nat)),
            None => item(s@, p0 as nat, ilen as nat) is None,
        },
        r matches Some((_, q)) ==> p0 < q <= s.len(),
    decreases s.len() - p0, 2nat,
{
    let p = eat_junk_at(s, p0);
    if let Some((n, q)) = deleted_node_at(s, p, ilen) {
        proof {
            lemma_node_name(s@, (p + 13) as nat);
        }
        return Some((Item::Node(n), q));
    }
    if let Some((x, q)) = deleted_prop_at(s, p, ilen) {
        proof {
            lemma_node_name(s@, (p + 17) as nat);
        }
        return Some((Item::Prop(x), q));
    }
    prop_or_node_at(s, p, ilen)
}

/// Reads a property or a node.
pub fn prop_or_node_at(s: &[u8], p: usize, ilen: usize) -> (r: Option<(Item, usize)>)
    requires
        p <= s.len() <= ilen,
    ensures
        match r {
            Some((it, q)) => prop_or_node(s@, p as nat, ilen as nat) == Some((it@, q as nat)),
            None => prop_or_node(s@, p as nat, ilen as nat) is None,
        },
        r matches Some((_, q)) ==> p < q <= s.len(),
    decreases s.len() - p, 1nat,
{
    let (ls, p2) = labels_at(s, p);
    let p3 = eat_junk_at(s, p2);
    let (name, p4) = match node_name_at(s, p3) {
        Some(x) => x,
        None => {
            return None;
        },
    };
    proof {
        lemma_node_name(s@, p3 as nat);
    }
    let p5 = eat_junk_at(s, p4);
    if p5 >= s.len() {
        return None;
    }
    let offset = ilen - (s.len() - p);
    if s[p5] == '{' as u8 {
        match block_at(s, p5, ilen) {
            Some((ps, ns, q)) => Some(
                (Item::Node(build_node(NodeName::Full(name), ps, ns, ls, offset)), q),
            ),
            None => None,
        }
    } else {
        let j = eat_junk_at(s, p5);
        let mut val: Option<Vec<Data>> = None;
        let mut k = p5;
        if byte_at(s, j, '=' as u8) {
            if let Some((d, e)) = data_list_at(s, j + 1) {
                val = Some(d);
                k = e;
            }
        }
        let m = eat_junk_at(s, k);
        if byte_at(s, m, ';' as u8) {
            Some((Item::Prop(Property::Existing { name, val, labels: ls, offset }), m + 1))
        } else {
            None
        }
    }
}

// ---------------------------------------------------------------------------
// The root node, amendments, memory reservations and the whole source
// ---------------------------------------------------------------------------

/// The root node after junk: a node deletion, else labels, a name and a
/// body.
#[verifier::opaque]
pub open spec fn root_node(s: Seq<u8>, p0: nat, ilen: nat) -> Option<(NodeV, nat)> {
    let p = eat_junk(s, p0);
    if deleted_node(s, p, ilen) is Some {
        deleted_node(s, p, ilen)
    } else {
        let (ls, p2) = labels(s, p);
        match node_name(s, p2) {
            Some((name, p3)) => match block(s, p3, ilen) {
                Some((ps, ns, q)) => Some(
                    (make_node(NodeNameV::Full(name), ps, ns, ls, offset_of(s, ilen, p)), q),
                ),
                None => None,
            },
            None => None,
        }
    }
}

/// A node that amends the tree, after junk: `/delete-node/ &ref;`, else
/// labels, `/` or a reference, and a body.
#[verifier::opaque]
pub open spec fn amend(s: Seq<u8>, p0: nat, ilen: nat) -> Option<(NodeV, nat)> {
    let p = eat_junk(s, p0);
    let del = if has_tag(s, p, tag_delete_node()) {
        match reference(s, p + 13) {
            Some((r, e)) => if at(s, e, ';' as u8) {
                Some((NodeV::Deleted { name: NodeNameV::Ref(r), offset: offset_of(s, ilen, p) }, e + 1))
            } else {
                None
            },
            None => None,
        }
    } else {
        None
    };
    if del is Some {
        del
    } else {
        let (ls, p2) = labels(s, p);
        let name = if at(s, p2, '/' as u8) {
            Some((NodeNameV::Full(seq!['/']), p2 + 1))
        } else {
            match reference(s, p2) {
                Some((r, e)) => Some((NodeNameV::Ref(r), e)),
                None => None,
            }
        };
        match name {
            Some((n, p3)) => match block(s, p3, ilen) {
                Some((ps, ns, q)) => Some((make_node(n, ps, ns, ls, offset_of(s, ilen, p)), q)),
                None => None,
            },
            None => None,
        }
    }
}

/// The amendments, up to the first that does not parse; one that reads
/// nothing is an error.
pub open spec fn amends(s: Seq<u8>, p: nat, ilen: nat) -> Option<(Seq<NodeV>, nat)>
    decreases s.len() - p,
{
    match amend(s, p, ilen) {
        None => Some((seq![], p)),
        Some((n, q)) => if p < q && q <= s.len() {
            match amends(s, q, ilen) {
                Some((rest, e)) => Some((seq![n] + rest, e)),
                None => None,
            }
        } else {
            None
        },
    }
}

/// `labels /memreserve/ address size;` after junk.
#[verifier::opaque]
pub open spec fn mem_reserve(s: Seq<u8>, p0: nat) -> Option<(ReserveV, nat)> {
    let p = eat_junk(s, p0);
    let (ls, p2) = labels(s, p);
    if has_tag(s, p2, tag_memreserve()) {
        match c_expr(s, p2 + 12) {
            Some((address, a)) => match c_expr(s, a) {
                Some((size, b)) => if at(s, b, ';' as u8) {
                    Some((ReserveV { address, size, labels: ls }, b + 1))
                } else {
                    None
                },
                None => None,
            },
            None => None,
        }
    } else {
        None
    }
}

pub proof fn lemma_mem_reserve(s: Seq<u8>, p0: nat)
    ensures
        mem_reserve(s, p0) matches Some((_, q)) ==> p0 < q <= s.len(),
{
    reveal(mem_reserve);
    let p = eat_junk(s, p0);
    lemma_eat_junk(s, p0);
    lemma_labels_any(s, p);
    let p2 = labels(s, p).1;
    lemma_c_expr(s, p2 + 12);
    if let Some((_, a)) = c_expr(s, p2 + 12) {
        lemma_c_expr(s, a);
    }
}

/// The memory reservations, up to the first that does not parse.
pub open spec fn mem_reserves(s: Seq<u8>, p: nat) -> (Seq<ReserveV>, nat)
    decreases s.len() - p,
    via mem_reserves_decreases
{
    match mem_reserve(s, p) {
        Some((r, q)) => {
            let (rest, e) = mem_reserves(s, q);
            (seq![r] + rest, e)
        },
        None => (seq![], p),
    }
}

#[via_fn]
proof fn mem_reserves_decreases(s: Seq<u8>, p: nat) {
    lemma_mem_reserve(s, p);
}

pub proof fn lemma_mem_reserves(s: Seq<u8>, p: nat)
    ensures
        p <= mem_reserves(s, p).1,
        p <= s.len() ==> mem_reserves(s, p).1 <= s.len(),
    decreases s.len() - p,
{
    lemma_mem_reserve(s, p);
    if let Some((r, q)) = mem_reserve(s, p) {
        lemma_mem_reserves(s, q);
    }
}

/// A whole source: junk, an optional `/dts-v1/;`, the memory reservations,
/// the root node (which must start with `/` after junk) and the amendments.
/// Gives the tree, the amendments and the position where reading stopped.
#[verifier::opaque]
pub open spec fn dts_source(s: Seq<u8>) -> Option<(DTInfoV, Seq<NodeV>, nat)> {
    let ilen = s.len();
    let p1 = eat_junk(s, 0);
    let p2 = eat_junk(s, p1);
    let p3 = if has_tag(s, p2, tag_dts_v1()) {
        p2 + 9
    } else {
        p1
    };
    let (rs, p4) = mem_reserves(s, p3);
    let p5 = eat_junk(s, p4);
    let p6 = eat_junk(s, p5);
    if at(s, p6, '/' as u8) {
        match root_node(s, p5, ilen) {
            Some((root, p7)) => match amends(s, p7, ilen) {
                Some((am, p8)) => Some(
                    (DTInfoV { reserve_info: rs, root, boot_cpuid: 0 }, am, p8),
                ),
                None => None,
            },
            None => None,
        }
    } else {
        None
    }
}

fn root_node_at(s: &[u8], p0: usize, ilen: usize) -> (r: Option<(Node, usize)>)
    requires
        p0 <= s.len() <= ilen,
    ensures
        match r {
            Some((n, q)) => root_node(s@, p0 as nat, ilen as nat) == Some((n@, q as nat)),
            None => root_node(s@, p0 as nat, ilen as nat) is None,
        },
        r matches Some((_, q)) ==> q <= s.len(),
{
    proof {
        reveal(root_node);
    }
    let p = eat_junk_at(s, p0);
    if let Some((n, q)) = deleted_node_at(s, p, ilen) {
        proof {
            lemma_node_name(s@, (p + 13) as nat);
        }
        return Some((n, q));
    }
    let (ls, p2) = labels_at(s, p);
    match node_name_at(s, p2) {
        Some((name, p3)) => {
            proof {
                lemma_node_name(s@, p2 as nat);
            }
            match block_at(s, p3, ilen) {
                Some((ps, ns, q)) => {
                    let offset = ilen - (s.len() - p);
                    Some((build_node(NodeName::Full(name), ps, ns, ls, offset), q))
                },
                None => None,
            }
        },
        None => None,
    }
}

fn amend_at(s: &[u8], p0: usize, ilen: usize) -> (r: Option<(Node, usize)>)
    requires
        p0 <= s.len() <= ilen,
    ensures
        match r {
            Some((n, q)) => amend(s@, p0 as nat, ilen as nat) == Some((n@, q as nat)),
            None => amend(s@, p0 as nat, ilen as nat) is None,
        },
        r matches Some((_, q)) ==> q <= s.len(),
{
    proof {
        reveal(amend);
    }
    let p = eat_junk_at(s, p0);
    let offset = ilen - (s.len() - p);
    if at_tag_delete_node(s, p) {
        if let Some((r, e)) = reference_at(s, p + 13) {
            proof {
                lemma_reference(s@, (p + 13) as nat);
            }
            if byte_at(s, e, ';' as u8) {
                return Some((Node::Deleted { name: NodeName::Ref(r), offset }, e + 1));
            }
        }
    }
    let (ls, p2) = labels_at(s, p);
    let (name, p3) = if byte_at(s, p2, '/' as u8) {
        let slash: [char; 1] = ['/'];
        let t = crate::text::string_from_chars(&slash);
        proof {
            assert(t@ =~= seq!['/']);
        }
        (NodeName::Full(t), p2 + 1)
    } else {
        match reference_at(s, p2) {
            Some((r, e)) => {
                proof {
                    lemma_reference(s@, p2 as nat);
                }
                (NodeName::Ref(r), e)
            },
            None => {
                return None;
            },
        }
    };
    match block_at(s, p3, ilen) {
        Some((ps, ns, q)) => Some((build_node(name, ps, ns, ls, offset), q)),
        None => None,
    }
}

fn amends_at(s: &[u8], p: usize, ilen: usize) -> (r: Option<(Vec<Node>, usize)>)
    requires
        p <= s.len() <= ilen,
    ensures
        match r {
            Some((ns, q)) => amends(s@, p as nat, ilen as nat) == Some((nodes_view(ns@), q as nat)),
            None => amends(s@, p as nat, ilen as nat) is None,
        },
        r matches Some((_, q)) ==> p <= q <= s.len(),
{
    let mut out: Vec<Node> = Vec::new();
    let mut i = p;
    let ghost sv = s@;
    let ghost il = ilen as nat;
    proof {
        assert(nodes_view(out@) =~= Seq::<NodeV>::empty());
        if let Some((rest, e)) = amends(sv, p as nat, il) {
            assert(Seq::<NodeV>::empty() + rest =~= rest);
        }
    }
    loop
        invariant
            p <= i <= s.len() <= ilen,
            sv == s@,
            il == ilen as nat,
            amends(sv, p as nat, il) == match amends(sv, i as nat, il) {
                Some((rest, e)) => Some((nodes_view(out@) + rest, e)),
                None => None,
            },
        decreases s.len() - i,
    {
        match amend_at(s, i, ilen) {
            None => {
                proof {
                    assert(nodes_view(out@) + Seq::<NodeV>::empty() =~= nodes_view(out@));
                }
                return Some((out, i));
            },
            Some((n, q)) => {
                if !(i < q && q <= s.len()) {
                    return None;
                }
                let ghost before = nodes_view(out@);
                let ghost nv = n@;
                out.push(n);
                proof {
                    assert(nodes_view(out@) =~= before.push(nv));
                    if let Some((rest, e)) = amends(sv, q as nat, il) {
                        assert(before + (seq![nv] + rest) =~= before.push(nv) + rest);
                    }
                }
                i = q;
            },
        }
    }
}

fn mem_reserve_at(s: &[u8], p0: usize) -> (r: Option<(ReserveInfo, usize)>)
    requires
        p0 <= s.len(),
    ensures
        match r {
            Some((x, q)) => mem_reserve(s@, p0 as nat) == Some((x@, q as nat)),
            None => mem_reserve(s@, p0 as nat) is None,
        },
{
    proof {
        reveal(mem_reserve);
    }
    let p = eat_junk_at(s, p0);
    let (ls, p2) = labels_at(s, p);
    if !at_tag_memreserve(s, p2) {
        return None;
    }
    match parse_c_expr(s, p2 + 12) {
        Some((address, a)) => match parse_c_expr(s, a) {
            Some((size, b)) => if byte_at(s, b, ';' as u8) {
                Some((ReserveInfo { address, size, labels: ls }, b + 1))
            } else {
                None
            },
            None => None,
        },
        None => None,
    }
}

fn mem_reserves_at(s: &[u8], p: usize) -> (r: (Vec<ReserveInfo>, usize))
    requires
        p <= s.len(),
    ensures
        mem_reserves(s@, p as nat) == (reserves_view(r.0@), r.1 as nat),
        p <= r.1 <= s.len(),
{
    let mut out: Vec<ReserveInfo> = Vec::new();
    let mut i = p;
    proof {
        lemma_mem_reserves(s@, p as nat);
    }
    loop
        invariant
            p <= i <= s.len(),
            mem_reserves(s@, p as nat) == (reserves_view(out@) + mem_reserves(s@, i as nat).0,
            mem_reserves(s@, i as nat).1),
        decreases s.len() - i,
    {
        proof {
            lemma_mem_reserve(s@, i as nat);
        }
        match mem_reserve_at(s, i) {
            Some((x, q)) => {
                let ghost before = reserves_view(out@);
                let ghost xv = x@;
                out.push(x);
                proof {
                    let rest = mem_reserves(s@, q as nat);
                    assert(reserves_view(out@) =~= before.push(xv));
                    assert(before + (seq![xv] + rest.0) =~= before.push(xv) + rest.0);
                }
                i = q;
            },
            None => {
                proof {
                    assert(reserves_view(out@) + Seq::<ReserveV>::empty() =~= reserves_view(out@));
                }
                return (out, i);
            },
        }
    }
}

fn source_at(s: &[u8]) -> (r: Option<(DTInfo, Vec<Node>, usize)>)
    ensures
        match r {
            Some((t, am, q)) => dts_source(s@) == Some((t@, nodes_view(am@), q as nat)),
            None => dts_source(s@) is None,
        },
        r matches Some((_, _, q)) ==> q <= s.len(),
{
    proof {
        reveal(dts_source);
    }
    let ilen = s.len();
    let p1 = eat_junk_at(s, 0);
    let p2 = eat_junk_at(s, p1);
    let p3 = if at_tag_dts_v1(s, p2) {
        p2 + 9
    } else {
        p1
    };
    let (rs, p4) = mem_reserves_at(s, p3);
    let p5 = eat_junk_at(s, p4);
    let p6 = eat_junk_at(s, p5);
    if !byte_at(s, p6, '/' as u8) {
        return None;
    }
    match root_node_at(s, p5, ilen) {
        Some((root, p7)) => match amends_at(s, p7, ilen) {
            Some((am, p8)) => Some((DTInfo { reserve_info: rs, root, boot_cpuid: 0 }, am, p8)),
            None => None,
        },
        None => None,
    }
}

// ---------------------------------------------------------------------------
// Entry points
// ---------------------------------------------------------------------------

/// What `parse_dt` gives when a tree was read.
#[derive(Debug)]
pub enum ParseResult<'a> {
    /// The whole input was read: the tree (memory reservations and root
    /// node) and the amendments that follow the root node.
    Complete(DTInfo, Vec<Node>),
    /// Input is left after the tree and the amendments, which is in most
    /// cases an error in the source.
    RemainingInput(DTInfo, Vec<Node>, &'a [u8]),
}

/// Parses a device tree source: memory reservations, the root node and the
/// nodes after it that amend the tree (by a reference to a label, or at
/// `/`), which `parse_dt` leaves unmerged.
///
/// Returns `ParseError::IncompleteInput` where the source does not parse
/// but ended where more was expected (see `truncated`), and
/// `ParseError::NomError` where it does not follow the grammar otherwise.
pub fn parse_dt(source: &[u8]) -> (r: Result<ParseResult<'_>, ParseError>)
    ensures
        match dts_source(source@) {
            Some((info, am, e)) => match r {
                Ok(ParseResult::Complete(t, a)) => e == source@.len() && t@ == info && nodes_view(a@)
                    == am,
                Ok(ParseResult::RemainingInput(t, a, rest)) => e < source@.len() && t@ == info
                    && nodes_view(a@) == am && rest@ == source@.subrange(
                    e as int,
                    source@.len() as int,
                ),
                Err(_) => false,
            },
            None => if truncated(source@) {
                r matches Err(ParseError::IncompleteInput)
            } else {
                r matches Err(ParseError::NomError)
            },
        },
{
    match source_at(source) {
        Some((tree, amends, e)) => {
            if e == source.len() {
                Ok(ParseResult::Complete(tree, amends))
            } else {
                Ok(ParseResult::RemainingInput(tree, amends, source.split_at(e).1))
            }
        },
        None => {
            let mut k: usize = 0;
            while k < 5
                invariant
                    k <= 5,
                    dts_source(source@) is None,
                    forall|j: int| 0 <= j < k ==> dts_source(source@ + completion(source@, j)) is None,
                decreases 5 - k,
            {
                let longer = completed(source, k);
                if source_at(longer.as_slice()).is_some() {
                    proof {
                        assert(longer@ == source@ + completion(source@, k as int));
                        assert(dts_source(source@ + completion(source@, k as int)) is Some);
                        assert(truncated(source@));
                    }
                    return Err(ParseError::IncompleteInput);
                }
                k = k + 1;
            }
            proof {
                assert(!truncated(source@));
            }
            Err(ParseError::NomError)
        },
    }
}

/// The source ends where more was expected: one of the ways `completion`
/// gives to finish it makes it parse.
pub open spec fn truncated(s: Seq<u8>) -> bool {
    exists|k: int| 0 <= k < n_completions() && dts_source(s + completion(s, k)) is Some
}

/// Parses one item of a node body (after junk): a property, a node, or the
/// deletion of one, in a source of `input_len` bytes whose tail is `input`.
pub fn parse_item(input_len: usize, input: &[u8]) -> (r: Result<(&[u8], Item), ParseError>)
    requires
        input.len() <= input_len,
    ensures
        match item(input@, 0, input_len as nat) {
            Some((it, q)) => r matches Ok((rest, x)) && x@ == it && rest@ == input@.subrange(
                q as int,
                input@.len() as int,
            ),
            None => r matches Err(ParseError::NomError),
        },
{
    match item_at(input, 0, input_len) {
        Some((it, q)) => Ok((input.split_at(q).1, it)),
        None => Err(ParseError::NomError),
    }
}

/// Parses one piece of a property value (after junk): a string, a cell
/// list, a byte string or a reference.
pub fn parse_data(input: &[u8]) -> (r: Result<(&[u8], Data), ParseError>)
    ensures
        match data(input@, 0) {
            Some((d, q)) => r matches Ok((rest, x)) && x@ == d && rest@ == input@.subrange(
                q as int,
                input@.len() as int,
            ),
            None => r matches Err(ParseError::NomError),
        },
{
    match data_at(input, 0) {
        Some((d, q)) => Ok((input.split_at(q).1, d)),
        None => Err(ParseError::NomError),
    }
}

/// Reads the body of a string literal, up to the first byte that is
/// neither plain nor a known escape (the closing quote), and decodes it as
/// UTF-8.
pub fn escape_c_string(input: &[u8]) -> (r: Result<(&[u8], String), ParseError>)
    ensures
        match escaped_string(input@, 0) {
            Some((t, q)) => r matches Ok((rest, x)) && x@ == t && rest@ == input@.subrange(
                q as int,
                input@.len() as int,
            ),
            None => r matches Err(ParseError::NomError),
        },
{
    match escaped_string_at(input, 0) {
        Some((t, q)) => Ok((input.split_at(q).1, t)),
        None => Err(ParseError::NomError),
    }
}

/// Reads the body of a character literal: a named, hexadecimal or octal
/// escape, else one byte.
pub fn escape_c_char(input: &[u8]) -> (r: Result<(&[u8], u8), ParseError>)
    ensures
        match escaped_char(input@, 0) {
            Some((c, q)) => r matches Ok((rest, x)) && x == c && rest@ == input@.subrange(
                q as int,
                input@.len() as int,
            ),
            None => r matches Err(ParseError::NomError),
        },
{
    match escaped_char_at(input, 0) {
        Some((c, q)) => {
            proof {
                lemma_escaped_char(input@, 0);
            }
            Ok((input.split_at(q).1, c))
        },
        None => Err(ParseError::NomError),
    }
}

// ---------------------------------------------------------------------------
// Keys of parsed nodes
// ---------------------------------------------------------------------------

proof fn lemma_insert_keeps_unique<A>(e: Seq<(Seq<char>, A)>, k: Seq<char>, v: A)
    requires
        keys_unique(e),
    ensures
        keys_unique(entries_insert(e, k, v)),
{
    lemma_find_key(e, k);
}

proof fn lemma_prop_entries_unique(ps: Seq<PropertyV>)
    ensures
        keys_unique(prop_entries_of(ps)),
    decreases ps.len(),
{
    if ps.len() > 0 {
        lemma_prop_entries_unique(ps.drop_last());
        lemma_insert_keeps_unique(prop_entries_of(ps.drop_last()), ps.last().name(), ps.last());
    }
}

proof fn lemma_child_entries_unique(ns: Seq<NodeV>)
    ensures
        keys_unique(child_entries_of(ns)),
    decreases ns.len(),
{
    if ns.len() > 0 {
        lemma_child_entries_unique(ns.drop_last());
        lemma_insert_keeps_unique(
            child_entries_of(ns.drop_last()),
            ns.last().name().text(),
            ns.last(),
        );
    }
}

/// A node made from a body has each property name, and each child name,
/// once.
proof fn lemma_make_node_keys_unique(
    name: NodeNameV,
    ps: Seq<PropertyV>,
    ns: Seq<NodeV>,
    labels: Seq<Seq<char>>,
    offset: usize,
)
    ensures
        keys_unique(make_node(name, ps, ns, labels, offset).props()),
        keys_unique(make_node(name, ps, ns, labels, offset).children()),
{
    lemma_prop_entries_unique(ps);
    lemma_child_entries_unique(ns);
}

/// Every node of the tree under `n` has each key once.
pub open spec fn well_keyed(n: NodeV) -> bool
    decreases n, 0nat,
{
    match n {
        NodeV::Existing { props, children, .. } => keys_unique(props) && keys_unique(children)
            && children_well_keyed(children, 0),
        NodeV::Deleted { .. } => true,
    }
}

/// The nodes of `children[i..]` are well keyed.
pub open spec fn children_well_keyed(children: Seq<(Seq<char>, NodeV)>, i: int) -> bool
    decreases children, children.len() - i,
{
    if 0 <= i < children.len() {
        well_keyed(children[i].1) && children_well_keyed(children, i + 1)
    } else {
        true
    }
}

proof fn lemma_children_well_keyed(children: Seq<(Seq<char>, NodeV)>, i: int)
    requires
        0 <= i,
        forall|j: int| i <= j < children.len() ==> #[trigger] well_keyed(children[j].1),
    ensures
        children_well_keyed(children, i),
    decreases children.len() - i,
{
    if i < children.len() {
        lemma_children_well_keyed(children, i + 1);
        assert(well_keyed(children[i].1));
    }
}

/// Every node of `ns` is well keyed.
pub open spec fn all_well_keyed(ns: Seq<NodeV>) -> bool {
    forall|i: int| 0 <= i < ns.len() ==> #[trigger] well_keyed(ns[i])
}

proof fn lemma_child_entries_from(ns: Seq<NodeV>)
    ensures
        forall|i: int|
            0 <= i < child_entries_of(ns).len() ==> exists|j: int|
                0 <= j < ns.len() && #[trigger] child_entries_of(ns)[i].1 == ns[j],
    decreases ns.len(),
{
    if ns.len() > 0 {
        let init = ns.drop_last();
        lemma_child_entries_from(init);
        let e = child_entries_of(init);
        lemma_find_key(e, ns.last().name().text());
        let r = child_entries_of(ns);
        assert forall|i: int| 0 <= i < r.len() implies exists|j: int|
            0 <= j < ns.len() && #[trigger] r[i].1 == ns[j] by {
            if r[i].1 == ns.last() {
                assert(r[i].1 == ns[ns.len() - 1]);
            } else {
                assert(r[i] == e[i]);
                let j = choose|j: int| 0 <= j < init.len() && e[i].1 == init[j];
                assert(init[j] == ns[j]);
            }
        }
    }
}

proof fn lemma_make_node_well_keyed(
    name: NodeNameV,
    ps: Seq<PropertyV>,
    ns: Seq<NodeV>,
    labels: Seq<Seq<char>>,
    offset: usize,
)
    requires
        all_well_keyed(ns),
    ensures
        well_keyed(make_node(name, ps, ns, labels, offset)),
{
    lemma_make_node_keys_unique(name, ps, ns, labels, offset);
    lemma_child_entries_from(ns);
    let ch = child_entries_of(ns);
    assert forall|i: int| 0 <= i < ch.len() implies #[trigger] well_keyed(ch[i].1) by {
        let j = choose|j: int| 0 <= j < ns.len() && ch[i].1 == ns[j];
        assert(well_keyed(ns[j]));
    }
    lemma_children_well_keyed(ch, 0);
}

proof fn lemma_block_well_keyed(s: Seq<u8>, p: nat, ilen: nat)
    ensures
        block(s, p, ilen) matches Some((_, ns, _)) ==> all_well_keyed(ns),
    decreases s.len() - p, 0nat,
{
    let a = eat_junk(s, p);
    lemma_eat_junk(s, p);
    if at(s, a, '{' as u8) {
        lemma_contents_well_keyed(s, a + 1, ilen);
    }
}

proof fn lemma_contents_well_keyed(s: Seq<u8>, p: nat, ilen: nat)
    ensures
        contents(s, p, ilen) matches Some((_, ns, _)) ==> all_well_keyed(ns),
    decreases s.len() - p, 3nat,
{
    lemma_item_well_keyed(s, p, ilen);
    if let Some((it, q)) = item(s, p, ilen) {
        if p < q && q <= s.len() {
            lemma_contents_well_keyed(s, q, ilen);
            if let Some((ps, ns, e)) = contents(s, q, ilen) {
                if let ItemV::Node(n) = it {
                    let r = seq![n] + ns;
                    assert forall|i: int| 0 <= i < r.len() implies #[trigger] well_keyed(r[i]) by {
                        if i > 0 {
                            assert(r[i] == ns[i - 1]);
                        }
                    }
                }
            }
        }
    } else {
        assert(all_well_keyed(Seq::<NodeV>::empty()));
    }
}

proof fn lemma_item_well_keyed(s: Seq<u8>, p0: nat, ilen: nat)
    ensures
        item(s, p0, ilen) matches Some((ItemV::Node(n), _)) ==> well_keyed(n),
    decreases s.len() - p0, 2nat,
{
    let p = eat_junk(s, p0);
    lemma_eat_junk(s, p0);
    lemma_prop_or_node_well_keyed(s, p, ilen);
}

proof fn lemma_prop_or_node_well_keyed(s: Seq<u8>, p: nat, ilen: nat)
    ensures
        prop_or_node(s, p, ilen) matches Some((ItemV::Node(n), _)) ==> well_keyed(n),
    decreases s.len() - p, 1nat,
{
    lemma_labels_any(s, p);
    let (ls, p2) = labels(s, p);
    lemma_eat_junk(s, p2);
    let p3 = eat_junk(s, p2);
    lemma_node_name(s, p3);
    if let Some((name, p4)) = node_name(s, p3) {
        lemma_eat_junk(s, p4);
        let p5 = eat_junk(s, p4);
        if p5 < s.len() && s[p5 as int] == '{' as u8 {
            lemma_block_well_keyed(s, p5, ilen);
            if let Some((ps, ns, q)) = block(s, p5, ilen) {
                lemma_make_node_well_keyed(
                    NodeNameV::Full(name),
                    ps,
                    ns,
                    ls,
                    offset_of(s, ilen, p),
                );
            }
        }
    }
}

proof fn lemma_root_node_well_keyed(s: Seq<u8>, p0: nat, ilen: nat)
    ensures
        root_node(s, p0, ilen) matches Some((n, _)) ==> well_keyed(n),
{
    reveal(root_node);
    let p = eat_junk(s, p0);
    if deleted_node(s, p, ilen) is None {
        let (ls, p2) = labels(s, p);
        if let Some((name, p3)) = node_name(s, p2) {
            lemma_block_well_keyed(s, p3, ilen);
            if let Some((ps, ns, q)) = block(s, p3, ilen) {
                lemma_make_node_well_keyed(NodeNameV::Full(name), ps, ns, ls, offset_of(s, ilen, p));
            }
        }
    }
}

proof fn lemma_amend_well_keyed(s: Seq<u8>, p0: nat, ilen: nat)
    ensures
        amend(s, p0, ilen) matches Some((n, _)) ==> well_keyed(n),
{
    reveal(amend);
    let p = eat_junk(s, p0);
    let (ls, p2) = labels(s, p);
    let name = if at(s, p2, '/' as u8) {
        Some((NodeNameV::Full(seq!['/']), p2 + 1))
    } else {
        match reference(s, p2) {
            Some((r, e)) => Some((NodeNameV::Ref(r), e)),
            None => None,
        }
    };
    if let Some((nm, p3)) = name {
        lemma_block_well_keyed(s, p3, ilen);
        if let Some((ps, ns, q)) = block(s, p3, ilen) {
            lemma_make_node_well_keyed(nm, ps, ns, ls, offset_of(s, ilen, p));
        }
    }
}

/// Every node that the parser reads (as an item, as the root or as an
/// amendment, and the root of a whole source), and every node below it,
/// has each property name and each child name once.
pub proof fn lemma_parsed_well_keyed(s: Seq<u8>, p: nat, ilen: nat)
    ensures
        item(s, p, ilen) matches Some((ItemV::Node(n), _)) ==> well_keyed(n),
        root_node(s, p, ilen) matches Some((n, _)) ==> well_keyed(n),
        amend(s, p, ilen) matches Some((n, _)) ==> well_keyed(n),
        dts_source(s) matches Some((t, _, _)) ==> well_keyed(t.root),
{
    lemma_item_well_keyed(s, p, ilen);
    lemma_root_node_well_keyed(s, p, ilen);
    lemma_amend_well_keyed(s, p, ilen);
    reveal(dts_source);
    let p1 = eat_junk(s, 0);
    let p2 = eat_junk(s, p1);
    let p3 = if has_tag(s, p2, tag_dts_v1()) {
        p2 + 9
    } else {
        p1
    };
    let p4 = mem_reserves(s, p3).1;
    lemma_root_node_well_keyed(s, eat_junk(s, p4), s.len());
}

} // verus!
