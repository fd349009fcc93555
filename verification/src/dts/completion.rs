//! Telling a truncated source from a malformed one.
//!
//! A scan over the bytes tracks what is left open at the end: a string, a
//! character literal or a comment, and the braces, cell lists, byte strings
//! and parentheses not yet closed. From that it builds a few ways to finish
//! the source; a source that does not parse as it is, but parses once one of
//! them is appended, ended where more was expected.

use vstd::prelude::*;

verus! {

/// What the scan is inside of.
#[derive(Clone, Copy)]
pub enum ScanMode {
    Code,
    /// Right after a `/` in code.
    Slash,
    Str,
    /// Right after a backslash in a string.
    StrEsc,
    /// Right after the opening quote of a character literal.
    Chr0,
    Chr,
    /// Right after a backslash in a character literal.
    ChrEsc,
    Block,
    /// Right after a `*` in a block comment.
    BlockStar,
    Line,
}

/// The innermost open bracket, 0 when none is open.
pub open spec fn top(stack: Seq<u8>) -> u8 {
    if stack.len() > 0 {
        stack.last()
    } else {
        0
    }
}

/// Inside a cell list or parentheses (where `<` and `>` are operators).
pub open spec fn in_cells(stack: Seq<u8>) -> bool {
    top(stack) == '<' as u8 || top(stack) == '(' as u8
}

/// One byte of code.
pub open spec fn code_step(stack: Seq<u8>, c: u8) -> (ScanMode, Seq<u8>) {
    if c == '/' as u8 {
        (ScanMode::Slash, stack)
    } else if c == '"' as u8 {
        (ScanMode::Str, stack)
    } else if c == '\'' as u8 && in_cells(stack) {
        (ScanMode::Chr0, stack)
    } else if c == '{' as u8 || ((c == '<' as u8 || c == '[' as u8) && !in_cells(stack)) || (c
        == '(' as u8 && in_cells(stack)) {
        (ScanMode::Code, stack.push(c))
    } else if (c == '}' as u8 && top(stack) == '{' as u8) || (c == '>' as u8 && top(stack) == '<' as u8)
        || (c == ']' as u8 && top(stack) == '[' as u8) || (c == ')' as u8 && top(stack) == '(' as u8) {
        (ScanMode::Code, stack.drop_last())
    } else {
        (ScanMode::Code, stack)
    }
}

/// One byte in any mode.
pub open spec fn scan_step(mode: ScanMode, stack: Seq<u8>, c: u8) -> (ScanMode, Seq<u8>) {
    match mode {
        ScanMode::Code => code_step(stack, c),
        ScanMode::Slash => if c == '*' as u8 {
            (ScanMode::Block, stack)
        } else if c == '/' as u8 {
            (ScanMode::Line, stack)
        } else {
            code_step(stack, c)
        },
        ScanMode::Str => if c == '\\' as u8 {
            (ScanMode::StrEsc, stack)
        } else if c == '"' as u8 {
            (ScanMode::Code, stack)
        } else {
            (ScanMode::Str, stack)
        },
        ScanMode::StrEsc => (ScanMode::Str, stack),
        ScanMode::Chr0 => if c == '\\' as u8 {
            (ScanMode::ChrEsc, stack)
        } else {
            (ScanMode::Chr, stack)
        },
        ScanMode::Chr => if c == '\'' as u8 {
            (ScanMode::Code, stack)
        } else {
            (ScanMode::Chr, stack)
        },
        ScanMode::ChrEsc => (ScanMode::Chr, stack),
        ScanMode::Block => if c == '*' as u8 {
            (ScanMode::BlockStar, stack)
        } else {
            (ScanMode::Block, stack)
        },
        ScanMode::BlockStar => if c == '/' as u8 {
            (ScanMode::Code, stack)
        } else if c == '*' as u8 {
            (ScanMode::BlockStar, stack)
        } else {
            (ScanMode::Block, stack)
        },
        ScanMode::Line => if c == '\n' as u8 {
            (ScanMode::Code, stack)
        } else {
            (ScanMode::Line, stack)
        },
    }
}

/// The scan of `s` from the start.
pub open spec fn scan(s: Seq<u8>) -> (ScanMode, Seq<u8>)
    decreases s.len(),
{
    if s.len() == 0 {
        (ScanMode::Code, Seq::empty())
    } else {
        let (m, st) = scan(s.drop_last());
        scan_step(m, st, s.last())
    }
}

/// What closes the string, literal or comment the scan ended in.
pub open spec fn mode_closer(m: ScanMode) -> Seq<u8> {
    match m {
        ScanMode::Str => seq!['"' as u8],
        ScanMode::StrEsc => seq!['n' as u8, '"' as u8],
        ScanMode::Chr0 => seq!['a' as u8, '\'' as u8],
        ScanMode::Chr => seq!['\'' as u8],
        ScanMode::ChrEsc => seq!['n' as u8, '\'' as u8],
        ScanMode::Block => seq!['*' as u8, '/' as u8],
        ScanMode::BlockStar => seq!['/' as u8],
        ScanMode::Line => seq!['\n' as u8],
        _ => Seq::empty(),
    }
}

/// The closers of the brackets open inside the innermost brace (cell
/// lists, byte strings, parentheses), innermost first, and the number of
/// open braces below them.
pub open spec fn value_closers(stack: Seq<u8>) -> (Seq<u8>, nat)
    decreases stack.len(),
{
    if stack.len() == 0 {
        (Seq::empty(), 0)
    } else if stack.last() == '{' as u8 {
        (Seq::empty(), braces(stack))
    } else {
        let c = if stack.last() == '(' as u8 {
            ')' as u8
        } else if stack.last() == '<' as u8 {
            '>' as u8
        } else {
            ']' as u8
        };
        let (rest, n) = value_closers(stack.drop_last());
        (seq![c] + rest, n)
    }
}

/// The number of open braces on `stack`.
pub open spec fn braces(stack: Seq<u8>) -> nat
    decreases stack.len(),
{
    if stack.len() == 0 {
        0
    } else {
        braces(stack.drop_last()) + if stack.last() == '{' as u8 {
            1nat
        } else {
            0nat
        }
    }
}

/// `};` repeated `n` times.
pub open spec fn brace_closers(n: nat) -> Seq<u8>
    decreases n,
{
    if n == 0 {
        Seq::empty()
    } else {
        brace_closers((n - 1) as nat) + seq!['}' as u8, ';' as u8]
    }
}

/// The number of ways `completion` tries.
pub open spec fn n_completions() -> int {
    5
}

/// The `k`-th way to finish `s`: close what the scan left open, then
/// finish the statement with `;`, with nothing, with an empty cell list, with
/// an empty body, or (after the braces) add an empty root node.
#[verifier::opaque]
pub open spec fn completion(s: Seq<u8>, k: int) -> Seq<u8> {
    let (m, st) = scan(s);
    let (v, n) = value_closers(st);
    let head = mode_closer(m) + v;
    let b = brace_closers(n);
    if k == 0 {
        head + seq![';' as u8] + b
    } else if k == 1 {
        head + b
    } else if k == 2 {
        head + seq!['<' as u8, '>' as u8, ';' as u8] + b
    } else if k == 3 {
        head + seq![' ' as u8, '{' as u8, '}' as u8, ';' as u8] + b
    } else {
        head + b + seq!['/' as u8, ' ' as u8, '{' as u8, '}' as u8, ';' as u8]
    }
}

fn top_of(stack: &Vec<u8>) -> (r: u8)
    ensures
        r == top(stack@),
{
    if stack.len() > 0 {
        stack[stack.len() - 1]
    } else {
        0
    }
}

fn code_step_exec(stack: &mut Vec<u8>, c: u8) -> (m: ScanMode)
    ensures
        (m, final(stack)@) == code_step(old(stack)@, c),
{
    let t = top_of(stack);
    let cells = t == '<' as u8 || t == '(' as u8;
    if c == '/' as u8 {
        ScanMode::Slash
    } else if c == '"' as u8 {
        ScanMode::Str
    } else if c == '\'' as u8 && cells {
        ScanMode::Chr0
    } else if c == '{' as u8 || ((c == '<' as u8 || c == '[' as u8) && !cells) || (c == '(' as u8
        && cells) {
        stack.push(c);
        ScanMode::Code
    } else if (c == '}' as u8 && t == '{' as u8) || (c == '>' as u8 && t == '<' as u8) || (c
        == ']' as u8 && t == '[' as u8) || (c == ')' as u8 && t == '(' as u8) {
        stack.pop();
        ScanMode::Code
    } else {
        ScanMode::Code
    }
}

fn scan_step_exec(mode: ScanMode, stack: &mut Vec<u8>, c: u8) -> (m: ScanMode)
    ensures
        (m, final(stack)@) == scan_step(mode, old(stack)@, c),
{
    match mode {
        ScanMode::Code => code_step_exec(stack, c),
        ScanMode::Slash => if c == '*' as u8 {
            ScanMode::Block
        } else if c == '/' as u8 {
            ScanMode::Line
        } else {
            code_step_exec(stack, c)
        },
        ScanMode::Str => if c == '\\' as u8 {
            ScanMode::StrEsc
        } else if c == '"' as u8 {
            ScanMode::Code
        } else {
            ScanMode::Str
        },
        ScanMode::StrEsc => ScanMode::Str,
        ScanMode::Chr0 => if c == '\\' as u8 {
            ScanMode::ChrEsc
        } else {
            ScanMode::Chr
        },
        ScanMode::Chr => if c == '\'' as u8 {
            ScanMode::Code
        } else {
            ScanMode::Chr
        },
        ScanMode::ChrEsc => ScanMode::Chr,
        ScanMode::Block => if c == '*' as u8 {
            ScanMode::BlockStar
        } else {
            ScanMode::Block
        },
        ScanMode::BlockStar => if c == '/' as u8 {
            ScanMode::Code
        } else if c == '*' as u8 {
            ScanMode::BlockStar
        } else {
            ScanMode::Block
        },
        ScanMode::Line => if c == '\n' as u8 {
            ScanMode::Code
        } else {
            ScanMode::Line
        },
    }
}

/// Scans `s` (see `scan`).
pub fn scan_source(s: &[u8]) -> (r: (ScanMode, Vec<u8>))
    ensures
        (r.0, r.1@) == scan(s@),
{
    let mut mode = ScanMode::Code;
    let mut stack: Vec<u8> = Vec::new();
    let mut i: usize = 0;
    proof {
        assert(s@.subrange(0, 0) =~= Seq::<u8>::empty());
        assert(stack@ =~= Seq::<u8>::empty());
    }
    while i < s.len()
        invariant
            i <= s.len(),
            (mode, stack@) == scan(s@.subrange(0, i as int)),
        decreases s.len() - i,
    {
        proof {
            assert(s@.subrange(0, i + 1).drop_last() =~= s@.subrange(0, i as int));
        }
        mode = scan_step_exec(mode, &mut stack, s[i]);
        i = i + 1;
    }
    proof {
        assert(s@.subrange(0, s.len() as int) =~= s@);
    }
    (mode, stack)
}

fn push_all(out: &mut Vec<u8>, t: &[u8])
    ensures
        final(out)@ == old(out)@ + t@,
{
    let mut i: usize = 0;
    while i < t.len()
        invariant
            i <= t.len(),
            out@ == old(out)@ + t@.subrange(0, i as int),
        decreases t.len() - i,
    {
        out.push(t[i]);
        proof {
            assert(t@.subrange(0, i + 1) =~= t@.subrange(0, i as int).push(t@[i as int]));
            assert(out@ =~= old(out)@ + t@.subrange(0, i + 1));
        }
        i = i + 1;
    }
    proof {
        assert(t@.subrange(0, t.len() as int) =~= t@);
    }
}

fn mode_closer_exec(m: ScanMode, out: &mut Vec<u8>)
    ensures
        final(out)@ == old(out)@ + mode_closer(m),
{
    match m {
        ScanMode::Str => {
            let t: [u8; 1] = ['"' as u8];
            push_all(out, &t);
        },
        ScanMode::StrEsc => {
            let t: [u8; 2] = ['n' as u8, '"' as u8];
            push_all(out, &t);
        },
        ScanMode::Chr0 => {
            let t: [u8; 2] = ['a' as u8, '\'' as u8];
            push_all(out, &t);
        },
        ScanMode::Chr => {
            let t: [u8; 1] = ['\'' as u8];
            push_all(out, &t);
        },
        ScanMode::ChrEsc => {
            let t: [u8; 2] = ['n' as u8, '\'' as u8];
            push_all(out, &t);
        },
        ScanMode::Block => {
            let t: [u8; 2] = ['*' as u8, '/' as u8];
            push_all(out, &t);
        },
        ScanMode::BlockStar => {
            let t: [u8; 1] = ['/' as u8];
            push_all(out, &t);
        },
        ScanMode::Line => {
            let t: [u8; 1] = ['\n' as u8];
            push_all(out, &t);
        },
        _ => {
            proof {
                assert(out@ =~= old(out)@ + Seq::<u8>::empty());
            }
        },
    }
}

/// Appends the closers of the brackets inside the innermost brace and
/// returns the number of open braces below them.
fn value_closers_exec(stack: &Vec<u8>, out: &mut Vec<u8>) -> (n: usize)
    ensures
        final(out)@ == old(out)@ + value_closers(stack@).0,
        n == value_closers(stack@).1,
{
    let mut i = stack.len();
    proof {
        assert(stack@.subrange(0, i as int) =~= stack@);
    }
    while i > 0 && stack[i - 1] != '{' as u8
        invariant
            i <= stack.len(),
            value_closers(stack@) == (
                out@.subrange(old(out)@.len() as int, out@.len() as int) + value_closers(
                    stack@.subrange(0, i as int),
                ).0,
                value_closers(stack@.subrange(0, i as int)).1,
            ),
            old(out)@ == out@.subrange(0, old(out)@.len() as int),
            out@.len() >= old(out)@.len(),
        decreases i,
    {
        let o = stack[i - 1];
        let c = if o == '(' as u8 {
            ')' as u8
        } else if o == '<' as u8 {
            '>' as u8
        } else {
            ']' as u8
        };
        let ghost before = out@;
        out.push(c);
        proof {
            let sub = stack@.subrange(0, i as int);
            assert(sub.drop_last() =~= stack@.subrange(0, i - 1));
            assert(sub.last() == o);
            let d = value_closers(stack@.subrange(0, i - 1)).0;
            let ol = old(out)@.len() as int;
            assert(before.subrange(ol, before.len() as int) + (seq![c] + d) =~= out@.subrange(
                ol,
                out@.len() as int,
            ) + d);
            assert(old(out)@ =~= out@.subrange(0, ol));
        }
        i = i - 1;
    }
    // Count the open braces left.
    let mut n: usize = 0;
    let mut j: usize = 0;
    proof {
        assert(stack@.subrange(0, 0) =~= Seq::<u8>::empty());
        lemma_braces_bound(stack@.subrange(0, i as int));
    }
    while j < i
        invariant
            j <= i <= stack.len(),
            n == braces(stack@.subrange(0, j as int)),
            braces(stack@.subrange(0, i as int)) <= i,
        decreases i - j,
    {
        proof {
            assert(stack@.subrange(0, j + 1).drop_last() =~= stack@.subrange(0, j as int));
            lemma_braces_bound(stack@.subrange(0, j + 1));
        }
        if stack[j] == '{' as u8 {
            n = n + 1;
        }
        j = j + 1;
    }
    proof {
        let sub = stack@.subrange(0, i as int);
        let ol = old(out)@.len() as int;
        if i > 0 {
            assert(sub.last() == '{' as u8);
        }
        assert(value_closers(sub) == (Seq::<u8>::empty(), braces(sub)));
        assert(out@ =~= old(out)@ + out@.subrange(ol, out@.len() as int));
        assert(out@.subrange(ol, out@.len() as int) + Seq::<u8>::empty() =~= out@.subrange(
            ol,
            out@.len() as int,
        ));
    }
    n
}

proof fn lemma_braces_bound(stack: Seq<u8>)
    ensures
        braces(stack) <= stack.len(),
    decreases stack.len(),
{
    if stack.len() > 0 {
        lemma_braces_bound(stack.drop_last());
    }
}

/// The `k`-th way to finish `s` (see `completion`), appended to a copy of
/// `s`.
pub fn completed(s: &[u8], k: usize) -> (r: Vec<u8>)
    requires
        k < 5,
    ensures
        r@ == s@ + completion(s@, k as int),
{
    let (m, stack) = scan_source(s);
    let mut out: Vec<u8> = Vec::new();
    push_all(&mut out, s);
    proof {
        assert(out@ =~= s@);
    }
    mode_closer_exec(m, &mut out);
    let n = value_closers_exec(&stack, &mut out);
    let ghost head = mode_closer(m) + value_closers(stack@).0;
    proof {
        assert(out@ =~= s@ + head);
    }
    if k == 0 {
        out.push(';' as u8);
    } else if k == 2 {
        let t: [u8; 3] = ['<' as u8, '>' as u8, ';' as u8];
        push_all(&mut out, &t);
    } else if k == 3 {
        let t: [u8; 4] = [' ' as u8, '{' as u8, '}' as u8, ';' as u8];
        push_all(&mut out, &t);
    }
    let ghost mid = out@;
    let mut i: usize = 0;
    proof {
        assert(brace_closers(0) =~= Seq::<u8>::empty());
        assert(out@ =~= mid + brace_closers(0));
    }
    while i < n
        invariant
            i <= n,
            out@ == mid + brace_closers(i as nat),
        decreases n - i,
    {
        out.push('}' as u8);
        out.push(';' as u8);
        proof {
            assert(brace_closers((i + 1) as nat) == brace_closers(i as nat) + seq!['}' as u8, ';' as u8]);
            assert(out@ =~= mid + brace_closers((i + 1) as nat));
        }
        i = i + 1;
    }
    if k == 4 {
        let t: [u8; 5] = ['/' as u8, ' ' as u8, '{' as u8, '}' as u8, ';' as u8];
        push_all(&mut out, &t);
    }
    proof {
        reveal(completion);
        let b = brace_closers(n as nat);
        if k == 0 {
            assert(out@ =~= s@ + (head + seq![';' as u8] + b));
        } else if k == 1 {
            assert(out@ =~= s@ + (head + b));
        } else if k == 2 {
            assert(out@ =~= s@ + (head + seq!['<' as u8, '>' as u8, ';' as u8] + b));
        } else if k == 3 {
            assert(out@ =~= s@ + (head + seq![' ' as u8, '{' as u8, '}' as u8, ';' as u8] + b));
        } else {
            assert(out@ =~= s@ + (head + b + seq!['/' as u8, ' ' as u8, '{' as u8, '}' as u8, ';' as u8]));
        }
    }
    out
}

} // verus!
