//! The ICCMA text format of an abstract framework: a header `p af <n>` and one
//! line `<attacker> <target>` per edge, nodes numbered from 1 in framework order.
use vstd::prelude::*;

use crate::framework::{AbstractFramework, UnsatisfiableFramework, check_framework, edges_in_range};

verus! {

pub open spec fn digit(d: nat) -> char {
    if d == 0 { '0' } else if d == 1 { '1' } else if d == 2 { '2' } else if d == 3 { '3' }
    else if d == 4 { '4' } else if d == 5 { '5' } else if d == 6 { '6' } else if d == 7 { '7' }
    else if d == 8 { '8' } else { '9' }
}

/// The decimal notation of `v`, without leading zeros.
pub open spec fn decimal(v: nat) -> Seq<char>
    decreases v,
{
    if v < 10 {
        seq![digit(v)]
    } else {
        decimal(v / 10).push(digit(v % 10))
    }
}

pub open spec fn edge_line(e: (usize, usize)) -> Seq<char> {
    decimal((e.0 + 1) as nat) + seq![' '] + decimal((e.1 + 1) as nat) + seq!['\n']
}

pub open spec fn edge_lines(edges: Seq<(usize, usize)>) -> Seq<char>
    decreases edges.len(),
{
    if edges.len() == 0 {
        Seq::empty()
    } else {
        edge_lines(edges.drop_last()) + edge_line(edges.last())
    }
}

pub open spec fn header(n: nat) -> Seq<char> {
    seq!['p', ' ', 'a', 'f', ' '] + decimal(n) + seq!['\n']
}

pub open spec fn iccma_text(af: AbstractFramework) -> Seq<char> {
    header(af.n as nat) + edge_lines(af.edges@)
}

pub open spec fn newlines(s: Seq<char>) -> nat
    decreases s.len(),
{
    if s.len() == 0 {
        0
    } else {
        newlines(s.drop_last()) + if s.last() == '\n' { 1nat } else { 0nat }
    }
}

fn digit_char(d: usize) -> (r: char)
    requires
        d < 10,
    ensures
        r == digit(d as nat),
{
    if d == 0 { '0' } else if d == 1 { '1' } else if d == 2 { '2' } else if d == 3 { '3' }
    else if d == 4 { '4' } else if d == 5 { '5' } else if d == 6 { '6' } else if d == 7 { '7' }
    else if d == 8 { '8' } else { '9' }
}

/// Appends the decimal notation of `v` to `out`.
fn push_decimal(v: usize, out: &mut Vec<char>)
    ensures
        final(out)@ == old(out)@ + decimal(v as nat),
    decreases v,
{
    if v < 10 {
        out.push(digit_char(v));
        assert(decimal(v as nat) =~= seq![digit(v as nat)]);
    } else {
        push_decimal(v / 10, out);
        out.push(digit_char(v % 10));
    }
}

fn push_str(s: &str, out: &mut Vec<char>)
    requires
        s.is_ascii(),
    ensures
        final(out)@ == old(out)@ + s@,
{
    let mut i: usize = 0;
    let ghost start = out@;
    let n = s.unicode_len();
    while i < n
        invariant
            s.is_ascii(),
            n == s@.len(),
            i <= n,
            out@ == start + s@.subrange(0, i as int),
        decreases n - i,
    {
        out.push(s.get_char(i));
        assert(s@.subrange(0, i as int + 1) =~= s@.subrange(0, i as int).push(s@[i as int]));
        i += 1;
    }
    assert(s@.subrange(0, n as int) =~= s@);
}

/// Relies on std's `FromIterator<&char>` for `String`: the string holds the
/// characters in order.
#[verifier::external_body]
fn chars_to_string(v: &Vec<char>) -> (r: String)
    ensures
        r@ == v@,
{
    v.iter().collect()
}

/// The ICCMA text of a framework. Fails only on a malformed framework.
pub fn to_iccma(af: &AbstractFramework) -> (r: Result<String, UnsatisfiableFramework>)
    ensures
        r is Ok <==> edges_in_range(*af),
        r matches Ok(s) ==> s@ == iccma_text(*af),
{
    if check_framework(af).is_err() {
        return Err(UnsatisfiableFramework);
    }
    let mut out: Vec<char> = Vec::new();
    let p = "p af ";
    proof {
        reveal_strlit("p af ");
    }
    push_str(p, &mut out);
    push_decimal(af.n, &mut out);
    out.push('\n');
    assert(out@ =~= header(af.n as nat));
    let mut i: usize = 0;
    while i < af.edges.len()
        invariant
            edges_in_range(*af),
            i <= af.edges@.len(),
            out@ == header(af.n as nat) + edge_lines(af.edges@.subrange(0, i as int)),
        decreases af.edges@.len() - i,
    {
        let (x, y) = af.edges[i];
        let ghost before = out@;
        assert(x < af.n && y < af.n);
        push_decimal(x + 1, &mut out);
        out.push(' ');
        push_decimal(y + 1, &mut out);
        out.push('\n');
        let ghost sub = af.edges@.subrange(0, i as int + 1);
        assert(sub.drop_last() =~= af.edges@.subrange(0, i as int));
        assert(sub.last() == (x, y));
        assert(out@ =~= before + edge_line((x, y)));
        i += 1;
    }
    assert(af.edges@.subrange(0, af.edges@.len() as int) =~= af.edges@);
    Ok(chars_to_string(&out))
}

proof fn lemma_newlines_concat(a: Seq<char>, b: Seq<char>)
    ensures
        newlines(a + b) == newlines(a) + newlines(b),
    decreases b.len(),
{
    if b.len() == 0 {
        assert(a + b =~= a);
    } else {
        assert((a + b).drop_last() =~= a + b.drop_last());
        lemma_newlines_concat(a, b.drop_last());
    }
}

proof fn lemma_newlines_single(c: char)
    ensures
        newlines(seq![c]) == if c == '\n' { 1nat } else { 0nat },
{
    assert(seq![c].drop_last() =~= Seq::<char>::empty());
    assert(seq![c].last() == c);
    assert(newlines(Seq::<char>::empty()) == 0);
}

proof fn lemma_decimal_no_newline(v: nat)
    ensures
        newlines(decimal(v)) == 0,
    decreases v,
{
    if v < 10 {
        lemma_newlines_single(digit(v));
    } else {
        lemma_decimal_no_newline(v / 10);
        assert(decimal(v).drop_last() =~= decimal(v / 10));
        assert(decimal(v).last() == digit(v % 10));
    }
}

proof fn lemma_edge_lines_count(edges: Seq<(usize, usize)>)
    ensures
        newlines(edge_lines(edges)) == edges.len(),
    decreases edges.len(),
{
    if edges.len() > 0 {
        let e = edges.last();
        lemma_edge_lines_count(edges.drop_last());
        lemma_decimal_no_newline((e.0 + 1) as nat);
        lemma_decimal_no_newline((e.1 + 1) as nat);
        lemma_newlines_concat(decimal((e.0 + 1) as nat), seq![' ']);
        lemma_newlines_single(' ');
        lemma_newlines_single('\n');
        lemma_newlines_concat(decimal((e.0 + 1) as nat) + seq![' '], decimal((e.1 + 1) as nat));
        lemma_newlines_concat(decimal((e.0 + 1) as nat) + seq![' '] + decimal((e.1 + 1) as nat), seq!['\n']);
        lemma_newlines_concat(edge_lines(edges.drop_last()), edge_line(e));
    }
}

/// The ICCMA text of a framework with `n` nodes and `m` edges is the header
/// declaring `n` followed by exactly `m` lines, each naming two nodes within
/// `1..=n`: the text holds `m + 1` line ends in all.
pub proof fn lemma_iccma_shape(af: AbstractFramework)
    requires
        edges_in_range(af),
    ensures
        iccma_text(af) == header(af.n as nat) + edge_lines(af.edges@),
        newlines(header(af.n as nat)) == 1,
        newlines(edge_lines(af.edges@)) == af.edges@.len(),
        newlines(iccma_text(af)) == af.edges@.len() + 1,
        forall|i: int| 0 <= i < af.edges@.len() ==> 1 <= (#[trigger] af.edges@[i]).0 + 1 <= af.n
            && 1 <= af.edges@[i].1 + 1 <= af.n,
{
    let p = seq!['p', ' ', 'a', 'f', ' '];
    assert(newlines(p) == 0) by {
        reveal_with_fuel(newlines, 6);
    }
    lemma_decimal_no_newline(af.n as nat);
    lemma_newlines_concat(p, decimal(af.n as nat));
    lemma_newlines_single('\n');
    lemma_newlines_concat(p + decimal(af.n as nat), seq!['\n']);
    lemma_edge_lines_count(af.edges@);
    lemma_newlines_concat(header(af.n as nat), edge_lines(af.edges@));
}

} // verus!
