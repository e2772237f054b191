use vstd::prelude::*;
use vstd::string::StringSliceAdditionalSpecFns;

use crate::error::GraphError;
use crate::plane_graph::PlaneGraph;

verus! {

/// Bytes that separate the two numbers of a line: space, tab, vertical tab,
/// form feed, carriage return.
pub open spec fn is_space(c: u8) -> bool {
    c == 32u8 || c == 9u8 || c == 11u8 || c == 12u8 || c == 13u8
}

pub open spec fn is_digit(c: u8) -> bool {
    48u8 <= c && c <= 57u8
}

/// The pieces of `b` between newline bytes: `k` newlines give `k + 1` pieces.
pub open spec fn split_lines(b: Seq<u8>) -> Seq<Seq<u8>>
    decreases b.len(),
{
    if b.len() == 0 {
        seq![Seq::<u8>::empty()]
    } else {
        let prev = split_lines(b.drop_last());
        if b.last() == 10u8 {
            prev.push(Seq::<u8>::empty())
        } else {
            prev.update(prev.len() - 1, prev.last().push(b.last()))
        }
    }
}

/// The maximal runs of non-space bytes of a line, in order.
pub open spec fn tokens(l: Seq<u8>) -> Seq<Seq<u8>>
    decreases l.len(),
{
    if l.len() == 0 {
        Seq::<Seq<u8>>::empty()
    } else {
        let prev = tokens(l.drop_last());
        let c = l.last();
        if is_space(c) {
            prev
        } else if l.len() >= 2 && !is_space(l[l.len() - 2]) {
            prev.update(prev.len() - 1, prev.last().push(c))
        } else {
            prev.push(seq![c])
        }
    }
}

/// The number that a run of decimal digits denotes.
pub open spec fn decimal_value(t: Seq<u8>) -> int
    decreases t.len(),
{
    if t.len() == 0 {
        0
    } else {
        decimal_value(t.drop_last()) * 10 + (t.last() as int - 48)
    }
}

/// A non-empty run of decimal digits whose value fits in a `u32`.
pub open spec fn is_digit_run(t: Seq<u8>) -> bool {
    &&& t.len() > 0
    &&& forall|i: int| 0 <= i < t.len() ==> is_digit(#[trigger] t[i])
    &&& decimal_value(t) <= u32::MAX
}

/// A token without its leading `+`, if it has one.
pub open spec fn unsigned_digits(t: Seq<u8>) -> Seq<u8> {
    if t.len() > 0 && t[0] == 43u8 {
        t.drop_first()
    } else {
        t
    }
}

/// A token that reads as a `u32`: an optional `+`, then a digit run that fits.
pub open spec fn is_u32_token(t: Seq<u8>) -> bool {
    is_digit_run(unsigned_digits(t))
}

/// The number that a `u32` token denotes.
pub open spec fn token_value(t: Seq<u8>) -> int {
    decimal_value(unsigned_digits(t))
}

/// An empty line; such lines are skipped. A line of whitespace is not blank.
pub open spec fn is_blank(l: Seq<u8>) -> bool {
    l.len() == 0
}

/// The pair that a line holds: exactly two tokens, each an unsigned 32-bit integer.
pub open spec fn pair_of_line(l: Seq<u8>) -> Option<(u32, u32)> {
    let ts = tokens(l);
    if ts.len() == 2 && is_u32_token(ts[0]) && is_u32_token(ts[1]) {
        Some((token_value(ts[0]) as u32, token_value(ts[1]) as u32))
    } else {
        None
    }
}

/// The pairs of the non-blank lines, in order; `None` if any non-blank line is malformed.
pub open spec fn pairs_of_lines(ls: Seq<Seq<u8>>) -> Option<Seq<(u32, u32)>>
    decreases ls.len(),
{
    if ls.len() == 0 {
        Some(Seq::<(u32, u32)>::empty())
    } else {
        match pairs_of_lines(ls.drop_last()) {
            None => None,
            Some(p) => if is_blank(ls.last()) {
                Some(p)
            } else {
                match pair_of_line(ls.last()) {
                    Some(e) => Some(p.push(e)),
                    None => None,
                }
            },
        }
    }
}

/// The lines that carry data: all of them, or all but the first (a header).
pub open spec fn data_lines(ls: Seq<Seq<u8>>, skip_header: bool) -> Seq<Seq<u8>> {
    if skip_header && ls.len() > 0 {
        ls.drop_first()
    } else {
        ls
    }
}

/// What reading the text `b` as lines of pairs gives, the first line skipped if asked.
pub open spec fn parse_pairs(b: Seq<u8>, skip_header: bool) -> Option<Seq<(u32, u32)>> {
    pairs_of_lines(data_lines(split_lines(b), skip_header))
}

/// Whether `failed` and `out` hold the outcome `expect`.
pub open spec fn outcome_is(failed: bool, out: Seq<(u32, u32)>, expect: Option<Seq<(u32, u32)>>) -> bool {
    match expect {
        Some(p) => !failed && out == p,
        None => failed,
    }
}

pub proof fn lemma_split_lines_nonempty(b: Seq<u8>)
    ensures
        split_lines(b).len() >= 1,
    decreases b.len(),
{
    if b.len() > 0 {
        lemma_split_lines_nonempty(b.drop_last());
    }
}

proof fn lemma_tokens_nonempty(l: Seq<u8>)
    requires
        l.len() > 0,
        !is_space(l.last()),
    ensures
        tokens(l).len() >= 1,
    decreases l.len(),
{
    if l.len() >= 2 && !is_space(l[l.len() - 2]) {
        lemma_tokens_nonempty(l.drop_last());
    }
}

proof fn lemma_tokens_filled(l: Seq<u8>)
    ensures
        forall|k: int| 0 <= k < tokens(l).len() ==> (#[trigger] tokens(l)[k]).len() > 0,
    decreases l.len(),
{
    if l.len() > 0 {
        let p = l.drop_last();
        lemma_tokens_filled(p);
        let prev = tokens(p);
        let ts = tokens(l);
        if !is_space(l.last()) && l.len() >= 2 && !is_space(l[l.len() - 2]) {
            assert(p.last() == l[l.len() - 2]);
            lemma_tokens_nonempty(p);
            assert forall|k: int| 0 <= k < ts.len() implies (#[trigger] ts[k]).len() > 0 by {
                if k < prev.len() - 1 {
                    assert(ts[k] == prev[k]);
                }
            }
        } else if !is_space(l.last()) {
            assert forall|k: int| 0 <= k < ts.len() implies (#[trigger] ts[k]).len() > 0 by {
                if k < prev.len() {
                    assert(ts[k] == prev[k]);
                }
            }
        }
    }
}

proof fn lemma_token_push(t: Seq<u8>, c: u8)
    requires
        t.len() > 0,
    ensures
        decimal_value(t.push(c)) == decimal_value(t) * 10 + (c as int - 48),
        is_digit_run(t.push(c)) <==> (is_digit_run(t) && is_digit(c) && decimal_value(t) * 10 + (
        c as int - 48) <= u32::MAX),
{
    let s = t.push(c);
    assert(s.drop_last() =~= t);
    assert(s.last() == c);
    if is_digit_run(s) {
        assert forall|i: int| 0 <= i < t.len() implies is_digit(#[trigger] t[i]) by {
            assert(s[i] == t[i]);
        }
        assert(is_digit(s[t.len() as int]));
        lemma_value_nonneg(t);
    }
    if is_digit_run(t) && is_digit(c) && decimal_value(t) * 10 + (c as int - 48) <= u32::MAX {
        assert forall|i: int| 0 <= i < s.len() implies is_digit(#[trigger] s[i]) by {
            if i < t.len() {
                assert(s[i] == t[i]);
            }
        }
    }
}

proof fn lemma_value_nonneg(t: Seq<u8>)
    requires
        forall|i: int| 0 <= i < t.len() ==> is_digit(#[trigger] t[i]),
    ensures
        decimal_value(t) >= 0,
    decreases t.len(),
{
    if t.len() > 0 {
        let p = t.drop_last();
        assert forall|i: int| 0 <= i < p.len() implies is_digit(#[trigger] p[i]) by {
            assert(p[i] == t[i]);
        }
        lemma_value_nonneg(p);
        assert(is_digit(t[t.len() - 1]));
    }
}

proof fn lemma_single_token(c: u8)
    ensures
        decimal_value(seq![c]) == c as int - 48,
        is_digit_run(seq![c]) <==> is_digit(c),
{
    let s = seq![c];
    assert(s.drop_last() =~= Seq::<u8>::empty());
    assert(decimal_value(Seq::<u8>::empty()) == 0);
    if is_digit(c) {
        assert forall|i: int| 0 <= i < s.len() implies is_digit(#[trigger] s[i]) by {}
    }
    if is_digit_run(s) {
        assert(is_digit(s[0]));
    }
}

proof fn lemma_unsigned_push(t: Seq<u8>, c: u8)
    requires
        t.len() > 0,
        t != seq![43u8],
    ensures
        unsigned_digits(t).len() > 0,
        unsigned_digits(t.push(c)) == unsigned_digits(t).push(c),
{
    let s = t.push(c);
    assert(s[0] == t[0]);
    if t[0] == 43u8 {
        if t.len() == 1 {
            assert(t =~= seq![43u8]);
        }
        assert(s.drop_first() =~= t.drop_first().push(c));
    }
}

proof fn lemma_unsigned_single(c: u8)
    ensures
        unsigned_digits(seq![c]) == (if c == 43u8 {
            Seq::<u8>::empty()
        } else {
            seq![c]
        }),
{
    if c == 43u8 {
        assert(seq![c].drop_first() =~= Seq::<u8>::empty());
    }
}

/// What is known of a token that is still being read: whether it reads as a
/// `u32` and as which, and whether it is a lone `+` so far.
spec fn token_matches(ok: bool, val: u64, plus: bool, t: Seq<u8>) -> bool {
    &&& ok == is_u32_token(t)
    &&& ok ==> val == token_value(t)
    &&& plus == (t == seq![43u8])
}

/// The state of a token that starts with the byte `c`.
fn start_token(c: u8) -> (r: (bool, u64, bool))
    requires
        !is_space(c),
    ensures
        token_matches(r.0, r.1, r.2, seq![c]),
{
    proof {
        lemma_unsigned_single(c);
        lemma_single_token(c);
        assert(is_digit_run(Seq::<u8>::empty()) == false);
        if c != 43u8 {
            assert(seq![c] != seq![43u8]) by {
                assert(seq![c][0] != seq![43u8][0]);
            }
        }
    }
    if 48u8 <= c && c <= 57u8 {
        (true, (c - 48u8) as u64, false)
    } else {
        (false, 0, c == 43u8)
    }
}

/// The state of token `t` once the byte `c` is appended to it.
fn extend_token(ok: bool, val: u64, plus: bool, c: u8, Ghost(t): Ghost<Seq<u8>>) -> (r: (
    bool,
    u64,
    bool,
))
    requires
        t.len() > 0,
        token_matches(ok, val, plus, t),
    ensures
        token_matches(r.0, r.1, r.2, t.push(c)),
{
    let ghost s = t.push(c);
    proof {
        if s == seq![43u8] {
            assert(s.len() == 1);
        }
    }
    if plus {
        proof {
            assert(s[0] == 43u8);
            assert(s.drop_first() =~= seq![c]);
            lemma_single_token(c);
        }
        if 48u8 <= c && c <= 57u8 {
            (true, (c - 48u8) as u64, false)
        } else {
            (false, 0, false)
        }
    } else {
        proof {
            lemma_unsigned_push(t, c);
            lemma_token_push(unsigned_digits(t), c);
        }
        if ok && 48u8 <= c && c <= 57u8 {
            let v = val * 10 + (c - 48u8) as u64;
            if v <= 0xffff_ffffu64 {
                (true, v, false)
            } else {
                (false, 0, false)
            }
        } else {
            (false, 0, false)
        }
    }
}

/// What the scan of one line has seen so far: whether it is empty, at most
/// three tokens counted, and the state of the first two.
struct LineScan {
    empty: bool,
    count: usize,
    in_token: bool,
    ok0: bool,
    val0: u64,
    plus0: bool,
    ok1: bool,
    val1: u64,
    plus1: bool,
}

spec fn scan_matches(st: LineScan, cur: Seq<u8>) -> bool {
    let ts = tokens(cur);
    &&& st.empty == (cur.len() == 0)
    &&& st.count as int == if ts.len() >= 3 {
        3
    } else {
        ts.len() as int
    }
    &&& st.in_token == (cur.len() > 0 && !is_space(cur.last()))
    &&& ts.len() >= 1 ==> token_matches(st.ok0, st.val0, st.plus0, ts[0])
    &&& ts.len() >= 2 ==> token_matches(st.ok1, st.val1, st.plus1, ts[1])
}

fn fresh_scan() -> (st: LineScan)
    ensures
        scan_matches(st, Seq::<u8>::empty()),
{
    LineScan {
        empty: true,
        count: 0,
        in_token: false,
        ok0: false,
        val0: 0,
        plus0: false,
        ok1: false,
        val1: 0,
        plus1: false,
    }
}

fn scan_byte(st: &mut LineScan, c: u8, Ghost(cur): Ghost<Seq<u8>>)
    requires
        scan_matches(*old(st), cur),
        c != 10u8,
    ensures
        scan_matches(*final(st), cur.push(c)),
{
    let ghost l = cur.push(c);
    assert(l.drop_last() =~= cur);
    assert(l.last() == c);
    let ghost ts = tokens(cur);
    st.empty = false;
    if c == 32u8 || c == 9u8 || c == 11u8 || c == 12u8 || c == 13u8 {
        st.in_token = false;
    } else if st.in_token {
        assert(l[l.len() - 2] == cur.last());
        proof {
            lemma_tokens_nonempty(cur);
            lemma_tokens_filled(cur);
        }
        let ghost ts2 = tokens(l);
        assert(ts2 == ts.update(ts.len() - 1, ts.last().push(c)));
        if st.count == 1 {
            let (ok, v, p) = extend_token(st.ok0, st.val0, st.plus0, c, Ghost(ts[0]));
            st.ok0 = ok;
            st.val0 = v;
            st.plus0 = p;
        } else if st.count == 2 {
            let (ok, v, p) = extend_token(st.ok1, st.val1, st.plus1, c, Ghost(ts[1]));
            st.ok1 = ok;
            st.val1 = v;
            st.plus1 = p;
        }
    } else {
        let (ok, v, p) = start_token(c);
        if st.count == 0 {
            st.ok0 = ok;
            st.val0 = v;
            st.plus0 = p;
            st.count = 1;
        } else if st.count == 1 {
            st.ok1 = ok;
            st.val1 = v;
            st.plus1 = p;
            st.count = 2;
        } else {
            st.count = 3;
        }
        st.in_token = true;
    }
}

fn end_line(
    st: &LineScan,
    out: &mut Vec<(u32, u32)>,
    failed: &mut bool,
    Ghost(lines): Ghost<Seq<Seq<u8>>>,
    Ghost(cur): Ghost<Seq<u8>>,
)
    requires
        scan_matches(*st, cur),
        outcome_is(*old(failed), old(out)@, pairs_of_lines(lines)),
    ensures
        outcome_is(*final(failed), final(out)@, pairs_of_lines(lines.push(cur))),
{
    proof {
        assert(lines.push(cur).drop_last() =~= lines);
    }
    if *failed {
        return ;
    }
    if st.empty {
    } else if st.count == 2 && st.ok0 && st.ok1 {
        out.push((st.val0 as u32, st.val1 as u32));
    } else {
        *failed = true;
    }
}

proof fn lemma_data_lines_push(ls: Seq<Seq<u8>>, skip_header: bool)
    requires
        ls.len() >= 1,
        !(skip_header && ls.len() == 1),
    ensures
        data_lines(ls, skip_header) == data_lines(ls.drop_last(), skip_header).push(ls.last()),
{
    if skip_header {
        assert(ls.drop_first() =~= ls.drop_last().drop_first().push(ls.last()));
    } else {
        assert(ls =~= ls.drop_last().push(ls.last()));
    }
}

/// Reads `text` as lines of two unsigned integers, the first line skipped if asked.
fn parse_pair_lines(text: &str, skip_header: bool) -> (r: Result<Vec<(u32, u32)>, GraphError>)
    ensures
        match parse_pairs(text.spec_bytes(), skip_header) {
            Some(p) => r is Ok && r->Ok_0@ == p,
            None => r == Err::<Vec<(u32, u32)>, GraphError>(GraphError::Format),
        },
{
    let bytes = text.as_bytes();
    let ghost b = bytes@;
    let mut out: Vec<(u32, u32)> = Vec::new();
    let mut failed = false;
    let mut st = fresh_scan();
    let mut header = skip_header;
    let mut i: usize = 0;
    proof {
        assert(b.subrange(0, 0) =~= Seq::<u8>::empty());
    }
    while i < bytes.len()
        invariant
            b == bytes@,
            b == text.spec_bytes(),
            0 <= i <= b.len(),
            split_lines(b.subrange(0, i as int)).len() >= 1,
            scan_matches(st, split_lines(b.subrange(0, i as int)).last()),
            header == (skip_header && split_lines(b.subrange(0, i as int)).len() == 1),
            outcome_is(
                failed,
                out@,
                pairs_of_lines(data_lines(split_lines(b.subrange(0, i as int)).drop_last(), skip_header)),
            ),
        decreases b.len() - i,
    {
        let c = bytes[i];
        let ghost pre = b.subrange(0, i as int);
        let ghost ls = split_lines(pre);
        proof {
            assert(b.subrange(0, i + 1).drop_last() =~= pre);
            assert(b.subrange(0, i + 1).last() == c);
        }
        if c == 10u8 {
            if header {
                header = false;
            } else {
                proof {
                    lemma_data_lines_push(ls, skip_header);
                }
                end_line(
                    &st,
                    &mut out,
                    &mut failed,
                    Ghost(data_lines(ls.drop_last(), skip_header)),
                    Ghost(ls.last()),
                );
            }
            proof {
                let ls2 = split_lines(b.subrange(0, i + 1));
                assert(ls2.drop_last() =~= ls);
                if skip_header && ls.len() == 1 {
                    assert(data_lines(ls, skip_header) =~= Seq::<Seq<u8>>::empty());
                }
            }
            st = fresh_scan();
        } else {
            scan_byte(&mut st, c, Ghost(ls.last()));
            proof {
                let ls2 = split_lines(b.subrange(0, i + 1));
                assert(ls2.drop_last() =~= ls.drop_last());
            }
        }
        i += 1;
    }
    proof {
        assert(b.subrange(0, b.len() as int) =~= b);
    }
    let ghost ls = split_lines(b);
    if !header {
        proof {
            lemma_data_lines_push(ls, skip_header);
        }
        end_line(
            &st,
            &mut out,
            &mut failed,
            Ghost(data_lines(ls.drop_last(), skip_header)),
            Ghost(ls.last()),
        );
    } else {
        proof {
            assert(data_lines(ls, skip_header) =~= Seq::<Seq<u8>>::empty());
            assert(ls.drop_last() =~= Seq::<Seq<u8>>::empty());
        }
    }
    if failed {
        Err(GraphError::Format)
    } else {
        Ok(out)
    }
}

/// The coordinate pairs that solver output `b` holds, if it is well formed.
pub open spec fn coordinates_of(b: Seq<u8>) -> Option<Seq<(u32, u32)>> {
    parse_pairs(b, false)
}

/// The edges that an edge-list file `b` holds, if it is well formed: its first
/// line is a header and is never read.
pub open spec fn edges_of(b: Seq<u8>) -> Option<Seq<(u32, u32)>> {
    parse_pairs(b, true)
}

/// Reads the embedding solver's output: one `x y` pair per line, blank lines
/// skipped, line `i` giving the position of vertex `i + 1`.
pub fn parse_output(output: &str) -> (r: Result<Vec<(u32, u32)>, GraphError>)
    ensures
        match coordinates_of(output.spec_bytes()) {
            Some(p) => r is Ok && r->Ok_0@ == p,
            None => r == Err::<Vec<(u32, u32)>, GraphError>(GraphError::Format),
        },
{
    parse_pair_lines(output, false)
}

/// Reads an edge list: a header line that is discarded, then one `a b` edge
/// per line, blank lines skipped.
pub fn parse_edges(text: &str) -> (r: Result<Vec<(u32, u32)>, GraphError>)
    ensures
        match edges_of(text.spec_bytes()) {
            Some(p) => r is Ok && r->Ok_0@ == p,
            None => r == Err::<Vec<(u32, u32)>, GraphError>(GraphError::Format),
        },
{
    parse_pair_lines(text, true)
}

/// The decimal digits of `x`, most significant first, with no leading zero.
pub open spec fn decimal_digits(x: nat) -> Seq<u8>
    decreases x,
{
    if x < 10 {
        seq![(48 + x) as u8]
    } else {
        decimal_digits(x / 10).push((48 + x % 10) as u8)
    }
}

/// The line that states a pair in the solver's output format, without its newline.
pub open spec fn pair_line(p: (u32, u32)) -> Seq<u8> {
    decimal_digits(p.0 as nat) + seq![32u8] + decimal_digits(p.1 as nat)
}

/// Solver output for the positions `cs`: one line `x y` for each, in order.
pub open spec fn output_text(cs: Seq<(u32, u32)>) -> Seq<u8>
    decreases cs.len(),
{
    if cs.len() == 0 {
        Seq::<u8>::empty()
    } else {
        output_text(cs.drop_last()) + pair_line(cs.last()) + seq![10u8]
    }
}

proof fn lemma_decimal_digits(x: nat)
    ensures
        decimal_digits(x).len() > 0,
        forall|i: int| 0 <= i < decimal_digits(x).len() ==> is_digit(#[trigger] decimal_digits(x)[i]),
        decimal_value(decimal_digits(x)) == x,
    decreases x,
{
    let d = decimal_digits(x);
    if x < 10 {
        assert(d.drop_last() =~= Seq::<u8>::empty());
        assert(decimal_value(Seq::<u8>::empty()) == 0);
    } else {
        let q = decimal_digits(x / 10);
        lemma_decimal_digits(x / 10);
        assert(d.drop_last() =~= q);
        assert forall|i: int| 0 <= i < d.len() implies is_digit(#[trigger] d[i]) by {
            if i < q.len() {
                assert(d[i] == q[i]);
            }
        }
        assert(x == (x / 10) * 10 + x % 10);
    }
}

proof fn lemma_split_append(p: Seq<u8>, l: Seq<u8>)
    requires
        forall|i: int| 0 <= i < l.len() ==> #[trigger] l[i] != 10u8,
    ensures
        split_lines(p + l) == split_lines(p).update(
            split_lines(p).len() - 1,
            split_lines(p).last() + l,
        ),
    decreases l.len(),
{
    lemma_split_lines_nonempty(p);
    let sp = split_lines(p);
    if l.len() == 0 {
        assert(p + l =~= p);
        assert(sp.last() + l =~= sp.last());
        assert(sp.update(sp.len() - 1, sp.last()) =~= sp);
    } else {
        let l2 = l.drop_last();
        lemma_split_append(p, l2);
        assert((p + l).drop_last() =~= p + l2);
        assert((p + l).last() == l.last());
        assert(l.last() == l[l.len() - 1]);
        assert((sp.last() + l2).push(l.last()) =~= sp.last() + l);
        assert(split_lines(p + l) =~= sp.update(sp.len() - 1, sp.last() + l));
    }
}

/// The lines of `output_text(cs)` before its final newline.
spec fn pair_lines(cs: Seq<(u32, u32)>) -> Seq<Seq<u8>> {
    Seq::new(cs.len(), |i: int| pair_line(cs[i]))
}

proof fn lemma_pair_line_no_newline(p: (u32, u32))
    ensures
        forall|i: int| 0 <= i < pair_line(p).len() ==> #[trigger] pair_line(p)[i] != 10u8,
{
    let a = decimal_digits(p.0 as nat);
    let b = decimal_digits(p.1 as nat);
    lemma_decimal_digits(p.0 as nat);
    lemma_decimal_digits(p.1 as nat);
    let q = a + seq![32u8];
    let l = q + b;
    assert forall|i: int| 0 <= i < l.len() implies #[trigger] l[i] != 10u8 by {
        if i < a.len() {
            assert(l[i] == a[i]);
            assert(is_digit(a[i]));
        } else if i > a.len() {
            assert(l[i] == b[i - q.len()]);
            assert(is_digit(b[i - q.len()]));
        } else {
            assert(l[i] == q[i]);
        }
    }
}

proof fn lemma_pair_line_tokens(p: (u32, u32))
    ensures
        tokens(pair_line(p)) == seq![decimal_digits(p.0 as nat), decimal_digits(p.1 as nat)],
{
    let a = decimal_digits(p.0 as nat);
    let b = decimal_digits(p.1 as nat);
    lemma_decimal_digits(p.0 as nat);
    lemma_decimal_digits(p.1 as nat);
    let e = Seq::<u8>::empty();
    lemma_tokens_append(e, a);
    assert(e + a =~= a);
    assert(tokens(e) =~= Seq::<Seq<u8>>::empty());
    assert(tokens(a) =~= seq![a]);
    let q = a + seq![32u8];
    assert(q.drop_last() =~= a);
    assert(q.last() == 32u8);
    assert(tokens(q) == tokens(a));
    lemma_tokens_append(q, b);
    assert(tokens(q + b) =~= seq![a, b]);
}

proof fn lemma_pair_line_facts(p: (u32, u32))
    ensures
        forall|i: int| 0 <= i < pair_line(p).len() ==> #[trigger] pair_line(p)[i] != 10u8,
        tokens(pair_line(p)) == seq![decimal_digits(p.0 as nat), decimal_digits(p.1 as nat)],
        pair_of_line(pair_line(p)) == Some(p),
{
    lemma_pair_line_no_newline(p);
    lemma_pair_line_tokens(p);
    lemma_decimal_digits(p.0 as nat);
    lemma_decimal_digits(p.1 as nat);
}

proof fn lemma_tokens_append(q: Seq<u8>, t: Seq<u8>)
    requires
        q.len() == 0 || is_space(q.last()),
        t.len() > 0,
        forall|i: int| 0 <= i < t.len() ==> is_digit(#[trigger] t[i]),
    ensures
        tokens(q + t) == tokens(q).push(t),
    decreases t.len(),
{
    let l = q + t;
    assert(l.drop_last() =~= q + t.drop_last());
    assert(l.last() == t[t.len() - 1]);
    if t.len() == 1 {
        assert(q + t.drop_last() =~= q);
        if l.len() >= 2 {
            assert(l[l.len() - 2] == q.last());
        }
        assert(seq![t[0]] =~= t);
    } else {
        let t2 = t.drop_last();
        assert forall|i: int| 0 <= i < t2.len() implies is_digit(#[trigger] t2[i]) by {
            assert(t2[i] == t[i]);
        }
        lemma_tokens_append(q, t2);
        assert(l[l.len() - 2] == t[t.len() - 2]);
        assert(t2.push(t.last()) =~= t);
        assert(tokens(q).push(t2).update(tokens(q).len() as int, t2.push(t.last())) =~= tokens(
            q,
        ).push(t));
    }
}

proof fn lemma_output_lines(cs: Seq<(u32, u32)>)
    ensures
        split_lines(output_text(cs)) == pair_lines(cs).push(Seq::<u8>::empty()),
    decreases cs.len(),
{
    if cs.len() == 0 {
        assert(split_lines(Seq::<u8>::empty()) =~= pair_lines(cs).push(Seq::<u8>::empty()));
    } else {
        let c2 = cs.drop_last();
        let t = output_text(c2);
        let l = pair_line(cs.last());
        lemma_output_lines(c2);
        lemma_pair_line_facts(cs.last());
        lemma_split_append(t, l);
        let sp = split_lines(t);
        assert(Seq::<u8>::empty() + l =~= l);
        let whole = t + l + seq![10u8];
        assert(whole.drop_last() =~= t + l);
        assert(pair_lines(cs) =~= pair_lines(c2).push(l));
        assert(sp.update(sp.len() - 1, sp.last() + l) =~= pair_lines(cs));
    }
}

proof fn lemma_pairs_of_pair_lines(cs: Seq<(u32, u32)>)
    ensures
        pairs_of_lines(pair_lines(cs)) == Some(cs),
    decreases cs.len(),
{
    if cs.len() > 0 {
        let c2 = cs.drop_last();
        lemma_pairs_of_pair_lines(c2);
        lemma_pair_line_facts(cs.last());
        assert(pair_lines(cs).drop_last() =~= pair_lines(c2));
        assert(c2.push(cs.last()) =~= cs);
    } else {
        assert(pair_lines(cs) =~= Seq::<Seq<u8>>::empty());
        assert(cs =~= Seq::<(u32, u32)>::empty());
    }
}

/// Writing a graph's positions in the solver's output format and reading
/// them back gives the same positions, in the same order.
pub proof fn lemma_output_round_trip(graph: PlaneGraph)
    ensures
        coordinates_of(output_text(graph.embedding@)) == Some(graph.embedding@),
{
    let cs = graph.embedding@;
    lemma_output_lines(cs);
    lemma_pairs_of_pair_lines(cs);
    let ls = pair_lines(cs).push(Seq::<u8>::empty());
    assert(ls.drop_last() =~= pair_lines(cs));
}

} // verus!
