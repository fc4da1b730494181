//! Parsing of the two textual input formats into a dense backing sequence:
//! raw numeric grids (rows separated by `;`, values by whitespace) and
//! linear equations (separated by `/`, sides by `=`, with variable names
//! written as ASCII letters).
//!
//! The exec parsers are verified against specification-level models built
//! from character-sequence scanners; the conversion of a single numeric
//! token to its bit pattern is the named result of the trusted parser in
//! `fp`.

use vstd::prelude::*;

use crate::error::MatrixError;
use crate::fp::{parse_bits_of, parse_number};
use vstd::string::StrSliceExecFns;

verus! {

/// ASCII whitespace, the value separator inside a row.
pub open spec fn is_space(c: char) -> bool {
    c == ' ' || c == '\t' || c == '\n' || c == '\r'
}

/// An ASCII letter: a variable-name character of an equation.
pub open spec fn is_letter(c: char) -> bool {
    let u = c as u32;
    (97 <= u && u <= 122) || (65 <= u && u <= 90)
}

fn space_char(c: char) -> (r: bool)
    ensures
        r == is_space(c),
{
    c == ' ' || c == '\t' || c == '\n' || c == '\r'
}

fn letter_char(c: char) -> (r: bool)
    ensures
        r == is_letter(c),
{
    let u = c as u32;
    (97 <= u && u <= 122) || (65 <= u && u <= 90)
}

/// The groups `s` splits into on delimiter `d`, scanning from `i` with the
/// current group starting at `b`: one group per delimiter plus the final
/// group, empty groups included.
pub open spec fn split_from(s: Seq<char>, i: int, b: int, d: char) -> Seq<Seq<char>>
    decreases s.len() - i,
{
    if i >= s.len() {
        seq![s.subrange(b, s.len() as int)]
    } else if s[i] == d {
        seq![s.subrange(b, i)] + split_from(s, i + 1, i + 1, d)
    } else {
        split_from(s, i + 1, b, d)
    }
}

/// A split always yields at least the final group.
pub proof fn lemma_split_len(s: Seq<char>, i: int, b: int, d: char)
    ensures
        split_from(s, i, b, d).len() >= 1,
    decreases s.len() - i,
{
    if i < s.len() {
        lemma_split_len(s, i + 1, i + 1, d);
        lemma_split_len(s, i + 1, b, d);
    }
}

/// The whitespace-separated tokens of `s` from `i` on, the current token
/// having started at `b`.
pub open spec fn scan_plain(s: Seq<char>, i: int, b: int) -> Seq<Seq<char>>
    decreases s.len() - i,
{
    if i >= s.len() {
        if b < s.len() {
            seq![s.subrange(b, s.len() as int)]
        } else {
            seq![]
        }
    } else if is_space(s[i]) {
        (if b < i {
            seq![s.subrange(b, i)]
        } else {
            seq![]
        }) + scan_plain(s, i + 1, i + 1)
    } else {
        scan_plain(s, i + 1, b)
    }
}

/// The first position at or after `i` that does not hold a letter.
pub open spec fn skip_letters(s: Seq<char>, i: int) -> int
    decreases s.len() - i,
{
    if i >= s.len() || !is_letter(s[i]) {
        i
    } else {
        skip_letters(s, i + 1)
    }
}

pub proof fn lemma_skip_letters(s: Seq<char>, i: int)
    ensures
        i <= skip_letters(s, i),
        i <= s.len() ==> skip_letters(s, i) <= s.len(),
    decreases s.len() - i,
{
    if !(i >= s.len() || !is_letter(s[i])) {
        lemma_skip_letters(s, i + 1);
    }
}

/// The numeric token a coefficient buffer stands for when a variable name
/// follows it: an empty buffer or a bare `+` is an implicit `1`, a bare `-`
/// an implicit `-1`; anything else is taken as written.
pub open spec fn unit_token(buf: Seq<char>) -> Seq<char> {
    if buf.len() == 0 || buf == seq!['+'] {
        seq!['1']
    } else if buf == seq!['-'] {
        seq!['-', '1']
    } else {
        buf
    }
}

/// The numeric tokens of one equation side from `i` on, the current token
/// having started at `b`: whitespace separates tokens, and a run of letters
/// terminates the token before it, supplying an implicit unit coefficient
/// when that token is empty or a bare sign.
pub open spec fn scan_terms(s: Seq<char>, i: int, b: int) -> Seq<Seq<char>>
    decreases s.len() - i,
{
    if i >= s.len() {
        if b < s.len() {
            seq![s.subrange(b, s.len() as int)]
        } else {
            seq![]
        }
    } else if is_space(s[i]) {
        (if b < i {
            seq![s.subrange(b, i)]
        } else {
            seq![]
        }) + scan_terms(s, i + 1, i + 1)
    } else if is_letter(s[i]) {
        proof {
            lemma_skip_letters(s, i + 1);
        }
        let j = skip_letters(s, i + 1);
        seq![unit_token(s.subrange(b, i))] + scan_terms(s, j, j)
    } else {
        scan_terms(s, i + 1, b)
    }
}

/// The bit patterns the tokens parse to, or `None` as soon as one token is
/// not numeric.
pub open spec fn tokens_vals(toks: Seq<Seq<char>>) -> Option<Seq<u64>>
    decreases toks.len(),
{
    if toks.len() == 0 {
        Some(seq![])
    } else {
        match parse_bits_of(toks[0]) {
            None => None,
            Some(x) => match tokens_vals(toks.drop_first()) {
                None => None,
                Some(v) => Some(seq![x] + v),
            },
        }
    }
}

/// The values of one raw grid row.
pub open spec fn grid_row_vals(g: Seq<char>) -> Option<Seq<u64>> {
    tokens_vals(scan_plain(g, 0, 0))
}

/// The values of one equation side.
pub open spec fn side_vals(sd: Seq<char>) -> Option<Seq<u64>> {
    tokens_vals(scan_terms(sd, 0, 0))
}

/// The concatenated values of the sides from index `i` on.
pub open spec fn sides_cat(sides: Seq<Seq<char>>, i: int) -> Option<Seq<u64>>
    decreases sides.len() - i,
{
    if i >= sides.len() {
        Some(seq![])
    } else {
        match side_vals(sides[i]) {
            None => None,
            Some(v) => match sides_cat(sides, i + 1) {
                None => None,
                Some(r) => Some(v + r),
            },
        }
    }
}

/// The values of one equation row: the sides around each `=`, filtered for
/// coefficients and concatenated left to right.
pub open spec fn eq_row_vals(e: Seq<char>) -> Option<Seq<u64>> {
    sides_cat(split_from(e, 0, 0, '='), 0)
}

/// The concatenated grid rows from group `i` on, each required to parse and
/// to have width `w`.
pub open spec fn grid_rows_cat(groups: Seq<Seq<char>>, i: int, w: int) -> Result<
    Seq<u64>,
    MatrixError,
>
    decreases groups.len() - i,
{
    if i >= groups.len() {
        Ok(seq![])
    } else {
        match grid_row_vals(groups[i]) {
            None => Err(MatrixError::Parse),
            Some(v) => if v.len() != w {
                Err(MatrixError::MalformedGrid)
            } else {
                match grid_rows_cat(groups, i + 1, w) {
                    Ok(r) => Ok(v + r),
                    Err(e) => Err(e),
                }
            },
        }
    }
}

/// The concatenated equation rows from group `i` on.
pub open spec fn eq_rows_cat(groups: Seq<Seq<char>>, i: int, w: int) -> Result<
    Seq<u64>,
    MatrixError,
>
    decreases groups.len() - i,
{
    if i >= groups.len() {
        Ok(seq![])
    } else {
        match eq_row_vals(groups[i]) {
            None => Err(MatrixError::Parse),
            Some(v) => if v.len() != w {
                Err(MatrixError::MalformedEquation)
            } else {
                match eq_rows_cat(groups, i + 1, w) {
                    Ok(r) => Ok(v + r),
                    Err(e) => Err(e),
                }
            },
        }
    }
}

/// What a raw grid text denotes: its row count, its column count — the
/// width shared by every row group — and its row-major values; or the first
/// failure, a non-numeric token (`Parse`) or an empty or mismatched row
/// (`MalformedGrid`).
pub open spec fn grid_model(s: Seq<char>) -> Result<(int, int, Seq<u64>), MatrixError> {
    let groups = split_from(s, 0, 0, ';');
    match grid_row_vals(groups[0]) {
        None => Err(MatrixError::Parse),
        Some(v0) => if v0.len() < 1 {
            Err(MatrixError::MalformedGrid)
        } else {
            match grid_rows_cat(groups, 1, v0.len() as int) {
                Ok(rest) => Ok((groups.len() as int, v0.len() as int, v0 + rest)),
                Err(e) => Err(e),
            }
        },
    }
}

/// What an equation-set text denotes: one augmented row per equation, the
/// left-hand coefficients followed by the right-hand constant; or the first
/// failure, a non-numeric token (`Parse`) or an empty or mismatched row
/// (`MalformedEquation`).
pub open spec fn equations_model(s: Seq<char>) -> Result<(int, int, Seq<u64>), MatrixError> {
    let groups = split_from(s, 0, 0, '/');
    match eq_row_vals(groups[0]) {
        None => Err(MatrixError::Parse),
        Some(v0) => if v0.len() < 1 {
            Err(MatrixError::MalformedEquation)
        } else {
            match eq_rows_cat(groups, 1, v0.len() as int) {
                Ok(rest) => Ok((groups.len() as int, v0.len() as int, v0 + rest)),
                Err(e) => Err(e),
            }
        },
    }
}

/// The character ranges of the groups `s` splits into on `d`, in order.
fn split_ranges(s: &str, d: char) -> (r: Vec<(usize, usize)>)
    ensures
        r@.len() >= 1,
        forall|j: int| 0 <= j < r@.len() ==> #[trigger] r@[j].0 <= r@[j].1 <= s@.len(),
        r@.map_values(|p: (usize, usize)| s@.subrange(p.0 as int, p.1 as int)) == split_from(
            s@,
            0,
            0,
            d,
        ),
{
    let n = s.unicode_len();
    let mut r: Vec<(usize, usize)> = Vec::new();
    let mut b: usize = 0;
    let mut i: usize = 0;
    while i < n
        invariant
            b <= i <= n,
            n == s@.len(),
            forall|j: int| 0 <= j < r@.len() ==> #[trigger] r@[j].0 <= r@[j].1 <= s@.len(),
            split_from(s@, 0, 0, d) == r@.map_values(
                |p: (usize, usize)| s@.subrange(p.0 as int, p.1 as int),
            ) + split_from(s@, i as int, b as int, d),
        decreases n - i,
    {
        let c = s.get_char(i);
        if c == d {
            let ghost before = r@;
            r.push((b, i));
            proof {
                let f = |p: (usize, usize)| s@.subrange(p.0 as int, p.1 as int);
                assert(r@.map_values(f) =~= before.map_values(f) + seq![
                    s@.subrange(b as int, i as int),
                ]);
                assert(before.map_values(f) + (seq![s@.subrange(b as int, i as int)]
                    + split_from(s@, i as int + 1, i as int + 1, d)) =~= r@.map_values(f)
                    + split_from(s@, i as int + 1, i as int + 1, d));
            }
            b = i + 1;
        }
        i = i + 1;
    }
    let ghost before = r@;
    r.push((b, n));
    proof {
        let f = |p: (usize, usize)| s@.subrange(p.0 as int, p.1 as int);
        assert(split_from(s@, n as int, b as int, d) == seq![s@.subrange(b as int, n as int)]);
        assert(r@.map_values(f) =~= before.map_values(f) + seq![s@.subrange(b as int, n as int)]);
        lemma_split_len(s@, 0, 0, d);
    }
    r
}

fn extend_vec(dst: &mut Vec<u64>, src: Vec<u64>)
    ensures
        final(dst)@ == old(dst)@ + src@,
{
    let n = src.len();
    let mut k: usize = 0;
    proof {
        assert(old(dst)@ + src@.subrange(0, 0) =~= old(dst)@);
    }
    while k < n
        invariant
            k <= n,
            n == src@.len(),
            dst@ == old(dst)@ + src@.subrange(0, k as int),
        decreases n - k,
    {
        dst.push(src[k]);
        proof {
            assert(old(dst)@ + src@.subrange(0, k as int) + seq![src@[k as int]] =~= old(dst)@
                + src@.subrange(0, k as int + 1));
        }
        k = k + 1;
    }
    proof {
        assert(src@.subrange(0, n as int) =~= src@);
    }
}

/// Parse one raw grid row: its whitespace-separated tokens, in order.
fn grid_row(g: &str) -> (r: Result<Vec<u64>, MatrixError>)
    ensures
        match grid_row_vals(g@) {
            Some(v) => r is Ok && r->Ok_0@ == v,
            None => r is Err && r->Err_0 == MatrixError::Parse,
        },
{
    let n = g.unicode_len();
    let mut acc: Vec<u64> = Vec::new();
    let mut b: usize = 0;
    let mut i: usize = 0;
    proof {
        match tokens_vals(scan_plain(g@, 0, 0)) {
            Some(v) => {
                assert(Seq::<u64>::empty() + v =~= v);
            },
            None => {},
        }
    }
    while i < n
        invariant
            b <= i <= n,
            n == g@.len(),
            grid_row_vals(g@) == (match tokens_vals(scan_plain(g@, i as int, b as int)) {
                Some(v) => Some(acc@ + v),
                None => None::<Seq<u64>>,
            }),
        decreases n - i,
    {
        let c = g.get_char(i);
        if space_char(c) {
            if b < i {
                let ghost tt = g@.subrange(b as int, i as int);
                let ghost rest = scan_plain(g@, i as int + 1, i as int + 1);
                proof {
                    assert(scan_plain(g@, i as int, b as int) == seq![tt] + rest);
                    assert((seq![tt] + rest)[0] == tt);
                    assert((seq![tt] + rest).drop_first() =~= rest);
                }
                let t = g.substring_char(b, i);
                match parse_number(t) {
                    None => {
                        return Err(MatrixError::Parse);
                    },
                    Some(x) => {
                        let ghost before = acc@;
                        acc.push(x);
                        proof {
                            match tokens_vals(rest) {
                                Some(v) => {
                                    assert(acc@ =~= before + seq![x]);
                                    assert(before + (seq![x] + v) =~= acc@ + v);
                                },
                                None => {},
                            }
                        }
                    },
                }
            }
            b = i + 1;
        }
        i = i + 1;
    }
    if b < n {
        let ghost tt = g@.subrange(b as int, n as int);
        proof {
            reveal_with_fuel(tokens_vals, 2);
            assert(scan_plain(g@, n as int, b as int) == seq![tt]);
            assert(seq![tt][0] == tt);
            assert(seq![tt].drop_first() =~= Seq::<Seq<char>>::empty());
        }
        let t = g.substring_char(b, n);
        match parse_number(t) {
            None => {
                return Err(MatrixError::Parse);
            },
            Some(x) => {
                let ghost before = acc@;
                acc.push(x);
                proof {
                    assert(seq![x] + Seq::<u64>::empty() =~= seq![x]);
                    assert(acc@ =~= before + seq![x]);
                }
            },
        }
    } else {
        proof {
            match tokens_vals(scan_plain(g@, n as int, b as int)) {
                Some(v) => {
                    assert(acc@ + v =~= acc@);
                },
                None => {},
            }
        }
    }
    Ok(acc)
}

fn skip_letters_exec(sd: &str, start: usize, n: usize) -> (j: usize)
    requires
        n == sd@.len(),
        start <= n,
    ensures
        start <= j <= n,
        j == skip_letters(sd@, start as int),
{
    let mut j: usize = start;
    while j < n
        invariant
            start <= j <= n,
            n == sd@.len(),
            skip_letters(sd@, start as int) == skip_letters(sd@, j as int),
        decreases n - j,
    {
        if !letter_char(sd.get_char(j)) {
            return j;
        }
        j = j + 1;
    }
    j
}

/// Parse one equation side: whitespace-separated coefficient tokens, a run
/// of letters closing the token before it (an implicit unit when that token
/// is empty or a bare sign).
fn side_values(sd: &str) -> (r: Result<Vec<u64>, MatrixError>)
    ensures
        match side_vals(sd@) {
            Some(v) => r is Ok && r->Ok_0@ == v,
            None => r is Err && r->Err_0 == MatrixError::Parse,
        },
{
    let n = sd.unicode_len();
    let mut acc: Vec<u64> = Vec::new();
    let mut b: usize = 0;
    let mut i: usize = 0;
    proof {
        match tokens_vals(scan_terms(sd@, 0, 0)) {
            Some(v) => {
                assert(Seq::<u64>::empty() + v =~= v);
            },
            None => {},
        }
    }
    while i < n
        invariant
            b <= i <= n,
            n == sd@.len(),
            side_vals(sd@) == (match tokens_vals(scan_terms(sd@, i as int, b as int)) {
                Some(v) => Some(acc@ + v),
                None => None::<Seq<u64>>,
            }),
        decreases n - i,
    {
        let c = sd.get_char(i);
        if space_char(c) {
            if b < i {
                let ghost tt = sd@.subrange(b as int, i as int);
                let ghost rest = scan_terms(sd@, i as int + 1, i as int + 1);
                proof {
                    assert(scan_terms(sd@, i as int, b as int) == seq![tt] + rest);
                    assert((seq![tt] + rest)[0] == tt);
                    assert((seq![tt] + rest).drop_first() =~= rest);
                }
                let t = sd.substring_char(b, i);
                match parse_number(t) {
                    None => {
                        return Err(MatrixError::Parse);
                    },
                    Some(x) => {
                        let ghost before = acc@;
                        acc.push(x);
                        proof {
                            match tokens_vals(rest) {
                                Some(v) => {
                                    assert(acc@ =~= before + seq![x]);
                                    assert(before + (seq![x] + v) =~= acc@ + v);
                                },
                                None => {},
                            }
                        }
                    },
                }
            }
            b = i + 1;
            i = i + 1;
        } else if letter_char(c) {
            let ghost buf = sd@.subrange(b as int, i as int);
            let ghost ut = unit_token(buf);
            let parsed: Option<u64> = if b == i {
                proof {
                    assert(buf =~= Seq::<char>::empty());
                    reveal_strlit("1");
                    assert("1"@ =~= seq!['1']);
                    assert(ut == "1"@);
                }
                parse_number("1")
            } else if b + 1 == i && sd.get_char(b) == '+' {
                proof {
                    assert(buf =~= seq!['+']);
                    reveal_strlit("1");
                    assert("1"@ =~= seq!['1']);
                    assert(ut == "1"@);
                }
                parse_number("1")
            } else if b + 1 == i && sd.get_char(b) == '-' {
                proof {
                    assert(buf =~= seq!['-']);
                    if buf == seq!['+'] {
                        assert(buf[0] == '+');
                        assert(false);
                    }
                    reveal_strlit("-1");
                    assert("-1"@ =~= seq!['-', '1']);
                    assert(ut == "-1"@);
                }
                parse_number("-1")
            } else {
                proof {
                    assert(buf[0] == sd@[b as int]);
                    if buf == seq!['+'] {
                        assert(buf[0] == '+');
                        assert(buf.len() == 1);
                        assert(false);
                    }
                    if buf == seq!['-'] {
                        assert(buf[0] == '-');
                        assert(buf.len() == 1);
                        assert(false);
                    }
                    assert(ut == buf);
                }
                parse_number(sd.substring_char(b, i))
            };
            proof {
                assert(parsed == parse_bits_of(ut));
                lemma_skip_letters(sd@, i as int + 1);
            }
            let ghost rest = scan_terms(
                sd@,
                skip_letters(sd@, i as int + 1),
                skip_letters(sd@, i as int + 1),
            );
            proof {
                assert(scan_terms(sd@, i as int, b as int) == seq![ut] + rest);
                assert((seq![ut] + rest)[0] == ut);
                assert((seq![ut] + rest).drop_first() =~= rest);
            }
            match parsed {
                None => {
                    return Err(MatrixError::Parse);
                },
                Some(x) => {
                    let ghost before = acc@;
                    acc.push(x);
                    proof {
                        match tokens_vals(rest) {
                            Some(v) => {
                                assert(acc@ =~= before + seq![x]);
                                assert(before + (seq![x] + v) =~= acc@ + v);
                            },
                            None => {},
                        }
                    }
                },
            }
            let j = skip_letters_exec(sd, i + 1, n);
            i = j;
            b = j;
        } else {
            i = i + 1;
        }
    }
    if b < n {
        let ghost tt = sd@.subrange(b as int, n as int);
        proof {
            reveal_with_fuel(tokens_vals, 2);
            assert(scan_terms(sd@, n as int, b as int) == seq![tt]);
            assert(seq![tt][0] == tt);
            assert(seq![tt].drop_first() =~= Seq::<Seq<char>>::empty());
        }
        let t = sd.substring_char(b, n);
        match parse_number(t) {
            None => {
                return Err(MatrixError::Parse);
            },
            Some(x) => {
                let ghost before = acc@;
                acc.push(x);
                proof {
                    assert(seq![x] + Seq::<u64>::empty() =~= seq![x]);
                    assert(acc@ =~= before + seq![x]);
                }
            },
        }
    } else {
        proof {
            match tokens_vals(scan_terms(sd@, n as int, b as int)) {
                Some(v) => {
                    assert(acc@ + v =~= acc@);
                },
                None => {},
            }
        }
    }
    Ok(acc)
}

/// Parse one equation: the values of its sides around each `=`,
/// concatenated left to right.
fn eq_row(e: &str) -> (r: Result<Vec<u64>, MatrixError>)
    ensures
        match eq_row_vals(e@) {
            Some(v) => r is Ok && r->Ok_0@ == v,
            None => r is Err && r->Err_0 == MatrixError::Parse,
        },
{
    let sides = split_ranges(e, '=');
    let ghost sseq = split_from(e@, 0, 0, '=');
    let mut acc: Vec<u64> = Vec::new();
    let mut si: usize = 0;
    let m = sides.len();
    proof {
        assert(sseq.len() == sides@.len());
        match sides_cat(sseq, 0) {
            Some(v) => {
                assert(Seq::<u64>::empty() + v =~= v);
            },
            None => {},
        }
    }
    while si < m
        invariant
            si <= m,
            m == sides@.len(),
            m == sseq.len(),
            sseq == split_from(e@, 0, 0, '='),
            sseq == sides@.map_values(|p: (usize, usize)| e@.subrange(p.0 as int, p.1 as int)),
            forall|j: int| 0 <= j < sides@.len() ==> #[trigger] sides@[j].0 <= sides@[j].1
                <= e@.len(),
            eq_row_vals(e@) == (match sides_cat(sseq, si as int) {
                Some(v) => Some(acc@ + v),
                None => None::<Seq<u64>>,
            }),
        decreases m - si,
    {
        let pr = sides[si];
        proof {
            assert(sseq[si as int] == e@.subrange(pr.0 as int, pr.1 as int));
        }
        let sub = e.substring_char(pr.0, pr.1);
        match side_values(sub) {
            Err(_) => {
                return Err(MatrixError::Parse);
            },
            Ok(v) => {
                let ghost vv = v@;
                let ghost before = acc@;
                extend_vec(&mut acc, v);
                proof {
                    match sides_cat(sseq, si as int + 1) {
                        Some(restv) => {
                            assert(before + (vv + restv) =~= acc@ + restv);
                        },
                        None => {},
                    }
                }
            },
        }
        si = si + 1;
    }
    proof {
        match sides_cat(sseq, m as int) {
            Some(v) => {
                assert(acc@ + v =~= acc@);
            },
            None => {},
        }
    }
    Ok(acc)
}

/// Parse a raw grid text into `(rows, cols, values)`, row-major.
pub(crate) fn parse_grid_text(s: &str) -> (r: Result<(usize, usize, Vec<u64>), MatrixError>)
    ensures
        match grid_model(s@) {
            Ok(m) => r is Ok && r->Ok_0.0 as int == m.0 && r->Ok_0.1 as int == m.1
                && r->Ok_0.2@ == m.2 && 1 <= m.0 && 1 <= m.1 && m.2.len() == m.0 * m.1,
            Err(e) => r is Err && r->Err_0 == e,
        },
{
    let ranges = split_ranges(s, ';');
    let ghost groups = split_from(s@, 0, 0, ';');
    proof {
        assert(groups.len() == ranges@.len());
        assert(groups[0] == s@.subrange(ranges@[0].0 as int, ranges@[0].1 as int));
    }
    let p0 = ranges[0];
    let mut data: Vec<u64>;
    match grid_row(s.substring_char(p0.0, p0.1)) {
        Err(e) => {
            return Err(e);
        },
        Ok(v) => {
            data = v;
        },
    }
    let w = data.len();
    if w == 0 {
        return Err(MatrixError::MalformedGrid);
    }
    let nrows = ranges.len();
    let mut ri: usize = 1;
    while ri < nrows
        invariant
            1 <= ri <= nrows,
            nrows == ranges@.len(),
            nrows == groups.len(),
            groups == split_from(s@, 0, 0, ';'),
            groups == ranges@.map_values(
                |p: (usize, usize)| s@.subrange(p.0 as int, p.1 as int),
            ),
            forall|j: int| 0 <= j < ranges@.len() ==> #[trigger] ranges@[j].0 <= ranges@[j].1
                <= s@.len(),
            1 <= w,
            data@.len() == ri * w,
            (match grid_rows_cat(groups, ri as int, w as int) {
                Ok(rest) => grid_model(s@) == Ok::<(int, int, Seq<u64>), MatrixError>(
                    (groups.len() as int, w as int, data@ + rest),
                ),
                Err(e) => grid_model(s@) == Err::<(int, int, Seq<u64>), MatrixError>(e),
            }),
        decreases nrows - ri,
    {
        let pr = ranges[ri];
        proof {
            assert(groups[ri as int] == s@.subrange(pr.0 as int, pr.1 as int));
        }
        match grid_row(s.substring_char(pr.0, pr.1)) {
            Err(e) => {
                return Err(e);
            },
            Ok(v) => {
                if v.len() != w {
                    return Err(MatrixError::MalformedGrid);
                }
                let ghost vv = v@;
                let ghost before = data@;
                extend_vec(&mut data, v);
                proof {
                    assert((ri as int + 1) * w as int == ri as int * w as int + w as int)
                        by (nonlinear_arith);
                    match grid_rows_cat(groups, ri as int + 1, w as int) {
                        Ok(rest) => {
                            assert(before + (vv + rest) =~= data@ + rest);
                        },
                        Err(_) => {},
                    }
                }
            },
        }
        ri = ri + 1;
    }
    proof {
        assert(data@ + Seq::<u64>::empty() =~= data@);
    }
    Ok((nrows, w, data))
}

/// Parse an equation-set text into `(rows, cols, values)`, row-major.
pub(crate) fn parse_equations_text(s: &str) -> (r: Result<
    (usize, usize, Vec<u64>),
    MatrixError,
>)
    ensures
        match equations_model(s@) {
            Ok(m) => r is Ok && r->Ok_0.0 as int == m.0 && r->Ok_0.1 as int == m.1
                && r->Ok_0.2@ == m.2 && 1 <= m.0 && 1 <= m.1 && m.2.len() == m.0 * m.1,
            Err(e) => r is Err && r->Err_0 == e,
        },
{
    let ranges = split_ranges(s, '/');
    let ghost groups = split_from(s@, 0, 0, '/');
    proof {
        assert(groups.len() == ranges@.len());
        assert(groups[0] == s@.subrange(ranges@[0].0 as int, ranges@[0].1 as int));
    }
    let p0 = ranges[0];
    let mut data: Vec<u64>;
    match eq_row(s.substring_char(p0.0, p0.1)) {
        Err(e) => {
            return Err(e);
        },
        Ok(v) => {
            data = v;
        },
    }
    let w = data.len();
    if w == 0 {
        return Err(MatrixError::MalformedEquation);
    }
    let nrows = ranges.len();
    let mut ri: usize = 1;
    while ri < nrows
        invariant
            1 <= ri <= nrows,
            nrows == ranges@.len(),
            nrows == groups.len(),
            groups == split_from(s@, 0, 0, '/'),
            groups == ranges@.map_values(
                |p: (usize, usize)| s@.subrange(p.0 as int, p.1 as int),
            ),
            forall|j: int| 0 <= j < ranges@.len() ==> #[trigger] ranges@[j].0 <= ranges@[j].1
                <= s@.len(),
            1 <= w,
            data@.len() == ri * w,
            (match eq_rows_cat(groups, ri as int, w as int) {
                Ok(rest) => equations_model(s@) == Ok::<(int, int, Seq<u64>), MatrixError>(
                    (groups.len() as int, w as int, data@ + rest),
                ),
                Err(e) => equations_model(s@) == Err::<(int, int, Seq<u64>), MatrixError>(e),
            }),
        decreases nrows - ri,
    {
        let pr = ranges[ri];
        proof {
            assert(groups[ri as int] == s@.subrange(pr.0 as int, pr.1 as int));
        }
        match eq_row(s.substring_char(pr.0, pr.1)) {
            Err(e) => {
                return Err(e);
            },
            Ok(v) => {
                if v.len() != w {
                    return Err(MatrixError::MalformedEquation);
                }
                let ghost vv = v@;
                let ghost before = data@;
                extend_vec(&mut data, v);
                proof {
                    assert((ri as int + 1) * w as int == ri as int * w as int + w as int)
                        by (nonlinear_arith);
                    match eq_rows_cat(groups, ri as int + 1, w as int) {
                        Ok(rest) => {
                            assert(before + (vv + rest) =~= data@ + rest);
                        },
                        Err(_) => {},
                    }
                }
            },
        }
        ri = ri + 1;
    }
    proof {
        assert(data@ + Seq::<u64>::empty() =~= data@);
    }
    Ok((nrows, w, data))
}

} // verus!
