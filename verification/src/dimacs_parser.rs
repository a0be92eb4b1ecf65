//! The DIMACS CNF reader: comment and problem lines are skipped, every other line
//! is a clause of signed variable numbers ended by `0`.
use vstd::prelude::*;

use crate::assignment::Assignment;
use crate::clause_db::{dedup, is_tautology, NULL_CLAUSE};
use crate::lit::{lemma_new_roundtrip, Lit, MAX_VAR};
use crate::solver::{clause_added, var_bound, vars_below, Solver};
use crate::text::{decimal, lemma_decimal_is_base_ten};

verus! {

/// `c` is a Unicode white space character (the `White_Space` property, which
/// `char::is_whitespace` tests).
pub open spec fn is_white(c: char) -> bool {
    let u = c as u32;
    ||| 9 <= u <= 13
    ||| u == 32
    ||| u == 0x85
    ||| u == 0xa0
    ||| u == 0x1680
    ||| 0x2000 <= u <= 0x200a
    ||| u == 0x2028
    ||| u == 0x2029
    ||| u == 0x202f
    ||| u == 0x205f
    ||| u == 0x3000
}

/// Whether `c` is white space.
pub fn is_white_space(c: char) -> (b: bool)
    ensures
        b == is_white(c),
{
    let u = c as u32;
    (9 <= u && u <= 13) || u == 32 || u == 0x85 || u == 0xa0 || u == 0x1680 || (0x2000 <= u && u <= 0x200a) || u == 0x2028
        || u == 0x2029 || u == 0x202f || u == 0x205f || u == 0x3000
}

/// The maximal runs of non-white characters of `s`, in order.
pub open spec fn tokens(s: Seq<char>) -> Seq<Seq<char>>
    decreases s.len(),
{
    if s.len() == 0 {
        Seq::empty()
    } else if is_white(s.last()) {
        tokens(s.drop_last())
    } else {
        let t = tokens(s.drop_last());
        if s.len() >= 2 && !is_white(s[s.len() - 2]) {
            t.update(t.len() - 1, t.last().push(s.last()))
        } else {
            t.push(seq![s.last()])
        }
    }
}

/// A prefix of `s` that ends in a non-white character has a last token, which
/// ends with that character.
pub proof fn lemma_tokens_last(s: Seq<char>)
    requires
        s.len() > 0,
        !is_white(s.last()),
    ensures
        tokens(s).len() > 0,
        tokens(s).last().len() > 0,
    decreases s.len(),
{
    if s.len() >= 2 && !is_white(s[s.len() - 2]) {
        lemma_tokens_last(s.drop_last());
    }
}

/// Every token is non-empty and free of white space.
pub proof fn lemma_tokens_shape(s: Seq<char>)
    ensures
        forall|k: int| 0 <= k < tokens(s).len() ==> (#[trigger] tokens(s)[k]).len() > 0,
        forall|k: int, j: int| 0 <= k < tokens(s).len() && 0 <= j < tokens(s)[k].len() ==> !is_white(#[trigger] tokens(s)[k][j]),
        tokens(s).len() <= s.len(),
    decreases s.len(),
{
    if s.len() > 0 {
        lemma_tokens_shape(s.drop_last());
        if !is_white(s.last()) && s.len() >= 2 && !is_white(s[s.len() - 2]) {
            lemma_tokens_last(s.drop_last());
        }
    }
}

/// The tokens of `s`, put back together, are the non-white characters of `s`
/// in order: no character is lost, added or moved.
pub proof fn lemma_tokens_flatten(s: Seq<char>)
    ensures
        tokens(s).flatten() == s.filter(|c: char| !is_white(c)),
    decreases s.len(),
{
    let p = |c: char| !is_white(c);
    if s.len() == 0 {
        assert(s.filter(p) =~= Seq::<char>::empty());
    } else {
        let pre = s.drop_last();
        let c = s.last();
        lemma_tokens_flatten(pre);
        assert(pre.push(c) =~= s);
        pre.lemma_filter_push(c, p);
        let t = tokens(pre);
        if is_white(c) {
        } else if s.len() >= 2 && !is_white(s[s.len() - 2]) {
            lemma_tokens_last(pre);
            let x = t.last();
            let t0 = t.drop_last();
            assert(t0.push(x) =~= t);
            assert(t.update(t.len() - 1, x.push(c)) =~= t0.push(x.push(c)));
            t0.lemma_flatten_push(x);
            t0.lemma_flatten_push(x.push(c));
            assert(t0.flatten() + x.push(c) =~= (t0.flatten() + x).push(c));
        } else {
            t.lemma_flatten_push(seq![c]);
            assert(t.flatten() + seq![c] =~= t.flatten().push(c));
        }
    }
}

/// The positions of `s` where a run of non-white characters starts: a
/// non-white character at the start or after a white one.
pub open spec fn run_starts(s: Seq<char>) -> Set<int> {
    Set::new(|i: int| 0 <= i < s.len() && !is_white(s[i]) && (i == 0 || is_white(s[i - 1])))
}

/// There is one token per run of non-white characters: runs separated by white
/// space are never merged, and no run is split or dropped.
pub proof fn lemma_tokens_count(s: Seq<char>)
    ensures
        run_starts(s).finite(),
        tokens(s).len() == run_starts(s).len(),
    decreases s.len(),
{
    if s.len() == 0 {
        assert(run_starts(s) =~= Set::<int>::empty());
    } else {
        let pre = s.drop_last();
        let n = s.len() - 1;
        lemma_tokens_count(pre);
        let starts_here = !is_white(s[n]) && (n == 0 || is_white(s[n - 1]));
        assert(s.last() == s[n]);
        if n > 0 {
            assert(s[s.len() - 2] == s[n - 1]);
        }
        if !is_white(s[n]) && !starts_here {
            lemma_tokens_last(pre);
        }
        assert(tokens(s).len() == tokens(pre).len() + if starts_here { 1int } else { 0int });
        if starts_here {
            assert(run_starts(s) =~= run_starts(pre).insert(n));
            assert(!run_starts(pre).contains(n));
        } else {
            assert(run_starts(s) =~= run_starts(pre));
        }
    }
}

/// Splits `line` into its tokens.
pub fn split_tokens(line: &[char]) -> (toks: Vec<Vec<char>>)
    ensures
        toks@.len() == tokens(line@).len(),
        forall|k: int| 0 <= k < toks@.len() ==> (#[trigger] toks@[k])@ == tokens(line@)[k],
{
    let mut done: Vec<Vec<char>> = Vec::new();
    let mut cur: Vec<char> = Vec::new();
    let n = line.len();
    let mut i: usize = 0;
    while i < n
        invariant
            n == line@.len(),
            0 <= i <= n,
            cur@.len() > 0 <==> (i > 0 && !is_white(line@[i - 1])),
            cur@.len() == 0 ==> done@.len() == tokens(line@.subrange(0, i as int)).len(),
            cur@.len() > 0 ==> done@.len() + 1 == tokens(line@.subrange(0, i as int)).len()
                && cur@ == tokens(line@.subrange(0, i as int)).last(),
            forall|k: int| 0 <= k < done@.len() ==> (#[trigger] done@[k])@ == tokens(line@.subrange(0, i as int))[k],
        decreases n - i,
    {
        let c = line[i];
        let ghost pre = line@.subrange(0, i as int);
        let ghost post = line@.subrange(0, i + 1);
        proof {
            assert(post.drop_last() =~= pre);
            assert(post.last() == c);
            if i > 0 {
                assert(post[post.len() - 2] == line@[i - 1]);
            }
        }
        if is_white_space(c) {
            if cur.len() > 0 {
                let tok = cur;
                cur = Vec::new();
                done.push(tok);
            }
        } else {
            cur.push(c);
        }
        i = i + 1;
    }
    if cur.len() > 0 {
        done.push(cur);
    }
    proof {
        assert(line@.subrange(0, n as int) =~= line@);
    }
    done
}

/// `c` is an ASCII decimal digit.
pub open spec fn is_digit(c: char) -> bool {
    48 <= (c as u32) <= 57
}

/// The value of the decimal digits `s`, most significant first.
pub open spec fn digits_value(s: Seq<char>) -> int
    decreases s.len(),
{
    if s.len() == 0 {
        0
    } else {
        digits_value(s.drop_last()) * 10 + ((s.last() as u32) - 48)
    }
}

/// The digits of `s` after an optional leading sign.
pub open spec fn unsigned_part(s: Seq<char>) -> Seq<char> {
    if s.len() > 0 && (s[0] == '-' || s[0] == '+') {
        s.subrange(1, s.len() as int)
    } else {
        s
    }
}

/// What `str::parse::<i32>` gives for `s`: an optional `+` or `-` sign followed
/// by one or more ASCII digits, whose value fits in an `i32`; `None` otherwise.
pub open spec fn parse_i32_spec(s: Seq<char>) -> Option<int> {
    let body = unsigned_part(s);
    let v = if s.len() > 0 && s[0] == '-' { -digits_value(body) } else { digits_value(body) };
    if body.len() == 0 || !(forall|j: int| 0 <= j < body.len() ==> is_digit(#[trigger] body[j])) {
        None
    } else if i32::MIN <= v <= i32::MAX {
        Some(v)
    } else {
        None
    }
}

/// A longer run of digits is worth at least as much as its prefix.
pub proof fn lemma_digits_value_prefix(s: Seq<char>, i: int)
    requires
        0 <= i <= s.len(),
        forall|j: int| 0 <= j < s.len() ==> is_digit(#[trigger] s[j]),
    ensures
        0 <= digits_value(s.subrange(0, i)) <= digits_value(s),
    decreases s.len() - i,
{
    if i < s.len() {
        lemma_digits_value_prefix(s, i + 1);
        assert(s.subrange(0, i + 1).drop_last() =~= s.subrange(0, i));
        assert(is_digit(s[i]));
    } else {
        assert(s.subrange(0, i) =~= s);
        lemma_digits_value_nonneg(s);
    }
}

/// Digits are worth a non-negative value.
pub proof fn lemma_digits_value_nonneg(s: Seq<char>)
    requires
        forall|j: int| 0 <= j < s.len() ==> is_digit(#[trigger] s[j]),
    ensures
        digits_value(s) >= 0,
    decreases s.len(),
{
    if s.len() > 0 {
        assert(is_digit(s[s.len() - 1]));
        lemma_digits_value_nonneg(s.drop_last());
    }
}

/// A single ASCII digit, `'0'` to `'9'` (codes 48 to 57), parses to its code
/// minus 48.
pub proof fn lemma_parse_one_digit(c: char)
    requires
        48 <= c as u32 <= 57,
    ensures
        parse_i32_spec(seq![c]) == Some((c as u32 - 48) as int),
{
    let t = seq![c];
    assert(unsigned_part(t) =~= t);
    assert(t.drop_last() =~= Seq::<char>::empty());
    assert(t.last() == c);
    assert(digits_value(Seq::<char>::empty()) == 0);
    assert(digits_value(t) == digits_value(t.drop_last()) * 10 + ((t.last() as u32) - 48));
    assert(is_digit(t[0]));
}

/// Appending a digit `c` (code 48 to 57) to a run of digits `t` gives ten times
/// the value of `t` plus the digit's worth, when that fits an `i32`, and no
/// value otherwise.
pub proof fn lemma_parse_append_digit(t: Seq<char>, c: char)
    requires
        t.len() > 0,
        forall|j: int| 0 <= j < t.len() ==> 48 <= (#[trigger] t[j]) as u32 <= 57,
        48 <= c as u32 <= 57,
    ensures
        parse_i32_spec(t) is None ==> parse_i32_spec(t.push(c)) is None,
        parse_i32_spec(t) is Some ==> {
            let w = 10 * parse_i32_spec(t)->Some_0 + (c as u32 - 48);
            &&& w <= i32::MAX ==> parse_i32_spec(t.push(c)) == Some(w)
            &&& w > i32::MAX ==> parse_i32_spec(t.push(c)) is None
        },
{
    let u = t.push(c);
    assert(t[0] == u[0]);
    assert(unsigned_part(t) =~= t);
    assert(unsigned_part(u) =~= u);
    assert(u.drop_last() =~= t);
    assert(forall|j: int| 0 <= j < t.len() ==> is_digit(#[trigger] t[j]));
    assert forall|j: int| 0 <= j < u.len() implies is_digit(#[trigger] u[j]) by {
        if j < t.len() {
            assert(u[j] == t[j]);
        }
    }
    lemma_digits_value_nonneg(t);
    assert(digits_value(u) == digits_value(t) * 10 + (c as u32 - 48));
}

/// A `+` before a run of digits changes nothing; a `-` negates its value.
pub proof fn lemma_parse_sign(t: Seq<char>)
    requires
        t.len() > 0,
        forall|j: int| 0 <= j < t.len() ==> 48 <= (#[trigger] t[j]) as u32 <= 57,
    ensures
        parse_i32_spec(seq!['+'] + t) == parse_i32_spec(t),
        parse_i32_spec(t) is Some ==> parse_i32_spec(seq!['-'] + t) == Some(-parse_i32_spec(t)->Some_0),
{
    let p = seq!['+'] + t;
    let m = seq!['-'] + t;
    assert(unsigned_part(t) =~= t);
    assert(unsigned_part(p) =~= t);
    assert(unsigned_part(m) =~= t);
    assert(forall|j: int| 0 <= j < t.len() ==> is_digit(#[trigger] t[j]));
    lemma_digits_value_nonneg(t);
}

/// A token whose part after an optional sign is empty or holds a character
/// other than `'0'` to `'9'` has no value.
pub proof fn lemma_parse_rejects(t: Seq<char>, j: int)
    requires
        0 <= j < unsigned_part(t).len(),
        !(48 <= (unsigned_part(t)[j] as u32) <= 57),
    ensures
        parse_i32_spec(t) is None,
{
}

/// A sign alone, or nothing, has no value.
pub proof fn lemma_parse_rejects_empty(t: Seq<char>)
    requires
        unsigned_part(t).len() == 0,
    ensures
        parse_i32_spec(t) is None,
{
}

/// The characters of the ASCII bytes `b`.
pub open spec fn ascii_chars(b: Seq<u8>) -> Seq<char> {
    b.map_values(|x: u8| x as char)
}

/// What the report writes for a number reads back as that number: the decimal
/// text of any `n` up to `i32::MAX` parses to `n`.
pub proof fn lemma_decimal_parses_back(n: nat)
    requires
        n <= i32::MAX,
    ensures
        parse_i32_spec(ascii_chars(decimal(n))) == Some(n as int),
    decreases n,
{
    lemma_decimal_is_base_ten(n);
    let d = decimal(n);
    let t = ascii_chars(d);
    if n < 10 {
        assert(t =~= seq![(48 + n) as u8 as char]);
        lemma_parse_one_digit((48 + n) as u8 as char);
    } else {
        let q = n / 10;
        let r = n % 10;
        lemma_decimal_parses_back(q);
        lemma_decimal_is_base_ten(q);
        let e = decimal(q);
        assert(d == e.push((48 + r) as u8));
        let c = (48 + r) as u8 as char;
        assert(t =~= ascii_chars(e).push(c));
        assert forall|j: int| 0 <= j < ascii_chars(e).len() implies 48 <= (#[trigger] ascii_chars(e)[j]) as u32 <= 57 by {
            assert(ascii_chars(e)[j] == e[j] as char);
            assert(48 <= e[j] <= 57);
        }
        lemma_parse_append_digit(ascii_chars(e), c);
        assert(10 * q + r == n);
    }
}

/// Parses `tok` as an `i32` the way `str::parse::<i32>` does.
pub fn parse_i32(tok: &[char]) -> (r: Option<i32>)
    ensures
        match r {
            Some(v) => parse_i32_spec(tok@) == Some(v as int),
            None => parse_i32_spec(tok@) is None,
        },
{
    let n = tok.len();
    let mut start: usize = 0;
    let mut neg = false;
    if n > 0 && (tok[0] == '-' || tok[0] == '+') {
        neg = tok[0] == '-';
        start = 1;
    }
    let ghost body = unsigned_part(tok@);
    proof {
        if start == 1 {
            assert(body =~= tok@.subrange(1, n as int));
        } else {
            assert(body =~= tok@);
        }
    }
    if start == n {
        return None;
    }
    let mut acc: i64 = 0;
    let mut i: usize = start;
    while i < n
        invariant
            start <= i <= n,
            n == tok@.len(),
            body == tok@.subrange(start as int, n as int),
            body == unsigned_part(tok@),
            neg <==> (tok@.len() > 0 && tok@[0] == '-'),
            body.len() > 0,
            forall|j: int| 0 <= j < i - start ==> is_digit(#[trigger] body[j]),
            acc == digits_value(body.subrange(0, i - start)),
            0 <= acc <= 0x8000_0000,
        decreases n - i,
    {
        let c = tok[i];
        let u = c as u32;
        if u < 48 || u > 57 {
            proof {
                assert(body[i - start] == c);
            }
            return None;
        }
        proof {
            assert(body[i - start] == c);
            assert(body.subrange(0, i - start + 1).drop_last() =~= body.subrange(0, i - start));
        }
        acc = acc * 10 + (u - 48) as i64;
        i = i + 1;
        if acc > 0x8000_0000 {
            proof {
                if forall|k: int| 0 <= k < body.len() ==> is_digit(#[trigger] body[k]) {
                    lemma_digits_value_prefix(body, i - start);
                }
            }
            return None;
        }
    }
    proof {
        assert(body.subrange(0, n - start) =~= body);
    }
    if neg {
        let v = -acc;
        if v < -0x8000_0000 {
            return None;
        }
        Some(v as i32)
    } else {
        if acc > 0x7fff_ffff {
            return None;
        }
        Some(acc as i32)
    }
}

/// Why a DIMACS input is refused.
#[derive(Debug, Clone, Copy, PartialEq, Eq, Structural)]
pub enum DimacsError {
    /// A token of a clause line is not an `i32`.
    InvalidLiteral,
    /// A clause line names a variable beyond `MAX_VAR`.
    OutOfBounds,
    /// The clause of the given line (counted from 1) has no literal.
    TriviallyUnsat(usize),
}

/// The absolute value of `v`.
pub open spec fn abs_int(v: int) -> int {
    if v < 0 {
        -v
    } else {
        v
    }
}

/// The literal that the DIMACS number `v` stands for: variable `|v| - 1`,
/// negative when `v` is.
pub open spec fn lit_of(v: int) -> Lit {
    Lit::spec_new((abs_int(v) - 1) as nat, v < 0)
}

/// The token `0`, which ends a clause.
pub open spec fn is_end_token(t: Seq<char>) -> bool {
    t == seq!['0']
}

/// `p` followed by the clause `r`, or the error of `r`.
pub open spec fn prepend(p: Seq<Lit>, r: Result<Seq<Lit>, DimacsError>) -> Result<Seq<Lit>, DimacsError> {
    match r {
        Ok(c) => Ok(p + c),
        Err(e) => Err(e),
    }
}

/// The clause that the tokens from `k` on give, up to the first `0` token or the
/// end: each token must be an `i32` (else `InvalidLiteral`) of absolute value at
/// most `MAX_VAR` (else `OutOfBounds`); the first failing token decides.
pub open spec fn clause_from(toks: Seq<Seq<char>>, k: int) -> Result<Seq<Lit>, DimacsError>
    decreases toks.len() - k,
{
    if k < 0 || k >= toks.len() || is_end_token(toks[k]) {
        Ok(Seq::empty())
    } else {
        match parse_i32_spec(toks[k]) {
            None => Err(DimacsError::InvalidLiteral),
            Some(v) => if abs_int(v) > MAX_VAR {
                Err(DimacsError::OutOfBounds)
            } else {
                prepend(seq![lit_of(v)], clause_from(toks, k + 1))
            },
        }
    }
}

/// Token `t` is a number `v` of a clause (no `0` ending it), an `i32` with
/// `|v| <= MAX_VAR`, and literal `l` is what a non-zero `v` stands for:
/// variable `|v| - 1`, positive when `v > 0` and negative when `v < 0`.
pub open spec fn token_gives(t: Seq<char>, l: Lit) -> bool {
    &&& !is_end_token(t)
    &&& parse_i32_spec(t) is Some
    &&& abs_int(parse_i32_spec(t)->Some_0) <= MAX_VAR
    &&& parse_i32_spec(t)->Some_0 != 0 ==> {
        &&& l.var_spec() == abs_int(parse_i32_spec(t)->Some_0) - 1
        &&& l.is_pos_spec() == (parse_i32_spec(t)->Some_0 > 0)
    }
}

/// The clause of the tokens from `k` on has one literal per token before the
/// first `0` token (or the end), each the one its token gives (`token_gives`).
pub proof fn lemma_clause_literals(toks: Seq<Seq<char>>, k: int)
    requires
        0 <= k <= toks.len(),
        clause_from(toks, k) is Ok,
    ensures
        k + clause_from(toks, k)->Ok_0.len() <= toks.len(),
        k + clause_from(toks, k)->Ok_0.len() == toks.len() || is_end_token(toks[k + clause_from(toks, k)->Ok_0.len()]),
        forall|j: int| 0 <= j < clause_from(toks, k)->Ok_0.len() ==> token_gives(toks[k + j], #[trigger] clause_from(toks, k)->Ok_0[j]),
    decreases toks.len() - k,
{
    if k < toks.len() && !is_end_token(toks[k]) {
        let v = parse_i32_spec(toks[k])->Some_0;
        lemma_clause_literals(toks, k + 1);
        let rest = clause_from(toks, k + 1)->Ok_0;
        let c = clause_from(toks, k)->Ok_0;
        assert(c == seq![lit_of(v)] + rest);
        assert(c.len() == rest.len() + 1);
        if v != 0 {
            lemma_new_roundtrip((abs_int(v) - 1) as nat, v < 0);
        }
        assert(token_gives(toks[k], c[0]));
        assert forall|j: int| 0 <= j < c.len() implies token_gives(toks[k + j], #[trigger] c[j]) by {
            if j > 0 {
                assert(c[j] == rest[j - 1]);
                assert(token_gives(toks[k + 1 + (j - 1)], rest[j - 1]));
                assert(k + 1 + (j - 1) == k + j);
            }
        }
    }
}

/// Reading the tokens from `k` on meets a token whose value is 0 (such as `-0`)
/// before any failing token and before the end: the variable number then has no
/// literal.
pub open spec fn zero_from(toks: Seq<Seq<char>>, k: int) -> bool
    decreases toks.len() - k,
{
    if k < 0 || k >= toks.len() || is_end_token(toks[k]) {
        false
    } else {
        match parse_i32_spec(toks[k]) {
            None => false,
            Some(v) => if abs_int(v) > MAX_VAR {
                false
            } else if v == 0 {
                true
            } else {
                zero_from(toks, k + 1)
            },
        }
    }
}

/// The line is skipped: it is blank, or its first non-white character is `c` (a
/// comment) or `p` (the problem line).
pub open spec fn line_skipped(s: Seq<char>) -> bool {
    tokens(s).len() == 0 || tokens(s)[0][0] == 'c' || tokens(s)[0][0] == 'p'
}

/// What a line gives: nothing for a skipped line, otherwise its clause or the
/// reason it is refused.
pub open spec fn parse_line_spec(s: Seq<char>) -> Result<Option<Seq<Lit>>, DimacsError> {
    if line_skipped(s) {
        Ok(None)
    } else {
        match clause_from(tokens(s), 0) {
            Ok(c) => Ok(Some(c)),
            Err(e) => Err(e),
        }
    }
}

/// The clause line names variable number 0 (see `zero_from`).
pub open spec fn line_has_zero(s: Seq<char>) -> bool {
    !line_skipped(s) && zero_from(tokens(s), 0)
}

/// The clause of a clause line has one literal per token before the first `0`
/// token (or the end of the line), each the one its token gives: the line
/// `9 -3 0` gives variable 8, positive, then variable 2, negative.
pub proof fn lemma_line_literals(s: Seq<char>)
    requires
        parse_line_spec(s) is Ok,
        parse_line_spec(s)->Ok_0 is Some,
    ensures
        ({
            let c = parse_line_spec(s)->Ok_0->Some_0;
            let toks = tokens(s);
            &&& c.len() <= toks.len()
            &&& c.len() == toks.len() || is_end_token(toks[c.len() as int])
            &&& forall|j: int| 0 <= j < c.len() ==> token_gives(toks[j], #[trigger] c[j])
        }),
{
    lemma_clause_literals(tokens(s), 0);
    let c = parse_line_spec(s)->Ok_0->Some_0;
    assert forall|j: int| 0 <= j < c.len() implies token_gives(tokens(s)[j], #[trigger] c[j]) by {
        assert(token_gives(tokens(s)[0 + j], clause_from(tokens(s), 0)->Ok_0[j]));
    }
}

/// The characters of `s`.
pub fn chars_of(s: &str) -> (v: Vec<char>)
    ensures
        v@ == s@,
{
    let mut v: Vec<char> = Vec::new();
    for c in it: s.chars()
        invariant
            v@ == it.seq().subrange(0, it.index() as int),
    {
        v.push(c);
    }
    v
}

/// Whether the token is `0`.
fn is_end(tok: &Vec<char>) -> (b: bool)
    ensures
        b == is_end_token(tok@),
{
    let b = tok.len() == 1 && tok[0] == '0';
    proof {
        if tok@.len() == 1 && tok@[0] == '0' {
            assert(tok@ =~= seq!['0']);
        }
    }
    b
}

/// Whether the tokens make a skipped line.
fn skipped(toks: &Vec<Vec<char>>, Ghost(s): Ghost<Seq<char>>) -> (b: bool)
    requires
        toks@.len() == tokens(s).len(),
        forall|k: int| 0 <= k < toks@.len() ==> (#[trigger] toks@[k])@ == tokens(s)[k],
    ensures
        b == line_skipped(s),
{
    proof {
        lemma_tokens_shape(s);
    }
    if toks.len() == 0 {
        return true;
    }
    let first = toks[0][0];
    first == 'c' || first == 'p'
}

/// Parses one line of a DIMACS file: `None` for a blank, comment (`c`) or
/// problem (`p`) line, else the clause of its signed variable numbers up to `0`,
/// the number `k` standing for variable `|k| - 1`.
pub fn parse_line(line: &str) -> (r: Result<Option<Vec<Lit>>, DimacsError>)
    requires
        !line_has_zero(line@),
    ensures
        match parse_line_spec(line@) {
            Ok(None) => r == Ok::<Option<Vec<Lit>>, DimacsError>(None),
            Ok(Some(c)) => r is Ok && r->Ok_0 is Some && r->Ok_0->Some_0@ == c,
            Err(e) => r == Err::<Option<Vec<Lit>>, DimacsError>(e),
        },
{
    let chars = chars_of(line);
    let toks = split_tokens(chars.as_slice());
    let ghost s = line@;
    let ghost t = tokens(s);
    if skipped(&toks, Ghost(s)) {
        return Ok(None);
    }
    let mut lits: Vec<Lit> = Vec::new();
    let n = toks.len();
    let mut k: usize = 0;
    proof {
        assert(lits@ + Seq::<Lit>::empty() =~= lits@);
        assert(prepend(lits@, clause_from(t, 0)) == clause_from(t, 0)) by {
            if clause_from(t, 0) is Ok {
                assert(Seq::<Lit>::empty() + clause_from(t, 0)->Ok_0 =~= clause_from(t, 0)->Ok_0);
            }
        }
    }
    while k < n
        invariant
            n == t.len(),
            toks@.len() == n,
            forall|j: int| 0 <= j < n ==> (#[trigger] toks@[j])@ == t[j],
            0 <= k <= n,
            t == tokens(line@),
            !line_skipped(line@),
            clause_from(t, 0) == prepend(lits@, clause_from(t, k as int)),
            zero_from(t, 0) == zero_from(t, k as int),
            !zero_from(t, 0),
        ensures
            clause_from(t, k as int) == Ok::<Seq<Lit>, DimacsError>(Seq::empty()),
        decreases n - k,
    {
        if is_end(&toks[k]) {
            break;
        }
        let parsed = parse_i32(toks[k].as_slice());
        let v = match parsed {
            None => {
                return Err(DimacsError::InvalidLiteral);
            },
            Some(v) => v,
        };
        let a: i64 = if v < 0 { -(v as i64) } else { v as i64 };
        if a > MAX_VAR as i64 {
            return Err(DimacsError::OutOfBounds);
        }
        let lit = Lit::new((a - 1) as usize, v < 0);
        proof {
            let rest = clause_from(t, k + 1);
            assert(clause_from(t, k as int) == prepend(seq![lit], rest));
            if rest is Ok {
                assert(lits@ + (seq![lit] + rest->Ok_0) =~= lits@.push(lit) + rest->Ok_0);
            }
        }
        lits.push(lit);
        k = k + 1;
    }
    proof {
        assert(lits@ + Seq::<Lit>::empty() =~= lits@);
    }
    Ok(Some(lits))
}

/// Whether the line names variable number 0 (see `line_has_zero`).
pub fn has_zero_literal(line: &str) -> (b: bool)
    ensures
        b == line_has_zero(line@),
{
    let chars = chars_of(line);
    let toks = split_tokens(chars.as_slice());
    let ghost t = tokens(line@);
    if skipped(&toks, Ghost(line@)) {
        return false;
    }
    let n = toks.len();
    let mut k: usize = 0;
    while k < n
        invariant
            n == t.len(),
            toks@.len() == n,
            forall|j: int| 0 <= j < n ==> (#[trigger] toks@[j])@ == t[j],
            0 <= k <= n,
            t == tokens(line@),
            !line_skipped(line@),
            zero_from(t, 0) == zero_from(t, k as int),
        decreases n - k,
    {
        if is_end(&toks[k]) {
            return false;
        }
        let v = match parse_i32(toks[k].as_slice()) {
            None => {
                return false;
            },
            Some(v) => v,
        };
        let a: i64 = if v < 0 { -(v as i64) } else { v as i64 };
        if a > MAX_VAR as i64 {
            return false;
        }
        if v == 0 {
            return true;
        }
        k = k + 1;
    }
    false
}

/// The outcome of reading the lines `ls`: the clauses of the clause lines, in
/// order, or the error of the first line that fails; a clause with no literal
/// fails with the number of its line (counted from 1).
pub open spec fn lines_outcome(ls: Seq<Seq<char>>) -> Result<Seq<Seq<Lit>>, DimacsError>
    decreases ls.len(),
{
    if ls.len() == 0 {
        Ok(Seq::empty())
    } else {
        match lines_outcome(ls.drop_last()) {
            Err(e) => Err(e),
            Ok(cs) => match parse_line_spec(ls.last()) {
                Err(e) => Err(e),
                Ok(None) => Ok(cs),
                Ok(Some(c)) => if c.len() == 0 {
                    Err(DimacsError::TriviallyUnsat(ls.len() as usize))
                } else {
                    Ok(cs.push(c))
                },
            },
        }
    }
}

/// Reading `ls` reaches a line that names variable number 0 before any failure.
pub open spec fn lines_reach_zero(ls: Seq<Seq<char>>) -> bool
    decreases ls.len(),
{
    if ls.len() == 0 {
        false
    } else {
        lines_reach_zero(ls.drop_last()) || (lines_outcome(ls.drop_last()) is Ok && line_has_zero(ls.last()))
    }
}

/// The stored clauses, the trail and the values of a solver to which the
/// non-empty clauses `cs` were added in order (see `clause_added`).
pub open spec fn model_after(cs: Seq<Seq<Lit>>) -> (Seq<Seq<Lit>>, Seq<Lit>, Seq<Assignment>)
    decreases cs.len(),
{
    if cs.len() == 0 {
        (Seq::empty(), Seq::empty(), Seq::empty())
    } else {
        let prev = model_after(cs.drop_last());
        let lits = cs.last();
        let d = dedup(lits);
        let n = if var_bound(lits) <= prev.2.len() { prev.2.len() } else { var_bound(lits) };
        let grown = prev.2 + Seq::new((n - prev.2.len()) as nat, |i: int| Assignment(3));
        if is_tautology(lits) {
            (prev.0, prev.1, grown)
        } else if d.len() == 1 {
            (prev.0, prev.1.push(d[0]), grown.update(d[0].var_spec() as int, Assignment::of_bool(d[0].is_pos_spec())))
        } else {
            (prev.0.push(d), prev.1, grown)
        }
    }
}

/// The solver holds what adding the clauses `cs` in order gives.
pub open spec fn holds_model(s: Solver, cs: Seq<Seq<Lit>>) -> bool {
    let m = model_after(cs);
    &&& s.clause_seqs() == m.0
    &&& s.trail_seq() == m.1
    &&& s.values() == m.2
    &&& s.trail_lim_seq().len() == 0
    &&& s.formula() == cs
}

/// A clause line of `line` has at most `u32::MAX` literals, and its clause
/// comes after `stored` clauses, fewer than `NULL_CLAUSE - 1`: the store can
/// take it.
pub open spec fn clause_fits(stored: nat, line: Seq<char>) -> bool {
    parse_line_spec(line) is Ok && parse_line_spec(line)->Ok_0 is Some ==> {
        &&& parse_line_spec(line)->Ok_0->Some_0.len() <= u32::MAX
        &&& stored + 1 < NULL_CLAUSE
    }
}

/// Every clause line that is reached, up to the first line that fails, fits
/// the clause store after the clauses of the lines before it.
pub open spec fn lines_fit(ls: Seq<Seq<char>>) -> bool
    decreases ls.len(),
{
    if ls.len() == 0 {
        true
    } else {
        &&& lines_fit(ls.drop_last())
        &&& lines_outcome(ls.drop_last()) is Ok ==> clause_fits(lines_outcome(ls.drop_last())->Ok_0.len(), ls.last())
    }
}

/// The lines before line `k` fit too.
pub proof fn lemma_lines_fit_prefix(ls: Seq<Seq<char>>, k: int)
    requires
        0 <= k <= ls.len(),
        lines_fit(ls),
    ensures
        lines_fit(ls.subrange(0, k)),
    decreases ls.len(),
{
    if k == ls.len() {
        assert(ls.subrange(0, k) =~= ls);
    } else {
        assert(ls.drop_last().subrange(0, k) =~= ls.subrange(0, k));
        lemma_lines_fit_prefix(ls.drop_last(), k);
    }
}

/// A solver built from clauses `cs` stores at most as many clauses.
pub proof fn lemma_model_after_len(cs: Seq<Seq<Lit>>)
    ensures
        model_after(cs).0.len() <= cs.len(),
    decreases cs.len(),
{
    if cs.len() > 0 {
        lemma_model_after_len(cs.drop_last());
    }
}

/// Reads line `line_no` (counted from 1) into `solver`: a skipped line changes
/// nothing; a clause line adds its clause; a refused line, or a clause with no
/// literal, is an error and adds nothing. A clause line must fit the store
/// (`clause_fits`: at most `u32::MAX` literals, and a clause id left for it).
pub fn add_line(solver: &mut Solver, line_no: usize, line: &str) -> (r: Result<(), DimacsError>)
    requires
        old(solver).wf(),
        old(solver).trail_ok(),
        old(solver).trail_lim_seq().len() == 0,
        clause_fits(old(solver).clause_seqs().len(), line@),
        !line_has_zero(line@),
    ensures
        final(solver).wf(),
        final(solver).trail_ok(),
        final(solver).trail_lim_seq().len() == 0,
        old(solver).formula_covered() ==> final(solver).formula_covered(),
        vars_below(old(solver).formula(), old(solver).nvars()) ==> vars_below(final(solver).formula(), final(solver).nvars()),
        forall|l: Lit| #[trigger] final(solver).watch_list_of(l) == old(solver).watch_list_of(l),
        match parse_line_spec(line@) {
            Err(e) => r == Err::<(), DimacsError>(e),
            Ok(None) => r is Ok && *final(solver) == *old(solver),
            Ok(Some(c)) => if c.len() == 0 {
                r == Err::<(), DimacsError>(DimacsError::TriviallyUnsat(line_no))
            } else {
                r is Ok && clause_added(*old(solver), *final(solver), c)
            },
        },
{
    let parsed = parse_line(line);
    match parsed {
        Err(e) => Err(e),
        Ok(None) => Ok(()),
        Ok(Some(clause)) => {
            proof {
                solver.lemma_loose_of_ok();
            }
            match solver.add_clause(clause.as_slice()) {
                None => Err(DimacsError::TriviallyUnsat(line_no)),
                Some(_) => Ok(()),
            }
        },
    }
}

/// The characters of each line.
pub open spec fn line_views(lines: Seq<String>) -> Seq<Seq<char>> {
    lines.map_values(|l: String| l@)
}

/// Once a prefix of the lines fails, the whole fails the same way.
pub proof fn lemma_outcome_err_extends(ls: Seq<Seq<char>>, i: int)
    requires
        0 <= i <= ls.len(),
        lines_outcome(ls.subrange(0, i)) is Err,
    ensures
        lines_outcome(ls) == lines_outcome(ls.subrange(0, i)),
    decreases ls.len(),
{
    if i == ls.len() {
        assert(ls.subrange(0, i) =~= ls);
    } else {
        assert(ls.drop_last().subrange(0, i) =~= ls.subrange(0, i));
        lemma_outcome_err_extends(ls.drop_last(), i);
    }
}

/// A line that names variable number 0 after a prefix that reads fine is reached.
pub proof fn lemma_reach_zero_at(ls: Seq<Seq<char>>, i: int)
    requires
        0 <= i < ls.len(),
        lines_outcome(ls.subrange(0, i)) is Ok,
        line_has_zero(ls[i]),
    ensures
        lines_reach_zero(ls),
    decreases ls.len(),
{
    if i == ls.len() - 1 {
        assert(ls.drop_last() =~= ls.subrange(0, i));
    } else {
        assert(ls.drop_last().subrange(0, i) =~= ls.subrange(0, i));
        assert(ls.drop_last()[i] == ls[i]);
        lemma_reach_zero_at(ls.drop_last(), i);
    }
}

/// Reads a DIMACS CNF text, given as its lines, into a new solver. Blank lines,
/// comment lines (`c`) and the problem line (`p`) are skipped; every other line
/// is a clause of signed variable numbers ended by `0`, the number `k` standing
/// for variable `|k| - 1`. The first line that fails decides the error: a token
/// that is no `i32`, a variable beyond `MAX_VAR`, or a clause with no literal.
/// Every clause line reached must fit the store (`lines_fit`).
pub fn from_reader(lines: &[String]) -> (r: Result<Solver, DimacsError>)
    requires
        lines_fit(line_views(lines@)),
        !lines_reach_zero(line_views(lines@)),
    ensures
        r is Ok <==> lines_outcome(line_views(lines@)) is Ok,
        r is Ok ==> {
            &&& r->Ok_0.wf()
            &&& r->Ok_0.trail_ok()
            &&& holds_model(r->Ok_0, lines_outcome(line_views(lines@))->Ok_0)
            &&& r->Ok_0.formula_covered()
            &&& r->Ok_0.trail_loose()
            &&& r->Ok_0.formula_covered_loose()
            &&& vars_below(r->Ok_0.formula(), r->Ok_0.nvars())
            &&& forall|l: Lit| #[trigger] r->Ok_0.watch_list_of(l).len() == 0
        },
        r is Err ==> lines_outcome(line_views(lines@)) == Err::<Seq<Seq<Lit>>, DimacsError>(r->Err_0),
{
    let ghost ls = line_views(lines@);
    let mut solver = Solver::new();
    let n = lines.len();
    let mut i: usize = 0;
    proof {
        assert(ls.subrange(0, 0) =~= Seq::<Seq<char>>::empty());
        assert(model_after(Seq::empty()).2 =~= solver.values()) by {
            solver.lemma_nvars();
        }
    }
    while i < n
        invariant
            n == lines@.len(),
            ls == line_views(lines@),
            lines_fit(ls),
            !lines_reach_zero(ls),
            0 <= i <= n,
            solver.wf(),
            solver.trail_ok(),
            lines_outcome(ls.subrange(0, i as int)) is Ok,
            holds_model(solver, lines_outcome(ls.subrange(0, i as int))->Ok_0),
            solver.formula_covered(),
            vars_below(solver.formula(), solver.nvars()),
            forall|l: Lit| #[trigger] solver.watch_list_of(l).len() == 0,
        decreases n - i,
    {
        let ghost pre = solver;
        let ghost prefix = ls.subrange(0, i as int);
        let ghost next = ls.subrange(0, i + 1);
        let ghost cs = lines_outcome(prefix)->Ok_0;
        proof {
            assert(next.drop_last() =~= prefix);
            assert(next.last() == lines@[i as int]@);
            assert(ls[i as int] == lines@[i as int]@);
            if line_has_zero(ls[i as int]) {
                lemma_reach_zero_at(ls, i as int);
            }
            lemma_lines_fit_prefix(ls, i + 1);
            lemma_model_after_len(cs);
        }
        let res = add_line(&mut solver, i + 1, lines[i].as_str());
        if let Err(e) = res {
            proof {
                lemma_outcome_err_extends(ls, i + 1);
            }
            return Err(e);
        }
        proof {
            match parse_line_spec(ls[i as int]) {
                Ok(Some(c)) => {
                    pre.lemma_nvars();
                    solver.lemma_nvars();
                    assert(cs.push(c).drop_last() =~= cs);
                    assert(lines_outcome(next) == Ok::<Seq<Seq<Lit>>, DimacsError>(cs.push(c)));
                },
                _ => {},
            }
        }
        i = i + 1;
    }
    proof {
        assert(ls.subrange(0, n as int) =~= ls);
        solver.lemma_loose_of_strict();
    }
    Ok(solver)
}


} // verus!
