//! Formulas: a value that starts with `=` is an expression whose cell
//! references (`[A-Z]+[0-9]+`) are replaced by the numbers stored there.

use vstd::prelude::*;
use vstd::string::*;

verus! {

/// The expression body of a formula: the text after a single leading `=`.
pub open spec fn body_of(expr: Seq<char>) -> Seq<char> {
    if expr.len() > 0 && expr[0] == '=' {
        expr.drop_first()
    } else {
        expr
    }
}

pub open spec fn is_letter(c: char) -> bool {
    'A' <= c && c <= 'Z'
}

pub open spec fn is_digit(c: char) -> bool {
    '0' <= c && c <= '9'
}

/// Where the run of capital letters that starts at `i` ends.
pub open spec fn letter_run_end(s: Seq<char>, i: int) -> int
    decreases s.len() - i,
{
    if 0 <= i < s.len() && is_letter(s[i]) {
        letter_run_end(s, i + 1)
    } else {
        i
    }
}

/// Where the run of decimal digits that starts at `i` ends.
pub open spec fn digit_run_end(s: Seq<char>, i: int) -> int
    decreases s.len() - i,
{
    if 0 <= i < s.len() && is_digit(s[i]) {
        digit_run_end(s, i + 1)
    } else {
        i
    }
}

/// The cell references of `s` from position `i` on, scanned left to right
/// without overlap. Each is `(start, split, end)`: letters in `start..split`,
/// digits in `split..end`.
pub open spec fn spans_from(s: Seq<char>, i: int) -> Seq<(int, int, int)>
    decreases s.len() - i,
    via spans_from_decreases
{
    if i < 0 || i >= s.len() {
        Seq::empty()
    } else if is_letter(s[i]) {
        let m = letter_run_end(s, i);
        if m < s.len() && is_digit(s[m]) {
            let e = digit_run_end(s, m);
            seq![(i, m, e)] + spans_from(s, e)
        } else {
            spans_from(s, m)
        }
    } else {
        spans_from(s, i + 1)
    }
}

#[via_fn]
proof fn spans_from_decreases(s: Seq<char>, i: int) {
    if 0 <= i < s.len() && is_letter(s[i]) {
        lemma_letter_run(s, i);
        let m = letter_run_end(s, i);
        if m < s.len() && is_digit(s[m]) {
            lemma_digit_run(s, m);
        }
    }
}

/// All cell references of `s`.
pub open spec fn reference_spans(s: Seq<char>) -> Seq<(int, int, int)> {
    spans_from(s, 0)
}

proof fn lemma_letter_run(s: Seq<char>, i: int)
    requires
        0 <= i <= s.len(),
    ensures
        i <= letter_run_end(s, i) <= s.len(),
        i < s.len() && is_letter(s[i]) ==> i < letter_run_end(s, i),
        forall|k: int| i <= k < letter_run_end(s, i) ==> is_letter(#[trigger] s[k]),
        letter_run_end(s, i) < s.len() ==> !is_letter(s[letter_run_end(s, i)]),
    decreases s.len() - i,
{
    if i < s.len() && is_letter(s[i]) {
        lemma_letter_run(s, i + 1);
    }
}

proof fn lemma_digit_run(s: Seq<char>, i: int)
    requires
        0 <= i <= s.len(),
    ensures
        i <= digit_run_end(s, i) <= s.len(),
        i < s.len() && is_digit(s[i]) ==> i < digit_run_end(s, i),
        forall|k: int| i <= k < digit_run_end(s, i) ==> is_digit(#[trigger] s[k]),
        digit_run_end(s, i) < s.len() ==> !is_digit(s[digit_run_end(s, i)]),
    decreases s.len() - i,
{
    if i < s.len() && is_digit(s[i]) {
        lemma_digit_run(s, i + 1);
    }
}

/// The spans of `spans_from(s, i)` lie inside `i..s.len()`, in order, and
/// each holds letters then digits.
proof fn lemma_spans_ordered(s: Seq<char>, i: int)
    requires
        0 <= i <= s.len(),
    ensures
        spans_ordered(s, spans_from(s, i), i),
    decreases s.len() - i,
{
    if i < s.len() {
        if is_letter(s[i]) {
            lemma_letter_run(s, i);
            let m = letter_run_end(s, i);
            if m < s.len() && is_digit(s[m]) {
                lemma_digit_run(s, m);
                let e = digit_run_end(s, m);
                lemma_spans_ordered(s, e);
                let rest = spans_from(s, e);
                let all = seq![(i, m, e)] + rest;
                assert(all == spans_from(s, i));
                assert forall|k: int| 0 <= k < all.len() implies span_ok(s, #[trigger] all[k], i)
                    by {
                    if k > 0 {
                        assert(all[k] == rest[k - 1]);
                    }
                }
                assert forall|k: int| 0 <= k < all.len() - 1 implies #[trigger] all[k].2 <= all[k
                    + 1].0 by {
                    if k > 0 {
                        assert(all[k] == rest[k - 1]);
                    } else if rest.len() > 0 {
                        assert(span_ok(s, rest[0], e));
                    }
                }
            } else {
                lemma_spans_ordered(s, m);
            }
        } else {
            lemma_spans_ordered(s, i + 1);
        }
    }
}

pub open spec fn span_ok(s: Seq<char>, sp: (int, int, int), lo: int) -> bool {
    &&& lo <= sp.0 < sp.1 < sp.2 <= s.len()
    &&& forall|k: int| sp.0 <= k < sp.1 ==> is_letter(#[trigger] s[k])
    &&& forall|k: int| sp.1 <= k < sp.2 ==> is_digit(#[trigger] s[k])
}

pub open spec fn spans_ordered(s: Seq<char>, sps: Seq<(int, int, int)>, lo: int) -> bool {
    &&& forall|k: int| 0 <= k < sps.len() ==> span_ok(s, #[trigger] sps[k], lo)
    &&& forall|k: int| 0 <= k < sps.len() - 1 ==> #[trigger] sps[k].2 <= sps[k + 1].0
}

/// The value of the numeral `s` in positional notation with the given base,
/// where character `c` stands for the digit `c - origin`.
pub open spec fn numeral(s: Seq<char>, base: int, origin: int) -> int
    decreases s.len(),
{
    if s.len() == 0 {
        0
    } else {
        numeral(s.drop_last(), base, origin) * base + (s.last() as u32 as int - origin)
    }
}

/// Spreadsheet column numbering: `A` is 1, `Z` is 26, `AA` is 27.
pub open spec fn column_number(letters: Seq<char>) -> int {
    numeral(letters, 26, 'A' as u32 as int - 1)
}

pub open spec fn row_number(digits: Seq<char>) -> int {
    numeral(digits, 10, '0' as u32 as int)
}

/// The zero-based index for a one-based number, where it fits an `i32`.
pub open spec fn zero_based(n: int) -> Option<i32> {
    if i32::MIN <= n - 1 <= i32::MAX {
        Some((n - 1) as i32)
    } else {
        None
    }
}

pub open spec fn digits_in(s: Seq<char>, base: int, origin: int) -> bool {
    forall|k: int| 0 <= k < s.len() ==> 0 <= #[trigger] s[k] as u32 as int - origin <= base
}

proof fn lemma_numeral_nonneg(s: Seq<char>, base: int, origin: int)
    requires
        base >= 1,
        digits_in(s, base, origin),
    ensures
        0 <= numeral(s, base, origin),
    decreases s.len(),
{
    if s.len() > 0 {
        let t = s.drop_last();
        assert(digits_in(t, base, origin)) by {
            assert forall|j: int| 0 <= j < t.len() implies 0 <= #[trigger] t[j] as u32 as int - origin
                <= base by {
                assert(t[j] == s[j]);
            }
        }
        lemma_numeral_nonneg(t, base, origin);
        let v = numeral(t, base, origin);
        assert(0 <= s.last() as u32 as int - origin);
        assert(v * base >= 0) by (nonlinear_arith)
            requires
                v >= 0,
                base >= 1,
        ;
    }
}

proof fn lemma_numeral_grows(s: Seq<char>, k: int, base: int, origin: int)
    requires
        0 <= k <= s.len(),
        base >= 1,
        digits_in(s, base, origin),
    ensures
        0 <= numeral(s.subrange(0, k), base, origin) <= numeral(s, base, origin),
    decreases s.len(),
{
    lemma_numeral_nonneg(s, base, origin);
    if k < s.len() {
        let t = s.drop_last();
        assert(t.subrange(0, k) =~= s.subrange(0, k));
        assert(digits_in(t, base, origin)) by {
            assert forall|j: int| 0 <= j < t.len() implies 0 <= #[trigger] t[j] as u32 as int - origin
                <= base by {
                assert(t[j] == s[j]);
            }
        }
        lemma_numeral_grows(t, k, base, origin);
        lemma_numeral_nonneg(t, base, origin);
        let v = numeral(t, base, origin);
        assert(0 <= s.last() as u32 as int - origin);
        assert(v * base >= v) by (nonlinear_arith)
            requires
                v >= 0,
                base >= 1,
        ;
    } else {
        assert(s.subrange(0, k) =~= s);
    }
}

/// Reads `cs[from..to]` as a numeral and turns it into a zero-based index.
fn decode_index(cs: &Vec<char>, from: usize, to: usize, base: u64, origin: u32) -> (r: Option<
    i32,
>)
    requires
        from <= to <= cs@.len(),
        1 <= base <= 26,
        digits_in(cs@.subrange(from as int, to as int), base as int, origin as int),
    ensures
        r == zero_based(numeral(cs@.subrange(from as int, to as int), base as int, origin as int)),
{
    let ghost s = cs@.subrange(from as int, to as int);
    let limit: u64 = 0x8000_0000;
    let mut acc: u64 = 0;
    let mut k: usize = from;
    while k < to
        invariant
            from <= k <= to <= cs@.len(),
            1 <= base <= 26,
            s == cs@.subrange(from as int, to as int),
            digits_in(s, base as int, origin as int),
            acc as int == numeral(s.subrange(0, k - from), base as int, origin as int),
            acc <= limit,
            limit == 0x8000_0000,
        decreases to - k,
    {
        let ghost prev = s.subrange(0, k - from);
        let ghost next = s.subrange(0, k + 1 - from);
        assert(next.drop_last() =~= prev);
        assert(next.last() == cs@[k as int]);
        assert(s[k - from] == cs@[k as int]);
        assert(0 <= s[k - from] as u32 as int - origin <= base);
        let c: u32 = cs[k] as u32;
        assert(c == s[k - from] as u32);
        let d = (c - origin) as u64;
        assert(acc * base <= limit * 26) by (nonlinear_arith)
            requires
                acc <= limit,
                base <= 26,
        ;
        acc = acc * base + d;
        k = k + 1;
        if acc > limit {
            proof {
                lemma_numeral_grows(s, k - from, base as int, origin as int);
                assert(s.subrange(0, s.len() as int) =~= s);
            }
            return None;
        }
    }
    assert(s.subrange(0, to - from) =~= s);
    Some((acc as i64 - 1) as i32)
}

/// A reference starts at `a`: a run of capitals begins there, not inside a
/// longer run, and a digit follows the run.
pub open spec fn starts_reference(s: Seq<char>, a: int) -> bool {
    &&& 0 <= a < s.len()
    &&& is_letter(s[a])
    &&& (a == 0 || !is_letter(s[a - 1]))
    &&& letter_run_end(s, a) < s.len()
    &&& is_digit(s[letter_run_end(s, a)])
}

/// Some span of `sps` starts at `a`.
pub open spec fn has_start(sps: Seq<(int, int, int)>, a: int) -> bool {
    exists|k: int| 0 <= k < sps.len() && #[trigger] sps[k].0 == a
}

proof fn lemma_starts_from(s: Seq<char>, i: int)
    requires
        0 <= i <= s.len(),
        i == 0 || i == s.len() || !is_letter(s[i - 1]) || !is_letter(s[i]),
    ensures
        forall|a: int|
            #[trigger] has_start(spans_from(s, i), a) <==> (i <= a && starts_reference(s, a)),
        forall|k: int|
            0 <= k < spans_from(s, i).len() ==> {
                let sp = #[trigger] spans_from(s, i)[k];
                sp.1 == letter_run_end(s, sp.0) && sp.2 == digit_run_end(s, sp.1)
            },
    decreases s.len() - i,
{
    let sps = spans_from(s, i);
    if i < s.len() {
        if is_letter(s[i]) {
            lemma_letter_run(s, i);
            let m = letter_run_end(s, i);
            if m < s.len() && is_digit(s[m]) {
                lemma_digit_run(s, m);
                let e = digit_run_end(s, m);
                lemma_starts_from(s, e);
                let rest = spans_from(s, e);
                assert(sps == seq![(i, m, e)] + rest);
                assert forall|a: int| #[trigger] has_start(sps, a) implies i <= a
                    && starts_reference(s, a) by {
                    let k = choose|k: int| 0 <= k < sps.len() && #[trigger] sps[k].0 == a;
                    if k > 0 {
                        assert(rest[k - 1].0 == a);
                        assert(has_start(rest, a));
                    }
                }
                assert forall|a: int| i <= a && starts_reference(s, a) implies #[trigger] has_start(
                    sps,
                    a,
                ) by {
                    if a == i {
                        assert(sps[0].0 == a);
                    } else if a < m {
                        assert(is_letter(s[a - 1]));
                    } else if a < e {
                        assert(is_digit(s[a]));
                    } else {
                        assert(has_start(rest, a));
                        let k = choose|k: int| 0 <= k < rest.len() && #[trigger] rest[k].0 == a;
                        assert(sps[k + 1].0 == a);
                    }
                }
                assert forall|k: int| 0 <= k < sps.len() implies {
                    let sp = #[trigger] sps[k];
                    sp.1 == letter_run_end(s, sp.0) && sp.2 == digit_run_end(s, sp.1)
                } by {
                    if k > 0 {
                        assert(sps[k] == rest[k - 1]);
                    }
                }
            } else {
                lemma_starts_from(s, m);
                assert forall|a: int| i <= a && starts_reference(s, a) implies #[trigger] has_start(
                    sps,
                    a,
                ) by {
                    if a < m {
                        if a > i {
                            assert(is_letter(s[a - 1]));
                        }
                    } else {
                        assert(has_start(spans_from(s, m), a));
                    }
                }
                assert forall|a: int| #[trigger] has_start(sps, a) implies i <= a
                    && starts_reference(s, a) by {
                    assert(has_start(spans_from(s, m), a));
                }
            }
        } else {
            lemma_starts_from(s, i + 1);
            assert forall|a: int| #[trigger] has_start(sps, a) <==> (i <= a && starts_reference(s, a)) by {
                assert(has_start(sps, a) == has_start(spans_from(s, i + 1), a));
            }
        }
    }
}

/// The references of a body are exactly its runs of capitals that are not
/// part of a longer run and are followed by a digit; each takes its whole run
/// of capitals and the whole run of digits after it.
pub proof fn lemma_references_are_maximal_runs(s: Seq<char>)
    ensures
        forall|a: int| #[trigger] has_start(reference_spans(s), a) <==> starts_reference(s, a),
        forall|k: int|
            0 <= k < reference_spans(s).len() ==> {
                let sp = #[trigger] reference_spans(s)[k];
                sp.1 == letter_run_end(s, sp.0) && sp.2 == digit_run_end(s, sp.1)
            },
{
    lemma_starts_from(s, 0);
}

/// A formula that is a single reference, to a cell that holds a number,
/// evaluates to that number: the reference is the body's only one, it names
/// the column and row that its letters and digits spell, and substituting the
/// number's text leaves exactly that text.
pub proof fn lemma_lone_reference_resolves(letters: Seq<char>, digits: Seq<char>, number: Seq<char>)
    requires
        letters.len() > 0,
        digits.len() > 0,
        forall|k: int| 0 <= k < letters.len() ==> is_letter(#[trigger] letters[k]),
        forall|k: int| 0 <= k < digits.len() ==> is_digit(#[trigger] digits[k]),
    ensures
        body_of(seq!['='] + letters + digits) == letters + digits,
        reference_spans(letters + digits) == seq![
            (0int, letters.len() as int, (letters.len() + digits.len()) as int),
        ],
        (letters + digits).subrange(0, letters.len() as int) == letters,
        (letters + digits).subrange(letters.len() as int, (letters.len() + digits.len()) as int)
            == digits,
        substituted(letters + digits, seq![number]) == number,
{
    let s = letters + digits;
    let l = letters.len() as int;
    let n = s.len() as int;
    assert((seq!['='] + letters + digits).drop_first() =~= s);
    assert(s[l] == digits[0]);
    lemma_letter_run(s, 0);
    let m = letter_run_end(s, 0);
    if m > l {
        assert(is_letter(s[l]));
    }
    if m < l {
        assert(s[m] == letters[m]);
    }
    assert(m == l);
    lemma_digit_run(s, l);
    let e = digit_run_end(s, l);
    if e < n {
        assert(s[e] == digits[e - l]);
    }
    assert(e == n);
    assert(spans_from(s, n) == Seq::<(int, int, int)>::empty());
    assert(reference_spans(s) =~= seq![(0int, l, n)]);
    assert(s.subrange(0, l) =~= letters);
    assert(s.subrange(l, n) =~= digits);
    let sps = reference_spans(s);
    assert(rewritten(s, sps, seq![number], n, 1) =~= Seq::<char>::empty());
    assert(s.subrange(0, 0) =~= Seq::<char>::empty());
    assert(substituted(s, seq![number]) =~= number);
}

/// The name of column number `n`, counting from 1: `A` to `Z`, then `AA`.
pub open spec fn column_name(n: int) -> Seq<char>
    decreases n,
{
    if n <= 0 {
        Seq::empty()
    } else {
        column_name((n - 1) / 26) + seq![((65 + (n - 1) % 26) as u8) as char]
    }
}

/// The decimal numeral of `n`, without leading zeros.
pub open spec fn decimal(n: int) -> Seq<char>
    decreases n,
{
    if n <= 0 {
        Seq::empty()
    } else if n < 10 {
        seq![((48 + n) as u8) as char]
    } else {
        decimal(n / 10) + seq![((48 + n % 10) as u8) as char]
    }
}

proof fn lemma_column_name(n: int)
    requires
        n >= 1,
    ensures
        column_name(n).len() > 0,
        forall|k: int| 0 <= k < column_name(n).len() ==> is_letter(#[trigger] column_name(n)[k]),
        column_number(column_name(n)) == n,
    decreases n,
{
    let q = (n - 1) / 26;
    let s = column_name(n);
    let c = ((65 + (n - 1) % 26) as u8) as char;
    assert(s == column_name(q) + seq![c]);
    assert(s.drop_last() =~= column_name(q));
    assert(s.last() == c);
    if q >= 1 {
        lemma_column_name(q);
        assert forall|k: int| 0 <= k < s.len() implies is_letter(#[trigger] s[k]) by {
            if k < s.len() - 1 {
                assert(s[k] == column_name(q)[k]);
            }
        }
    } else {
        assert(column_name(q) =~= Seq::<char>::empty());
        assert(numeral(Seq::<char>::empty(), 26, 'A' as u32 as int - 1) == 0);
    }
}

proof fn lemma_decimal(n: int)
    requires
        n >= 1,
    ensures
        decimal(n).len() > 0,
        forall|k: int| 0 <= k < decimal(n).len() ==> is_digit(#[trigger] decimal(n)[k]),
        row_number(decimal(n)) == n,
    decreases n,
{
    let s = decimal(n);
    if n < 10 {
        assert(s.drop_last() =~= Seq::<char>::empty());
        assert(numeral(Seq::<char>::empty(), 10, '0' as u32 as int) == 0);
    } else {
        let q = n / 10;
        lemma_decimal(q);
        assert(s.drop_last() =~= decimal(q));
        assert forall|k: int| 0 <= k < s.len() implies is_digit(#[trigger] s[k]) by {
            if k < s.len() - 1 {
                assert(s[k] == decimal(q)[k]);
            }
        }
    }
}

/// For every cell, the formula `=<column letters><row digits>` that names it
/// has that reference as its only one, decodes to the cell's own zero-based
/// row and column, and with the text of the number stored there substituted
/// becomes exactly that text.
pub proof fn lemma_reference_to_cell_resolves(row: i32, col: i32, number: Seq<char>)
    requires
        0 <= row,
        0 <= col,
    ensures
        ({
            let letters = column_name(col + 1);
            let digits = decimal(row + 1);
            let body = letters + digits;
            &&& body_of(seq!['='] + body) == body
            &&& reference_spans(body) == seq![
                (0int, letters.len() as int, body.len() as int),
            ]
            &&& zero_based(column_number(body.subrange(0, letters.len() as int))) == Some(col)
            &&& zero_based(row_number(body.subrange(letters.len() as int, body.len() as int)))
                == Some(row)
            &&& substituted(body, seq![number]) == number
        }),
{
    let letters = column_name(col + 1);
    let digits = decimal(row + 1);
    lemma_column_name(col + 1);
    lemma_decimal(row + 1);
    lemma_lone_reference_resolves(letters, digits, number);
}

/// Strips one leading `=` from `expr`.
pub fn formula_body(expr: &str) -> (body: String)
    ensures
        body@ == body_of(expr@),
{
    let n = expr.unicode_len();
    if n > 0 && expr.get_char(0) == '=' {
        String::from_str(expr.substring_char(1, n))
    } else {
        String::from_str(expr)
    }
}

fn chars_of(s: &str) -> (cs: Vec<char>)
    ensures
        cs@ == s@,
{
    let n = s.unicode_len();
    let mut cs: Vec<char> = Vec::new();
    let mut i: usize = 0;
    while i < n
        invariant
            i <= n,
            n == s@.len(),
            cs@ == s@.subrange(0, i as int),
        decreases n - i,
    {
        cs.push(s.get_char(i));
        i = i + 1;
    }
    assert(cs@ =~= s@);
    cs
}

fn is_letter_exec(c: char) -> (r: bool)
    ensures
        r == is_letter(c),
{
    'A' <= c && c <= 'Z'
}

fn is_digit_exec(c: char) -> (r: bool)
    ensures
        r == is_digit(c),
{
    '0' <= c && c <= '9'
}

fn scan_spans(cs: &Vec<char>) -> (sps: Vec<(usize, usize, usize)>)
    ensures
        sps@.len() == reference_spans(cs@).len(),
        forall|k: int|
            0 <= k < sps@.len() ==> ((#[trigger] sps@[k]).0 as int, sps@[k].1 as int,
            sps@[k].2 as int) == reference_spans(cs@)[k],
{
    let ghost s = cs@;
    let n = cs.len();
    let mut sps: Vec<(usize, usize, usize)> = Vec::new();
    let mut i: usize = 0;
    while i < n
        invariant
            i <= n,
            n == s.len(),
            s == cs@,
            sps@.len() + spans_from(s, i as int).len() == reference_spans(s).len(),
            forall|k: int|
                0 <= k < sps@.len() ==> ((#[trigger] sps@[k]).0 as int, sps@[k].1 as int,
                sps@[k].2 as int) == reference_spans(s)[k],
            forall|k: int|
                0 <= k < spans_from(s, i as int).len() ==> #[trigger] spans_from(s, i as int)[k]
                    == reference_spans(s)[sps@.len() + k],
        decreases n - i,
    {
        if is_letter_exec(cs[i]) {
            let mut m: usize = i;
            while m < n && is_letter_exec(cs[m])
                invariant
                    i <= m <= n,
                    n == s.len(),
                    s == cs@,
                    letter_run_end(s, m as int) == letter_run_end(s, i as int),
                decreases n - m,
            {
                m = m + 1;
            }
            if m < n && is_digit_exec(cs[m]) {
                let mut e: usize = m;
                while e < n && is_digit_exec(cs[e])
                    invariant
                        m <= e <= n,
                        n == s.len(),
                        s == cs@,
                        digit_run_end(s, e as int) == digit_run_end(s, m as int),
                    decreases n - e,
                {
                    e = e + 1;
                }
                let ghost rest = spans_from(s, e as int);
                assert(spans_from(s, i as int) == seq![(i as int, m as int, e as int)] + rest);
                let ghost before = sps@.len();
                assert(spans_from(s, i as int)[0] == (i as int, m as int, e as int));
                assert forall|k: int| 0 <= k < rest.len() implies #[trigger] rest[k]
                    == reference_spans(s)[before + 1 + k] by {
                    assert(rest[k] == spans_from(s, i as int)[k + 1]);
                }
                sps.push((i, m, e));
                i = e;
            } else {
                i = m;
            }
        } else {
            i = i + 1;
        }
    }
    sps
}


/// A cell reference found in an expression body: where it stands, counted in
/// characters (letters in `start..split`, digits in `split..end`), and the
/// zero-based row and column it names, each where it fits an `i32`.
#[derive(Debug, PartialEq, Eq, Structural, Clone, Copy)]
pub struct CellRef {
    pub start: usize,
    pub split: usize,
    pub end: usize,
    pub row: Option<i32>,
    pub col: Option<i32>,
}

impl CellRef {
    /// The zero-based `(row, col)` that the reference names, where both fit
    /// an `i32`; no cell can stand anywhere else.
    pub fn coordinates(&self) -> (r: Option<(i32, i32)>)
        ensures
            r matches Some(rc) ==> self.row == Some(rc.0) && self.col == Some(rc.1),
            r is None ==> self.row is None || self.col is None,
    {
        match (self.row, self.col) {
            (Some(row), Some(col)) => Some((row, col)),
            _ => None,
        }
    }
}

/// `r` is the reference of `s` at span `sp`, decoded.
pub open spec fn describes(s: Seq<char>, r: CellRef, sp: (int, int, int)) -> bool {
    &&& r.start as int == sp.0
    &&& r.split as int == sp.1
    &&& r.end as int == sp.2
    &&& r.col == zero_based(column_number(s.subrange(sp.0, sp.1)))
    &&& r.row == zero_based(row_number(s.subrange(sp.1, sp.2)))
}

/// The cell references of an expression body, left to right.
pub fn cell_references(body: &str) -> (refs: Vec<CellRef>)
    ensures
        refs@.len() == reference_spans(body@).len(),
        forall|k: int|
            0 <= k < refs@.len() ==> describes(body@, #[trigger] refs@[k], reference_spans(body@)[k]),
{
    let cs = chars_of(body);
    let sps = scan_spans(&cs);
    let ghost s = cs@;
    proof {
        lemma_spans_ordered(s, 0);
    }
    let mut refs: Vec<CellRef> = Vec::new();
    let mut k: usize = 0;
    while k < sps.len()
        invariant
            s == cs@,
            s == body@,
            k <= sps@.len(),
            sps@.len() == reference_spans(s).len(),
            forall|j: int|
                0 <= j < sps@.len() ==> ((#[trigger] sps@[j]).0 as int, sps@[j].1 as int,
                sps@[j].2 as int) == reference_spans(s)[j],
            spans_ordered(s, reference_spans(s), 0),
            refs@.len() == k,
            forall|j: int|
                0 <= j < k ==> describes(s, #[trigger] refs@[j], reference_spans(s)[j]),
        decreases sps@.len() - k,
    {
        let (a, m, e) = sps[k];
        let ghost sp = reference_spans(s)[k as int];
        assert(span_ok(s, sp, 0));
        assert(digits_in(s.subrange(a as int, m as int), 26, 'A' as u32 as int - 1)) by {
            assert forall|j: int| 0 <= j < m - a implies 0 <= #[trigger] s.subrange(
                a as int,
                m as int,
            )[j] as u32 as int - ('A' as u32 as int - 1) <= 26 by {
                assert(is_letter(s[a + j]));
            }
        }
        assert(digits_in(s.subrange(m as int, e as int), 10, '0' as u32 as int)) by {
            assert forall|j: int| 0 <= j < e - m implies 0 <= #[trigger] s.subrange(
                m as int,
                e as int,
            )[j] as u32 as int - '0' as u32 as int <= 10 by {
                assert(is_digit(s[m + j]));
            }
        }
        let col = decode_index(&cs, a, m, 26, 'A' as u32 - 1);
        let row = decode_index(&cs, m, e, 10, '0' as u32);
        refs.push(CellRef { start: a, split: m, end: e, row, col });
        k = k + 1;
    }
    refs
}


/// Why a formula could not be evaluated.
#[derive(Debug, PartialEq, Eq)]
pub enum EvalError {
    /// A reference names no cell holding a number; holds the reference's text.
    Reference(String),
    /// An aggregate function was called with no argument.
    EmptyAggregate(Aggregate),
    /// The expression itself was refused (syntax, unknown function, a type
    /// mismatch); holds the evaluator's message.
    Expression(String),
}

/// The aggregate functions that formulas may call.
#[derive(PartialEq, Eq, Structural, Clone, Copy, Debug)]
pub enum Aggregate {
    Sum,
    Average,
}

/// Whether the reference at index `k` was given a number.
pub open spec fn is_resolved(values: Seq<Option<String>>, k: int) -> bool {
    0 <= k < values.len() && values[k] is Some
}

/// The texts of the numbers given for the references.
pub open spec fn value_texts(values: Seq<Option<String>>) -> Seq<Seq<char>> {
    values.map_values(
        |v: Option<String>|
            match v {
                Some(t) => t@,
                None => Seq::empty(),
            },
    )
}

/// `s` from `pos` on, with the references `sps[k..]` replaced by `vals[k..]`.
pub open spec fn rewritten(
    s: Seq<char>,
    sps: Seq<(int, int, int)>,
    vals: Seq<Seq<char>>,
    pos: int,
    k: int,
) -> Seq<char>
    decreases sps.len() - k,
{
    if k < 0 || k >= sps.len() {
        s.subrange(pos, s.len() as int)
    } else {
        s.subrange(pos, sps[k].0) + vals[k] + rewritten(s, sps, vals, sps[k].2, k + 1)
    }
}

/// `s` with its `k`-th reference replaced by `vals[k]`, for every `k`.
pub open spec fn substituted(s: Seq<char>, vals: Seq<Seq<char>>) -> Seq<char> {
    rewritten(s, reference_spans(s), vals, 0, 0)
}

/// `k` is the first reference of `s` that was given no number.
pub open spec fn first_unresolved(s: Seq<char>, values: Seq<Option<String>>, k: int) -> bool {
    &&& 0 <= k < reference_spans(s).len()
    &&& !is_resolved(values, k)
    &&& forall|j: int| 0 <= j < k ==> is_resolved(values, j)
}

/// Replaces each reference of `body` by the number given for it:
/// `values[k]` holds the canonical text of the number stored in the cell that
/// the `k`-th entry of `cell_references(body)` names, or `None` where that
/// cell is absent or holds no number. Fails on the first reference left
/// without a number.
pub fn resolve_references(body: &str, values: &Vec<Option<String>>) -> (r: Result<
    String,
    EvalError,
>)
    ensures
        r is Ok <==> forall|k: int|
            0 <= k < reference_spans(body@).len() ==> is_resolved(values@, k),
        r matches Ok(t) ==> t@ == substituted(body@, value_texts(values@)),
        r matches Err(e) ==> e matches EvalError::Reference(t) && exists|k: int|
            first_unresolved(body@, values@, k) && t@ == body@.subrange(
                reference_spans(body@)[k].0,
                reference_spans(body@)[k].2,
            ),
{
    let cs = chars_of(body);
    let sps = scan_spans(&cs);
    let ghost s = cs@;
    let ghost spv = reference_spans(s);
    let ghost vals = value_texts(values@);
    proof {
        lemma_spans_ordered(s, 0);
    }
    let n = sps.len();
    let mut k: usize = 0;
    while k < n
        invariant
            s == body@,
            n == sps@.len(),
            n == spv.len(),
            spv == reference_spans(s),
            spans_ordered(s, spv, 0),
            forall|j: int|
                0 <= j < n ==> ((#[trigger] sps@[j]).0 as int, sps@[j].1 as int, sps@[j].2 as int)
                    == spv[j],
            k <= n,
            forall|j: int| 0 <= j < k ==> is_resolved(values@, j),
        decreases n - k,
    {
        if k >= values.len() || values[k].is_none() {
            assert(span_ok(s, spv[k as int], 0));
            let t = String::from_str(body.substring_char(sps[k].0, sps[k].2));
            assert(first_unresolved(s, values@, k as int));
            return Err(EvalError::Reference(t));
        }
        k = k + 1;
    }
    let len = body.unicode_len();
    let mut out = String::new();
    let mut pos: usize = 0;
    k = 0;
    while k < n
        invariant
            s == body@,
            len == s.len(),
            n == sps@.len(),
            n == spv.len(),
            spv == reference_spans(s),
            vals == value_texts(values@),
            spans_ordered(s, spv, 0),
            forall|j: int|
                0 <= j < n ==> ((#[trigger] sps@[j]).0 as int, sps@[j].1 as int, sps@[j].2 as int)
                    == spv[j],
            forall|j: int| 0 <= j < n ==> is_resolved(values@, j),
            k <= n,
            pos <= len,
            k < n ==> pos <= spv[k as int].0,
            out@ + rewritten(s, spv, vals, pos as int, k as int) == substituted(s, vals),
        decreases n - k,
    {
        let (a, _m, e) = sps[k];
        assert(span_ok(s, spv[k as int], 0));
        assert(is_resolved(values@, k as int));
        if k + 1 < n {
            assert(spv[k as int].2 <= spv[k + 1].0);
        }
        let ghost before = out@;
        let ghost head = s.subrange(pos as int, a as int);
        let ghost tail = rewritten(s, spv, vals, e as int, k + 1);
        out.append(body.substring_char(pos, a));
        match &values[k] {
            Some(v) => {
                assert(vals[k as int] == v@);
                out.append(v.as_str());
            },
            None => {},
        }
        assert(before + (head + vals[k as int] + tail) =~= out@ + tail);
        pos = e;
        k = k + 1;
    }
    out.append(body.substring_char(pos, len));
    Ok(out)
}

/// Whether a cell value is a formula: it starts with `=`.
pub fn is_formula(value: &str) -> (r: bool)
    ensures
        r == (value@.len() > 0 && value@[0] == '='),
{
    value.unicode_len() > 0 && value.get_char(0) == '='
}

/// An aggregate needs at least one argument: with none it fails, rather than
/// answer `0` or a quotient by zero.
pub fn check_aggregate_arguments(f: Aggregate, count: usize) -> (r: Result<(), EvalError>)
    ensures
        r is Ok <==> count > 0,
        r matches Err(e) ==> e == EvalError::EmptyAggregate(f),
{
    if count == 0 {
        Err(EvalError::EmptyAggregate(f))
    } else {
        Ok(())
    }
}

} // verus!
