use vstd::prelude::*;
use crate::board::{BoardModel, BoardState};
use crate::grid::{count_blocks, count_nonzero};
use crate::play::move_label;
use crate::text::{decimal, digit_char};

verus! {

/// The characters that stand for the blocks in a level file, by block number:
/// `.` empty, `s` square, `o` circle, `t` triangle, `x` cross.
pub open spec fn block_symbols() -> Seq<char> {
    seq!['.', 's', 'o', 't', 'x']
}

/// The block number of a block character: its position in `".sotx"`.
pub open spec fn block_code(c: char) -> i32 {
    if c == '.' {
        0
    } else if c == 's' {
        1
    } else if c == 'o' {
        2
    } else if c == 't' {
        3
    } else {
        4
    }
}

/// Converts a block character to its block number (its position in `".sotx"`).
pub fn parse_block(c: char) -> (res: i32)
    requires
        block_symbols().contains(c),
    ensures
        0 <= res < 5,
        block_symbols()[res as int] == c,
        res == block_code(c),
{
    let ghost i = choose|i: int| 0 <= i < 5 && block_symbols()[i] == c;
    assert(block_symbols()[i] == c);
    if c == '.' {
        0
    } else if c == 's' {
        1
    } else if c == 'o' {
        2
    } else if c == 't' {
        3
    } else {
        assert(block_symbols()[4] == 'x');
        4
    }
}

/// The positions of the `'1'` characters of `s`, in increasing order.
pub open spec fn one_positions(s: Seq<char>) -> Seq<usize>
    decreases s.len(),
{
    if s.len() == 0 {
        Seq::empty()
    } else if s.last() == '1' {
        one_positions(s.drop_last()).push((s.len() - 1) as usize)
    } else {
        one_positions(s.drop_last())
    }
}

/// The characters of a string.
pub fn text_chars(text: &str) -> (res: Vec<char>)
    ensures
        res@ == text@,
{
    broadcast use vstd::string::group_string_axioms;

    let mut res: Vec<char> = Vec::new();
    for c in it: text.chars()
        invariant
            res@ == it.seq().take(it.index() as int),
    {
        res.push(c);
    }
    res
}

/// Given a string such as `"00110"`, the positions of its `'1'` digits.
pub fn parse_indexes(digits: &str) -> (res: Vec<usize>)
    ensures
        res@ == one_positions(digits@),
{
    let chars = text_chars(digits);
    let mut res: Vec<usize> = Vec::new();
    let mut i: usize = 0;
    while i < chars.len()
        invariant
            chars@ == digits@,
            i <= chars.len(),
            res@ == one_positions(chars@.take(i as int)),
        decreases chars.len() - i,
    {
        assert(chars@.take(i + 1).drop_last() =~= chars@.take(i as int));
        if chars[i] == '1' {
            res.push(i);
        }
        i = i + 1;
    }
    assert(chars@.take(chars.len() as int) =~= chars@);
    res
}

/// Rust's `char::is_whitespace`: the characters with the Unicode White_Space property.
pub open spec fn is_space(c: char) -> bool {
    let u = c as u32;
    ||| 9 <= u <= 13
    ||| u == 32
    ||| u == 0x85
    ||| u == 0xA0
    ||| u == 0x1680
    ||| 0x2000 <= u <= 0x200A
    ||| u == 0x2028
    ||| u == 0x2029
    ||| u == 0x202F
    ||| u == 0x205F
    ||| u == 0x3000
}

fn char_is_space(c: char) -> (res: bool)
    ensures
        res == is_space(c),
{
    let u = c as u32;
    (9 <= u && u <= 13) || u == 32 || u == 0x85 || u == 0xA0 || u == 0x1680 || (0x2000 <= u && u
        <= 0x200A) || u == 0x2028 || u == 0x2029 || u == 0x202F || u == 0x205F || u == 0x3000
}

/// The whitespace-separated words of `s` from position `i` on, when the word being read
/// so far is `cur` and the words before it are `acc` (`str::split_whitespace`).
pub open spec fn words_from(s: Seq<char>, i: int, cur: Seq<char>, acc: Seq<Seq<char>>) -> Seq<
    Seq<char>,
>
    decreases s.len() - i,
{
    if i < 0 || i >= s.len() {
        if cur.len() > 0 {
            acc.push(cur)
        } else {
            acc
        }
    } else if is_space(s[i]) {
        words_from(s, i + 1, Seq::empty(), if cur.len() > 0 { acc.push(cur) } else { acc })
    } else {
        words_from(s, i + 1, cur.push(s[i]), acc)
    }
}

/// The whitespace-separated words of `s`.
pub open spec fn words(s: Seq<char>) -> Seq<Seq<char>> {
    words_from(s, 0, Seq::empty(), Seq::empty())
}

/// Where the line that starts at `p` ends, its newline included.
pub open spec fn line_end(t: Seq<char>, p: int) -> int
    decreases t.len() - p,
{
    if p < 0 || p >= t.len() {
        t.len() as int
    } else if t[p] == '\n' {
        p + 1
    } else {
        line_end(t, p + 1)
    }
}

/// The line that starts at `p`, newline included; empty at the end of the text.
pub open spec fn line_at(t: Seq<char>, p: int) -> Seq<char> {
    t.subrange(p, line_end(t, p))
}

/// An ASCII decimal digit.
pub open spec fn is_digit(c: char) -> bool {
    48 <= (c as u32) <= 57
}

/// Every character of `s` is an ASCII decimal digit.
pub open spec fn all_digits(s: Seq<char>) -> bool {
    forall|i: int| 0 <= i < s.len() ==> is_digit(#[trigger] s[i])
}

/// The value of a string of decimal digits.
pub open spec fn digits_value(s: Seq<char>) -> int
    decreases s.len(),
{
    if s.len() == 0 {
        0
    } else {
        digits_value(s.drop_last()) * 10 + ((s.last() as u32) - 48)
    }
}

/// The number that `str::parse` reads from `tok`: an optional sign (`-` only when
/// `signed`), then at least one decimal digit; `None` when the text is not such a
/// number or the number does not fit an `i32` (when `signed`) or a `usize`.
pub open spec fn parse_number(tok: Seq<char>, signed: bool) -> Option<int> {
    let negative = signed && tok.len() > 0 && tok[0] == '-';
    let ds = if tok.len() > 0 && (tok[0] == '+' || negative) {
        tok.drop_first()
    } else {
        tok
    };
    let v = if negative { -digits_value(ds) } else { digits_value(ds) };
    if ds.len() == 0 || !all_digits(ds) {
        None
    } else if signed && (v < i32::MIN || v > i32::MAX) {
        None
    } else if !signed && v > usize::MAX {
        None
    } else {
        Some(v)
    }
}

proof fn lemma_digits_grow(s: Seq<char>, i: int)
    requires
        0 <= i <= s.len(),
        forall|j: int| 0 <= j < s.len() ==> is_digit(#[trigger] s[j]),
    ensures
        0 <= digits_value(s.take(i)) <= digits_value(s),
    decreases s.len() - i,
{
    if i < s.len() {
        lemma_digits_grow(s, i + 1);
        assert(s.take(i + 1).drop_last() =~= s.take(i));
        assert(is_digit(s[i]));
    } else {
        assert(s.take(i) =~= s);
        lemma_digits_nonneg(s);
    }
}

proof fn lemma_digits_nonneg(s: Seq<char>)
    requires
        forall|j: int| 0 <= j < s.len() ==> is_digit(#[trigger] s[j]),
    ensures
        0 <= digits_value(s),
    decreases s.len(),
{
    if s.len() > 0 {
        lemma_digits_nonneg(s.drop_last());
        assert(is_digit(s[s.len() - 1]));
    }
}

/// Reads a number from `tok[start..end]` as `str::parse` does (see [`parse_number`]).
pub fn parse_number_at(tok: &Vec<char>, start: usize, end: usize, signed: bool) -> (res: Option<i128>)
    requires
        start <= end <= tok.len(),
    ensures
        match res {
            Some(v) => parse_number(tok@.subrange(start as int, end as int), signed) == Some(v as int),
            None => parse_number(tok@.subrange(start as int, end as int), signed) is None,
        },
        res matches Some(v) ==> if signed {
            i32::MIN <= v <= i32::MAX
        } else {
            0 <= v <= usize::MAX
        },
{
    let ghost t = tok@.subrange(start as int, end as int);
    let mut i = start;
    let mut negative = false;
    if i < end && (tok[i] == '+' || (signed && tok[i] == '-')) {
        negative = tok[i] == '-';
        i = i + 1;
    }
    let ghost ds = tok@.subrange(i as int, end as int);
    assert(ds =~= (if t.len() > 0 && (t[0] == '+' || (signed && t.len() > 0 && t[0] == '-')) {
        t.drop_first()
    } else {
        t
    }));
    if i == end {
        return None;
    }
    let limit: u128 = if signed {
        if negative {
            2147483648u128
        } else {
            2147483647u128
        }
    } else {
        usize::MAX as u128
    };
    let first = i;
    let mut v: u128 = 0;
    while i < end
        invariant
            t == tok@.subrange(start as int, end as int),
            negative == (signed && t.len() > 0 && t[0] == '-'),
            ds == (if t.len() > 0 && (t[0] == '+' || negative) {
                t.drop_first()
            } else {
                t
            }),
            ds.len() > 0,
            limit == (if signed {
                if negative {
                    2147483648u128
                } else {
                    2147483647u128
                }
            } else {
                usize::MAX as u128
            }),
            start <= first <= i <= end,
            end <= tok.len(),
            ds == tok@.subrange(first as int, end as int),
            forall|j: int| first <= j < i ==> is_digit(#[trigger] tok@[j]),
            v == digits_value(tok@.subrange(first as int, i as int)),
            v <= limit,
            limit <= usize::MAX,
            limit < 0x1_0000_0000_0000_0000u128,
        decreases end - i,
    {
        let c = tok[i];
        let u = c as u32;
        if u < 48 || u > 57 {
            assert(ds[i - first] == c);
            assert(!is_digit(ds[i - first]));
            assert(!all_digits(ds));
            return None;
        }
        assert(tok@.subrange(first as int, i + 1).drop_last() =~= tok@.subrange(first as int, i as int));
        v = v * 10 + (u - 48) as u128;
        if v > limit {
            proof {
                assert forall|j: int| 0 <= j < (i + 1 - first) implies is_digit(#[trigger] ds.take(i + 1 - first)[j]) by {
                    assert(ds.take(i + 1 - first)[j] == tok@[first + j]);
                }
            }
            proof {
                if all_digits(ds) {
                    lemma_digits_grow(ds, i + 1 - first);
                    assert(ds.take(i + 1 - first) =~= tok@.subrange(first as int, i + 1));
                }
            }
            return None;
        }
        i = i + 1;
    }
    assert(tok@.subrange(first as int, end as int) =~= ds);
    proof {
        lemma_digits_nonneg(ds);
    }
    if negative {
        Some(-(v as i128))
    } else {
        Some(v as i128)
    }
}

fn is_block_symbol(c: char) -> (res: bool)
    ensures
        res == block_symbols().contains(c),
{
    let res = c == '.' || c == 's' || c == 'o' || c == 't' || c == 'x';
    proof {
        if res {
            if c == '.' {
                assert(block_symbols()[0] == c);
            } else if c == 's' {
                assert(block_symbols()[1] == c);
            } else if c == 'o' {
                assert(block_symbols()[2] == c);
            } else if c == 't' {
                assert(block_symbols()[3] == c);
            } else {
                assert(block_symbols()[4] == c);
            }
        } else {
            if block_symbols().contains(c) {
                let i = choose|i: int| 0 <= i < 5 && block_symbols()[i] == c;
                assert(block_symbols()[i] == c);
            }
        }
    }
    res
}

/// The end of the line of `t` that starts at `p`, its newline included.
fn line_end_at(t: &Vec<char>, p: usize) -> (res: usize)
    requires
        p <= t.len(),
    ensures
        res == line_end(t@, p as int),
        p <= res <= t.len(),
        p < t.len() ==> p < res,
{
    let mut i = p;
    while i < t.len()
        invariant
            p <= i <= t.len(),
            line_end(t@, p as int) == line_end(t@, i as int),
            forall|j: int| p <= j < i ==> t@[j] != '\n',
        decreases t.len() - i,
    {
        if t[i] == '\n' {
            return i + 1;
        }
        i = i + 1;
    }
    i
}

/// The positions where the words of `t[start..end]` begin and end.
fn word_spans(t: &Vec<char>, start: usize, end: usize) -> (res: Vec<(usize, usize)>)
    requires
        start <= end <= t.len(),
    ensures
        res@.len() == words(t@.subrange(start as int, end as int)).len(),
        forall|k: int|
            0 <= k < res@.len() ==> {
                &&& start <= (#[trigger] res@[k]).0 < res@[k].1 <= end
                &&& t@.subrange(res@[k].0 as int, res@[k].1 as int) == words(
                    t@.subrange(start as int, end as int),
                )[k]
            },
{
    let ghost s = t@.subrange(start as int, end as int);
    let mut res: Vec<(usize, usize)> = Vec::new();
    let ghost mut acc: Seq<Seq<char>> = Seq::empty();
    let mut word_start = start;
    let mut i = start;
    assert(t@.subrange(start as int, start as int) =~= Seq::<char>::empty());
    while i < end
        invariant
            s == t@.subrange(start as int, end as int),
            start <= word_start <= i <= end,
            end <= t.len(),
            words(s) == words_from(s, i - start, t@.subrange(word_start as int, i as int), acc),
            acc.len() == res@.len(),
            forall|k: int|
                0 <= k < res@.len() ==> {
                    &&& start <= (#[trigger] res@[k]).0 < res@[k].1 <= word_start
                    &&& t@.subrange(res@[k].0 as int, res@[k].1 as int) == acc[k]
                },
        decreases end - i,
    {
        let ghost cur = t@.subrange(word_start as int, i as int);
        assert(s[i - start] == t@[i as int]);
        if char_is_space(t[i]) {
            if word_start < i {
                res.push((word_start, i));
                proof {
                    acc = acc.push(cur);
                }
            }
            i = i + 1;
            word_start = i;
            assert(t@.subrange(word_start as int, i as int) =~= Seq::<char>::empty());
        } else {
            assert(t@.subrange(word_start as int, i + 1) =~= cur.push(t@[i as int]));
            i = i + 1;
        }
    }
    if word_start < i {
        res.push((word_start, i));
        proof {
            acc = acc.push(t@.subrange(word_start as int, i as int));
        }
    }
    assert(words(s) == acc);
    res
}

/// Why a level file could not be read.
#[derive(Debug, Clone, Copy, PartialEq, Eq)]
pub enum LevelError {
    /// A header line has fewer than four fields (this includes the end of the file).
    MissingField,
    /// A number does not parse, or does not fit its type.
    BadNumber,
    /// Computing a move position overflows.
    Overflow,
    /// A move is neither `X`, `R<row>` nor `C<column>`, or names a row or column outside the grid.
    BadMove,
    /// A grid character is not one of `.sotx`.
    BadBlock,
}

/// The header fields of a level: round number, quota, row count, column count.
pub open spec fn parse_header(line: Seq<char>) -> Result<(int, int, int, int), LevelError> {
    let ws = words(line);
    if ws.len() < 1 {
        Err(LevelError::MissingField)
    } else if parse_number(ws[0], true) is None {
        Err(LevelError::BadNumber)
    } else if ws.len() < 2 {
        Err(LevelError::MissingField)
    } else if parse_number(ws[1], false) is None {
        Err(LevelError::BadNumber)
    } else if ws.len() < 3 {
        Err(LevelError::MissingField)
    } else if parse_number(ws[2], false) is None {
        Err(LevelError::BadNumber)
    } else if ws.len() < 4 {
        Err(LevelError::MissingField)
    } else if parse_number(ws[3], false) is None {
        Err(LevelError::BadNumber)
    } else {
        Ok(
            (
                parse_number(ws[0], true)->0,
                parse_number(ws[1], false)->0,
                parse_number(ws[2], false)->0,
                parse_number(ws[3], false)->0,
            ),
        )
    }
}

/// The move that one word of the moves line gives: `X` is a place with no throw (a
/// column throw at -1), `R<n>` the row `n` counted from 1 at the bottom, `C<n>` the
/// column `n` counted from 1 at the left.
pub open spec fn parse_move_word(w: Seq<char>, rc: int, cc: int) -> Result<(bool, i32), LevelError> {
    if w == seq!['X'] {
        Ok((true, -1i32))
    } else if w.len() > 0 && w[0] == 'R' {
        match parse_number(w.drop_first(), true) {
            None => Err(LevelError::BadNumber),
            Some(n) => {
                let p = (rc as i32) as int - n;
                if p < i32::MIN || p > i32::MAX {
                    Err(LevelError::Overflow)
                } else if p < 0 || p >= rc {
                    Err(LevelError::BadMove)
                } else {
                    Ok((false, p as i32))
                }
            },
        }
    } else if w.len() > 0 && w[0] == 'C' {
        match parse_number(w.drop_first(), true) {
            None => Err(LevelError::BadNumber),
            Some(n) => {
                let p = n - 1;
                if p < i32::MIN {
                    Err(LevelError::Overflow)
                } else if p < 0 || p >= cc {
                    Err(LevelError::BadMove)
                } else {
                    Ok((true, p as i32))
                }
            },
        }
    } else {
        Err(LevelError::BadMove)
    }
}

/// The moves of a level from word `i` on, after the moves `cols` / `poss` before it;
/// the first word that is not a move gives the error.
pub open spec fn parse_moves_from(
    ws: Seq<Seq<char>>,
    i: int,
    rc: int,
    cc: int,
    cols: Seq<bool>,
    poss: Seq<i32>,
) -> Result<(Seq<bool>, Seq<i32>), LevelError>
    decreases ws.len() - i,
{
    if i < 0 || i >= ws.len() {
        Ok((cols, poss))
    } else {
        match parse_move_word(ws[i], rc, cc) {
            Err(e) => Err(e),
            Ok((c, p)) => parse_moves_from(ws, i + 1, rc, cc, cols.push(c), poss.push(p)),
        }
    }
}

/// When the moves line reads, move `k` is what word `k` gives.
pub proof fn lemma_moves_are_words(
    ws: Seq<Seq<char>>,
    i: int,
    rc: int,
    cc: int,
    cols: Seq<bool>,
    poss: Seq<i32>,
)
    requires
        0 <= i <= ws.len(),
        cols.len() == poss.len(),
        parse_moves_from(ws, i, rc, cc, cols, poss) is Ok,
    ensures
        ({
            let (c2, p2) = parse_moves_from(ws, i, rc, cc, cols, poss)->Ok_0;
            &&& c2.len() == p2.len() == cols.len() + ws.len() - i
            &&& forall|k: int| 0 <= k < cols.len() ==> c2[k] == cols[k] && p2[k] == poss[k]
            &&& forall|k: int|
                i <= k < ws.len() ==> parse_move_word(#[trigger] ws[k], rc, cc) == Ok::<
                    (bool, i32),
                    LevelError,
                >((c2[cols.len() + k - i], p2[cols.len() + k - i]))
        }),
    decreases ws.len() - i,
{
    if i < ws.len() {
        let (c, p) = parse_move_word(ws[i], rc, cc)->Ok_0;
        lemma_moves_are_words(ws, i + 1, rc, cc, cols.push(c), poss.push(p));
        let (c2, p2) = parse_moves_from(ws, i, rc, cc, cols, poss)->Ok_0;
        assert(c2[cols.len() as int] == c && p2[cols.len() as int] == p);
        assert forall|k: int| 0 <= k < cols.len() implies c2[k] == cols[k] && p2[k] == poss[k] by {
            assert(cols.push(c)[k] == cols[k]);
            assert(poss.push(p)[k] == poss[k]);
        }
    }
}

proof fn lemma_digit_char(c: char)
    requires
        is_digit(c),
    ensures
        digit_char((c as u32) - 48) == c,
{
    let u = c as u32;
    if u == 48 {
        assert(c == '0');
    } else if u == 49 {
        assert(c == '1');
    } else if u == 50 {
        assert(c == '2');
    } else if u == 51 {
        assert(c == '3');
    } else if u == 52 {
        assert(c == '4');
    } else if u == 53 {
        assert(c == '5');
    } else if u == 54 {
        assert(c == '6');
    } else if u == 55 {
        assert(c == '7');
    } else if u == 56 {
        assert(c == '8');
    } else {
        assert(c == '9');
    }
}

proof fn lemma_digits_positive(ds: Seq<char>)
    requires
        all_digits(ds),
        ds.len() >= 1,
        ds[0] != '0',
    ensures
        digits_value(ds) >= 1,
    decreases ds.len(),
{
    if ds.len() == 1 {
        assert(is_digit(ds[0]));
        lemma_digit_char(ds[0]);
        assert(ds.drop_last() =~= Seq::<char>::empty());
        assert(digits_value(ds.drop_last()) == 0);
        assert(ds.last() == ds[0]);
        assert((ds[0] as u32) - 48 != 0);
    } else {
        let r = ds.drop_last();
        assert(r[0] == ds[0]);
        assert(all_digits(r)) by {
            assert forall|i: int| 0 <= i < r.len() implies is_digit(#[trigger] r[i]) by {
                assert(r[i] == ds[i]);
            }
        }
        lemma_digits_positive(r);
        assert(is_digit(ds.last()));
    }
}

/// A number written without sign and without leading zeros is written back the same.
pub proof fn lemma_decimal_of_digits(ds: Seq<char>)
    requires
        all_digits(ds),
        ds.len() >= 1,
        ds[0] != '0' || ds.len() == 1,
    ensures
        digits_value(ds) >= 0,
        decimal(digits_value(ds) as nat) == ds,
    decreases ds.len(),
{
    lemma_digits_nonneg(ds);
    assert(is_digit(ds.last()));
    lemma_digit_char(ds[0]);
    let d = (ds.last() as u32) - 48;
    lemma_digit_char(ds.last());
    if ds.len() == 1 {
        assert(ds.drop_last() =~= Seq::<char>::empty());
        assert(digits_value(ds.drop_last()) == 0);
        assert(digits_value(ds) == d);
        assert(ds.last() == ds[0]);
        assert(decimal(d as nat) == seq![digit_char(d as int)]);
        assert(decimal(digits_value(ds) as nat) =~= ds);
    } else {
        let r = ds.drop_last();
        assert(r[0] == ds[0]);
        assert(all_digits(r)) by {
            assert forall|i: int| 0 <= i < r.len() implies is_digit(#[trigger] r[i]) by {
                assert(r[i] == ds[i]);
            }
        }
        lemma_digits_positive(r);
        lemma_decimal_of_digits(r);
        let v = digits_value(r);
        let n = digits_value(ds);
        assert(n == v * 10 + d);
        vstd::arithmetic::div_mod::lemma_fundamental_div_mod_converse(n, 10, v, d as int);
        assert(n >= 10);
        assert(decimal(n as nat) == decimal((n / 10) as nat).push(digit_char(n % 10)));
        assert(ds =~= r.push(ds.last()));
    }
}

/// A move written as `R<n>` or `C<n>`, with `n` without sign and without leading zeros.
pub open spec fn plain_move_word(w: Seq<char>) -> bool {
    &&& w.len() >= 2
    &&& (w[0] == 'R' || w[0] == 'C')
    &&& all_digits(w.drop_first())
    &&& (w[1] != '0' || w.len() == 2)
}

/// A move read from a level file is recorded, when made, under the name the file gives it.
pub proof fn lemma_move_label_matches_word(m: BoardModel, w: Seq<char>)
    requires
        plain_move_word(w),
        m.row_count <= i32::MAX,
        parse_move_word(w, m.row_count as int, m.column_count as int) is Ok,
    ensures
        ({
            let (c, p) = parse_move_word(w, m.row_count as int, m.column_count as int)->Ok_0;
            move_label(m, c, p as int) == w + seq![',', ' ']
        }),
{
    let ds = w.drop_first();
    assert(ds[0] == w[1]);
    assert(is_digit(ds[0]));
    lemma_decimal_of_digits(ds);
    assert(parse_number(ds, true) == Some(digits_value(ds)));
    assert(w =~= seq![w[0]] + ds);
}

/// Every character of `s` is a block character.
pub open spec fn all_block_symbols(s: Seq<char>) -> bool {
    forall|i: int| 0 <= i < s.len() ==> block_symbols().contains(#[trigger] s[i])
}

/// The grid lines of a level from position `p` on, `rows_left` lines to go, after the
/// blocks `acc`: each line gives its first `cc` characters (fewer when it is shorter,
/// newline included), which must all be block characters.
pub open spec fn parse_grid(t: Seq<char>, p: int, rows_left: nat, cc: int, acc: Seq<i32>) -> Result<
    (Seq<i32>, int),
    LevelError,
>
    decreases rows_left,
{
    if rows_left == 0 {
        Ok((acc, p))
    } else {
        let line = line_at(t, p);
        let taken = line.take(if cc < line.len() { cc } else { line.len() as int });
        if !all_block_symbols(taken) {
            Err(LevelError::BadBlock)
        } else {
            parse_grid(
                t,
                line_end(t, p),
                (rows_left - 1) as nat,
                cc,
                acc + taken.map_values(|c: char| block_code(c)),
            )
        }
    }
}

/// The level whose round number is `desired`, read from the text `t` from position `p`
/// on: each level is a header line, a line of moves, `row_count` grid lines and one more
/// line that is skipped.
pub open spec fn load_from(t: Seq<char>, p: int, desired: int, miss_available: bool) -> Result<
    BoardModel,
    LevelError,
>
    decreases t.len() - p,
    when 0 <= p <= t.len()
{
    let h_end = line_end(t, p);
    match parse_header(line_at(t, p)) {
        Err(e) => Err(e),
        Ok((level, q, rc, cc)) => {
            let m_end = line_end(t, h_end);
            match parse_moves_from(words(line_at(t, h_end)), 0, rc, cc, Seq::empty(), Seq::empty()) {
                Err(e) => Err(e),
                Ok((cols, poss)) => match parse_grid(t, m_end, rc as nat, cc, Seq::empty()) {
                    Err(e) => Err(e),
                    Ok((grid, g_end)) => {
                        if level == desired {
                            Ok(
                                    BoardModel {
                                        level_number: level,
                                        qualify_blocks: q as nat,
                                        row_count: rc as nat,
                                        column_count: cc as nat,
                                        legal_move_is_column: cols,
                                        legal_move_position: poss,
                                        moves: Seq::empty(),
                                        move_list: Seq::empty(),
                                        board: grid,
                                        block_count: count_blocks(grid),
                                        raw_score: 0,
                                        score: 0,
                                        held_block: 0,
                                        previous_move_index: 0,
                                        miss_available,
                                    },
                                )
                        } else {
                            proof {
                                lemma_line_end_moves(t, p);
                                lemma_line_end_moves(t, h_end);
                                lemma_grid_moves(t, m_end, rc as nat, cc, Seq::empty());
                                lemma_line_end_moves(t, g_end);
                            }
                            load_from(t, line_end(t, g_end), desired, miss_available)
                        }
                    },
                },
            }
        },
    }
}

/// The level whose round number is `desired` in the text `t`.
pub open spec fn load_level(t: Seq<char>, desired: int, miss_available: bool) -> Result<
    BoardModel,
    LevelError,
> {
    load_from(t, 0, desired, miss_available)
}

/// A line ends after it starts, and inside the text; a line that is not at the end of
/// the text is not empty.
pub proof fn lemma_line_end_moves(t: Seq<char>, p: int)
    requires
        0 <= p <= t.len(),
    ensures
        p <= line_end(t, p) <= t.len(),
        p < t.len() ==> p < line_end(t, p),
    decreases t.len() - p,
{
    if p < t.len() && t[p] != '\n' {
        lemma_line_end_moves(t, p + 1);
    }
}

/// Reading grid lines moves forward through the text.
pub proof fn lemma_grid_moves(t: Seq<char>, p: int, rows_left: nat, cc: int, acc: Seq<i32>)
    requires
        0 <= p <= t.len(),
    ensures
        parse_grid(t, p, rows_left, cc, acc) matches Ok((_, e)) ==> p <= e <= t.len(),
    decreases rows_left,
{
    if rows_left > 0 {
        lemma_line_end_moves(t, p);
        lemma_grid_moves(t, line_end(t, p), (rows_left - 1) as nat, cc, acc + line_at(t, p).take(
            if cc < line_at(t, p).len() {
                cc
            } else {
                line_at(t, p).len() as int
            },
        ).map_values(|c: char| block_code(c)));
    }
}

/// Reads the number in word `k` of the spans, as [`parse_number`] does.
fn number_in_word(
    t: &Vec<char>,
    spans: &Vec<(usize, usize)>,
    k: usize,
    signed: bool,
    ghost_words: Ghost<Seq<Seq<char>>>,
) -> (res: Option<i128>)
    requires
        k < spans@.len(),
        spans@.len() == ghost_words@.len(),
        spans@[k as int].0 <= spans@[k as int].1 <= t.len(),
        t@.subrange(spans@[k as int].0 as int, spans@[k as int].1 as int) == ghost_words@[k as int],
    ensures
        match res {
            Some(v) => parse_number(ghost_words@[k as int], signed) == Some(v as int),
            None => parse_number(ghost_words@[k as int], signed) is None,
        },
        res matches Some(v) ==> if signed {
            i32::MIN <= v <= i32::MAX
        } else {
            0 <= v <= usize::MAX
        },
{
    parse_number_at(t, spans[k].0, spans[k].1, signed)
}

/// Reads the header line `t[start..end]` (see [`parse_header`]).
fn header_at(t: &Vec<char>, start: usize, end: usize) -> (res: Result<
    (i32, usize, usize, usize),
    LevelError,
>)
    requires
        start <= end <= t.len(),
    ensures
        match res {
            Ok((level, q, rc, cc)) => parse_header(t@.subrange(start as int, end as int)) == Ok::<
                (int, int, int, int),
                LevelError,
            >((level as int, q as int, rc as int, cc as int)),
            Err(e) => parse_header(t@.subrange(start as int, end as int)) == Err::<
                (int, int, int, int),
                LevelError,
            >(e),
        },
{
    let ghost ws = words(t@.subrange(start as int, end as int));
    let spans = word_spans(t, start, end);
    if spans.len() < 1 {
        return Err(LevelError::MissingField);
    }
    let level = match number_in_word(t, &spans, 0, true, Ghost(ws)) {
        Some(v) => v,
        None => return Err(LevelError::BadNumber),
    };
    if spans.len() < 2 {
        return Err(LevelError::MissingField);
    }
    let q = match number_in_word(t, &spans, 1, false, Ghost(ws)) {
        Some(v) => v,
        None => return Err(LevelError::BadNumber),
    };
    if spans.len() < 3 {
        return Err(LevelError::MissingField);
    }
    let rc = match number_in_word(t, &spans, 2, false, Ghost(ws)) {
        Some(v) => v,
        None => return Err(LevelError::BadNumber),
    };
    if spans.len() < 4 {
        return Err(LevelError::MissingField);
    }
    let cc = match number_in_word(t, &spans, 3, false, Ghost(ws)) {
        Some(v) => v,
        None => return Err(LevelError::BadNumber),
    };
    Ok((level as i32, q as usize, rc as usize, cc as usize))
}

/// Reads the line of moves `t[start..end]` (see [`parse_moves_from`]).
fn moves_at(t: &Vec<char>, start: usize, end: usize, rc: usize, cc: usize) -> (res: Result<
    (Vec<bool>, Vec<i32>),
    LevelError,
>)
    requires
        start <= end <= t.len(),
    ensures
        match res {
            Ok((cols, poss)) => parse_moves_from(
                words(t@.subrange(start as int, end as int)),
                0,
                rc as int,
                cc as int,
                Seq::empty(),
                Seq::empty(),
            ) == Ok::<(Seq<bool>, Seq<i32>), LevelError>((cols@, poss@)),
            Err(e) => parse_moves_from(
                words(t@.subrange(start as int, end as int)),
                0,
                rc as int,
                cc as int,
                Seq::empty(),
                Seq::empty(),
            ) == Err::<(Seq<bool>, Seq<i32>), LevelError>(e),
        },
{
    let ghost ws = words(t@.subrange(start as int, end as int));
    let spans = word_spans(t, start, end);
    let mut cols: Vec<bool> = Vec::new();
    let mut poss: Vec<i32> = Vec::new();
    let rc32: i32 = rc as i32;
    let mut k: usize = 0;
    while k < spans.len()
        invariant
            ws == words(t@.subrange(start as int, end as int)),
            spans@.len() == ws.len(),
            forall|j: int|
                0 <= j < spans@.len() ==> {
                    &&& start <= (#[trigger] spans@[j]).0 < spans@[j].1 <= end
                    &&& t@.subrange(spans@[j].0 as int, spans@[j].1 as int) == ws[j]
                },
            end <= t.len(),
            rc32 == rc as i32,
            k <= spans.len(),
            parse_moves_from(ws, 0, rc as int, cc as int, Seq::empty(), Seq::empty())
                == parse_moves_from(ws, k as int, rc as int, cc as int, cols@, poss@),
        decreases spans.len() - k,
    {
        let (ws_start, ws_end) = spans[k];
        let ghost w = ws[k as int];
        assert(w.len() == ws_end - ws_start);
        assert(w[0] == t@[ws_start as int]);
        let first = t[ws_start];
        if ws_end - ws_start == 1 && first == 'X' {
            assert(w =~= seq!['X']);
            cols.push(true);
            poss.push(-1);
        } else if first == 'R' {
            assert(w != seq!['X']);
            assert(t@.subrange(ws_start + 1, ws_end as int) =~= w.drop_first());
            let n = match parse_number_at(t, ws_start + 1, ws_end, true) {
                Some(v) => v,
                None => return Err(LevelError::BadNumber),
            };
            let p: i128 = rc32 as i128 - n;
            if p < -2147483648 || p > 2147483647 {
                return Err(LevelError::Overflow);
            }
            if p < 0 || p as u128 >= rc as u128 {
                return Err(LevelError::BadMove);
            }
            cols.push(false);
            poss.push(p as i32);
        } else if first == 'C' {
            assert(w != seq!['X']);
            assert(t@.subrange(ws_start + 1, ws_end as int) =~= w.drop_first());
            let n = match parse_number_at(t, ws_start + 1, ws_end, true) {
                Some(v) => v,
                None => return Err(LevelError::BadNumber),
            };
            let p: i128 = n - 1;
            if p < -2147483648 {
                return Err(LevelError::Overflow);
            }
            if p < 0 || p as u128 >= cc as u128 {
                return Err(LevelError::BadMove);
            }
            cols.push(true);
            poss.push(p as i32);
        } else {
            assert(w != seq!['X']);
            return Err(LevelError::BadMove);
        }
        k = k + 1;
    }
    Ok((cols, poss))
}

/// Reads `rows` grid lines from position `p` (see [`parse_grid`]); gives the blocks and
/// the position after the last line.
fn grid_at(t: &Vec<char>, p: usize, rows: usize, cc: usize) -> (res: Result<(Vec<i32>, usize), LevelError>)
    requires
        p <= t.len(),
    ensures
        match res {
            Ok((grid, e)) => parse_grid(t@, p as int, rows as nat, cc as int, Seq::empty()) == Ok::<
                (Seq<i32>, int),
                LevelError,
            >((grid@, e as int)),
            Err(e) => parse_grid(t@, p as int, rows as nat, cc as int, Seq::empty()) == Err::<
                (Seq<i32>, int),
                LevelError,
            >(e),
        },
{
    let mut grid: Vec<i32> = Vec::new();
    let mut pos = p;
    let mut row: usize = 0;
    while row < rows
        invariant
            pos <= t.len(),
            row <= rows,
            parse_grid(t@, p as int, rows as nat, cc as int, Seq::empty()) == parse_grid(
                t@,
                pos as int,
                (rows - row) as nat,
                cc as int,
                grid@,
            ),
        decreases rows - row,
    {
        let e = line_end_at(t, pos);
        let ghost line = line_at(t@, pos as int);
        let n = if cc < e - pos {
            cc
        } else {
            e - pos
        };
        let ghost taken = line.take(n as int);
        let ghost before = grid@;
        let mut j: usize = 0;
        while j < n
            invariant
                parse_grid(t@, p as int, rows as nat, cc as int, Seq::empty()) == parse_grid(
                    t@,
                    pos as int,
                    (rows - row) as nat,
                    cc as int,
                    before,
                ),
                row < rows,
                e == line_end(t@, pos as int),
                n == (if cc < line.len() {
                    cc as int
                } else {
                    line.len() as int
                }),
                pos <= e <= t.len(),
                n <= e - pos,
                line == t@.subrange(pos as int, e as int),
                taken == line.take(n as int),
                j <= n,
                forall|i: int| 0 <= i < j ==> block_symbols().contains(#[trigger] taken[i]),
                grid@ == before + taken.take(j as int).map_values(|c: char| block_code(c)),
            decreases n - j,
        {
            let c = t[pos + j];
            assert(taken[j as int] == c);
            if !is_block_symbol(c) {
                assert(!all_block_symbols(taken));
                return Err(LevelError::BadBlock);
            }
            let v = parse_block(c);
            grid.push(v);
            assert(taken.take(j + 1).map_values(|c: char| block_code(c)) =~= taken.take(
                j as int,
            ).map_values(|c: char| block_code(c)).push(v));
            j = j + 1;
        }
        assert(taken.take(n as int) =~= taken);
        pos = e;
        row = row + 1;
    }
    Ok((grid, pos))
}

/// Reads the level with round number `desired_level_number` from the text of a level
/// file, as [`load_level`] says; `miss_available` gives the round a spare life to spend.
pub fn load_board_state(text: &str, desired_level_number: i32, miss_available: bool) -> (res: Result<
    BoardState,
    LevelError,
>)
    ensures
        match res {
            Ok(b) => load_level(text@, desired_level_number as int, miss_available) == Ok::<
                BoardModel,
                LevelError,
            >(b@),
            Err(e) => load_level(text@, desired_level_number as int, miss_available) == Err::<
                BoardModel,
                LevelError,
            >(e),
        },
{
    let t = text_chars(text);
    let mut p: usize = 0;
    loop
        invariant
            t@ == text@,
            p <= t.len(),
            load_level(t@, desired_level_number as int, miss_available) == load_from(
                t@,
                p as int,
                desired_level_number as int,
                miss_available,
            ),
        decreases t.len() - p,
    {
        let h_end = line_end_at(&t, p);
        let header = header_at(&t, p, h_end);
        let (level, q, rc, cc) = match header {
            Ok(h) => h,
            Err(e) => return Err(e),
        };
        let m_end = line_end_at(&t, h_end);
        let (cols, poss) = match moves_at(&t, h_end, m_end, rc, cc) {
            Ok(m) => m,
            Err(e) => return Err(e),
        };
        let (grid, g_end) = match grid_at(&t, m_end, rc, cc) {
            Ok(g) => g,
            Err(e) => return Err(e),
        };
        if level == desired_level_number {
            let count = count_nonzero(&grid);
            let board = BoardState {
                level_number: level,
                qualify_blocks: q,
                row_count: rc,
                column_count: cc,
                legal_move_is_column: cols,
                legal_move_position: poss,
                moves: String::new(),
                move_list: Vec::new(),
                board: grid,
                block_count: count,
                raw_score: 0,
                score: 0,
                held_block: 0,
                previous_move_index: 0,
                miss_available,
            };
            assert(board@.move_list =~= Seq::<usize>::empty());
            return Ok(board);
        }
        proof {
            lemma_grid_moves(t@, m_end as int, rc as nat, cc as int, Seq::empty());
        }
        proof {
            if p == t.len() {
                assert(t@.subrange(p as int, h_end as int) =~= Seq::<char>::empty());
                assert(words(Seq::<char>::empty()) =~= Seq::<Seq<char>>::empty());
            }
        }
        p = line_end_at(&t, g_end);
    }
}

} // verus!
