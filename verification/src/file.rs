//! Reading and writing the textual life-file dialects: "Toroidal Life" and
//! "Resizable Life".
//!
//! A file is a sequence of lines. The first line names the dialect. Optional
//! `#D` description lines follow, then either `#N` (the default rule
//! `S23/B3`) or a `#R <survival-digits>/<birth-digits>` rule line, then — for
//! the toroidal dialect only — a `#S <width> <height>` size line, and
//! finally one `<row> <col>` pair per line, at least one. The functions here
//! work on text handed to them as bytes; opening and writing files is the
//! caller's business.

use vstd::arithmetic::div_mod::lemma_fundamental_div_mod;

use crate::error::{FileParsingErrorKind, GridErrorKind};
use crate::{lemma_row_major_index, Grid, GridModel, ALIVE};
use vstd::prelude::*;

verus! {

/// The ASCII whitespace bytes that line trimming and token splitting drop.
pub open spec fn is_space(b: u8) -> bool {
    b == 32 || b == 9 || b == 10 || b == 11 || b == 12 || b == 13
}

/// ASCII decimal digit.
pub open spec fn is_digit(b: u8) -> bool {
    48 <= b <= 57
}

/// ASCII digit between 0 and 8: a neighbor count.
pub open spec fn is_rule_digit(b: u8) -> bool {
    48 <= b <= 56
}

// ---------------------------------------------------------------------------
// Trimming a line
// ---------------------------------------------------------------------------
/// `s` without its leading whitespace.
pub open spec fn trim_front(s: Seq<u8>) -> Seq<u8>
    decreases s.len(),
{
    if s.len() > 0 && is_space(s[0]) {
        trim_front(s.drop_first())
    } else {
        s
    }
}

/// `s` without its trailing whitespace.
pub open spec fn trim_back(s: Seq<u8>) -> Seq<u8>
    decreases s.len(),
{
    if s.len() > 0 && is_space(s.last()) {
        trim_back(s.drop_last())
    } else {
        s
    }
}

/// `s` without leading and trailing whitespace.
pub open spec fn spec_trim(s: Seq<u8>) -> Seq<u8> {
    trim_back(trim_front(s))
}

proof fn lemma_trim_front_skip(s: Seq<u8>, j: int)
    requires
        0 <= j <= s.len(),
        forall|i: int| 0 <= i < j ==> is_space(#[trigger] s[i]),
        j < s.len() ==> !is_space(s[j]),
    ensures
        trim_front(s) == s.skip(j),
    decreases j,
{
    if j == 0 {
        assert(s.skip(0) =~= s);
    } else {
        assert(is_space(s[0]));
        assert(forall|i: int|
            0 <= i < j - 1 ==> is_space(#[trigger] s.drop_first()[i]) == is_space(s[i + 1]));
        lemma_trim_front_skip(s.drop_first(), j - 1);
        assert(s.drop_first().skip(j - 1) =~= s.skip(j));
    }
}

proof fn lemma_trim_back_take(s: Seq<u8>, k: int)
    requires
        0 <= k <= s.len(),
        forall|i: int| k <= i < s.len() ==> is_space(#[trigger] s[i]),
        k > 0 ==> !is_space(s[k - 1]),
    ensures
        trim_back(s) == s.take(k),
    decreases s.len(),
{
    if k == s.len() {
        if s.len() > 0 && is_space(s.last()) {
            assert(false);
        }
        assert(s.take(k) =~= s);
    } else {
        assert(is_space(s.last()));
        lemma_trim_back_take(s.drop_last(), k);
        assert(s.drop_last().take(k) =~= s.take(k));
    }
}

/// Copies the bytes of `v`.
pub(crate) fn copy_bytes(v: &Vec<u8>) -> (r: Vec<u8>)
    ensures
        r@ == v@,
{
    let mut r: Vec<u8> = Vec::new();
    let mut i: usize = 0;
    while i < v.len()
        invariant
            i <= v@.len(),
            r@ =~= v@.take(i as int),
        decreases v@.len() - i,
    {
        r.push(v[i]);
        i = i + 1;
    }
    proof {
        assert(r@ =~= v@);
    }
    r
}

/// Copies `v[from..to]`.
fn copy_range(v: &Vec<u8>, from: usize, to: usize) -> (r: Vec<u8>)
    requires
        from <= to <= v@.len(),
    ensures
        r@ == v@.subrange(from as int, to as int),
{
    let mut r: Vec<u8> = Vec::new();
    let mut i: usize = from;
    while i < to
        invariant
            from <= i <= to <= v@.len(),
            r@ =~= v@.subrange(from as int, i as int),
        decreases to - i,
    {
        r.push(v[i]);
        i = i + 1;
        assert(r@ =~= v@.subrange(from as int, i as int));
    }
    r
}

/// Drops the leading and trailing whitespace of `v`.
fn trim_vec(v: &Vec<u8>) -> (r: Vec<u8>)
    ensures
        r@ == spec_trim(v@),
{
    let mut st: usize = 0;
    while st < v.len() && is_space_byte(v[st])
        invariant
            st <= v@.len(),
            forall|i: int| 0 <= i < st ==> is_space(#[trigger] v@[i]),
        decreases v@.len() - st,
    {
        st = st + 1;
    }
    proof {
        lemma_trim_front_skip(v@, st as int);
    }
    if st == v.len() {
        proof {
            assert(trim_back(v@.skip(st as int)) =~= v@.skip(st as int));
        }
        return Vec::new();
    }
    let mut en: usize = v.len();
    while en > st && is_space_byte(v[en - 1])
        invariant
            st <= en <= v@.len(),
            forall|i: int| en <= i < v@.len() ==> is_space(#[trigger] v@[i]),
            !is_space(v@[st as int]),
        decreases en,
    {
        en = en - 1;
    }
    proof {
        let f = v@.skip(st as int);
        assert(forall|i: int|
            en - st <= i < f.len() ==> is_space(#[trigger] f[i]) == is_space(v@[i + st]));
        assert(!is_space(f[(en - st - 1) as int]));
        lemma_trim_back_take(f, en - st as int);
        assert(f.take(en - st as int) =~= v@.subrange(st as int, en as int));
    }
    copy_range(v, st, en)
}

fn is_space_byte(b: u8) -> (r: bool)
    ensures
        r == is_space(b),
{
    b == 32 || b == 9 || b == 10 || b == 11 || b == 12 || b == 13
}

// ---------------------------------------------------------------------------
// Splitting text into cleaned lines
// ---------------------------------------------------------------------------
/// One pass of line splitting: the bytes of `t` from position `i` on are
/// folded into the current line `cur`; each newline ends a line, which is
/// trimmed and kept only when something remains.
pub open spec fn scan_lines(t: Seq<u8>, i: int, cur: Seq<u8>, acc: Seq<Seq<u8>>) -> Seq<Seq<u8>>
    decreases t.len() - i,
{
    if i < 0 || i >= t.len() {
        if spec_trim(cur).len() == 0 {
            acc
        } else {
            acc.push(spec_trim(cur))
        }
    } else if t[i] == 10 {
        scan_lines(
            t,
            i + 1,
            Seq::empty(),
            if spec_trim(cur).len() == 0 {
                acc
            } else {
                acc.push(spec_trim(cur))
            },
        )
    } else {
        scan_lines(t, i + 1, cur.push(t[i]), acc)
    }
}

/// The lines of `t`: split on newlines, trimmed, with blank lines dropped.
pub open spec fn spec_clean_lines(t: Seq<u8>) -> Seq<Seq<u8>> {
    scan_lines(t, 0, Seq::empty(), Seq::empty())
}

/// Splits `text` on newlines, trims every line, and drops the blank ones.
pub fn clean_lines(text: &Vec<u8>) -> (r: Vec<Vec<u8>>)
    ensures
        r.deep_view() == spec_clean_lines(text@),
{
    let mut acc: Vec<Vec<u8>> = Vec::new();
    let mut cur: Vec<u8> = Vec::new();
    let mut i: usize = 0;
    proof {
        assert(acc.deep_view() =~~= Seq::<Seq<u8>>::empty());
    }
    while i < text.len()
        invariant
            i <= text@.len(),
            spec_clean_lines(text@) == scan_lines(text@, i as int, cur@, acc.deep_view()),
        decreases text@.len() - i,
    {
        let b: u8 = text[i];
        if b == 10 {
            let t: Vec<u8> = trim_vec(&cur);
            if t.len() > 0 {
                let ghost pre = acc.deep_view();
                let ghost tv = t@;
                acc.push(t);
                proof {
                    assert(acc.deep_view() =~~= pre.push(tv));
                }
            }
            cur = Vec::new();
        } else {
            cur.push(b);
        }
        i = i + 1;
    }
    let t: Vec<u8> = trim_vec(&cur);
    if t.len() > 0 {
        let ghost pre = acc.deep_view();
        let ghost tv = t@;
        acc.push(t);
        proof {
            assert(acc.deep_view() =~~= pre.push(tv));
        }
    }
    acc
}

proof fn lemma_scan_lines_acc(t: Seq<u8>, i: int, cur: Seq<u8>, acc: Seq<Seq<u8>>)
    ensures
        scan_lines(t, i, cur, acc) == acc + scan_lines(t, i, cur, Seq::empty()),
    decreases t.len() - i,
{
    if i < 0 || i >= t.len() {
        if spec_trim(cur).len() == 0 {
            assert(acc + Seq::<Seq<u8>>::empty() =~= acc);
        } else {
            assert(acc + Seq::<Seq<u8>>::empty().push(spec_trim(cur)) =~= acc.push(
                spec_trim(cur),
            ));
        }
    } else if t[i] == 10 {
        lemma_scan_lines_acc(t, i + 1, Seq::empty(), acc.push(spec_trim(cur)));
        lemma_scan_lines_acc(t, i + 1, Seq::empty(), acc);
        lemma_scan_lines_acc(t, i + 1, Seq::empty(), Seq::<Seq<u8>>::empty().push(spec_trim(cur)));
        if spec_trim(cur).len() == 0 {
        } else {
            assert(acc.push(spec_trim(cur)) =~= acc + Seq::<Seq<u8>>::empty().push(
                spec_trim(cur),
            ));
            assert(acc + (Seq::<Seq<u8>>::empty().push(spec_trim(cur)) + scan_lines(
                t,
                i + 1,
                Seq::empty(),
                Seq::empty(),
            )) =~= (acc + Seq::<Seq<u8>>::empty().push(spec_trim(cur))) + scan_lines(
                t,
                i + 1,
                Seq::empty(),
                Seq::empty(),
            ));
        }
    } else {
        lemma_scan_lines_acc(t, i + 1, cur.push(t[i]), acc);
    }
}

proof fn lemma_scan_lines_shift(a: Seq<u8>, b: Seq<u8>, i: int, cur: Seq<u8>, acc: Seq<Seq<u8>>)
    requires
        a.len() <= i,
    ensures
        scan_lines(a + b, i, cur, acc) == scan_lines(b, i - a.len(), cur, acc),
    decreases (a + b).len() - i,
{
    if i < (a + b).len() {
        assert((a + b)[i] == b[i - a.len()]);
        if (a + b)[i] == 10 {
            lemma_scan_lines_shift(
                a,
                b,
                i + 1,
                Seq::empty(),
                if spec_trim(cur).len() == 0 {
                    acc
                } else {
                    acc.push(spec_trim(cur))
                },
            );
        } else {
            lemma_scan_lines_shift(a, b, i + 1, cur.push(b[i - a.len()]), acc);
        }
    }
}

proof fn lemma_scan_lines_consume(a: Seq<u8>, b: Seq<u8>, i: int, acc: Seq<Seq<u8>>)
    requires
        0 <= i <= a.len(),
        forall|j: int| 0 <= j < a.len() ==> a[j] != 10,
    ensures
        scan_lines(a + b, i, a.take(i), acc) == scan_lines(a + b, a.len() as int, a, acc),
    decreases a.len() - i,
{
    if i < a.len() {
        assert((a + b)[i] == a[i]);
        assert(a.take(i).push(a[i]) =~= a.take(i + 1));
        lemma_scan_lines_consume(a, b, i + 1, acc);
    } else {
        assert(a.take(i) =~= a);
    }
}

/// Law (one piece of the save/load round trip): a line the serializer
/// writes — no newline inside, nothing to trim, not blank — followed by a
/// newline comes back from the line splitter as exactly that line, in front
/// of whatever the rest of the text yields.
pub proof fn lemma_clean_lines_of_line(a: Seq<u8>, rest: Seq<u8>)
    requires
        a.len() > 0,
        forall|j: int| 0 <= j < a.len() ==> a[j] != 10,
        spec_trim(a) == a,
    ensures
        spec_clean_lines(a + seq![10u8] + rest) == seq![a] + spec_clean_lines(rest),
{
    let t = a + seq![10u8] + rest;
    assert(a + seq![10u8] + rest =~= a + (seq![10u8] + rest));
    lemma_scan_lines_consume(a, seq![10u8] + rest, 0, Seq::empty());
    assert(Seq::<u8>::empty() + a =~= a);
    assert(a.take(0) =~= Seq::<u8>::empty());
    assert((a + (seq![10u8] + rest))[a.len() as int] == 10);
    assert(scan_lines(
        a + (seq![10u8] + rest),
        a.len() as int,
        a,
        Seq::empty(),
    ) == scan_lines(
        a + (seq![10u8] + rest),
        a.len() as int + 1,
        Seq::empty(),
        Seq::<Seq<u8>>::empty().push(a),
    ));
    assert(a + (seq![10u8] + rest) =~= (a + seq![10u8]) + rest);
    lemma_scan_lines_shift(
        a + seq![10u8],
        rest,
        a.len() as int + 1,
        Seq::empty(),
        Seq::<Seq<u8>>::empty().push(a),
    );
    lemma_scan_lines_acc(rest, 0, Seq::empty(), Seq::<Seq<u8>>::empty().push(a));
    assert(Seq::<Seq<u8>>::empty().push(a) =~= seq![a]);
}

// ---------------------------------------------------------------------------
// Splitting a line into whitespace-separated tokens
// ---------------------------------------------------------------------------
/// One pass of token splitting, analogous to [`scan_lines`].
pub open spec fn scan_tokens(s: Seq<u8>, i: int, cur: Seq<u8>, acc: Seq<Seq<u8>>) -> Seq<Seq<u8>>
    decreases s.len() - i,
{
    if i < 0 || i >= s.len() {
        if cur.len() == 0 {
            acc
        } else {
            acc.push(cur)
        }
    } else if is_space(s[i]) {
        scan_tokens(
            s,
            i + 1,
            Seq::empty(),
            if cur.len() == 0 {
                acc
            } else {
                acc.push(cur)
            },
        )
    } else {
        scan_tokens(s, i + 1, cur.push(s[i]), acc)
    }
}

/// The whitespace-separated tokens of `s`.
pub open spec fn spec_tokens(s: Seq<u8>) -> Seq<Seq<u8>> {
    scan_tokens(s, 0, Seq::empty(), Seq::empty())
}

proof fn lemma_scan_tokens_acc(s: Seq<u8>, i: int, cur: Seq<u8>, acc: Seq<Seq<u8>>)
    ensures
        scan_tokens(s, i, cur, acc) == acc + scan_tokens(s, i, cur, Seq::empty()),
    decreases s.len() - i,
{
    if i < 0 || i >= s.len() {
        if cur.len() == 0 {
            assert(acc + Seq::<Seq<u8>>::empty() =~= acc);
        } else {
            assert(acc + Seq::<Seq<u8>>::empty().push(cur) =~= acc.push(cur));
        }
    } else if is_space(s[i]) {
        lemma_scan_tokens_acc(s, i + 1, Seq::empty(), acc.push(cur));
        lemma_scan_tokens_acc(s, i + 1, Seq::empty(), acc);
        lemma_scan_tokens_acc(s, i + 1, Seq::empty(), Seq::<Seq<u8>>::empty().push(cur));
        if cur.len() == 0 {
        } else {
            assert(acc.push(cur) =~= acc + Seq::<Seq<u8>>::empty().push(cur));
            assert(acc + (Seq::<Seq<u8>>::empty().push(cur) + scan_tokens(
                s,
                i + 1,
                Seq::empty(),
                Seq::empty(),
            )) =~= (acc + Seq::<Seq<u8>>::empty().push(cur)) + scan_tokens(
                s,
                i + 1,
                Seq::empty(),
                Seq::empty(),
            ));
        }
    } else {
        lemma_scan_tokens_acc(s, i + 1, cur.push(s[i]), acc);
    }
}

proof fn lemma_scan_tokens_shift(a: Seq<u8>, b: Seq<u8>, i: int, cur: Seq<u8>, acc: Seq<Seq<u8>>)
    requires
        a.len() <= i,
    ensures
        scan_tokens(a + b, i, cur, acc) == scan_tokens(b, i - a.len(), cur, acc),
    decreases (a + b).len() - i,
{
    if i < (a + b).len() {
        assert((a + b)[i] == b[i - a.len()]);
        if is_space((a + b)[i]) {
            lemma_scan_tokens_shift(
                a,
                b,
                i + 1,
                Seq::empty(),
                if cur.len() == 0 {
                    acc
                } else {
                    acc.push(cur)
                },
            );
        } else {
            lemma_scan_tokens_shift(a, b, i + 1, cur.push(b[i - a.len()]), acc);
        }
    }
}

proof fn lemma_scan_tokens_consume(a: Seq<u8>, b: Seq<u8>, i: int, acc: Seq<Seq<u8>>)
    requires
        0 <= i <= a.len(),
        forall|j: int| 0 <= j < a.len() ==> !is_space(#[trigger] a[j]),
    ensures
        scan_tokens(a + b, i, a.take(i), acc) == scan_tokens(a + b, a.len() as int, a, acc),
    decreases a.len() - i,
{
    if i < a.len() {
        assert((a + b)[i] == a[i]);
        assert(a.take(i).push(a[i]) =~= a.take(i + 1));
        lemma_scan_tokens_consume(a, b, i + 1, acc);
    } else {
        assert(a.take(i) =~= a);
    }
}

/// Law (one piece of the save/load round trip): a token the serializer
/// writes, followed by one space, splits back off as exactly that token, in
/// front of whatever the rest of the line yields.
pub proof fn lemma_tokens_of_token(a: Seq<u8>, rest: Seq<u8>)
    requires
        a.len() > 0,
        forall|j: int| 0 <= j < a.len() ==> !is_space(#[trigger] a[j]),
    ensures
        spec_tokens(a + seq![32u8] + rest) == seq![a] + spec_tokens(rest),
{
    assert(a + seq![32u8] + rest =~= a + (seq![32u8] + rest));
    lemma_scan_tokens_consume(a, seq![32u8] + rest, 0, Seq::empty());
    assert(a.take(0) =~= Seq::<u8>::empty());
    assert((a + (seq![32u8] + rest))[a.len() as int] == 32);
    assert(is_space(32));
    assert(scan_tokens(
        a + (seq![32u8] + rest),
        a.len() as int,
        a,
        Seq::empty(),
    ) == scan_tokens(
        a + (seq![32u8] + rest),
        a.len() as int + 1,
        Seq::empty(),
        Seq::<Seq<u8>>::empty().push(a),
    ));
    assert(a + (seq![32u8] + rest) =~= (a + seq![32u8]) + rest);
    lemma_scan_tokens_shift(
        a + seq![32u8],
        rest,
        a.len() as int + 1,
        Seq::empty(),
        Seq::<Seq<u8>>::empty().push(a),
    );
    lemma_scan_tokens_acc(rest, 0, Seq::empty(), Seq::<Seq<u8>>::empty().push(a));
    assert(Seq::<Seq<u8>>::empty().push(a) =~= seq![a]);
}

/// Law (one piece of the save/load round trip): the last token of a written
/// line splits back off as itself.
pub proof fn lemma_tokens_of_last_token(a: Seq<u8>)
    requires
        a.len() > 0,
        forall|j: int| 0 <= j < a.len() ==> !is_space(#[trigger] a[j]),
    ensures
        spec_tokens(a) == seq![a],
{
    assert(a =~= a + Seq::<u8>::empty());
    lemma_scan_tokens_consume(a, Seq::empty(), 0, Seq::empty());
    assert(a.take(0) =~= Seq::<u8>::empty());
    assert(Seq::<Seq<u8>>::empty().push(a) =~= seq![a]);
}

/// Splits `line` into its whitespace-separated tokens.
fn split_tokens(line: &Vec<u8>) -> (r: Vec<Vec<u8>>)
    ensures
        r.deep_view() == spec_tokens(line@),
{
    let mut acc: Vec<Vec<u8>> = Vec::new();
    let mut cur: Vec<u8> = Vec::new();
    let mut i: usize = 0;
    proof {
        assert(acc.deep_view() =~~= Seq::<Seq<u8>>::empty());
    }
    while i < line.len()
        invariant
            i <= line@.len(),
            spec_tokens(line@) == scan_tokens(line@, i as int, cur@, acc.deep_view()),
        decreases line@.len() - i,
    {
        let b: u8 = line[i];
        if is_space_byte(b) {
            if cur.len() > 0 {
                let ghost pre = acc.deep_view();
                let ghost cv = cur@;
                acc.push(cur);
                proof {
                    assert(acc.deep_view() =~~= pre.push(cv));
                }
                cur = Vec::new();
            } else {
                proof {
                    assert(cur@ =~= Seq::<u8>::empty());
                }
            }
        } else {
            cur.push(b);
        }
        i = i + 1;
    }
    if cur.len() > 0 {
        let ghost pre = acc.deep_view();
        let ghost cv = cur@;
        acc.push(cur);
        proof {
            assert(acc.deep_view() =~~= pre.push(cv));
        }
    }
    acc
}

// ---------------------------------------------------------------------------
// Decimal numbers
// ---------------------------------------------------------------------------
/// The value of `s` read as a decimal numeral (meaningful when every byte is
/// a digit).
pub open spec fn dec_val(s: Seq<u8>) -> int
    decreases s.len(),
{
    if s.len() == 0 {
        0
    } else {
        dec_val(s.drop_last()) * 10 + s.last() - 48
    }
}

/// Every byte of `s` is a decimal digit.
pub open spec fn all_digits(s: Seq<u8>) -> bool {
    forall|i: int| 0 <= i < s.len() ==> is_digit(#[trigger] s[i])
}

/// `s` without one optional leading `+`.
pub open spec fn strip_plus(s: Seq<u8>) -> Seq<u8> {
    if s.len() > 0 && s[0] == 43 {
        s.drop_first()
    } else {
        s
    }
}

/// `s` parses as a non-negative integer that fits in `usize`: an optional
/// `+`, then at least one digit, with the value in range.
pub open spec fn valid_usize_token(s: Seq<u8>) -> bool {
    &&& strip_plus(s).len() > 0
    &&& all_digits(strip_plus(s))
    &&& dec_val(strip_plus(s)) <= usize::MAX
}

/// The numeric value of the token `s`.
pub open spec fn usize_token_val(s: Seq<u8>) -> int {
    dec_val(strip_plus(s))
}

proof fn lemma_dec_val_nonneg(s: Seq<u8>)
    requires
        all_digits(s),
    ensures
        dec_val(s) >= 0,
    decreases s.len(),
{
    if s.len() > 0 {
        assert(all_digits(s.drop_last())) by {
            assert(forall|i: int| 0 <= i < s.len() - 1 ==> s.drop_last()[i] == s[i]);
        }
        lemma_dec_val_nonneg(s.drop_last());
    }
}

proof fn lemma_dec_val_prefix(s: Seq<u8>, j: int)
    requires
        all_digits(s),
        0 <= j <= s.len(),
    ensures
        dec_val(s.take(j)) <= dec_val(s),
    decreases s.len() - j,
{
    assert(all_digits(s.take(j))) by {
        assert(forall|i: int| 0 <= i < j ==> s.take(j)[i] == s[i]);
    }
    if j == s.len() {
        assert(s.take(j) =~= s);
    } else {
        lemma_dec_val_prefix(s, j + 1);
        assert(s.take(j + 1).drop_last() =~= s.take(j));
        assert(s.take(j + 1).last() == s[j]);
        lemma_dec_val_nonneg(s.take(j));
        assert(dec_val(s.take(j)) <= dec_val(s.take(j + 1)));
    }
}

/// Parses `v` as a non-negative integer, exactly as the coordinate and size
/// fields demand: `None` on an empty or non-numeric token and on a value
/// that does not fit in `usize`.
fn parse_usize(v: &Vec<u8>) -> (r: Option<usize>)
    ensures
        (r is Some) == valid_usize_token(v@),
        r matches Some(n) ==> n as int == usize_token_val(v@),
{
    let mut i: usize = 0;
    if v.len() > 0 && v[0] == 43 {
        i = 1;
    }
    let ghost d = strip_plus(v@);
    proof {
        assert(d =~= v@.skip(i as int));
    }
    if i == v.len() {
        return None;
    }
    let mut val: usize = 0;
    let mut j: usize = i;
    while j < v.len()
        invariant
            i <= j <= v@.len(),
            d == strip_plus(v@),
            d == v@.skip(i as int),
            d.len() == v@.len() - i,
            all_digits(d.take(j - i)),
            val as int == dec_val(d.take(j - i)),
        decreases v@.len() - j,
    {
        let b: u8 = v[j];
        if b < 48 || b > 57 {
            proof {
                assert(d[(j - i) as int] == v@[j as int]);
                assert(!all_digits(d));
            }
            return None;
        }
        let dd: usize = (b - 48) as usize;
        proof {
            assert(d.take(j - i + 1).drop_last() =~= d.take(j - i));
            assert(d.take(j - i + 1).last() == v@[j as int]);
            assert(all_digits(d.take(j - i + 1))) by {
                assert(forall|k: int| 0 <= k < j - i + 1 ==> d.take(j - i + 1)[k] == d[k]);
            }
            lemma_fundamental_div_mod(usize::MAX - dd, 10);
            vstd::arithmetic::div_mod::lemma_mod_bound(usize::MAX - dd, 10);
        }
        if val > (usize::MAX - dd) / 10 {
            proof {
                assert(dec_val(d.take(j - i + 1)) > usize::MAX);
                if all_digits(d) {
                    lemma_dec_val_prefix(d, j - i + 1);
                }
            }
            return None;
        }
        val = val * 10 + dd;
        j = j + 1;
    }
    proof {
        assert(d.take(j - i) =~= d);
    }
    Some(val)
}

// ---------------------------------------------------------------------------
// Rule tokens: `<survival-digits>/<birth-digits>`
// ---------------------------------------------------------------------------
/// The position of the first `/` in `s`, or `s.len()` if there is none.
pub open spec fn first_slash(s: Seq<u8>) -> int
    decreases s.len(),
{
    if s.len() == 0 {
        0
    } else if s[0] == 47 {
        0
    } else {
        1 + first_slash(s.drop_first())
    }
}

/// Every byte of `s` is a digit between 0 and 8.
pub open spec fn all_rule_digits(s: Seq<u8>) -> bool {
    forall|i: int| 0 <= i < s.len() ==> is_rule_digit(#[trigger] s[i])
}

/// `s` is `<survival-digits>/<birth-digits>`: one slash, every other byte a
/// digit between 0 and 8, either side possibly empty.
pub open spec fn valid_rule_token(s: Seq<u8>) -> bool {
    &&& first_slash(s) < s.len()
    &&& all_rule_digits(s.take(first_slash(s)))
    &&& all_rule_digits(s.skip(first_slash(s) + 1))
}

/// The survival digits of a rule token.
pub open spec fn spec_survival_digits(s: Seq<u8>) -> Seq<u8> {
    s.take(first_slash(s))
}

/// The birth digits of a rule token.
pub open spec fn spec_birth_digits(s: Seq<u8>) -> Seq<u8> {
    s.skip(first_slash(s) + 1)
}

proof fn lemma_first_slash_is(s: Seq<u8>, k: int)
    requires
        0 <= k <= s.len(),
        forall|i: int| 0 <= i < k ==> s[i] != 47,
        k < s.len() ==> s[k] == 47,
    ensures
        first_slash(s) == k,
    decreases k,
{
    if k == 0 {
    } else {
        assert(forall|i: int| 0 <= i < k - 1 ==> s.drop_first()[i] == s[i + 1]);
        lemma_first_slash_is(s.drop_first(), k - 1);
    }
}

/// `s` contains the digit `d` (given as 0 to 8).
pub open spec fn digit_present(s: Seq<u8>, d: int) -> bool {
    exists|i: int| 0 <= i < s.len() && s[i] == 48 + d
}

/// The neighbor counts named by the digit string `s`, as a sorted list
/// without duplicates.
pub open spec fn rules_from(s: Seq<u8>, d: int) -> Seq<u32>
    decreases 9 - d,
{
    if d < 0 || d >= 9 {
        Seq::empty()
    } else if digit_present(s, d) {
        seq![d as u32] + rules_from(s, d + 1)
    } else {
        rules_from(s, d + 1)
    }
}

fn has_digit(v: &Vec<u8>, d: u8) -> (b: bool)
    requires
        d <= 8,
    ensures
        b == digit_present(v@, d as int),
{
    let mut i: usize = 0;
    let mut found: bool = false;
    while i < v.len()
        invariant
            d <= 8,
            i <= v@.len(),
            found == exists|k: int| 0 <= k < i && v@[k] == 48 + d,
        decreases v@.len() - i,
    {
        if v[i] == 48 + d {
            found = true;
        }
        i = i + 1;
    }
    found
}

/// Turns a string of rule digits into the sorted, duplicate-free list of
/// neighbor counts it names.
fn rules_of_digits(v: &Vec<u8>) -> (r: Vec<u32>)
    ensures
        r@ == rules_from(v@, 0),
        forall|i: int| 0 <= i < r@.len() ==> #[trigger] r@[i] <= 8,
{
    let mut r: Vec<u32> = Vec::new();
    let mut d: u8 = 0;
    proof {
        assert(rules_from(v@, 0) =~= Seq::<u32>::empty() + rules_from(v@, 0));
    }
    while d < 9
        invariant
            d <= 9,
            rules_from(v@, 0) == r@ + rules_from(v@, d as int),
            forall|i: int| 0 <= i < r@.len() ==> #[trigger] r@[i] <= 8,
        decreases 9 - d,
    {
        if has_digit(v, d) {
            let ghost pre = r@;
            r.push(d as u32);
            proof {
                assert(pre + (seq![d as u32] + rules_from(v@, d as int + 1)) =~= r@ + rules_from(
                    v@,
                    d as int + 1,
                ));
            }
        }
        d = d + 1;
    }
    proof {
        assert(r@ + rules_from(v@, 9) =~= r@);
    }
    r
}

// ---------------------------------------------------------------------------
// The lines of a life file
// ---------------------------------------------------------------------------
/// The bytes of the header line of the toroidal dialect: `#Toroidal Life`.
pub open spec fn toroidal_header() -> Seq<u8> {
    seq![35u8, 84u8, 111u8, 114u8, 111u8, 105u8, 100u8, 97u8, 108u8, 32u8, 76u8, 105u8, 102u8, 101u8]
}

/// The bytes of the header line of the resizable dialect: `#Resizable Life`.
pub open spec fn resizable_header() -> Seq<u8> {
    seq![
        35u8,
        82u8,
        101u8,
        115u8,
        105u8,
        122u8,
        97u8,
        98u8,
        108u8,
        101u8,
        32u8,
        76u8,
        105u8,
        102u8,
        101u8,
    ]
}

/// The line that selects the default rule: `#N`.
pub open spec fn default_rule_line() -> Seq<u8> {
    seq![35u8, 78u8]
}

/// A description line: it starts with `#D` and is ignored.
pub open spec fn is_desc_line(l: Seq<u8>) -> bool {
    l.len() >= 2 && l[0] == 35 && l[1] == 68
}

/// A well-formed rule line: the two tokens `#R` and a valid rule token.
pub open spec fn spec_rule_line_ok(l: Seq<u8>) -> bool {
    &&& spec_tokens(l).len() == 2
    &&& spec_tokens(l)[0] == seq![35u8, 82u8]
    &&& valid_rule_token(spec_tokens(l)[1])
}

/// A well-formed size line: the token `#S`, a width and a height.
pub open spec fn spec_size_line_ok(l: Seq<u8>) -> bool {
    &&& spec_tokens(l).len() == 3
    &&& spec_tokens(l)[0] == seq![35u8, 83u8]
    &&& valid_usize_token(spec_tokens(l)[1])
    &&& valid_usize_token(spec_tokens(l)[2])
}

/// A well-formed coordinate line: a row and a column.
pub open spec fn spec_coord_line_ok(l: Seq<u8>) -> bool {
    &&& spec_tokens(l).len() == 2
    &&& valid_usize_token(spec_tokens(l)[0])
    &&& valid_usize_token(spec_tokens(l)[1])
}

/// The `(row, col)` pair a coordinate line names.
pub open spec fn spec_line_coord(l: Seq<u8>) -> (int, int) {
    (usize_token_val(spec_tokens(l)[0]), usize_token_val(spec_tokens(l)[1]))
}

/// The index of the first line at or after `i` that is not a description.
pub open spec fn desc_end(ls: Seq<Seq<u8>>, i: int) -> int
    decreases ls.len() - i,
{
    if i < 0 || i >= ls.len() {
        i
    } else if is_desc_line(ls[i]) {
        desc_end(ls, i + 1)
    } else {
        i
    }
}

/// Checking the coordinate section: every remaining line must be a
/// coordinate line.
pub open spec fn spec_check_coords(ls: Seq<Seq<u8>>, j: int) -> Result<
    (),
    FileParsingErrorKind,
>
    decreases ls.len() - j,
{
    if j < 0 || j >= ls.len() {
        Ok(())
    } else if !spec_coord_line_ok(ls[j]) {
        Err(FileParsingErrorKind::CoordParsingError)
    } else {
        spec_check_coords(ls, j + 1)
    }
}

/// Checking the body of a resizable file (the lines after the header):
/// descriptions, one rule line, then at least one coordinate line.
pub open spec fn spec_check_resizable(ls: Seq<Seq<u8>>) -> Result<
    (),
    FileParsingErrorKind,
> {
    let i = desc_end(ls, 0);
    if i >= ls.len() {
        Err(FileParsingErrorKind::IncompleteFile)
    } else if !(ls[i] == default_rule_line() || spec_rule_line_ok(ls[i])) {
        Err(FileParsingErrorKind::RuleParsingError)
    } else if i + 1 >= ls.len() {
        Err(FileParsingErrorKind::IncompleteFile)
    } else {
        spec_check_coords(ls, i + 1)
    }
}

/// Checking the body of a toroidal file: descriptions, one rule line, one
/// size line, then at least one coordinate line.
pub open spec fn spec_check_toroidal(ls: Seq<Seq<u8>>) -> Result<
    (),
    FileParsingErrorKind,
> {
    let i = desc_end(ls, 0);
    if i >= ls.len() {
        Err(FileParsingErrorKind::IncompleteFile)
    } else if !(ls[i] == default_rule_line() || spec_rule_line_ok(ls[i])) {
        Err(FileParsingErrorKind::RuleParsingError)
    } else if i + 1 >= ls.len() {
        Err(FileParsingErrorKind::IncompleteFile)
    } else if !spec_size_line_ok(ls[i + 1]) {
        Err(FileParsingErrorKind::CoordParsingError)
    } else if i + 2 >= ls.len() {
        Err(FileParsingErrorKind::IncompleteFile)
    } else {
        spec_check_coords(ls, i + 2)
    }
}

/// Checking a whole life file, given as its cleaned lines: the header picks
/// the dialect, the rest is checked by the dialect's own rules.
pub open spec fn spec_check_life_file(ls: Seq<Seq<u8>>) -> Result<
    (),
    FileParsingErrorKind,
> {
    if ls.len() == 0 {
        Err(FileParsingErrorKind::IncompleteFile)
    } else if ls[0] == resizable_header() {
        spec_check_resizable(ls.skip(1))
    } else if ls[0] == toroidal_header() {
        spec_check_toroidal(ls.skip(1))
    } else {
        Err(FileParsingErrorKind::UnknownFormat)
    }
}

// ---------------------------------------------------------------------------
// Validating, line by line
// ---------------------------------------------------------------------------
/// Copies the token at position `i`.
fn token_at(tk: &Vec<Vec<u8>>, i: usize) -> (r: Vec<u8>)
    requires
        i < tk@.len(),
    ensures
        r@ == tk.deep_view()[i as int],
{
    proof {
        assert(tk.deep_view()[i as int] =~= tk@[i as int]@);
    }
    copy_bytes(&tk[i])
}

fn line_is_desc(l: &Vec<u8>) -> (b: bool)
    ensures
        b == is_desc_line(l@),
{
    l.len() >= 2 && l[0] == 35 && l[1] == 68
}

fn line_is_default_rule(l: &Vec<u8>) -> (b: bool)
    ensures
        b == (l@ == default_rule_line()),
{
    let b = l.len() == 2 && l[0] == 35 && l[1] == 78;
    proof {
        if b {
            assert(l@ =~= default_rule_line());
        }
    }
    b
}

fn line_is_header(l: &Vec<u8>, toroidal: bool) -> (b: bool)
    ensures
        toroidal ==> b == (l@ == toroidal_header()),
        !toroidal ==> b == (l@ == resizable_header()),
{
    if toroidal {
        let b = l.len() == 14 && l[0] == 35 && l[1] == 84 && l[2] == 111 && l[3] == 114 && l[4]
            == 111 && l[5] == 105 && l[6] == 100 && l[7] == 97 && l[8] == 108 && l[9] == 32
            && l[10] == 76 && l[11] == 105 && l[12] == 102 && l[13] == 101;
        proof {
            if b {
                assert(l@ =~= toroidal_header());
            }
        }
        b
    } else {
        let b = l.len() == 15 && l[0] == 35 && l[1] == 82 && l[2] == 101 && l[3] == 115 && l[4]
            == 105 && l[5] == 122 && l[6] == 97 && l[7] == 98 && l[8] == 108 && l[9] == 101
            && l[10] == 32 && l[11] == 76 && l[12] == 105 && l[13] == 102 && l[14] == 101;
        proof {
            if b {
                assert(l@ =~= resizable_header());
            }
        }
        b
    }
}

/// Checks that `t` is a `<survival>/<birth>` rule token.
fn rule_token_ok(t: &Vec<u8>) -> (b: bool)
    ensures
        b == valid_rule_token(t@),
{
    let mut k: usize = 0;
    while k < t.len() && t[k] != 47
        invariant
            k <= t@.len(),
            forall|i: int| 0 <= i < k ==> t@[i] != 47,
        decreases t@.len() - k,
    {
        k = k + 1;
    }
    proof {
        lemma_first_slash_is(t@, k as int);
    }
    if k == t.len() {
        return false;
    }
    let mut i: usize = 0;
    while i < k
        invariant
            i <= k < t@.len(),
            first_slash(t@) == k,
            forall|j: int| 0 <= j < i ==> is_rule_digit(#[trigger] t@[j]),
        decreases k - i,
    {
        let b: u8 = t[i];
        if b < 48 || b > 56 {
            proof {
                assert(t@.take(k as int)[i as int] == t@[i as int]);
            }
            return false;
        }
        i = i + 1;
    }
    proof {
        assert(all_rule_digits(t@.take(k as int))) by {
            assert(forall|j: int| 0 <= j < k ==> t@.take(k as int)[j] == t@[j]);
        }
    }
    let mut i2: usize = k + 1;
    while i2 < t.len()
        invariant
            k < i2 <= t@.len() || i2 == k + 1,
            k < t@.len(),
            first_slash(t@) == k,
            all_rule_digits(t@.take(k as int)),
            forall|j: int| k < j < i2 ==> is_rule_digit(#[trigger] t@[j]),
        decreases t@.len() - i2,
    {
        let b: u8 = t[i2];
        if b < 48 || b > 56 {
            proof {
                assert(t@.skip(k as int + 1)[i2 - k - 1] == t@[i2 as int]);
            }
            return false;
        }
        i2 = i2 + 1;
    }
    proof {
        assert(all_rule_digits(t@.skip(k as int + 1))) by {
            assert(forall|j: int|
                0 <= j < t@.len() - k - 1 ==> #[trigger] t@.skip(k as int + 1)[j] == t@[j + k
                    + 1]);
        }
    }
    true
}

fn rule_line_ok(l: &Vec<u8>) -> (b: bool)
    ensures
        b == spec_rule_line_ok(l@),
{
    let tk = split_tokens(l);
    proof {
        assert(tk.deep_view().len() == tk@.len());
    }
    if tk.len() != 2 {
        return false;
    }
    let t0 = token_at(&tk, 0);
    if !(t0.len() == 2 && t0[0] == 35 && t0[1] == 82) {
        proof {
            assert(!(spec_tokens(l@)[0] == seq![35u8, 82u8]));
        }
        return false;
    }
    proof {
        assert(t0@ =~= seq![35u8, 82u8]);
    }
    let t1 = token_at(&tk, 1);
    rule_token_ok(&t1)
}

fn size_line_ok(l: &Vec<u8>) -> (b: bool)
    ensures
        b == spec_size_line_ok(l@),
{
    let tk = split_tokens(l);
    proof {
        assert(tk.deep_view().len() == tk@.len());
    }
    if tk.len() != 3 {
        return false;
    }
    let t0 = token_at(&tk, 0);
    if !(t0.len() == 2 && t0[0] == 35 && t0[1] == 83) {
        proof {
            assert(!(spec_tokens(l@)[0] == seq![35u8, 83u8]));
        }
        return false;
    }
    proof {
        assert(t0@ =~= seq![35u8, 83u8]);
    }
    let t1 = token_at(&tk, 1);
    if parse_usize(&t1).is_none() {
        return false;
    }
    let t2 = token_at(&tk, 2);
    parse_usize(&t2).is_some()
}

fn coord_line_ok(l: &Vec<u8>) -> (b: bool)
    ensures
        b == spec_coord_line_ok(l@),
{
    let tk = split_tokens(l);
    proof {
        assert(tk.deep_view().len() == tk@.len());
    }
    if tk.len() != 2 {
        return false;
    }
    let t0 = token_at(&tk, 0);
    if parse_usize(&t0).is_none() {
        return false;
    }
    let t1 = token_at(&tk, 1);
    parse_usize(&t1).is_some()
}

/// The index of the first line that is not a `#D` description.
fn skip_desc(lines: &Vec<Vec<u8>>) -> (r: usize)
    ensures
        r as int == desc_end(lines.deep_view(), 0),
        r <= lines@.len(),
{
    proof {
        assert(lines.deep_view().len() == lines@.len());
    }
    let mut i: usize = 0;
    while i < lines.len() && line_is_desc(&lines[i])
        invariant
            i <= lines@.len(),
            lines.deep_view().len() == lines@.len(),
            desc_end(lines.deep_view(), 0) == desc_end(lines.deep_view(), i as int),
        decreases lines@.len() - i,
    {
        proof {
            assert(lines.deep_view()[i as int] =~= lines@[i as int]@);
        }
        i = i + 1;
    }
    proof {
        if i < lines@.len() {
            assert(lines.deep_view()[i as int] =~= lines@[i as int]@);
        }
    }
    i
}

/// Checks whether the given lines, the body of a toroidal file after its
/// header, are well formed, and says how they fail when they are not.
pub fn valid_toroidal_life(lines: &Vec<Vec<u8>>) -> (r: Result<(), FileParsingErrorKind>)
    ensures
        r == spec_check_toroidal(lines.deep_view()),
{
    let ghost ls = lines.deep_view();
    proof {
        assert(ls.len() == lines@.len());
    }
    let i = skip_desc(lines);
    if i >= lines.len() {
        return Err(FileParsingErrorKind::IncompleteFile);
    }
    proof {
        assert(ls[i as int] =~= lines@[i as int]@);
    }
    if !line_is_default_rule(&lines[i]) {
        if !rule_line_ok(&lines[i]) {
            return Err(FileParsingErrorKind::RuleParsingError);
        }
    }
    if i + 1 >= lines.len() {
        return Err(FileParsingErrorKind::IncompleteFile);
    }
    proof {
        assert(ls[i as int + 1] =~= lines@[i as int + 1]@);
    }
    if !size_line_ok(&lines[i + 1]) {
        return Err(FileParsingErrorKind::CoordParsingError);
    }
    if i + 2 >= lines.len() {
        return Err(FileParsingErrorKind::IncompleteFile);
    }
    let mut j: usize = i + 2;
    while j < lines.len()
        invariant
            i + 2 <= j <= lines@.len(),
            ls == lines.deep_view(),
            ls.len() == lines@.len(),
            spec_check_toroidal(ls) == spec_check_coords(ls, j as int),
        decreases lines@.len() - j,
    {
        proof {
            assert(ls[j as int] =~= lines@[j as int]@);
        }
        if !coord_line_ok(&lines[j]) {
            return Err(FileParsingErrorKind::CoordParsingError);
        }
        j = j + 1;
    }
    Ok(())
}

/// Checks whether the given lines, the body of a resizable file after its
/// header, are well formed, and says how they fail when they are not.
pub fn valid_resizable_life(lines: &Vec<Vec<u8>>) -> (r: Result<(), FileParsingErrorKind>)
    ensures
        r == spec_check_resizable(lines.deep_view()),
{
    let ghost ls = lines.deep_view();
    proof {
        assert(ls.len() == lines@.len());
    }
    let i = skip_desc(lines);
    if i >= lines.len() {
        return Err(FileParsingErrorKind::IncompleteFile);
    }
    proof {
        assert(ls[i as int] =~= lines@[i as int]@);
    }
    if !line_is_default_rule(&lines[i]) {
        if !rule_line_ok(&lines[i]) {
            return Err(FileParsingErrorKind::RuleParsingError);
        }
    }
    if i + 1 >= lines.len() {
        return Err(FileParsingErrorKind::IncompleteFile);
    }
    let mut j: usize = i + 1;
    while j < lines.len()
        invariant
            i + 1 <= j <= lines@.len(),
            ls == lines.deep_view(),
            ls.len() == lines@.len(),
            spec_check_resizable(ls) == spec_check_coords(ls, j as int),
        decreases lines@.len() - j,
    {
        proof {
            assert(ls[j as int] =~= lines@[j as int]@);
        }
        if !coord_line_ok(&lines[j]) {
            return Err(FileParsingErrorKind::CoordParsingError);
        }
        j = j + 1;
    }
    Ok(())
}

/// Copies the lines after the header.
fn tail_lines(lines: &Vec<Vec<u8>>) -> (r: Vec<Vec<u8>>)
    requires
        lines@.len() >= 1,
    ensures
        r.deep_view() == lines.deep_view().skip(1),
{
    let mut r: Vec<Vec<u8>> = Vec::new();
    let mut i: usize = 1;
    proof {
        assert(r.deep_view() =~~= lines.deep_view().subrange(1, 1));
    }
    while i < lines.len()
        invariant
            1 <= i <= lines@.len(),
            lines.deep_view().len() == lines@.len(),
            r.deep_view() == lines.deep_view().subrange(1, i as int),
        decreases lines@.len() - i,
    {
        let ghost pre = r.deep_view();
        let c = copy_bytes(&lines[i]);
        let ghost cv = c@;
        proof {
            assert(cv == lines.deep_view()[i as int]) by {
                assert(lines.deep_view()[i as int] =~= lines@[i as int]@);
            }
        }
        r.push(c);
        proof {
            assert(r.deep_view() =~~= pre.push(cv));
            assert(pre.push(cv) =~= lines.deep_view().subrange(1, i as int + 1));
        }
        i = i + 1;
    }
    proof {
        assert(lines.deep_view().subrange(1, lines@.len() as int) =~= lines.deep_view().skip(1));
    }
    r
}

// ---------------------------------------------------------------------------
// Loading: from lines to a grid
// ---------------------------------------------------------------------------
/// The survival and birth rule lists a rule line names: the classic rule
/// for `#N`, the digits on either side of the slash otherwise, each list
/// sorted and without duplicates.
pub open spec fn spec_rule_lists(l: Seq<u8>) -> (Seq<u32>, Seq<u32>) {
    if l == default_rule_line() {
        (seq![2u32, 3u32], seq![3u32])
    } else {
        let t = spec_tokens(l)[1];
        (rules_from(spec_survival_digits(t), 0), rules_from(spec_birth_digits(t), 0))
    }
}

/// The `(row, col)` pairs named by the lines from `j` on.
pub open spec fn spec_coord_list(ls: Seq<Seq<u8>>, j: int) -> Seq<(int, int)>
    decreases ls.len() - j,
{
    if j < 0 || j >= ls.len() {
        Seq::empty()
    } else {
        seq![spec_line_coord(ls[j])] + spec_coord_list(ls, j + 1)
    }
}

/// The pair `(row, col)` occurs in `cs`.
pub open spec fn coord_present(cs: Seq<(int, int)>, row: int, col: int) -> bool {
    exists|k: int| 0 <= k < cs.len() && cs[k] == (row, col)
}

/// The cells of a `w` by `h` grid whose living cells are exactly the listed
/// coordinates.
pub open spec fn cells_of_coords(w: int, h: int, cs: Seq<(int, int)>) -> Seq<u8> {
    Seq::new(
        (w * h) as nat,
        |i: int|
            if coord_present(cs, i / w, i % w) {
                ALIVE
            } else {
                0u8
            },
    )
}

/// The largest first component among the first `k` pairs, or 0 for none.
pub open spec fn max_fst_upto(cs: Seq<(int, int)>, k: int) -> int
    decreases k,
{
    if k <= 0 {
        0
    } else if cs[k - 1].0 > max_fst_upto(cs, k - 1) {
        cs[k - 1].0
    } else {
        max_fst_upto(cs, k - 1)
    }
}

/// The largest second component among the first `k` pairs, or 0 for none.
pub open spec fn max_snd_upto(cs: Seq<(int, int)>, k: int) -> int
    decreases k,
{
    if k <= 0 {
        0
    } else if cs[k - 1].1 > max_snd_upto(cs, k - 1) {
        cs[k - 1].1
    } else {
        max_snd_upto(cs, k - 1)
    }
}

/// Loading the body of a toroidal file: on well-formed lines whose grid fits
/// the machine and whose coordinates fit the declared size, the grid those
/// lines describe; otherwise the error the first failure gives.
pub open spec fn spec_load_toroidal(ls: Seq<Seq<u8>>) -> Result<GridModel, FileParsingErrorKind> {
    if spec_check_toroidal(ls) is Err {
        Err(spec_check_toroidal(ls)->Err_0)
    } else {
        let i = desc_end(ls, 0);
        let rules = spec_rule_lists(ls[i]);
        let tk = spec_tokens(ls[i + 1]);
        let w = usize_token_val(tk[1]);
        let h = usize_token_val(tk[2]);
        let cs = spec_coord_list(ls, i + 2);
        if w * h > usize::MAX {
            Err(FileParsingErrorKind::CoordParsingError)
        } else if exists|k: int| 0 <= k < cs.len() && (cs[k].0 >= h || cs[k].1 >= w) {
            Err(FileParsingErrorKind::OutOfBoundCoords(GridErrorKind::OutOfBoundCoords))
        } else {
            Ok(
                GridModel {
                    format: "#Toroidal Life"@,
                    toroidal: true,
                    survival: rules.0,
                    birth: rules.1,
                    width: w as nat,
                    height: h as nat,
                    cells: cells_of_coords(w, h, cs),
                },
            )
        }
    }
}

/// Loading the body of a resizable file: the grid is sized by the pattern
/// itself, one cell past its largest row and column.
pub open spec fn spec_load_resizable(ls: Seq<Seq<u8>>) -> Result<GridModel, FileParsingErrorKind> {
    if spec_check_resizable(ls) is Err {
        Err(spec_check_resizable(ls)->Err_0)
    } else {
        let i = desc_end(ls, 0);
        let rules = spec_rule_lists(ls[i]);
        let cs = spec_coord_list(ls, i + 1);
        let w = max_snd_upto(cs, cs.len() as int) + 1;
        let h = max_fst_upto(cs, cs.len() as int) + 1;
        if w > usize::MAX || h > usize::MAX || w * h > usize::MAX {
            Err(FileParsingErrorKind::CoordParsingError)
        } else {
            Ok(
                GridModel {
                    format: "#Resizable Life"@,
                    toroidal: false,
                    survival: rules.0,
                    birth: rules.1,
                    width: w as nat,
                    height: h as nat,
                    cells: cells_of_coords(w, h, cs),
                },
            )
        }
    }
}

/// Loading a whole life file from its raw bytes.
pub open spec fn spec_load_life(text: Seq<u8>) -> Result<GridModel, FileParsingErrorKind> {
    let ls = spec_clean_lines(text);
    if ls.len() == 0 {
        Err(FileParsingErrorKind::IncompleteFile)
    } else if ls[0] == resizable_header() {
        spec_load_resizable(ls.skip(1))
    } else if ls[0] == toroidal_header() {
        spec_load_toroidal(ls.skip(1))
    } else {
        Err(FileParsingErrorKind::UnknownFormat)
    }
}

proof fn lemma_coord_list(ls: Seq<Seq<u8>>, j: int)
    requires
        0 <= j <= ls.len(),
    ensures
        spec_coord_list(ls, j).len() == ls.len() - j,
        forall|k: int|
            0 <= k < ls.len() - j ==> #[trigger] spec_coord_list(ls, j)[k] == spec_line_coord(
                ls[j + k],
            ),
    decreases ls.len() - j,
{
    if j < ls.len() {
        lemma_coord_list(ls, j + 1);
        assert(forall|k: int|
            1 <= k < ls.len() - j ==> #[trigger] spec_coord_list(ls, j)[k] == spec_coord_list(
                ls,
                j + 1,
            )[k - 1]);
    }
}

proof fn lemma_check_coords_iff(ls: Seq<Seq<u8>>, j: int)
    requires
        0 <= j <= ls.len(),
    ensures
        (spec_check_coords(ls, j) is Ok) == (forall|t: int|
            j <= t < ls.len() ==> spec_coord_line_ok(#[trigger] ls[t])),
        spec_check_coords(ls, j) is Err ==> spec_check_coords(ls, j) == Err::<
            (),
            FileParsingErrorKind,
        >(FileParsingErrorKind::CoordParsingError),
    decreases ls.len() - j,
{
    if j < ls.len() {
        lemma_check_coords_iff(ls, j + 1);
    }
}

/// Parses a rule line into its survival and birth lists. Fails exactly when
/// the line is neither `#N` nor a well-formed `#R` line.
fn parse_rules(l: &Vec<u8>) -> (r: Option<(Vec<u32>, Vec<u32>)>)
    ensures
        (r is Some) == (l@ == default_rule_line() || spec_rule_line_ok(l@)),
        r matches Some(p) ==> p.0@ == spec_rule_lists(l@).0 && p.1@ == spec_rule_lists(l@).1,
        r matches Some(p) ==> (forall|i: int| 0 <= i < p.0@.len() ==> #[trigger] p.0@[i] <= 8)
            && (forall|i: int| 0 <= i < p.1@.len() ==> #[trigger] p.1@[i] <= 8),
{
    if line_is_default_rule(l) {
        let mut sv: Vec<u32> = Vec::new();
        sv.push(2);
        sv.push(3);
        let mut bt: Vec<u32> = Vec::new();
        bt.push(3);
        proof {
            assert(sv@ =~= seq![2u32, 3u32]);
            assert(bt@ =~= seq![3u32]);
        }
        return Some((sv, bt));
    }
    if !rule_line_ok(l) {
        return None;
    }
    let tk = split_tokens(l);
    proof {
        assert(tk.deep_view().len() == tk@.len());
    }
    let t1 = token_at(&tk, 1);
    let mut k: usize = 0;
    while k < t1.len() && t1[k] != 47
        invariant
            k <= t1@.len(),
            forall|i: int| 0 <= i < k ==> t1@[i] != 47,
        decreases t1@.len() - k,
    {
        k = k + 1;
    }
    proof {
        lemma_first_slash_is(t1@, k as int);
        assert(k < t1@.len());
    }
    let sdig = copy_range(&t1, 0, k);
    let bdig = copy_range(&t1, k + 1, t1.len());
    proof {
        assert(sdig@ =~= spec_survival_digits(t1@));
        assert(bdig@ =~= spec_birth_digits(t1@));
    }
    let sv = rules_of_digits(&sdig);
    let bt = rules_of_digits(&bdig);
    Some((sv, bt))
}

/// Parses the coordinate lines from `from` on. Fails exactly when one of
/// them is malformed.
fn parse_coords(lines: &Vec<Vec<u8>>, from: usize) -> (r: Option<Vec<(usize, usize)>>)
    requires
        from <= lines@.len(),
    ensures
        (r is Some) == (spec_check_coords(lines.deep_view(), from as int) is Ok),
        r matches Some(cv) ==> {
            let cs = spec_coord_list(lines.deep_view(), from as int);
            &&& cv@.len() == cs.len()
            &&& forall|k: int|
                0 <= k < cv@.len() ==> (#[trigger] cv@[k]).0 == cs[k].0 && cv@[k].1 == cs[k].1
        },
{
    let ghost ls = lines.deep_view();
    proof {
        assert(ls.len() == lines@.len());
        lemma_coord_list(ls, from as int);
        lemma_check_coords_iff(ls, from as int);
    }
    let mut cv: Vec<(usize, usize)> = Vec::new();
    let mut j: usize = from;
    while j < lines.len()
        invariant
            from <= j <= lines@.len(),
            ls == lines.deep_view(),
            ls.len() == lines@.len(),
            forall|t: int| from <= t < j ==> spec_coord_line_ok(#[trigger] ls[t]),
            cv@.len() == j - from,
            forall|k: int|
                0 <= k < cv@.len() ==> (#[trigger] cv@[k]).0 == spec_line_coord(
                    ls[from + k],
                ).0 && cv@[k].1 == spec_line_coord(ls[from + k]).1,
        decreases lines@.len() - j,
    {
        proof {
            assert(ls[j as int] =~= lines@[j as int]@);
        }
        let tk = split_tokens(&lines[j]);
        proof {
            assert(tk.deep_view().len() == tk@.len());
        }
        if tk.len() != 2 {
            proof {
                lemma_check_coords_iff(ls, from as int);
            }
            return None;
        }
        let t0 = token_at(&tk, 0);
        let t1 = token_at(&tk, 1);
        let row = match parse_usize(&t0) {
            Some(n) => n,
            None => {
                proof {
                    lemma_check_coords_iff(ls, from as int);
                }
                return None;
            },
        };
        let col = match parse_usize(&t1) {
            Some(n) => n,
            None => {
                proof {
                    lemma_check_coords_iff(ls, from as int);
                }
                return None;
            },
        };
        cv.push((row, col));
        j = j + 1;
    }
    proof {
        lemma_check_coords_iff(ls, from as int);
        lemma_coord_list(ls, from as int);
    }
    Some(cv)
}

/// The coordinate pairs of `cv`, as unbounded integers.
pub open spec fn pairs_int(cv: Seq<(usize, usize)>) -> Seq<(int, int)> {
    Seq::new(cv.len(), |k: int| (cv[k].0 as int, cv[k].1 as int))
}

/// Marks every listed `(row, col)` alive in a freshly dead grid. Fails with
/// the wrapped out-of-bound error exactly when some pair does not fit the
/// grid; there is no wraparound on write.
fn fill_cells(g: &mut Grid, cv: &Vec<(usize, usize)>) -> (r: Result<(), FileParsingErrorKind>)
    requires
        old(g)@.wf(),
        old(g)@.cells == Seq::new(old(g)@.area(), |i: int| 0u8),
    ensures
        final(g)@.wf(),
        final(g)@ == (GridModel { cells: final(g)@.cells, ..old(g)@ }),
        (r is Ok) == (forall|t: int|
            0 <= t < cv@.len() ==> (#[trigger] cv@[t]).0 < old(g)@.height && cv@[t].1 < old(
            g,
            )@.width),
        r is Ok ==> final(g)@.cells == cells_of_coords(
            old(g)@.width as int,
            old(g)@.height as int,
            pairs_int(cv@),
        ),
        r is Err ==> r == Err::<(), FileParsingErrorKind>(
            FileParsingErrorKind::OutOfBoundCoords(GridErrorKind::OutOfBoundCoords),
        ),
{
    let ghost w = old(g)@.width as int;
    let ghost h = old(g)@.height as int;
    let ghost cs = pairs_int(cv@);
    proof {
        assert(g@.cells =~= cells_of_coords(w, h, cs.take(0)));
    }
    let mut k: usize = 0;
    while k < cv.len()
        invariant
            k <= cv@.len(),
            w == old(g)@.width as int,
            h == old(g)@.height as int,
            cs == pairs_int(cv@),
            g@.wf(),
            g@ == (GridModel { cells: g@.cells, ..old(g)@ }),
            forall|t: int| 0 <= t < k ==> (#[trigger] cv@[t]).0 < h && cv@[t].1 < w,
            g@.cells == cells_of_coords(w, h, cs.take(k as int)),
        decreases cv@.len() - k,
    {
        let (row, col) = cv[k];
        let res = g.set_cell_state(col, row, crate::ALIVE);
        match res {
            Ok(()) => {
                proof {
                    lemma_row_major_index(col as int, row as int, w, h);
                    let idx = row as int * w + col as int;
                    assert(row as int * w == w * (row as int)) by (nonlinear_arith);
                    assert(g@.cells.len() == w * h);
                    assert(cells_of_coords(w, h, cs.take(k as int + 1)).len() == w * h);
                    assert forall|i: int| 0 <= i < w * h implies g@.cells[i] == cells_of_coords(
                        w,
                        h,
                        cs.take(k as int + 1),
                    )[i] by {
                        lemma_fundamental_div_mod(i, w);
                        assert(cs.take(k as int + 1)[k as int] == (row as int, col as int));
                        assert(g@.cells[i] == (if i == idx {
                            ALIVE
                        } else {
                            cells_of_coords(w, h, cs.take(k as int))[i]
                        }));
                        if i == idx {
                            assert(i / w == row as int && i % w == col as int);
                            assert(coord_present(cs.take(k as int + 1), i / w, i % w));
                        } else {
                            assert(!(i / w == row as int && i % w == col as int));
                            assert(coord_present(cs.take(k as int + 1), i / w, i % w)
                                == coord_present(cs.take(k as int), i / w, i % w)) by {
                                if coord_present(cs.take(k as int + 1), i / w, i % w) {
                                    let t = choose|t: int|
                                        0 <= t < cs.take(k as int + 1).len() && #[trigger] cs.take(
                                            k as int + 1,
                                        )[t] == (i / w, i % w);
                                    assert(t < k ==> cs.take(k as int)[t] == (i / w, i % w));
                                    assert(coord_present(cs.take(k as int), i / w, i % w));
                                }
                                if coord_present(cs.take(k as int), i / w, i % w) {
                                    let t = choose|t: int|
                                        0 <= t < cs.take(k as int).len() && #[trigger] cs.take(
                                            k as int,
                                        )[t] == (i / w, i % w);
                                    assert(cs.take(k as int + 1)[t] == (i / w, i % w));
                                    assert(coord_present(cs.take(k as int + 1), i / w, i % w));
                                }
                            }
                        }
                    }
                    assert(g@.cells =~= cells_of_coords(w, h, cs.take(k as int + 1)));
                }
            },
            Err(_) => {
                return Err(
                    FileParsingErrorKind::OutOfBoundCoords(GridErrorKind::OutOfBoundCoords),
                );
            },
        }
        k = k + 1;
    }
    proof {
        assert(cs.take(cv@.len() as int) =~= cs);
    }
    Ok(())
}

/// Builds the grid a toroidal file's body describes: sized by its `#S`
/// line, its listed cells alive, everything else dead. Fails exactly as
/// [`spec_load_toroidal`] says: on a malformed body, on a size too large
/// for this machine, and on a coordinate outside the declared size.
pub fn load_toroidal_life(lines: &Vec<Vec<u8>>) -> (r: Result<Grid, FileParsingErrorKind>)
    ensures
        r matches Ok(g) ==> spec_load_toroidal(lines.deep_view()) == Ok::<
            GridModel,
            FileParsingErrorKind,
        >(g@),
        r matches Err(e) ==> spec_load_toroidal(lines.deep_view()) == Err::<
            GridModel,
            FileParsingErrorKind,
        >(e),
{
    let ghost ls = lines.deep_view();
    proof {
        assert(ls.len() == lines@.len());
    }
    let i = skip_desc(lines);
    if i >= lines.len() {
        return Err(FileParsingErrorKind::IncompleteFile);
    }
    proof {
        assert(ls[i as int] =~= lines@[i as int]@);
    }
    let rules = match parse_rules(&lines[i]) {
        Some(p) => p,
        None => {
            return Err(FileParsingErrorKind::RuleParsingError);
        },
    };
    if i + 1 >= lines.len() {
        return Err(FileParsingErrorKind::IncompleteFile);
    }
    proof {
        assert(ls[i as int + 1] =~= lines@[i as int + 1]@);
    }
    let tk = split_tokens(&lines[i + 1]);
    proof {
        assert(tk.deep_view().len() == tk@.len());
    }
    if tk.len() != 3 {
        return Err(FileParsingErrorKind::CoordParsingError);
    }
    let t0 = token_at(&tk, 0);
    if !(t0.len() == 2 && t0[0] == 35 && t0[1] == 83) {
        proof {
            assert(!(spec_tokens(ls[i as int + 1])[0] == seq![35u8, 83u8]));
        }
        return Err(FileParsingErrorKind::CoordParsingError);
    }
    proof {
        assert(t0@ =~= seq![35u8, 83u8]);
    }
    let t1 = token_at(&tk, 1);
    let w = match parse_usize(&t1) {
        Some(n) => n,
        None => {
            return Err(FileParsingErrorKind::CoordParsingError);
        },
    };
    let t2 = token_at(&tk, 2);
    let h = match parse_usize(&t2) {
        Some(n) => n,
        None => {
            return Err(FileParsingErrorKind::CoordParsingError);
        },
    };
    if i + 2 >= lines.len() {
        return Err(FileParsingErrorKind::IncompleteFile);
    }
    let cv = match parse_coords(lines, i + 2) {
        Some(c) => c,
        None => {
            proof {
                lemma_check_coords_iff(ls, i as int + 2);
            }
            return Err(FileParsingErrorKind::CoordParsingError);
        },
    };
    proof {
        assert(spec_check_toroidal(ls) is Ok);
    }
    proof {
        assert((w as u128) * (h as u128) <= (u64::MAX as u128) * (u64::MAX as u128))
            by (nonlinear_arith)
            requires
                0 <= w as u128 <= u64::MAX as u128,
                0 <= h as u128 <= u64::MAX as u128,
        ;
    }
    if (w as u128) * (h as u128) > (usize::MAX as u128) {
        return Err(FileParsingErrorKind::CoordParsingError);
    }
    let fs: String = "#Toroidal Life".to_owned();
    let mut g = Grid::new(&fs, true, &rules.0, &rules.1, w, h);
    proof {
        lemma_coord_list(ls, i as int + 2);
        assert(pairs_int(cv@) =~= spec_coord_list(ls, i as int + 2));
    }
    match fill_cells(&mut g, &cv) {
        Ok(()) => {
            proof {
                let m = spec_load_toroidal(ls)->Ok_0;
                assert(g@ =~= m);
            }
            Ok(g)
        },
        Err(e) => Err(e),
    }
}

/// Builds the grid a resizable file's body describes: sized one cell past
/// the largest listed row and column, its listed cells alive. Fails exactly
/// as [`spec_load_resizable`] says: on a malformed body and on a pattern
/// too large for this machine.
pub fn load_resizable_life(lines: &Vec<Vec<u8>>) -> (r: Result<Grid, FileParsingErrorKind>)
    ensures
        r matches Ok(g) ==> spec_load_resizable(lines.deep_view()) == Ok::<
            GridModel,
            FileParsingErrorKind,
        >(g@),
        r matches Err(e) ==> spec_load_resizable(lines.deep_view()) == Err::<
            GridModel,
            FileParsingErrorKind,
        >(e),
{
    let ghost ls = lines.deep_view();
    proof {
        assert(ls.len() == lines@.len());
    }
    let i = skip_desc(lines);
    if i >= lines.len() {
        return Err(FileParsingErrorKind::IncompleteFile);
    }
    proof {
        assert(ls[i as int] =~= lines@[i as int]@);
    }
    let rules = match parse_rules(&lines[i]) {
        Some(p) => p,
        None => {
            return Err(FileParsingErrorKind::RuleParsingError);
        },
    };
    if i + 1 >= lines.len() {
        return Err(FileParsingErrorKind::IncompleteFile);
    }
    let cv = match parse_coords(lines, i + 1) {
        Some(c) => c,
        None => {
            proof {
                lemma_check_coords_iff(ls, i as int + 1);
            }
            return Err(FileParsingErrorKind::CoordParsingError);
        },
    };
    proof {
        assert(spec_check_resizable(ls) is Ok);
        lemma_coord_list(ls, i as int + 1);
        assert(pairs_int(cv@) =~= spec_coord_list(ls, i as int + 1));
    }
    let ghost cs = spec_coord_list(ls, i as int + 1);
    let mut mr: usize = 0;
    let mut mc: usize = 0;
    let mut k: usize = 0;
    while k < cv.len()
        invariant
            k <= cv@.len(),
            cs == pairs_int(cv@),
            mr as int == max_fst_upto(cs, k as int),
            mc as int == max_snd_upto(cs, k as int),
            forall|t: int| 0 <= t < k ==> (#[trigger] cv@[t]).0 <= mr && cv@[t].1 <= mc,
        decreases cv@.len() - k,
    {
        let (row, col) = cv[k];
        proof {
            assert(cs[k as int] == (row as int, col as int));
        }
        if row > mr {
            mr = row;
        }
        if col > mc {
            mc = col;
        }
        k = k + 1;
    }
    proof {
        assert(cs.len() == cv@.len());
    }
    if mr == usize::MAX || mc == usize::MAX {
        return Err(FileParsingErrorKind::CoordParsingError);
    }
    let w: usize = mc + 1;
    let h: usize = mr + 1;
    proof {
        assert((w as u128) * (h as u128) <= (u64::MAX as u128) * (u64::MAX as u128))
            by (nonlinear_arith)
            requires
                0 <= w as u128 <= u64::MAX as u128,
                0 <= h as u128 <= u64::MAX as u128,
        ;
    }
    if (w as u128) * (h as u128) > (usize::MAX as u128) {
        return Err(FileParsingErrorKind::CoordParsingError);
    }
    let fs: String = "#Resizable Life".to_owned();
    let mut g = Grid::new(&fs, false, &rules.0, &rules.1, w, h);
    match fill_cells(&mut g, &cv) {
        Ok(()) => {
            proof {
                let m = spec_load_resizable(ls)->Ok_0;
                assert(g@ =~= m);
            }
            Ok(g)
        },
        Err(_) => {
            proof {
                assert(false);
            }
            Err(FileParsingErrorKind::CoordParsingError)
        },
    }
}

impl Grid {
    /// Builds the `Grid` encoded in `text`, which holds the bytes of a life
    /// file of either dialect.
    ///
    /// # Errors
    ///
    /// If the text is not a well-formed life file, or its grid does not fit
    /// this machine, the exact error of [`spec_load_life`] is returned.
    pub fn load_life(text: &Vec<u8>) -> (r: Result<Grid, FileParsingErrorKind>)
        ensures
            r matches Ok(g) ==> spec_load_life(text@) == Ok::<GridModel, FileParsingErrorKind>(
                g@,
            ),
            r matches Err(e) ==> spec_load_life(text@) == Err::<GridModel, FileParsingErrorKind>(
                e,
            ),
    {
        let lines = clean_lines(text);
        proof {
            assert(lines.deep_view().len() == lines@.len());
        }
        if lines.len() == 0 {
            return Err(FileParsingErrorKind::IncompleteFile);
        }
        proof {
            assert(lines.deep_view()[0] =~= lines@[0]@);
        }
        if line_is_header(&lines[0], false) {
            let rest = tail_lines(&lines);
            load_resizable_life(&rest)
        } else if line_is_header(&lines[0], true) {
            let rest = tail_lines(&lines);
            load_toroidal_life(&rest)
        } else {
            Err(FileParsingErrorKind::UnknownFormat)
        }
    }
}

/// Checks whether the given lines form a well-formed life file of either
/// dialect, and says how they fail when they do not.
pub fn valid_life_file(lines: &Vec<Vec<u8>>) -> (r: Result<(), FileParsingErrorKind>)
    ensures
        r == spec_check_life_file(lines.deep_view()),
{
    proof {
        assert(lines.deep_view().len() == lines@.len());
    }
    if lines.len() == 0 {
        return Err(FileParsingErrorKind::IncompleteFile);
    }
    proof {
        assert(lines.deep_view()[0] =~= lines@[0]@);
    }
    if line_is_header(&lines[0], false) {
        let rest = tail_lines(lines);
        valid_resizable_life(&rest)
    } else if line_is_header(&lines[0], true) {
        let rest = tail_lines(lines);
        valid_toroidal_life(&rest)
    } else {
        Err(FileParsingErrorKind::UnknownFormat)
    }
}

/// The size `(width, height)` of the box that holds the given `(x, y)`
/// pattern coordinates together with the origin: one past the largest
/// listed column and row.
pub fn guess_pattern_size(coords: &Vec<(usize, usize)>) -> (r: (usize, usize))
    requires
        forall|i: int|
            0 <= i < coords@.len() ==> (#[trigger] coords@[i]).0 < usize::MAX && coords@[i].1
                < usize::MAX,
    ensures
        r.0 as int == max_fst_upto(pairs_int(coords@), coords@.len() as int) + 1,
        r.1 as int == max_snd_upto(pairs_int(coords@), coords@.len() as int) + 1,
{
    let ghost cs = pairs_int(coords@);
    let mut lim_x: usize = 0;
    let mut lim_y: usize = 0;
    let mut k: usize = 0;
    while k < coords.len()
        invariant
            k <= coords@.len(),
            cs == pairs_int(coords@),
            forall|i: int|
                0 <= i < coords@.len() ==> (#[trigger] coords@[i]).0 < usize::MAX && coords@[i].1
                    < usize::MAX,
            lim_x < usize::MAX,
            lim_y < usize::MAX,
            lim_x as int == max_fst_upto(cs, k as int),
            lim_y as int == max_snd_upto(cs, k as int),
        decreases coords@.len() - k,
    {
        let (x, y) = coords[k];
        proof {
            assert(cs[k as int] == (x as int, y as int));
        }
        if x > lim_x {
            lim_x = x;
        }
        if y > lim_y {
            lim_y = y;
        }
        k = k + 1;
    }
    (lim_x + 1, lim_y + 1)
}

// ---------------------------------------------------------------------------
// Saving: from a grid to text
// ---------------------------------------------------------------------------
/// The canonical decimal numeral of `n`: no sign, no leading zeros.
pub open spec fn dec_str(n: int) -> Seq<u8>
    decreases n,
{
    if n < 0 {
        Seq::empty()
    } else if n < 10 {
        seq![(48 + n) as u8]
    } else {
        dec_str(n / 10) + seq![(48 + n % 10) as u8]
    }
}

/// One digit byte for each rule entry (meaningful when every entry is at
/// most 8).
pub open spec fn rule_digits(r: Seq<u32>) -> Seq<u8> {
    Seq::new(r.len(), |i: int| (48 + r[i]) as u8)
}

/// The coordinate lines a grid serializes to: one `<row> <col>` line per
/// living cell, in row-major order, from cell `i` on.
pub open spec fn coords_text(m: GridModel, i: int) -> Seq<u8>
    decreases m.area() - i,
{
    if i < 0 || i >= m.area() {
        Seq::empty()
    } else {
        (if m.cells[i] == ALIVE {
            dec_str(i / m.width as int) + seq![32u8] + dec_str(i % m.width as int) + seq![10u8]
        } else {
            Seq::empty()
        }) + coords_text(m, i + 1)
    }
}

/// The full text a grid serializes to: the dialect header, the rule line,
/// for the toroidal dialect the size line, and the coordinate lines — a
/// resizable grid is recentered onto its pattern first (border 0).
pub open spec fn spec_save_text(m: GridModel) -> Seq<u8> {
    let m2 = if m.toroidal {
        m
    } else {
        m.recentered(0)
    };
    (if m.toroidal {
        toroidal_header()
    } else {
        resizable_header()
    }) + seq![10u8] + seq![35u8, 82u8, 32u8] + rule_digits(m.survival) + seq![47u8] + rule_digits(
        m.birth,
    ) + seq![10u8] + (if m.toroidal {
        seq![35u8, 83u8, 32u8] + dec_str(m.width as int) + seq![32u8] + dec_str(m.height as int)
            + seq![10u8]
    } else {
        Seq::empty()
    }) + coords_text(m2, 0)
}

/// Law (one piece of the save/load round trip): the decimal numeral the
/// serializer writes for a size or coordinate field parses back to exactly
/// the written value.
pub proof fn lemma_dec_round_trip(n: int)
    requires
        0 <= n,
    ensures
        all_digits(dec_str(n)),
        dec_str(n).len() > 0,
        dec_val(dec_str(n)) == n,
    decreases n,
{
    if n < 10 {
        assert(dec_str(n) =~= seq![(48 + n) as u8]);
        assert(dec_str(n).drop_last() =~= Seq::<u8>::empty());
        assert(dec_val(Seq::<u8>::empty()) == 0);
    } else {
        vstd::arithmetic::div_mod::lemma_div_decreases(n, 10);
        vstd::arithmetic::div_mod::lemma_div_pos_is_pos(n, 10);
        lemma_dec_round_trip(n / 10);
        vstd::arithmetic::div_mod::lemma_mod_bound(n, 10);
        let s = dec_str(n / 10);
        let d = (48 + n % 10) as u8;
        assert(dec_str(n) == s + seq![d]);
        assert((s + seq![d]).drop_last() =~= s);
        assert((s + seq![d]).last() == d);
        assert(all_digits(s + seq![d])) by {
            assert(forall|i: int| 0 <= i < s.len() ==> (s + seq![d])[i] == s[i]);
        }
        lemma_fundamental_div_mod(n, 10);
    }
}

proof fn lemma_rules_from_suffix(r: Seq<u32>, d: int, k: int)
    requires
        forall|i: int| 0 <= i < r.len() ==> #[trigger] r[i] <= 8,
        forall|i: int, j: int| 0 <= i < j < r.len() ==> r[i] < r[j],
        0 <= d <= 9,
        0 <= k <= r.len(),
        forall|i: int| 0 <= i < k ==> #[trigger] r[i] < d,
        k < r.len() ==> r[k] >= d,
    ensures
        rules_from(rule_digits(r), d) == r.skip(k),
    decreases 9 - d,
{
    let s = rule_digits(r);
    if d >= 9 {
        assert(k == r.len()) by {
            if k < r.len() {
                assert(r[k as int] <= 8);
            }
        }
        assert(r.skip(k) =~= Seq::<u32>::empty());
    } else {
        assert(digit_present(s, d) == (k < r.len() && r[k] == d)) by {
            if digit_present(s, d) {
                let i = choose|i: int| 0 <= i < s.len() && s[i] == 48 + d;
                assert(s[i] == (48 + r[i]) as u8);
                assert(r[i] == d);
                if i < k {
                    assert(r[i] < d);
                } else if i > k {
                    assert(r[k as int] < r[i]);
                    assert(r[k as int] >= d);
                }
            }
            if k < r.len() && r[k as int] == d {
                assert(s[k as int] == (48 + r[k as int]) as u8);
                assert(s[k as int] == 48 + d);
            }
        }
        if k < r.len() && r[k as int] == d {
            assert(forall|i: int| 0 <= i < k + 1 ==> #[trigger] r[i] < d + 1);
            assert(k + 1 < r.len() ==> r[k + 1] >= d + 1) by {
                if k + 1 < r.len() {
                    assert(r[k as int] < r[k + 1]);
                }
            }
            lemma_rules_from_suffix(r, d + 1, k + 1);
            assert(seq![d as u32] + r.skip(k + 1) =~= r.skip(k));
        } else {
            assert(k < r.len() ==> r[k as int] >= d + 1);
            lemma_rules_from_suffix(r, d + 1, k);
        }
    }
}

/// Law (one piece of the save/load round trip): the digit string the
/// serializer writes for a sorted, duplicate-free rule list parses back to
/// exactly that list — as the loader's rule lists always are.
pub proof fn lemma_rules_round_trip(r: Seq<u32>)
    requires
        forall|i: int| 0 <= i < r.len() ==> #[trigger] r[i] <= 8,
        forall|i: int, j: int| 0 <= i < j < r.len() ==> r[i] < r[j],
    ensures
        rules_from(rule_digits(r), 0) == r,
{
    lemma_rules_from_suffix(r, 0, 0);
    assert(r.skip(0) =~= r);
}

proof fn lemma_trim_id(s: Seq<u8>)
    requires
        s.len() > 0,
        !is_space(s[0]),
        !is_space(s.last()),
    ensures
        spec_trim(s) == s,
{
    lemma_trim_front_skip(s, 0);
    assert(s.skip(0) =~= s);
    lemma_trim_back_take(s, s.len() as int);
    assert(s.take(s.len() as int) =~= s);
}

proof fn lemma_rule_line_round_trip(sv: Seq<u32>, bt: Seq<u32>)
    requires
        forall|i: int| 0 <= i < sv.len() ==> #[trigger] sv[i] <= 8,
        forall|i: int| 0 <= i < bt.len() ==> #[trigger] bt[i] <= 8,
    ensures
        ({
            let x = rule_digits(sv) + seq![47u8] + rule_digits(bt);
            let line = seq![35u8, 82u8, 32u8] + rule_digits(sv) + seq![47u8] + rule_digits(bt);
            &&& spec_tokens(line) == seq![seq![35u8, 82u8], x]
            &&& line != default_rule_line()
            &&& !is_desc_line(line)
            &&& spec_rule_line_ok(line)
            &&& spec_survival_digits(x) == rule_digits(sv)
            &&& spec_birth_digits(x) == rule_digits(bt)
            &&& spec_trim(line) == line
            &&& line.len() > 0
            &&& forall|j: int| 0 <= j < line.len() ==> #[trigger] line[j] != 10
        }),
{
    let sd = rule_digits(sv);
    let bd = rule_digits(bt);
    let x = sd + seq![47u8] + bd;
    let line = seq![35u8, 82u8, 32u8] + sd + seq![47u8] + bd;
    assert(forall|j: int| 0 <= j < sd.len() ==> 48 <= #[trigger] sd[j] <= 56);
    assert(forall|j: int| 0 <= j < bd.len() ==> 48 <= #[trigger] bd[j] <= 56);
    assert(forall|j: int| 0 <= j < x.len() ==> (47 <= #[trigger] x[j] <= 56));
    assert(forall|j: int| 0 <= j < x.len() ==> !is_space(#[trigger] x[j]));
    assert(line =~= seq![35u8, 82u8] + seq![32u8] + x);
    lemma_tokens_of_token(seq![35u8, 82u8], x);
    lemma_tokens_of_last_token(x);
    assert(seq![seq![35u8, 82u8]] + seq![x] =~= seq![seq![35u8, 82u8], x]);
    lemma_first_slash_is(x, sd.len() as int);
    assert(x.take(sd.len() as int) =~= sd);
    assert(x.skip(sd.len() as int + 1) =~= bd);
    assert(spec_rule_line_ok(line)) by {
        assert(all_rule_digits(sd));
        assert(all_rule_digits(bd));
    }
    assert(line[0] == 35 && line[1] == 82 && line.last() != 10 && !is_space(line[0]));
    assert(!is_space(line.last()));
    lemma_trim_id(line);
    assert(line.len() != 2);
}

proof fn lemma_size_line_round_trip(w: int, h: int)
    requires
        0 <= w <= usize::MAX,
        0 <= h <= usize::MAX,
    ensures
        ({
            let line = seq![35u8, 83u8, 32u8] + dec_str(w) + seq![32u8] + dec_str(h);
            &&& spec_tokens(line) == seq![seq![35u8, 83u8], dec_str(w), dec_str(h)]
            &&& line != default_rule_line()
            &&& !is_desc_line(line)
            &&& spec_size_line_ok(line)
            &&& usize_token_val(dec_str(w)) == w
            &&& usize_token_val(dec_str(h)) == h
            &&& spec_trim(line) == line
            &&& line.len() > 0
            &&& forall|j: int| 0 <= j < line.len() ==> #[trigger] line[j] != 10
        }),
{
    {
        let line = seq![35u8, 83u8, 32u8] + dec_str(w) + seq![32u8] + dec_str(h);
        lemma_dec_round_trip(w);
        lemma_dec_round_trip(h);
        assert(forall|j: int|
            0 <= j < dec_str(w).len() ==> !is_space(#[trigger] dec_str(w)[j]));
        assert(forall|j: int|
            0 <= j < dec_str(h).len() ==> !is_space(#[trigger] dec_str(h)[j]));
        assert(line =~= seq![35u8, 83u8] + seq![32u8] + (dec_str(w) + seq![32u8] + dec_str(h)));
        lemma_tokens_of_token(seq![35u8, 83u8], dec_str(w) + seq![32u8] + dec_str(h));
        assert(dec_str(w) + seq![32u8] + dec_str(h) =~= dec_str(w) + seq![32u8] + dec_str(h));
        lemma_tokens_of_token(dec_str(w), dec_str(h));
        lemma_tokens_of_last_token(dec_str(h));
        assert(seq![seq![35u8, 83u8]] + (seq![dec_str(w)] + seq![dec_str(h)]) =~= seq![
            seq![35u8, 83u8],
            dec_str(w),
            dec_str(h),
        ]);
        assert(strip_plus(dec_str(w)) =~= dec_str(w));
        assert(strip_plus(dec_str(h)) =~= dec_str(h));
        assert(!is_space(line[0]) && !is_space(line.last()));
        lemma_trim_id(line);
        assert(line.len() != 2);
    }
}

proof fn lemma_coord_line_round_trip(r: int, c: int)
    requires
        0 <= r <= usize::MAX,
        0 <= c <= usize::MAX,
    ensures
        ({
            let line = dec_str(r) + seq![32u8] + dec_str(c);
            &&& spec_coord_line_ok(line)
            &&& spec_line_coord(line) == (r, c)
            &&& spec_trim(line) == line
            &&& line.len() > 0
            &&& forall|j: int| 0 <= j < line.len() ==> #[trigger] line[j] != 10
        }),
{
    let line = dec_str(r) + seq![32u8] + dec_str(c);
    lemma_dec_round_trip(r);
    lemma_dec_round_trip(c);
    assert(forall|j: int| 0 <= j < dec_str(r).len() ==> !is_space(#[trigger] dec_str(r)[j]));
    assert(forall|j: int| 0 <= j < dec_str(c).len() ==> !is_space(#[trigger] dec_str(c)[j]));
    lemma_tokens_of_token(dec_str(r), dec_str(c));
    lemma_tokens_of_last_token(dec_str(c));
    assert(seq![dec_str(r)] + seq![dec_str(c)] =~= seq![dec_str(r), dec_str(c)]);
    assert(strip_plus(dec_str(r)) =~= dec_str(r));
    assert(strip_plus(dec_str(c)) =~= dec_str(c));
    assert(!is_space(line[0]) && !is_space(line.last()));
    lemma_trim_id(line);
}

/// The coordinate lines the serializer writes for the cells from `i` on:
/// one line per living cell.
pub open spec fn live_lines(m: GridModel, i: int) -> Seq<Seq<u8>>
    decreases m.area() - i,
{
    if i < 0 || i >= m.area() {
        Seq::empty()
    } else {
        (if m.cells[i] == ALIVE {
            seq![dec_str(i / m.width as int) + seq![32u8] + dec_str(i % m.width as int)]
        } else {
            Seq::empty()
        }) + live_lines(m, i + 1)
    }
}

/// The `(row, col)` pairs of the living cells from `i` on, in row-major
/// order.
pub open spec fn live_coords(m: GridModel, i: int) -> Seq<(int, int)>
    decreases m.area() - i,
{
    if i < 0 || i >= m.area() {
        Seq::empty()
    } else {
        (if m.cells[i] == ALIVE {
            seq![(i / m.width as int, i % m.width as int)]
        } else {
            Seq::empty()
        }) + live_coords(m, i + 1)
    }
}

proof fn lemma_coords_text_lines(m: GridModel, i: int)
    requires
        m.wf(),
        m.width >= 1,
        m.area() <= usize::MAX,
        0 <= i,
    ensures
        spec_clean_lines(coords_text(m, i)) == live_lines(m, i),
    decreases m.area() - i,
{
    if i >= m.area() {
        assert(coords_text(m, i) =~= Seq::<u8>::empty());
        assert(spec_clean_lines(Seq::<u8>::empty()) =~= Seq::<Seq<u8>>::empty());
    } else {
        lemma_coords_text_lines(m, i + 1);
        if m.cells[i] == ALIVE {
            let a = dec_str(i / m.width as int) + seq![32u8] + dec_str(i % m.width as int);
            vstd::arithmetic::div_mod::lemma_mod_bound(i, m.width as int);
            vstd::arithmetic::div_mod::lemma_div_pos_is_pos(i, m.width as int);
            lemma_fundamental_div_mod(i, m.width as int);
            assert(m.height <= m.area()) by (nonlinear_arith)
                requires
                    m.width >= 1,
                    m.area() == m.width * m.height,
            ;
            assert(i / (m.width as int) < m.height) by (nonlinear_arith)
                requires
                    0 <= i < m.width * m.height,
                    m.width >= 1,
                    i / (m.width as int) >= 0,
                    i == (m.width as int) * (i / (m.width as int)) + (i % (m.width as int)),
                    0 <= i % (m.width as int) < m.width,
            ;
            lemma_coord_line_round_trip(i / m.width as int, i % m.width as int);
            assert(coords_text(m, i) =~= a + seq![10u8] + coords_text(m, i + 1));
            lemma_clean_lines_of_line(a, coords_text(m, i + 1));
            assert(seq![a] + live_lines(m, i + 1) =~= live_lines(m, i));
        } else {
            assert(coords_text(m, i) =~= coords_text(m, i + 1));
            assert(live_lines(m, i) =~= live_lines(m, i + 1));
        }
    }
}

proof fn lemma_live_pointwise(m: GridModel, i: int)
    requires
        m.wf(),
        m.width >= 1,
        m.area() <= usize::MAX,
        0 <= i,
    ensures
        live_lines(m, i).len() == live_coords(m, i).len(),
        forall|k: int|
            0 <= k < live_lines(m, i).len() ==> spec_coord_line_ok(
                #[trigger] live_lines(m, i)[k],
            ) && spec_line_coord(live_lines(m, i)[k]) == live_coords(m, i)[k],
        forall|k: int|
            0 <= k < live_coords(m, i).len() ==> 0 <= (#[trigger] live_coords(m, i)[k]).0
                < m.height && 0 <= live_coords(m, i)[k].1 < m.width,
    decreases m.area() - i,
{
    if i < m.area() {
        lemma_live_pointwise(m, i + 1);
        if m.cells[i] == ALIVE {
            let a = dec_str(i / m.width as int) + seq![32u8] + dec_str(i % m.width as int);
            vstd::arithmetic::div_mod::lemma_mod_bound(i, m.width as int);
            vstd::arithmetic::div_mod::lemma_div_pos_is_pos(i, m.width as int);
            lemma_fundamental_div_mod(i, m.width as int);
            assert(m.height <= m.area()) by (nonlinear_arith)
                requires
                    m.width >= 1,
                    m.area() == m.width * m.height,
            ;
            assert(i / (m.width as int) < m.height) by (nonlinear_arith)
                requires
                    0 <= i < m.width * m.height,
                    m.width >= 1,
                    i / (m.width as int) >= 0,
                    i == (m.width as int) * (i / (m.width as int)) + (i % (m.width as int)),
                    0 <= i % (m.width as int) < m.width,
            ;
            lemma_coord_line_round_trip(i / m.width as int, i % m.width as int);
            assert(forall|k: int|
                1 <= k < live_lines(m, i).len() ==> #[trigger] live_lines(m, i)[k] == live_lines(
                    m,
                    i + 1,
                )[k - 1]);
            assert(forall|k: int|
                1 <= k < live_coords(m, i).len() ==> #[trigger] live_coords(m, i)[k]
                    == live_coords(m, i + 1)[k - 1]);
        } else {
            assert(live_lines(m, i) =~= live_lines(m, i + 1));
            assert(live_coords(m, i) =~= live_coords(m, i + 1));
        }
    }
}

proof fn lemma_live_coords_present(m: GridModel, i: int, x: int, y: int)
    requires
        m.wf(),
        m.width >= 1,
        0 <= i,
        0 <= x < m.width,
        0 <= y < m.height,
    ensures
        coord_present(live_coords(m, i), y, x) == (i <= y * m.width as int + x
            && m.cells[y * m.width as int + x] == ALIVE),
    decreases m.area() - i,
{
    let w = m.width as int;
    let p = y * w + x;
    crate::lemma_row_major_index(x, y, w, m.height as int);
    if i >= m.area() {
        assert(!coord_present(live_coords(m, i), y, x));
    } else {
        lemma_live_coords_present(m, i + 1, x, y);
        lemma_fundamental_div_mod(i, w);
        let cs = live_coords(m, i);
        let tail = live_coords(m, i + 1);
        if m.cells[i] == ALIVE {
            assert(cs =~= seq![(i / w, i % w)] + tail);
            assert((i / w == y && i % w == x) == (i == p)) by {
                lemma_fundamental_div_mod(p, w);
            }
            if coord_present(cs, y, x) {
                let k = choose|k: int| 0 <= k < cs.len() && #[trigger] cs[k] == (y, x);
                if k == 0 {
                    assert(i == p);
                } else {
                    assert(tail[k - 1] == (y, x));
                    assert(coord_present(tail, y, x));
                }
            }
            if i <= p && m.cells[p] == ALIVE {
                if i == p {
                    assert(cs[0] == (y, x));
                    assert(coord_present(cs, y, x));
                } else {
                    assert(coord_present(tail, y, x));
                    let k = choose|k: int| 0 <= k < tail.len() && #[trigger] tail[k] == (y, x);
                    assert(cs[k + 1] == (y, x));
                    assert(coord_present(cs, y, x));
                }
            }
        } else {
            assert(cs =~= tail);
            if i == p {
                assert(m.cells[p] != ALIVE);
            }
        }
    }
}

/// Law (round trip): serializing a toroidal grid and loading the text back
/// yields exactly the original grid. Its premises hold of every toroidal
/// grid the loader itself produces: the format is the dialect header, the
/// rule lists are sorted duplicate-free neighbor counts, every cell is
/// plainly alive or dead, and at least one cell is alive (a file without
/// coordinate lines is not a life file).
pub proof fn lemma_toroidal_round_trip(m: GridModel)
    requires
        m.wf(),
        m.toroidal,
        m.has_live(),
        m.area() <= usize::MAX,
        m.format == "#Toroidal Life"@,
        forall|i: int| 0 <= i < m.cells.len() ==> (m.cells[i] == ALIVE || m.cells[i] == 0),
        forall|i: int, j: int| 0 <= i < j < m.survival.len() ==> m.survival[i] < m.survival[j],
        forall|i: int, j: int| 0 <= i < j < m.birth.len() ==> m.birth[i] < m.birth[j],
    ensures
        spec_load_life(spec_save_text(m)) == Ok::<GridModel, FileParsingErrorKind>(m),
{
    let w = m.width as int;
    let h = m.height as int;
    let (hx, hy) = choose|x: int, y: int|
        0 <= x < m.width && 0 <= y < m.height && m.alive(x, y);
    assert(w >= 1 && h >= 1);
    assert(w <= m.area() && h <= m.area()) by (nonlinear_arith)
        requires
            m.area() == m.width * m.height,
            w == m.width as int,
            h == m.height as int,
            w >= 1,
            h >= 1,
    ;

    let sd = rule_digits(m.survival);
    let bd = rule_digits(m.birth);
    let x_tok = sd + seq![47u8] + bd;
    let rl = seq![35u8, 82u8, 32u8] + sd + seq![47u8] + bd;
    let sl = seq![35u8, 83u8, 32u8] + dec_str(w) + seq![32u8] + dec_str(h);
    let ct = coords_text(m, 0);
    let text = spec_save_text(m);

    lemma_rule_line_round_trip(m.survival, m.birth);
    lemma_size_line_round_trip(w, h);
    lemma_dec_round_trip(w);
    lemma_dec_round_trip(h);
    lemma_coords_text_lines(m, 0);
    lemma_live_pointwise(m, 0);

    // Cut the text into its lines.
    assert(text =~= toroidal_header() + seq![10u8] + (rl + seq![10u8] + (sl + seq![10u8] + ct)));
    assert(forall|j: int| 0 <= j < toroidal_header().len() ==> #[trigger] toroidal_header()[j]
        != 10);
    assert(!is_space(toroidal_header()[0]) && !is_space(toroidal_header().last()));
    lemma_trim_id(toroidal_header());
    lemma_clean_lines_of_line(toroidal_header(), rl + seq![10u8] + (sl + seq![10u8] + ct));
    lemma_clean_lines_of_line(rl, sl + seq![10u8] + ct);
    lemma_clean_lines_of_line(sl, ct);
    let ls = spec_clean_lines(text);
    assert(ls =~= seq![toroidal_header(), rl, sl] + live_lines(m, 0));

    // Dispatch on the header.
    assert(ls[0] == toroidal_header());
    assert(toroidal_header().len() == 14 && resizable_header().len() == 15);
    assert(ls[0] != resizable_header());
    let ls2 = ls.skip(1);
    assert(ls2 =~= seq![rl, sl] + live_lines(m, 0));
    assert(spec_load_life(text) == spec_load_toroidal(ls2));

    // The body is well formed.
    assert(ls2[0] == rl && !is_desc_line(rl));
    assert(desc_end(ls2, 0) == 0);
    assert(m.cells[hy * w + hx] == ALIVE) by {
        crate::lemma_mod_small(hx, w);
        crate::lemma_mod_small(hy, h);
    }
    lemma_live_coords_present(m, 0, hx, hy);
    assert(live_coords(m, 0).len() >= 1) by {
        let k = choose|k: int|
            0 <= k < live_coords(m, 0).len() && #[trigger] live_coords(m, 0)[k] == (hy, hx);
    }
    assert(ls2.len() >= 3);
    assert forall|t: int| 2 <= t < ls2.len() implies spec_coord_line_ok(#[trigger] ls2[t]) by {
        assert(ls2[t] == live_lines(m, 0)[t - 2]);
    }
    lemma_check_coords_iff(ls2, 2);
    assert(spec_check_toroidal(ls2) is Ok);

    // The rule lists come back as themselves.
    assert(spec_tokens(ls2[0])[1] == x_tok);
    lemma_rules_round_trip(m.survival);
    lemma_rules_round_trip(m.birth);
    assert(spec_rule_lists(ls2[0]) == (m.survival, m.birth));

    // The size comes back as itself.
    assert(spec_tokens(ls2[1]) == seq![seq![35u8, 83u8], dec_str(w), dec_str(h)]);
    assert(strip_plus(dec_str(w)) =~= dec_str(w));
    assert(strip_plus(dec_str(h)) =~= dec_str(h));
    assert(usize_token_val(spec_tokens(ls2[1])[1]) == w);
    assert(usize_token_val(spec_tokens(ls2[1])[2]) == h);

    // The coordinates come back as the living cells.
    lemma_coord_list(ls2, 2);
    let cs = spec_coord_list(ls2, 2);
    assert(cs.len() == live_coords(m, 0).len());
    assert forall|k: int| 0 <= k < cs.len() implies #[trigger] cs[k] == live_coords(m, 0)[k] by {
        assert(cs[k] == spec_line_coord(ls2[2 + k]));
        assert(ls2[2 + k] == live_lines(m, 0)[k]);
    }
    assert(cs =~= live_coords(m, 0));
    assert(!(exists|k: int| 0 <= k < cs.len() && ((#[trigger] cs[k]).0 >= h || cs[k].1 >= w)));

    // The cells come back as themselves.
    assert(cells_of_coords(w, h, cs).len() == m.cells.len());
    assert forall|p: int| 0 <= p < m.cells.len() implies cells_of_coords(w, h, cs)[p]
        == m.cells[p] by {
        vstd::arithmetic::div_mod::lemma_mod_bound(p, w);
        lemma_fundamental_div_mod(p, w);
        assert(p / w < h) by (nonlinear_arith)
            requires
                0 <= p < w * h,
                w >= 1,
                p / w >= 0,
                p == w * (p / w) + (p % w),
                0 <= p % w < w,
        ;
        lemma_live_coords_present(m, 0, p % w, p / w);
        assert((p / w) * w == w * (p / w)) by (nonlinear_arith);
    }
    assert(cells_of_coords(w, h, cs) =~= m.cells);
    assert(spec_load_toroidal(ls2)->Ok_0 =~= m);
}

proof fn lemma_max_fst_le(cs: Seq<(int, int)>, k: int, bound: int)
    requires
        0 <= k <= cs.len(),
        bound >= 0,
        forall|t: int| 0 <= t < k ==> (#[trigger] cs[t]).0 <= bound,
    ensures
        max_fst_upto(cs, k) <= bound,
    decreases k,
{
    if k > 0 {
        lemma_max_fst_le(cs, k - 1, bound);
    }
}

proof fn lemma_max_snd_le(cs: Seq<(int, int)>, k: int, bound: int)
    requires
        0 <= k <= cs.len(),
        bound >= 0,
        forall|t: int| 0 <= t < k ==> (#[trigger] cs[t]).1 <= bound,
    ensures
        max_snd_upto(cs, k) <= bound,
    decreases k,
{
    if k > 0 {
        lemma_max_snd_le(cs, k - 1, bound);
    }
}

proof fn lemma_max_fst_ge(cs: Seq<(int, int)>, k: int, t: int)
    requires
        0 <= t < k <= cs.len(),
    ensures
        max_fst_upto(cs, k) >= cs[t].0,
    decreases k,
{
    if t < k - 1 {
        lemma_max_fst_ge(cs, k - 1, t);
    }
}

proof fn lemma_max_snd_ge(cs: Seq<(int, int)>, k: int, t: int)
    requires
        0 <= t < k <= cs.len(),
    ensures
        max_snd_upto(cs, k) >= cs[t].1,
    decreases k,
{
    if t < k - 1 {
        lemma_max_snd_ge(cs, k - 1, t);
    }
}

/// A grid whose pattern already touches all four of its edges is its own
/// recentering with border 0.
proof fn lemma_recentered_zero_id(m: GridModel)
    requires
        m.wf(),
        m.is_min_live_col(0),
        m.is_min_live_row(0),
        m.is_max_live_col(m.width - 1),
        m.is_max_live_row(m.height - 1),
    ensures
        m.recentered(0) == m,
{
    let w = m.width as int;
    let h = m.height as int;
    assert(m.has_live()) by {
        let y = choose|y: int| 0 <= y < m.height && m.alive(0, y);
    }
    crate::lemma_boundaries_unique(m, 0);
    crate::lemma_boundaries_unique(m, w - 1);
    crate::lemma_boundaries_unique(m, h - 1);
    assert(m.min_live_col() == 0 && m.min_live_row() == 0);
    assert(m.max_live_col() == w - 1 && m.max_live_row() == h - 1);
    let r = m.recentered(0);
    assert(r.width == m.width && r.height == m.height);
    assert forall|i: int| 0 <= i < m.cells.len() implies r.cells[i] == m.cells[i] by {
        vstd::arithmetic::div_mod::lemma_mod_bound(i, w);
        lemma_fundamental_div_mod(i, w);
        assert(i / w < h) by (nonlinear_arith)
            requires
                0 <= i < w * h,
                w >= 1,
                i / w >= 0,
                i == w * (i / w) + (i % w),
                0 <= i % w < w,
        ;
        assert((i / w) * w + i % w == i) by (nonlinear_arith)
            requires
                i == w * (i / w) + (i % w),
        ;
    }
    assert(r.cells =~= m.cells);
    assert(r =~= m);
}

/// Law (round trip): serializing a resizable grid whose pattern already
/// touches all four of its edges — as every grid the resizable loader
/// produces does, and as saving itself normalizes — and loading the text
/// back yields exactly the original grid.
pub proof fn lemma_resizable_round_trip(m: GridModel)
    requires
        m.wf(),
        !m.toroidal,
        m.area() <= usize::MAX,
        m.format == "#Resizable Life"@,
        forall|i: int| 0 <= i < m.cells.len() ==> (m.cells[i] == ALIVE || m.cells[i] == 0),
        forall|i: int, j: int| 0 <= i < j < m.survival.len() ==> m.survival[i] < m.survival[j],
        forall|i: int, j: int| 0 <= i < j < m.birth.len() ==> m.birth[i] < m.birth[j],
        m.is_min_live_col(0),
        m.is_min_live_row(0),
        m.is_max_live_col(m.width - 1),
        m.is_max_live_row(m.height - 1),
    ensures
        spec_load_life(spec_save_text(m)) == Ok::<GridModel, FileParsingErrorKind>(m),
{
    let w = m.width as int;
    let h = m.height as int;
    assert(w >= 1 && h >= 1);
    assert(w <= m.area() && h <= m.area()) by (nonlinear_arith)
        requires
            m.area() == m.width * m.height,
            w == m.width as int,
            h == m.height as int,
            w >= 1,
            h >= 1,
    ;
    lemma_recentered_zero_id(m);

    let sd = rule_digits(m.survival);
    let bd = rule_digits(m.birth);
    let x_tok = sd + seq![47u8] + bd;
    let rl = seq![35u8, 82u8, 32u8] + sd + seq![47u8] + bd;
    let ct = coords_text(m, 0);
    let text = spec_save_text(m);

    lemma_rule_line_round_trip(m.survival, m.birth);
    lemma_coords_text_lines(m, 0);
    lemma_live_pointwise(m, 0);

    // Cut the text into its lines.
    assert(text =~= resizable_header() + seq![10u8] + (rl + seq![10u8] + ct));
    assert(forall|j: int| 0 <= j < resizable_header().len() ==> #[trigger] resizable_header()[j]
        != 10);
    assert(!is_space(resizable_header()[0]) && !is_space(resizable_header().last()));
    lemma_trim_id(resizable_header());
    lemma_clean_lines_of_line(resizable_header(), rl + seq![10u8] + ct);
    lemma_clean_lines_of_line(rl, ct);
    let ls = spec_clean_lines(text);
    assert(ls =~= seq![resizable_header(), rl] + live_lines(m, 0));

    // Dispatch on the header.
    assert(ls[0] == resizable_header());
    let ls2 = ls.skip(1);
    assert(ls2 =~= seq![rl] + live_lines(m, 0));
    assert(spec_load_life(text) == spec_load_resizable(ls2));

    // The body is well formed.
    assert(ls2[0] == rl && !is_desc_line(rl));
    assert(desc_end(ls2, 0) == 0);
    assert(m.has_live()) by {
        let y = choose|y: int| 0 <= y < m.height && m.alive(0, y);
    }
    let hy = choose|y: int| 0 <= y < m.height && m.alive(0, y);
    assert(m.cells[hy * w + 0] == ALIVE);
    lemma_live_coords_present(m, 0, 0, hy);
    assert(live_coords(m, 0).len() >= 1) by {
        let k = choose|k: int|
            0 <= k < live_coords(m, 0).len() && #[trigger] live_coords(m, 0)[k] == (hy, 0int);
    }
    assert(ls2.len() >= 2);
    assert forall|t: int| 1 <= t < ls2.len() implies spec_coord_line_ok(#[trigger] ls2[t]) by {
        assert(ls2[t] == live_lines(m, 0)[t - 1]);
    }
    lemma_check_coords_iff(ls2, 1);
    assert(spec_check_resizable(ls2) is Ok);

    // The rule lists come back as themselves.
    assert(spec_tokens(ls2[0])[1] == x_tok);
    lemma_rules_round_trip(m.survival);
    lemma_rules_round_trip(m.birth);
    assert(spec_rule_lists(ls2[0]) == (m.survival, m.birth));

    // The coordinates come back as the living cells.
    lemma_coord_list(ls2, 1);
    let cs = spec_coord_list(ls2, 1);
    assert(cs.len() == live_coords(m, 0).len());
    assert forall|k: int| 0 <= k < cs.len() implies #[trigger] cs[k] == live_coords(m, 0)[k] by {
        assert(cs[k] == spec_line_coord(ls2[1 + k]));
        assert(ls2[1 + k] == live_lines(m, 0)[k]);
    }
    assert(cs =~= live_coords(m, 0));

    // The grid is sized back to its own dimensions.
    lemma_max_snd_le(cs, cs.len() as int, w - 1);
    lemma_max_fst_le(cs, cs.len() as int, h - 1);
    assert(m.is_max_live_col(w - 1) && m.live_in_col(w - 1));
    let cy = choose|y: int| 0 <= y < m.height && #[trigger] m.alive(w - 1, y);
    assert(m.cells[cy * w + (w - 1)] == ALIVE);
    lemma_live_coords_present(m, 0, w - 1, cy);
    let ck = choose|k: int|
        0 <= k < live_coords(m, 0).len() && #[trigger] live_coords(m, 0)[k] == (cy, w - 1);
    lemma_max_snd_ge(cs, cs.len() as int, ck);
    assert(max_snd_upto(cs, cs.len() as int) == w - 1);
    assert(m.is_max_live_row(h - 1) && m.live_in_row(h - 1));
    let cx = choose|x: int| 0 <= x < m.width && #[trigger] m.alive(x, h - 1);
    assert(m.cells[(h - 1) * w + cx] == ALIVE) by {
        crate::lemma_row_major_index(cx, h - 1, w, h);
    }
    lemma_live_coords_present(m, 0, cx, h - 1);
    let rk = choose|k: int|
        0 <= k < live_coords(m, 0).len() && #[trigger] live_coords(m, 0)[k] == (h - 1, cx);
    lemma_max_fst_ge(cs, cs.len() as int, rk);
    assert(max_fst_upto(cs, cs.len() as int) == h - 1);

    // The cells come back as themselves.
    assert(cells_of_coords(w, h, cs).len() == m.cells.len());
    assert forall|p: int| 0 <= p < m.cells.len() implies cells_of_coords(w, h, cs)[p]
        == m.cells[p] by {
        vstd::arithmetic::div_mod::lemma_mod_bound(p, w);
        lemma_fundamental_div_mod(p, w);
        assert(p / w < h) by (nonlinear_arith)
            requires
                0 <= p < w * h,
                w >= 1,
                p / w >= 0,
                p == w * (p / w) + (p % w),
                0 <= p % w < w,
        ;
        lemma_live_coords_present(m, 0, p % w, p / w);
        assert((p / w) * w == w * (p / w)) by (nonlinear_arith);
    }
    assert(cells_of_coords(w, h, cs) =~= m.cells);
    assert(spec_load_resizable(ls2)->Ok_0 =~= m);
}

/// Law (round trip, stated on the bytes): loading the text a toroidal grid
/// saves to and saving the loaded grid again reproduces byte-identical
/// text.
pub proof fn lemma_saved_text_reloads_identically(m: GridModel)
    requires
        m.wf(),
        m.toroidal,
        m.has_live(),
        m.area() <= usize::MAX,
        m.format == "#Toroidal Life"@,
        forall|i: int| 0 <= i < m.cells.len() ==> (m.cells[i] == ALIVE || m.cells[i] == 0),
        forall|i: int, j: int| 0 <= i < j < m.survival.len() ==> m.survival[i] < m.survival[j],
        forall|i: int, j: int| 0 <= i < j < m.birth.len() ==> m.birth[i] < m.birth[j],
    ensures
        spec_load_life(spec_save_text(m)) matches Ok(g) && spec_save_text(g) == spec_save_text(
            m,
        ),
{
    lemma_toroidal_round_trip(m);
}

/// Appends the decimal numeral of `n`.
fn push_dec(out: &mut Vec<u8>, n: usize)
    ensures
        final(out)@ == old(out)@ + dec_str(n as int),
    decreases n,
{
    if n < 10 {
        out.push(48 + n as u8);
        proof {
            assert(out@ =~= old(out)@ + dec_str(n as int));
        }
    } else {
        proof {
            vstd::arithmetic::div_mod::lemma_mod_bound(n as int, 10);
            vstd::arithmetic::div_mod::lemma_div_decreases(n as int, 10);
            vstd::arithmetic::div_mod::lemma_div_pos_is_pos(n as int, 10);
        }
        push_dec(out, n / 10);
        out.push(48 + (n % 10) as u8);
        proof {
            assert(out@ =~= old(out)@ + dec_str(n as int));
        }
    }
}

/// Appends one digit byte per rule entry.
fn push_rule_digits(out: &mut Vec<u8>, v: &Vec<u32>)
    requires
        forall|i: int| 0 <= i < v@.len() ==> #[trigger] v@[i] <= 8,
    ensures
        final(out)@ == old(out)@ + rule_digits(v@),
{
    let mut i: usize = 0;
    while i < v.len()
        invariant
            i <= v@.len(),
            forall|k: int| 0 <= k < v@.len() ==> #[trigger] v@[k] <= 8,
            out@ == old(out)@ + rule_digits(v@.take(i as int)),
        decreases v@.len() - i,
    {
        out.push(48 + v[i] as u8);
        i = i + 1;
        proof {
            assert(out@ =~= old(out)@ + rule_digits(v@.take(i as int)));
        }
    }
    proof {
        assert(v@.take(v@.len() as int) =~= v@);
        assert(old(out)@ + rule_digits(v@.take(v@.len() as int)) =~= old(out)@ + rule_digits(v@));
    }
}

fn push_header(out: &mut Vec<u8>, toroidal: bool)
    ensures
        toroidal ==> final(out)@ == old(out)@ + toroidal_header(),
        !toroidal ==> final(out)@ == old(out)@ + resizable_header(),
{
    out.push(35);
    if toroidal {
        out.push(84);
        out.push(111);
        out.push(114);
        out.push(111);
        out.push(105);
        out.push(100);
        out.push(97);
        out.push(108);
    } else {
        out.push(82);
        out.push(101);
        out.push(115);
        out.push(105);
        out.push(122);
        out.push(97);
        out.push(98);
        out.push(108);
        out.push(101);
    }
    out.push(32);
    out.push(76);
    out.push(105);
    out.push(102);
    out.push(101);
    proof {
        if toroidal {
            assert(out@ =~= old(out)@ + toroidal_header());
        } else {
            assert(out@ =~= old(out)@ + resizable_header());
        }
    }
}

fn copy_u32s(v: &Vec<u32>) -> (r: Vec<u32>)
    ensures
        r@ == v@,
{
    let mut r: Vec<u32> = Vec::new();
    let mut i: usize = 0;
    while i < v.len()
        invariant
            i <= v@.len(),
            r@ =~= v@.take(i as int),
        decreases v@.len() - i,
    {
        r.push(v[i]);
        i = i + 1;
    }
    proof {
        assert(r@ =~= v@);
    }
    r
}

impl Grid {
    /// An exact copy of this grid.
    fn duplicate(&self) -> (r: Grid)
        ensures
            r@ == self@,
    {
        Grid {
            format: self.format.clone(),
            toroidal: self.toroidal,
            survival: copy_u32s(&self.survival),
            birth: copy_u32s(&self.birth),
            width: self.width,
            height: self.height,
            cells: copy_bytes(&self.cells),
        }
    }

    /// Serializes this grid as the text of a life file: the dialect header,
    /// the rule line, for the toroidal dialect the size line, and one
    /// `<row> <col>` line per living cell in row-major order. A resizable
    /// grid is recentered onto its pattern first, so its saved coordinates
    /// are relative to the pattern's own corner.
    pub fn save_life_text(&self) -> (r: Vec<u8>)
        requires
            self@.wf(),
        ensures
            r@ == spec_save_text(self@),
    {
        let mut work: Grid = self.duplicate();
        if !self.is_toroidal() {
            let n: usize = work.cells.len();
            proof {
                assert((work@.width + 2 * 0) * (work@.height + 2 * 0) == n);
            }
            work.recenter_pattern(0);
        }
        let ghost m2 = if self@.toroidal {
            self@
        } else {
            self@.recentered(0)
        };
        let mut out: Vec<u8> = Vec::new();
        push_header(&mut out, self.toroidal);
        out.push(10);
        out.push(35);
        out.push(82);
        out.push(32);
        push_rule_digits(&mut out, &self.survival);
        out.push(47);
        push_rule_digits(&mut out, &self.birth);
        out.push(10);
        if self.toroidal {
            out.push(35);
            out.push(83);
            out.push(32);
            push_dec(&mut out, self.width);
            out.push(32);
            push_dec(&mut out, self.height);
            out.push(10);
        }
        proof {
            assert(out@ + coords_text(m2, 0) =~= spec_save_text(self@));
        }
        let n: usize = work.cells.len();
        let mut i: usize = 0;
        while i < n
            invariant
                work@ == m2,
                m2.wf(),
                n == m2.area(),
                n == work@.cells.len(),
                i <= n,
                out@ + coords_text(m2, i as int) == spec_save_text(self@),
            decreases n - i,
        {
            let c: u8 = work.cells[i];
            if c == 255 {
                proof {
                    assert(work@.width * work@.height == n);
                    assert(work@.width > 0) by (nonlinear_arith)
                        requires
                            work@.width * work@.height == n,
                            0 <= i < n,
                    ;
                }
                let row: usize = i / work.width;
                let col: usize = i % work.width;
                let ghost pre = out@;
                push_dec(&mut out, row);
                out.push(32);
                push_dec(&mut out, col);
                out.push(10);
                proof {
                    assert(out@ =~= pre + (dec_str(i as int / m2.width as int) + seq![32u8]
                        + dec_str(i as int % m2.width as int) + seq![10u8]));
                    assert(pre + (dec_str(i as int / m2.width as int) + seq![32u8] + dec_str(
                        i as int % m2.width as int,
                    ) + seq![10u8]) + coords_text(m2, i as int + 1) =~= pre + coords_text(
                        m2,
                        i as int,
                    ));
                }
            } else {
                proof {
                    assert(out@ + coords_text(m2, i as int + 1) =~= out@ + coords_text(
                        m2,
                        i as int,
                    ));
                }
            }
            i = i + 1;
        }
        proof {
            assert(out@ + coords_text(m2, n as int) =~= out@);
        }
        out
    }
}

} // verus!
