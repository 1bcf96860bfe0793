//! Tokenizing trace lines and reading hexadecimal fingerprints.
//!
//! A trace record is one line of space-delimited tokens; splitting on a
//! single space is exact (consecutive spaces yield empty tokens), matching
//! the wire format.

use vstd::prelude::*;

use crate::ident::{first_index_of, lemma_first_index_agrees, lemma_first_index_of};

verus! {

/// The tokens of `s` split on `sep`: always at least one token, empty
/// tokens preserved.
pub open spec fn spec_split(s: Seq<char>, sep: char) -> Seq<Seq<char>>
    decreases s.len(),
{
    let i = first_index_of(s, sep);
    if 0 <= i < s.len() {
        seq![s.take(i)] + spec_split(s.skip(i + 1), sep)
    } else {
        seq![s]
    }
}

pub proof fn lemma_spec_split_len(s: Seq<char>, sep: char)
    ensures
        spec_split(s, sep).len() >= 1,
    decreases s.len(),
{
    lemma_first_index_of(s, sep);
    let i = first_index_of(s, sep);
    if 0 <= i < s.len() {
        lemma_spec_split_len(s.skip(i + 1), sep);
    }
}

/// Splits a line into its space-delimited tokens.
pub fn split_line(s: &str) -> (toks: Vec<String>)
    ensures
        toks.deep_view() == spec_split(s@, ' '),
        toks@.len() >= 1,
{
    let n = s.unicode_len();
    let mut toks: Vec<String> = Vec::new();
    let mut start: usize = 0;
    proof {
        assert(s@.skip(0) =~= s@);
        assert(toks.deep_view() =~= Seq::<Seq<char>>::empty());
    }
    loop
        invariant
            start <= n,
            n == s@.len(),
            spec_split(s@, ' ') =~= toks.deep_view() + spec_split(s@.skip(start as int), ' '),
        decreases n - start,
    {
        let e = crate::ident::find_char_from(s, ' ', start);
        let ghost rest = s@.skip(start as int);
        proof {
            assert forall|j: int| 0 <= j < e - start implies rest[j] != ' ' by {
                assert(rest[j] == s@[j + start]);
            }
            if e < n {
                assert(rest[e - start] == s@[e as int]);
            }
            lemma_first_index_agrees(rest, ' ', e - start);
            assert(s@.subrange(start as int, e as int) =~= rest.take(e - start));
        }
        let tok = s.substring_char(start, e).to_owned();
        let ghost old_toks = toks.deep_view();
        toks.push(tok);
        proof {
            assert(toks.deep_view() =~= old_toks.push(rest.take(e - start)));
        }
        if e == n {
            proof {
                lemma_first_index_of(rest, ' ');
                assert(rest.take(e - start) =~= rest);
                assert(spec_split(rest, ' ') =~= seq![rest]);
                assert(toks.deep_view() =~= spec_split(s@, ' '));
                lemma_spec_split_len(s@, ' ');
            }
            return toks;
        }
        proof {
            assert(rest.skip(e - start + 1) =~= s@.skip(e + 1));
            assert(spec_split(rest, ' ') =~= seq![rest.take(e - start)] + spec_split(
                s@.skip(e + 1),
                ' ',
            ));
            assert(spec_split(s@, ' ') =~= toks.deep_view() + spec_split(s@.skip(e + 1), ' '));
        }
        start = e + 1;
    }
}

/// True when `c` is an ascii hexadecimal digit.
pub open spec fn is_hex_digit(c: char) -> bool {
    ('0' <= c && c <= '9') || ('a' <= c && c <= 'f') || ('A' <= c && c <= 'F')
}

/// The numeric value of one hexadecimal digit.
pub open spec fn hex_digit_val(c: char) -> int {
    if '0' <= c && c <= '9' {
        c as int - '0' as int
    } else if 'a' <= c && c <= 'f' {
        c as int - 'a' as int + 10
    } else {
        c as int - 'A' as int + 10
    }
}

/// The value of a sequence of hexadecimal digits, most significant first.
pub open spec fn hex_digits_val(s: Seq<char>) -> int
    decreases s.len(),
{
    if s.len() == 0 {
        0
    } else {
        hex_digits_val(s.drop_last()) * 16 + hex_digit_val(s.last())
    }
}

/// The digits of a hexadecimal literal: an optional leading `+` sign is not
/// part of the digits.
pub open spec fn hex_literal_digits(s: Seq<char>) -> Seq<char> {
    if s.len() > 0 && s[0] == '+' {
        s.skip(1)
    } else {
        s
    }
}

/// True when `s` is a hexadecimal literal whose value fits in a `u64`: an
/// optional leading `+`, then at least one hexadecimal digit.
pub open spec fn is_hex_u64_literal(s: Seq<char>) -> bool {
    let ds = hex_literal_digits(s);
    &&& ds.len() > 0
    &&& forall|i: int| 0 <= i < ds.len() ==> is_hex_digit(#[trigger] ds[i])
    &&& hex_digits_val(ds) <= u64::MAX
}

/// The value of a hexadecimal `u64` literal.
pub open spec fn spec_hex_u64(s: Seq<char>) -> int {
    hex_digits_val(hex_literal_digits(s))
}

/// Appending hexadecimal digits never shrinks the value.
proof fn lemma_hex_val_monotone(s: Seq<char>, k: int)
    requires
        0 <= k <= s.len(),
        forall|j: int| 0 <= j < s.len() ==> is_hex_digit(#[trigger] s[j]),
    ensures
        hex_digits_val(s.take(k)) <= hex_digits_val(s),
        hex_digits_val(s) >= 0,
    decreases s.len(),
{
    if s.len() == 0 {
        assert(s.take(k) =~= s);
    } else if k == s.len() {
        assert(s.take(k) =~= s);
        lemma_hex_val_monotone(s.drop_last(), (s.len() - 1) as int);
    } else {
        lemma_hex_val_monotone(s.drop_last(), k);
        assert(s.drop_last().take(k) =~= s.take(k));
    }
}

/// Reads a hexadecimal `u64` from `s`, exactly when `s` is a well-formed
/// hexadecimal literal whose value fits.
pub fn parse_hex_u64(s: &str) -> (r: Option<u64>)
    ensures
        match r {
            Some(v) => is_hex_u64_literal(s@) && v as int == spec_hex_u64(s@),
            None => !is_hex_u64_literal(s@),
        },
{
    let n = s.unicode_len();
    let start: usize = if n > 0 && s.get_char(0) == '+' {
        1
    } else {
        0
    };
    let ghost ds = hex_literal_digits(s@);
    proof {
        if start == 1 {
            assert(ds =~= s@.skip(1));
        } else {
            assert(ds =~= s@.skip(0));
            assert(ds =~= s@);
        }
    }
    if start == n {
        return None;
    }
    let mut val: u64 = 0;
    let mut i: usize = start;
    while i < n
        invariant
            start <= i <= n,
            start == 0 || start == 1,
            n == s@.len(),
            start < n,
            ds == hex_literal_digits(s@),
            ds =~= s@.skip(start as int),
            forall|j: int| 0 <= j < i - start ==> is_hex_digit(#[trigger] ds[j]),
            val as int == hex_digits_val(ds.take(i - start)),
        decreases n - i,
    {
        let c = s.get_char(i);
        proof {
            assert(ds[i - start] == s@[i as int]);
        }
        let d: u64 = if c >= '0' && c <= '9' {
            (c as u32 - '0' as u32) as u64
        } else if c >= 'a' && c <= 'f' {
            (c as u32 - 'a' as u32 + 10) as u64
        } else if c >= 'A' && c <= 'F' {
            (c as u32 - 'A' as u32 + 10) as u64
        } else {
            return None;
        };
        proof {
            assert(ds.take(i + 1 - start).drop_last() =~= ds.take(i - start));
            assert(ds.take(i + 1 - start).last() == ds[i - start]);
        }
        if val > u64::MAX / 16 || val * 16 > u64::MAX - d {
            proof {
                if is_hex_u64_literal(s@) {
                    lemma_hex_val_monotone(ds, i + 1 - start);
                }
            }
            return None;
        }
        val = val * 16 + d;
        i += 1;
    }
    proof {
        assert(ds.take(n - start) =~= ds);
        assert(is_hex_u64_literal(s@));
    }
    Some(val)
}

/// Copies a vector of strings; the views are unchanged.
pub fn clone_strings(v: &Vec<String>) -> (r: Vec<String>)
    ensures
        r.deep_view() == v.deep_view(),
{
    let n = v.len();
    let mut r: Vec<String> = Vec::new();
    let mut i: usize = 0;
    while i < n
        invariant
            i <= n,
            n == v@.len(),
            r.deep_view() =~= v.deep_view().take(i as int),
        decreases n - i,
    {
        let ghost old_r = r.deep_view();
        r.push(v[i].clone());
        proof {
            assert(r.deep_view() =~= old_r.push(v@[i as int]@));
            assert(r.deep_view() =~= v.deep_view().take(i + 1));
        }
        i += 1;
    }
    proof {
        assert(v.deep_view().take(n as int) =~= v.deep_view());
    }
    r
}

/// Copies a vector of line numbers; the view is unchanged.
pub fn clone_lines(v: &Vec<usize>) -> (r: Vec<usize>)
    ensures
        r@ == v@,
{
    let n = v.len();
    let mut r: Vec<usize> = Vec::new();
    let mut i: usize = 0;
    while i < n
        invariant
            i <= n,
            n == v@.len(),
            r@ =~= v@.take(i as int),
        decreases n - i,
    {
        r.push(v[i]);
        proof {
            assert(r@ =~= v@.take(i + 1));
        }
        i += 1;
    }
    proof {
        assert(v@.take(n as int) =~= v@);
    }
    r
}



/// The character of one decimal digit value.
pub open spec fn digit_char(d: int) -> char {
    if d == 0 { '0' } else if d == 1 { '1' } else if d == 2 { '2' } else if d == 3 { '3' }
    else if d == 4 { '4' } else if d == 5 { '5' } else if d == 6 { '6' } else if d == 7 { '7' }
    else if d == 8 { '8' } else { '9' }
}

/// The decimal digit string of `n`, most significant first, with no leading
/// zeros (except for `n == 0` itself).
pub open spec fn dec_digits(n: nat) -> Seq<char>
    decreases n,
{
    if n < 10 {
        seq![digit_char(n as int)]
    } else {
        dec_digits(n / 10).push(digit_char((n % 10) as int))
    }
}

/// The digit values `ds` (least significant first) rendered as characters,
/// most significant first.
pub open spec fn rev_chars(ds: Seq<usize>) -> Seq<char> {
    Seq::new(ds.len(), |i: int| digit_char(ds[ds.len() - 1 - i] as int))
}

/// Appends the character of one decimal digit value to a string.
fn append_digit(s: &mut String, d: usize)
    requires
        d < 10,
    ensures
        final(s)@ == old(s)@.push(digit_char(d as int)),
{
    if d == 0 {
        proof { reveal_strlit("0"); }
        s.append("0");
        proof { assert(final(s)@ =~= old(s)@.push('0')); }
    } else if d == 1 {
        proof { reveal_strlit("1"); }
        s.append("1");
        proof { assert(final(s)@ =~= old(s)@.push('1')); }
    } else if d == 2 {
        proof { reveal_strlit("2"); }
        s.append("2");
        proof { assert(final(s)@ =~= old(s)@.push('2')); }
    } else if d == 3 {
        proof { reveal_strlit("3"); }
        s.append("3");
        proof { assert(final(s)@ =~= old(s)@.push('3')); }
    } else if d == 4 {
        proof { reveal_strlit("4"); }
        s.append("4");
        proof { assert(final(s)@ =~= old(s)@.push('4')); }
    } else if d == 5 {
        proof { reveal_strlit("5"); }
        s.append("5");
        proof { assert(final(s)@ =~= old(s)@.push('5')); }
    } else if d == 6 {
        proof { reveal_strlit("6"); }
        s.append("6");
        proof { assert(final(s)@ =~= old(s)@.push('6')); }
    } else if d == 7 {
        proof { reveal_strlit("7"); }
        s.append("7");
        proof { assert(final(s)@ =~= old(s)@.push('7')); }
    } else if d == 8 {
        proof { reveal_strlit("8"); }
        s.append("8");
        proof { assert(final(s)@ =~= old(s)@.push('8')); }
    } else {
        proof { reveal_strlit("9"); }
        s.append("9");
        proof { assert(final(s)@ =~= old(s)@.push('9')); }
    }
}

/// How far the digit collection has got: the digits of `m` still to come,
/// then the collected ones.
pub open spec fn dec_decomp(m: nat, ds: Seq<usize>) -> Seq<char> {
    if ds.len() == 0 {
        dec_digits(m)
    } else if m == 0 {
        rev_chars(ds)
    } else {
        dec_digits(m) + rev_chars(ds)
    }
}

/// Renders `n` in decimal.
pub fn to_decimal(n: usize) -> (r: String)
    ensures
        r@ == dec_digits(n as nat),
{
    let mut ds: Vec<usize> = Vec::new();
    let mut m: usize = n;
    loop
        invariant_except_break
            dec_digits(n as nat) =~= dec_decomp(m as nat, ds@),
            m == 0 ==> ds@.len() == 0,
        invariant
            forall|j: int| 0 <= j < ds@.len() ==> (#[trigger] ds@[j]) < 10,
        ensures
            dec_digits(n as nat) =~= rev_chars(ds@),
        decreases m,
    {
        let d: usize = m % 10;
        let ghost old_ds = ds@;
        let ghost old_m = m as nat;
        ds.push(d);
        m = m / 10;
        proof {
            assert(rev_chars(ds@) =~= seq![digit_char(d as int)] + rev_chars(old_ds));
            if old_m < 10 {
                assert(dec_digits(old_m) =~= seq![digit_char(d as int)]);
                assert(dec_decomp(0, ds@) =~= dec_decomp(old_m, old_ds));
            } else {
                assert(dec_digits(old_m) == dec_digits(old_m / 10).push(
                    digit_char((old_m % 10) as int),
                ));
                assert(dec_digits(m as nat) + rev_chars(ds@) =~= dec_digits(old_m) + rev_chars(
                    old_ds,
                ));
                assert(dec_decomp(m as nat, ds@) =~= dec_decomp(old_m, old_ds));
            }
        }
        if m == 0 {
            proof {
                assert(dec_digits(n as nat) =~= rev_chars(ds@));
            }
            break;
        }
    }
    let mut r = String::new();
    let k = ds.len();
    let mut i: usize = 0;
    while i < k
        invariant
            i <= k,
            k == ds@.len(),
            forall|j: int| 0 <= j < ds@.len() ==> (#[trigger] ds@[j]) < 10,
            dec_digits(n as nat) == rev_chars(ds@),
            r@ =~= rev_chars(ds@).take(i as int),
        decreases k - i,
    {
        let d = ds[k - 1 - i];
        append_digit(&mut r, d);
        proof {
            assert(rev_chars(ds@)[i as int] == digit_char(ds@[k - 1 - i] as int));
            assert(r@ =~= rev_chars(ds@).take(i + 1));
        }
        i += 1;
    }
    proof {
        assert(rev_chars(ds@).take(k as int) =~= rev_chars(ds@));
    }
    r
}

/// True when `s` is a decimal literal whose value fits in a `u32`.
pub open spec fn is_u32_literal(s: Seq<char>) -> bool {
    let ds = crate::ident::literal_digits(s);
    &&& ds.len() > 0
    &&& forall|i: int| 0 <= i < ds.len() ==> crate::ident::is_digit(#[trigger] ds[i])
    &&& crate::ident::digits_val(ds) <= u32::MAX
}

/// Reads a decimal `u32` from `s`, exactly when `s` is a well-formed
/// decimal literal whose value fits.
pub fn parse_u32(s: &str) -> (r: Option<u32>)
    ensures
        match r {
            Some(v) => is_u32_literal(s@) && v as int == crate::ident::digits_val(
                crate::ident::literal_digits(s@),
            ),
            None => !is_u32_literal(s@),
        },
{
    let n = s.unicode_len();
    let start: usize = if n > 0 && s.get_char(0) == '+' {
        1
    } else {
        0
    };
    let ghost ds = crate::ident::literal_digits(s@);
    proof {
        if start == 1 {
            assert(ds =~= s@.skip(1));
        } else {
            assert(ds =~= s@.skip(0));
            assert(ds =~= s@);
        }
    }
    if start == n {
        return None;
    }
    let mut val: u32 = 0;
    let mut i: usize = start;
    while i < n
        invariant
            start <= i <= n,
            start == 0 || start == 1,
            n == s@.len(),
            start < n,
            ds == crate::ident::literal_digits(s@),
            ds =~= s@.skip(start as int),
            forall|j: int| 0 <= j < i - start ==> crate::ident::is_digit(#[trigger] ds[j]),
            val as int == crate::ident::digits_val(ds.take(i - start)),
        decreases n - i,
    {
        let c = s.get_char(i);
        proof {
            assert(ds[i - start] == s@[i as int]);
        }
        if c < '0' || c > '9' {
            return None;
        }
        let d: u32 = c as u32 - '0' as u32;
        proof {
            assert(ds.take(i + 1 - start).drop_last() =~= ds.take(i - start));
            assert(ds.take(i + 1 - start).last() == ds[i - start]);
        }
        if val > u32::MAX / 10 || val * 10 > u32::MAX - d {
            proof {
                if is_u32_literal(s@) {
                    crate::ident::lemma_digits_val_monotone(ds, i + 1 - start);
                }
            }
            return None;
        }
        val = val * 10 + d;
        i += 1;
    }
    proof {
        assert(ds.take(n - start) =~= ds);
        assert(is_u32_literal(s@));
    }
    Some(val)
}


/// Reads a decimal `usize` from `s`, exactly when `s` is a well-formed
/// decimal literal whose value fits.
pub fn parse_usize(s: &str) -> (r: Option<usize>)
    ensures
        match r {
            Some(v) => crate::ident::is_usize_literal(s@) && v as int == crate::ident::digits_val(
                crate::ident::literal_digits(s@),
            ),
            None => !crate::ident::is_usize_literal(s@),
        },
{
    let n = s.unicode_len();
    let start: usize = if n > 0 && s.get_char(0) == '+' {
        1
    } else {
        0
    };
    let ghost ds = crate::ident::literal_digits(s@);
    proof {
        if start == 1 {
            assert(ds =~= s@.skip(1));
        } else {
            assert(ds =~= s@.skip(0));
            assert(ds =~= s@);
        }
    }
    if start == n {
        return None;
    }
    let mut val: usize = 0;
    let mut i: usize = start;
    while i < n
        invariant
            start <= i <= n,
            start == 0 || start == 1,
            n == s@.len(),
            start < n,
            ds == crate::ident::literal_digits(s@),
            ds =~= s@.skip(start as int),
            forall|j: int| 0 <= j < i - start ==> crate::ident::is_digit(#[trigger] ds[j]),
            val as int == crate::ident::digits_val(ds.take(i - start)),
        decreases n - i,
    {
        let c = s.get_char(i);
        proof {
            assert(ds[i - start] == s@[i as int]);
        }
        if c < '0' || c > '9' {
            return None;
        }
        let d: usize = (c as u32 - '0' as u32) as usize;
        proof {
            assert(ds.take(i + 1 - start).drop_last() =~= ds.take(i - start));
            assert(ds.take(i + 1 - start).last() == ds[i - start]);
        }
        if val > usize::MAX / 10 || val * 10 > usize::MAX - d {
            proof {
                if crate::ident::is_usize_literal(s@) {
                    crate::ident::lemma_digits_val_monotone(ds, i + 1 - start);
                }
            }
            return None;
        }
        val = val * 10 + d;
        i += 1;
    }
    proof {
        assert(ds.take(n - start) =~= ds);
        assert(crate::ident::is_usize_literal(s@));
    }
    Some(val)
}


/// The position of the first token equal to `w` at or after `from`, or the
/// token count when there is none.
pub open spec fn spec_token_index(ld: Seq<Seq<char>>, w: Seq<char>, from: int) -> int
    decreases ld.len() - from,
        when 0 <= from <= ld.len()
{
    if from < 0 || from >= ld.len() {
        ld.len() as int
    } else if ld[from] == w {
        from
    } else {
        spec_token_index(ld, w, from + 1)
    }
}

pub proof fn lemma_spec_token_index(ld: Seq<Seq<char>>, w: Seq<char>, from: int)
    requires
        0 <= from <= ld.len(),
    ensures
        from <= spec_token_index(ld, w, from) <= ld.len(),
        forall|j: int| from <= j < spec_token_index(ld, w, from) ==> ld[j] != w,
        spec_token_index(ld, w, from) < ld.len() ==> ld[spec_token_index(ld, w, from)] == w,
    decreases ld.len() - from,
{
    if from < ld.len() && ld[from] != w {
        lemma_spec_token_index(ld, w, from + 1);
    }
}

/// A first-occurrence token position established by forward scan agrees
/// with `spec_token_index`.
pub proof fn lemma_spec_token_index_agrees(ld: Seq<Seq<char>>, w: Seq<char>, from: int, i: int)
    requires
        0 <= from <= i <= ld.len(),
        forall|j: int| from <= j < i ==> ld[j] != w,
        i < ld.len() ==> ld[i] == w,
    ensures
        spec_token_index(ld, w, from) == i,
    decreases i - from,
{
    if from < i {
        lemma_spec_token_index_agrees(ld, w, from + 1, i);
    }
}


/// Whether `pat` occurs in `s` at position `i`.
pub open spec fn match_at(s: Seq<char>, pat: Seq<char>, i: int) -> bool {
    0 <= i && i + pat.len() <= s.len() && s.subrange(i, i + pat.len()) == pat
}

/// The first position at or after `i` where `pat` occurs in `s`, or
/// `s.len() + 1` when it occurs nowhere from `i` on.
pub open spec fn first_match_from(s: Seq<char>, pat: Seq<char>, i: int) -> int
    decreases s.len() - i,
        when 0 <= i && pat.len() >= 1
{
    if i + pat.len() > s.len() {
        s.len() as int + 1
    } else if s.subrange(i, i + pat.len()) == pat {
        i
    } else {
        first_match_from(s, pat, i + 1)
    }
}

pub proof fn lemma_first_match_from(s: Seq<char>, pat: Seq<char>, i: int)
    requires
        0 <= i <= s.len() + 1,
        pat.len() >= 1,
    ensures
        i <= first_match_from(s, pat, i) <= s.len() + 1,
        first_match_from(s, pat, i) <= s.len() ==> match_at(s, pat, first_match_from(s, pat, i)),
        forall|k: int| i <= k < first_match_from(s, pat, i) ==> !match_at(s, pat, k),
    decreases s.len() - i,
{
    if i + pat.len() <= s.len() && s.subrange(i, i + pat.len()) != pat {
        lemma_first_match_from(s, pat, i + 1);
    }
}

/// A first-occurrence position established by forward scan agrees with
/// `first_match_from`.
pub proof fn lemma_first_match_agrees(s: Seq<char>, pat: Seq<char>, i: int, m: int)
    requires
        pat.len() >= 1,
        0 <= i <= m,
        m <= s.len() + 1,
        m <= s.len() ==> match_at(s, pat, m),
        m > s.len() ==> m == s.len() + 1,
        forall|k: int| i <= k < m ==> !match_at(s, pat, k),
    ensures
        first_match_from(s, pat, i) == m,
    decreases m - i,
{
    if i < m {
        lemma_first_match_agrees(s, pat, i + 1, m);
        assert(!match_at(s, pat, i));
        if i + pat.len() > s.len() {
            // no further position can match either, so m is the sentinel
            assert(m > s.len()) by {
                if m <= s.len() {
                    assert(match_at(s, pat, m));
                }
            }
            assert(first_match_from(s, pat, i) == s.len() + 1);
        } else {
            assert(s.subrange(i, i + pat.len()) != pat);
            assert(first_match_from(s, pat, i) == first_match_from(s, pat, i + 1));
        }
    } else {
        if m <= s.len() {
            assert(match_at(s, pat, m));
            assert(first_match_from(s, pat, m) == m);
        } else {
            assert(first_match_from(s, pat, m) == s.len() + 1);
        }
    }
}

/// `s` with every occurrence of `pat` replaced by `rep`, scanning left to
/// right without overlap.
pub open spec fn spec_replace(s: Seq<char>, pat: Seq<char>, rep: Seq<char>) -> Seq<char>
    decreases s.len(),
        when pat.len() >= 1
        via spec_replace_decreases
{
    let m = first_match_from(s, pat, 0);
    if m > s.len() {
        s
    } else {
        s.take(m) + rep + spec_replace(s.skip(m + pat.len()), pat, rep)
    }
}

#[via_fn]
proof fn spec_replace_decreases(s: Seq<char>, pat: Seq<char>, rep: Seq<char>) {
    lemma_first_match_from(s, pat, 0);
}

/// True when `pat` occurs in `s` at position `i`.
fn is_match_here(s: &str, pat: &str, i: usize) -> (r: bool)
    requires
        i + pat@.len() <= s@.len(),
    ensures
        r == match_at(s@, pat@, i as int),
{
    let n = s.unicode_len();
    let m = pat.unicode_len();
    let mut j: usize = 0;
    while j < m
        invariant
            j <= m,
            m == pat@.len(),
            n == s@.len(),
            i + m <= n,
            forall|k: int| 0 <= k < j ==> s@[i + k] == pat@[k],
        decreases m - j,
    {
        if s.get_char(i + j) != pat.get_char(j) {
            proof {
                assert(s@.subrange(i as int, i + m) != pat@) by {
                    assert(s@.subrange(i as int, i + m)[j as int] == s@[i + j]);
                }
            }
            return false;
        }
        j += 1;
    }
    proof {
        assert(s@.subrange(i as int, i + m) =~= pat@);
    }
    true
}

/// Replaces every occurrence of `pat` in `s` by `rep`, scanning left to
/// right without overlap.
#[verifier::rlimit(100)]
pub fn replace_all(s: &str, pat: &str, rep: &str) -> (r: String)
    requires
        pat@.len() >= 1,
    ensures
        r@ == spec_replace(s@, pat@, rep@),
{
    let n = s.unicode_len();
    let m = pat.unicode_len();
    let mut out = String::new();
    let mut cur: usize = 0;
    proof {
        assert(s@.skip(0) =~= s@);
        assert(out@ =~= Seq::<char>::empty());
    }
    loop
        invariant
            cur <= n,
            n == s@.len(),
            m == pat@.len(),
            m >= 1,
            spec_replace(s@, pat@, rep@) =~= out@ + spec_replace(s@.skip(cur as int), pat@, rep@),
        decreases n - cur,
    {
        let ghost rest = s@.skip(cur as int);
        // the next occurrence at or after the scan point
        let mut j: usize = cur;
        let mut found = false;
        while n - j >= m && !found
            invariant
                cur <= j,
                j <= n,
                n == s@.len(),
                m == pat@.len(),
                m >= 1,
                found ==> j + m <= n && match_at(s@, pat@, j as int),
                forall|k: int| cur <= k < j ==> !match_at(s@, pat@, k),
            decreases n - j + (if found { 0int } else { 1int }),
        {
            if is_match_here(s, pat, j) {
                found = true;
            } else {
                proof {
                    assert(!match_at(s@, pat@, j as int));
                }
                j += 1;
            }
        }
        proof {
            assert forall|k: int| cur <= k < j implies !match_at(s@, pat@, k) by {}
            if !found {
                assert forall|k: int| cur <= k < s@.len() + 1 implies !match_at(s@, pat@, k) by {
                    if k + m <= n {
                        assert(k < j);
                    }
                }
            }
            // relate positions in the remainder to absolute positions
            assert forall|k: int| 0 <= k < rest.len() implies rest[k] == s@[cur + k] by {}
        }
        if !found {
            // no occurrence is left: the remainder is copied as it is
            let tail = s.substring_char(cur, n).to_owned();
            out.append(tail.as_str());
            proof {
                lemma_match_shift(s@, pat@, cur as int);
                lemma_first_match_agrees(rest, pat@, 0, rest.len() as int + 1);
                assert(spec_replace(rest, pat@, rep@) == rest);
                assert(out@ =~= spec_replace(s@, pat@, rep@));
            }
            return out;
        }
        // copy up to the occurrence, then the replacement
        let piece = s.substring_char(cur, j).to_owned();
        out.append(piece.as_str());
        out.append(rep);
        proof {
            lemma_match_shift(s@, pat@, cur as int);
            lemma_first_match_agrees(rest, pat@, 0, j - cur);
            assert(rest.take(j - cur) =~= s@.subrange(cur as int, j as int));
            assert(rest.skip(j - cur + m) =~= s@.skip(j + m));
            assert(spec_replace(rest, pat@, rep@) == rest.take(j - cur) + rep@ + spec_replace(
                s@.skip(j + m),
                pat@,
                rep@,
            ));
            assert(spec_replace(s@, pat@, rep@) =~= out@ + spec_replace(
                s@.skip(j + m),
                pat@,
                rep@,
            ));
        }
        cur = j + m;
    }
}

/// A match in the remainder of `s` after `cur` is a match of `s` shifted
/// by `cur`, and the other way round.
proof fn lemma_match_shift(s: Seq<char>, pat: Seq<char>, cur: int)
    requires
        0 <= cur <= s.len(),
    ensures
        forall|k: int|
            0 <= k ==> (#[trigger] match_at(s.skip(cur), pat, k) <==> match_at(s, pat, cur + k)),
{
    assert forall|k: int| 0 <= k implies (#[trigger] match_at(s.skip(cur), pat, k) <==> match_at(
        s,
        pat,
        cur + k,
    )) by {
        let rest = s.skip(cur);
        if k + pat.len() <= rest.len() {
            assert(rest.subrange(k, k + pat.len()) =~= s.subrange(cur + k, cur + k + pat.len()));
        }
    }
}

} // verus!
