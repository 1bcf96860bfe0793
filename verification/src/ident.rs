//! Identifier parsing: entities in a trace are named `namespace#ordinal`.
//!
//! `parse_id` splits an identifier on the `#` delimiter and reads the
//! ordinal as a decimal number, defaulting to 0 when the ordinal segment is
//! absent or not a valid number. It never fails.

use vstd::prelude::*;

verus! {

/// One entity identifier, with a reuse counter disambiguating ids that the
/// solver reuses across scope push/pop.
#[derive(Debug, Clone, PartialEq, Eq, Hash)]
pub struct Ident {
    pub namespace: String,
    pub num: usize,
    pub reuse_num: usize,
}

/// True when `c` is an ascii decimal digit.
pub open spec fn is_digit(c: char) -> bool {
    '0' <= c && c <= '9'
}

/// The numeric value of one ascii decimal digit.
pub open spec fn digit_val(c: char) -> int {
    c as int - '0' as int
}

/// The value of a sequence of decimal digits, most significant first.
pub open spec fn digits_val(s: Seq<char>) -> int
    decreases s.len(),
{
    if s.len() == 0 {
        0
    } else {
        digits_val(s.drop_last()) * 10 + digit_val(s.last())
    }
}

/// The digit sequence of a number literal: an optional leading `+` sign is
/// not part of the digits.
pub open spec fn literal_digits(s: Seq<char>) -> Seq<char> {
    if s.len() > 0 && s[0] == '+' {
        s.skip(1)
    } else {
        s
    }
}

/// True when `s` is a decimal literal that `usize` accepts: an optional
/// leading `+`, then at least one digit, with a value that fits.
pub open spec fn is_usize_literal(s: Seq<char>) -> bool {
    let ds = literal_digits(s);
    &&& ds.len() > 0
    &&& forall|i: int| 0 <= i < ds.len() ==> is_digit(#[trigger] ds[i])
    &&& digits_val(ds) <= usize::MAX
}

/// The ordinal value a segment denotes: its decimal value when it is a
/// valid `usize` literal, and 0 otherwise.
pub open spec fn segment_ordinal(s: Seq<char>) -> int {
    if is_usize_literal(s) {
        digits_val(literal_digits(s))
    } else {
        0
    }
}

/// The position of the first occurrence of `c` in `s`, or `s.len()` if `c`
/// does not occur.
pub open spec fn first_index_of(s: Seq<char>, c: char) -> int
    decreases s.len(),
{
    if s.len() == 0 {
        0
    } else if s[0] == c {
        0
    } else {
        1 + first_index_of(s.skip(1), c)
    }
}

pub proof fn lemma_first_index_of(s: Seq<char>, c: char)
    ensures
        0 <= first_index_of(s, c) <= s.len(),
        forall|i: int| 0 <= i < first_index_of(s, c) ==> s[i] != c,
        first_index_of(s, c) < s.len() ==> s[first_index_of(s, c)] == c,
    decreases s.len(),
{
    if s.len() != 0 && s[0] != c {
        lemma_first_index_of(s.skip(1), c);
        assert forall|i: int| 0 <= i < first_index_of(s, c) implies s[i] != c by {
            if i > 0 {
                assert(s.skip(1)[i - 1] == s[i]);
            }
        }
    }
}

/// A first-occurrence index established by forward scan agrees with
/// `first_index_of`.
pub proof fn lemma_first_index_agrees(s: Seq<char>, c: char, i: int)
    requires
        0 <= i <= s.len(),
        forall|j: int| 0 <= j < i ==> s[j] != c,
        i < s.len() ==> s[i] == c,
    ensures
        first_index_of(s, c) == i,
    decreases s.len(),
{
    if s.len() != 0 && s[0] != c {
        assert forall|j: int| 0 <= j < i - 1 implies s.skip(1)[j] != c by {
            assert(s.skip(1)[j] == s[j + 1]);
        }
        if i - 1 < s.len() - 1 {
            assert(s.skip(1)[i - 1] == s[i]);
        }
        lemma_first_index_agrees(s.skip(1), c, i - 1);
    }
}

/// The namespace part of an identifier: everything before the first `#`.
pub open spec fn id_namespace(s: Seq<char>) -> Seq<char> {
    s.take(first_index_of(s, '#'))
}

/// The ordinal segment of an identifier: everything between the first `#`
/// and the following `#` or the end; empty when there is no `#` at all.
pub open spec fn id_ordinal_segment(s: Seq<char>) -> Seq<char> {
    let i = first_index_of(s, '#');
    if i == s.len() {
        Seq::empty()
    } else {
        let rest = s.skip(i + 1);
        rest.take(first_index_of(rest, '#'))
    }
}

/// The ordinal of an identifier: the decimal value of its ordinal segment,
/// or 0 when that segment is absent or not a valid number.
pub open spec fn id_ordinal(s: Seq<char>) -> int {
    if first_index_of(s, '#') == s.len() {
        0
    } else {
        segment_ordinal(id_ordinal_segment(s))
    }
}

/// The store key an identifier denotes: namespace and ordinal.
pub open spec fn id_key(s: Seq<char>) -> (Seq<char>, int) {
    (id_namespace(s), id_ordinal(s))
}

/// Scans for the first occurrence of `c` at or after position `from`.
pub(crate) fn find_char_from(s: &str, c: char, from: usize) -> (i: usize)
    requires
        from <= s@.len(),
    ensures
        from <= i <= s@.len(),
        forall|j: int| from <= j < i ==> s@[j] != c,
        i < s@.len() ==> s@[i as int] == c,
{
    let n = s.unicode_len();
    let mut i = from;
    while i < n
        invariant
            from <= i <= n,
            n == s@.len(),
            forall|j: int| from <= j < i ==> s@[j] != c,
        decreases n - i,
    {
        if s.get_char(i) == c {
            return i;
        }
        i += 1;
    }
    i
}

/// Splits an identifier into namespace and ordinal number.
///
/// The namespace is everything before the first `#`; the ordinal is the
/// decimal value of the segment after it, defaulting to 0 when the segment
/// is missing or not a valid number. This function never fails.
pub fn parse_id(s: &str) -> (r: (String, usize))
    ensures
        r.0@ == id_namespace(s@),
        r.1 as int == id_ordinal(s@),
{
    let n = s.unicode_len();
    let hash = find_char_from(s, '#', 0);
    proof {
        lemma_first_index_agrees(s@, '#', hash as int);
        assert(s@.subrange(0, hash as int) =~= id_namespace(s@));
    }
    let ns = s.substring_char(0, hash).to_owned();
    if hash == n {
        (ns, 0)
    } else {
        let seg_end = find_char_from(s, '#', hash + 1);
        let ghost rest = s@.skip(hash + 1);
        proof {
            assert forall|j: int| 0 <= j < seg_end - hash - 1 implies rest[j] != '#' by {
                assert(rest[j] == s@[j + hash + 1]);
            }
            if seg_end < n {
                assert(rest[seg_end - hash - 1] == s@[seg_end as int]);
            }
            lemma_first_index_agrees(rest, '#', seg_end - hash - 1);
            assert(s@.subrange(hash + 1, seg_end as int) =~= rest.take(seg_end - hash - 1));
            assert(s@.subrange(hash + 1, seg_end as int) =~= id_ordinal_segment(s@));
        }
        let seg = s.substring_char(hash + 1, seg_end);
        let ord = parse_usize_or_zero(seg);
        (ns, ord)
    }
}

/// Reads a decimal `usize` from `s`, returning 0 when `s` is not a valid
/// `usize` literal (missing digits, a stray character, or overflow).
pub fn parse_usize_or_zero(s: &str) -> (r: usize)
    ensures
        r as int == segment_ordinal(s@),
{
    let n = s.unicode_len();
    let start: usize = if n > 0 && s.get_char(0) == '+' {
        1
    } else {
        0
    };
    let ghost ds = literal_digits(s@);
    proof {
        if start == 1 {
            assert(ds =~= s@.skip(1));
        } else {
            assert(ds =~= s@.skip(0));
            assert(ds =~= s@);
        }
    }
    if start == n {
        // a bare sign or an empty segment has no digits
        return 0;
    }
    let mut val: usize = 0;
    let mut i: usize = start;
    while i < n
        invariant
            start <= i <= n,
            start == 0 || start == 1,
            n == s@.len(),
            start < n,
            ds == literal_digits(s@),
            ds =~= s@.skip(start as int),
            forall|j: int| 0 <= j < i - start ==> is_digit(#[trigger] ds[j]),
            val as int == digits_val(ds.take(i - start)),
        decreases n - i,
    {
        let c = s.get_char(i);
        proof {
            assert(ds[i - start] == s@[i as int]);
        }
        if c < '0' || c > '9' {
            // a stray character: not a number, so the value defaults to 0
            return 0;
        }
        let d: usize = ((c as u32) - ('0' as u32)) as usize;
        proof {
            assert(ds.take(i + 1 - start).drop_last() =~= ds.take(i - start));
            assert(ds.take(i + 1 - start).last() == ds[i - start]);
        }
        if val > usize::MAX / 10 || val * 10 > usize::MAX - d {
            proof {
                if is_usize_literal(s@) {
                    lemma_digits_val_monotone(ds, i + 1 - start);
                }
            }
            // the value no longer fits: treat as not a number
            return 0;
        }
        val = val * 10 + d;
        i += 1;
    }
    proof {
        assert(ds.take(n - start) =~= ds);
        assert(is_usize_literal(s@));
    }
    val
}

/// Appending further digits to a digit string never shrinks its value, so a
/// prefix whose value is already too large rules the whole string out.
pub proof fn lemma_digits_val_monotone(s: Seq<char>, k: int)
    requires
        0 <= k <= s.len(),
        forall|j: int| 0 <= j < s.len() ==> is_digit(#[trigger] s[j]),
    ensures
        digits_val(s.take(k)) <= digits_val(s),
        digits_val(s) >= 0,
    decreases s.len(),
{
    if s.len() == 0 {
        assert(s.take(k) =~= s);
    } else if k == s.len() {
        assert(s.take(k) =~= s);
        lemma_digits_val_monotone(s.drop_last(), (s.len() - 1) as int);
    } else {
        lemma_digits_val_monotone(s.drop_last(), k);
        assert(s.drop_last().take(k) =~= s.take(k));
    }
}

/// Resolves an identifier that may be reused across scope push/pop: with
/// reuse numbering enabled, each sighting of the same identifier gets the
/// next reuse count, starting at 1; disabled, the count is always 0. The
/// reuse map records the latest count per identifier.
pub fn get_ident_new(
    reuse_map: &mut crate::tables::StrMap<usize>,
    id: &str,
    do_reuses: bool,
) -> (r: Ident)
    requires
        old(reuse_map).wf(),
        old(reuse_map)@.contains_key(id@) ==> old(reuse_map)@[id@] < usize::MAX,
    ensures
        final(reuse_map).wf(),
        r.namespace@ == id_namespace(id@),
        r.num as int == id_ordinal(id@),
        ({
            if !do_reuses {
                &&& r.reuse_num == 0
                &&& *final(reuse_map) == *old(reuse_map)
            } else {
                &&& r.reuse_num == if old(reuse_map)@.contains_key(id@) {
                    old(reuse_map)@[id@] + 1
                } else {
                    1
                }
                &&& final(reuse_map)@ == old(reuse_map)@.insert(id@, r.reuse_num)
            }
        }),
{
    let (namespace, num) = parse_id(id);
    let reuse_num: usize = if !do_reuses {
        0
    } else {
        let mut key = String::new();
        key.append(id);
        let next: usize = match reuse_map.get(&key) {
            Some(n) => *n + 1,
            None => 1,
        };
        reuse_map.insert(key, next);
        next
    };
    Ident { namespace, num, reuse_num }
}

} // verus!
