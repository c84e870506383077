//! Character-level helpers shared by the two parsers: decimal digits,
//! fail-soft numeric parsing, locating characters, and splitting on a
//! separator.

use vstd::prelude::*;

verus! {

/// A decimal digit `'0'..='9'`.
pub open spec fn is_digit(c: char) -> bool {
    '0' <= c && c <= '9'
}

/// The numeric value of a decimal digit.
pub open spec fn digit_val(c: char) -> int {
    c as int - '0' as int
}

/// Every character of `s` is a decimal digit.
pub open spec fn all_digits(s: Seq<char>) -> bool {
    forall|i: int| 0 <= i < s.len() ==> is_digit(#[trigger] s[i])
}

/// The value of a digit string read most-significant first.
pub open spec fn digits_val(s: Seq<char>) -> int
    decreases s.len(),
{
    if s.len() == 0 {
        0
    } else {
        digits_val(s.drop_last()) * 10 + digit_val(s.last())
    }
}

/// The fail-soft reading of `s` as an unsigned integer no larger than
/// `limit`: the digit value when `s` is a non-empty run of decimal digits
/// that fits, and `0` otherwise.
pub open spec fn parsed_or_zero(s: Seq<char>, limit: int) -> int {
    if s.len() > 0 && all_digits(s) && digits_val(s) <= limit {
        digits_val(s)
    } else {
        0
    }
}

/// The index of the first occurrence of `c` in `s` (meaningful only when
/// `s` contains `c`).
pub open spec fn first_pos(s: Seq<char>, c: char) -> int
    decreases s.len(),
{
    if s.len() == 0 {
        0
    } else if s[0] == c {
        0
    } else {
        1 + first_pos(s.drop_first(), c)
    }
}

/// When `s` contains `c`, `first_pos` really is the first occurrence.
pub proof fn lemma_first_pos(s: Seq<char>, c: char)
    requires
        s.contains(c),
    ensures
        0 <= first_pos(s, c) < s.len(),
        s[first_pos(s, c)] == c,
        forall|j: int| 0 <= j < first_pos(s, c) ==> s[j] != c,
    decreases s.len(),
{
    if s[0] == c {
    } else {
        let sub = s.drop_first();
        let k = choose|k: int| 0 <= k < s.len() && s[k] == c;
        assert(sub[k - 1] == c);
        lemma_first_pos(sub, c);
        assert forall|j: int| 0 <= j < first_pos(s, c) implies s[j] != c by {
            if j > 0 {
                assert(sub[j - 1] != c);
            }
        }
    }
}

/// A digit string is worth no less than any of its prefixes.
pub proof fn lemma_digits_val_prefix(s: Seq<char>, k: int)
    requires
        all_digits(s),
        0 <= k <= s.len(),
    ensures
        0 <= digits_val(s.take(k)) <= digits_val(s),
    decreases s.len() - k,
{
    lemma_digits_val_nonneg(s.take(k));
    if k == s.len() {
        assert(s.take(k) =~= s);
    } else {
        let t = s.take(k + 1);
        assert(t.drop_last() =~= s.take(k));
        lemma_digits_val_nonneg(s.take(k));
        assert(digits_val(t) == digits_val(s.take(k)) * 10 + digit_val(t.last()));
        assert(digits_val(s.take(k)) * 10 >= digits_val(s.take(k))) by {
            lemma_digits_val_nonneg(s.take(k));
            assert(digits_val(s.take(k)) >= 0);
        }
        lemma_digits_val_prefix(s, k + 1);
    }
}

/// A digit string never reads as a negative value.
pub proof fn lemma_digits_val_nonneg(s: Seq<char>)
    requires
        all_digits(s),
    ensures
        digits_val(s) >= 0,
    decreases s.len(),
{
    if s.len() > 0 {
        assert(s.drop_last() =~= s.take(s.len() - 1));
        lemma_digits_val_nonneg(s.drop_last());
    }
}

/// A fail-soft reading is never negative.
pub proof fn lemma_parsed_nonneg(s: Seq<char>, limit: int)
    ensures
        parsed_or_zero(s, limit) >= 0,
{
    if s.len() > 0 && all_digits(s) && digits_val(s) <= limit {
        lemma_digits_val_nonneg(s);
    }
}

/// Whether `s` contains the character `c`.
pub fn contains_char(s: &str, c: char) -> (r: bool)
    ensures
        r == s@.contains(c),
{
    let len: usize = s.unicode_len();
    let mut i: usize = 0;
    while i < len
        invariant
            i <= len,
            len == s@.len(),
            forall|j: int| 0 <= j < i ==> s@[j] != c,
        decreases len - i,
    {
        if s.get_char(i) == c {
            assert(s@.contains(c));
            return true;
        }
        i += 1;
    }
    assert(!s@.contains(c));
    false
}

/// The index of the first occurrence of `c` in `s`, if any.
pub fn find_char(s: &str, c: char) -> (r: Option<usize>)
    ensures
        r is Some <==> s@.contains(c),
        r is Some ==> r->0 == first_pos(s@, c) && r->0 < s@.len(),
{
    let len: usize = s.unicode_len();
    let mut i: usize = 0;
    while i < len
        invariant
            i <= len,
            len == s@.len(),
            forall|j: int| 0 <= j < i ==> s@[j] != c,
        decreases len - i,
    {
        if s.get_char(i) == c {
            proof {
                assert(s@.contains(c));
                lemma_first_pos(s@, c);
                assert(first_pos(s@, c) >= i);
                assert(first_pos(s@, c) <= i);
            }
            return Some(i);
        }
        i += 1;
    }
    assert(!s@.contains(c));
    None
}

/// Reads the first `end` characters of `s` as a `u64`, fail-soft: anything
/// but a non-empty run of digits whose value fits yields `0`.
pub fn parse_chars_u64(s: &str, end: usize) -> (r: u64)
    requires
        end <= s@.len(),
    ensures
        r == parsed_or_zero(s@.take(end as int), u64::MAX as int),
{
    let ghost pre = s@.take(end as int);
    if end == 0 {
        return 0;
    }
    let mut acc: u64 = 0;
    let mut i: usize = 0;
    while i < end
        invariant
            i <= end,
            end <= s@.len(),
            pre == s@.take(end as int),
            all_digits(pre.take(i as int)),
            acc == digits_val(pre.take(i as int)),
        decreases end - i,
    {
        let c = s.get_char(i);
        proof {
            assert(pre[i as int] == s@[i as int]);
        }
        if c < '0' || c > '9' {
            proof {
                assert(!is_digit(pre[i as int]));
                assert(!all_digits(pre));
            }
            return 0;
        }
        let d: u64 = (c as u32 as u64) - 48;
        proof {
            assert(pre.take(i + 1).drop_last() =~= pre.take(i as int));
            assert(d == digit_val(pre[i as int]));
        }
        let stepped: Option<u64> = acc.checked_mul(10);
        match stepped {
            Some(ten) => {
                match ten.checked_add(d) {
                    Some(next) => {
                        acc = next;
                    }
                    None => {
                        proof {
                            lemma_overflow_stays(pre, i as int);
                        }
                        return 0;
                    }
                }
            }
            None => {
                proof {
                    lemma_overflow_stays(pre, i as int);
                }
                return 0;
            }
        }
        i += 1;
    }
    proof {
        assert(pre.take(end as int) =~= pre);
    }
    acc
}

/// Once a digit prefix has outgrown `u64`, the whole string reads as `0`.
proof fn lemma_overflow_stays(pre: Seq<char>, i: int)
    requires
        0 <= i < pre.len(),
        all_digits(pre.take(i)),
        is_digit(pre[i]),
        digits_val(pre.take(i + 1)) > u64::MAX,
    ensures
        parsed_or_zero(pre, u64::MAX as int) == 0,
{
    if all_digits(pre) {
        lemma_digits_val_prefix(pre, i + 1);
    }
}

/// Reads all of `s` as a `u32`, fail-soft.
pub fn parse_chars_u32(s: &str) -> (r: u32)
    ensures
        r == parsed_or_zero(s@, u32::MAX as int),
{
    let len: usize = s.unicode_len();
    let v: u64 = parse_chars_u64(s, len);
    proof {
        assert(s@.take(len as int) =~= s@);
    }
    if v <= 0xffff_ffff {
        v as u32
    } else {
        0
    }
}

/// The pieces of `s` cut at every occurrence of `sep`; the separators
/// themselves are dropped, and `n` separators yield `n + 1` pieces.
pub open spec fn split_on(s: Seq<char>, sep: char) -> Seq<Seq<char>>
    decreases s.len(),
{
    if s.len() == 0 {
        seq![Seq::empty()]
    } else if s[0] == sep {
        seq![Seq::<char>::empty()] + split_on(s.drop_first(), sep)
    } else {
        let rest = split_on(s.drop_first(), sep);
        seq![seq![s[0]] + rest[0]] + rest.skip(1)
    }
}

/// A split always yields at least one piece.
pub proof fn lemma_split_on_len(s: Seq<char>, sep: char)
    ensures
        split_on(s, sep).len() >= 1,
    decreases s.len(),
{
    if s.len() > 0 && s[0] != sep {
        lemma_split_on_len(s.drop_first(), sep);
    }
}

/// Splitting a separator-free string yields the string alone.
pub proof fn lemma_split_on_whole(s: Seq<char>, sep: char)
    requires
        !s.contains(sep),
    ensures
        split_on(s, sep) =~= seq![s],
    decreases s.len(),
{
    if s.len() > 0 {
        assert(s[0] != sep);
        let sub = s.drop_first();
        assert forall|j: int| 0 <= j < sub.len() implies sub[j] != sep by {
            assert(s[j + 1] != sep);
        }
        assert(!sub.contains(sep));
        lemma_split_on_whole(sub, sep);
        let rest = split_on(sub, sep);
        assert(seq![s[0]] + rest[0] =~= s);
        assert(rest.skip(1) =~= Seq::<Seq<char>>::empty());
        assert(seq![seq![s[0]] + rest[0]] + rest.skip(1) =~= seq![s]);
        assert(split_on(s, sep) == seq![seq![s[0]] + rest[0]] + rest.skip(1));
    } else {
        assert(s =~= Seq::<char>::empty());
    }
}

/// Cutting off the piece before the first separator leaves the split of
/// what follows that separator.
pub proof fn lemma_split_on_step(s: Seq<char>, sep: char)
    requires
        s.contains(sep),
    ensures
        split_on(s, sep) =~= seq![s.take(first_pos(s, sep))] + split_on(
            s.skip(first_pos(s, sep) + 1),
            sep,
        ),
    decreases s.len(),
{
    lemma_first_pos(s, sep);
    let p = first_pos(s, sep);
    if s[0] == sep {
        assert(s.take(0) =~= Seq::<char>::empty());
        assert(s.skip(1) =~= s.drop_first());
    } else {
        let sub = s.drop_first();
        assert(sub[p - 1] == sep);
        lemma_split_on_step(sub, sep);
        lemma_first_pos(sub, sep);
        assert(first_pos(sub, sep) == p - 1) by {
            assert(sub[p - 1] == sep);
            assert(forall|j: int| 0 <= j < p - 1 ==> sub[j] != sep);
            if first_pos(sub, sep) < p - 1 {
                assert(sub[first_pos(sub, sep)] == sep);
            }
        }
        let rest = split_on(sub, sep);
        assert(rest =~= seq![sub.take(p - 1)] + split_on(sub.skip(p), sep));
        assert(seq![s[0]] + sub.take(p - 1) =~= s.take(p));
        assert(sub.skip(p) =~= s.skip(p + 1));
        assert(split_on(s, sep) =~= seq![seq![s[0]] + rest[0]] + rest.skip(1));
    }
}

/// Splits `s` at every occurrence of `sep`.
pub fn split_str(s: &str, sep: char) -> (r: Vec<String>)
    ensures
        r.deep_view() == split_on(s@, sep),
{
    let len: usize = s.unicode_len();
    let mut pieces: Vec<String> = Vec::new();
    let mut start: usize = 0;
    let mut i: usize = 0;
    proof {
        assert(s@.skip(0) =~= s@);
        assert(pieces.deep_view() =~= Seq::<Seq<char>>::empty());
        assert(split_on(s@, sep) =~= pieces.deep_view() + split_on(s@.skip(0), sep));
    }
    while i < len
        invariant
            start <= i <= len,
            len == s@.len(),
            forall|j: int| start <= j < i ==> s@[j] != sep,
            split_on(s@, sep) =~= pieces.deep_view() + split_on(s@.skip(start as int), sep),
            pieces.deep_view().len() == pieces.len(),
        decreases len - i,
    {
        if s.get_char(i) == sep {
            let piece = s.substring_char(start, i).to_owned();
            let ghost before = pieces.deep_view();
            proof {
                let tail = s@.skip(start as int);
                assert forall|j: int| 0 <= j < i - start implies tail[j] != sep by {
                    assert(tail[j] == s@[start + j]);
                }
                assert(tail[i - start] == sep);
                assert(tail.contains(sep));
                lemma_first_pos(tail, sep);
                assert(first_pos(tail, sep) == i - start) by {
                    if first_pos(tail, sep) < i - start {
                        assert(tail[first_pos(tail, sep)] == sep);
                    }
                }
                lemma_split_on_step(tail, sep);
                assert(tail.take(i - start) =~= s@.subrange(start as int, i as int));
                assert(tail.skip(i - start + 1) =~= s@.skip(i + 1));
            }
            pieces.push(piece);
            proof {
                assert(pieces.deep_view() =~= before + seq![piece@]);
            }
            start = i + 1;
        }
        i += 1;
    }
    let last = s.substring_char(start, len).to_owned();
    let ghost before = pieces.deep_view();
    proof {
        let tail = s@.skip(start as int);
        assert forall|j: int| 0 <= j < tail.len() implies tail[j] != sep by {
            assert(tail[j] == s@[start + j]);
        }
        assert(!tail.contains(sep));
        lemma_split_on_whole(tail, sep);
        assert(tail =~= s@.subrange(start as int, len as int));
    }
    pieces.push(last);
    proof {
        assert(pieces.deep_view() =~= before + seq![last@]);
        assert(pieces.deep_view() =~= split_on(s@, sep));
    }
    pieces
}

} // verus!
