//! Text primitives for sentence parsing: whitespace trimming, splitting on
//! separator characters, and unsigned-number parsing, all specified over
//! character sequences.

use vstd::prelude::*;
use vstd::string::StrSliceExecFns;

verus! {

/// Whitespace as it appears around sentences on the wire: space, tab,
/// carriage return, line feed.
pub open spec fn spec_is_ws(c: char) -> bool {
    c == ' ' || c == '\t' || c == '\r' || c == '\n'
}

fn is_ws(c: char) -> (r: bool)
    ensures
        r == spec_is_ws(c),
{
    c == ' ' || c == '\t' || c == '\r' || c == '\n'
}

/// A sequence with its leading whitespace removed.
pub open spec fn spec_trim_front(s: Seq<char>) -> Seq<char>
    decreases s.len(),
{
    if s.len() > 0 && spec_is_ws(s[0]) {
        spec_trim_front(s.drop_first())
    } else {
        s
    }
}

/// A sequence with its trailing whitespace removed.
pub open spec fn spec_trim_back(s: Seq<char>) -> Seq<char>
    decreases s.len(),
{
    if s.len() > 0 && spec_is_ws(s.last()) {
        spec_trim_back(s.drop_last())
    } else {
        s
    }
}

/// A sequence with whitespace removed from both ends.
pub open spec fn spec_trimmed(s: Seq<char>) -> Seq<char> {
    spec_trim_back(spec_trim_front(s))
}

proof fn lemma_trim_front_at(s: Seq<char>, a: int)
    requires
        0 <= a <= s.len(),
        forall|i: int| 0 <= i < a ==> spec_is_ws(#[trigger] s[i]),
        a < s.len() ==> !spec_is_ws(s[a]),
    ensures
        spec_trim_front(s) == s.subrange(a, s.len() as int),
    decreases a,
{
    if a == 0 {
        assert(spec_trim_front(s) =~= s.subrange(0, s.len() as int));
    } else {
        let d = s.drop_first();
        assert(d =~= s.subrange(1, s.len() as int));
        lemma_trim_front_at(d, a - 1);
        assert(d.subrange(a - 1, d.len() as int) =~= s.subrange(a, s.len() as int));
    }
}

proof fn lemma_trim_back_at(s: Seq<char>, b: int)
    requires
        0 <= b <= s.len(),
        forall|i: int| b <= i < s.len() ==> spec_is_ws(#[trigger] s[i]),
        b > 0 ==> !spec_is_ws(s[b - 1]),
    ensures
        spec_trim_back(s) == s.subrange(0, b),
    decreases s.len() - b,
{
    if b == s.len() {
        assert(spec_trim_back(s) =~= s.subrange(0, b));
    } else {
        let d = s.drop_last();
        assert(d =~= s.subrange(0, s.len() - 1));
        lemma_trim_back_at(d, b);
        assert(d.subrange(0, b) =~= s.subrange(0, b));
    }
}

/// The characters of a string, one slot each.
pub fn str_to_chars(s: &str) -> (out: Vec<char>)
    ensures
        out@ == s@,
{
    let n: usize = s.unicode_len();
    let mut out: Vec<char> = Vec::new();
    let mut i: usize = 0;
    while i < n
        invariant
            i <= n,
            n == s@.len(),
            out@ == s@.subrange(0, i as int),
        decreases n - i,
    {
        out.push(s.get_char(i));
        i = i + 1;
        proof {
            assert(s@.subrange(0, i as int) =~= s@.subrange(0, i - 1).push(s@[i - 1]));
        }
    }
    proof {
        assert(s@.subrange(0, n as int) =~= s@);
    }
    out
}

/// Characters of a string with surrounding whitespace dropped.
pub fn trimmed_chars(s: &str) -> (out: Vec<char>)
    ensures
        out@ == spec_trimmed(s@),
{
    let chars: Vec<char> = str_to_chars(s);
    let n: usize = chars.len();
    let mut a: usize = 0;
    while a < n && is_ws(chars[a])
        invariant
            a <= n,
            n == chars@.len(),
            forall|i: int| 0 <= i < a ==> spec_is_ws(#[trigger] chars@[i]),
        decreases n - a,
    {
        a = a + 1;
    }
    let mut b: usize = n;
    while b > a && is_ws(chars[b - 1])
        invariant
            a <= b <= n,
            n == chars@.len(),
            forall|i: int| 0 <= i < a ==> spec_is_ws(#[trigger] chars@[i]),
            forall|i: int| b <= i < n ==> spec_is_ws(#[trigger] chars@[i]),
        decreases b,
    {
        b = b - 1;
    }
    let mut out: Vec<char> = Vec::new();
    let mut k: usize = a;
    while k < b
        invariant
            a <= k <= b <= n,
            n == chars@.len(),
            out@ == chars@.subrange(a as int, k as int),
        decreases b - k,
    {
        out.push(chars[k]);
        k = k + 1;
        proof {
            assert(chars@.subrange(a as int, k as int)
                =~= chars@.subrange(a as int, k - 1).push(chars@[k - 1]));
        }
    }
    proof {
        let front = spec_trim_front(chars@);
        lemma_trim_front_at(chars@, a as int);
        assert(front == chars@.subrange(a as int, n as int));
        if b == a {
            // everything after the leading whitespace is whitespace too
            lemma_trim_back_at(front, 0);
            assert(out@ =~= front.subrange(0, 0));
        } else {
            assert(!spec_is_ws(chars@[b - 1]));
            lemma_trim_back_at(front, b - a);
            assert(spec_trim_back(front) == front.subrange(0, b - a));
            assert(front.subrange(0, b - a) =~= chars@.subrange(a as int, b as int));
            assert(out@ =~= chars@.subrange(a as int, b as int));
        }
    }
    out
}

/// Whether `c` separates fields: a comma always, an asterisk (the checksum
/// delimiter) only when `star` is set.
pub open spec fn spec_is_sep(c: char, star: bool) -> bool {
    c == ',' || (star && c == '*')
}

/// The fields of `s`, split at every separator: one more field than there
/// are separators, in order, separators dropped.
pub open spec fn spec_split(s: Seq<char>, star: bool) -> Seq<Seq<char>>
    decreases s.len(),
{
    if s.len() == 0 {
        seq![Seq::<char>::empty()]
    } else {
        let prev = spec_split(s.drop_last(), star);
        if spec_is_sep(s.last(), star) {
            prev.push(Seq::empty())
        } else {
            prev.update(prev.len() - 1, prev.last().push(s.last()))
        }
    }
}

/// Splits a character sequence at separators: commas, and asterisks too
/// when `star` is set.
pub fn split_fields(chars: &Vec<char>, star: bool) -> (toks: Vec<Vec<char>>)
    ensures
        toks.deep_view() == spec_split(chars@, star),
        toks@.len() >= 1,
{
    let n: usize = chars.len();
    let mut toks: Vec<Vec<char>> = Vec::new();
    toks.push(Vec::new());
    proof {
        assert(toks.deep_view() =~~= spec_split(chars@.subrange(0, 0), star));
    }
    let mut i: usize = 0;
    while i < n
        invariant
            i <= n,
            n == chars@.len(),
            toks@.len() >= 1,
            toks.deep_view() == spec_split(chars@.subrange(0, i as int), star),
        decreases n - i,
    {
        let ghost pre = toks.deep_view();
        let c: char = chars[i];
        if c == ',' || (star && c == '*') {
            toks.push(Vec::new());
            proof {
                assert(toks.deep_view() =~~= pre.push(Seq::empty()));
            }
        } else {
            let mut last_tok: Vec<char> = toks.pop().unwrap();
            last_tok.push(c);
            toks.push(last_tok);
            proof {
                assert(toks.deep_view() =~~= pre.update(
                    pre.len() - 1,
                    pre.last().push(chars@[i as int]),
                ));
            }
        }
        i = i + 1;
        proof {
            let cur = chars@.subrange(0, i as int);
            assert(cur.drop_last() =~= chars@.subrange(0, i - 1));
            assert(cur.last() == chars@[i - 1]);
            assert(toks.deep_view() == spec_split(cur, star));
        }
    }
    proof {
        assert(chars@.subrange(0, n as int) =~= chars@);
    }
    toks
}

/// A decimal digit.
pub open spec fn spec_is_digit(c: char) -> bool {
    48 <= c as u32 <= 57
}

/// Whether a field is a well-formed unsigned number: nonempty, digits only.
pub open spec fn spec_all_digits(s: Seq<char>) -> bool {
    s.len() > 0 && forall|i: int| 0 <= i < s.len() ==> spec_is_digit(#[trigger] s[i])
}

/// Numeric value of a digit string, most significant digit first.
pub open spec fn spec_digits_val(s: Seq<char>) -> int
    decreases s.len(),
{
    if s.len() == 0 {
        0
    } else {
        spec_digits_val(s.drop_last()) * 10 + (s.last() as u32 - 48)
    }
}

/// What parsing a field as an unsigned 32-bit number yields: the numeric
/// value where the field is all digits and the value fits, nothing
/// otherwise.
pub open spec fn spec_parse_u32(s: Seq<char>) -> Option<u32> {
    if spec_all_digits(s) && spec_digits_val(s) <= u32::MAX {
        Some(spec_digits_val(s) as u32)
    } else {
        None
    }
}

proof fn lemma_digits_val_nonneg(s: Seq<char>)
    requires
        forall|i: int| 0 <= i < s.len() ==> spec_is_digit(#[trigger] s[i]),
    ensures
        spec_digits_val(s) >= 0,
    decreases s.len(),
{
    if s.len() > 0 {
        lemma_digits_val_nonneg(s.drop_last());
    }
}

/// Appending digits never shrinks the value: the value of a digit string is
/// at least the value of any of its prefixes from position `k` on, provided
/// the suffix holds digits only and the prefix value is nonnegative.
proof fn lemma_digits_val_monotone(s: Seq<char>, k: int)
    requires
        0 <= k <= s.len(),
        forall|i: int| k <= i < s.len() ==> spec_is_digit(#[trigger] s[i]),
        spec_digits_val(s.take(k)) >= 0,
    ensures
        spec_digits_val(s) >= spec_digits_val(s.take(k)),
    decreases s.len() - k,
{
    if k < s.len() {
        let d = s.drop_last();
        assert(d.take(k) =~= s.take(k));
        lemma_digits_val_monotone(d, k);
        assert(spec_digits_val(d) >= spec_digits_val(d.take(k)));
        assert(spec_digits_val(s) == spec_digits_val(d) * 10 + (s.last() as u32 - 48));
    } else {
        assert(s.take(k) =~= s);
    }
}

/// A two-digit string names a number below one hundred.
pub proof fn lemma_two_digits_small(s: Seq<char>)
    requires
        s.len() == 2,
        forall|i: int| 0 <= i < s.len() ==> spec_is_digit(#[trigger] s[i]),
    ensures
        0 <= spec_digits_val(s) <= 99,
{
    let d = s.drop_last();
    assert(d.len() == 1);
    assert(d[0] == s[0]);
    assert(spec_digits_val(d.drop_last()) == 0);
    assert(spec_digits_val(d) == d.last() as u32 - 48);
    assert(spec_digits_val(s) == spec_digits_val(d) * 10 + (s.last() as u32 - 48));
}

/// Parses a field as an unsigned 32-bit number: succeeds exactly on
/// nonempty all-digit fields whose value fits.
pub fn parse_u32_chars(tok: &Vec<char>) -> (r: Option<u32>)
    ensures
        r == spec_parse_u32(tok@),
{
    let n: usize = tok.len();
    if n == 0 {
        return None;
    }
    let mut acc: u64 = 0;
    let mut i: usize = 0;
    while i < n
        invariant
            i <= n,
            n == tok@.len(),
            n > 0,
            acc <= u32::MAX,
            forall|q: int| 0 <= q < i ==> spec_is_digit(#[trigger] tok@[q]),
            acc as int == spec_digits_val(tok@.take(i as int)),
        decreases n - i,
    {
        let c: char = tok[i];
        let code: u32 = c as u32;
        if code < 48 || code > 57 {
            return None;
        }
        let d: u64 = (code - 48) as u64;
        acc = acc * 10 + d;
        i = i + 1;
        proof {
            let pre = tok@.take(i as int);
            assert(pre.drop_last() =~= tok@.take(i - 1));
            assert(pre.last() == tok@[i - 1]);
            assert(acc as int == spec_digits_val(pre));
        }
        if acc > u32::MAX as u64 {
            proof {
                lemma_digits_val_nonneg(tok@.take(i as int));
                if spec_all_digits(tok@) {
                    lemma_digits_val_monotone(tok@, i as int);
                    assert(spec_digits_val(tok@) > u32::MAX);
                }
            }
            return None;
        }
    }
    proof {
        assert(tok@.take(n as int) =~= tok@);
        assert(spec_all_digits(tok@));
    }
    Some(acc as u32)
}

/// Copies `chars[from..to]` into a fresh vector.
pub fn subchars(chars: &Vec<char>, from: usize, to: usize) -> (out: Vec<char>)
    requires
        from <= to <= chars@.len(),
    ensures
        out@ == chars@.subrange(from as int, to as int),
{
    let mut out: Vec<char> = Vec::new();
    let mut k: usize = from;
    while k < to
        invariant
            from <= k <= to <= chars@.len(),
            out@ == chars@.subrange(from as int, k as int),
        decreases to - k,
    {
        out.push(chars[k]);
        k = k + 1;
        proof {
            assert(chars@.subrange(from as int, k as int)
                =~= chars@.subrange(from as int, k - 1).push(chars@[k - 1]));
        }
    }
    out
}

} // verus!
