//! Verified text primitives: ASCII case folding, case-insensitive
//! substring search and string comparison.  The locale markers this
//! crate matches against ("redance", "endrunde", ...) are all ASCII,
//! so folding the ASCII letters is exactly what case-insensitive
//! matching needs.

use vstd::prelude::*;

verus! {

/// ASCII lower-casing of a single character; other characters are
/// unchanged.
pub open spec fn lower_char(c: char) -> char {
    if 65 <= c as u32 && c as u32 <= 90 {
        (c as u32 + 32) as char
    } else {
        c
    }
}

/// ASCII lower-casing of a character sequence.
pub open spec fn lower(s: Seq<char>) -> Seq<char> {
    s.map_values(|c: char| lower_char(c))
}

/// The needle `n` occurs in `h` starting at position `i`.
pub open spec fn contains_at(h: Seq<char>, n: Seq<char>, i: int) -> bool {
    &&& 0 <= i
    &&& i + n.len() <= h.len()
    &&& h.subrange(i, i + n.len()) == n
}

/// The needle `n` occurs somewhere in `h`.
pub open spec fn contains_seq(h: Seq<char>, n: Seq<char>) -> bool {
    exists|i: int| contains_at(h, n, i)
}

/// ASCII lower-casing of a single character.
pub fn lower_char_exec(c: char) -> (r: char)
    ensures
        r == lower_char(c),
{
    let u = c as u32;
    if 65 <= u && u <= 90 {
        ((u + 32) as u8) as char
    } else {
        c
    }
}

/// Whether the lower-cased haystack carries `n` at position `i`.
fn match_at(h: &str, n: &str, i: usize) -> (r: bool)
    requires
        i + n@.len() <= h@.len(),
        h@.len() <= usize::MAX,
    ensures
        r == contains_at(lower(h@), n@, i as int),
{
    let nl = n.unicode_len();
    let mut j: usize = 0;
    while j < nl
        invariant
            j <= nl,
            nl == n@.len(),
            i + nl <= h@.len(),
            h@.len() <= usize::MAX,
            forall|k: int| 0 <= k < j ==> lower(h@)[i + k] == n@[k],
        decreases nl - j,
    {
        let hc = lower_char_exec(h.get_char(i + j));
        let nc = n.get_char(j);
        if hc != nc {
            assert(lower(h@)[i + j] != n@[j as int]);
            assert(!contains_at(lower(h@), n@, i as int)) by {
                if contains_at(lower(h@), n@, i as int) {
                    assert(lower(h@).subrange(i as int, i + n@.len())[j as int] == n@[j as int]);
                }
            }
            return false;
        }
        j += 1;
    }
    assert(contains_at(lower(h@), n@, i as int)) by {
        assert(lower(h@).subrange(i as int, i + n@.len()) =~= n@);
    }
    true
}

/// Whether the ASCII-lower-cased haystack contains the needle as a
/// substring; the needle is matched as written.
pub fn contains_lower(h: &str, n: &str) -> (r: bool)
    ensures
        r == contains_seq(lower(h@), n@),
{
    let hl = h.unicode_len();
    let nl = n.unicode_len();
    if nl > hl {
        assert(!contains_seq(lower(h@), n@)) by {
            if contains_seq(lower(h@), n@) {
                let i = choose|i: int| contains_at(lower(h@), n@, i);
            }
        }
        return false;
    }
    if nl == 0 {
        assert(contains_at(lower(h@), n@, 0)) by {
            assert(lower(h@).subrange(0, 0) =~= n@);
        }
        return true;
    }
    let mut i: usize = 0;
    while i <= hl - nl
        invariant
            1 <= nl <= hl,
            hl == h@.len(),
            nl == n@.len(),
            i <= hl - nl + 1,
            forall|k: int| 0 <= k < i ==> !contains_at(lower(h@), n@, k),
        decreases hl + 1 - i,
    {
        if match_at(h, n, i) {
            return true;
        }
        i += 1;
    }
    assert(!contains_seq(lower(h@), n@)) by {
        if contains_seq(lower(h@), n@) {
            let k = choose|k: int| contains_at(lower(h@), n@, k);
            assert(!contains_at(lower(h@), n@, k));
        }
    }
    false
}

/// Whether the ASCII-lower-cased haystack starts with the needle.
pub fn starts_with_lower(h: &str, n: &str) -> (r: bool)
    ensures
        r == contains_at(lower(h@), n@, 0),
{
    let hl = h.unicode_len();
    let nl = n.unicode_len();
    if nl > hl {
        return false;
    }
    match_at(h, n, 0)
}

/// Whether two strings are equal as character sequences.
pub fn str_eq(a: &str, b: &str) -> (r: bool)
    ensures
        r == (a@ == b@),
{
    let al = a.unicode_len();
    let bl = b.unicode_len();
    if al != bl {
        return false;
    }
    let mut i: usize = 0;
    while i < al
        invariant
            al == a@.len(),
            bl == b@.len(),
            al == bl,
            i <= al,
            forall|k: int| 0 <= k < i ==> a@[k] == b@[k],
        decreases al - i,
    {
        if a.get_char(i) != b.get_char(i) {
            assert(a@[i as int] != b@[i as int]);
            return false;
        }
        i += 1;
    }
    assert(a@ =~= b@);
    true
}

/// Whether the two strings are equal after ASCII lower-casing.
pub fn eq_ignore_case(a: &str, b: &str) -> (r: bool)
    ensures
        r == (lower(a@) == lower(b@)),
{
    let al = a.unicode_len();
    let bl = b.unicode_len();
    if al != bl {
        assert(lower(a@).len() != lower(b@).len());
        return false;
    }
    let mut i: usize = 0;
    while i < al
        invariant
            al == a@.len(),
            bl == b@.len(),
            al == bl,
            i <= al,
            forall|k: int| 0 <= k < i ==> lower(a@)[k] == lower(b@)[k],
        decreases al - i,
    {
        let ac = lower_char_exec(a.get_char(i));
        let bc = lower_char_exec(b.get_char(i));
        if ac != bc {
            assert(lower(a@)[i as int] != lower(b@)[i as int]);
            return false;
        }
        i += 1;
    }
    assert(lower(a@) =~= lower(b@));
    true
}


/// Whether `h` carries `n` at position `i`, compared exactly.
fn match_at_exact(h: &str, n: &str, i: usize) -> (r: bool)
    requires
        i + n@.len() <= h@.len(),
        h@.len() <= usize::MAX,
    ensures
        r == contains_at(h@, n@, i as int),
{
    let nl = n.unicode_len();
    let mut j: usize = 0;
    while j < nl
        invariant
            j <= nl,
            nl == n@.len(),
            i + nl <= h@.len(),
            h@.len() <= usize::MAX,
            forall|k: int| 0 <= k < j ==> h@[i + k] == n@[k],
        decreases nl - j,
    {
        let hc = h.get_char(i + j);
        let nc = n.get_char(j);
        if hc != nc {
            assert(!contains_at(h@, n@, i as int)) by {
                if contains_at(h@, n@, i as int) {
                    assert(h@.subrange(i as int, i + n@.len())[j as int] == n@[j as int]);
                }
            }
            return false;
        }
        j += 1;
    }
    assert(contains_at(h@, n@, i as int)) by {
        assert(h@.subrange(i as int, i + n@.len()) =~= n@);
    }
    true
}

/// Whether the haystack contains the needle as a substring, compared
/// exactly.
pub fn contains_str(h: &str, n: &str) -> (r: bool)
    ensures
        r == contains_seq(h@, n@),
{
    let hl = h.unicode_len();
    let nl = n.unicode_len();
    if nl > hl {
        assert(!contains_seq(h@, n@)) by {
            if contains_seq(h@, n@) {
                let i = choose|i: int| contains_at(h@, n@, i);
            }
        }
        return false;
    }
    if nl == 0 {
        assert(contains_at(h@, n@, 0)) by {
            assert(h@.subrange(0, 0) =~= n@);
        }
        return true;
    }
    let mut i: usize = 0;
    while i <= hl - nl
        invariant
            1 <= nl <= hl,
            hl == h@.len(),
            nl == n@.len(),
            i <= hl - nl + 1,
            forall|k: int| 0 <= k < i ==> !contains_at(h@, n@, k),
        decreases hl + 1 - i,
    {
        if match_at_exact(h, n, i) {
            return true;
        }
        i += 1;
    }
    assert(!contains_seq(h@, n@)) by {
        if contains_seq(h@, n@) {
            let k = choose|k: int| contains_at(h@, n@, k);
            assert(!contains_at(h@, n@, k));
        }
    }
    false
}

/// ASCII whitespace.
pub open spec fn is_space(c: char) -> bool {
    c == ' ' || c == '\t' || c == '\n' || c == '\r'
}

/// The sequence with leading ASCII whitespace removed.
pub open spec fn trim_front(s: Seq<char>) -> Seq<char>
    decreases s.len(),
{
    if s.len() == 0 {
        s
    } else if is_space(s[0]) {
        trim_front(s.drop_first())
    } else {
        s
    }
}

/// The sequence with trailing ASCII whitespace removed.
pub open spec fn trim_back(s: Seq<char>) -> Seq<char>
    decreases s.len(),
{
    if s.len() == 0 {
        s
    } else if is_space(s.last()) {
        trim_back(s.drop_last())
    } else {
        s
    }
}

/// The sequence with surrounding ASCII whitespace removed.
pub open spec fn trimmed(s: Seq<char>) -> Seq<char> {
    trim_back(trim_front(s))
}

/// ASCII whitespace.
fn is_space_exec(c: char) -> (r: bool)
    ensures
        r == is_space(c),
{
    c == ' ' || c == '\t' || c == '\n' || c == '\r'
}

/// Whether the string, with surrounding ASCII whitespace removed,
/// equals the needle.
pub fn trim_eq(s: &str, n: &str) -> (r: bool)
    ensures
        r == (trimmed(s@) == n@),
{
    let len = s.unicode_len();
    proof {
        assert(s@.skip(0) =~= s@);
    }
    let mut lo: usize = 0;
    while lo < len && is_space_exec(s.get_char(lo))
        invariant
            len == s@.len(),
            lo <= len,
            trim_front(s@) == trim_front(s@.skip(lo as int)),
            forall|k: int| 0 <= k < lo ==> is_space(s@[k]),
        decreases len - lo,
    {
        proof {
            assert(s@.skip(lo as int)[0] == s@[lo as int]);
            assert(s@.skip(lo as int).drop_first() =~= s@.skip(lo as int + 1));
        }
        lo += 1;
    }
    proof {
        if lo < len {
            assert(s@.skip(lo as int)[0] == s@[lo as int]);
        }
        assert(trim_front(s@) == s@.skip(lo as int)) by {
            if s@.skip(lo as int).len() == 0 {
            } else {
                assert(!is_space(s@.skip(lo as int)[0]));
            }
        }
    }
    proof {
        assert(s@.skip(lo as int).take(len - lo as int) =~= s@.skip(lo as int));
    }
    let mut hi: usize = len;
    while hi > lo && is_space_exec(s.get_char(hi - 1))
        invariant
            len == s@.len(),
            lo <= hi <= len,
            trim_front(s@) == s@.skip(lo as int),
            trim_back(s@.skip(lo as int)) == trim_back(s@.skip(lo as int).take(hi - lo as int)),
        decreases hi,
    {
        proof {
            let cur = s@.skip(lo as int).take(hi - lo as int);
            assert(cur.last() == s@[hi - 1]);
            assert(cur.drop_last() =~= s@.skip(lo as int).take(hi - 1 - lo as int));
        }
        hi -= 1;
    }
    proof {
        let cur = s@.skip(lo as int).take(hi - lo as int);
        if hi > lo {
            assert(cur.last() == s@[hi - 1]);
            assert(!is_space(cur.last()));
        }
        assert(trim_back(cur) == cur) by {
            if cur.len() != 0 {
                assert(!is_space(cur.last()));
            }
        }
        assert(trimmed(s@) == s@.skip(lo as int).take(hi - lo as int));
    }
    // Compare the trimmed window with the needle.
    let nl = n.unicode_len();
    if hi - lo != nl {
        assert(trimmed(s@).len() != n@.len());
        return false;
    }
    let mut k: usize = 0;
    while k < nl
        invariant
            len == s@.len(),
            nl == n@.len(),
            lo <= hi <= len,
            hi - lo == nl,
            trimmed(s@) == s@.skip(lo as int).take(hi - lo as int),
            k <= nl,
            forall|q: int| 0 <= q < k ==> s@[lo + q] == n@[q],
        decreases nl - k,
    {
        if s.get_char(lo + k) != n.get_char(k) {
            proof {
                assert(trimmed(s@)[k as int] == s@[lo + k]);
            }
            return false;
        }
        k += 1;
    }
    proof {
        assert(trimmed(s@) =~= n@);
    }
    true
}

/// The value of the decimal digits, over the first `t` characters.
pub open spec fn digits_val(s: Seq<char>, t: int) -> int
    decreases t,
{
    if t <= 0 {
        0
    } else {
        digits_val(s, t - 1) * 10 + (s[t - 1] as u32 - 48)
    }
}

/// Every character is a decimal digit.
pub open spec fn all_digits(s: Seq<char>) -> bool {
    forall|t: int| 0 <= t < s.len() ==> 48 <= (#[trigger] s[t]) as u32 <= 57
}

/// The number a string of decimal digits denotes: digits only, at
/// least one, and a value that fits 32 bits.
pub open spec fn spec_parse_u32(s: Seq<char>) -> Option<u32> {
    if s.len() > 0 && all_digits(s) && digits_val(s, s.len() as int) <= u32::MAX {
        Some(digits_val(s, s.len() as int) as u32)
    } else {
        None
    }
}

/// The value of a digit prefix is never negative.
proof fn lemma_digits_val_nonneg(s: Seq<char>, t: int)
    requires
        0 <= t <= s.len(),
        all_digits(s),
    ensures
        digits_val(s, t) >= 0,
    decreases t,
{
    if t > 0 {
        lemma_digits_val_nonneg(s, t - 1);
    }
}

/// A longer digit prefix never denotes a smaller value.
proof fn lemma_digits_val_monotone(s: Seq<char>, t1: int, t2: int)
    requires
        0 <= t1 <= t2 <= s.len(),
        all_digits(s),
    ensures
        digits_val(s, t1) <= digits_val(s, t2),
    decreases t2 - t1,
{
    lemma_digits_val_nonneg(s, t1);
    if t1 < t2 {
        lemma_digits_val_nonneg(s, t2 - 1);
        lemma_digits_val_monotone(s, t1, t2 - 1);
    }
}

/// Parses a string of decimal digits: digits only, at least one, and
/// a value that fits 32 bits.
pub fn parse_u32(s: &str) -> (r: Option<u32>)
    ensures
        r == spec_parse_u32(s@),
{
    let len = s.unicode_len();
    if len == 0 {
        return None;
    }
    let mut val: u32 = 0;
    let mut t: usize = 0;
    while t < len
        invariant
            len == s@.len(),
            0 < len,
            t <= len,
            forall|q: int| 0 <= q < t ==> 48 <= (#[trigger] s@[q]) as u32 <= 57,
            val as int == digits_val(s@, t as int),
        decreases len - t,
    {
        let c = s.get_char(t);
        let u = c as u32;
        if u < 48 || u > 57 {
            proof {
                assert(!all_digits(s@));
            }
            return None;
        }
        let d = u - 48;
        if val > (0xFFFF_FFFFu32 - d) / 10 {
            proof {
                assert(val as int * 10 + d > u32::MAX);
                assert(digits_val(s@, t as int + 1) > u32::MAX);
                assert forall|q: int| 0 <= q < s@.len() implies 48 <= (#[trigger] s@[q]) as u32
                    <= 57 || !all_digits(s@) by {}
                if all_digits(s@) {
                    lemma_digits_val_monotone(s@, t as int + 1, s@.len() as int);
                }
            }
            return None;
        }
        val = val * 10 + d;
        t += 1;
    }
    Some(val)
}

/// The decimal digit characters of a number, most significant first.
pub open spec fn spec_digits(n: int) -> Seq<char>
    decreases n,
{
    if n < 10 {
        digit_seq(n)
    } else {
        spec_digits(n / 10) + digit_seq(n % 10)
    }
}

/// The character of one decimal digit.
pub open spec fn digit_seq(d: int) -> Seq<char> {
    if d == 0 {
        "0"@
    } else if d == 1 {
        "1"@
    } else if d == 2 {
        "2"@
    } else if d == 3 {
        "3"@
    } else if d == 4 {
        "4"@
    } else if d == 5 {
        "5"@
    } else if d == 6 {
        "6"@
    } else if d == 7 {
        "7"@
    } else if d == 8 {
        "8"@
    } else {
        "9"@
    }
}

/// The string of one decimal digit.
fn digit_str(d: u64) -> (r: &'static str)
    requires
        d < 10,
    ensures
        r@ == digit_seq(d as int),
{
    if d == 0 {
        "0"
    } else if d == 1 {
        "1"
    } else if d == 2 {
        "2"
    } else if d == 3 {
        "3"
    } else if d == 4 {
        "4"
    } else if d == 5 {
        "5"
    } else if d == 6 {
        "6"
    } else if d == 7 {
        "7"
    } else if d == 8 {
        "8"
    } else {
        "9"
    }
}

/// Writes a number in decimal.
pub fn u64_to_string(n: u64) -> (r: String)
    ensures
        r@ == spec_digits(n as int),
    decreases n,
{
    if n < 10 {
        digit_str(n).to_owned()
    } else {
        let prefix = u64_to_string(n / 10);
        prefix.concat(digit_str(n % 10))
    }
}

} // verus!
