use vstd::prelude::*;
use vstd::string::StrSliceExecFns;

verus! {

/// Characters treated as surrounding whitespace when a type token is trimmed.
pub open spec fn is_ws(c: char) -> bool {
    c == ' ' || c == '\t' || c == '\n' || c == '\r'
}

/// `s` with its leading whitespace removed.
pub open spec fn trim_start(s: Seq<char>) -> Seq<char>
    decreases s.len(),
{
    if s.len() > 0 && is_ws(s[0]) {
        trim_start(s.subrange(1, s.len() as int))
    } else {
        s
    }
}

/// `s` with its trailing whitespace removed.
pub open spec fn trim_end(s: Seq<char>) -> Seq<char>
    decreases s.len(),
{
    if s.len() > 0 && is_ws(s[s.len() - 1]) {
        trim_end(s.subrange(0, s.len() - 1))
    } else {
        s
    }
}

/// `s` with surrounding whitespace removed.
pub open spec fn spec_trim(s: Seq<char>) -> Seq<char> {
    trim_end(trim_start(s))
}

/// `p` is a prefix of `s`.
pub open spec fn has_prefix(s: Seq<char>, p: Seq<char>) -> bool {
    p.len() <= s.len() && s.subrange(0, p.len() as int) == p
}

pub open spec fn is_digit(c: char) -> bool {
    48 <= c as u32 && c as u32 <= 57
}

/// Value of a sequence of decimal digits, most significant first.
pub open spec fn digits_val(s: Seq<char>) -> int
    decreases s.len(),
{
    if s.len() == 0 {
        0
    } else {
        digits_val(s.drop_last()) * 10 + (s.last() as u32 - 48)
    }
}

pub open spec fn all_digits(s: Seq<char>) -> bool {
    forall|i: int| 0 <= i < s.len() ==> is_digit(#[trigger] s[i])
}

/// The value of a decimal numeral, or `None` when `s` is empty, holds a
/// non-digit character, or exceeds `u32::MAX`.
pub open spec fn spec_str_to_u32(s: Seq<char>) -> Option<u32> {
    if s.len() == 0 || !all_digits(s) || digits_val(s) > u32::MAX {
        None
    } else {
        Some(digits_val(s) as u32)
    }
}

pub proof fn lemma_digits_val_nonneg(s: Seq<char>)
    requires
        all_digits(s),
    ensures
        digits_val(s) >= 0,
    decreases s.len(),
{
    if s.len() > 0 {
        assert(forall|i: int| 0 <= i < s.drop_last().len() ==> is_digit(#[trigger] s.drop_last()[i]));
        lemma_digits_val_nonneg(s.drop_last());
    }
}

pub proof fn lemma_digits_val_mono(s: Seq<char>, i: int)
    requires
        all_digits(s),
        0 <= i <= s.len(),
    ensures
        0 <= digits_val(s.subrange(0, i)) <= digits_val(s),
    decreases s.len() - i,
{
    assert(forall|k: int| 0 <= k < s.subrange(0, i).len() ==> is_digit(
        #[trigger] s.subrange(0, i)[k],
    ));
    lemma_digits_val_nonneg(s.subrange(0, i));
    if i == s.len() {
        assert(s.subrange(0, i) =~= s);
    } else {
        let a = s.subrange(0, i);
        let b = s.subrange(0, i + 1);
        assert(b.drop_last() =~= a);
        assert(b.last() == s[i]);
        lemma_digits_val_mono(s, i + 1);
    }
}

/// Character-wise string equality, proved equivalent to view equality.
pub fn str_eq(a: &str, b: &str) -> (r: bool)
    ensures
        r == (a@ == b@),
{
    let n = a.unicode_len();
    let m = b.unicode_len();
    if n != m {
        return false;
    }
    let mut i: usize = 0;
    while i < n
        invariant
            0 <= i <= n,
            n == a@.len(),
            n == b@.len(),
            forall|k: int| 0 <= k < i ==> a@[k] == b@[k],
        decreases n - i,
    {
        if a.get_char(i) != b.get_char(i) {
            return false;
        }
        i += 1;
    }
    proof {
        assert(a@ =~= b@);
    }
    true
}

/// Does `a` start with `p`?
pub fn str_has_prefix(a: &str, p: &str) -> (r: bool)
    ensures
        r == has_prefix(a@, p@),
{
    let n = a.unicode_len();
    let m = p.unicode_len();
    if m > n {
        return false;
    }
    let mut i: usize = 0;
    while i < m
        invariant
            0 <= i <= m,
            m <= n,
            n == a@.len(),
            m == p@.len(),
            forall|k: int| 0 <= k < i ==> a@[k] == p@[k],
        decreases m - i,
    {
        if a.get_char(i) != p.get_char(i) {
            proof {
                assert(a@.subrange(0, p@.len() as int)[i as int] == a@[i as int]);
            }
            return false;
        }
        i += 1;
    }
    proof {
        assert(a@.subrange(0, p@.len() as int) =~= p@);
    }
    true
}

fn is_ws_char(c: char) -> (r: bool)
    ensures
        r == is_ws(c),
{
    c == ' ' || c == '\t' || c == '\n' || c == '\r'
}

/// `s` with surrounding whitespace removed, matching `spec_trim`.
pub fn trim_str(s: &str) -> (t: &str)
    ensures
        t@ == spec_trim(s@),
{
    let n = s.unicode_len();
    proof {
        assert(s@.subrange(0, n as int) =~= s@);
    }
    let mut i: usize = 0;
    while i < n && is_ws_char(s.get_char(i))
        invariant
            0 <= i <= n,
            n == s@.len(),
            trim_start(s@) == trim_start(s@.subrange(i as int, n as int)),
        decreases n - i,
    {
        proof {
            let cur = s@.subrange(i as int, n as int);
            assert(cur[0] == s@[i as int]);
            assert(cur.subrange(1, cur.len() as int) =~= s@.subrange(i + 1, n as int));
        }
        i += 1;
    }
    proof {
        assert(s@.subrange(0, n as int) =~= s@);
        let cur = s@.subrange(i as int, n as int);
        if i < n {
            assert(cur[0] == s@[i as int]);
        }
        assert(trim_start(s@) == cur);
    }
    let mut j: usize = n;
    while j > i && is_ws_char(s.get_char(j - 1))
        invariant
            i <= j <= n,
            n == s@.len(),
            trim_start(s@) == s@.subrange(i as int, n as int),
            trim_end(s@.subrange(i as int, n as int)) == trim_end(s@.subrange(i as int, j as int)),
        decreases j,
    {
        proof {
            let cur = s@.subrange(i as int, j as int);
            assert(cur[cur.len() - 1] == s@[j - 1]);
            assert(cur.subrange(0, cur.len() - 1) =~= s@.subrange(i as int, j - 1));
        }
        j -= 1;
    }
    proof {
        let cur = s@.subrange(i as int, j as int);
        if j > i {
            assert(cur[cur.len() - 1] == s@[j - 1]);
        } else {
            assert(cur =~= Seq::<char>::empty());
        }
        assert(trim_end(cur) == cur);
    }
    s.substring_char(i, j)
}

/// Parse a decimal numeral, matching `spec_str_to_u32`.
pub fn str_to_u32(s: &str) -> (r: Option<u32>)
    ensures
        r == spec_str_to_u32(s@),
{
    let n = s.unicode_len();
    if n == 0 {
        return None;
    }
    let mut acc: u64 = 0;
    let mut i: usize = 0;
    while i < n
        invariant
            0 <= i <= n,
            n == s@.len(),
            n > 0,
            forall|k: int| 0 <= k < i ==> is_digit(#[trigger] s@[k]),
            acc == digits_val(s@.subrange(0, i as int)),
            acc <= u32::MAX,
        decreases n - i,
    {
        let c = s.get_char(i);
        let cu = c as u32;
        if cu < 48 || cu > 57 {
            proof {
                assert(!is_digit(s@[i as int]));
            }
            return None;
        }
        let d = (cu - 48) as u64;
        let next = acc * 10 + d;
        proof {
            let a = s@.subrange(0, i as int);
            let b = s@.subrange(0, i + 1);
            assert(b.drop_last() =~= a);
            assert(b.last() == s@[i as int]);
        }
        if next > 0xFFFF_FFFF {
            proof {
                if all_digits(s@) {
                    lemma_digits_val_mono(s@, i + 1);
                }
            }
            return None;
        }
        acc = next;
        i += 1;
    }
    proof {
        assert(s@.subrange(0, n as int) =~= s@);
    }
    Some(acc as u32)
}

} // verus!
