use vstd::prelude::*;
use vstd::string::*;

verus! {

// ---------------------------------------------------------------------------
// Characters
// ---------------------------------------------------------------------------

/// Unicode `White_Space`: the characters that `char::is_whitespace` accepts.
pub open spec fn is_space(c: char) -> bool {
    let u = c as u32;
    ||| 0x09 <= u <= 0x0D
    ||| u == 0x20
    ||| u == 0x85
    ||| u == 0xA0
    ||| u == 0x1680
    ||| 0x2000 <= u <= 0x200A
    ||| u == 0x2028
    ||| u == 0x2029
    ||| u == 0x202F
    ||| u == 0x205F
    ||| u == 0x3000
}

/// Whether `c` is Unicode white space.
pub fn is_space_char(c: char) -> (b: bool)
    ensures
        b == is_space(c),
{
    let u = c as u32;
    (0x09 <= u && u <= 0x0D) || u == 0x20 || u == 0x85 || u == 0xA0 || u == 0x1680 || (0x2000 <= u
        && u <= 0x200A) || u == 0x2028 || u == 0x2029 || u == 0x202F || u == 0x205F || u == 0x3000
}

/// The value of an ASCII decimal digit.
pub open spec fn dec_digit(c: char) -> Option<int> {
    if '0' <= c <= '9' {
        Some((c as u32 - '0' as u32) as int)
    } else {
        None
    }
}

/// The value of an ASCII hexadecimal digit, in either case.
pub open spec fn hex_digit(c: char) -> Option<int> {
    if '0' <= c <= '9' {
        Some((c as u32 - '0' as u32) as int)
    } else if 'a' <= c <= 'f' {
        Some((c as u32 - 'a' as u32 + 10) as int)
    } else if 'A' <= c <= 'F' {
        Some((c as u32 - 'A' as u32 + 10) as int)
    } else {
        None
    }
}

// ---------------------------------------------------------------------------
// Sequences of characters
// ---------------------------------------------------------------------------

/// `s` without its leading white space.
pub open spec fn trim_start(s: Seq<char>) -> Seq<char>
    decreases s.len(),
{
    if s.len() > 0 && is_space(s[0]) {
        trim_start(s.drop_first())
    } else {
        s
    }
}

/// `s` without its trailing white space.
pub open spec fn trim_end(s: Seq<char>) -> Seq<char>
    decreases s.len(),
{
    if s.len() > 0 && is_space(s.last()) {
        trim_end(s.drop_last())
    } else {
        s
    }
}

/// `s` without leading and trailing white space (`str::trim`).
pub open spec fn trim(s: Seq<char>) -> Seq<char> {
    trim_end(trim_start(s))
}

/// `s` begins with `p`.
pub open spec fn starts_with(s: Seq<char>, p: Seq<char>) -> bool {
    p.len() <= s.len() && s.take(p.len() as int) == p
}

/// Index of the first `c` in `s`, if any.
pub open spec fn find_char(s: Seq<char>, c: char) -> Option<int>
    decreases s.len(),
{
    if s.len() == 0 {
        None
    } else if s[0] == c {
        Some(0)
    } else {
        match find_char(s.drop_first(), c) {
            Some(i) => Some(i + 1),
            None => None,
        }
    }
}

/// The first line of `s` and what follows its `'\n'` (empty when there is
/// none). Lines of `s` are its pieces between `'\n'`s; a last piece that is
/// empty is no line, so `""` has no lines.
pub open spec fn split_first_line(s: Seq<char>) -> (Seq<char>, Seq<char>) {
    match find_char(s, '\n') {
        Some(i) => (s.take(i), s.skip(i + 1)),
        None => (s, Seq::empty()),
    }
}

/// `st` advanced by `step` over each line of `s` in turn.
pub open spec fn fold_lines<S>(st: S, s: Seq<char>, step: spec_fn(S, Seq<char>) -> S) -> S
    decreases s.len(),
{
    if s.len() == 0 {
        st
    } else {
        proof {
            lemma_find_char_range(s, '\n');
        }
        fold_lines(step(st, split_first_line(s).0), split_first_line(s).1, step)
    }
}

/// Length of the run of non-space characters that `s` begins with.
pub open spec fn word_len(s: Seq<char>) -> int
    decreases s.len(),
{
    if s.len() == 0 || is_space(s[0]) {
        0
    } else {
        1 + word_len(s.drop_first())
    }
}

/// The first white-space separated word of `s` (`split_whitespace().next()`).
pub open spec fn first_word(s: Seq<char>) -> Option<Seq<char>> {
    let t = trim_start(s);
    if t.len() == 0 {
        None
    } else {
        Some(t.take(word_len(t)))
    }
}

pub proof fn lemma_find_char_range(s: Seq<char>, c: char)
    ensures
        find_char(s, c) matches Some(i) ==> 0 <= i < s.len() && s[i] == c,
    decreases s.len(),
{
    if s.len() > 0 && s[0] != c {
        lemma_find_char_range(s.drop_first(), c);
    }
}

/// Unfolds `fold_lines` by the line `v[pos..end]`, where `end` is the next
/// `'\n'` at or after `pos` (or the end of `v`).
pub proof fn lemma_fold_lines_unfold<S>(
    st: S,
    v: Seq<char>,
    pos: int,
    end: int,
    step: spec_fn(S, Seq<char>) -> S,
)
    requires
        0 <= pos < v.len(),
        pos <= end <= v.len(),
        end < v.len() ==> find_char(v.subrange(pos, v.len() as int), '\n') == Some(end - pos),
        end == v.len() ==> find_char(v.subrange(pos, v.len() as int), '\n') is None,
    ensures
        fold_lines(st, v.skip(pos), step) == fold_lines(
            step(st, v.subrange(pos, end)),
            v.skip(
                if end < v.len() {
                    end + 1
                } else {
                    v.len() as int
                },
            ),
            step,
        ),
{
    let s = v.skip(pos);
    assert(s =~= v.subrange(pos, v.len() as int));
    if end < v.len() {
        assert(s.take(end - pos) =~= v.subrange(pos, end));
        assert(s.skip(end - pos + 1) =~= v.skip(end + 1));
    } else {
        assert(v.skip(v.len() as int) =~= Seq::<char>::empty());
        assert(s =~= v.subrange(pos, end));
    }
}

/// The value of a string of decimal digits, `None` if one is not a digit.
pub open spec fn dec_value(s: Seq<char>) -> Option<int>
    decreases s.len(),
{
    if s.len() == 0 {
        Some(0)
    } else {
        match (dec_value(s.drop_last()), dec_digit(s.last())) {
            (Some(v), Some(d)) => Some(v * 10 + d),
            _ => None,
        }
    }
}

/// The value of a string of hexadecimal digits, `None` if one is not a digit.
pub open spec fn hex_value(s: Seq<char>) -> Option<int>
    decreases s.len(),
{
    if s.len() == 0 {
        Some(0)
    } else {
        match (hex_value(s.drop_last()), hex_digit(s.last())) {
            (Some(v), Some(d)) => Some(v * 16 + d),
            _ => None,
        }
    }
}

/// How `from_str_radix` reads an integer: an optional sign (`-` only where
/// `signed`) followed by at least one digit; `None` when it is not of that
/// shape. The value is not range-checked here.
pub open spec fn signed_int_value(s: Seq<char>, signed: bool, hex: bool) -> Option<int> {
    let digits = |t: Seq<char>|
        if hex {
            hex_value(t)
        } else {
            dec_value(t)
        };
    if s.len() == 0 {
        None
    } else if (s[0] == '+' || s[0] == '-') && s.len() == 1 {
        None
    } else if s[0] == '+' {
        digits(s.drop_first())
    } else if s[0] == '-' && signed {
        match digits(s.drop_first()) {
            Some(v) => Some(-v),
            None => None,
        }
    } else {
        digits(s)
    }
}

/// `s.parse::<i32>()`, as an option.
pub open spec fn parse_i32(s: Seq<char>) -> Option<i32> {
    match signed_int_value(s, true, false) {
        Some(v) => if i32::MIN <= v <= i32::MAX {
            Some(v as i32)
        } else {
            None
        },
        None => None,
    }
}

/// `s.parse::<u32>()`, as an option.
pub open spec fn parse_u32(s: Seq<char>) -> Option<u32> {
    match signed_int_value(s, false, false) {
        Some(v) => if 0 <= v <= u32::MAX {
            Some(v as u32)
        } else {
            None
        },
        None => None,
    }
}

/// `s.parse::<usize>()`, as an option.
pub open spec fn parse_usize(s: Seq<char>) -> Option<usize> {
    match signed_int_value(s, false, false) {
        Some(v) => if 0 <= v <= usize::MAX {
            Some(v as usize)
        } else {
            None
        },
        None => None,
    }
}

/// `u16::from_str_radix(s, 16)`, as an option.
pub open spec fn parse_hex_u16(s: Seq<char>) -> Option<u16> {
    match signed_int_value(s, false, true) {
        Some(v) => if 0 <= v <= u16::MAX {
            Some(v as u16)
        } else {
            None
        },
        None => None,
    }
}

// ---------------------------------------------------------------------------
// Executable functions on ranges of a character vector
// ---------------------------------------------------------------------------

/// The characters of a string, in order.
pub fn chars_of(s: &str) -> (v: Vec<char>)
    ensures
        v@ == s@,
{
    let mut v: Vec<char> = Vec::new();
    for c in it: s.chars()
        invariant
            v@ == it.seq().take(it.index() as int),
    {
        v.push(c);
    }
    v
}

proof fn lemma_trim_start_step(s: Seq<char>, lo: int, hi: int)
    requires
        0 <= lo < hi <= s.len(),
        is_space(s[lo]),
    ensures
        trim_start(s.subrange(lo, hi)) == trim_start(s.subrange(lo + 1, hi)),
{
    assert(s.subrange(lo, hi).drop_first() =~= s.subrange(lo + 1, hi));
}

proof fn lemma_trim_end_step(s: Seq<char>, lo: int, hi: int)
    requires
        0 <= lo < hi <= s.len(),
        is_space(s[hi - 1]),
    ensures
        trim_end(s.subrange(lo, hi)) == trim_end(s.subrange(lo, hi - 1)),
{
    assert(s.subrange(lo, hi).drop_last() =~= s.subrange(lo, hi - 1));
}

/// The first index at or after `lo` in `v[lo..hi]` that is not white space.
pub fn skip_spaces(v: &Vec<char>, lo: usize, hi: usize) -> (a: usize)
    requires
        lo <= hi <= v.len(),
    ensures
        lo <= a <= hi,
        v@.subrange(a as int, hi as int) == trim_start(v@.subrange(lo as int, hi as int)),
        a < hi ==> !is_space(v@[a as int]),
{
    let mut a = lo;
    while a < hi && is_space_char(v[a])
        invariant
            lo <= a <= hi <= v.len(),
            trim_start(v@.subrange(lo as int, hi as int)) == trim_start(
                v@.subrange(a as int, hi as int),
            ),
        decreases hi - a,
    {
        proof {
            lemma_trim_start_step(v@, a as int, hi as int);
        }
        a = a + 1;
    }
    a
}

/// The end of the run of non-space characters that starts at `lo`.
pub fn word_end(v: &Vec<char>, lo: usize, hi: usize) -> (e: usize)
    requires
        lo <= hi <= v.len(),
    ensures
        lo <= e <= hi,
        e - lo == word_len(v@.subrange(lo as int, hi as int)),
{
    let mut e = lo;
    while e < hi && !is_space_char(v[e])
        invariant
            lo <= e <= hi <= v.len(),
            word_len(v@.subrange(lo as int, hi as int)) == (e - lo) + word_len(
                v@.subrange(e as int, hi as int),
            ),
        decreases hi - e,
    {
        assert(v@.subrange(e as int, hi as int).drop_first() =~= v@.subrange(e + 1, hi as int));
        e = e + 1;
    }
    e
}

/// The bounds of `v[lo..hi]` without leading and trailing white space.
pub fn trim_range(v: &Vec<char>, lo: usize, hi: usize) -> (r: (usize, usize))
    requires
        lo <= hi <= v.len(),
    ensures
        lo <= r.0 <= r.1 <= hi,
        v@.subrange(r.0 as int, r.1 as int) == trim(v@.subrange(lo as int, hi as int)),
{
    let a = skip_spaces(v, lo, hi);
    assert(trim_start(v@.subrange(a as int, hi as int)) == v@.subrange(a as int, hi as int));
    let mut b = hi;
    while b > a && is_space_char(v[b - 1])
        invariant
            lo <= a <= b <= hi <= v.len(),
            trim(v@.subrange(lo as int, hi as int)) == trim_end(v@.subrange(a as int, b as int)),
        decreases b - a,
    {
        proof {
            lemma_trim_end_step(v@, a as int, b as int);
        }
        b = b - 1;
    }
    (a, b)
}

/// Index of the first `c` in `v[lo..hi]`, counted from `lo`, or `hi`.
pub fn find_in_range(v: &Vec<char>, lo: usize, hi: usize, c: char) -> (r: usize)
    requires
        lo <= hi <= v.len(),
    ensures
        lo <= r <= hi,
        r < hi ==> find_char(v@.subrange(lo as int, hi as int), c) == Some(r - lo),
        r == hi ==> find_char(v@.subrange(lo as int, hi as int), c) is None,
{
    let mut i = lo;
    while i < hi
        invariant
            lo <= i <= hi <= v.len(),
            find_char(v@.subrange(lo as int, hi as int), c) == match find_char(
                v@.subrange(i as int, hi as int),
                c,
            ) {
                Some(k) => Some(k + (i - lo)),
                None => None,
            },
        decreases hi - i,
    {
        if v[i] == c {
            return i;
        }
        assert(v@.subrange(i as int, hi as int).drop_first() =~= v@.subrange(i + 1, hi as int));
        i = i + 1;
    }
    i
}

/// Whether `v[lo..hi]` begins with `p`.
pub fn range_starts_with(v: &Vec<char>, lo: usize, hi: usize, p: &str) -> (b: bool)
    requires
        lo <= hi <= v.len(),
    ensures
        b == starts_with(v@.subrange(lo as int, hi as int), p@),
{
    let n = p.unicode_len();
    if n > hi - lo {
        return false;
    }
    let mut i: usize = 0;
    while i < n
        invariant
            n == p@.len(),
            n <= hi - lo,
            lo <= hi <= v.len(),
            i <= n,
            forall|k: int| 0 <= k < i ==> v@[lo + k] == #[trigger] p@[k],
        decreases n - i,
    {
        if v[lo + i] != p.get_char(i) {
            assert(v@.subrange(lo as int, hi as int).take(n as int)[i as int] != p@[i as int]);
            return false;
        }
        i = i + 1;
    }
    assert(v@.subrange(lo as int, hi as int).take(n as int) =~= p@);
    true
}

/// Whether `v[lo..hi]` is exactly `p`.
pub fn range_equals(v: &Vec<char>, lo: usize, hi: usize, p: &str) -> (b: bool)
    requires
        lo <= hi <= v.len(),
    ensures
        b == (v@.subrange(lo as int, hi as int) == p@),
{
    let n = p.unicode_len();
    if n != hi - lo {
        return false;
    }
    assert(v@.subrange(lo as int, hi as int) =~= v@.subrange(lo as int, hi as int).take(n as int));
    range_starts_with(v, lo, hi, p)
}

/// `min(10 * a + d, cap)` for `a <= cap`, without overflow.
fn saturating_step(a: u128, d: u128, base: u128, cap: u128) -> (r: u128)
    requires
        a <= cap,
        d < base,
        base == 10 || base == 16,
        cap <= u64::MAX as u128 + 1,
    ensures
        r == if a * base + d < cap {
            a * base + d
        } else {
            cap as int
        },
{
    let v = a * base + d;
    if v < cap {
        v
    } else {
        cap
    }
}

proof fn lemma_saturate(v: int, d: int, base: int, cap: int)
    requires
        0 <= v,
        0 <= d < base,
        base == 10 || base == 16,
        0 <= cap,
    ensures
        ({
            let s = if v < cap {
                v
            } else {
                cap
            };
            let t = s * base + d;
            let t1 = if t < cap {
                t
            } else {
                cap
            };
            let u = v * base + d;
            t1 == if u < cap {
                u
            } else {
                cap
            }
        }),
{
    if v >= cap {
        assert(cap * base + d >= cap) by (nonlinear_arith)
            requires
                cap >= 0,
                base >= 1,
                d >= 0,
        ;
        assert(v * base + d >= cap * base + d) by (nonlinear_arith)
            requires
                v >= cap,
                base >= 1,
        ;
    }
}

/// The digits of `v[lo..hi]` read in `base`, saturated at `cap`; `None` if a
/// character is not a digit.
fn digits_value(v: &Vec<char>, lo: usize, hi: usize, hex: bool, cap: u128) -> (r: Option<u128>)
    requires
        lo <= hi <= v.len(),
        cap <= u64::MAX as u128 + 1,
    ensures
        match (if hex {
            hex_value(v@.subrange(lo as int, hi as int))
        } else {
            dec_value(v@.subrange(lo as int, hi as int))
        }) {
            Some(x) => r == Some((if x < cap {
                x
            } else {
                cap as int
            }) as u128),
            None => r is None,
        },
{
    let base: u128 = if hex {
        16
    } else {
        10
    };
    let mut acc: u128 = 0;
    let mut i = lo;
    while i < hi
        invariant
            lo <= i <= hi <= v.len(),
            cap <= u64::MAX as u128 + 1,
            base == (if hex {
                16u128
            } else {
                10u128
            }),
            acc <= cap,
            match (if hex {
                hex_value(v@.subrange(lo as int, i as int))
            } else {
                dec_value(v@.subrange(lo as int, i as int))
            }) {
                Some(x) => acc == (if x < cap {
                    x
                } else {
                    cap as int
                }),
                None => false,
            },
        decreases hi - i,
    {
        let c = v[i];
        let d: u32 = if '0' <= c && c <= '9' {
            (c as u32) - ('0' as u32)
        } else if hex && 'a' <= c && c <= 'f' {
            (c as u32) - ('a' as u32) + 10
        } else if hex && 'A' <= c && c <= 'F' {
            (c as u32) - ('A' as u32) + 10
        } else {
            proof {
                let s = v@.subrange(lo as int, i + 1);
                assert(s.drop_last() =~= v@.subrange(lo as int, i as int));
                lemma_value_stays_none(v@, lo as int, i + 1, hi as int, hex);
            }
            return None;
        };
        proof {
            let s = v@.subrange(lo as int, i + 1);
            assert(s.drop_last() =~= v@.subrange(lo as int, i as int));
            let x = if hex {
                hex_value(v@.subrange(lo as int, i as int))
            } else {
                dec_value(v@.subrange(lo as int, i as int))
            };
            lemma_saturate(x->0, d as int, base as int, cap as int);
        }
        acc = saturating_step(acc, d as u128, base, cap);
        i = i + 1;
    }
    Some(acc)
}

proof fn lemma_value_stays_none(s: Seq<char>, lo: int, i: int, hi: int, hex: bool)
    requires
        0 <= lo < i <= hi <= s.len(),
        (if hex {
            hex_value(s.subrange(lo, i))
        } else {
            dec_value(s.subrange(lo, i))
        }) is None,
    ensures
        (if hex {
            hex_value(s.subrange(lo, hi))
        } else {
            dec_value(s.subrange(lo, hi))
        }) is None,
    decreases hi - i,
{
    if i < hi {
        assert(s.subrange(lo, i + 1).drop_last() =~= s.subrange(lo, i));
        lemma_value_stays_none(s, lo, i + 1, hi, hex);
    }
}

/// `x` capped at `cap`.
pub open spec fn capped(x: int, cap: int) -> int {
    if x < cap {
        x
    } else {
        cap
    }
}

/// The hex digits `v[lo..hi]` as a `u32`; `None` if one is not a hex digit
/// or the value does not fit.
pub fn hex_u32_range(v: &Vec<char>, lo: usize, hi: usize) -> (r: Option<u32>)
    requires
        lo <= hi <= v.len(),
    ensures
        r == (match hex_value(v@.subrange(lo as int, hi as int)) {
            Some(x) => if x <= u32::MAX {
                Some(x as u32)
            } else {
                None
            },
            None => None,
        }),
{
    proof {
        lemma_value_nonneg(v@.subrange(lo as int, hi as int), true);
    }
    match digits_value(v, lo, hi, true, 0x1_0000_0000) {
        Some(m) => if m <= 0xffff_ffff {
            Some(m as u32)
        } else {
            None
        },
        None => None,
    }
}

/// The integer that `v[lo..hi]` spells as `from_str_radix` reads it (see
/// `signed_int_value`): whether it is negative, and its magnitude capped at
/// `cap`.
fn read_int(v: &Vec<char>, lo: usize, hi: usize, signed: bool, hex: bool, cap: u128) -> (r: Option<
    (bool, u128),
>)
    requires
        lo <= hi <= v.len(),
        cap <= u64::MAX as u128 + 1,
    ensures
        match signed_int_value(v@.subrange(lo as int, hi as int), signed, hex) {
            Some(x) => r matches Some((neg, m)) && (neg ==> x <= 0 && m == capped(-x, cap as int))
                && (!neg ==> x >= 0 && m == capped(x, cap as int)),
            None => r is None,
        },
        r matches Some((neg, _)) ==> (neg ==> signed),
{
    let ghost s = v@.subrange(lo as int, hi as int);
    if lo == hi {
        return None;
    }
    let c0 = v[lo];
    if (c0 == '+' || c0 == '-') && hi - lo == 1 {
        return None;
    }
    assert(s.drop_first() =~= v@.subrange(lo + 1, hi as int));
    proof {
        lemma_value_nonneg(s.drop_first(), hex);
        lemma_value_nonneg(s, hex);
    }
    if c0 == '+' {
        match digits_value(v, lo + 1, hi, hex, cap) {
            Some(m) => Some((false, m)),
            None => None,
        }
    } else if c0 == '-' && signed {
        match digits_value(v, lo + 1, hi, hex, cap) {
            Some(m) => Some((true, m)),
            None => None,
        }
    } else {
        match digits_value(v, lo, hi, hex, cap) {
            Some(m) => Some((false, m)),
            None => None,
        }
    }
}

proof fn lemma_value_nonneg(s: Seq<char>, hex: bool)
    ensures
        hex ==> (hex_value(s) matches Some(x) ==> x >= 0),
        !hex ==> (dec_value(s) matches Some(x) ==> x >= 0),
    decreases s.len(),
{
    if s.len() > 0 {
        lemma_value_nonneg(s.drop_last(), hex);
    }
}

/// `v[lo..hi].parse::<i32>()`.
pub fn parse_i32_range(v: &Vec<char>, lo: usize, hi: usize) -> (r: Option<i32>)
    requires
        lo <= hi <= v.len(),
    ensures
        r == parse_i32(v@.subrange(lo as int, hi as int)),
{
    let cap: u128 = 0x8000_0001;
    match read_int(v, lo, hi, true, false, cap) {
        Some((neg, m)) => {
            if neg {
                if m <= 0x8000_0000 {
                    Some((0 - (m as i64)) as i32)
                } else {
                    None
                }
            } else {
                if m <= 0x7fff_ffff {
                    Some(m as i32)
                } else {
                    None
                }
            }
        },
        None => None,
    }
}

/// `v[lo..hi].parse::<u32>()`.
pub fn parse_u32_range(v: &Vec<char>, lo: usize, hi: usize) -> (r: Option<u32>)
    requires
        lo <= hi <= v.len(),
    ensures
        r == parse_u32(v@.subrange(lo as int, hi as int)),
{
    let cap: u128 = 0x1_0000_0000;
    match read_int(v, lo, hi, false, false, cap) {
        Some((_, m)) => {
            if m <= 0xffff_ffff {
                Some(m as u32)
            } else {
                None
            }
        },
        None => None,
    }
}

/// `v[lo..hi].parse::<usize>()`.
pub fn parse_usize_range(v: &Vec<char>, lo: usize, hi: usize) -> (r: Option<usize>)
    requires
        lo <= hi <= v.len(),
    ensures
        r == parse_usize(v@.subrange(lo as int, hi as int)),
{
    let cap: u128 = usize::MAX as u128 + 1;
    match read_int(v, lo, hi, false, false, cap) {
        Some((_, m)) => {
            if m <= usize::MAX as u128 {
                Some(m as usize)
            } else {
                None
            }
        },
        None => None,
    }
}

/// `u16::from_str_radix(&v[lo..hi], 16)`.
pub fn parse_hex_u16_range(v: &Vec<char>, lo: usize, hi: usize) -> (r: Option<u16>)
    requires
        lo <= hi <= v.len(),
    ensures
        r == parse_hex_u16(v@.subrange(lo as int, hi as int)),
{
    let cap: u128 = 0x1_0000;
    match read_int(v, lo, hi, false, true, cap) {
        Some((_, m)) => {
            if m <= 0xffff {
                Some(m as u16)
            } else {
                None
            }
        },
        None => None,
    }
}


// ---------------------------------------------------------------------------
// Decimal numerals
// ---------------------------------------------------------------------------

/// The character of the decimal digit `d` (`0..10`).
pub open spec fn digit_char(d: int) -> char {
    (('0' as u32) + d) as char
}

/// The decimal digits of `n` without leading zeros, as `{}` prints it.
pub open spec fn dec_digits(n: nat) -> Seq<char>
    decreases n,
{
    if n < 10 {
        seq![digit_char(n as int)]
    } else {
        dec_digits(n / 10).push(digit_char((n % 10) as int))
    }
}

/// Appends the decimal digits of `n` to `v`.
pub fn push_decimal(v: &mut Vec<char>, n: u64)
    ensures
        final(v)@ == old(v)@ + dec_digits(n as nat),
    decreases n,
{
    if n >= 10 {
        push_decimal(v, n / 10);
    }
    let d: u8 = (n % 10) as u8;
    let c = (48u8 + d) as char;
    assert(c == digit_char((n % 10) as int));
    v.push(c);
}

/// Appends the characters of `s` to `v`.
pub fn push_str_chars(v: &mut Vec<char>, s: &str)
    ensures
        final(v)@ == old(v)@ + s@,
{
    let ghost start = v@;
    for c in it: s.chars()
        invariant
            v@ == start + it.seq().take(it.index() as int),
    {
        v.push(c);
    }
}

// ---------------------------------------------------------------------------
// Trusted: std string functions that vstd does not specify
// ---------------------------------------------------------------------------

/// What `str::to_uppercase` gives for a string: its characters mapped by
/// Unicode's uppercase mapping, which may change their number.
pub uninterp spec fn str_uppercase(s: Seq<char>) -> Seq<char>;

/// An ASCII letter `a`-`z` as its capital; any other character unchanged.
pub open spec fn ascii_upper_char(c: char) -> char {
    if 'a' <= c <= 'z' {
        ((c as u32) - 32) as char
    } else {
        c
    }
}

/// The uppercase of a string: for ASCII text each letter `a`-`z` becomes
/// its capital and every other character stays; beyond ASCII, what
/// `str::to_uppercase` gives (`str_uppercase`).
pub open spec fn uppercase_of(s: Seq<char>) -> Seq<char> {
    if vstd::utf8::is_ascii_chars(s) {
        s.map_values(|c: char| ascii_upper_char(c))
    } else {
        str_uppercase(s)
    }
}

/// Calls `str::to_uppercase`; its result is named `str_uppercase`. On ASCII
/// text Unicode's uppercase mapping is the ASCII one: `a`-`z` become `A`-`Z`
/// and every other ASCII character has no uppercase form and stays as it
/// is. What it does beyond ASCII is not stated.
#[verifier::external_body]
pub(crate) fn to_uppercase(s: &str) -> (r: String)
    ensures
        r@ == str_uppercase(s@),
        r@ == uppercase_of(s@),
{
    s.to_uppercase()
}

/// Collects the characters `v[lo..hi]` into a `String` (`FromIterator`):
/// the string holds exactly those characters.
#[verifier::external_body]
pub(crate) fn string_from_range(v: &Vec<char>, lo: usize, hi: usize) -> (s: String)
    requires
        lo <= hi <= v.len(),
    ensures
        s@ == v@.subrange(lo as int, hi as int),
{
    v[lo..hi].iter().collect()
}

} // verus!
