use vstd::prelude::*;
use vstd::string::*;

verus! {

/// Why a run of characters is not a decimal number of the requested width.
#[derive(Clone, Copy, Debug, PartialEq, Eq, Structural)]
pub enum NumError {
    Empty,
    InvalidDigit,
    TooLarge,
}

impl NumError {
    pub open spec fn text(self) -> Seq<char> {
        match self {
            NumError::Empty => "cannot parse integer from empty string"@,
            NumError::InvalidDigit => "invalid digit found in string"@,
            NumError::TooLarge => "number too large to fit in target type"@,
        }
    }

    /// The message that describes this error.
    pub fn message(&self) -> (r: String)
        ensures
            r@ == self.text(),
    {
        match self {
            NumError::Empty => String::from_str("cannot parse integer from empty string"),
            NumError::InvalidDigit => String::from_str("invalid digit found in string"),
            NumError::TooLarge => String::from_str("number too large to fit in target type"),
        }
    }
}

/// Why a human readable size was refused.
#[derive(Clone, Copy, Debug, PartialEq, Eq, Structural)]
pub enum SizeError {
    /// Nothing is left once blanks and the trailing `B` are taken off.
    Empty,
    /// The last character is neither a digit nor a known unit (given in lower case).
    InvalidUnit(char),
    /// The number in front of the unit is malformed.
    Number(NumError),
    /// The number times its unit does not fit in 64 bits.
    Overflow,
}

pub open spec fn is_digit(c: char) -> bool {
    '0' <= c && c <= '9'
}

pub open spec fn digit_value(c: char) -> int {
    (c as int) - ('0' as int)
}

/// Digits read left to right: the first non-digit, or the first prefix whose
/// value exceeds `bound`, decides the error.
pub open spec fn scan_digits(d: Seq<char>, acc: int, bound: int) -> Result<int, NumError>
    decreases d.len(),
{
    if d.len() == 0 {
        Ok(acc)
    } else if !is_digit(d[0]) {
        Err(NumError::InvalidDigit)
    } else if acc * 10 + digit_value(d[0]) > bound {
        Err(NumError::TooLarge)
    } else {
        scan_digits(d.drop_first(), acc * 10 + digit_value(d[0]), bound)
    }
}

/// An unsigned decimal with an optional leading `+`, at most `bound`.
pub open spec fn parse_unsigned(s: Seq<char>, bound: int) -> Result<int, NumError> {
    if s.len() == 0 {
        Err(NumError::Empty)
    } else if s[0] == '+' && s.len() == 1 {
        Err(NumError::InvalidDigit)
    } else if s[0] == '+' {
        scan_digits(s.drop_first(), 0, bound)
    } else {
        scan_digits(s, 0, bound)
    }
}

/// The characters that Unicode calls white space.
pub open spec fn is_space(c: char) -> bool {
    let u = c as u32;
    (9 <= u && u <= 13) || u == 32 || u == 0x85 || u == 0xA0 || u == 0x1680 || (0x2000 <= u
        && u <= 0x200A) || u == 0x2028 || u == 0x2029 || u == 0x202F || u == 0x205F || u == 0x3000
}

pub open spec fn is_byte_suffix(c: char) -> bool {
    c == 'B' || c == 'b'
}

pub open spec fn trim_start_spaces(s: Seq<char>) -> Seq<char>
    decreases s.len(),
{
    if s.len() > 0 && is_space(s[0]) {
        trim_start_spaces(s.drop_first())
    } else {
        s
    }
}

pub open spec fn trim_end_spaces(s: Seq<char>) -> Seq<char>
    decreases s.len(),
{
    if s.len() > 0 && is_space(s.last()) {
        trim_end_spaces(s.drop_last())
    } else {
        s
    }
}

pub open spec fn trim_end_byte_suffix(s: Seq<char>) -> Seq<char>
    decreases s.len(),
{
    if s.len() > 0 && is_byte_suffix(s.last()) {
        trim_end_byte_suffix(s.drop_last())
    } else {
        s
    }
}

pub open spec fn ascii_lower(c: char) -> char {
    if 'A' <= c && c <= 'Z' {
        (((c as u32) + 32) as u8) as char
    } else {
        c
    }
}

/// How many bytes one unit stands for; zero for a character that is no unit.
pub open spec fn unit_factor(c: char) -> int {
    if c == 'k' {
        1024
    } else if c == 'm' {
        1048576
    } else if c == 'g' {
        1073741824
    } else if c == 't' {
        1099511627776
    } else {
        0
    }
}

pub open spec fn scaled(head: Seq<char>, factor: int) -> Result<int, SizeError> {
    match parse_unsigned(head, u64::MAX as int) {
        Ok(n) => if n * factor > u64::MAX as int {
            Err(SizeError::Overflow)
        } else {
            Ok(n * factor)
        },
        Err(e) => Err(SizeError::Number(e)),
    }
}

/// A size such as `2M`, `512k`, `1 GB` or `4096`, in bytes (units are powers of 1024).
pub open spec fn human_size(s: Seq<char>) -> Result<int, SizeError> {
    let t = trim_end_byte_suffix(trim_end_spaces(trim_start_spaces(s)));
    if t.len() == 0 {
        Err(SizeError::Empty)
    } else {
        let c = ascii_lower(t.last());
        if unit_factor(c) != 0 {
            scaled(t.drop_last(), unit_factor(c))
        } else if is_digit(c) {
            match parse_unsigned(t, u64::MAX as int) {
                Ok(n) => Ok(n),
                Err(e) => Err(SizeError::Number(e)),
            }
        } else {
            Err(SizeError::InvalidUnit(c))
        }
    }
}

fn is_space_exec(c: char) -> (r: bool)
    ensures
        r == is_space(c),
{
    let u = c as u32;
    (9 <= u && u <= 13) || u == 32 || u == 0x85 || u == 0xA0 || u == 0x1680 || (0x2000 <= u
        && u <= 0x200A) || u == 0x2028 || u == 0x2029 || u == 0x202F || u == 0x205F || u == 0x3000
}

pub(crate) fn chars_of(s: &str) -> (v: Vec<char>)
    ensures
        v@ == s@,
{
    let n = s.unicode_len();
    let mut v: Vec<char> = Vec::new();
    let mut i: usize = 0;
    while i < n
        invariant
            n == s@.len(),
            i <= n,
            v@ == s@.subrange(0, i as int),
        decreases n - i,
    {
        v.push(s.get_char(i));
        i = i + 1;
    }
    assert(v@ =~= s@);
    v
}

proof fn lemma_scan_step(d: Seq<char>, k: int, acc: int, bound: int)
    requires
        0 <= k < d.len(),
    ensures
        scan_digits(d.subrange(k, d.len() as int), acc, bound) == (if !is_digit(d[k]) {
            Err(NumError::InvalidDigit)
        } else if acc * 10 + digit_value(d[k]) > bound {
            Err(NumError::TooLarge)
        } else {
            scan_digits(d.subrange(k + 1, d.len() as int), acc * 10 + digit_value(d[k]), bound)
        }),
{
    let t = d.subrange(k, d.len() as int);
    assert(t.drop_first() =~= d.subrange(k + 1, d.len() as int));
}

proof fn lemma_scan_bound(d: Seq<char>, acc: int, bound: int)
    requires
        0 <= acc <= bound,
    ensures
        scan_digits(d, acc, bound) matches Ok(n) ==> acc <= n <= bound,
    decreases d.len(),
{
    if d.len() > 0 && is_digit(d[0]) && acc * 10 + digit_value(d[0]) <= bound {
        assert(acc <= acc * 10 + digit_value(d[0])) by (nonlinear_arith)
            requires
                0 <= acc,
                0 <= digit_value(d[0]),
        ;
        lemma_scan_bound(d.drop_first(), acc * 10 + digit_value(d[0]), bound);
    }
}

/// Reads `v[lo..hi]` as an unsigned decimal no greater than `bound`.
pub(crate) fn parse_unsigned_range(v: &Vec<char>, lo: usize, hi: usize, bound: u64) -> (r: Result<u64, NumError>)
    requires
        lo <= hi <= v@.len(),
    ensures
        match parse_unsigned(v@.subrange(lo as int, hi as int), bound as int) {
            Ok(n) => r == Ok::<u64, NumError>(n as u64),
            Err(e) => r == Err::<u64, NumError>(e),
        },
        parse_unsigned(v@.subrange(lo as int, hi as int), bound as int) matches Ok(n) ==> 0 <= n
            <= bound,
{
    let ghost s = v@.subrange(lo as int, hi as int);
    proof {
        lemma_scan_bound(s, 0, bound as int);
        lemma_scan_bound(s.drop_first(), 0, bound as int);
    }
    if lo == hi {
        return Err(NumError::Empty);
    }
    let mut k: usize = lo;
    if v[lo] == '+' {
        if hi - lo == 1 {
            return Err(NumError::InvalidDigit);
        }
        k = lo + 1;
        assert(s.drop_first() =~= v@.subrange(k as int, hi as int));
    }
    let ghost d = v@.subrange(k as int, hi as int);
    assert(parse_unsigned(s, bound as int) == scan_digits(d, 0, bound as int));
    let mut acc: u64 = 0;
    while k < hi
        invariant
            lo <= k <= hi <= v@.len(),
            acc <= bound,
            parse_unsigned(v@.subrange(lo as int, hi as int), bound as int) == scan_digits(
                d,
                0,
                bound as int,
            ),
            scan_digits(d, 0, bound as int) == scan_digits(
                v@.subrange(k as int, hi as int),
                acc as int,
                bound as int,
            ),
        decreases hi - k,
    {
        let c = v[k];
        proof {
            let w = v@.subrange(0, hi as int);
            lemma_scan_step(w, k as int, acc as int, bound as int);
            assert(w.subrange(k as int, hi as int) =~= v@.subrange(k as int, hi as int));
            assert(w.subrange(k + 1, hi as int) =~= v@.subrange(k + 1, hi as int));
        }
        if !('0' <= c && c <= '9') {
            return Err(NumError::InvalidDigit);
        }
        let next: u128 = (acc as u128) * 10 + ((c as u32) - ('0' as u32)) as u128;
        if next > bound as u128 {
            return Err(NumError::TooLarge);
        }
        acc = next as u64;
        k = k + 1;
    }
    assert(v@.subrange(k as int, hi as int) =~= Seq::<char>::empty());
    Ok(acc)
}

/// Reads a human readable size such as `2M`, `2mb`, `1 GB` or `2097152` into
/// bytes: blanks around it and trailing `B`s are ignored, and the last
/// character, if not a digit, is a unit `k`, `m`, `g` or `t` (either case), a
/// power of 1024.
pub fn parse_human_size(s: &str) -> (r: Result<u64, SizeError>)
    ensures
        match human_size(s@) {
            Ok(n) => r == Ok::<u64, SizeError>(n as u64),
            Err(e) => r == Err::<u64, SizeError>(e),
        },
{
    let v = chars_of(s);
    let n = v.len();
    assert(v@.subrange(0, n as int) =~= s@);
    let mut lo: usize = 0;
    while lo < n && is_space_exec(v[lo])
        invariant
            n == v@.len(),
            lo <= n,
            trim_start_spaces(s@) == trim_start_spaces(v@.subrange(lo as int, n as int)),
        decreases n - lo,
    {
        assert(v@.subrange(lo as int, n as int).drop_first() =~= v@.subrange(lo + 1, n as int));
        lo = lo + 1;
    }
    let mut hi: usize = n;
    while hi > lo && is_space_exec(v[hi - 1])
        invariant
            n == v@.len(),
            lo <= hi <= n,
            trim_end_spaces(trim_start_spaces(s@)) == trim_end_spaces(
                v@.subrange(lo as int, hi as int),
            ),
        decreases hi,
    {
        assert(v@.subrange(lo as int, hi as int).drop_last() =~= v@.subrange(
            lo as int,
            hi - 1,
        ));
        hi = hi - 1;
    }
    while hi > lo && (v[hi - 1] == 'B' || v[hi - 1] == 'b')
        invariant
            n == v@.len(),
            lo <= hi <= n,
            trim_end_byte_suffix(trim_end_spaces(trim_start_spaces(s@))) == trim_end_byte_suffix(
                v@.subrange(lo as int, hi as int),
            ),
        decreases hi,
    {
        assert(v@.subrange(lo as int, hi as int).drop_last() =~= v@.subrange(
            lo as int,
            hi - 1,
        ));
        hi = hi - 1;
    }
    let ghost t = v@.subrange(lo as int, hi as int);
    assert(trim_end_byte_suffix(trim_end_spaces(trim_start_spaces(s@))) == t);
    if hi == lo {
        return Err(SizeError::Empty);
    }
    let last = v[hi - 1];
    let c = if 'A' <= last && last <= 'Z' {
        ((last as u8) + 32) as char
    } else {
        last
    };
    assert(c == ascii_lower(t.last()));
    assert(t.drop_last() =~= v@.subrange(lo as int, hi - 1));
    let factor: u64 = if c == 'k' {
        1024
    } else if c == 'm' {
        1048576
    } else if c == 'g' {
        1073741824
    } else if c == 't' {
        1099511627776
    } else {
        0
    };
    if factor != 0 {
        match parse_unsigned_range(&v, lo, hi - 1, u64::MAX) {
            Ok(x) => {
                if (x as u128) * (factor as u128) > u64::MAX as u128 {
                    Err(SizeError::Overflow)
                } else {
                    Ok(x * factor)
                }
            },
            Err(e) => Err(SizeError::Number(e)),
        }
    } else if '0' <= c && c <= '9' {
        match parse_unsigned_range(&v, lo, hi, u64::MAX) {
            Ok(x) => Ok(x),
            Err(e) => Err(SizeError::Number(e)),
        }
    } else {
        Err(SizeError::InvalidUnit(c))
    }
}

} // verus!
