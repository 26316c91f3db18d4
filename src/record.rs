//! Entries and the parser of the legacy `path|rank|time` line format.
use vstd::prelude::*;
use crate::scorer::{MAX_RANK, UNIT};
use crate::text::{chars_of, lower_of, lowercase};

verus! {

/// Decimal places of a rank kept by the parser; further digits are dropped.
pub const FRAC_PLACES: u64 = 6;

/// One row of the store: a lowercased path, its rank in units of one
/// millionth, and the Unix time of its last access.
#[derive(Debug)]
pub struct Entry {
    pub path: String,
    pub rank: u64,
    pub time: i64,
}

/// The mathematical value of an entry.
pub struct EntryView {
    pub path: Seq<char>,
    pub rank: nat,
    pub time: int,
}

impl View for Entry {
    type V = EntryView;

    open spec fn view(&self) -> EntryView {
        EntryView { path: self.path@, rank: self.rank as nat, time: self.time as int }
    }
}

/// Why one line of an import could not be read.
#[derive(Debug, Clone, Copy, PartialEq, Eq, Structural)]
pub enum LineError {
    /// The line has no `|` after the path.
    MissingRank,
    /// The rank field is not a non-negative decimal within the rank limit.
    BadRank,
    /// The line has no `|` after the rank.
    MissingTime,
    /// The time field is not an integer that fits in 64 bits.
    BadTime,
}

pub open spec fn is_digit(c: char) -> bool {
    '0' <= c <= '9'
}

pub open spec fn digit_value(c: char) -> nat {
    (c as int - '0' as int) as nat
}

pub open spec fn all_digits(s: Seq<char>) -> bool {
    forall|i: int| 0 <= i < s.len() ==> is_digit(#[trigger] s[i])
}

/// The value of the first `n` digits of `s`, read as a decimal number.
pub open spec fn prefix_value(s: Seq<char>, n: nat) -> nat
    decreases n,
{
    if n == 0 {
        0
    } else {
        prefix_value(s, (n - 1) as nat) * 10 + digit_value(s[n - 1])
    }
}

pub open spec fn decimal_value(s: Seq<char>) -> nat {
    prefix_value(s, s.len())
}

/// The `k`-th fractional digit, or 0 past the end.
pub open spec fn frac_digit(f: Seq<char>, k: int) -> nat {
    if k < f.len() {
        digit_value(f[k])
    } else {
        0
    }
}

/// The first `n` fractional digits of `f`, padded with zeros, as a number.
pub open spec fn frac_prefix(f: Seq<char>, n: nat) -> nat
    decreases n,
{
    if n == 0 {
        0
    } else {
        frac_prefix(f, (n - 1) as nat) * 10 + frac_digit(f, n - 1)
    }
}

/// `s` is digits, a single `.` at `d`, and digits.
pub open spec fn dot_at(s: Seq<char>, d: int) -> bool {
    0 <= d < s.len() && s[d] == '.' && all_digits(s.take(d)) && all_digits(s.skip(d + 1))
}

pub open spec fn within_limit(units: int) -> Option<nat> {
    if 0 <= units <= MAX_RANK {
        Some(units as nat)
    } else {
        None
    }
}

/// The rank written as `s`, in units: digits with an optional fractional
/// part, at least one digit, at most six decimal places kept.
pub open spec fn rank_of_text(s: Seq<char>) -> Option<nat> {
    if s.len() > 0 && all_digits(s) {
        within_limit(decimal_value(s) * UNIT)
    } else if s.len() > 1 && exists|d: int| dot_at(s, d) {
        let d = choose|d: int| dot_at(s, d);
        within_limit(
            decimal_value(s.take(d)) * UNIT + frac_prefix(s.skip(d + 1), FRAC_PLACES as nat),
        )
    } else {
        None
    }
}

/// The integer written as `s`: an optional sign and at least one digit,
/// within the range of `i64`.
pub open spec fn time_of_text(s: Seq<char>) -> Option<int> {
    let neg = s.len() > 0 && s[0] == '-';
    let digits = if s.len() > 0 && (s[0] == '-' || s[0] == '+') {
        s.skip(1)
    } else {
        s
    };
    let v: int = if neg {
        -decimal_value(digits)
    } else {
        decimal_value(digits) as int
    };
    if digits.len() > 0 && all_digits(digits) && i64::MIN <= v <= i64::MAX {
        Some(v)
    } else {
        None
    }
}

/// The index of the first `|` at or after `from`, or the length of `s`.
pub open spec fn next_bar(s: Seq<char>, from: int) -> int
    decreases s.len() - from,
{
    if from < 0 || from >= s.len() {
        s.len() as int
    } else if s[from] == '|' {
        from
    } else {
        next_bar(s, from + 1)
    }
}

/// The record of one line `path|rank|time`; fields after the third are
/// ignored and the path is lowercased.
pub open spec fn record_of_line(s: Seq<char>) -> Result<EntryView, LineError> {
    let b1 = next_bar(s, 0);
    let b2 = next_bar(s, b1 + 1);
    let b3 = next_bar(s, b2 + 1);
    if b1 >= s.len() {
        Err(LineError::MissingRank)
    } else if rank_of_text(s.subrange(b1 + 1, b2)) is None {
        Err(LineError::BadRank)
    } else if b2 >= s.len() {
        Err(LineError::MissingTime)
    } else if time_of_text(s.subrange(b2 + 1, b3)) is None {
        Err(LineError::BadTime)
    } else {
        Ok(
            EntryView {
                path: lower_of(s.take(b1)),
                rank: rank_of_text(s.subrange(b1 + 1, b2))->0,
                time: time_of_text(s.subrange(b2 + 1, b3))->0,
            },
        )
    }
}

proof fn lemma_prefix_value_grows(s: Seq<char>, m: nat, n: nat)
    requires
        m <= n,
    ensures
        prefix_value(s, m) <= prefix_value(s, n),
    decreases n - m,
{
    if m < n {
        lemma_prefix_value_grows(s, m, (n - 1) as nat);
    }
}

/// The first `|` in `v` at or after `from`, or `v.len()`.
fn find_bar(v: &Vec<char>, from: usize) -> (r: usize)
    requires
        from <= v.len(),
    ensures
        r == next_bar(v@, from as int),
        from <= r <= v.len(),
{
    let mut i = from;
    while i < v.len()
        invariant
            from <= i <= v.len(),
            next_bar(v@, from as int) == next_bar(v@, i as int),
        decreases v.len() - i,
    {
        if v[i] == '|' {
            return i;
        }
        i = i + 1;
    }
    i
}

/// Reads the digits `v[a..b]` as a number, or `None` when it exceeds `bound`.
fn digits_up_to(v: &Vec<char>, a: usize, b: usize, bound: u64) -> (r: Option<u64>)
    requires
        a <= b <= v.len(),
        all_digits(v@.subrange(a as int, b as int)),
    ensures
        r matches Some(x) ==> x == decimal_value(v@.subrange(a as int, b as int)) && x <= bound,
        r is None ==> decimal_value(v@.subrange(a as int, b as int)) > bound,
{
    let ghost s = v@.subrange(a as int, b as int);
    let mut acc: u128 = 0;
    let mut i = a;
    while i < b
        invariant
            a <= i <= b <= v.len(),
            s == v@.subrange(a as int, b as int),
            all_digits(s),
            acc == prefix_value(s, (i - a) as nat),
            acc <= bound,
        decreases b - i,
    {
        assert(is_digit(s[i - a]));
        let d = (v[i] as u32 - '0' as u32) as u128;
        assert(d == digit_value(s[i - a]));
        acc = acc * 10 + d;
        i = i + 1;
        if acc > bound as u128 {
            proof {
                lemma_prefix_value_grows(s, (i - a) as nat, s.len());
            }
            return None;
        }
    }
    Some(acc as u64)
}

/// Whether every character of `v[a..b]` is a digit.
fn digits_only(v: &Vec<char>, a: usize, b: usize) -> (r: bool)
    requires
        a <= b <= v.len(),
    ensures
        r == all_digits(v@.subrange(a as int, b as int)),
{
    let mut i = a;
    while i < b
        invariant
            a <= i <= b <= v.len(),
            forall|k: int| a <= k < i ==> is_digit(#[trigger] v@[k]),
        decreases b - i,
    {
        if !('0' <= v[i] && v[i] <= '9') {
            assert(!is_digit(v@.subrange(a as int, b as int)[i - a]));
            return false;
        }
        i = i + 1;
    }
    assert forall|k: int| 0 <= k < b - a implies is_digit(
        #[trigger] v@.subrange(a as int, b as int)[k],
    ) by {
        assert(v@.subrange(a as int, b as int)[k] == v@[a + k]);
    }
    true
}

/// The first index in `v[a..b]` holding `c`, or `b`.
fn find_char(v: &Vec<char>, a: usize, b: usize, c: char) -> (r: usize)
    requires
        a <= b <= v.len(),
    ensures
        a <= r <= b,
        r < b ==> v@[r as int] == c,
        forall|k: int| a <= k < r ==> v@[k] != c,
{
    let mut i = a;
    while i < b
        invariant
            a <= i <= b <= v.len(),
            forall|k: int| a <= k < i ==> v@[k] != c,
        decreases b - i,
    {
        if v[i] == c {
            return i;
        }
        i = i + 1;
    }
    i
}

/// Reads the rank written in `v[a..b]`, in units.
pub fn parse_rank(v: &Vec<char>, a: usize, b: usize) -> (r: Option<u64>)
    requires
        a <= b <= v.len(),
    ensures
        r matches Some(x) ==> rank_of_text(v@.subrange(a as int, b as int)) == Some(x as nat),
        r is None ==> rank_of_text(v@.subrange(a as int, b as int)) is None,
{
    let ghost s = v@.subrange(a as int, b as int);
    let d = find_char(v, a, b, '.');
    if d == b {
        assert forall|e: int| !dot_at(s, e) by {
            if 0 <= e < s.len() {
                assert(s[e] == v@[a + e]);
            }
        }
        if a == b || !digits_only(v, a, b) {
            return None;
        }
        match digits_up_to(v, a, b, MAX_RANK / UNIT) {
            None => {
                assert(decimal_value(s) * UNIT > MAX_RANK) by (nonlinear_arith)
                    requires
                        decimal_value(s) > MAX_RANK / UNIT,
                ;
                None
            },
            Some(x) => {
                assert(x * UNIT <= MAX_RANK) by (nonlinear_arith)
                    requires
                        x <= MAX_RANK / UNIT,
                ;
                Some(x * UNIT)
            },
        }
    } else {
        let ghost e = d - a;
        assert(s[e] == '.');
        assert(!all_digits(s)) by {
            assert(!is_digit(s[e]));
        }
        if b - a < 2 {
            return None;
        }
        if !digits_only(v, a, d) || !digits_only(v, d + 1, b) {
            proof {
                assert(s.take(e) =~= v@.subrange(a as int, d as int));
                assert(s.skip(e + 1) =~= v@.subrange(d + 1, b as int));
                assert forall|e2: int| !dot_at(s, e2) by {
                    if dot_at(s, e2) {
                        if e2 < e {
                            assert(s.skip(e2 + 1)[e - e2 - 1] == s[e]);
                        } else if e2 > e {
                            assert(s.take(e2)[e] == s[e]);
                        } else {
                            assert(all_digits(s.take(e)) && all_digits(s.skip(e + 1)));
                        }
                    }
                }
            }
            return None;
        }
        proof {
            assert(s.take(e) =~= v@.subrange(a as int, d as int));
            assert(s.skip(e + 1) =~= v@.subrange(d + 1, b as int));
            assert(dot_at(s, e));
            assert forall|e2: int| dot_at(s, e2) implies e2 == e by {
                if e2 < e {
                    assert(s.skip(e2 + 1)[e - e2 - 1] == s[e]);
                } else if e2 > e {
                    assert(s.take(e2)[e] == s[e]);
                }
            }
        }
        let ghost fs = v@.subrange(d + 1, b as int);
        let whole = match digits_up_to(v, a, d, MAX_RANK / UNIT) {
            None => {
                assert(decimal_value(s.take(e)) * UNIT + frac_prefix(fs, FRAC_PLACES as nat)
                    > MAX_RANK) by (nonlinear_arith)
                    requires
                        decimal_value(s.take(e)) > MAX_RANK / UNIT,
                ;
                return None;
            },
            Some(x) => x,
        };
        let mut frac: u64 = 0;
        let mut k: usize = 0;
        while k < FRAC_PLACES as usize
            invariant
                k <= FRAC_PLACES,
                d + 1 <= b <= v.len(),
                fs == v@.subrange(d + 1, b as int),
                all_digits(fs),
                frac == frac_prefix(fs, k as nat),
                k == 0 ==> frac == 0,
                k <= 1 ==> frac < 10,
                k <= 2 ==> frac < 100,
                k <= 3 ==> frac < 1_000,
                k <= 4 ==> frac < 10_000,
                k <= 5 ==> frac < 100_000,
                frac < 1_000_000,
            decreases FRAC_PLACES - k,
        {
            let mut dg: u64 = 0;
            if k < b - (d + 1) {
                assert(is_digit(fs[k as int]));
                dg = (v[d + 1 + k] as u32 - '0' as u32) as u64;
            }
            assert(dg == frac_digit(fs, k as int));
            frac = frac * 10 + dg;
            k = k + 1;
        }
        assert(whole * UNIT <= MAX_RANK) by (nonlinear_arith)
            requires
                whole <= MAX_RANK / UNIT,
        ;
        let units = whole * UNIT + frac;
        if units > MAX_RANK {
            None
        } else {
            Some(units)
        }
    }
}

/// Reads the integer written in `v[a..b]`.
pub fn parse_time(v: &Vec<char>, a: usize, b: usize) -> (r: Option<i64>)
    requires
        a <= b <= v.len(),
    ensures
        r matches Some(x) ==> time_of_text(v@.subrange(a as int, b as int)) == Some(x as int),
        r is None ==> time_of_text(v@.subrange(a as int, b as int)) is None,
{
    let ghost s = v@.subrange(a as int, b as int);
    let neg = a < b && v[a] == '-';
    let start = if a < b && (v[a] == '-' || v[a] == '+') {
        a + 1
    } else {
        a
    };
    proof {
        if start == a + 1 {
            assert(s.skip(1) =~= v@.subrange(start as int, b as int));
        } else {
            assert(s =~= v@.subrange(start as int, b as int));
        }
    }
    if start == b || !digits_only(v, start, b) {
        return None;
    }
    match digits_up_to(v, start, b, 0x8000_0000_0000_0000u64) {
        None => None,
        Some(m) => {
            if neg {
                Some((0i128 - m as i128) as i64)
            } else if m <= i64::MAX as u64 {
                Some(m as i64)
            } else {
                None
            }
        },
    }
}

/// Reads one line of the `path|rank|time` format.
pub fn parse_line(line: &str) -> (r: Result<Entry, LineError>)
    ensures
        r matches Ok(e) ==> record_of_line(line@) == Ok::<EntryView, LineError>(e@),
        r matches Err(k) ==> record_of_line(line@) == Err::<EntryView, LineError>(k),
{
    let v = chars_of(line);
    let b1 = find_bar(&v, 0);
    if b1 >= v.len() {
        return Err(LineError::MissingRank);
    }
    let b2 = find_bar(&v, b1 + 1);
    let rank = match parse_rank(&v, b1 + 1, b2) {
        None => {
            return Err(LineError::BadRank);
        },
        Some(x) => x,
    };
    if b2 >= v.len() {
        return Err(LineError::MissingTime);
    }
    let b3 = find_bar(&v, b2 + 1);
    let time = match parse_time(&v, b2 + 1, b3) {
        None => {
            return Err(LineError::BadTime);
        },
        Some(x) => x,
    };
    let path = lowercase(line.substring_char(0, b1));
    assert(line@.subrange(0, b1 as int) =~= line@.take(b1 as int));
    Ok(Entry { path, rank, time })
}

} // verus!
