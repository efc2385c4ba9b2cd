use vstd::prelude::*;

verus! {

/// Why a range expression or its bounds were refused.
#[derive(Clone, Copy, Debug, PartialEq, Eq, Structural)]
pub enum RangeError {
    /// Neither `..` nor `..=` occurs in the expression.
    Malformed,
    /// The expression does not split into exactly two bounds, the start
    /// lies past the end, or the bounds leave no block number.
    InvalidRange,
    /// A bound is not a 32-bit signed decimal integer.
    InvalidBound,
    /// The lower bound names the genesis block, which can't be removed.
    GenesisBlock,
    /// The lower bound is negative.
    NegativeBlockNumber,
}

pub open spec fn is_digit(c: char) -> bool {
    '0' <= c && c <= '9'
}

pub open spec fn all_digits(s: Seq<char>) -> bool {
    forall|i: int| 0 <= i < s.len() ==> is_digit(#[trigger] s[i])
}

/// The number that a string of decimal digits denotes.
pub open spec fn digits_value(s: Seq<char>) -> int
    decreases s.len(),
{
    if s.len() == 0 {
        0
    } else {
        digits_value(s.drop_last()) * 10 + (s.last() as int - '0' as int)
    }
}

/// The integer that `s` spells: an optional sign followed by at least one
/// decimal digit, and nothing else.
pub open spec fn integer_of(s: Seq<char>) -> Option<int> {
    if s.len() == 0 {
        None
    } else if s[0] == '-' || s[0] == '+' {
        let d = s.drop_first();
        if d.len() > 0 && all_digits(d) {
            Some(
                if s[0] == '-' {
                    -digits_value(d)
                } else {
                    digits_value(d)
                },
            )
        } else {
            None
        }
    } else if all_digits(s) {
        Some(digits_value(s))
    } else {
        None
    }
}

/// The 32-bit signed integer that `s` spells, if it spells one in range.
pub open spec fn i32_of(s: Seq<char>) -> Option<i32> {
    match integer_of(s) {
        Some(v) => if i32::MIN <= v <= i32::MAX {
            Some(v as i32)
        } else {
            None
        },
        None => None,
    }
}

proof fn lemma_digits_value_nonneg(s: Seq<char>)
    requires
        all_digits(s),
    ensures
        digits_value(s) >= 0,
    decreases s.len(),
{
    if s.len() > 0 {
        let p = s.drop_last();
        assert(forall|i: int| 0 <= i < p.len() ==> p[i] == s[i]);
        assert(is_digit(s[s.len() - 1]));
        lemma_digits_value_nonneg(p);
    }
}

const DIGITS_CAP: u64 = 2147483649;

/// The value of the digits `chars[lo..hi]`, capped at `DIGITS_CAP`, or
/// `None` if one of them is not a digit.
fn capped_digits_value(chars: &Vec<char>, lo: usize, hi: usize) -> (r: Option<u64>)
    requires
        lo <= hi <= chars@.len(),
    ensures
        match r {
            None => !all_digits(chars@.subrange(lo as int, hi as int)),
            Some(v) => all_digits(chars@.subrange(lo as int, hi as int)) && if digits_value(
                chars@.subrange(lo as int, hi as int),
            ) < DIGITS_CAP {
                v == digits_value(chars@.subrange(lo as int, hi as int))
            } else {
                v == DIGITS_CAP
            },
        },
{
    let mut acc: u64 = 0;
    let mut k: usize = lo;
    while k < hi
        invariant
            lo <= k <= hi <= chars@.len(),
            all_digits(chars@.subrange(lo as int, k as int)),
            digits_value(chars@.subrange(lo as int, k as int)) < DIGITS_CAP ==> acc == digits_value(
                chars@.subrange(lo as int, k as int),
            ),
            digits_value(chars@.subrange(lo as int, k as int)) >= DIGITS_CAP ==> acc == DIGITS_CAP,
        decreases hi - k,
    {
        let c = chars[k];
        let ghost prev = chars@.subrange(lo as int, k as int);
        let ghost next = chars@.subrange(lo as int, k + 1);
        if !('0' <= c && c <= '9') {
            assert(next[k - lo] == c);
            assert(!all_digits(chars@.subrange(lo as int, hi as int))) by {
                assert(chars@.subrange(lo as int, hi as int)[k - lo] == c);
            }
            return None;
        }
        assert(next.drop_last() =~= prev);
        assert(next.last() == c);
        assert(all_digits(next)) by {
            assert forall|i: int| 0 <= i < next.len() implies is_digit(#[trigger] next[i]) by {
                if i < prev.len() {
                    assert(next[i] == prev[i]);
                }
            }
        }
        proof {
            lemma_digits_value_nonneg(prev);
        }
        let d = (c as u32 - '0' as u32) as u64;
        if acc < DIGITS_CAP {
            let t = acc * 10 + d;
            acc = if t < DIGITS_CAP {
                t
            } else {
                DIGITS_CAP
            };
        }
        k = k + 1;
    }
    Some(acc)
}

/// Parses `chars[lo..hi]` as a 32-bit signed decimal integer.
fn parse_i32(chars: &Vec<char>, lo: usize, hi: usize) -> (r: Option<i32>)
    requires
        lo <= hi <= chars@.len(),
    ensures
        r == i32_of(chars@.subrange(lo as int, hi as int)),
{
    let ghost s = chars@.subrange(lo as int, hi as int);
    if lo == hi {
        return None;
    }
    let c0 = chars[lo];
    if c0 == '-' || c0 == '+' {
        assert(s.drop_first() =~= chars@.subrange(lo + 1, hi as int));
        if lo + 1 == hi {
            return None;
        }
        match capped_digits_value(chars, lo + 1, hi) {
            None => None,
            Some(v) => {
                if c0 == '-' {
                    if v <= 2147483648 {
                        Some((0 - v as i64) as i32)
                    } else {
                        None
                    }
                } else if v <= 2147483647 {
                    Some(v as i32)
                } else {
                    None
                }
            },
        }
    } else {
        match capped_digits_value(chars, lo, hi) {
            None => None,
            Some(v) => {
                if v <= 2147483647 {
                    Some(v as i32)
                } else {
                    None
                }
            },
        }
    }
}

/// `sep` occurs in `s` at position `i`.
pub open spec fn occurs_at(s: Seq<char>, sep: Seq<char>, i: int) -> bool {
    0 <= i && i + sep.len() <= s.len() && s.subrange(i, i + sep.len()) == sep
}

/// The first position at or after `from` where `sep` occurs in `s`.
pub open spec fn first_occurrence(s: Seq<char>, sep: Seq<char>, from: int) -> Option<int>
    decreases s.len() - from,
{
    if from < 0 || sep.len() == 0 || from + sep.len() > s.len() {
        None
    } else if occurs_at(s, sep, from) {
        Some(from)
    } else {
        first_occurrence(s, sep, from + 1)
    }
}

/// The two pieces of `s` around `sep`, where splitting `s` at each
/// non-overlapping occurrence of `sep`, from the left, gives exactly two.
pub open spec fn split_in_two(s: Seq<char>, sep: Seq<char>) -> Option<(Seq<char>, Seq<char>)> {
    match first_occurrence(s, sep, 0) {
        None => None,
        Some(i) => match first_occurrence(s, sep, i + sep.len()) {
            Some(_) => None,
            None => Some((s.subrange(0, i), s.subrange(i + sep.len(), s.len() as int))),
        },
    }
}

pub open spec fn exclusive_sep() -> Seq<char> {
    seq!['.', '.']
}

pub open spec fn inclusive_sep() -> Seq<char> {
    seq!['.', '.', '=']
}

/// A range of block numbers with optional bounds.
#[derive(Clone, Copy, Debug, PartialEq, Eq, Structural)]
pub struct Range {
    pub lower_bound: Option<i32>,
    pub upper_bound: Option<i32>,
    pub inclusive: bool,
}

/// The range that the expression `s` denotes: `A..B` excludes `B`, `A..=B`
/// includes it, either bound may be left out, and an open upper bound is
/// always inclusive.
pub open spec fn range_of(s: Seq<char>) -> Result<Range, RangeError> {
    if first_occurrence(s, exclusive_sep(), 0).is_none() {
        Err(RangeError::Malformed)
    } else {
        let inclusive = first_occurrence(s, inclusive_sep(), 0).is_some();
        let sep = if inclusive {
            inclusive_sep()
        } else {
            exclusive_sep()
        };
        match split_in_two(s, sep) {
            None => Err(RangeError::InvalidRange),
            Some((a, b)) => if a.len() == 0 && b.len() == 0 {
                Ok(Range { lower_bound: None, upper_bound: None, inclusive: true })
            } else if b.len() == 0 {
                match i32_of(a) {
                    None => Err(RangeError::InvalidBound),
                    Some(x) => Ok(Range { lower_bound: Some(x), upper_bound: None, inclusive: true }),
                }
            } else if a.len() == 0 {
                match i32_of(b) {
                    None => Err(RangeError::InvalidBound),
                    Some(y) => Ok(Range { lower_bound: None, upper_bound: Some(y), inclusive }),
                }
            } else {
                match (i32_of(a), i32_of(b)) {
                    (Some(x), Some(y)) => if x > y {
                        Err(RangeError::InvalidRange)
                    } else {
                        Ok(Range { lower_bound: Some(x), upper_bound: Some(y), inclusive })
                    },
                    _ => Err(RangeError::InvalidBound),
                }
            },
        }
    }
}

/// The first and last block numbers of a range.  A missing lower bound
/// means block 1, the first block after genesis; a missing upper bound
/// stays open, to be settled by the chain head.
pub open spec fn min_max_of(r: Range) -> Result<(i32, Option<i32>), RangeError> {
    let min: Result<i32, RangeError> = match r.lower_bound {
        None => Ok(1),
        Some(x) => if x == 0 {
            Err(RangeError::GenesisBlock)
        } else if x < 0 {
            Err(RangeError::NegativeBlockNumber)
        } else {
            Ok(x)
        },
    };
    match min {
        Err(e) => Err(e),
        Ok(m) => match r.upper_bound {
            None => Ok((m, None)),
            Some(y) => if r.inclusive {
                Ok((m, Some(y)))
            } else if y == i32::MIN {
                Err(RangeError::InvalidRange)
            } else {
                Ok((m, Some((y - 1) as i32)))
            },
        },
    }
}

/// Whether `sep` occurs in `chars` at position `i`.
fn occurs_at_exec(chars: &Vec<char>, sep: &Vec<char>, i: usize) -> (r: bool)
    ensures
        r == occurs_at(chars@, sep@, i as int),
{
    if i > chars.len() || sep.len() > chars.len() - i {
        return false;
    }
    let n = chars.len();
    let mut j: usize = 0;
    while j < sep.len()
        invariant
            n == chars@.len(),
            i + sep@.len() <= chars@.len(),
            j <= sep@.len(),
            forall|k: int| 0 <= k < j ==> chars@[i + k] == sep@[k],
        decreases sep@.len() - j,
    {
        if chars[i + j] != sep[j] {
            assert(chars@.subrange(i as int, i + sep@.len())[j as int] != sep@[j as int]);
            return false;
        }
        j = j + 1;
    }
    assert(chars@.subrange(i as int, i + sep@.len()) =~= sep@);
    true
}

/// The first position at or after `from` where `sep` occurs in `chars`.
fn first_occurrence_exec(chars: &Vec<char>, sep: &Vec<char>, from: usize) -> (r: Option<usize>)
    requires
        sep@.len() > 0,
    ensures
        r matches Some(i) ==> i as int + sep@.len() <= chars@.len(),
        r matches Some(i) ==> first_occurrence(chars@, sep@, from as int) == Some(i as int),
        r is None <==> first_occurrence(chars@, sep@, from as int) is None,
    decreases chars@.len() - from,
{
    if from > chars.len() || sep.len() > chars.len() - from {
        return None;
    }
    if occurs_at_exec(chars, sep, from) {
        Some(from)
    } else {
        first_occurrence_exec(chars, sep, from + 1)
    }
}

fn separator(inclusive: bool) -> (r: Vec<char>)
    ensures
        r@ == (if inclusive {
            inclusive_sep()
        } else {
            exclusive_sep()
        }),
{
    let mut v: Vec<char> = Vec::new();
    v.push('.');
    v.push('.');
    if inclusive {
        v.push('=');
    }
    assert(v@ =~= (if inclusive {
        inclusive_sep()
    } else {
        exclusive_sep()
    }));
    v
}

fn chars_of(s: &str) -> (r: Vec<char>)
    ensures
        r@ == s@,
{
    let n = s.unicode_len();
    let mut v: Vec<char> = Vec::new();
    let mut i: usize = 0;
    while i < n
        invariant
            n == s@.len(),
            i <= n,
            v@ == s@.subrange(0, i as int),
        decreases n - i,
    {
        v.push(s.get_char(i));
        i = i + 1;
        assert(v@ =~= s@.subrange(0, i as int));
    }
    assert(v@ =~= s@);
    v
}

impl Range {
    pub fn new(lower_bound: Option<i32>, upper_bound: Option<i32>, inclusive: bool) -> (r: Range)
        ensures
            r == (Range { lower_bound, upper_bound, inclusive }),
    {
        Range { lower_bound, upper_bound, inclusive }
    }

    /// Reads a range expression such as `5..10`, `5..=10`, `5..`, `..=10`
    /// or `..`.
    pub fn parse(s: &str) -> (r: Result<Range, RangeError>)
        ensures
            r == range_of(s@),
    {
        let chars = chars_of(s);
        let n = chars.len();
        let dots = separator(false);
        if first_occurrence_exec(&chars, &dots, 0).is_none() {
            return Err(RangeError::Malformed);
        }
        let dots_eq = separator(true);
        let inclusive = first_occurrence_exec(&chars, &dots_eq, 0).is_some();
        let sep = if inclusive { dots_eq } else { dots };
        let i = match first_occurrence_exec(&chars, &sep, 0) {
            None => {
                return Err(RangeError::InvalidRange);
            },
            Some(i) => i,
        };
        let after = i + sep.len();
        if first_occurrence_exec(&chars, &sep, after).is_some() {
            return Err(RangeError::InvalidRange);
        }
        let ghost a = chars@.subrange(0, i as int);
        let ghost b = chars@.subrange(after as int, n as int);
        assert(split_in_two(s@, sep@) == Some((a, b)));
        if i == 0 && after == n {
            Ok(Range::new(None, None, true))
        } else if after == n {
            match parse_i32(&chars, 0, i) {
                None => Err(RangeError::InvalidBound),
                Some(x) => Ok(Range::new(Some(x), None, true)),
            }
        } else if i == 0 {
            match parse_i32(&chars, after, n) {
                None => Err(RangeError::InvalidBound),
                Some(y) => Ok(Range::new(None, Some(y), inclusive)),
            }
        } else {
            let start = parse_i32(&chars, 0, i);
            let end = parse_i32(&chars, after, n);
            match (start, end) {
                (Some(x), Some(y)) => {
                    if x > y {
                        Err(RangeError::InvalidRange)
                    } else {
                        Ok(Range::new(Some(x), Some(y), inclusive))
                    }
                },
                _ => Err(RangeError::InvalidBound),
            }
        }
    }

    /// The first block number of the range and, unless it is open, the last.
    pub fn min_max(&self) -> (r: Result<(i32, Option<i32>), RangeError>)
        ensures
            r == min_max_of(*self),
    {
        let min = match self.lower_bound {
            None => 1,
            Some(x) => {
                if x == 0 {
                    return Err(RangeError::GenesisBlock);
                } else if x < 0 {
                    return Err(RangeError::NegativeBlockNumber);
                }
                x
            },
        };
        match self.upper_bound {
            None => Ok((min, None)),
            Some(y) => {
                if self.inclusive {
                    Ok((min, Some(y)))
                } else if y == i32::MIN {
                    Err(RangeError::InvalidRange)
                } else {
                    Ok((min, Some(y - 1)))
                }
            },
        }
    }
}

impl std::str::FromStr for Range {
    type Err = RangeError;

    fn from_str(s: &str) -> (r: Result<Range, RangeError>)
        ensures
            r == range_of(s@),
    {
        Range::parse(s)
    }
}

} // verus!
