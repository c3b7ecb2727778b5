//! Bytes read as the line-and-word text the instance and solution files
//! are written in: lines split at `\n`, ASCII whitespace trimmed and
//! separating words, integers in the decimal form Rust's own `parse`
//! accepts.

use vstd::prelude::*;

verus! {

/// An ASCII whitespace byte: tab, line feed, vertical tab, form feed,
/// carriage return or space.
pub open spec fn is_space(b: u8) -> bool {
    b == 9 || b == 10 || b == 11 || b == 12 || b == 13 || b == 32
}

/// The lines of `s[i..]`, the current one begun at `start`.
pub open spec fn lines_at(s: Seq<u8>, i: int, start: int) -> Seq<Seq<u8>>
    decreases s.len() - i,
{
    if i >= s.len() {
        if start < s.len() {
            seq![s.subrange(start, s.len() as int)]
        } else {
            Seq::empty()
        }
    } else if s[i] == 10 {
        seq![s.subrange(start, i)] + lines_at(s, i + 1, i + 1)
    } else {
        lines_at(s, i + 1, start)
    }
}

/// The lines of `s`: split at each `\n`, with no empty line after a final
/// one.
pub open spec fn lines(s: Seq<u8>) -> Seq<Seq<u8>> {
    lines_at(s, 0, 0)
}

/// The first position from `i` on that holds no whitespace.
pub open spec fn skip_space(s: Seq<u8>, i: int) -> int
    decreases s.len() - i,
{
    if i >= s.len() || !is_space(s[i]) {
        i
    } else {
        skip_space(s, i + 1)
    }
}

/// The position just past the last non-whitespace byte before `j`.
pub open spec fn back_space(s: Seq<u8>, j: int) -> int
    decreases j,
{
    if j <= 0 || !is_space(s[j - 1]) {
        j
    } else {
        back_space(s, j - 1)
    }
}

/// `s` without leading and trailing whitespace.
pub open spec fn trim(s: Seq<u8>) -> Seq<u8> {
    let a = skip_space(s, 0);
    let b = back_space(s, s.len() as int);
    if a < b {
        s.subrange(a, b)
    } else {
        Seq::empty()
    }
}

/// The words of `s[i..]`, a word in progress begun at `start` when
/// `start >= 0`.
pub open spec fn words_at(s: Seq<u8>, i: int, start: int) -> Seq<Seq<u8>>
    decreases s.len() - i,
{
    if i >= s.len() {
        if start >= 0 {
            seq![s.subrange(start, s.len() as int)]
        } else {
            Seq::empty()
        }
    } else if is_space(s[i]) {
        if start >= 0 {
            seq![s.subrange(start, i)] + words_at(s, i + 1, -1)
        } else {
            words_at(s, i + 1, -1)
        }
    } else {
        words_at(s, i + 1, if start >= 0 {
            start
        } else {
            i
        })
    }
}

/// The words of `s`: its maximal runs of non-whitespace bytes.
pub open spec fn words(s: Seq<u8>) -> Seq<Seq<u8>> {
    words_at(s, 0, -1)
}

pub open spec fn is_digit(b: u8) -> bool {
    48 <= b <= 57
}

/// Every byte of `d` is a decimal digit.
pub open spec fn all_digits(d: Seq<u8>) -> bool {
    forall|i: int| 0 <= i < d.len() ==> is_digit(#[trigger] d[i])
}

/// The value of a string of decimal digits.
pub open spec fn digits_value(s: Seq<u8>) -> int
    decreases s.len(),
{
    if s.len() == 0 {
        0
    } else {
        digits_value(s.drop_last()) * 10 + (s.last() - 48)
    }
}

/// The integer `s` spells for a type spanning `lo..=hi`, as Rust's `parse`
/// reads it: an optional `+`, or `-` for a signed type, then at least one
/// decimal digit; `None` for anything else or a value out of range.
pub open spec fn int_of(s: Seq<u8>, signed: bool, lo: int, hi: int) -> Option<int> {
    let neg = signed && s.len() > 0 && s[0] == 45;
    let sign = s.len() > 0 && (s[0] == 43 || neg);
    let d = if sign {
        s.drop_first()
    } else {
        s
    };
    if d.len() == 0 || !all_digits(d) {
        None
    } else {
        let v = if neg {
            -digits_value(d)
        } else {
            digits_value(d)
        };
        if lo <= v <= hi {
            Some(v)
        } else {
            None
        }
    }
}

/// `s` split into its lines.
pub fn split_lines(s: &[u8]) -> (r: Vec<Vec<u8>>)
    ensures
        r@.len() == lines(s@).len(),
        forall|k: int| 0 <= k < r@.len() ==> (#[trigger] r@[k])@ == lines(s@)[k],
{
    let mut out: Vec<Vec<u8>> = Vec::new();
    let mut cur: Vec<u8> = Vec::new();
    let mut start: usize = 0;
    let mut i: usize = 0;
    while i < s.len()
        invariant
            start <= i <= s@.len(),
            cur@ == s@.subrange(start as int, i as int),
            forall|k: int| 0 <= k < out@.len() ==> (#[trigger] out@[k])@ == (out@.map_values(
                |v: Vec<u8>| v@,
            ))[k],
            out@.map_values(|v: Vec<u8>| v@) + lines_at(s@, i as int, start as int) == lines(s@),
        decreases s@.len() - i,
    {
        let ghost before = out@.map_values(|v: Vec<u8>| v@);
        if s[i] == 10 {
            let line = cur;
            cur = Vec::new();
            proof {
                assert(line@ == s@.subrange(start as int, i as int));
            }
            out.push(line);
            proof {
                assert(out@.map_values(|v: Vec<u8>| v@) =~= before.push(s@.subrange(start as int, i as int)));
                assert(lines_at(s@, i as int, start as int) == seq![s@.subrange(start as int, i as int)]
                    + lines_at(s@, i + 1, i + 1));
                assert(before + lines_at(s@, i as int, start as int) =~= before.push(
                    s@.subrange(start as int, i as int),
                ) + lines_at(s@, i + 1, i + 1));
            }
            start = i + 1;
        } else {
            cur.push(s[i]);
            proof {
                assert(cur@ =~= s@.subrange(start as int, i + 1));
            }
        }
        i += 1;
    }
    let ghost before = out@.map_values(|v: Vec<u8>| v@);
    if start < s.len() {
        out.push(cur);
        proof {
            assert(out@.map_values(|v: Vec<u8>| v@) =~= before.push(s@.subrange(start as int, s@.len() as int)));
            assert(before + lines_at(s@, i as int, start as int) =~= out@.map_values(|v: Vec<u8>| v@));
        }
    } else {
        proof {
            assert(before + lines_at(s@, i as int, start as int) =~= before);
        }
    }
    proof {
        assert forall|k: int| 0 <= k < out@.len() implies (#[trigger] out@[k])@ == lines(s@)[k] by {
            assert(out@.map_values(|v: Vec<u8>| v@)[k] == out@[k]@);
        }
    }
    out
}


/// `s` without leading and trailing whitespace.
pub fn trimmed(s: &[u8]) -> (r: Vec<u8>)
    ensures
        r@ == trim(s@),
{
    let mut a: usize = 0;
    while a < s.len() && is_space_byte(s[a])
        invariant
            a <= s@.len(),
            skip_space(s@, 0) == skip_space(s@, a as int),
        decreases s@.len() - a,
    {
        a += 1;
    }
    let mut b: usize = s.len();
    while b > 0 && is_space_byte(s[b - 1])
        invariant
            b <= s@.len(),
            back_space(s@, s@.len() as int) == back_space(s@, b as int),
        decreases b,
    {
        b -= 1;
    }
    let mut out: Vec<u8> = Vec::new();
    if a < b {
        let mut i: usize = a;
        while i < b
            invariant
                a <= i <= b <= s@.len(),
                out@ == s@.subrange(a as int, i as int),
            decreases b - i,
        {
            out.push(s[i]);
            proof {
                assert(out@ =~= s@.subrange(a as int, i + 1));
            }
            i += 1;
        }
    }
    proof {
        assert(out@ =~= trim(s@));
    }
    out
}

fn is_space_byte(b: u8) -> (r: bool)
    ensures
        r == is_space(b),
{
    b == 9 || b == 10 || b == 11 || b == 12 || b == 13 || b == 32
}

/// The words of `s`.
pub fn split_words(s: &[u8]) -> (r: Vec<Vec<u8>>)
    ensures
        r@.len() == words(s@).len(),
        forall|k: int| 0 <= k < r@.len() ==> (#[trigger] r@[k])@ == words(s@)[k],
{
    let mut out: Vec<Vec<u8>> = Vec::new();
    let mut cur: Vec<u8> = Vec::new();
    let mut in_word = false;
    let mut start: usize = 0;
    let mut i: usize = 0;
    while i < s.len()
        invariant
            i <= s@.len(),
            in_word ==> start < i && cur@ == s@.subrange(start as int, i as int),
            out@.map_values(|v: Vec<u8>| v@) + words_at(
                s@,
                i as int,
                if in_word {
                    start as int
                } else {
                    -1
                },
            ) == words(s@),
        decreases s@.len() - i,
    {
        let ghost before = out@.map_values(|v: Vec<u8>| v@);
        if is_space_byte(s[i]) {
            if in_word {
                let w = cur;
                cur = Vec::new();
                out.push(w);
                proof {
                    assert(out@.map_values(|v: Vec<u8>| v@) =~= before.push(
                        s@.subrange(start as int, i as int),
                    ));
                    assert(before + words_at(s@, i as int, start as int) =~= before.push(
                        s@.subrange(start as int, i as int),
                    ) + words_at(s@, i + 1, -1));
                }
                in_word = false;
            }
        } else {
            if !in_word {
                in_word = true;
                start = i;
                cur = Vec::new();
            }
            cur.push(s[i]);
            proof {
                assert(cur@ =~= s@.subrange(start as int, i + 1));
            }
        }
        i += 1;
    }
    let ghost before = out@.map_values(|v: Vec<u8>| v@);
    if in_word {
        out.push(cur);
        proof {
            assert(out@.map_values(|v: Vec<u8>| v@) =~= before.push(
                s@.subrange(start as int, s@.len() as int),
            ));
            assert(before + words_at(s@, i as int, start as int) =~= out@.map_values(|v: Vec<u8>| v@));
        }
    } else {
        proof {
            assert(before + words_at(s@, i as int, -1) =~= before);
        }
    }
    proof {
        assert forall|k: int| 0 <= k < out@.len() implies (#[trigger] out@[k])@ == words(s@)[k] by {
            assert(out@.map_values(|v: Vec<u8>| v@)[k] == out@[k]@);
        }
    }
    out
}

/// `s` and `w` hold the same bytes.
pub fn same_bytes(s: &[u8], w: &[u8]) -> (r: bool)
    ensures
        r == (s@ == w@),
{
    if s.len() != w.len() {
        return false;
    }
    let mut i: usize = 0;
    while i < s.len()
        invariant
            i <= s@.len(),
            s@.len() == w@.len(),
            forall|j: int| 0 <= j < i ==> s@[j] == w@[j],
        decreases s@.len() - i,
    {
        if s[i] != w[i] {
            return false;
        }
        i += 1;
    }
    proof {
        assert(s@ =~= w@);
    }
    true
}

/// A longer run of digits is worth at least as much.
proof fn lemma_digits_grow(s: Seq<u8>, k: int)
    requires
        0 <= k <= s.len(),
        forall|i: int| 0 <= i < s.len() ==> is_digit(#[trigger] s[i]),
    ensures
        digits_value(s.subrange(0, k)) <= digits_value(s),
        0 <= digits_value(s.subrange(0, k)),
    decreases s.len() - k,
{
    if k < s.len() {
        lemma_digits_grow(s, k + 1);
        let t = s.subrange(0, k + 1);
        assert(t.drop_last() =~= s.subrange(0, k));
        assert(is_digit(t.last()));
    } else {
        assert(s.subrange(0, k) =~= s);
        lemma_digits_nonneg(s);
    }
}

proof fn lemma_digits_nonneg(s: Seq<u8>)
    requires
        forall|i: int| 0 <= i < s.len() ==> is_digit(#[trigger] s[i]),
    ensures
        0 <= digits_value(s),
    decreases s.len(),
{
    if s.len() > 0 {
        let t = s.drop_last();
        assert forall|i: int| 0 <= i < t.len() implies is_digit(#[trigger] t[i]) by {
            assert(t[i] == s[i]);
        }
        lemma_digits_nonneg(t);
        assert(is_digit(s[s.len() - 1]));
    }
}

proof fn lemma_int_of_shape(s: Seq<u8>, signed: bool, lo: int, hi: int, d: Seq<u8>, neg: bool)
    requires
        neg == (signed && s.len() > 0 && s[0] == 45),
        d == (if s.len() > 0 && (s[0] == 43 || neg) {
            s.drop_first()
        } else {
            s
        }),
    ensures
        int_of(s, signed, lo, hi) == (if d.len() == 0 || !all_digits(d) {
            None
        } else {
            let v = if neg {
                -digits_value(d)
            } else {
                digits_value(d)
            };
            if lo <= v <= hi {
                Some(v)
            } else {
                None
            }
        }),
{
}

/// The integer `s` spells for a type spanning `lo..=hi`.
pub fn parse_int(s: &[u8], signed: bool, lo: i128, hi: i128) -> (r: Option<i128>)
    requires
        -0x1_0000_0000_0000_0000 <= lo <= 0,
        0 <= hi <= 0x1_0000_0000_0000_0000,
    ensures
        r matches Some(v) ==> int_of(s@, signed, lo as int, hi as int) == Some(v as int),
        r is None ==> int_of(s@, signed, lo as int, hi as int) is None,
{
    let n = s.len();
    let neg = signed && n > 0 && s[0] == 45;
    let sign = n > 0 && (s[0] == 43 || neg);
    let first: usize = if sign {
        1
    } else {
        0
    };
    let ghost d = if sign {
        s@.drop_first()
    } else {
        s@
    };
    proof {
        assert(d =~= s@.subrange(first as int, n as int));
    }
    if first >= n {
        return None;
    }
    // The bound on the magnitude: `hi`, or `-lo` for a negative number.
    let cap: i128 = if neg {
        -lo
    } else {
        hi
    };
    let mut v: i128 = 0;
    let mut i: usize = first;
    while i < n
        invariant
            first <= i <= n,
            n == s@.len(),
            d == s@.subrange(first as int, n as int),
            neg == (signed && s@.len() > 0 && s@[0] == 45),
            d == (if s@.len() > 0 && (s@[0] == 43 || neg) {
                s@.drop_first()
            } else {
                s@
            }),
            cap as int == (if neg {
                -lo
            } else {
                hi as int
            }),
            -0x1_0000_0000_0000_0000 <= lo <= 0,
            0 <= hi <= 0x1_0000_0000_0000_0000,
            0 <= cap <= 0x1_0000_0000_0000_0000,
            forall|j: int| 0 <= j < i - first ==> is_digit(#[trigger] d[j]),
            v as int == digits_value(d.subrange(0, i - first)),
            0 <= v <= cap,
        decreases n - i,
    {
        let c = s[i];
        if c < 48 || c > 57 {
            proof {
                assert(d[i - first] == c);
                assert(!is_digit(d[i - first]));
                assert(!all_digits(d));
                lemma_int_of_shape(s@, signed, lo as int, hi as int, d, neg);
            }
            return None;
        }
        let next = v * 10 + (c - 48) as i128;
        proof {
            let t = d.subrange(0, i - first + 1);
            assert(t.drop_last() =~= d.subrange(0, i - first));
            assert(t.last() == c);
        }
        if next > cap {
            proof {
                assert(forall|j: int| 0 <= j < i - first + 1 ==> is_digit(#[trigger] d[j]));
                if all_digits(d) {
                    lemma_digits_grow(d, i - first + 1);
                }
                lemma_int_of_shape(s@, signed, lo as int, hi as int, d, neg);
            }
            return None;
        }
        v = next;
        i += 1;
    }
    proof {
        assert(d.subrange(0, n - first) =~= d);
    }
    if neg {
        Some(-v)
    } else {
        Some(v)
    }
}
} // verus!
