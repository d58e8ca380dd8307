//! Splitting text into words and lines and reading decimal numbers, with the
//! meaning that `str::split_whitespace`, `str::lines` and `u16::from_str`
//! give them.
use vstd::prelude::*;

use crate::text::{chars_of, is_whitespace, is_ws};

verus! {

/// The number of leading characters of `s` that are not whitespace.
pub open spec fn word_len(s: Seq<char>) -> nat
    decreases s.len(),
{
    if s.len() == 0 || is_ws(s[0]) {
        0
    } else {
        1 + word_len(s.drop_first())
    }
}

/// The maximal runs of non-whitespace characters of `s`, in order.
pub open spec fn words_of(s: Seq<char>) -> Seq<Seq<char>>
    decreases s.len(),
{
    if s.len() == 0 {
        Seq::empty()
    } else if is_ws(s[0]) {
        words_of(s.drop_first())
    } else {
        let n: int = if 0 < word_len(s) <= s.len() {
            word_len(s) as int
        } else {
            1
        };
        seq![s.subrange(0, n)] + words_of(s.subrange(n, s.len() as int))
    }
}

proof fn lemma_word_len(s: Seq<char>, k: int)
    requires
        0 <= k <= s.len(),
        forall|j: int| 0 <= j < k ==> !is_ws(#[trigger] s[j]),
        k == s.len() || is_ws(s[k]),
    ensures
        word_len(s) == k,
    decreases k,
{
    if k > 0 {
        assert forall|j: int| 0 <= j < k - 1 implies !is_ws(#[trigger] s.drop_first()[j]) by {
            assert(s.drop_first()[j] == s[j + 1]);
        }
        if k < s.len() {
            assert(s.drop_first()[k - 1] == s[k]);
        }
        lemma_word_len(s.drop_first(), k - 1);
    }
}

/// The words of `s`, as `str::split_whitespace` gives them.
pub fn split_words(s: &str) -> (r: Vec<String>)
    ensures
        r@.map_values(|w: String| w@) == words_of(s@),
{
    let sc = chars_of(s);
    let n = sc.len();
    let mut r: Vec<String> = Vec::new();
    let mut i: usize = 0;
    assert(s@.subrange(0, n as int) =~= s@);
    while i < n
        invariant
            sc@ == s@,
            n == s@.len(),
            i <= n,
            words_of(s@) == r@.map_values(|w: String| w@) + words_of(s@.subrange(i as int, n as int)),
        decreases n - i,
    {
        let ghost rest = s@.subrange(i as int, n as int);
        if is_whitespace(sc[i]) {
            assert(rest.drop_first() =~= s@.subrange(i + 1, n as int));
            i = i + 1;
        } else {
            let mut j: usize = i + 1;
            while j < n && !is_whitespace(sc[j])
                invariant
                    sc@ == s@,
                    n == s@.len(),
                    i < j <= n,
                    forall|k: int| i <= k < j ==> !is_ws(#[trigger] s@[k]),
                decreases n - j,
            {
                j = j + 1;
            }
            proof {
                assert forall|k: int| 0 <= k < j - i implies !is_ws(#[trigger] rest[k]) by {
                    assert(rest[k] == s@[i + k]);
                }
                if j < n {
                    assert(rest[j - i] == s@[j as int]);
                }
                lemma_word_len(rest, j - i);
                assert(rest.subrange(0, j - i) =~= s@.subrange(i as int, j as int));
                assert(rest.subrange(j - i, rest.len() as int) =~= s@.subrange(j as int, n as int));
            }
            let w = s.substring_char(i, j).to_string();
            let ghost before = r@.map_values(|w: String| w@);
            r.push(w);
            assert(r@.map_values(|w: String| w@) =~= before.push(s@.subrange(i as int, j as int)));
            assert(before.push(s@.subrange(i as int, j as int)) + words_of(s@.subrange(j as int, n as int))
                =~= before + (seq![s@.subrange(i as int, j as int)] + words_of(s@.subrange(j as int, n as int))));
            i = j;
        }
    }
    assert(s@.subrange(i as int, n as int) =~= Seq::<char>::empty());
    assert(r@.map_values(|w: String| w@) + Seq::<Seq<char>>::empty() =~= r@.map_values(|w: String| w@));
    r
}

/// The position of the first `'\n'` in `s`, or its length.
pub open spec fn line_end(s: Seq<char>) -> nat
    decreases s.len(),
{
    if s.len() == 0 || s[0] == '\n' {
        0
    } else {
        1 + line_end(s.drop_first())
    }
}

/// A line without the `'\r'` of a `"\r\n"` ending.
pub open spec fn without_cr(l: Seq<char>, ended: bool) -> Seq<char> {
    if ended && l.len() > 0 && l.last() == '\r' {
        l.drop_last()
    } else {
        l
    }
}

/// The lines of `s`, as `str::lines` gives them.
pub open spec fn lines_of(s: Seq<char>) -> Seq<Seq<char>>
    decreases s.len(),
{
    if s.len() == 0 {
        Seq::empty()
    } else {
        let n: int = if line_end(s) < s.len() {
            line_end(s) as int
        } else {
            s.len() as int
        };
        if n == s.len() {
            seq![s]
        } else {
            seq![without_cr(s.subrange(0, n), true)] + lines_of(s.subrange(n + 1, s.len() as int))
        }
    }
}

proof fn lemma_line_end(s: Seq<char>, k: int)
    requires
        0 <= k <= s.len(),
        forall|j: int| 0 <= j < k ==> #[trigger] s[j] != '\n',
        k == s.len() || s[k] == '\n',
    ensures
        line_end(s) == k,
    decreases k,
{
    if k > 0 {
        assert forall|j: int| 0 <= j < k - 1 implies #[trigger] s.drop_first()[j] != '\n' by {
            assert(s.drop_first()[j] == s[j + 1]);
        }
        if k < s.len() {
            assert(s.drop_first()[k - 1] == s[k]);
        }
        lemma_line_end(s.drop_first(), k - 1);
    }
}

/// The lines of `s`, as `str::lines` gives them.
pub fn split_lines(s: &str) -> (r: Vec<String>)
    ensures
        r@.map_values(|w: String| w@) == lines_of(s@),
{
    let sc = chars_of(s);
    let n = sc.len();
    let mut r: Vec<String> = Vec::new();
    let mut i: usize = 0;
    assert(s@.subrange(0, n as int) =~= s@);
    while i < n
        invariant
            sc@ == s@,
            n == s@.len(),
            i <= n,
            lines_of(s@) == r@.map_values(|w: String| w@) + lines_of(s@.subrange(i as int, n as int)),
        decreases n - i,
    {
        let ghost rest = s@.subrange(i as int, n as int);
        let mut j: usize = i;
        while j < n && sc[j] != '\n'
            invariant
                sc@ == s@,
                n == s@.len(),
                i <= j <= n,
                forall|k: int| i <= k < j ==> #[trigger] s@[k] != '\n',
            decreases n - j,
        {
            j = j + 1;
        }
        proof {
            assert forall|k: int| 0 <= k < j - i implies #[trigger] rest[k] != '\n' by {
                assert(rest[k] == s@[i + k]);
            }
            if j < n {
                assert(rest[j - i] == s@[j as int]);
            }
            lemma_line_end(rest, j - i);
            assert(rest.subrange(0, j - i) =~= s@.subrange(i as int, j as int));
        }
        let ghost before = r@.map_values(|w: String| w@);
        if j == n {
            let w = s.substring_char(i, j).to_string();
            r.push(w);
            assert(rest =~= s@.subrange(i as int, j as int));
            assert(r@.map_values(|w: String| w@) =~= before.push(rest));
            assert(s@.subrange(n as int, n as int) =~= Seq::<char>::empty());
            assert(before + seq![rest] =~= before.push(rest));
            i = n;
        } else {
            let end = if j > i && sc[j - 1] == '\r' {
                j - 1
            } else {
                j
            };
            let w = s.substring_char(i, end).to_string();
            proof {
                let l = s@.subrange(i as int, j as int);
                assert(w@ == without_cr(l, true)) by {
                    if j > i && s@[j - 1] == '\r' {
                        assert(l.drop_last() =~= s@.subrange(i as int, end as int));
                    }
                }
                assert(rest.subrange(j - i + 1, rest.len() as int) =~= s@.subrange(j + 1, n as int));
            }
            r.push(w);
            assert(r@.map_values(|w: String| w@) =~= before.push(w@));
            assert(before.push(w@) + lines_of(s@.subrange(j + 1, n as int)) =~= before + (seq![w@]
                + lines_of(s@.subrange(j + 1, n as int))));
            i = j + 1;
        }
    }
    assert(s@.subrange(i as int, n as int) =~= Seq::<char>::empty());
    assert(r@.map_values(|w: String| w@) + Seq::<Seq<char>>::empty() =~= r@.map_values(|w: String| w@));
    r
}

/// Whether every character of `s` is an ASCII digit.
pub open spec fn all_digits(s: Seq<char>) -> bool {
    forall|i: int| 0 <= i < s.len() ==> '0' <= #[trigger] s[i] && s[i] <= '9'
}

/// The number the decimal digits of `s` spell.
pub open spec fn digits_value(s: Seq<char>) -> nat
    decreases s.len(),
{
    if s.len() == 0 {
        0
    } else {
        digits_value(s.drop_last()) * 10 + ((s.last() as u32) - ('0' as u32)) as nat
    }
}

/// The number `s` holds as an unsigned decimal no larger than `max`, with an
/// optional leading `+`, as the integer `from_str` of std reads it.
pub open spec fn parse_decimal(s: Seq<char>, max: nat) -> Option<nat> {
    let d = if s.len() > 0 && s[0] == '+' {
        s.drop_first()
    } else {
        s
    };
    if d.len() > 0 && all_digits(d) && digits_value(d) <= max {
        Some(digits_value(d))
    } else {
        None
    }
}

proof fn lemma_digits_grow(s: Seq<char>, k: int)
    requires
        0 <= k <= s.len(),
        all_digits(s),
    ensures
        digits_value(s.subrange(0, k)) <= digits_value(s),
    decreases s.len() - k,
{
    if k < s.len() {
        lemma_digits_grow(s, k + 1);
        assert(s.subrange(0, k + 1).drop_last() =~= s.subrange(0, k));
    } else {
        assert(s.subrange(0, k) =~= s);
    }
}

/// Reads `s` as an unsigned decimal no larger than `max`.
pub fn parse_uint(s: &str, max: u64) -> (r: Option<u64>)
    ensures
        r matches Some(v) ==> parse_decimal(s@, max as nat) == Some(v as nat),
        r is None ==> parse_decimal(s@, max as nat) is None,
{
    let sc = chars_of(s);
    let start: usize = if sc.len() > 0 && sc[0] == '+' {
        1
    } else {
        0
    };
    let ghost d = if s@.len() > 0 && s@[0] == '+' {
        s@.drop_first()
    } else {
        s@
    };
    assert(d =~= s@.subrange(start as int, s@.len() as int));
    if start >= sc.len() {
        assert(d.len() == 0);
        return None;
    }
    let mut v: u64 = 0;
    let mut i: usize = start;
    while i < sc.len()
        invariant
            sc@ == s@,
            start <= i <= s@.len(),
            d == s@.subrange(start as int, s@.len() as int),
            d == (if s@.len() > 0 && s@[0] == '+' {
                s@.drop_first()
            } else {
                s@
            }),
            all_digits(d.subrange(0, i - start)),
            v == digits_value(d.subrange(0, i - start)),
            v <= max,
        decreases sc.len() - i,
    {
        let c = sc[i];
        if c < '0' || c > '9' {
            assert(d[i - start] == c);
            assert(!all_digits(d));
            return None;
        }
        let digit = (c as u32 - '0' as u32) as u64;
        assert(d.subrange(0, i - start + 1).drop_last() =~= d.subrange(0, i - start));
        assert(d.subrange(0, i - start + 1).last() == c);
        if v > max / 10 || digit > max - v * 10 {
            proof {
                if v > max / 10 {
                    assert(v * 10 > max) by (nonlinear_arith)
                        requires
                            v > max / 10,
                    ;
                }
                assert(digits_value(d.subrange(0, i - start + 1)) == v * 10 + digit);
                assert(v * 10 + digit > max);
                if all_digits(d) {
                    lemma_digits_grow(d, i - start + 1);
                    assert(digits_value(d) > max);
                }
            }
            return None;
        }
        assert(v * 10 <= max) by (nonlinear_arith)
            requires
                v <= max / 10,
        ;
        v = v * 10 + digit;
        i = i + 1;
        assert(all_digits(d.subrange(0, i - start))) by {
            assert forall|k: int| 0 <= k < i - start implies '0' <= #[trigger] d.subrange(0, i - start)[k]
                && d.subrange(0, i - start)[k] <= '9' by {
                if k < i - start - 1 {
                    assert(d.subrange(0, i - start)[k] == d.subrange(0, i - start - 1)[k]);
                }
            }
        }
    }
    assert(d.subrange(0, i - start) =~= d);
    Some(v)
}

} // verus!
