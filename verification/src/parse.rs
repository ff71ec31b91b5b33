//! Parsing one dataset line into a word and its vector. A line holds the
//! word's bytes, one space, then the components separated by single
//! spaces. A component is a signed decimal with at most three fraction
//! digits; it is read as a fixed-point integer scaled by 1000, and rejected
//! when the scaled value leaves `[-MAX_COORD, MAX_COORD]`.
//!
//! The grammar is deliberately this strict: the fixed-point model carries
//! exactly three fraction digits, so a component with more precision, or a
//! magnitude above a thousand units, has no exact representation and is
//! rejected rather than silently rounded. A dataset of finer precision
//! must be quantized to this grid before loading.

use vstd::prelude::*;
use crate::model::MAX_COORD;

verus! {

/// Fixed-point scale: one component unit is a thousandth.
pub const SCALE: i64 = 1000;

/// ASCII digit.
pub open spec fn is_digit(b: u8) -> bool {
    48 <= b <= 57
}

/// Every byte is an ASCII digit.
pub open spec fn all_digits(s: Seq<u8>) -> bool {
    forall|i: int| 0 <= i < s.len() ==> is_digit(#[trigger] s[i])
}

/// The number the digit bytes spell, most significant first.
pub open spec fn digits_val(s: Seq<u8>) -> int
    decreases s.len(),
{
    if s.len() == 0 {
        0
    } else {
        digits_val(s.drop_last()) * 10 + (s.last() - 48)
    }
}

/// Position of the first occurrence of `b`, or `-1`.
pub open spec fn first_in(s: Seq<u8>, b: u8) -> int
    decreases s.len(),
{
    if s.len() == 0 {
        -1
    } else if s[0] == b {
        0
    } else {
        let r = first_in(s.drop_first(), b);
        if r < 0 {
            -1
        } else {
            r + 1
        }
    }
}

/// `first_in` finds exactly the first occurrence.
pub proof fn lemma_first_in(s: Seq<u8>, b: u8)
    ensures
        first_in(s, b) >= 0 ==> first_in(s, b) < s.len() && s[first_in(s, b)] == b && forall|i: int|
            0 <= i < first_in(s, b) ==> s[i] != b,
        first_in(s, b) < 0 ==> forall|i: int| 0 <= i < s.len() ==> s[i] != b,
    decreases s.len(),
{
    if s.len() > 0 && s[0] != b {
        lemma_first_in(s.drop_first(), b);
        let r = first_in(s.drop_first(), b);
        if r >= 0 {
            assert forall|i: int| 0 <= i < first_in(s, b) implies s[i] != b by {
                if i > 0 {
                    assert(s.drop_first()[i - 1] != b);
                }
            }
        } else {
            assert forall|i: int| 0 <= i < s.len() implies s[i] != b by {
                if i > 0 {
                    assert(s.drop_first()[i - 1] != b);
                }
            }
        }
    }
}

/// A scan that saw no `b` before `j`, and `b` or the end at `j`, pins
/// `first_in`.
pub proof fn lemma_first_in_is(s: Seq<u8>, b: u8, j: int)
    requires
        0 <= j <= s.len(),
        forall|i: int| 0 <= i < j ==> s[i] != b,
        j == s.len() || s[j] == b,
    ensures
        first_in(s, b) == if j == s.len() {
            -1int
        } else {
            j
        },
    decreases s.len(),
{
    if s.len() > 0 {
        if j == 0 {
            lemma_first_in(s, b);
        } else {
            assert(s[0] != b);
            assert forall|i: int| 0 <= i < j - 1 implies s.drop_first()[i] != b by {
                assert(s.drop_first()[i] == s[i + 1]);
            }
            if j < s.len() {
                assert(s.drop_first()[j - 1] == b);
            }
            lemma_first_in_is(s.drop_first(), b, j - 1);
        }
    }
}

/// Powers of ten, for the missing fraction digits.
pub open spec fn pow10(n: int) -> int
    decreases n,
{
    if n <= 0 {
        1
    } else {
        10 * pow10(n - 1)
    }
}

/// Shape of an unsigned component: digits, optionally a dot and one to
/// three fraction digits.
pub open spec fn is_unsigned_component(s: Seq<u8>) -> bool {
    let d = first_in(s, 46);
    if d < 0 {
        s.len() >= 1 && all_digits(s)
    } else {
        &&& d >= 1
        &&& all_digits(s.subrange(0, d))
        &&& 1 <= s.len() - d - 1 <= 3
        &&& all_digits(s.subrange(d + 1, s.len() as int))
    }
}

/// The unsigned component's value, scaled by 1000.
pub open spec fn unsigned_value(s: Seq<u8>) -> int {
    let d = first_in(s, 46);
    if d < 0 {
        digits_val(s) * 1000
    } else {
        digits_val(s.subrange(0, d)) * 1000 + digits_val(s.subrange(d + 1, s.len() as int)) * pow10(
            3 - (s.len() - d - 1),
        )
    }
}

/// Shape of a component: an optional leading minus sign.
pub open spec fn is_component(s: Seq<u8>) -> bool {
    if s.len() >= 1 && s[0] == 45 {
        is_unsigned_component(s.drop_first())
    } else {
        is_unsigned_component(s)
    }
}

/// The component's scaled value.
pub open spec fn component_value(s: Seq<u8>) -> int {
    if s.len() >= 1 && s[0] == 45 {
        -unsigned_value(s.drop_first())
    } else {
        unsigned_value(s)
    }
}

/// An acceptable component: well shaped and within the coordinate bound.
pub open spec fn component_ok(s: Seq<u8>) -> bool {
    is_component(s) && -MAX_COORD <= component_value(s) <= MAX_COORD
}

/// Space-separated acceptable components, at least one, no empty pieces.
pub open spec fn is_component_list(s: Seq<u8>) -> bool
    decreases s.len(),
{
    let c = first_in(s, 32);
    if c < 0 {
        component_ok(s)
    } else if c >= s.len() {
        false
    } else {
        component_ok(s.subrange(0, c)) && is_component_list(s.subrange(c + 1, s.len() as int))
    }
}

/// The scaled values of the listed components, in order.
pub open spec fn component_list_values(s: Seq<u8>) -> Seq<i64>
    decreases s.len(),
{
    let c = first_in(s, 32);
    if c < 0 {
        seq![component_value(s) as i64]
    } else if c >= s.len() {
        Seq::empty()
    } else {
        seq![component_value(s.subrange(0, c)) as i64] + component_list_values(
            s.subrange(c + 1, s.len() as int),
        )
    }
}

/// Digit strings spell non-negative numbers.
pub proof fn lemma_digits_nonneg(s: Seq<u8>)
    requires
        all_digits(s),
    ensures
        digits_val(s) >= 0,
    decreases s.len(),
{
    if s.len() > 0 {
        assert(all_digits(s.drop_last())) by {
            assert(forall|i: int| 0 <= i < s.len() - 1 ==> s.drop_last()[i] == s[i]);
        }
        lemma_digits_nonneg(s.drop_last());
    }
}

/// Short digit strings spell small numbers.
pub proof fn lemma_digits_upper(s: Seq<u8>)
    requires
        all_digits(s),
    ensures
        digits_val(s) < pow10(s.len() as int),
    decreases s.len(),
{
    if s.len() > 0 {
        assert(all_digits(s.drop_last())) by {
            assert(forall|i: int| 0 <= i < s.len() - 1 ==> s.drop_last()[i] == s[i]);
        }
        lemma_digits_upper(s.drop_last());
        assert(digits_val(s.drop_last()) * 10 <= (pow10(s.len() - 1) - 1) * 10) by (nonlinear_arith)
            requires
                digits_val(s.drop_last()) <= pow10(s.len() - 1) - 1,
        ;
    }
}

/// More digits never spell a smaller number.
pub proof fn lemma_digits_prefix_le(s: Seq<u8>, i: int, j: int)
    requires
        all_digits(s),
        0 <= i <= j <= s.len(),
    ensures
        digits_val(s.subrange(0, i)) <= digits_val(s.subrange(0, j)),
    decreases j - i,
{
    if i < j {
        lemma_digits_prefix_le(s, i, j - 1);
        let p = s.subrange(0, j);
        assert(p.drop_last() =~= s.subrange(0, j - 1));
        assert(all_digits(s.subrange(0, j - 1))) by {
            assert(forall|t: int| 0 <= t < j - 1 ==> s.subrange(0, j - 1)[t] == s[t]);
        }
        lemma_digits_nonneg(s.subrange(0, j - 1));
        assert(digits_val(p) == digits_val(s.subrange(0, j - 1)) * 10 + (s[j - 1] - 48));
        assert(digits_val(s.subrange(0, j - 1)) * 10 >= digits_val(s.subrange(0, j - 1)))
            by (nonlinear_arith)
            requires
                digits_val(s.subrange(0, j - 1)) >= 0,
        ;
    }
}

/// First position at or after `from` holding a digit boundary: scan digits.
fn scan_digits(s: &Vec<u8>, start: usize, to: usize) -> (r: usize)
    requires
        start <= to <= s@.len(),
    ensures
        start <= r <= to,
        forall|t: int| start <= t < r ==> is_digit(#[trigger] s@[t]),
        r < to ==> !is_digit(s@[r as int]),
{
    let mut i = start;
    while i < to
        invariant
            start <= i <= to,
            to <= s@.len(),
            forall|t: int| start <= t < i ==> is_digit(#[trigger] s@[t]),
        decreases to - i,
    {
        let b = s[i];
        if b < 48 || b > 57 {
            return i;
        }
        i = i + 1;
    }
    to
}

/// The number the digit range spells, or `None` when it is already too
/// large to denote an in-range component.
fn digits_range_val(s: &Vec<u8>, start: usize, end: usize) -> (r: Option<i64>)
    requires
        start <= end <= s@.len(),
        forall|t: int| start <= t < end ==> is_digit(#[trigger] s@[t]),
    ensures
        match r {
            Some(v) => 0 <= v <= 1_000_000 && v == digits_val(
                s@.subrange(start as int, end as int),
            ),
            None => digits_val(s@.subrange(start as int, end as int)) > 1_000_000,
        },
{
    let ghost whole = s@.subrange(start as int, end as int);
    proof {
        assert(all_digits(whole));
    }
    let mut acc: i64 = 0;
    let mut t = start;
    proof {
        assert(s@.subrange(start as int, start as int) =~= Seq::<u8>::empty());
    }
    while t < end
        invariant
            start <= t <= end,
            end <= s@.len(),
            whole == s@.subrange(start as int, end as int),
            all_digits(whole),
            forall|i: int| start <= i < end ==> is_digit(#[trigger] s@[i]),
            0 <= acc <= 1_000_000,
            acc == digits_val(s@.subrange(start as int, t as int)),
        decreases end - t,
    {
        let d = s[t] - 48;
        let next = acc * 10 + (d as i64);
        proof {
            assert(s@.subrange(start as int, t + 1).drop_last() =~= s@.subrange(
                start as int,
                t as int,
            ));
            assert(s@.subrange(start as int, t + 1).last() == s@[t as int]);
            assert(next == digits_val(s@.subrange(start as int, t + 1)));
        }
        if next > 1_000_000 {
            proof {
                assert(whole.subrange(0, t + 1 - start) =~= s@.subrange(start as int, t + 1));
                assert(whole.subrange(0, whole.len() as int) =~= whole);
                lemma_digits_prefix_le(whole, t + 1 - start, whole.len() as int);
            }
            return None;
        }
        acc = next;
        t = t + 1;
    }
    proof {
        assert(s@.subrange(start as int, end as int) =~= whole);
    }
    Some(acc)
}

/// Parse the byte range as one component: its scaled value, or `None` when
/// it is ill-shaped or out of range.
#[verifier::rlimit(100)]
pub fn parse_component(s: &Vec<u8>, from: usize, to: usize) -> (r: Option<i64>)
    requires
        from <= to <= s@.len(),
    ensures
        match r {
            Some(v) => component_ok(s@.subrange(from as int, to as int)) && v == component_value(
                s@.subrange(from as int, to as int),
            ),
            None => !component_ok(s@.subrange(from as int, to as int)),
        },
{
    let ghost sub = s@.subrange(from as int, to as int);
    let mut i = from;
    let mut neg = false;
    if i < to && s[i] == 45 {
        neg = true;
        i = i + 1;
    }
    let ghost i0 = i as int;
    let ghost u = s@.subrange(i0, to as int);
    proof {
        if neg {
            assert(sub.len() >= 1 && sub[0] == 45);
            assert(u =~= sub.drop_first());
        } else {
            assert(u =~= sub);
            if sub.len() >= 1 {
                assert(sub[0] == s@[from as int]);
            }
        }
        assert(is_component(sub) == is_unsigned_component(u));
        assert(component_value(sub) == if neg {
            -unsigned_value(u)
        } else {
            unsigned_value(u)
        });
        lemma_first_in(u, 46);
    }
    let dend = scan_digits(s, i, to);
    proof {
        assert forall|t: int| 0 <= t < dend - i0 implies is_digit(#[trigger] u[t]) && u[t]
            != 46 by {
            assert(u[t] == s@[i0 + t]);
        }
    }
    if dend == i {
        proof {
            // No leading digit: the shape fails in every branch.
            let d = first_in(u, 46);
            if u.len() == 0 {
            } else {
                assert(u[0] == s@[i0]);
                assert(!is_digit(u[0]));
                if d < 0 {
                    assert(!all_digits(u));
                } else if d == 0 {
                } else {
                    assert(!all_digits(u.subrange(0, d))) by {
                        assert(u.subrange(0, d)[0] == u[0]);
                    }
                }
            }
        }
        return None;
    }
    let intval = match digits_range_val(s, i, dend) {
        Some(v) => v,
        None => {
            proof {
                // The integer part alone is already beyond the bound.
                if is_unsigned_component(u) {
                    let d = first_in(u, 46);
                    let dlen: int = if d < 0 {
                        u.len() as int
                    } else {
                        d
                    };
                    assert(dlen >= dend - i0) by {
                        if 0 <= d < dend - i0 {
                            assert(u[d] == 46);
                        }
                    }
                    let ipart = u.subrange(0, dlen);
                    assert(all_digits(ipart)) by {
                        if d < 0 {
                            assert(forall|t: int| 0 <= t < u.len() ==> ipart[t] == u[t]);
                        } else {
                            assert(forall|t: int| 0 <= t < d ==> ipart[t] == u.subrange(0, d)[t]);
                        }
                    }
                    assert(ipart.subrange(0, dend - i0) =~= s@.subrange(i0, dend as int));
                    assert(ipart.subrange(0, dlen) =~= ipart);
                    lemma_digits_prefix_le(ipart, dend - i0, dlen);
                    assert(digits_val(ipart) > 1_000_000);
                    if d < 0 {
                        assert(unsigned_value(u) == digits_val(ipart) * 1000);
                        assert(digits_val(ipart) * 1000 > 1_000_000_000) by (nonlinear_arith)
                            requires
                                digits_val(ipart) > 1_000_000,
                        ;
                    } else {
                        let fpart = u.subrange(d + 1, u.len() as int);
                        lemma_digits_nonneg(fpart);
                        assert(pow10(3 - (u.len() - d - 1)) >= 1) by {
                            reveal_with_fuel(pow10, 5);
                        }
                        assert(digits_val(ipart) * 1000 > 1_000_000_000) by (nonlinear_arith)
                            requires
                                digits_val(ipart) > 1_000_000,
                        ;
                        assert(digits_val(fpart) * pow10(3 - (u.len() - d - 1)) >= 0)
                            by (nonlinear_arith)
                            requires
                                digits_val(fpart) >= 0,
                                pow10(3 - (u.len() - d - 1)) >= 1,
                        ;
                    }
                    assert(unsigned_value(u) > 1_000_000);
                }
            }
            return None;
        },
    };
    if dend == to {
        proof {
            assert forall|t: int| 0 <= t < u.len() implies u[t] != 46 by {
                assert(is_digit(u[t]));
            }
            lemma_first_in_is(u, 46, u.len() as int);
            assert(all_digits(u));
            assert(u =~= s@.subrange(i0, dend as int));
            assert(is_unsigned_component(u));
            assert(unsigned_value(u) == intval * 1000);
        }
        let v = intval * 1000;
        if v > 1_000_000 {
            return None;
        }
        return Some(
            if neg {
                -v
            } else {
                v
            },
        );
    }
    if s[dend] != 46 {
        proof {
            // Digits stop at a byte that is neither a digit nor the dot.
            let bad = dend - i0;
            assert(u[bad] == s@[dend as int]);
            assert(!is_digit(u[bad]) && u[bad] != 46);
            let d = first_in(u, 46);
            if d < 0 {
                assert(!all_digits(u));
            } else {
                assert(d != bad);
                if d < bad {
                    assert(u[d] == 46);
                    assert(is_digit(u[d]));
                } else {
                    assert(!all_digits(u.subrange(0, d))) by {
                        assert(u.subrange(0, d)[bad] == u[bad]);
                    }
                }
            }
        }
        return None;
    }
    let fstart = dend + 1;
    let fend = scan_digits(s, fstart, to);
    proof {
        // The dot at `dend` is the first dot of the component.
        assert(u[dend - i0] == 46);
        lemma_first_in_is(u, 46, dend - i0);
        assert(first_in(u, 46) == dend - i0);
    }
    let ghost d = dend - i0;
    let ghost fpart = u.subrange(d + 1, u.len() as int);
    proof {
        assert(fpart =~= s@.subrange(fstart as int, to as int));
    }
    if fend != to {
        proof {
            assert(!is_digit(s@[fend as int]));
            assert(!all_digits(fpart)) by {
                assert(fpart[fend - fstart] == s@[fend as int]);
            }
        }
        return None;
    }
    let fcount = fend - fstart;
    if fcount < 1 || fcount > 3 {
        proof {
            assert(u.len() - d - 1 == fcount);
        }
        return None;
    }
    let frac = match digits_range_val(s, fstart, fend) {
        Some(v) => v,
        None => {
            proof {
                assert(all_digits(s@.subrange(fstart as int, fend as int)));
                lemma_digits_upper(s@.subrange(fstart as int, fend as int));
                assert(pow10(3) == 1000 && pow10(fcount as int) <= pow10(3)) by {
                    reveal_with_fuel(pow10, 5);
                }
                assert(false);
            }
            return None;
        },
    };
    proof {
        assert(all_digits(fpart)) by {
            assert(forall|t: int| 0 <= t < fcount ==> fpart[t] == s@[fstart + t]);
        }
        assert(all_digits(u.subrange(0, d))) by {
            assert(forall|t: int| 0 <= t < d ==> u.subrange(0, d)[t] == u[t]);
        }
        assert(is_unsigned_component(u));
        assert(u.subrange(0, d) =~= s@.subrange(i0, dend as int));
        lemma_digits_upper(fpart);
        assert(pow10(1) == 10 && pow10(2) == 100 && pow10(3) == 1000) by {
            reveal_with_fuel(pow10, 5);
        }
    }
    let mult: i64 = if fcount == 1 {
        100
    } else if fcount == 2 {
        10
    } else {
        1
    };
    proof {
        assert(mult == pow10(3 - (u.len() - d - 1)));
        lemma_digits_nonneg(fpart);
    }
    let v = intval * 1000 + frac * mult;
    proof {
        assert(v == unsigned_value(u));
    }
    if v > 1_000_000 {
        return None;
    }
    Some(
        if neg {
            -v
        } else {
            v
        },
    )
}

/// Position of the first space at or after `from`, or the line's end.
fn find_space(s: &Vec<u8>, from: usize) -> (r: usize)
    requires
        from <= s@.len(),
    ensures
        from <= r <= s@.len(),
        forall|t: int| from <= t < r ==> s@[t] != 32,
        r < s@.len() ==> s@[r as int] == 32,
{
    let mut i = from;
    while i < s.len()
        invariant
            from <= i <= s@.len(),
            forall|t: int| from <= t < i ==> s@[t] != 32,
        decreases s@.len() - i,
    {
        if s[i] == 32 {
            return i;
        }
        i = i + 1;
    }
    i
}

/// Parse one dataset line into its word and its scaled vector. The word is
/// everything before the first space; the rest must be an acceptable
/// component list, else the line is rejected.
#[verifier::rlimit(80)]
pub fn parse_dataset_line(line: &Vec<u8>) -> (r: Option<(Vec<u8>, Vec<i64>)>)
    ensures
        match r {
            Some(p) => ({
                let cut = first_in(line@, 32);
                &&& 0 <= cut < line@.len()
                &&& p.0@ == line@.subrange(0, cut)
                &&& is_component_list(line@.subrange(cut + 1, line@.len() as int))
                &&& p.1@ == component_list_values(line@.subrange(cut + 1, line@.len() as int))
            }),
            None => first_in(line@, 32) < 0 || !is_component_list(
                line@.subrange(first_in(line@, 32) + 1, line@.len() as int),
            ),
        },
{
    let n = line.len();
    let cut = find_space(line, 0);
    proof {
        lemma_first_in_is(line@, 32, cut as int);
    }
    if cut == n {
        return None;
    }
    let mut word: Vec<u8> = Vec::new();
    let mut t: usize = 0;
    while t < cut
        invariant
            t <= cut,
            cut < line@.len(),
            word@ == line@.subrange(0, t as int),
        decreases cut - t,
    {
        word.push(line[t]);
        proof {
            assert(word@ =~= line@.subrange(0, t + 1));
        }
        t = t + 1;
    }
    let ghost rest0 = line@.subrange(cut + 1, n as int);
    let mut vals: Vec<i64> = Vec::new();
    let mut pos = cut + 1;
    let mut done = false;
    while !done
        invariant
            n == line@.len(),
            cut < n,
            cut + 1 <= pos <= n,
            rest0 == line@.subrange(cut + 1, n as int),
            first_in(line@, 32) == cut as int,
            word@ == line@.subrange(0, cut as int),
            !done ==> (is_component_list(rest0) == is_component_list(
                line@.subrange(pos as int, n as int),
            )) && (is_component_list(line@.subrange(pos as int, n as int))
                ==> component_list_values(rest0) == vals@ + component_list_values(
                line@.subrange(pos as int, n as int),
            )),
            done ==> is_component_list(rest0) && component_list_values(rest0) == vals@,
        decreases (n - pos) + (if done {
            0int
        } else {
            1int
        }),
    {
        let ghost tail = line@.subrange(pos as int, n as int);
        let sp = find_space(line, pos);
        proof {
            assert forall|t: int| 0 <= t < sp - pos implies tail[t] != 32 by {
                assert(tail[t] == line@[pos + t]);
            }
            if sp < n {
                assert(tail[sp - pos] == 32);
            }
            lemma_first_in_is(tail, 32, sp - pos);
        }
        let parsed = parse_component(line, pos, sp);
        match parsed {
            None => {
                proof {
                    assert(line@.subrange(pos as int, sp as int) =~= if sp == n {
                        tail
                    } else {
                        tail.subrange(0, sp - pos)
                    });
                    assert(!is_component_list(tail));
                }
                return None;
            },
            Some(v) => {
                proof {
                    assert(line@.subrange(pos as int, sp as int) =~= if sp == n {
                        tail
                    } else {
                        tail.subrange(0, sp - pos)
                    });
                    assert(line@.subrange(pos as int, sp as int).len() >= 1) by {
                        if line@.subrange(pos as int, sp as int).len() == 0 {
                            assert(!is_unsigned_component(Seq::<u8>::empty()));
                            assert(!component_ok(line@.subrange(pos as int, sp as int)));
                        }
                    }
                }
                let ghost vals0 = vals@;
                vals.push(v);
                if sp == n {
                    proof {
                        assert(is_component_list(tail));
                        assert(component_list_values(tail) =~= seq![v]);
                        assert(vals@ =~= vals0 + seq![v]);
                        if is_component_list(rest0) || is_component_list(tail) {
                            assert(component_list_values(rest0) =~= vals@);
                        }
                    }
                    done = true;
                } else {
                    proof {
                        let tail2 = line@.subrange(sp + 1, n as int);
                        assert(tail.subrange(sp - pos + 1, tail.len() as int) =~= tail2);
                        assert(is_component_list(tail) == is_component_list(tail2));
                        assert(vals@ =~= vals0 + seq![v]);
                        if is_component_list(tail2) {
                            assert(component_list_values(tail) =~= seq![v]
                                + component_list_values(tail2));
                            assert(vals0 + (seq![v] + component_list_values(tail2)) =~= vals@
                                + component_list_values(tail2));
                        }
                    }
                    pos = sp + 1;
                }
            },
        }
    }
    Some((word, vals))
}

} // verus!
