//! Typed readings of a configuration value: the boolean words the store
//! accepts, and base-10 signed 32-bit integer parsing.

use vstd::prelude::*;

verus! {

/// ASCII lowercasing of one character.
pub open spec fn lower_char(c: char) -> char {
    if 'A' <= c && c <= 'Z' {
        ((c as u8) + 32) as char
    } else {
        c
    }
}

/// ASCII lowercasing of a whole sequence.
pub open spec fn lower_spec(s: Seq<char>) -> Seq<char> {
    s.map_values(|c: char| lower_char(c))
}

/// The values read as `true`: exactly `true` (in any case) and `1`.
pub open spec fn is_true_value(s: Seq<char>) -> bool {
    lower_spec(s) == "true"@ || lower_spec(s) == "1"@
}

/// The values read as `false`: exactly `false` (in any case) and `0`.
pub open spec fn is_false_value(s: Seq<char>) -> bool {
    lower_spec(s) == "false"@ || lower_spec(s) == "0"@
}

proof fn lemma_lower_index(s: Seq<char>, i: int)
    requires
        0 <= i < s.len(),
    ensures
        lower_spec(s)[i] == lower_char(s[i]),
{
}

/// Reads a boolean value: `Some(true)` and `Some(false)` for the
/// accepted words, `None` for anything else.
pub fn classify_bool(v: &str) -> (r: Option<bool>)
    ensures
        r == (if is_true_value(v@) {
            Some(true)
        } else if is_false_value(v@) {
            Some(false)
        } else {
            None::<bool>
        }),
{
    proof {
        reveal_strlit("true");
        reveal_strlit("false");
        reveal_strlit("1");
        reveal_strlit("0");
        assert(lower_spec(v@).len() == v@.len());
    }
    let n = v.unicode_len();
    if n == 1 {
        let c = v.get_char(0);
        if c == '1' {
            proof {
                lemma_lower_index(v@, 0);
                assert(lower_spec(v@) =~= "1"@);
            }
            Some(true)
        } else if c == '0' {
            proof {
                lemma_lower_index(v@, 0);
                assert(lower_spec(v@) =~= "0"@);
            }
            Some(false)
        } else {
            proof {
                lemma_lower_index(v@, 0);
                assert(lower_spec(v@)[0] != '1');
                assert(lower_spec(v@)[0] != '0');
            }
            None
        }
    } else if n == 4 {
        let c0 = v.get_char(0);
        let c1 = v.get_char(1);
        let c2 = v.get_char(2);
        let c3 = v.get_char(3);
        if (c0 == 't' || c0 == 'T') && (c1 == 'r' || c1 == 'R') && (c2 == 'u' || c2 == 'U') && (c3
            == 'e' || c3 == 'E') {
            proof {
                lemma_lower_index(v@, 0);
                lemma_lower_index(v@, 1);
                lemma_lower_index(v@, 2);
                lemma_lower_index(v@, 3);
                assert(lower_spec(v@) =~= "true"@);
            }
            Some(true)
        } else {
            proof {
                assert(lower_spec(v@) != "true"@) by {
                    if lower_spec(v@) == "true"@ {
                        lemma_lower_index(v@, 0);
                        lemma_lower_index(v@, 1);
                        lemma_lower_index(v@, 2);
                        lemma_lower_index(v@, 3);
                        assert(lower_char(v@[0]) == 't' && lower_char(v@[1]) == 'r' && lower_char(
                            v@[2],
                        ) == 'u' && lower_char(v@[3]) == 'e');
                    }
                };
            }
            None
        }
    } else if n == 5 {
        let c0 = v.get_char(0);
        let c1 = v.get_char(1);
        let c2 = v.get_char(2);
        let c3 = v.get_char(3);
        let c4 = v.get_char(4);
        if (c0 == 'f' || c0 == 'F') && (c1 == 'a' || c1 == 'A') && (c2 == 'l' || c2 == 'L') && (c3
            == 's' || c3 == 'S') && (c4 == 'e' || c4 == 'E') {
            proof {
                lemma_lower_index(v@, 0);
                lemma_lower_index(v@, 1);
                lemma_lower_index(v@, 2);
                lemma_lower_index(v@, 3);
                lemma_lower_index(v@, 4);
                assert(lower_spec(v@) =~= "false"@);
            }
            Some(false)
        } else {
            proof {
                assert(lower_spec(v@) != "false"@) by {
                    if lower_spec(v@) == "false"@ {
                        lemma_lower_index(v@, 0);
                        lemma_lower_index(v@, 1);
                        lemma_lower_index(v@, 2);
                        lemma_lower_index(v@, 3);
                        lemma_lower_index(v@, 4);
                        assert(lower_char(v@[0]) == 'f' && lower_char(v@[1]) == 'a' && lower_char(
                            v@[2],
                        ) == 'l' && lower_char(v@[3]) == 's' && lower_char(v@[4]) == 'e');
                    }
                };
            }
            None
        }
    } else {
        None
    }
}

/// An ASCII decimal digit.
pub open spec fn is_digit(c: char) -> bool {
    '0' <= c && c <= '9'
}

/// The numeric value of a digit.
pub open spec fn digit_val(c: char) -> int {
    c as u32 - '0' as u32
}

/// The value of a sequence of digits, most significant first.
pub open spec fn digits_val(s: Seq<char>) -> int
    decreases s.len(),
{
    if s.len() == 0 {
        0
    } else {
        digits_val(s.drop_last()) * 10 + digit_val(s.last())
    }
}

/// The digits of an integer literal, the optional sign stripped.
pub open spec fn int_body(s: Seq<char>) -> Seq<char> {
    if s.len() > 0 && (s[0] == '+' || s[0] == '-') {
        s.drop_first()
    } else {
        s
    }
}

/// Whether the literal carries a minus sign.
pub open spec fn int_negative(s: Seq<char>) -> bool {
    s.len() > 0 && s[0] == '-'
}

/// The signed value the literal denotes.
pub open spec fn int_value(s: Seq<char>) -> int {
    if int_negative(s) {
        -digits_val(int_body(s))
    } else {
        digits_val(int_body(s))
    }
}

/// A base-10 signed 32-bit integer literal: an optional sign, then at
/// least one digit and nothing else, denoting a value in range.
pub open spec fn is_i32_string(s: Seq<char>) -> bool {
    &&& int_body(s).len() > 0
    &&& forall|i: int| 0 <= i < int_body(s).len() ==> is_digit(#[trigger] int_body(s)[i])
    &&& -0x8000_0000 <= int_value(s) <= 0x7fff_ffff
}

proof fn lemma_digits_val_nonneg(s: Seq<char>)
    requires
        forall|i: int| 0 <= i < s.len() ==> is_digit(#[trigger] s[i]),
    ensures
        digits_val(s) >= 0,
    decreases s.len(),
{
    if s.len() > 0 {
        lemma_digits_val_nonneg(s.drop_last());
    }
}

/// A prefix of a digit string never exceeds the whole string's value.
proof fn lemma_digits_val_prefix_le(s: Seq<char>, i: int)
    requires
        forall|j: int| 0 <= j < s.len() ==> is_digit(#[trigger] s[j]),
        0 <= i <= s.len(),
    ensures
        digits_val(s.take(i)) <= digits_val(s),
    decreases s.len(),
{
    if i == s.len() {
        assert(s.take(i) =~= s);
    } else {
        let butlast = s.drop_last();
        assert(s.take(i) =~= butlast.take(i));
        lemma_digits_val_prefix_le(butlast, i);
        lemma_digits_val_nonneg(butlast);
        assert(digit_val(s.last()) >= 0);
        assert(digits_val(butlast) * 10 >= digits_val(butlast));
    }
}

/// Parses a base-10 signed 32-bit integer, exactly as the store's
/// integer read accepts it: `Some` on a valid in-range literal, `None`
/// on anything else, overflow included.
pub fn parse_i32(s: &str) -> (r: Option<i32>)
    ensures
        is_i32_string(s@) ==> r is Some && r.unwrap() as int == int_value(s@),
        !is_i32_string(s@) ==> r is None,
{
    let n = s.unicode_len();
    let mut start: usize = 0;
    let mut neg = false;
    if n > 0 {
        let c0 = s.get_char(0);
        if c0 == '+' {
            start = 1;
        } else if c0 == '-' {
            start = 1;
            neg = true;
        }
    }
    let ghost body = int_body(s@);
    proof {
        assert(body =~= s@.subrange(start as int, n as int));
        assert(neg == int_negative(s@));
    }
    if start >= n {
        proof {
            assert(body.len() == 0);
        }
        return None;
    }
    let mut mag: u64 = 0;
    let mut i: usize = start;
    proof {
        assert(body.take(0) =~= Seq::<char>::empty());
    }
    while i < n
        invariant
            start <= i <= n,
            n == s@.len(),
            start < n,
            body == int_body(s@),
            body =~= s@.subrange(start as int, n as int),
            body.len() == n - start,
            neg == int_negative(s@),
            forall|j: int| 0 <= j < i - start ==> is_digit(#[trigger] body[j]),
            mag as int == digits_val(body.take(i - start)),
            mag <= 0x8000_0000,
        decreases n - i,
    {
        let c = s.get_char(i);
        proof {
            assert(body[i - start] == s@[i as int]);
        }
        if !(c >= '0' && c <= '9') {
            proof {
                assert(!is_digit(body[i - start]));
            }
            return None;
        }
        let d: u64 = ((c as u32) - ('0' as u32)) as u64;
        proof {
            let m = i - start;
            assert(body.take(m + 1).drop_last() =~= body.take(m));
            assert(body.take(m + 1).last() == body[m]);
        }
        mag = mag * 10 + d;
        if mag > 0x8000_0000 {
            proof {
                let m = i - start + 1;
                if is_i32_string(s@) {
                    lemma_digits_val_prefix_le(body, m);
                    assert(digits_val(body) >= digits_val(body.take(m)));
                    assert(digits_val(body) > 0x8000_0000);
                }
            }
            return None;
        }
        i = i + 1;
    }
    proof {
        assert(body.take(n - start) =~= body);
        assert(digits_val(body) == mag as int);
    }
    if neg {
        if mag == 0x8000_0000 {
            Some(i32::MIN)
        } else {
            Some(0 - (mag as i32))
        }
    } else {
        if mag == 0x8000_0000 {
            proof {
                assert(int_value(s@) == 0x8000_0000);
            }
            None
        } else {
            Some(mag as i32)
        }
    }
}

} // verus!
