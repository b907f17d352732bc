use vstd::prelude::*;

verus! {

/// The value of `c` as a digit in base `radix` (10 or 16), if it is one.
pub open spec fn digit_value(c: char, radix: u32) -> Option<u32> {
    if '0' <= c && c <= '9' {
        Some((c as u32 - '0' as u32) as u32)
    } else if radix == 16 && 'a' <= c && c <= 'f' {
        Some((c as u32 - 'a' as u32 + 10) as u32)
    } else if radix == 16 && 'A' <= c && c <= 'F' {
        Some((c as u32 - 'A' as u32 + 10) as u32)
    } else {
        None
    }
}

pub open spec fn all_digits(s: Seq<char>, radix: u32) -> bool {
    forall|i: int| 0 <= i < s.len() ==> (#[trigger] digit_value(s[i], radix)).is_some()
}

/// The number that the digits of `s` spell in base `radix`.
pub open spec fn digits_value(s: Seq<char>, radix: u32) -> int
    decreases s.len(),
{
    if s.len() == 0 {
        0
    } else {
        digits_value(s.drop_last(), radix) * radix + digit_value(s.last(), radix).unwrap() as int
    }
}

/// The digits of `s` after an optional leading `+`.
pub open spec fn unsigned_body(s: Seq<char>) -> Seq<char> {
    if s.len() > 0 && s[0] == '+' {
        s.subrange(1, s.len() as int)
    } else {
        s
    }
}

/// `s` read as an unsigned 16-bit number in base `radix`: an optional `+`,
/// at least one digit, and a value below 2^16.
pub open spec fn parse_u16(s: Seq<char>, radix: u32) -> Option<u16> {
    let body = unsigned_body(s);
    if body.len() > 0 && all_digits(body, radix) && digits_value(body, radix) < 0x10000 {
        Some(digits_value(body, radix) as u16)
    } else {
        None
    }
}

proof fn lemma_digits_value_nonneg(s: Seq<char>, radix: u32)
    requires
        radix == 10 || radix == 16,
    ensures
        digits_value(s, radix) >= 0,
    decreases s.len(),
{
    if s.len() > 0 {
        lemma_digits_value_nonneg(s.drop_last(), radix);
        let v = digits_value(s.drop_last(), radix);
        assert(v * radix >= 0) by (nonlinear_arith)
            requires
                v >= 0,
                radix >= 1,
        ;
    }
}

fn digit(c: char, radix: u32) -> (r: Option<u32>)
    ensures
        r == digit_value(c, radix),
{
    if '0' <= c && c <= '9' {
        Some(c as u32 - '0' as u32)
    } else if radix == 16 && 'a' <= c && c <= 'f' {
        Some(c as u32 - 'a' as u32 + 10)
    } else if radix == 16 && 'A' <= c && c <= 'F' {
        Some(c as u32 - 'A' as u32 + 10)
    } else {
        None
    }
}

/// Reads `s` as an unsigned 16-bit number in base `radix` (10 or 16).
pub fn parse_radix(s: &str, radix: u32) -> (r: Option<u16>)
    requires
        radix == 10 || radix == 16,
    ensures
        r == parse_u16(s@, radix),
{
    let n = s.unicode_len();
    let start: usize = if n > 0 && s.get_char(0) == '+' {
        1
    } else {
        0
    };
    let ghost body = unsigned_body(s@);
    assert(body =~= s@.subrange(start as int, n as int));
    if start >= n {
        return None;
    }
    // `acc` is the value of the digits read so far, capped at 2^16.
    let mut acc: u32 = 0;
    let mut i: usize = start;
    while i < n
        invariant
            start <= i <= n,
            n == s@.len(),
            radix == 10 || radix == 16,
            body =~= s@.subrange(start as int, n as int),
            body == unsigned_body(s@),
            all_digits(s@.subrange(start as int, i as int), radix),
            acc == if digits_value(s@.subrange(start as int, i as int), radix) >= 0x10000 {
                0x10000
            } else {
                digits_value(s@.subrange(start as int, i as int), radix)
            },
        decreases n - i,
    {
        let c = s.get_char(i);
        let d = digit(c, radix);
        let ghost prev = s@.subrange(start as int, i as int);
        let ghost next = s@.subrange(start as int, i + 1);
        assert(next.drop_last() =~= prev);
        assert(next.last() == c);
        match d {
            None => {
                assert(!all_digits(body, radix)) by {
                    assert(body[i - start] == c);
                    assert(digit_value(body[i - start], radix).is_none());
                }
                assert(body == unsigned_body(s@));
                assert(parse_u16(s@, radix).is_none());
                return None;
            },
            Some(dv) => {
                let ghost pv = digits_value(prev, radix);
                proof {
                    lemma_digits_value_nonneg(prev, radix);
                    assert(dv < 16);
                    if pv >= 0x10000 {
                        assert(pv * radix >= pv) by (nonlinear_arith)
                            requires
                                pv >= 0,
                                radix >= 1,
                        ;
                    }
                }
                if acc < 0x10000 {
                    assert(acc * radix <= 0x10000 * 16) by (nonlinear_arith)
                        requires
                            acc < 0x10000,
                            radix <= 16,
                    ;
                    let nv = acc * radix + dv;
                    acc = if nv >= 0x10000 {
                        0x10000
                    } else {
                        nv
                    };
                } else {
                }
                assert(all_digits(next, radix)) by {
                    assert forall|j: int| 0 <= j < next.len() implies (#[trigger] digit_value(
                        next[j],
                        radix,
                    )).is_some() by {
                        if j < prev.len() {
                            assert(next[j] == prev[j]);
                        }
                    }
                }
            },
        }
        i = i + 1;
    }
    assert(s@.subrange(start as int, n as int) =~= body);
    if acc < 0x10000 {
        Some(acc as u16)
    } else {
        None
    }
}

/// Reads `s` as an unsigned decimal 16-bit number.
pub fn parse_decimal(s: &str) -> (r: Option<u16>)
    ensures
        r == parse_u16(s@, 10),
{
    parse_radix(s, 10)
}

/// Reads `s` as an unsigned hexadecimal 16-bit number.
pub fn parse_hex(s: &str) -> (r: Option<u16>)
    ensures
        r == parse_u16(s@, 16),
{
    parse_radix(s, 16)
}

} // verus!
