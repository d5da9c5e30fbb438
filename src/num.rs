use vstd::prelude::*;

verus! {

/// The value of `c` as a digit in base `radix` (10 or 16, either case of letter).
pub open spec fn digit_of(c: char, radix: u32) -> Option<nat> {
    if '0' <= c && c <= '9' && (c as nat) - ('0' as nat) < radix {
        Some((c as nat - '0' as nat) as nat)
    } else if radix == 16 && 'a' <= c && c <= 'f' {
        Some((c as nat - 'a' as nat + 10) as nat)
    } else if radix == 16 && 'A' <= c && c <= 'F' {
        Some((c as nat - 'A' as nat + 10) as nat)
    } else {
        None
    }
}

pub open spec fn all_digits(s: Seq<char>, radix: u32) -> bool {
    forall|i: int| 0 <= i < s.len() ==> (#[trigger] digit_of(s[i], radix)).is_some()
}

/// The number that the digits `s` write in base `radix`.
pub open spec fn value_of(s: Seq<char>, radix: u32) -> nat
    decreases s.len(),
{
    if s.len() == 0 {
        0
    } else {
        (value_of(s.drop_last(), radix) * radix + digit_of(s.last(), radix).unwrap_or(0)) as nat
    }
}

/// What `u64::from_str_radix` gives for `s`: an optional `+`, then one or more
/// digits whose value fits in 64 bits.
pub open spec fn parsed(s: Seq<char>, radix: u32) -> Option<u64> {
    let body = if s.len() > 0 && s[0] == '+' { s.drop_first() } else { s };
    if body.len() > 0 && all_digits(body, radix) && value_of(body, radix) <= u64::MAX {
        Some(value_of(body, radix) as u64)
    } else {
        None
    }
}

fn digit(c: char, radix: u32) -> (r: Option<u32>)
    requires
        radix == 10 || radix == 16,
    ensures
        r.is_some() == digit_of(c, radix).is_some(),
        r.is_some() ==> r.unwrap() as nat == digit_of(c, radix).unwrap(),
        r.is_some() ==> r.unwrap() < radix,
{
    if '0' <= c && c <= '9' {
        let d = (c as u32) - ('0' as u32);
        if d < radix { Some(d) } else { None }
    } else if radix == 16 && 'a' <= c && c <= 'f' {
        Some((c as u32) - ('a' as u32) + 10)
    } else if radix == 16 && 'A' <= c && c <= 'F' {
        Some((c as u32) - ('A' as u32) + 10)
    } else {
        None
    }
}

/// Parses `s[start..]` as `u64::from_str_radix` does.
fn parse_from(s: &str, start: usize, radix: u32) -> (r: Option<u64>)
    requires
        radix == 10 || radix == 16,
        start <= s@.len(),
    ensures
        r == parsed(s@.subrange(start as int, s@.len() as int), radix),
{
    let len = s.unicode_len();
    let ghost whole = s@.subrange(start as int, len as int);
    let mut i: usize = start;
    if i < len && s.get_char(i) == '+' {
        i = i + 1;
    }
    let first: usize = i;
    let ghost body = s@.subrange(first as int, len as int);
    assert(body == (if whole.len() > 0 && whole[0] == '+' { whole.drop_first() } else { whole }));
    if first == len {
        return None;
    }
    let mut acc: u64 = 0;
    let mut overflow: bool = false;
    while i < len
        invariant
            first <= i <= len,
            len == s@.len(),
            radix == 10 || radix == 16,
            body == s@.subrange(first as int, len as int),
            whole == s@.subrange(start as int, len as int),
            body == (if whole.len() > 0 && whole[0] == '+' { whole.drop_first() } else { whole }),
            all_digits(s@.subrange(first as int, i as int), radix),
            !overflow ==> acc as nat == value_of(s@.subrange(first as int, i as int), radix),
            overflow ==> value_of(s@.subrange(first as int, i as int), radix) > u64::MAX,
        decreases len - i,
    {
        let ghost pre = s@.subrange(first as int, i as int);
        let ghost next = s@.subrange(first as int, i + 1);
        assert(next.drop_last() == pre);
        assert(next.last() == s@[i as int]);
        let c = s.get_char(i);
        match digit(c, radix) {
            None => {
                assert(!all_digits(body, radix)) by {
                    assert(body[i - first] == c);
                }
                return None;
            },
            Some(d) => {
                assert(all_digits(next, radix)) by {
                    assert forall|j: int| 0 <= j < next.len() implies (#[trigger] digit_of(next[j], radix)).is_some() by {
                        if j < pre.len() { assert(next[j] == pre[j]); }
                    }
                }
                let ghost v = value_of(pre, radix);
                assert(value_of(next, radix) == v * radix + d);
                assert(v * radix + d >= v) by (nonlinear_arith) requires radix >= 1, d >= 0;
                if !overflow {
                    let lim: u64 = (u64::MAX - d as u64) / radix as u64;
                    let ghost m: int = u64::MAX - d;
                    assert(lim * radix <= m && m < lim * radix + radix) by (nonlinear_arith)
                        requires lim == m / (radix as int), radix > 0, m >= 0;
                    if acc > lim {
                        assert(acc * radix + d > u64::MAX) by (nonlinear_arith)
                            requires acc >= lim + 1, m < lim * radix + radix, m == u64::MAX - d, radix > 0;
                        overflow = true;
                    } else {
                        assert(acc * radix + d <= u64::MAX) by (nonlinear_arith)
                            requires acc <= lim, lim * radix <= m, m == u64::MAX - d, radix > 0;
                        acc = acc * radix as u64 + d as u64;
                    }
                }
            },
        }
        i = i + 1;
    }
    assert(s@.subrange(first as int, i as int) == body);
    if overflow { None } else { Some(acc) }
}

/// Parses a decimal integer as `u64::from_str` does.
pub fn parse_decimal(s: &str) -> (r: Option<u64>)
    ensures
        r == parsed(s@, 10),
{
    let r = parse_from(s, 0, 10);
    assert(s@.subrange(0, s@.len() as int) == s@);
    r
}

/// `s` with every leading `0x` taken off, as `trim_start_matches("0x")` does.
pub open spec fn strip_hex_prefix(s: Seq<char>) -> Seq<char>
    decreases s.len(),
{
    if s.len() >= 2 && s[0] == '0' && s[1] == 'x' {
        strip_hex_prefix(s.subrange(2, s.len() as int))
    } else {
        s
    }
}

/// Reads a block number written in hexadecimal, with or without `0x` in front.
pub fn hex_to_u64(h: &str) -> (r: Option<u64>)
    ensures
        r == parsed(strip_hex_prefix(h@), 16),
{
    let len = h.unicode_len();
    let mut i: usize = 0;
    assert(h@.subrange(0, len as int) == h@);
    while len - i >= 2 && h.get_char(i) == '0' && h.get_char(i + 1) == 'x'
        invariant
            i <= len,
            len == h@.len(),
            strip_hex_prefix(h@.subrange(i as int, len as int)) == strip_hex_prefix(h@),
        decreases len - i,
    {
        let ghost cur = h@.subrange(i as int, len as int);
        assert(cur.subrange(2, cur.len() as int) == h@.subrange(i + 2, len as int));
        i = i + 2;
    }
    parse_from(h, i, 16)
}

} // verus!
