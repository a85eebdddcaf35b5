//! Reading the player id that the server hands back on login: a decimal
//! number in the range of `u32`, optionally preceded by `+`.
use vstd::prelude::*;
use vstd::string::StringSliceAdditionalSpecFns;

verus! {

/// `b` is an ASCII decimal digit.
pub open spec fn is_digit(b: u8) -> bool {
    0x30 <= b <= 0x39
}

/// The value of a run of decimal digits, most significant first.
pub open spec fn digits_value(s: Seq<u8>) -> int
    decreases s.len(),
{
    if s.len() == 0 {
        0
    } else {
        digits_value(s.drop_last()) * 10 + (s.last() - 0x30)
    }
}

/// The digits of `s`, without one leading `+`.
pub open spec fn unsigned_digits(s: Seq<u8>) -> Seq<u8> {
    if s.len() > 0 && s[0] == 0x2b {
        s.drop_first()
    } else {
        s
    }
}

/// `s` is a decimal number that fits in a `u32`.
pub open spec fn is_player_id(s: Seq<u8>) -> bool {
    let d = unsigned_digits(s);
    &&& d.len() > 0
    &&& forall|k: int| 0 <= k < d.len() ==> is_digit(#[trigger] d[k])
    &&& digits_value(d) <= u32::MAX
}

proof fn lemma_prefix_bounds_value(s: Seq<u8>, k: int)
    requires
        0 <= k <= s.len(),
        forall|m: int| 0 <= m < s.len() ==> is_digit(#[trigger] s[m]),
    ensures
        digits_value(s) >= digits_value(s.take(k)),
        digits_value(s.take(k)) >= 0,
    decreases s.len(),
{
    if s.len() > 0 {
        let init = s.drop_last();
        assert forall|m: int| 0 <= m < init.len() implies is_digit(#[trigger] init[m]) by {
            assert(init[m] == s[m]);
        }
        if k == s.len() {
            assert(s.take(k) =~= s);
            lemma_prefix_bounds_value(init, 0);
            assert(init.take(0) =~= Seq::<u8>::empty());
        } else {
            lemma_prefix_bounds_value(init, k);
            assert(init.take(k) =~= s.take(k));
            lemma_prefix_bounds_value(init, init.len() as int);
            assert(init.take(init.len() as int) =~= init);
        }
    }
}

/// Reads a player id: `Some` of its value exactly when `text` is a decimal
/// number that fits in a `u32`, optionally preceded by `+`.
pub fn parse_player_id(text: &str) -> (r: Option<u32>)
    ensures
        r == if is_player_id(text.spec_bytes()) {
            Some(digits_value(unsigned_digits(text.spec_bytes())) as u32)
        } else {
            None
        },
{
    let bytes = text.as_bytes();
    let n = bytes.len();
    let start: usize = if n > 0 && bytes[0] == 0x2b { 1 } else { 0 };
    let ghost d = unsigned_digits(bytes@);
    assert(d =~= bytes@.skip(start as int));
    if start == n {
        return None;
    }
    let mut acc: u64 = 0;
    let mut i: usize = start;
    while i < n
        invariant
            start <= i <= n,
            n == bytes@.len(),
            d =~= bytes@.skip(start as int),
            d == unsigned_digits(bytes@),
            bytes@ == text.spec_bytes(),
            forall|m: int| 0 <= m < i - start ==> is_digit(#[trigger] d[m]),
            acc == digits_value(d.take(i - start)),
            acc <= u32::MAX,
        decreases n - i,
    {
        let b = bytes[i];
        if b < 0x30 || b > 0x39 {
            assert(!is_digit(d[i - start]));
            assert(!is_player_id(bytes@));
            return None;
        }
        let ghost pre = d.take(i - start);
        assert(d.take(i + 1 - start).drop_last() =~= pre);
        assert(d.take(i + 1 - start).last() == b);
        assert(digits_value(d.take(i + 1 - start)) == digits_value(pre) * 10 + (b - 0x30));
        acc = acc * 10 + (b - 0x30) as u64;
        if acc > u32::MAX as u64 {
            proof {
                if forall|m: int| 0 <= m < d.len() ==> is_digit(#[trigger] d[m]) {
                    lemma_prefix_bounds_value(d, i + 1 - start);
                }
                assert(!is_player_id(bytes@));
            }
            return None;
        }
        i += 1;
    }
    assert(d.take(n - start) =~= d);
    Some(acc as u32)
}

} // verus!
