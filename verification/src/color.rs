//! Fill-color parsing: a hex color string (optionally prefixed by `#`) is
//! turned into an RGBA word; anything unparseable falls back to the default
//! gray.

use vstd::prelude::*;

verus! {

/// The default gray, already in RGBA form.
pub const DEFAULT_COLOR_RGBA: u32 = 0x747474FF;

pub open spec fn is_hex_digit(b: u8) -> bool {
    (48 <= b <= 57) || (97 <= b <= 102) || (65 <= b <= 70)
}

pub open spec fn hex_digit_value(b: u8) -> int {
    if 48 <= b <= 57 {
        b - 48
    } else if 97 <= b <= 102 {
        b - 87
    } else {
        b - 55
    }
}

/// The unbounded integer value of a big-endian hex digit string.
pub open spec fn hex_value(s: Seq<u8>) -> int
    decreases s.len(),
{
    if s.len() == 0 {
        0
    } else {
        hex_value(s.drop_last()) * 16 + hex_digit_value(s.last())
    }
}

/// The digit part: one leading `#` and one leading `+` are stripped, in that
/// order (a `+` sign is accepted by the underlying integer parse).
pub open spec fn hex_body(s: Seq<u8>) -> Seq<u8> {
    let b = if s.len() > 0 && s[0] == 35 {
        s.drop_first()
    } else {
        s
    };
    if b.len() > 0 && b[0] == 43 {
        b.drop_first()
    } else {
        b
    }
}

pub open spec fn all_hex(s: Seq<u8>) -> bool {
    forall|i: int| 0 <= i < s.len() ==> is_hex_digit(#[trigger] s[i])
}

/// What a color string parses to: the 24 low bits of its hex value shifted
/// in front of an opaque alpha byte; the default gray when the digits are
/// missing, malformed, or overflow 32 bits.
pub open spec fn parse_hex_color_spec(s: Seq<u8>) -> u32 {
    let d = hex_body(s);
    if d.len() > 0 && all_hex(d) && hex_value(d) <= 0xffff_ffff {
        (((hex_value(d) % 0x100_0000) * 256 + 255) as u32)
    } else {
        DEFAULT_COLOR_RGBA
    }
}

proof fn lemma_hex_value_nonneg(s: Seq<u8>)
    requires
        all_hex(s),
    ensures
        hex_value(s) >= 0,
    decreases s.len(),
{
    if s.len() > 0 {
        assert(all_hex(s.drop_last())) by {
            assert(forall|k: int|
                0 <= k < s.drop_last().len() ==> s.drop_last()[k] == s[k]);
        }
        lemma_hex_value_nonneg(s.drop_last());
        assert(is_hex_digit(s.last()));
    }
}

/// A longer digit string never has a smaller value.
proof fn lemma_hex_value_monotone(s: Seq<u8>, i: int)
    requires
        all_hex(s),
        0 <= i <= s.len(),
    ensures
        hex_value(s) >= hex_value(s.take(i)),
    decreases s.len() - i,
{
    if i < s.len() {
        lemma_hex_value_monotone(s, i + 1);
        assert(s.take(i + 1).drop_last() =~= s.take(i));
        assert(hex_value(s.take(i + 1)) == hex_value(s.take(i)) * 16 + hex_digit_value(s[i]));
        assert(all_hex(s.take(i))) by {
            assert(forall|k: int| 0 <= k < i ==> s.take(i)[k] == s[k]);
        }
        lemma_hex_value_nonneg(s.take(i));
        assert(is_hex_digit(s[i]));
        assert(hex_digit_value(s[i]) >= 0);
        assert(hex_value(s.take(i)) * 16 >= hex_value(s.take(i))) by (nonlinear_arith)
            requires hex_value(s.take(i)) >= 0;
    } else {
        assert(s.take(i) =~= s);
    }
}

/// Parses a hex color such as `ff8800` or `#ff8800` into RGBA with full
/// alpha; unparseable input yields the default gray.
pub fn parse_hex_color(hex: &[u8]) -> (color: u32)
    ensures
        color == parse_hex_color_spec(hex@),
{
    let n = hex.len();
    let mut start: usize = 0;
    if n > 0 && hex[0] == 35 {
        start = 1;
    }
    if start < n && hex[start] == 43 {
        start = start + 1;
    }
    let ghost d = hex_body(hex@);
    proof {
        assert(d =~= hex@.subrange(start as int, n as int));
    }
    if start >= n {
        return DEFAULT_COLOR_RGBA;
    }
    let mut v: u64 = 0;
    let mut i: usize = start;
    while i < n
        invariant
            start <= i <= n,
            n == hex@.len(),
            d == hex_body(hex@),
            d == hex@.subrange(start as int, n as int),
            all_hex(d.take(i - start)),
            v as int == hex_value(d.take(i - start)),
            v <= 0xffff_ffff,
        decreases n - i,
    {
        let b = hex[i];
        let dv: u64 = if 48 <= b && b <= 57 {
            (b - 48) as u64
        } else if 97 <= b && b <= 102 {
            (b - 87) as u64
        } else if 65 <= b && b <= 70 {
            (b - 55) as u64
        } else {
            proof {
                assert(d[i - start] == hex@[i as int]);
                assert(!is_hex_digit(d[i - start]));
            }
            return DEFAULT_COLOR_RGBA;
        };
        v = v * 16 + dv;
        i += 1;
        proof {
            assert(d.take(i - start).drop_last() =~= d.take(i - start - 1));
            assert(d.take(i - start).last() == hex@[i - 1]);
        }
        if v > 0xffff_ffff {
            proof {
                if all_hex(d) {
                    lemma_hex_value_monotone(d, i - start);
                }
            }
            return DEFAULT_COLOR_RGBA;
        }
    }
    proof {
        assert(d.take(n - start) =~= d);
    }
    let v32: u32 = (v as u32) % 0x100_0000;
    v32 * 256 + 255
}

} // verus!
