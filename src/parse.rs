//! The numbers of trace and lease-table records: hexadecimal numerals,
//! bare or after a two-character prefix such as `0x`.

use crate::lease_table::{ConfigError, LeaseEntry, TraceItem};
use vstd::prelude::*;
use vstd::string::*;

verus! {

/// The value of a hexadecimal digit, or -1 for any other byte.
pub open spec fn hex_digit_value(b: u8) -> int {
    if 48 <= b <= 57 {
        b - 48
    } else if 97 <= b <= 102 {
        b - 87
    } else if 65 <= b <= 70 {
        b - 55
    } else {
        -1
    }
}

/// A non-empty run of hexadecimal digits.
pub open spec fn is_hex_numeral(s: Seq<u8>) -> bool {
    s.len() > 0 && forall|i: int| 0 <= i < s.len() ==> hex_digit_value(#[trigger] s[i]) >= 0
}

/// The value of a run of hexadecimal digits, most significant first.
pub open spec fn hex_value(s: Seq<u8>) -> nat
    decreases s.len(),
{
    if s.len() == 0 {
        0
    } else {
        hex_value(s.drop_last()) * 16 + hex_digit_value(s.last()) as nat
    }
}

/// The number a hexadecimal numeral stands for, if it is one and fits.
pub open spec fn hex_number(s: Seq<u8>) -> Option<u64> {
    if is_hex_numeral(s) && hex_value(s) <= u64::MAX {
        Some(hex_value(s) as u64)
    } else {
        None
    }
}

/// The number after a two-character prefix, if there is one.
pub open spec fn prefixed_hex_number(s: Seq<u8>) -> Option<u64> {
    if s.len() >= 2 {
        hex_number(s.subrange(2, s.len() as int))
    } else {
        None
    }
}

/// A prefix of a numeral is worth no more than the numeral.
proof fn lemma_hex_value_prefix(s: Seq<u8>, k: int)
    requires
        0 <= k <= s.len(),
    ensures
        hex_value(s.take(k)) <= hex_value(s),
    decreases s.len(),
{
    if k < s.len() {
        assert(s.drop_last().take(k) =~= s.take(k));
        lemma_hex_value_prefix(s.drop_last(), k);
    } else {
        assert(s.take(k) =~= s);
    }
}

fn digit_value(b: u8) -> (r: Option<u64>)
    ensures
        r is Some <==> hex_digit_value(b) >= 0,
        r is Some ==> r->0 == hex_digit_value(b),
{
    if 48 <= b && b <= 57 {
        Some((b - 48) as u64)
    } else if 97 <= b && b <= 102 {
        Some((b - 87) as u64)
    } else if 65 <= b && b <= 70 {
        Some((b - 55) as u64)
    } else {
        None
    }
}

/// The number that the bytes of `b` from `start` on stand for.
fn parse_hex_from(b: &[u8], start: usize) -> (r: Option<u64>)
    requires
        start <= b@.len(),
    ensures
        r == hex_number(b@.subrange(start as int, b@.len() as int)),
{
    let ghost s = b@.subrange(start as int, b@.len() as int);
    if start == b.len() {
        return None;
    }
    let mut acc: u64 = 0;
    let mut i: usize = start;
    while i < b.len()
        invariant
            start <= i <= b@.len(),
            s == b@.subrange(start as int, b@.len() as int),
            forall|j: int| 0 <= j < i - start ==> hex_digit_value(#[trigger] s[j]) >= 0,
            acc == hex_value(s.take(i - start)),
        decreases b@.len() - i,
    {
        let ghost k = (i - start) as int;
        assert(s.take(k + 1).drop_last() =~= s.take(k));
        assert(s[k] == b@[i as int]);
        let d = match digit_value(b[i]) {
            Some(d) => d,
            None => {
                return None;
            },
        };
        if acc > (u64::MAX - d) / 16 {
            proof {
                assert(acc * 16 + d > u64::MAX) by (nonlinear_arith)
                    requires
                        acc > (u64::MAX - d) / 16,
                        d <= 15,
                ;
                if is_hex_numeral(s) {
                    lemma_hex_value_prefix(s, k + 1);
                }
            }
            return None;
        }
        proof {
            assert(acc * 16 + d <= u64::MAX) by (nonlinear_arith)
                requires
                    acc <= (u64::MAX - d) / 16,
                    d <= 15,
            ;
        }
        acc = acc * 16 + d;
        i = i + 1;
    }
    assert(s.take(s.len() as int) =~= s);
    Some(acc)
}

/// The number that `text`, a hexadecimal numeral, stands for; `None` if it
/// is empty, holds another character, or exceeds 64 bits.
pub fn parse_hex(text: &str) -> (r: Option<u64>)
    ensures
        r == hex_number(text.spec_bytes()),
{
    let b = text.as_bytes();
    assert(b@.subrange(0, b@.len() as int) =~= b@);
    parse_hex_from(b, 0)
}

/// The number that `text` stands for after its first two characters
/// (`0x1f` stands for 31).
pub fn parse_prefixed_hex(text: &str) -> (r: Option<u64>)
    ensures
        r == prefixed_hex_number(text.spec_bytes()),
{
    let b = text.as_bytes();
    if b.len() < 2 {
        return None;
    }
    parse_hex_from(b, 2)
}

impl LeaseEntry {
    /// A lease-table entry from its two leases, each a hexadecimal numeral,
    /// and the chance of the short one.
    pub fn from_fields(short_lease: &str, long_lease: &str, short_chance: u64) -> (r: Result<
        LeaseEntry,
        ConfigError,
    >)
        ensures
            match (hex_number(short_lease.spec_bytes()), hex_number(long_lease.spec_bytes())) {
                (Some(s), Some(l)) => r == Ok::<LeaseEntry, ConfigError>(
                    LeaseEntry { short_lease: s, long_lease: l, short_chance },
                ),
                _ => r == Err::<LeaseEntry, ConfigError>(ConfigError::MalformedField),
            },
    {
        match (parse_hex(short_lease), parse_hex(long_lease)) {
            (Some(s), Some(l)) => Ok(LeaseEntry { short_lease: s, long_lease: l, short_chance }),
            _ => Err(ConfigError::MalformedField),
        }
    }
}

impl TraceItem {
    /// A trace record from its three fields, each a prefixed hexadecimal
    /// numeral: the reference, the reuse interval, and the address.
    pub fn from_fields(reference: &str, reuse_interval: &str, address: &str) -> (r: Result<
        TraceItem,
        ConfigError,
    >)
        ensures
            match (
                prefixed_hex_number(reference.spec_bytes()),
                prefixed_hex_number(reuse_interval.spec_bytes()),
                prefixed_hex_number(address.spec_bytes()),
            ) {
                (Some(f), Some(u), Some(a)) => r == Ok::<TraceItem, ConfigError>(
                    TraceItem { access_tag: a, reference: f, reuse_interval: u },
                ),
                _ => r == Err::<TraceItem, ConfigError>(ConfigError::MalformedField),
            },
    {
        let f = parse_prefixed_hex(reference);
        let u = parse_prefixed_hex(reuse_interval);
        let a = parse_prefixed_hex(address);
        match (f, u, a) {
            (Some(f), Some(u), Some(a)) => Ok(TraceItem::new(a, f, u)),
            _ => Err(ConfigError::MalformedField),
        }
    }
}

} // verus!
