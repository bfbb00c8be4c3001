use vstd::arithmetic::div_mod::{lemma_div_by_multiple, lemma_div_by_multiple_is_strongly_ordered};
use vstd::prelude::*;

verus! {

/// An IP address value, IPv4 as a 32-bit and IPv6 as a 128-bit big-endian number.
#[derive(Clone, Copy, Debug, PartialEq, Eq, Structural, Hash)]
pub enum IpValue {
    V4(u32),
    V6(u128),
}

/// A routed prefix: an address together with its mask length.
#[derive(Clone, Copy, Debug, PartialEq, Eq, Structural, Hash)]
pub struct Address {
    pub ip: IpValue,
    pub mask: u8,
}

/// The byte at position `i` of `s`, or zero past its end.
pub open spec fn byte_or_zero(s: Seq<u8>, i: int) -> nat {
    if 0 <= i < s.len() {
        s[i] as nat
    } else {
        0
    }
}

/// The big-endian value of the first `k` bytes of `s`, padded with zero bytes.
pub open spec fn be_value(s: Seq<u8>, k: nat) -> nat
    decreases k,
{
    if k == 0 {
        0
    } else {
        be_value(s, (k - 1) as nat) * 256 + byte_or_zero(s, k - 1)
    }
}

pub open spec fn pow256(k: nat) -> nat
    decreases k,
{
    if k == 0 {
        1
    } else {
        256 * pow256((k - 1) as nat)
    }
}

/// The address that prefix bytes `s` denote once padded to the family's width.
pub open spec fn ip_of(s: Seq<u8>, is_ipv4: bool) -> IpValue {
    if is_ipv4 {
        IpValue::V4(be_value(s, 4) as u32)
    } else {
        IpValue::V6(be_value(s, 16) as u128)
    }
}

proof fn lemma_be_value_bound(s: Seq<u8>, k: nat)
    ensures
        be_value(s, k) < pow256(k),
    decreases k,
{
    if k > 0 {
        lemma_be_value_bound(s, (k - 1) as nat);
        let a = be_value(s, (k - 1) as nat);
        let p = pow256((k - 1) as nat);
        let b = byte_or_zero(s, k - 1);
        assert(a * 256 + b < 256 * p) by (nonlinear_arith)
            requires
                a < p,
                b < 256,
        ;
    }
}

proof fn lemma_pow256_monotone(j: nat, k: nat)
    requires
        j <= k,
    ensures
        pow256(j) <= pow256(k),
    decreases k,
{
    if j < k {
        lemma_pow256_monotone(j, (k - 1) as nat);
    }
}

proof fn lemma_pow256_widths()
    ensures
        pow256(4) == 0x1_0000_0000,
        pow256(16) == 0x1_0000_0000_0000_0000_0000_0000_0000_0000,
{
    reveal_with_fuel(pow256, 17);
}

proof fn lemma_be_value_zero_tail(s: Seq<u8>, t: Seq<u8>, k: nat)
    requires
        forall|i: int| 0 <= i < k ==> byte_or_zero(s, i) == byte_or_zero(t, i),
    ensures
        be_value(s, k) == be_value(t, k),
    decreases k,
{
    if k > 0 {
        lemma_be_value_zero_tail(s, t, (k - 1) as nat);
    }
}

/// Prefix bytes that omit trailing zero bytes denote the same address as the
/// bytes written out in full.
pub proof fn law_trailing_zeros_irrelevant(s: Seq<u8>, zeros: Seq<u8>, is_ipv4: bool)
    requires
        forall|i: int| 0 <= i < zeros.len() ==> zeros[i] == 0,
    ensures
        ip_of(s, is_ipv4) == ip_of(s + zeros, is_ipv4),
{
    let t = s + zeros;
    assert forall|i: int| 0 <= i < 16 implies byte_or_zero(s, i) == byte_or_zero(t, i) by {
        if i >= s.len() && i < t.len() {
            assert(t[i] == zeros[i - s.len()]);
        }
    }
    lemma_be_value_zero_tail(s, t, 4);
    lemma_be_value_zero_tail(s, t, 16);
}

/// Rebuilds an address from the prefix bytes of a routing record. Missing
/// trailing bytes count as zero; bytes past the family's width are ignored.
pub fn format_ip(ip: &[u8], is_ipv4: bool) -> (r: IpValue)
    ensures
        r == ip_of(ip@, is_ipv4),
{
    let width: usize = if is_ipv4 { 4 } else { 16 };
    let mut acc: u128 = 0;
    let mut k: usize = 0;
    proof {
        lemma_pow256_widths();
    }
    while k < width
        invariant
            width == 4 || width == 16,
            is_ipv4 <==> width == 4,
            k <= width,
            acc as nat == be_value(ip@, k as nat),
            pow256(16) == 0x1_0000_0000_0000_0000_0000_0000_0000_0000,
            pow256(4) == 0x1_0000_0000,
        decreases width - k,
    {
        let b: u8 = if k < ip.len() { ip[k] } else { 0 };
        proof {
            lemma_be_value_bound(ip@, k as nat);
            lemma_pow256_monotone((k + 1) as nat, 16);
            assert(be_value(ip@, (k + 1) as nat) == be_value(ip@, k as nat) * 256 + byte_or_zero(ip@, k as int));
            lemma_be_value_bound(ip@, (k + 1) as nat);
        }
        acc = acc * 256 + b as u128;
        k = k + 1;
    }
    proof {
        lemma_be_value_bound(ip@, k as nat);
    }
    if is_ipv4 {
        IpValue::V4(acc as u32)
    } else {
        IpValue::V6(acc)
    }
}

impl Address {
    /// The leading byte of the address, which decides the bin it is processed in.
    pub open spec fn leading_byte_spec(&self) -> u8 {
        match self.ip {
            IpValue::V4(v) => (v / 0x100_0000) as u8,
            IpValue::V6(v) => (v / 0x100_0000_0000_0000_0000_0000_0000_0000) as u8,
        }
    }

    pub fn leading_byte(&self) -> (r: u8)
        ensures
            r == self.leading_byte_spec(),
    {
        match self.ip {
            IpValue::V4(v) => {
                assert(v / 0x100_0000 < 256) by (nonlinear_arith)
                    requires
                        v <= 0xffff_ffff,
                ;
                (v / 0x100_0000) as u8
            },
            IpValue::V6(v) => {
                proof {
                    let z: int = 0x100_0000_0000_0000_0000_0000_0000_0000;
                    lemma_div_by_multiple(256, z);
                    assert(256 * z == 0x1_0000_0000_0000_0000_0000_0000_0000_0000);
                    assert((v as int) < 256 * z);
                    lemma_div_by_multiple_is_strongly_ordered(v as int, 256 * z, 256, z);
                }
                (v / 0x100_0000_0000_0000_0000_0000_0000_0000) as u8
            },
        }
    }
}

} // verus!
