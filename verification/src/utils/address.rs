//! Twenty-byte account addresses.

use vstd::prelude::*;

verus! {

/// A 20-byte address, read as a 160-bit number: `hi` holds the first four
/// bytes, `mid` the next eight and `lo` the last eight, big end first.
#[derive(Clone, Copy, Debug, PartialEq, Eq, Structural, PartialOrd, Ord, Hash)]
pub struct Address {
    pub hi: u32,
    pub mid: u64,
    pub lo: u64,
}

impl View for Address {
    type V = nat;

    open spec fn view(&self) -> nat {
        (self.lo as nat) + (self.mid as nat) * 0x1_0000_0000_0000_0000 + (self.hi as nat)
            * 0x1_0000_0000_0000_0000_0000_0000_0000_0000nat
    }
}

/// Two addresses with one number are equal.
pub proof fn lemma_address_injective(a: Address, b: Address)
    requires
        a@ == b@,
    ensures
        a == b,
{
    let la = (a.lo as nat) + (a.mid as nat) * 0x1_0000_0000_0000_0000;
    let lb = (b.lo as nat) + (b.mid as nat) * 0x1_0000_0000_0000_0000;
    assert(la < 0x1_0000_0000_0000_0000_0000_0000_0000_0000nat);
    assert(lb < 0x1_0000_0000_0000_0000_0000_0000_0000_0000nat);
    assert(a.hi == b.hi);
    assert(la == lb);
    assert(a.mid == b.mid);
}

/// The character of one hexadecimal digit, in lower case.
pub open spec fn hex_digit(d: nat) -> char {
    if d == 0 {
        '0'
    } else if d == 1 {
        '1'
    } else if d == 2 {
        '2'
    } else if d == 3 {
        '3'
    } else if d == 4 {
        '4'
    } else if d == 5 {
        '5'
    } else if d == 6 {
        '6'
    } else if d == 7 {
        '7'
    } else if d == 8 {
        '8'
    } else if d == 9 {
        '9'
    } else if d == 10 {
        'a'
    } else if d == 11 {
        'b'
    } else if d == 12 {
        'c'
    } else if d == 13 {
        'd'
    } else if d == 14 {
        'e'
    } else {
        'f'
    }
}

/// The last `digits` hexadecimal digits of `value`, zeros included.
pub open spec fn hex_text(value: nat, digits: nat) -> Seq<char>
    decreases digits,
{
    if digits == 0 {
        Seq::empty()
    } else {
        hex_text(value / 16, (digits - 1) as nat).push(hex_digit(value % 16))
    }
}

/// The text of an address: `0x` and its forty hexadecimal digits.
pub open spec fn address_text(value: nat) -> Seq<char> {
    seq!['0', 'x'] + hex_text(value, 40)
}

/// The `Debug` form of `alloy_primitives::Address`: `0x` and the twenty bytes
/// in lower-case hexadecimal.
#[verifier::external_body]
fn alloy_address_debug(a: Address) -> (r: String)
    ensures
        r@ == address_text(a@),
{
    let n = alloy_primitives::aliases::U160::from_limbs([a.lo, a.mid, a.hi as u64]);
    format!("{:?}", alloy_primitives::Address::from(n))
}

/// The text of an address with its EIP-55 checksum: `0x` and forty
/// hexadecimal digits whose letters are in upper or lower case as the hash of
/// the address says.
pub uninterp spec fn address_checksum(value: nat) -> Seq<char>;

/// The `Display` form of `alloy_primitives::Address`, which is its EIP-55
/// checksum text.
#[verifier::external_body]
fn alloy_address_display(a: Address) -> (r: String)
    ensures
        r@ == address_checksum(a@),
{
    let n = alloy_primitives::aliases::U160::from_limbs([a.lo, a.mid, a.hi as u64]);
    alloy_primitives::Address::from(n).to_string()
}

impl Address {
    /// The address as text with its EIP-55 checksum.
    pub fn to_checksum_string(&self) -> (r: String)
        ensures
            r@ == address_checksum(self@),
    {
        alloy_address_display(*self)
    }

    /// The address of twenty zero bytes.
    pub fn zero() -> (a: Address)
        ensures
            a@ == 0,
    {
        Address { hi: 0, mid: 0, lo: 0 }
    }

    /// Whether all twenty bytes are zero.
    pub fn is_zero(&self) -> (r: bool)
        ensures
            r == (self@ == 0),
    {
        self.hi == 0 && self.mid == 0 && self.lo == 0
    }

    /// The address as text: `0x` and forty hexadecimal digits.
    pub fn to_hex_string(&self) -> (r: String)
        ensures
            r@ == address_text(self@),
    {
        alloy_address_debug(*self)
    }
}

} // verus!
