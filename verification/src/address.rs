use vstd::prelude::*;
use vstd::string::StringSliceAdditionalSpecFns;
use vstd::string::StrSliceExecFns;

use crate::error::CoreError;

verus! {

/// Width in bytes of a canonical, dialect-independent account address.
pub const ADDRESS_LENGTH: usize = 32;

/// Is `c` the ASCII code of a hexadecimal digit?
pub open spec fn is_hex_digit(c: u8) -> bool {
    (48 <= c <= 57) || (97 <= c <= 102) || (65 <= c <= 70)
}

/// Numeric value of the ASCII hexadecimal digit `c`.
pub open spec fn hex_val(c: u8) -> u8 {
    if 48 <= c <= 57 {
        (c - 48) as u8
    } else if 97 <= c <= 102 {
        (c - 87) as u8
    } else {
        (c - 55) as u8
    }
}

/// A valid address literal is `0x` followed by one to 64 hex digits.
pub open spec fn valid_hex_literal(s: Seq<u8>) -> bool {
    &&& 3 <= s.len() <= 66
    &&& s[0] == 48u8
    &&& s[1] == 120u8
    &&& forall|i: int| 2 <= i < s.len() ==> is_hex_digit(#[trigger] s[i])
}

/// The `j`-th of the 64 nibbles of an address value written with the digit
/// characters `digits`, right-aligned and zero-padded on the left.
pub open spec fn padded_nibble(digits: Seq<u8>, j: int) -> u8 {
    if j < 64 - digits.len() {
        0u8
    } else {
        hex_val(digits[j - (64 - digits.len())])
    }
}

/// Byte `i` of the canonical address written with the digit characters
/// `digits` (big-endian, zero-extended on the left).
pub open spec fn hex_addr_byte(digits: Seq<u8>, i: int) -> u8 {
    (16 * padded_nibble(digits, 2 * i) + padded_nibble(digits, 2 * i + 1)) as u8
}

/// The canonical 32-byte address value denoted by the digit characters
/// `digits`.
pub open spec fn addr_of_hex(digits: Seq<u8>) -> Seq<u8> {
    Seq::new(32, |i: int| hex_addr_byte(digits, i))
}

/// Canonical account address: exactly [`ADDRESS_LENGTH`] bytes, the encoding
/// every dialect translates from and to.
#[derive(Clone, Debug)]
pub struct Address {
    bytes: Vec<u8>,
}

impl View for Address {
    type V = Seq<u8>;

    closed spec fn view(&self) -> Seq<u8> {
        self.bytes@
    }
}

impl Address {
    /// A well-formed address holds exactly 32 bytes.
    pub open spec fn wf(&self) -> bool {
        self@.len() == ADDRESS_LENGTH
    }

    /// Wrap raw canonical bytes; rejects any width but 32.
    pub fn from_bytes(bytes: Vec<u8>) -> (r: Result<Address, CoreError>)
        ensures
            r is Ok <==> bytes@.len() == ADDRESS_LENGTH,
            r matches Ok(a) ==> a@ == bytes@ && a.wf(),
            r matches Err(e) ==> e == CoreError::InvalidAddress,
    {
        if bytes.len() == ADDRESS_LENGTH {
            Ok(Address { bytes })
        } else {
            Err(CoreError::InvalidAddress)
        }
    }

    /// Parse a `0x…` hexadecimal literal into a canonical address,
    /// zero-extending on the left.
    #[verifier::loop_isolation(false)]
    pub fn from_hex_literal(text: &str) -> (r: Result<Address, CoreError>)
        ensures
            r is Ok <==> valid_hex_literal(text.spec_bytes()),
            r matches Ok(a) ==> a@ == addr_of_hex(text.spec_bytes().skip(2)) && a.wf(),
            r matches Err(e) ==> e == CoreError::InvalidAddress,
    {
        let s = text.as_bytes_vec();
        let n = s.len();
        if n < 3 || n > 66 {
            return Err(CoreError::InvalidAddress);
        }
        if s[0] != 48 || s[1] != 120 {
            return Err(CoreError::InvalidAddress);
        }
        let mut i: usize = 2;
        while i < n
            invariant
                2 <= i <= n,
                n == s@.len(),
                forall|k: int| 2 <= k < i ==> is_hex_digit(#[trigger] s@[k]),
            decreases n - i,
        {
            if !hex_digit_ok(s[i]) {
                return Err(CoreError::InvalidAddress);
            }
            i += 1;
        }
        let ghost digits = s@.skip(2);
        // All 64 nibble values, left-padded with zeros.
        let mut nibs: Vec<u8> = Vec::new();
        let pad = 64 - (n - 2);
        while nibs.len() < pad
            invariant
                nibs@.len() <= pad,
                pad == 64 - (n - 2),
                3 <= n <= 66,
                forall|j: int| 0 <= j < nibs@.len() ==> nibs@[j] == padded_nibble(digits, j),
                n == s@.len(),
                digits == s@.skip(2),
                forall|k: int| 2 <= k < n ==> is_hex_digit(#[trigger] s@[k]),
            decreases pad - nibs@.len(),
        {
            nibs.push(0);
        }
        let mut k: usize = 2;
        while k < n
            invariant
                2 <= k <= n,
                nibs@.len() == pad + k - 2,
                pad == 64 - (n - 2),
                3 <= n <= 66,
                forall|j: int| 0 <= j < nibs@.len() ==> nibs@[j] == padded_nibble(digits, j),
                n == s@.len(),
                digits == s@.skip(2),
                forall|kk: int| 2 <= kk < n ==> is_hex_digit(#[trigger] s@[kk]),
            decreases n - k,
        {
            assert(is_hex_digit(s@[k as int]));
            let v = hex_digit_value(s[k]);
            assert(digits[k - 2] == s@[k as int]);
            nibs.push(v);
            k += 1;
        }
        assert(nibs@.len() == 64);
        assert forall|j: int| 0 <= j < 64 implies #[trigger] nibs@[j] == padded_nibble(digits, j)
            && nibs@[j] < 16 by {
            assert(nibs@[j] == padded_nibble(digits, j));
            if j >= 64 - digits.len() {
                assert(digits[j - (64 - digits.len())] == s@[j - (64 - digits.len()) + 2]);
                assert(is_hex_digit(digits[j - (64 - digits.len())]));
            }
        }
        let mut out: Vec<u8> = Vec::new();
        let mut b: usize = 0;
        while b < 32
            invariant
                out@.len() == b <= 32,
                nibs@.len() == 64,
                forall|j: int| 0 <= j < 64 ==> #[trigger] nibs@[j] == padded_nibble(digits, j) && nibs@[j] < 16,
                forall|j: int| 0 <= j < b ==> out@[j] == hex_addr_byte(digits, j),
            decreases 32 - b,
        {
            let hi = nibs[2 * b];
            let lo = nibs[2 * b + 1];
            assert(hi < 16 && lo < 16);
            out.push(16 * hi + lo);
            b += 1;
        }
        assert(out@ =~= addr_of_hex(digits));
        Ok(Address { bytes: out })
    }

    /// Borrow the canonical bytes.
    pub fn bytes(&self) -> (r: &Vec<u8>)
        ensures
            r@ == self@,
    {
        &self.bytes
    }

    /// Do the first `k` bytes all equal zero?
    pub fn leading_zeros(&self, k: usize) -> (r: bool)
        requires
            self.wf(),
            k <= ADDRESS_LENGTH,
        ensures
            r == (forall|i: int| 0 <= i < k ==> self@[i] == 0),
    {
        let mut i: usize = 0;
        while i < k
            invariant
                0 <= i <= k <= self@.len(),
                forall|j: int| 0 <= j < i ==> self@[j] == 0,
            decreases k - i,
        {
            if self.bytes[i] != 0 {
                return false;
            }
            i += 1;
        }
        true
    }

    /// A copy holding the same bytes.
    pub fn duplicate(&self) -> (r: Address)
        ensures
            r@ == self@,
    {
        let mut out: Vec<u8> = Vec::new();
        let mut i: usize = 0;
        while i < self.bytes.len()
            invariant
                0 <= i <= self@.len(),
                out@ == self@.take(i as int),
            decreases self@.len() - i,
        {
            out.push(self.bytes[i]);
            assert(out@ =~= self@.take(i + 1));
            i += 1;
        }
        assert(self@.take(self@.len() as int) =~= self@);
        Address { bytes: out }
    }

    /// Byte-for-byte equality of two addresses.
    pub fn equals(&self, other: &Address) -> (r: bool)
        ensures
            r == (self@ == other@),
    {
        crate::address::bytes_equal(&self.bytes, &other.bytes)
    }
}

/// Byte-for-byte equality of two byte vectors.
pub fn bytes_equal(a: &Vec<u8>, b: &Vec<u8>) -> (r: bool)
    ensures
        r == (a@ == b@),
{
    if a.len() != b.len() {
        assert(a@.len() != b@.len());
        return false;
    }
    let mut i: usize = 0;
    while i < a.len()
        invariant
            0 <= i <= a@.len(),
            a@.len() == b@.len(),
            forall|j: int| 0 <= j < i ==> a@[j] == b@[j],
        decreases a@.len() - i,
    {
        if a[i] != b[i] {
            return false;
        }
        i += 1;
    }
    assert(a@ =~= b@);
    true
}

/// Is `c` a hexadecimal digit? (executable form)
pub fn hex_digit_ok(c: u8) -> (r: bool)
    ensures
        r == is_hex_digit(c),
{
    (48 <= c && c <= 57) || (97 <= c && c <= 102) || (65 <= c && c <= 70)
}

/// Numeric value of a hexadecimal digit character.
pub fn hex_digit_value(c: u8) -> (v: u8)
    requires
        is_hex_digit(c),
    ensures
        v == hex_val(c),
        v < 16,
{
    if 48 <= c && c <= 57 {
        c - 48
    } else if 97 <= c && c <= 102 {
        c - 87
    } else {
        c - 55
    }
}

} // verus!
