use vstd::prelude::*;
use vstd::string::StringSliceAdditionalSpecFns;
use vstd::string::StrSliceExecFns;

use crate::address::{Address, ADDRESS_LENGTH, addr_of_hex, bytes_equal, valid_hex_literal};
use crate::codec::{
    CANONICAL_WIDTH, adapt_width, blob_fits, retarget_addr, retarget_addr_exec, retarget_blob,
    retarget_ok,
};
use crate::error::CoreError;
use crate::module::parse_blob;

verus! {

/// A named translation profile between the canonical in-memory encoding
/// and one chain family's native encoding. Dialects differ in the address
/// width their chain stores; the canonical width is 32.
#[derive(Clone, Copy, Debug, PartialEq, Eq, Structural)]
pub enum Dialect {
    Pont,
    Dfinance,
    Diem,
}

/// The dialect a lower-case name selects, over the name's byte codes:
/// `pont`, `dfinance` or `diem`.
pub open spec fn dialect_of_name(s: Seq<u8>) -> Option<Dialect> {
    if s == seq![112u8, 111u8, 110u8, 116u8] {
        Some(Dialect::Pont)
    } else if s == seq![100u8, 102u8, 105u8, 110u8, 97u8, 110u8, 99u8, 101u8] {
        Some(Dialect::Dfinance)
    } else if s == seq![100u8, 105u8, 101u8, 109u8] {
        Some(Dialect::Diem)
    } else {
        None
    }
}

impl Dialect {
    /// Address width in bytes of the chain this dialect targets.
    pub open spec fn spec_target_width(self) -> int {
        match self {
            Dialect::Pont => 32,
            Dialect::Dfinance => 20,
            Dialect::Diem => 16,
        }
    }

    /// Does a canonical address fit this chain's width with no set byte
    /// lost?
    pub open spec fn fits(self, a: Seq<u8>) -> bool {
        retarget_ok(a, self.spec_target_width())
    }

    pub fn target_width(&self) -> (w: usize)
        ensures
            w as int == self.spec_target_width(),
            0 < w <= 32,
    {
        match self {
            Dialect::Pont => 32,
            Dialect::Dfinance => 20,
            Dialect::Diem => 16,
        }
    }

    /// Select a dialect by name.
    pub fn by_name(name: &str) -> (r: Result<Dialect, CoreError>)
        ensures
            r is Ok <==> dialect_of_name(name.spec_bytes()) is Some,
            r matches Ok(d) ==> Some(d) == dialect_of_name(name.spec_bytes()),
            r matches Err(e) ==> e == CoreError::InvalidAddress,
    {
        let b = name.as_bytes_vec();
        let pont: Vec<u8> = vec![112, 111, 110, 116];
        let dfinance: Vec<u8> = vec![100, 102, 105, 110, 97, 110, 99, 101];
        let diem: Vec<u8> = vec![100, 105, 101, 109];
        if bytes_equal(&b, &pont) {
            Ok(Dialect::Pont)
        } else if bytes_equal(&b, &dfinance) {
            Ok(Dialect::Dfinance)
        } else if bytes_equal(&b, &diem) {
            Ok(Dialect::Diem)
        } else {
            Err(CoreError::InvalidAddress)
        }
    }

    /// Parse an address literal and check that the value is representable
    /// on this dialect's chain; the canonical form comes back.
    pub fn normalize_account_address(&self, text: &str) -> (r: Result<Address, CoreError>)
        ensures
            r is Ok <==> valid_hex_literal(text.spec_bytes()) && self.fits(
                addr_of_hex(text.spec_bytes().skip(2)),
            ),
            r matches Ok(a) ==> a@ == addr_of_hex(text.spec_bytes().skip(2)) && a.wf(),
            r matches Err(e) ==> e == CoreError::InvalidAddress,
    {
        let a = match Address::from_hex_literal(text) {
            Ok(a) => a,
            Err(e) => {
                return Err(e);
            },
        };
        let w = self.target_width();
        if a.leading_zeros(ADDRESS_LENGTH - w) {
            Ok(a)
        } else {
            Err(CoreError::InvalidAddress)
        }
    }

    /// Same as [`Self::normalize_account_address`]: the dialect's address
    /// syntax check.
    pub fn parse_address(&self, text: &str) -> (r: Result<Address, CoreError>)
        ensures
            r is Ok <==> valid_hex_literal(text.spec_bytes()) && self.fits(
                addr_of_hex(text.spec_bytes().skip(2)),
            ),
            r matches Ok(a) ==> a@ == addr_of_hex(text.spec_bytes().skip(2)) && a.wf(),
            r matches Err(e) ==> e == CoreError::InvalidAddress,
    {
        self.normalize_account_address(text)
    }

    /// Canonical address to chain-native bytes; fails explicitly when the
    /// value does not fit the chain's width.
    pub fn adapt_address_to_target(&self, a: &Address) -> (r: Result<Vec<u8>, CoreError>)
        requires
            a.wf(),
        ensures
            r is Ok <==> self.fits(a@),
            r matches Ok(t) ==> t@ == retarget_addr(a@, self.spec_target_width())
                && t@.len() == self.spec_target_width(),
            r matches Err(e) ==> e == CoreError::InvalidAddress,
    {
        let w = self.target_width();
        match retarget_addr_exec(a.bytes(), w) {
            Ok(t) => Ok(t),
            Err(_) => Err(CoreError::InvalidAddress),
        }
    }

    /// Chain-native address bytes back to the canonical form; fails on any
    /// width but the chain's.
    pub fn adapt_address_to_basis(&self, bytes: &Vec<u8>) -> (r: Result<Address, CoreError>)
        ensures
            r is Ok <==> bytes@.len() == self.spec_target_width(),
            r matches Ok(a) ==> a@ == retarget_addr(bytes@, ADDRESS_LENGTH as int) && a.wf(),
            r matches Err(e) ==> e == CoreError::InvalidAddress,
    {
        let w = self.target_width();
        if bytes.len() != w {
            return Err(CoreError::InvalidAddress);
        }
        let widened = match retarget_addr_exec(bytes, ADDRESS_LENGTH) {
            Ok(t) => t,
            Err(_) => {
                proof {
                    assert(false);
                }
                return Err(CoreError::InvalidAddress);
            },
        };
        match Address::from_bytes(widened) {
            Ok(a) => Ok(a),
            Err(_) => {
                proof {
                    assert(false);
                }
                Err(CoreError::InvalidAddress)
            },
        }
    }

    /// Rewrite a canonical module blob for this dialect's chain: only the
    /// address-bearing fields change; instruction bytes travel verbatim.
    /// A malformed blob or an address that does not fit is fatal.
    pub fn adapt_to_target(&self, bytes: &Vec<u8>) -> (r: Result<Vec<u8>, CoreError>)
        ensures
            r is Ok <==> (parse_blob(bytes@, CANONICAL_WIDTH as int) matches Some(m) && blob_fits(
                m,
                self.spec_target_width(),
            )),
            r matches Ok(t) ==> t@ == retarget_blob(
                parse_blob(bytes@, CANONICAL_WIDTH as int).unwrap(),
                self.spec_target_width(),
            ),
            r is Err ==> (r matches Err(e) && (e == CoreError::DeserializationFailure
                || e == CoreError::EncodingMismatch)),
    {
        let w = self.target_width();
        adapt_width(bytes, CANONICAL_WIDTH, w)
    }

    /// Rewrite a chain-native module blob into the canonical form: the
    /// inverse of [`Self::adapt_to_target`].
    pub fn adapt_to_basis(&self, bytes: &Vec<u8>) -> (r: Result<Vec<u8>, CoreError>)
        ensures
            r is Ok <==> (parse_blob(bytes@, self.spec_target_width()) matches Some(m) && blob_fits(
                m,
                CANONICAL_WIDTH as int,
            )),
            r matches Ok(t) ==> t@ == retarget_blob(
                parse_blob(bytes@, self.spec_target_width()).unwrap(),
                CANONICAL_WIDTH as int,
            ),
            r is Err ==> (r matches Err(e) && (e == CoreError::DeserializationFailure
                || e == CoreError::EncodingMismatch)),
    {
        let w = self.target_width();
        adapt_width(bytes, w, CANONICAL_WIDTH)
    }
}

/// Translating a canonical address to the chain encoding and back
/// reproduces the address, for every dialect and every address the
/// dialect accepts.
pub proof fn lemma_address_round_trip(d: Dialect, a: Seq<u8>)
    requires
        a.len() == ADDRESS_LENGTH,
        d.fits(a),
    ensures
        retarget_addr(retarget_addr(a, d.spec_target_width()), ADDRESS_LENGTH as int) == a,
{
    let w = d.spec_target_width();
    let t = retarget_addr(a, w);
    if w == ADDRESS_LENGTH {
        assert(t =~= a);
        assert(retarget_addr(t, ADDRESS_LENGTH as int) =~= a);
    } else {
        assert(t == a.skip(a.len() - w));
        assert(retarget_addr(t, ADDRESS_LENGTH as int) =~= a);
    }
}

} // verus!
