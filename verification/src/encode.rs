use vstd::prelude::*;

verus! {

/// ULEB128 encoding of a non-negative integer: seven bits per byte,
/// lowest bits first, the high bit marking continuation.
pub open spec fn uleb(n: nat) -> Seq<u8>
    decreases n,
{
    if n < 128 {
        seq![n as u8]
    } else {
        seq![(n % 128 + 128) as u8] + uleb(n / 128)
    }
}

/// The serialized form of a list of byte strings: the count, then each
/// string length-prefixed, every number in ULEB128.
pub open spec fn seq_envelope(items: Seq<Seq<u8>>) -> Seq<u8>
    decreases items.len(),
{
    if items.len() == 0 {
        Seq::empty()
    } else {
        uleb(items[0].len()) + items[0] + seq_envelope(items.skip(1))
    }
}

/// The single binary envelope wrapping an ordered sequence of module
/// blobs: the package wire format.
pub open spec fn package_envelope(items: Seq<Seq<u8>>) -> Seq<u8> {
    uleb(items.len()) + seq_envelope(items)
}

/// Is a list of byte strings small enough for the envelope encoder?
/// Each length must stay below 2^31.
pub open spec fn envelope_ok(items: Seq<Seq<u8>>) -> bool {
    items.len() < 0x8000_0000 && forall|i: int|
        0 <= i < items.len() ==> (#[trigger] items[i]).len() < 0x8000_0000
}

/// Relies on `bcs::to_bytes` for `Vec<Vec<u8>>`: BCS writes a sequence as
/// a ULEB128 element count followed by the elements, and a byte vector as
/// a ULEB128 length followed by the bytes; it fails only on a length of
/// 2^31 or more, which the caller rules out.
#[verifier::external_body]
fn bcs_encode_blobs(items: &Vec<Vec<u8>>) -> (r: Vec<u8>)
    requires
        items@.len() < 0x8000_0000,
        forall|i: int| 0 <= i < items@.len() ==> (#[trigger] items@[i])@.len() < 0x8000_0000,
    ensures
        r@ == package_envelope(Seq::new(items@.len(), |i: int| items@[i]@)),
{
    bcs::to_bytes(items).unwrap()
}

/// Serialize a list of module blobs into the package envelope.
pub fn encode_blobs(items: &Vec<Vec<u8>>) -> (r: Result<Vec<u8>, crate::error::CoreError>)
    ensures
        r is Ok <==> envelope_ok(Seq::new(items@.len(), |i: int| items@[i]@)),
        r matches Ok(b) ==> b@ == package_envelope(Seq::new(items@.len(), |i: int| items@[i]@)),
        r matches Err(e) ==> e == crate::error::CoreError::EncodingMismatch,
{
    if items.len() >= 0x8000_0000usize {
        return Err(crate::error::CoreError::EncodingMismatch);
    }
    let mut i: usize = 0;
    while i < items.len()
        invariant
            0 <= i <= items@.len(),
            forall|k: int| 0 <= k < i ==> (#[trigger] items@[k])@.len() < 0x8000_0000,
        decreases items@.len() - i,
    {
        if items[i].len() >= 0x8000_0000usize {
            proof {
                assert(Seq::new(items@.len(), |k: int| items@[k]@)[i as int] == items@[
                    i as int
                ]@);
            }
            return Err(crate::error::CoreError::EncodingMismatch);
        }
        i += 1;
    }
    Ok(bcs_encode_blobs(items))
}

} // verus!
