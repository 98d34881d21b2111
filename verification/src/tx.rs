use vstd::prelude::*;

use crate::address::{Address, addr_of_hex, valid_hex_literal, hex_digit_ok, hex_digit_value,
    is_hex_digit, hex_val};
use crate::error::CoreError;
use crate::module::copy_bytes;

verus! {

/// A runtime type a call parameter can declare.
pub enum TypeTag {
    Bool,
    U8,
    U64,
    U128,
    Address,
    Signer,
    Vector(Box<TypeTag>),
}

/// The ghost shape of a bound argument value.
pub ghost enum ValueV {
    Bool(bool),
    U8(u8),
    U64(u64),
    U128(u128),
    Address(Seq<u8>),
    Bytes(Seq<u8>),
}

/// A bound argument value, ready for payload assembly.
pub enum Value {
    Bool(bool),
    U8(u8),
    U64(u64),
    U128(u128),
    Address(Address),
    Bytes(Vec<u8>),
}

impl View for Value {
    type V = ValueV;

    open spec fn view(&self) -> ValueV {
        match self {
            Value::Bool(b) => ValueV::Bool(*b),
            Value::U8(v) => ValueV::U8(*v),
            Value::U64(v) => ValueV::U64(*v),
            Value::U128(v) => ValueV::U128(*v),
            Value::Address(a) => ValueV::Address(a@),
            Value::Bytes(b) => ValueV::Bytes(b@),
        }
    }
}

/// Is `c` the ASCII code of a decimal digit?
pub open spec fn is_dec_digit(c: u8) -> bool {
    48 <= c <= 57
}

/// Nothing but decimal digits, at least one.
pub open spec fn valid_dec(s: Seq<u8>) -> bool {
    s.len() >= 1 && forall|i: int| 0 <= i < s.len() ==> is_dec_digit(#[trigger] s[i])
}

/// The number a decimal digit string denotes.
pub open spec fn dec_val(s: Seq<u8>) -> nat
    decreases s.len(),
{
    if s.len() == 0 {
        0
    } else {
        dec_val(s.drop_last()) * 10 + (s.last() - 48) as nat
    }
}

/// A longer digit prefix never denotes a smaller number.
pub proof fn lemma_dec_val_prefix(s: Seq<u8>, k: int)
    requires
        0 <= k <= s.len(),
    ensures
        dec_val(s.take(k)) <= dec_val(s),
    decreases s.len() - k,
{
    if k < s.len() {
        lemma_dec_val_prefix(s, k + 1);
        assert(s.take(k + 1).drop_last() =~= s.take(k));
        assert(dec_val(s.take(k)) <= dec_val(s.take(k + 1)));
    } else {
        assert(s.take(k) =~= s);
    }
}

/// Parse a decimal literal into a number no larger than `max`.
pub fn parse_dec(s: &Vec<u8>, max: u128) -> (r: Result<u128, CoreError>)
    ensures
        r is Ok <==> valid_dec(s@) && dec_val(s@) <= max,
        r matches Ok(v) ==> v == dec_val(s@),
        r matches Err(e) ==> e == CoreError::NoMatchingCandidate,
{
    let n = s.len();
    if n == 0 {
        return Err(CoreError::NoMatchingCandidate);
    }
    let mut acc: u128 = 0;
    let mut i: usize = 0;
    while i < n
        invariant
            0 <= i <= n == s@.len(),
            forall|k: int| 0 <= k < i ==> is_dec_digit(#[trigger] s@[k]),
            acc == dec_val(s@.take(i as int)),
            acc <= max,
        decreases n - i,
    {
        let c = s[i];
        if c < 48 || c > 57 {
            return Err(CoreError::NoMatchingCandidate);
        }
        let d = (c - 48) as u128;
        if d > max {
            proof {
                assert(s@.take(i + 1).drop_last() =~= s@.take(i as int));
                assert(s@.take(i + 1).last() == s@[i as int]);
                assert(dec_val(s@.take(i + 1)) >= d);
                lemma_dec_val_prefix(s@, i + 1);
            }
            return Err(CoreError::NoMatchingCandidate);
        }
        if acc > (max - d) / 10 {
            proof {
                assert(s@.take(i + 1).drop_last() =~= s@.take(i as int));
                assert(s@.take(i + 1).last() == s@[i as int]);
                assert(dec_val(s@.take(i + 1)) == acc * 10 + d);
                assert(acc * 10 + d > max) by (nonlinear_arith)
                    requires
                        acc > (max - d) / 10,
                        d <= max,
                        0 <= d < 10,
                {}
                lemma_dec_val_prefix(s@, i + 1);
            }
            return Err(CoreError::NoMatchingCandidate);
        }
        proof {
            assert(acc * 10 + d <= max) by (nonlinear_arith)
                requires
                    acc <= (max - d) / 10,
                    d <= max,
                    0 <= d < 10,
            {}
            assert(s@.take(i + 1).drop_last() =~= s@.take(i as int));
            assert(s@.take(i + 1).last() == s@[i as int]);
        }
        acc = acc * 10 + d;
        i += 1;
    }
    proof {
        assert(s@.take(n as int) =~= s@);
    }
    Ok(acc)
}

/// The value of a hexadecimal byte-string literal `0x…` with an even
/// digit count: two digits per byte.
pub open spec fn hex_bytes(digits: Seq<u8>) -> Seq<u8> {
    Seq::new(digits.len() / 2, |i: int| (16 * hex_val(digits[2 * i]) + hex_val(
        digits[2 * i + 1],
    )) as u8)
}

/// What binding a literal to a declared type yields, when it binds.
pub open spec fn bind_spec(t: TypeTag, s: Seq<u8>) -> Option<ValueV> {
    match t {
        TypeTag::Bool => {
            if s == seq![116u8, 114u8, 117u8, 101u8] {
                Some(ValueV::Bool(true))
            } else if s == seq![102u8, 97u8, 108u8, 115u8, 101u8] {
                Some(ValueV::Bool(false))
            } else {
                None
            }
        },
        TypeTag::U8 => {
            if valid_dec(s) && dec_val(s) <= 255 {
                Some(ValueV::U8(dec_val(s) as u8))
            } else {
                None
            }
        },
        TypeTag::U64 => {
            if valid_dec(s) && dec_val(s) <= 0xffff_ffff_ffff_ffff {
                Some(ValueV::U64(dec_val(s) as u64))
            } else {
                None
            }
        },
        TypeTag::U128 => {
            if valid_dec(s) && dec_val(s) <= 0xffff_ffff_ffff_ffff_ffff_ffff_ffff_ffff {
                Some(ValueV::U128(dec_val(s) as u128))
            } else {
                None
            }
        },
        TypeTag::Address => {
            if valid_hex_literal(s) {
                Some(ValueV::Address(addr_of_hex(s.skip(2))))
            } else {
                None
            }
        },
        TypeTag::Signer => None,
        TypeTag::Vector(inner) => {
            if *inner is U8 && valid_hex_literal(s) && s.len() % 2 == 0 {
                Some(ValueV::Bytes(hex_bytes(s.skip(2))))
            } else {
                None
            }
        },
    }
}

/// Bind one literal to one declared type: the runtime value the type
/// implies, or the binding failure.
pub fn bind_literal(t: &TypeTag, s: &Vec<u8>) -> (r: Result<Value, CoreError>)
    ensures
        r is Ok <==> bind_spec(*t, s@) is Some,
        r matches Ok(v) ==> Some(v@) == bind_spec(*t, s@),
        r matches Err(e) ==> e == CoreError::NoMatchingCandidate,
{
    match t {
        TypeTag::Bool => {
            let tr: Vec<u8> = vec![116, 114, 117, 101];
            let fa: Vec<u8> = vec![102, 97, 108, 115, 101];
            if crate::address::bytes_equal(s, &tr) {
                Ok(Value::Bool(true))
            } else if crate::address::bytes_equal(s, &fa) {
                Ok(Value::Bool(false))
            } else {
                Err(CoreError::NoMatchingCandidate)
            }
        },
        TypeTag::U8 => {
            match parse_dec(s, 255) {
                Ok(v) => Ok(Value::U8(v as u8)),
                Err(e) => Err(e),
            }
        },
        TypeTag::U64 => {
            match parse_dec(s, 0xffff_ffff_ffff_ffff) {
                Ok(v) => Ok(Value::U64(v as u64)),
                Err(e) => Err(e),
            }
        },
        TypeTag::U128 => {
            match parse_dec(s, 0xffff_ffff_ffff_ffff_ffff_ffff_ffff_ffff) {
                Ok(v) => Ok(Value::U128(v)),
                Err(e) => Err(e),
            }
        },
        TypeTag::Address => {
            match parse_address_literal(s) {
                Ok(a) => Ok(Value::Address(a)),
                Err(e) => Err(e),
            }
        },
        TypeTag::Signer => Err(CoreError::NoMatchingCandidate),
        TypeTag::Vector(inner) => {
            match &**inner {
                TypeTag::U8 => {
                    match parse_hex_bytes(s) {
                        Ok(b) => Ok(Value::Bytes(b)),
                        Err(e) => Err(e),
                    }
                },
                _ => Err(CoreError::NoMatchingCandidate),
            }
        },
    }
}

/// Parse an address literal given as bytes.
fn parse_address_literal(s: &Vec<u8>) -> (r: Result<Address, CoreError>)
    ensures
        r is Ok <==> valid_hex_literal(s@),
        r matches Ok(a) ==> a@ == addr_of_hex(s@.skip(2)) && a.wf(),
        r matches Err(e) ==> e == CoreError::NoMatchingCandidate,
{
    let n = s.len();
    if n < 3 || n > 66 || s[0] != 48 || s[1] != 120 {
        return Err(CoreError::NoMatchingCandidate);
    }
    let mut i: usize = 2;
    while i < n
        invariant
            2 <= i <= n == s@.len(),
            forall|k: int| 2 <= k < i ==> is_hex_digit(#[trigger] s@[k]),
        decreases n - i,
    {
        if !hex_digit_ok(s[i]) {
            return Err(CoreError::NoMatchingCandidate);
        }
        i += 1;
    }
    let ghost digits = s@.skip(2);
    let mut nibs: Vec<u8> = Vec::new();
    let pad = 64 - (n - 2);
    while nibs.len() < pad
        invariant
            nibs@.len() <= pad,
            pad == 64 - (n - 2),
            3 <= n <= 66,
            forall|j: int| 0 <= j < nibs@.len() ==> nibs@[j] == crate::address::padded_nibble(
                digits,
                j,
            ),
        decreases pad - nibs@.len(),
    {
        nibs.push(0);
    }
    let mut k: usize = 2;
    while k < n
        invariant
            2 <= k <= n,
            nibs@.len() == pad + k - 2,
            forall|j: int| 0 <= j < nibs@.len() ==> nibs@[j] == crate::address::padded_nibble(
                digits,
                j,
            ),
        decreases n - k,
    {
        let v = hex_digit_value(s[k]);
        proof {
            assert(digits[k - 2] == s@[k as int]);
        }
        nibs.push(v);
        k += 1;
    }
    let mut out: Vec<u8> = Vec::new();
    let mut b: usize = 0;
    proof {
        assert(nibs@.len() == 64);
        assert forall|j: int| 0 <= j < 64 implies nibs@[j] < 16 by {
            assert(nibs@[j] == crate::address::padded_nibble(digits, j));
            if j >= 64 - digits.len() {
                assert(digits[j - (64 - digits.len())] == s@[j - (64 - digits.len()) + 2]);
                assert(is_hex_digit(digits[j - (64 - digits.len())]));
            }
        }
    }
    while b < 32
        invariant
            out@.len() == b <= 32,
            nibs@.len() == 64,
            forall|j: int| 0 <= j < 64 ==> #[trigger] nibs@[j] == crate::address::padded_nibble(
                digits,
                j,
            ) && nibs@[j] < 16,
            forall|j: int| 0 <= j < b ==> out@[j] == crate::address::hex_addr_byte(digits, j),
        decreases 32 - b,
    {
        let hi = nibs[2 * b];
        let lo = nibs[2 * b + 1];
        out.push(16 * hi + lo);
        b += 1;
    }
    proof {
        assert(out@ =~= addr_of_hex(digits));
    }
    match Address::from_bytes(out) {
        Ok(a) => Ok(a),
        Err(_) => {
            proof {
                assert(false);
            }
            Err(CoreError::NoMatchingCandidate)
        },
    }
}

/// Parse a `0x…` literal with an even digit count into raw bytes.
fn parse_hex_bytes(s: &Vec<u8>) -> (r: Result<Vec<u8>, CoreError>)
    ensures
        r is Ok <==> valid_hex_literal(s@) && s@.len() % 2 == 0,
        r matches Ok(b) ==> b@ == hex_bytes(s@.skip(2)),
        r matches Err(e) ==> e == CoreError::NoMatchingCandidate,
{
    let n = s.len();
    if n < 3 || n > 66 || s[0] != 48 || s[1] != 120 || n % 2 != 0 {
        return Err(CoreError::NoMatchingCandidate);
    }
    let mut i: usize = 2;
    while i < n
        invariant
            2 <= i <= n == s@.len(),
            forall|k: int| 2 <= k < i ==> is_hex_digit(#[trigger] s@[k]),
        decreases n - i,
    {
        if !hex_digit_ok(s[i]) {
            return Err(CoreError::NoMatchingCandidate);
        }
        i += 1;
    }
    let ghost digits = s@.skip(2);
    let mut out: Vec<u8> = Vec::new();
    let mut b: usize = 2;
    while b < n
        invariant
            2 <= b <= n,
            b % 2 == 0,
            n % 2 == 0,
            n == s@.len(),
            out@.len() == (b - 2) / 2,
            forall|k: int| 2 <= k < n ==> is_hex_digit(#[trigger] s@[k]),
            forall|j: int| 0 <= j < out@.len() ==> out@[j] == hex_bytes(digits)[j],
        decreases n - b,
    {
        let hi = hex_digit_value(s[b]);
        let lo = hex_digit_value(s[b + 1]);
        proof {
            assert(digits[b - 2] == s@[b as int]);
            assert(digits[b - 1] == s@[b as int + 1]);
        }
        out.push(16 * hi + lo);
        b += 1;
        b += 1;
    }
    proof {
        assert(out@ =~= hex_bytes(digits));
    }
    Ok(out)
}

// ----------------------------------------------------------------------
// Signer classification and signature binding.
// ----------------------------------------------------------------------

/// How many leading parameters declare the signer capability.
pub open spec fn signer_prefix(params: Seq<TypeTag>) -> nat
    decreases params.len(),
{
    if params.len() > 0 && params[0] is Signer {
        1 + signer_prefix(params.skip(1))
    } else {
        0
    }
}

pub proof fn lemma_signer_prefix_at(params: Seq<TypeTag>, i: int)
    requires
        0 <= i <= params.len(),
        forall|k: int| 0 <= k < i ==> params[k] is Signer,
        i < params.len() ==> !(params[i] is Signer),
    ensures
        signer_prefix(params) == i,
    decreases params.len(),
{
    if i > 0 {
        assert forall|k: int| 0 <= k < i - 1 implies params.skip(1)[k] is Signer by {
            assert(params.skip(1)[k] == params[k + 1]);
        }
        if i - 1 < params.skip(1).len() {
            assert(params.skip(1)[i - 1] == params[i]);
        }
        lemma_signer_prefix_at(params.skip(1), i - 1);
    }
}

/// The signer prefix never exceeds the parameter count.
pub proof fn lemma_signer_prefix_bound(params: Seq<TypeTag>)
    ensures
        signer_prefix(params) <= params.len(),
    decreases params.len(),
{
    if params.len() > 0 && params[0] is Signer {
        lemma_signer_prefix_bound(params.skip(1));
    }
}

/// The byte views of a literal argument list.
pub open spec fn args_view(s: Seq<Vec<u8>>) -> Seq<Seq<u8>> {
    Seq::new(s.len(), |i: int| s[i]@)
}

/// Does every literal bind against its declared type?
pub open spec fn binds_all(rest: Seq<TypeTag>, args: Seq<Seq<u8>>) -> bool {
    rest.len() == args.len() && forall|k: int| 0 <= k < rest.len() ==> bind_spec(
        #[trigger] rest[k],
        args[k],
    ) is Some
}

/// Are all of these literals valid address literals?
pub open spec fn addrs_all(args: Seq<Seq<u8>>) -> bool {
    forall|k: int| 0 <= k < args.len() ==> valid_hex_literal(#[trigger] args[k])
}

/// The signer list of a bound call: synthesized from the sender, or
/// extracted from explicit literals.
pub enum Signers {
    Explicit(Vec<Address>),
    Implicit(Vec<Address>),
}

/// Bind literals positionally, from `args[from_a]` against
/// `params[from_p]` on.
fn bind_args(params: &Vec<TypeTag>, from_p: usize, args: &Vec<Vec<u8>>, from_a: usize) -> (r:
    Result<Vec<Value>, CoreError>)
    requires
        from_p <= params@.len(),
        from_a <= args@.len(),
        params@.len() - from_p == args@.len() - from_a,
    ensures
        r is Ok <==> binds_all(
            params@.skip(from_p as int),
            args_view(args@).skip(from_a as int),
        ),
        r matches Ok(vals) ==> vals@.len() == params@.len() - from_p && forall|k: int|
            0 <= k < vals@.len() ==> Some((#[trigger] vals@[k])@) == bind_spec(
                params@[from_p + k],
                args@[from_a + k]@,
            ),
        r matches Err(e) ==> e == CoreError::NoMatchingCandidate,
{
    let ghost rest = params@.skip(from_p as int);
    let ghost avs = args_view(args@).skip(from_a as int);
    let mut vals: Vec<Value> = Vec::new();
    let mut p: usize = from_p;
    let mut a: usize = from_a;
    while p < params.len()
        invariant
            from_p <= p <= params@.len(),
            from_a <= a <= args@.len(),
            p - from_p == a - from_a,
            vals@.len() == p - from_p,
            rest == params@.skip(from_p as int),
            avs == args_view(args@).skip(from_a as int),
            forall|j: int| 0 <= j < vals@.len() ==> bind_spec(#[trigger] rest[j], avs[j]) is Some,
            forall|j: int| 0 <= j < vals@.len() ==> Some((#[trigger] vals@[j])@) == bind_spec(
                rest[j],
                avs[j],
            ),
        decreases params@.len() - p,
    {
        proof {
            assert(rest[p - from_p] == params@[p as int]);
            assert(avs[a - from_a] == args@[a as int]@);
        }
        match bind_literal(&params[p], &args[a]) {
            Ok(v) => {
                vals.push(v);
            },
            Err(e) => {
                proof {
                    assert(bind_spec(rest[p - from_p], avs[p - from_p]) is None);
                }
                return Err(e);
            },
        }
        let an = args.len();
        proof {
            assert(a < an);
        }
        p += 1;
        a += 1;
    }
    Ok(vals)
}

/// Classify signer parameters and bind the ordinary literals.
///
/// With implicit signers permitted and only the data literals supplied,
/// exactly as many signer instances as the signature declares are
/// synthesized from the sender, whatever the literal count. With
/// implicit signers denied, the signer addresses must stand first among
/// the literals. Mixing both conventions is a fatal configuration
/// error.
pub fn prepare_function_signature(
    params: &Vec<TypeTag>,
    args: &Vec<Vec<u8>>,
    implicit_allowed: bool,
    sender: &Address,
) -> (r: Result<(Signers, Vec<Value>), CoreError>)
    ensures
        ({
            let pv = params@;
            let av = args_view(args@);
            let nsg = signer_prefix(pv);
            let rest = pv.skip(nsg as int);
            &&& (r matches Ok((sg, vals)) ==> vals@.len() == rest.len())
            &&& (r matches Ok((sg, vals)) ==> (sg matches Signers::Implicit(v) ==> {
                &&& v@.len() == nsg
                &&& nsg > 0
                &&& implicit_allowed
                &&& (forall|k: int| 0 <= k < v@.len() ==> (#[trigger] v@[k])@ == sender@)
                &&& (forall|k: int| 0 <= k < vals@.len() ==> Some((#[trigger] vals@[k])@)
                    == bind_spec(rest[k], av[k]))
            }))
            &&& (r matches Ok((sg, vals)) ==> (sg matches Signers::Explicit(v) ==> (nsg == 0
                && v@.len() == 0 && (forall|k: int| 0 <= k < vals@.len() ==> Some(
                (#[trigger] vals@[k])@,
            ) == bind_spec(rest[k], av[k]))) || (nsg > 0 && !implicit_allowed && v@.len() == nsg
                && (forall|k: int| 0 <= k < v@.len() ==> (#[trigger] v@[k])@ == addr_of_hex(
                av[k].skip(2),
            )) && (forall|k: int| 0 <= k < vals@.len() ==> Some((#[trigger] vals@[k])@)
                == bind_spec(rest[k], av[nsg + k])))))
            &&& (r is Ok <==> ((av.len() == rest.len() && (nsg == 0 || implicit_allowed)
                && binds_all(rest, av)) || (nsg > 0 && !implicit_allowed && av.len() == pv.len()
                && addrs_all(av.take(nsg as int)) && binds_all(rest, av.skip(nsg as int)))))
            &&& (r matches Err(e) ==> e == CoreError::SignerConventionConflict
                || e == CoreError::NoMatchingCandidate)
        }),
{
    let ghost pv = params@;
    let ghost av = args_view(args@);
    let nsg = count_leading_signers(params);
    let ghost rest = pv.skip(nsg as int);
    let rest_len = params.len() - nsg;
    if args.len() == rest_len {
        if nsg == 0 {
            proof {
                assert(av.skip(0) =~= av);
            }
            match bind_args(params, 0, args, 0) {
                Ok(vals) => {
                    proof {
                        assert(pv.skip(0) =~= pv);
                        assert forall|j: int| 0 <= j < vals@.len() implies Some(
                            (#[trigger] vals@[j])@,
                        ) == bind_spec(rest[j], av[j]) by {
                            assert(rest[j] == pv[j]);
                            assert(av[j] == args@[j]@);
                        }
                    }
                    Ok((Signers::Explicit(Vec::new()), vals))
                },
                Err(e) => Err(e),
            }
        } else if implicit_allowed {
            proof {
                assert(av.skip(0) =~= av);
            }
            match bind_args(params, nsg, args, 0) {
                Ok(vals) => {
                    proof {
                        assert forall|j: int| 0 <= j < vals@.len() implies Some(
                            (#[trigger] vals@[j])@,
                        ) == bind_spec(rest[j], av[j]) by {
                            assert(rest[j] == pv[nsg + j]);
                            assert(av[j] == args@[j]@);
                        }
                    }
                    let mut sg: Vec<Address> = Vec::new();
                    while sg.len() < nsg
                        invariant
                            sg@.len() <= nsg,
                            forall|k: int| 0 <= k < sg@.len() ==> (#[trigger] sg@[k])@ == sender@,
                        decreases nsg - sg@.len(),
                    {
                        sg.push(sender.duplicate());
                    }
                    Ok((Signers::Implicit(sg), vals))
                },
                Err(e) => Err(e),
            }
        } else {
            Err(CoreError::SignerConventionConflict)
        }
    } else if nsg > 0 && args.len() == params.len() {
        if implicit_allowed {
            Err(CoreError::SignerConventionConflict)
        } else {
            let mut sg: Vec<Address> = Vec::new();
            let mut k: usize = 0;
            while k < nsg
                invariant
                    0 <= k <= nsg <= args@.len(),
                    sg@.len() == k,
                    forall|j: int| 0 <= j < k ==> valid_hex_literal(#[trigger] av[j]),
                    forall|j: int| 0 <= j < k ==> (#[trigger] sg@[j])@ == addr_of_hex(
                        av[j].skip(2),
                    ),
                decreases nsg - k,
            {
                match parse_address_literal(&args[k]) {
                    Ok(a) => {
                        sg.push(a);
                    },
                    Err(_) => {
                        proof {
                            assert(av.take(nsg as int)[k as int] == av[k as int]);
                            assert(av[k as int] == args@[k as int]@);
                            assert(!valid_hex_literal(av.take(nsg as int)[k as int]));
                        }
                        return Err(CoreError::NoMatchingCandidate);
                    },
                }
                k += 1;
            }
            proof {
                assert forall|j: int| 0 <= j < nsg implies valid_hex_literal(
                    #[trigger] av.take(nsg as int)[j],
                ) by {
                    assert(av.take(nsg as int)[j] == av[j]);
                }
            }
            match bind_args(params, nsg, args, nsg) {
                Ok(vals) => {
                    proof {
                        assert forall|j: int| 0 <= j < vals@.len() implies Some(
                            (#[trigger] vals@[j])@,
                        ) == bind_spec(rest[j], av[nsg + j]) by {
                            assert(av.skip(nsg as int)[j] == av[nsg + j]);
                        }
                    }
                    Ok((Signers::Explicit(sg), vals))
                },
                Err(e) => Err(e),
            }
        }
    } else {
        Err(CoreError::NoMatchingCandidate)
    }
}

/// Does `prepare_function_signature` accept this parameter list, literal
/// list and signer configuration?
pub open spec fn prepare_accepts(pv: Seq<TypeTag>, av: Seq<Seq<u8>>, implicit_allowed: bool) -> bool {
    let nsg = signer_prefix(pv);
    let rest = pv.skip(nsg as int);
    (av.len() == rest.len() && (nsg == 0 || implicit_allowed) && binds_all(rest, av)) || (nsg > 0
        && !implicit_allowed && av.len() == pv.len() && addrs_all(av.take(nsg as int))
        && binds_all(rest, av.skip(nsg as int)))
}

// ----------------------------------------------------------------------
// Candidate selection.
// ----------------------------------------------------------------------

/// The ghost shape of a call candidate.
pub ghost struct CandV {
    pub name: Seq<u8>,
    pub index: Seq<u8>,
    pub params: Seq<TypeTag>,
    pub type_params: nat,
}

/// A compiled function or script signature eligible to satisfy a parsed
/// call: its name, the source-map entry it came from, its parameter
/// types and its declared type-parameter count.
pub struct Candidate {
    pub name: Vec<u8>,
    pub index: Vec<u8>,
    pub params: Vec<TypeTag>,
    pub type_params: usize,
}

impl View for Candidate {
    type V = CandV;

    open spec fn view(&self) -> CandV {
        CandV {
            name: self.name@,
            index: self.index@,
            params: self.params@,
            type_params: self.type_params as nat,
        }
    }
}

/// The views of a candidate list.
pub open spec fn cands_view(s: Seq<Candidate>) -> Seq<CandV> {
    Seq::new(s.len(), |i: int| s[i]@)
}

/// Does a candidate satisfy the requested name, and the source-map
/// disambiguator when one is given?
pub open spec fn sel_match(c: CandV, name: Seq<u8>, idx: Option<Seq<u8>>) -> bool {
    c.name == name && (match idx {
        Some(ix) => c.index == ix,
        None => true,
    })
}

/// Select the unique candidate carrying the requested name. With several
/// such candidates the caller must disambiguate by source-map entry;
/// otherwise the match is ambiguous and fatal.
pub fn select_function(cands: &Vec<Candidate>, name: &Vec<u8>, index: Option<&Vec<u8>>) -> (r:
    Result<usize, CoreError>)
    ensures
        ({
            let cv = cands_view(cands@);
            let io = match index {
                Some(ix) => Some(ix@),
                None => None,
            };
            &&& (r matches Ok(i) ==> i < cv.len() && sel_match(cv[i as int], name@, io) && forall|
                j: int,
            | 0 <= j < cv.len() && j != i ==> !sel_match(#[trigger] cv[j], name@, io))
            &&& ((r matches Err(e) && e == CoreError::NoMatchingCandidate) <==> (forall|j: int|
                0 <= j < cv.len() ==> !sel_match(#[trigger] cv[j], name@, io)))
            &&& (r matches Err(e) ==> e == CoreError::NoMatchingCandidate
                || e == CoreError::AmbiguousCandidate)
            &&& ((r matches Err(e) && e == CoreError::AmbiguousCandidate) ==> exists|a: int, b: int|
                0 <= a < b < cv.len() && sel_match(#[trigger] cv[a], name@, io) && sel_match(
                    #[trigger] cv[b],
                    name@,
                    io,
                ))
        }),
{
    let ghost cv = cands_view(cands@);
    let ghost io: Option<Seq<u8>> = match index {
        Some(ix) => Some(ix@),
        None => None,
    };
    let mut found: Option<usize> = None;
    let mut i: usize = 0;
    while i < cands.len()
        invariant
            0 <= i <= cands@.len(),
            found matches Some(f) ==> f < i && sel_match(cv[f as int], name@, io) && forall|j: int|
                0 <= j < i && j != f ==> !sel_match(#[trigger] cv[j], name@, io),
            found is None ==> forall|j: int| 0 <= j < i ==> !sel_match(#[trigger] cv[j], name@, io),
        decreases cands@.len() - i,
    {
        let name_ok = crate::address::bytes_equal(&cands[i].name, name);
        let idx_ok = match index {
            Some(ix) => crate::address::bytes_equal(&cands[i].index, ix),
            None => true,
        };
        if name_ok && idx_ok {
            proof {
                assert(sel_match(cv[i as int], name@, io));
            }
            match found {
                Some(f) => {
                    proof {
                        assert(sel_match(cv[f as int], name@, io));
                    }
                    return Err(CoreError::AmbiguousCandidate);
                },
                None => {
                    found = Some(i);
                },
            }
        } else {
            proof {
                assert(!sel_match(cv[i as int], name@, io));
            }
        }
        i += 1;
    }
    match found {
        Some(f) => Ok(f),
        None => Err(CoreError::NoMatchingCandidate),
    }
}

// ----------------------------------------------------------------------
// Payload assembly.
// ----------------------------------------------------------------------

/// The callable a transaction carries: inlined script bytecode, or a
/// reference to a deployed module's function. Only script calls inline
/// code; a module-function call travels as its name alone.
pub enum Call {
    Script { code: Vec<u8>, args: Vec<Value>, type_args: Vec<TypeTag> },
    ScriptFunction {
        address: Address,
        module: Vec<u8>,
        func: Vec<u8>,
        args: Vec<Value>,
        type_args: Vec<TypeTag>,
    },
}

/// A target-agnostic transaction payload: the call plus the resolved
/// signer list, immutable once built.
pub struct Transaction {
    pub signers: Vec<Address>,
    pub call: Call,
}

impl Transaction {
    /// A script transaction: the compiled script travels inline.
    pub fn new_script_tx(
        signers: Vec<Address>,
        code: Vec<u8>,
        args: Vec<Value>,
        type_args: Vec<TypeTag>,
    ) -> (r: Transaction)
        ensures
            r == (Transaction { signers, call: Call::Script { code, args, type_args } }),
    {
        Transaction { signers, call: Call::Script { code, args, type_args } }
    }

    /// A module-function transaction: only the reference travels.
    pub fn new_func_tx(
        signers: Vec<Address>,
        address: Address,
        module: Vec<u8>,
        func: Vec<u8>,
        args: Vec<Value>,
        type_args: Vec<TypeTag>,
    ) -> (r: Transaction)
        ensures
            r == (Transaction {
                signers,
                call: Call::ScriptFunction { address, module, func, args, type_args },
            }),
    {
        Transaction { signers, call: Call::ScriptFunction { address, module, func, args, type_args } }
    }
}

// ----------------------------------------------------------------------
// The transaction wire format: the same binary envelope scheme as the
// package format. A transaction is the ULEB128 signer count, each
// signer's 32 canonical address bytes, then the call: a tag byte (0 for
// a script, 1 for a module function), its fields length-prefixed in
// ULEB128, each bound value as a tag byte plus payload (integers
// little-endian), each type tag as a byte with vectors nesting.
// ----------------------------------------------------------------------

/// The `k` little-endian bytes of `n`.
pub open spec fn le_bytes(n: nat, k: nat) -> Seq<u8>
    decreases k,
{
    if k == 0 {
        Seq::empty()
    } else {
        seq![(n % 256) as u8] + le_bytes(n / 256, (k - 1) as nat)
    }
}

/// The wire form of one bound value: a tag byte, then the payload.
pub open spec fn value_bytes(v: ValueV) -> Seq<u8> {
    match v {
        ValueV::Bool(b) => seq![
            0u8,
            if b {
                1u8
            } else {
                0u8
            },
        ],
        ValueV::U8(x) => seq![1u8, x],
        ValueV::U64(x) => seq![2u8] + le_bytes(x as nat, 8),
        ValueV::U128(x) => seq![3u8] + le_bytes(x as nat, 16),
        ValueV::Address(a) => seq![4u8] + a,
        ValueV::Bytes(b) => seq![5u8] + crate::encode::uleb(b.len()) + b,
    }
}

/// The wire form of a declared type.
pub open spec fn type_tag_bytes(t: TypeTag) -> Seq<u8>
    decreases t,
{
    match t {
        TypeTag::Bool => seq![0u8],
        TypeTag::U8 => seq![1u8],
        TypeTag::U64 => seq![2u8],
        TypeTag::U128 => seq![3u8],
        TypeTag::Address => seq![4u8],
        TypeTag::Signer => seq![5u8],
        TypeTag::Vector(inner) => seq![6u8] + type_tag_bytes(*inner),
    }
}

/// The wire form of a value list, one value after the other.
pub open spec fn values_bytes(vs: Seq<ValueV>) -> Seq<u8>
    decreases vs.len(),
{
    if vs.len() == 0 {
        Seq::empty()
    } else {
        value_bytes(vs[0]) + values_bytes(vs.skip(1))
    }
}

/// The wire form of a type list.
pub open spec fn type_tags_bytes(ts: Seq<TypeTag>) -> Seq<u8>
    decreases ts.len(),
{
    if ts.len() == 0 {
        Seq::empty()
    } else {
        type_tag_bytes(ts[0]) + type_tags_bytes(ts.skip(1))
    }
}

/// The wire form of a signer list: the addresses back to back.
pub open spec fn signers_bytes(sg: Seq<Seq<u8>>) -> Seq<u8>
    decreases sg.len(),
{
    if sg.len() == 0 {
        Seq::empty()
    } else {
        sg[0] + signers_bytes(sg.skip(1))
    }
}

/// The wire form of the call.
pub open spec fn call_bytes(c: Call) -> Seq<u8> {
    match c {
        Call::Script { code, args, type_args } => seq![0u8] + crate::encode::uleb(code@.len())
            + code@ + crate::encode::uleb(args@.len()) + values_bytes(vals_view(args@))
            + crate::encode::uleb(type_args@.len()) + type_tags_bytes(type_args@),
        Call::ScriptFunction { address, module, func, args, type_args } => seq![1u8] + address@
            + crate::encode::uleb(module@.len()) + module@ + crate::encode::uleb(func@.len())
            + func@ + crate::encode::uleb(args@.len()) + values_bytes(vals_view(args@))
            + crate::encode::uleb(type_args@.len()) + type_tags_bytes(type_args@),
    }
}

/// The wire form of a whole transaction.
pub open spec fn transaction_bytes(t: Transaction) -> Seq<u8> {
    crate::encode::uleb(t.signers@.len()) + signers_bytes(addrs_view(t.signers@)) + call_bytes(
        t.call,
    )
}

/// Append the ULEB128 encoding of `n`.
fn emit_uleb(out: &mut Vec<u8>, n: usize)
    ensures
        final(out)@ == old(out)@ + crate::encode::uleb(n as nat),
{
    let ghost base = old(out)@;
    let mut v = n;
    while v >= 128
        invariant
            base + crate::encode::uleb(n as nat) == out@ + crate::encode::uleb(v as nat),
        decreases v,
    {
        out.push((v % 128 + 128) as u8);
        proof {
            assert(out@ + crate::encode::uleb((v / 128) as nat) =~= base + crate::encode::uleb(
                n as nat,
            ));
        }
        v = v / 128;
    }
    out.push(v as u8);
    proof {
        assert(out@ =~= base + crate::encode::uleb(n as nat));
    }
}

/// Append a byte string verbatim.
fn emit_raw(out: &mut Vec<u8>, v: &Vec<u8>)
    ensures
        final(out)@ == old(out)@ + v@,
{
    let ghost base = old(out)@;
    let mut i: usize = 0;
    while i < v.len()
        invariant
            0 <= i <= v@.len(),
            out@ == base + v@.take(i as int),
        decreases v@.len() - i,
    {
        out.push(v[i]);
        proof {
            assert(out@ =~= base + v@.take(i + 1));
        }
        i += 1;
    }
    proof {
        assert(v@.take(v@.len() as int) =~= v@);
    }
}

/// Append the little-endian bytes of `n`, `k` of them.
fn emit_le(out: &mut Vec<u8>, n: u128, k: usize)
    ensures
        final(out)@ == old(out)@ + le_bytes(n as nat, k as nat),
{
    let ghost base = old(out)@;
    let mut v = n;
    let mut i: usize = 0;
    while i < k
        invariant
            0 <= i <= k,
            base + le_bytes(n as nat, k as nat) == out@ + le_bytes(v as nat, (k - i) as nat),
        decreases k - i,
    {
        out.push((v % 256) as u8);
        proof {
            assert(out@ + le_bytes((v / 256) as nat, (k - i - 1) as nat) =~= base + le_bytes(
                n as nat,
                k as nat,
            ));
        }
        v = v / 256;
        i += 1;
    }
    proof {
        assert(le_bytes(v as nat, 0) =~= Seq::<u8>::empty());
        assert(out@ =~= base + le_bytes(n as nat, k as nat));
    }
}

/// Append one bound value in its wire form.
fn emit_value(out: &mut Vec<u8>, v: &Value)
    ensures
        final(out)@ == old(out)@ + value_bytes(v@),
{
    let ghost base = old(out)@;
    match v {
        Value::Bool(b) => {
            out.push(0);
            out.push(if *b {
                1
            } else {
                0
            });
            proof {
                assert(out@ =~= base + value_bytes(v@));
            }
        },
        Value::U8(x) => {
            out.push(1);
            out.push(*x);
            proof {
                assert(out@ =~= base + value_bytes(v@));
            }
        },
        Value::U64(x) => {
            out.push(2);
            emit_le(out, *x as u128, 8);
            proof {
                assert(le_bytes((*x as u128) as nat, 8) == le_bytes(*x as nat, 8));
                assert(out@ =~= base + value_bytes(v@));
            }
        },
        Value::U128(x) => {
            out.push(3);
            emit_le(out, *x, 16);
            proof {
                assert(out@ =~= base + value_bytes(v@));
            }
        },
        Value::Address(a) => {
            out.push(4);
            emit_raw(out, a.bytes());
            proof {
                assert(out@ =~= base + value_bytes(v@));
            }
        },
        Value::Bytes(b) => {
            out.push(5);
            emit_uleb(out, b.len());
            emit_raw(out, b);
            proof {
                assert(out@ =~= base + value_bytes(v@));
            }
        },
    }
}

/// Append one declared type in its wire form.
fn emit_type_tag(out: &mut Vec<u8>, t: &TypeTag)
    ensures
        final(out)@ == old(out)@ + type_tag_bytes(*t),
    decreases *t,
{
    let ghost base = old(out)@;
    match t {
        TypeTag::Bool => {
            out.push(0);
            proof {
                assert(out@ =~= base + type_tag_bytes(*t));
            }
        },
        TypeTag::U8 => {
            out.push(1);
            proof {
                assert(out@ =~= base + type_tag_bytes(*t));
            }
        },
        TypeTag::U64 => {
            out.push(2);
            proof {
                assert(out@ =~= base + type_tag_bytes(*t));
            }
        },
        TypeTag::U128 => {
            out.push(3);
            proof {
                assert(out@ =~= base + type_tag_bytes(*t));
            }
        },
        TypeTag::Address => {
            out.push(4);
            proof {
                assert(out@ =~= base + type_tag_bytes(*t));
            }
        },
        TypeTag::Signer => {
            out.push(5);
            proof {
                assert(out@ =~= base + type_tag_bytes(*t));
            }
        },
        TypeTag::Vector(inner) => {
            out.push(6);
            emit_type_tag(out, inner);
            proof {
                assert(out@ =~= base + type_tag_bytes(*t));
            }
        },
    }
}

/// Append a value list in its wire form.
fn emit_values(out: &mut Vec<u8>, vs: &Vec<Value>)
    ensures
        final(out)@ == old(out)@ + values_bytes(vals_view(vs@)),
{
    let ghost base = old(out)@;
    let ghost vv = vals_view(vs@);
    proof {
        assert(vv.skip(0) =~= vv);
    }
    let mut i: usize = 0;
    while i < vs.len()
        invariant
            0 <= i <= vs@.len(),
            vv == vals_view(vs@),
            out@ + values_bytes(vv.skip(i as int)) == base + values_bytes(vv),
        decreases vs@.len() - i,
    {
        proof {
            assert(vv.skip(i as int)[0] == vv[i as int]);
            assert(vv.skip(i as int).skip(1) =~= vv.skip(i as int + 1));
            assert(vv[i as int] == vs@[i as int]@);
        }
        emit_value(out, &vs[i]);
        proof {
            assert(out@ + values_bytes(vv.skip(i as int + 1)) =~= base + values_bytes(vv));
        }
        i += 1;
    }
    proof {
        assert(values_bytes(vv.skip(vs@.len() as int)) =~= Seq::<u8>::empty()) by {
            assert(vv.skip(vs@.len() as int) =~= Seq::<ValueV>::empty());
        }
        assert(out@ =~= base + values_bytes(vv));
    }
}

/// Append a type list in its wire form.
fn emit_type_tags(out: &mut Vec<u8>, ts: &Vec<TypeTag>)
    ensures
        final(out)@ == old(out)@ + type_tags_bytes(ts@),
{
    let ghost base = old(out)@;
    let ghost tv = ts@;
    proof {
        assert(tv.skip(0) =~= tv);
    }
    let mut i: usize = 0;
    while i < ts.len()
        invariant
            0 <= i <= tv.len(),
            tv == ts@,
            out@ + type_tags_bytes(tv.skip(i as int)) == base + type_tags_bytes(tv),
        decreases tv.len() - i,
    {
        proof {
            assert(tv.skip(i as int)[0] == tv[i as int]);
            assert(tv.skip(i as int).skip(1) =~= tv.skip(i as int + 1));
        }
        emit_type_tag(out, &ts[i]);
        proof {
            assert(out@ + type_tags_bytes(tv.skip(i as int + 1)) =~= base + type_tags_bytes(tv));
        }
        i += 1;
    }
    proof {
        assert(type_tags_bytes(tv.skip(tv.len() as int)) =~= Seq::<u8>::empty()) by {
            assert(tv.skip(tv.len() as int) =~= Seq::<TypeTag>::empty());
        }
        assert(out@ =~= base + type_tags_bytes(tv));
    }
}

impl Transaction {
    /// Serialize the transaction into its wire form, byte-exactly the
    /// documented envelope.
    pub fn encode(&self) -> (r: Vec<u8>)
        ensures
            r@ == transaction_bytes(*self),
    {
        let mut out: Vec<u8> = Vec::new();
        emit_uleb(&mut out, self.signers.len());
        let ghost base = out@;
        let ghost sgv = addrs_view(self.signers@);
        proof {
            assert(sgv.skip(0) =~= sgv);
        }
        let mut i: usize = 0;
        while i < self.signers.len()
            invariant
                0 <= i <= self.signers@.len(),
                sgv == addrs_view(self.signers@),
                out@ + signers_bytes(sgv.skip(i as int)) == base + signers_bytes(sgv),
            decreases self.signers@.len() - i,
        {
            proof {
                assert(sgv.skip(i as int)[0] == sgv[i as int]);
                assert(sgv.skip(i as int).skip(1) =~= sgv.skip(i as int + 1));
                assert(sgv[i as int] == self.signers@[i as int]@);
            }
            emit_raw(&mut out, self.signers[i].bytes());
            proof {
                assert(out@ + signers_bytes(sgv.skip(i as int + 1)) =~= base + signers_bytes(sgv));
            }
            i += 1;
        }
        proof {
            assert(signers_bytes(sgv.skip(self.signers@.len() as int)) =~= Seq::<u8>::empty()) by {
                assert(sgv.skip(self.signers@.len() as int) =~= Seq::<Seq<u8>>::empty());
            }
            assert(out@ =~= base + signers_bytes(sgv));
        }
        match &self.call {
            Call::Script { code, args, type_args } => {
                out.push(0);
                emit_uleb(&mut out, code.len());
                emit_raw(&mut out, code);
                emit_uleb(&mut out, args.len());
                emit_values(&mut out, args);
                emit_uleb(&mut out, type_args.len());
                emit_type_tags(&mut out, type_args);
            },
            Call::ScriptFunction { address, module, func, args, type_args } => {
                out.push(1);
                emit_raw(&mut out, address.bytes());
                emit_uleb(&mut out, module.len());
                emit_raw(&mut out, module);
                emit_uleb(&mut out, func.len());
                emit_raw(&mut out, func);
                emit_uleb(&mut out, args.len());
                emit_values(&mut out, args);
                emit_uleb(&mut out, type_args.len());
                emit_type_tags(&mut out, type_args);
            },
        }
        proof {
            assert(out@ =~= transaction_bytes(*self));
        }
        out
    }
}

/// A built transaction, tagged with what the caller means to do with it:
/// run it locally, with the dependency modules it needs, or submit it to
/// the chain under a display name.
pub enum EnrichedTransaction {
    Local { tx: Transaction, signers: Vec<Address>, deps: Vec<Vec<u8>> },
    Global { tx: Transaction, name: Vec<u8> },
}

/// Does exactly one candidate match the name and disambiguator?
pub open spec fn unique_match(cv: Seq<CandV>, name: Seq<u8>, io: Option<Seq<u8>>) -> bool {
    exists|i: int|
        0 <= i < cv.len() && sel_match(#[trigger] cv[i], name, io) && forall|j: int|
            0 <= j < cv.len() && j != i ==> !sel_match(#[trigger] cv[j], name, io)
}

/// Is a whole call accepted: one candidate, the right type-argument
/// count, and a signature that binds?
pub open spec fn call_accepted(
    cv: Seq<CandV>,
    name: Seq<u8>,
    io: Option<Seq<u8>>,
    n_type_args: nat,
    av: Seq<Seq<u8>>,
    implicit_allowed: bool,
) -> bool {
    unique_match(cv, name, io) && forall|i: int|
        0 <= i < cv.len() && sel_match(#[trigger] cv[i], name, io) ==> (n_type_args
            == cv[i].type_params && prepare_accepts(cv[i].params, av, implicit_allowed))
}

/// The address views of a signer list.
pub open spec fn addrs_view(s: Seq<Address>) -> Seq<Seq<u8>> {
    Seq::new(s.len(), |i: int| s[i]@)
}

/// The views of a bound-value list.
pub open spec fn vals_view(s: Seq<Value>) -> Seq<ValueV> {
    Seq::new(s.len(), |i: int| s[i]@)
}

/// How a built transaction relates to the candidate's parameters, the
/// literals and the sender. With only the data literals supplied
/// (implicit classification), the transaction itself carries exactly as
/// many signers as the signature declares, all the sender; with the
/// signer addresses given first among the literals (explicit
/// classification), the transaction's signer list stays empty. Either
/// way the arguments are the values the declared types bind.
pub open spec fn built_ok(
    pv: Seq<TypeTag>,
    av: Seq<Seq<u8>>,
    sender: Seq<u8>,
    tx_sg: Seq<Seq<u8>>,
    vals: Seq<ValueV>,
) -> bool {
    let nsg = signer_prefix(pv);
    let rest = pv.skip(nsg as int);
    &&& vals.len() == rest.len()
    &&& if av.len() == rest.len() {
        &&& tx_sg.len() == nsg
        &&& (forall|k: int| 0 <= k < tx_sg.len() ==> #[trigger] tx_sg[k] == sender)
        &&& (forall|k: int| 0 <= k < vals.len() ==> Some(#[trigger] vals[k]) == bind_spec(
            rest[k],
            av[k],
        ))
    } else {
        &&& tx_sg.len() == 0
        &&& (forall|k: int| 0 <= k < vals.len() ==> Some(#[trigger] vals[k]) == bind_spec(
            rest[k],
            av[nsg + k],
        ))
    }
}

/// The enriched transaction's own signer list: empty under implicit
/// classification (those signers ride inside the transaction), the
/// extracted signer addresses under explicit classification.
pub open spec fn outer_ok(pv: Seq<TypeTag>, av: Seq<Seq<u8>>, outer: Seq<Seq<u8>>) -> bool {
    let nsg = signer_prefix(pv);
    let rest = pv.skip(nsg as int);
    if av.len() == rest.len() {
        outer.len() == 0
    } else {
        outer.len() == nsg && forall|k: int| 0 <= k < outer.len() ==> #[trigger] outer[k]
            == addr_of_hex(av[k].skip(2))
    }
}

/// A failed selection rules a unique match out.
proof fn lemma_no_unique_match_on_select_error(
    cv: Seq<CandV>,
    name: Seq<u8>,
    io: Option<Seq<u8>>,
    e: CoreError,
)
    requires
        e == CoreError::NoMatchingCandidate || e == CoreError::AmbiguousCandidate,
        e == CoreError::NoMatchingCandidate ==> forall|j: int|
            0 <= j < cv.len() ==> !sel_match(#[trigger] cv[j], name, io),
        e == CoreError::AmbiguousCandidate ==> exists|a: int, b: int|
            0 <= a < b < cv.len() && sel_match(#[trigger] cv[a], name, io) && sel_match(
                #[trigger] cv[b],
                name,
                io,
            ),
    ensures
        !unique_match(cv, name, io),
{
    if unique_match(cv, name, io) {
        let i = choose|i: int|
            0 <= i < cv.len() && sel_match(#[trigger] cv[i], name, io) && forall|j: int|
                0 <= j < cv.len() && j != i ==> !sel_match(#[trigger] cv[j], name, io);
        if e == CoreError::NoMatchingCandidate {
            assert(!sel_match(cv[i], name, io));
        } else {
            let (a, b) = choose|a: int, b: int|
                0 <= a < b < cv.len() && sel_match(#[trigger] cv[a], name, io) && sel_match(
                    #[trigger] cv[b],
                    name,
                    io,
                );
            if a != i {
                assert(!sel_match(cv[a], name, io));
            } else {
                assert(!sel_match(cv[b], name, io));
            }
        }
    }
}

/// Resolve a script call: select the unique candidate, check the type
/// arguments, classify signers, bind literals and assemble the payload
/// with the compiled script inlined. `exe_context` asks for a local
/// transaction, which also carries the dependency modules.
pub fn make_script_call(
    scripts: &Vec<Candidate>,
    name: &Vec<u8>,
    index_in_source_map: Option<&Vec<u8>>,
    type_tag: Vec<TypeTag>,
    args: &Vec<Vec<u8>>,
    sender: &Address,
    deny_signers_definition: bool,
    script_code: Vec<u8>,
    deps: Vec<Vec<u8>>,
    exe_context: bool,
) -> (r: Result<EnrichedTransaction, CoreError>)
    ensures
        r matches Ok(et) ==> (et matches EnrichedTransaction::Global { tx, name: n } ==> n@
            == name@ && !exe_context && (tx.call matches Call::Script {
            code,
            args: a2,
            type_args,
        } && code@ == script_code@ && type_args == type_tag && (forall|i: int|
            0 <= i < cands_view(scripts@).len() && sel_match(
                #[trigger] cands_view(scripts@)[i],
                name@,
                match index_in_source_map {
                    Some(ix) => Some(ix@),
                    None => None,
                },
            ) ==> built_ok(
                cands_view(scripts@)[i].params,
                args_view(args@),
                sender@,
                addrs_view(tx.signers@),
                vals_view(a2@),
            )))),
        r matches Ok(et) ==> (et matches EnrichedTransaction::Local { tx, signers, deps: d } ==> exe_context
            && args_view(d@) == args_view(deps@) && (tx.call matches Call::Script {
            code,
            args: a2,
            type_args,
        } && code@ == script_code@ && type_args == type_tag && (forall|i: int|
            0 <= i < cands_view(scripts@).len() && sel_match(
                #[trigger] cands_view(scripts@)[i],
                name@,
                match index_in_source_map {
                    Some(ix) => Some(ix@),
                    None => None,
                },
            ) ==> built_ok(
                cands_view(scripts@)[i].params,
                args_view(args@),
                sender@,
                addrs_view(tx.signers@),
                vals_view(a2@),
            ) && outer_ok(
                cands_view(scripts@)[i].params,
                args_view(args@),
                addrs_view(signers@),
            )))),
        r is Ok <==> call_accepted(
            cands_view(scripts@),
            name@,
            match index_in_source_map {
                Some(ix) => Some(ix@),
                None => None,
            },
            type_tag@.len(),
            args_view(args@),
            !deny_signers_definition,
        ),
{
    let ghost cv = cands_view(scripts@);
    let ghost io: Option<Seq<u8>> = match index_in_source_map {
        Some(ix) => Some(ix@),
        None => None,
    };
    let sel = match select_function(scripts, name, index_in_source_map) {
        Ok(i) => i,
        Err(e) => {
            proof {
                lemma_no_unique_match_on_select_error(cv, name@, io, e);
            }
            return Err(e);
        },
    };
    proof {
        assert(cv[sel as int] == scripts@[sel as int]@);
        assert(unique_match(cv, name@, io));
    }
    if type_tag.len() != scripts[sel].type_params {
        proof {
            assert(!(type_tag@.len() == cv[sel as int].type_params));
        }
        return Err(CoreError::NoMatchingCandidate);
    }
    let (signers, vals) = match prepare_function_signature(
        &scripts[sel].params,
        args,
        !deny_signers_definition,
        sender,
    ) {
        Ok(x) => x,
        Err(e) => {
            proof {
                assert(!prepare_accepts(cv[sel as int].params, args_view(args@),
                    !deny_signers_definition));
            }
            return Err(e);
        },
    };
    proof {
        assert(prepare_accepts(cv[sel as int].params, args_view(args@), !deny_signers_definition));
        assert forall|i: int|
            0 <= i < cv.len() && sel_match(#[trigger] cv[i], name@, io) implies (type_tag@.len()
            == cv[i].type_params && prepare_accepts(
            cv[i].params,
            args_view(args@),
            !deny_signers_definition,
        )) by {
            assert(i == sel);
        }
    }
    let ghost pv = cv[sel as int].params;
    let ghost av = args_view(args@);
    let ghost vv = vals_view(vals@);
    proof {
        lemma_built_ok_from_prepare(pv, av, sender@, !deny_signers_definition, &signers, vv);
    }
    let (outer, tx) = match signers {
        Signers::Explicit(v) => (
            v,
            Transaction::new_script_tx(Vec::new(), script_code, vals, type_tag),
        ),
        Signers::Implicit(v) => (
            Vec::new(),
            Transaction::new_script_tx(v, script_code, vals, type_tag),
        ),
    };
    proof {
        assert(addrs_view(Seq::<Address>::empty()) =~= Seq::<Seq<u8>>::empty());
        assert forall|i: int|
            0 <= i < cv.len() && sel_match(#[trigger] cv[i], name@, io) implies built_ok(
            cv[i].params,
            av,
            sender@,
            addrs_view(tx.signers@),
            vals_view((tx.call->Script_args)@),
        ) && outer_ok(cv[i].params, av, addrs_view(outer@)) by {
            assert(i == sel);
        }
    }
    if exe_context {
        Ok(EnrichedTransaction::Local { tx, signers: outer, deps })
    } else {
        Ok(EnrichedTransaction::Global { tx, name: copy_bytes(name) })
    }
}

/// What the signer classification promises, restated as the built
/// transaction's signer list and bound arguments.
proof fn lemma_built_ok_from_prepare(
    pv: Seq<TypeTag>,
    av: Seq<Seq<u8>>,
    sender: Seq<u8>,
    implicit_allowed: bool,
    signers: &Signers,
    vv: Seq<ValueV>,
)
    requires
        prepare_accepts(pv, av, implicit_allowed),
        vv.len() == pv.skip(signer_prefix(pv) as int).len(),
        signers matches Signers::Implicit(v) ==> {
            &&& v@.len() == signer_prefix(pv)
            &&& signer_prefix(pv) > 0
            &&& implicit_allowed
            &&& (forall|k: int| 0 <= k < v@.len() ==> (#[trigger] v@[k])@ == sender)
            &&& (forall|k: int| 0 <= k < vv.len() ==> Some(#[trigger] vv[k]) == bind_spec(
                pv.skip(signer_prefix(pv) as int)[k],
                av[k],
            ))
        },
        signers matches Signers::Explicit(v) ==> (signer_prefix(pv) == 0 && v@.len() == 0 && (
        forall|k: int| 0 <= k < vv.len() ==> Some(#[trigger] vv[k]) == bind_spec(
            pv.skip(signer_prefix(pv) as int)[k],
            av[k],
        ))) || (signer_prefix(pv) > 0 && !implicit_allowed && v@.len() == signer_prefix(pv) && (
        forall|k: int| 0 <= k < v@.len() ==> (#[trigger] v@[k])@ == addr_of_hex(av[k].skip(2)))
            && (forall|k: int| 0 <= k < vv.len() ==> Some(#[trigger] vv[k]) == bind_spec(
            pv.skip(signer_prefix(pv) as int)[k],
            av[signer_prefix(pv) + k],
        ))),
    ensures
        signers matches Signers::Implicit(v) ==> built_ok(pv, av, sender, addrs_view(v@), vv)
            && outer_ok(pv, av, Seq::<Seq<u8>>::empty()),
        signers matches Signers::Explicit(v) ==> built_ok(
            pv,
            av,
            sender,
            Seq::<Seq<u8>>::empty(),
            vv,
        ) && outer_ok(pv, av, addrs_view(v@)),
{
    let nsg = signer_prefix(pv);
    let rest = pv.skip(nsg as int);
    lemma_signer_prefix_bound(pv);
    match signers {
        Signers::Implicit(v) => {
            // the explicit arity is ruled out: it demands the implicit
            // convention denied
            assert(av.len() == rest.len());
        },
        Signers::Explicit(v) => {
            if nsg == 0 {
                assert(av.len() == rest.len());
                assert(addrs_view(v@) =~= Seq::<Seq<u8>>::empty());
            } else {
                assert(av.len() == pv.len());
                assert(av.len() != rest.len());
            }
        },
    }
}

/// Resolve a module-function call: like a script call, but the payload
/// carries only the (address, module, function) reference; no bytecode
/// is inlined. With `exe_context` the result is a local transaction
/// carrying the dependency modules needed to run it.
pub fn make_function_call(
    functions: &Vec<Candidate>,
    module_address: Address,
    module_name: Vec<u8>,
    function_name: Vec<u8>,
    source_index: Option<&Vec<u8>>,
    type_tag: Vec<TypeTag>,
    args: &Vec<Vec<u8>>,
    sender: &Address,
    deny_signers_definition: bool,
    deps: Vec<Vec<u8>>,
    exe_context: bool,
) -> (r: Result<EnrichedTransaction, CoreError>)
    ensures
        r matches Ok(et) ==> (et matches EnrichedTransaction::Global { tx, name: n } ==> !exe_context
            && (tx.call matches Call::ScriptFunction { address, module, func, args: a2, type_args }
            && module@ == module_name@ && func@ == function_name@ && type_args == type_tag && (
        forall|i: int|
            0 <= i < cands_view(functions@).len() && sel_match(
                #[trigger] cands_view(functions@)[i],
                function_name@,
                match source_index {
                    Some(ix) => Some(ix@),
                    None => None,
                },
            ) ==> built_ok(
                cands_view(functions@)[i].params,
                args_view(args@),
                sender@,
                addrs_view(tx.signers@),
                vals_view(a2@),
            ))) && n@ == module_name@ + seq![95u8] + function_name@),
        r matches Ok(et) ==> (et matches EnrichedTransaction::Local { tx, signers, deps: d } ==> exe_context
            && args_view(d@) == args_view(deps@) && (tx.call matches Call::ScriptFunction {
            address,
            module,
            func,
            args: a2,
            type_args,
        } && module@ == module_name@ && func@ == function_name@ && type_args == type_tag && (
        forall|i: int|
            0 <= i < cands_view(functions@).len() && sel_match(
                #[trigger] cands_view(functions@)[i],
                function_name@,
                match source_index {
                    Some(ix) => Some(ix@),
                    None => None,
                },
            ) ==> built_ok(
                cands_view(functions@)[i].params,
                args_view(args@),
                sender@,
                addrs_view(tx.signers@),
                vals_view(a2@),
            ) && outer_ok(
                cands_view(functions@)[i].params,
                args_view(args@),
                addrs_view(signers@),
            )))),
        r matches Ok(et) ==> (et is Global <==> !exe_context),
        r is Ok <==> call_accepted(
            cands_view(functions@),
            function_name@,
            match source_index {
                Some(ix) => Some(ix@),
                None => None,
            },
            type_tag@.len(),
            args_view(args@),
            !deny_signers_definition,
        ),
{
    let ghost cv = cands_view(functions@);
    let ghost io: Option<Seq<u8>> = match source_index {
        Some(ix) => Some(ix@),
        None => None,
    };
    let sel = match select_function(functions, &function_name, source_index) {
        Ok(i) => i,
        Err(e) => {
            proof {
                lemma_no_unique_match_on_select_error(cv, function_name@, io, e);
            }
            return Err(e);
        },
    };
    proof {
        assert(cv[sel as int] == functions@[sel as int]@);
        assert(unique_match(cv, function_name@, io));
    }
    if type_tag.len() != functions[sel].type_params {
        proof {
            assert(!(type_tag@.len() == cv[sel as int].type_params));
        }
        return Err(CoreError::NoMatchingCandidate);
    }
    let (signers, vals) = match prepare_function_signature(
        &functions[sel].params,
        args,
        !deny_signers_definition,
        sender,
    ) {
        Ok(x) => x,
        Err(e) => {
            proof {
                assert(!prepare_accepts(cv[sel as int].params, args_view(args@),
                    !deny_signers_definition));
            }
            return Err(e);
        },
    };
    proof {
        assert(prepare_accepts(cv[sel as int].params, args_view(args@), !deny_signers_definition));
        assert forall|i: int|
            0 <= i < cv.len() && sel_match(#[trigger] cv[i], function_name@, io) implies (
        type_tag@.len() == cv[i].type_params && prepare_accepts(
            cv[i].params,
            args_view(args@),
            !deny_signers_definition,
        )) by {
            assert(i == sel);
        }
    }
    // the display name: MODULE_FUNCTION
    let ghost fname = function_name@;
    let mut tx_name = copy_bytes(&module_name);
    tx_name.push(95);
    let ghost base = tx_name@;
    let mut j: usize = 0;
    while j < function_name.len()
        invariant
            0 <= j <= function_name@.len(),
            tx_name@ == base + function_name@.take(j as int),
        decreases function_name@.len() - j,
    {
        tx_name.push(function_name[j]);
        proof {
            assert(tx_name@ =~= base + function_name@.take(j + 1));
        }
        j += 1;
    }
    proof {
        assert(function_name@.take(function_name@.len() as int) =~= function_name@);
    }
    let ghost pv = cv[sel as int].params;
    let ghost av = args_view(args@);
    let ghost vv = vals_view(vals@);
    proof {
        lemma_built_ok_from_prepare(pv, av, sender@, !deny_signers_definition, &signers, vv);
    }
    let (outer, tx) = match signers {
        Signers::Explicit(v) => (
            v,
            Transaction::new_func_tx(
                Vec::new(),
                module_address,
                module_name,
                function_name,
                vals,
                type_tag,
            ),
        ),
        Signers::Implicit(v) => (
            Vec::new(),
            Transaction::new_func_tx(
                v,
                module_address,
                module_name,
                function_name,
                vals,
                type_tag,
            ),
        ),
    };
    proof {
        assert(addrs_view(Seq::<Address>::empty()) =~= Seq::<Seq<u8>>::empty());
        assert forall|i: int|
            0 <= i < cv.len() && sel_match(#[trigger] cv[i], fname, io) implies built_ok(
            cv[i].params,
            av,
            sender@,
            addrs_view(tx.signers@),
            vals_view((tx.call->ScriptFunction_args)@),
        ) && outer_ok(cv[i].params, av, addrs_view(outer@)) by {
            assert(i == sel);
        }
    }
    if exe_context {
        Ok(EnrichedTransaction::Local { tx, signers: outer, deps })
    } else {
        Ok(EnrichedTransaction::Global { tx, name: tx_name })
    }
}

/// A call expression after parsing: a script by name, or a function of a
/// deployed module.
pub enum ParsedCall {
    Script { name: Vec<u8>, type_tag: Vec<TypeTag>, args: Vec<Vec<u8>> },
    Function {
        address: Address,
        module: Vec<u8>,
        func: Vec<u8>,
        type_tag: Vec<TypeTag>,
        args: Vec<Vec<u8>>,
    },
}

/// Build a transaction for on-chain submission from a parsed call: a
/// script call inlines the compiled script, a module-function call
/// travels as its reference.
pub fn make_transaction(
    candidates: &Vec<Candidate>,
    call: ParsedCall,
    file: Option<&Vec<u8>>,
    sender: &Address,
    deny_signers_definition: bool,
    script_code: Vec<u8>,
) -> (r: Result<EnrichedTransaction, CoreError>)
    ensures
        r matches Ok(et) ==> et is Global,
        r matches Ok(et) ==> (et matches EnrichedTransaction::Global { tx, name: n } ==> (
        call is Script ==> tx.call is Script) && (call is Function
            ==> tx.call is ScriptFunction)),
        call matches ParsedCall::Script { name, type_tag, args } ==> (r is Ok <==> call_accepted(
            cands_view(candidates@),
            name@,
            match file {
                Some(ix) => Some(ix@),
                None => None,
            },
            type_tag@.len(),
            args_view(args@),
            !deny_signers_definition,
        )),
        call matches ParsedCall::Function { address, module, func, type_tag, args } ==> (r is Ok
            <==> call_accepted(
            cands_view(candidates@),
            func@,
            match file {
                Some(ix) => Some(ix@),
                None => None,
            },
            type_tag@.len(),
            args_view(args@),
            !deny_signers_definition,
        )),
        call matches ParsedCall::Script { name, type_tag, args } ==> (r matches Ok(et) ==> (
        et matches EnrichedTransaction::Global { tx, name: n } && n@ == name@ && (
        tx.call matches Call::Script { code, args: a2, type_args } && code@ == script_code@
            && type_args == type_tag && (forall|i: int|
            0 <= i < cands_view(candidates@).len() && sel_match(
                #[trigger] cands_view(candidates@)[i],
                name@,
                match file {
                    Some(ix) => Some(ix@),
                    None => None,
                },
            ) ==> built_ok(
                cands_view(candidates@)[i].params,
                args_view(args@),
                sender@,
                addrs_view(tx.signers@),
                vals_view(a2@),
            ))))),
        call matches ParsedCall::Function { address, module, func, type_tag, args } ==> (
        r matches Ok(et) ==> (et matches EnrichedTransaction::Global { tx, name: n } && (
        tx.call matches Call::ScriptFunction { address: a3, module: m3, func: f3, args: a2, type_args }
            && m3@ == module@ && f3@ == func@ && type_args == type_tag && (forall|i: int|
            0 <= i < cands_view(candidates@).len() && sel_match(
                #[trigger] cands_view(candidates@)[i],
                func@,
                match file {
                    Some(ix) => Some(ix@),
                    None => None,
                },
            ) ==> built_ok(
                cands_view(candidates@)[i].params,
                args_view(args@),
                sender@,
                addrs_view(tx.signers@),
                vals_view(a2@),
            ))))),
{
    match call {
        ParsedCall::Script { name, type_tag, args } => make_script_call(
            candidates,
            &name,
            file,
            type_tag,
            &args,
            sender,
            deny_signers_definition,
            script_code,
            Vec::new(),
            false,
        ),
        ParsedCall::Function { address, module, func, type_tag, args } => make_function_call(
            candidates,
            address,
            module,
            func,
            file,
            type_tag,
            &args,
            sender,
            deny_signers_definition,
            Vec::new(),
            false,
        ),
    }
}

/// How many leading parameters are signers (executable form).
pub fn count_leading_signers(params: &Vec<TypeTag>) -> (n: usize)
    ensures
        n == signer_prefix(params@),
        n <= params@.len(),
{
    let mut i: usize = 0;
    while i < params.len() && matches!(params[i], TypeTag::Signer)
        invariant
            0 <= i <= params@.len(),
            forall|k: int| 0 <= k < i ==> params@[k] is Signer,
        decreases params@.len() - i,
    {
        i += 1;
    }
    proof {
        lemma_signer_prefix_at(params@, i as int);
    }
    i
}

} // verus!
