use dove::address::Address;
use dove::codec;
use dove::dialect::Dialect;
use dove::error::CoreError;

fn addr_with_last(b: u8) -> Vec<u8> {
    let mut a = vec![0u8; 32];
    a[31] = b;
    a
}

/// Build a module blob in the canonical layout: address, name, the
/// referenced identities, then the instruction bytes.
fn blob(width: usize, last: u8, name: &[u8], deps: &[(u8, &[u8])], code: &[u8]) -> Vec<u8> {
    let mut out = vec![0u8; width - 1];
    out.push(last);
    out.push(name.len() as u8);
    out.extend_from_slice(name);
    out.push(deps.len() as u8);
    for (dlast, dname) in deps {
        out.extend(vec![0u8; width - 1]);
        out.push(*dlast);
        out.push(dname.len() as u8);
        out.extend_from_slice(dname);
    }
    out.extend_from_slice(code);
    out
}

#[test]
fn hex_literal_parses_exactly() {
    let a = Address::from_hex_literal("0x1").unwrap();
    assert_eq!(a.bytes().as_slice(), addr_with_last(1).as_slice());
    let b = Address::from_hex_literal("0x2a").unwrap();
    assert_eq!(b.bytes()[31], 42);
    assert_eq!(b.bytes()[30], 0);
    let c = Address::from_hex_literal("0xA2a").unwrap();
    assert_eq!(c.bytes()[31], 0x2a);
    assert_eq!(c.bytes()[30], 0x0a);
}

#[test]
fn hex_literal_rejects_malformed() {
    assert!(matches!(
        Address::from_hex_literal("1"),
        Err(CoreError::InvalidAddress)
    ));
    assert!(Address::from_hex_literal("0x").is_err());
    assert!(Address::from_hex_literal("x1").is_err());
    assert!(Address::from_hex_literal("0xg1").is_err());
    // 65 digits: one too many
    let long = format!("0x{}", "1".repeat(65));
    assert!(Address::from_hex_literal(&long).is_err());
    let max = format!("0x{}", "f".repeat(64));
    assert!(Address::from_hex_literal(&max).is_ok());
}

#[test]
fn dialect_by_name() {
    assert!(matches!(Dialect::by_name("pont"), Ok(Dialect::Pont)));
    assert!(matches!(Dialect::by_name("dfinance"), Ok(Dialect::Dfinance)));
    assert!(matches!(Dialect::by_name("diem"), Ok(Dialect::Diem)));
    assert!(Dialect::by_name("solana").is_err());
}

#[test]
fn address_round_trip_every_dialect() {
    for d in [Dialect::Pont, Dialect::Dfinance, Dialect::Diem] {
        let a = d.normalize_account_address("0x2a").unwrap();
        let target = d.adapt_address_to_target(&a).unwrap();
        assert_eq!(target.len(), d.target_width());
        let back = d.adapt_address_to_basis(&target).unwrap();
        assert_eq!(back.bytes(), a.bytes());
    }
}

#[test]
fn narrow_dialect_rejects_wide_address() {
    // 17 significant bytes cannot live on a 16-byte chain
    let wide = format!("0x{}", "ff".repeat(17));
    assert!(Dialect::Diem.normalize_account_address(&wide).is_err());
    assert!(Dialect::Dfinance.normalize_account_address(&wide).is_ok());
    let a = Address::from_hex_literal(&wide).unwrap();
    assert!(Dialect::Diem.adapt_address_to_target(&a).is_err());
}

#[test]
fn parse_module_reads_the_layout() {
    let b = blob(32, 3, b"C", &[(1, b"A"), (2, b"B")], &[9, 9, 9]);
    let m = codec::parse_module(&b).unwrap();
    assert_eq!(m.id.address.bytes()[31], 3);
    assert_eq!(m.id.name, b"C".to_vec());
    assert_eq!(m.deps.len(), 2);
    assert_eq!(m.deps[0].name, b"A".to_vec());
    assert_eq!(m.deps[1].name, b"B".to_vec());
    assert_eq!(m.code, vec![9, 9, 9]);
    assert_eq!(m.bytes, b);
}

#[test]
fn parse_module_rejects_truncation() {
    let b = blob(32, 3, b"C", &[(1, b"A")], &[]);
    for cut in [1usize, 10, 33, 40] {
        let short = b[..b.len().saturating_sub(cut)].to_vec();
        if short.len() < b.len() {
            assert!(matches!(
                codec::parse_module(&short),
                Err(CoreError::DeserializationFailure)
            ));
        }
    }
}

#[test]
fn bytecode_rewrite_touches_only_addresses() {
    let canonical = blob(32, 7, b"M", &[(1, b"A")], &[0xCA, 0xFE]);
    let target = Dialect::Diem.adapt_to_target(&canonical).unwrap();
    let expected = blob(16, 7, b"M", &[(1, b"A")], &[0xCA, 0xFE]);
    assert_eq!(target, expected);
    let back = Dialect::Diem.adapt_to_basis(&target).unwrap();
    assert_eq!(back, canonical);
}

#[test]
fn bytecode_rewrite_fails_on_lost_bytes() {
    // an address with its top byte set cannot shrink to 16 bytes
    let mut wide = blob(32, 7, b"M", &[], &[]);
    wide[0] = 0xff;
    assert!(matches!(
        Dialect::Diem.adapt_to_target(&wide),
        Err(CoreError::EncodingMismatch)
    ));
    assert!(matches!(
        Dialect::Diem.adapt_to_basis(&vec![1, 2, 3]),
        Err(CoreError::DeserializationFailure)
    ));
}
