use dove::address::Address;
use dove::bridge::{InternTable, SourceMap, locate};
use dove::clean::{Clean, ClearType, run_dove_clean};
use dove::dialect::Dialect;
use dove::error::CoreError;
use dove::module::ModuleId;
use dove::proto::{Empty, Error};
use dove::resolver::{DependencyResolver, Store, TableLoader};
use dove::tx::{
    Candidate, EnrichedTransaction, ParsedCall, Signers, TypeTag, Value, make_function_call,
    make_script_call, make_transaction, prepare_function_signature, select_function,
};

fn blob(last: u8, name: &[u8], deps: &[(u8, &[u8])], code: &[u8]) -> Vec<u8> {
    let mut out = vec![0u8; 31];
    out.push(last);
    out.push(name.len() as u8);
    out.extend_from_slice(name);
    out.push(deps.len() as u8);
    for (dlast, dname) in deps {
        out.extend(vec![0u8; 31]);
        out.push(*dlast);
        out.push(dname.len() as u8);
        out.extend_from_slice(dname);
    }
    out.extend_from_slice(code);
    out
}

fn mid(last: u8, name: &[u8]) -> ModuleId {
    let mut a = vec![0u8; 32];
    a[31] = last;
    ModuleId::new(Address::from_bytes(a).unwrap(), name.to_vec())
}

#[test]
fn resolution_is_idempotent() {
    // an unpopulated store, then a populated one: byte-identical both times
    let m = blob(1, b"A", &[], b"aa");
    let id = mid(1, b"A");
    let loader = TableLoader { paths: vec![id.access_vector()], blobs: vec![m.clone()] };
    let mut res = DependencyResolver::new(Dialect::Pont, loader, Store::new());
    let first = res.resolve(&id).unwrap().unwrap();
    let second = res.resolve(&id).unwrap().unwrap();
    assert_eq!(first, m);
    assert_eq!(second, m);
}

#[test]
fn loader_miss_is_absence_not_error() {
    // the loader knows nothing about X; the build goes on, X stays out
    let loader = TableLoader { paths: Vec::new(), blobs: Vec::new() };
    let mut res = DependencyResolver::new(Dialect::Pont, loader, Store::new());
    let id = mid(9, b"X");
    assert!(matches!(res.resolve(&id), Ok(None)));
    assert!(matches!(res.resolve(&id), Ok(None)));
}

#[test]
fn resolver_rewrites_fetched_bytes_to_basis() {
    // a 16-byte-chain loader hands back the chain-native blob; the
    // resolver returns the canonical form
    let canonical = blob(1, b"A", &[], b"aa");
    let native = Dialect::Diem.adapt_to_target(&canonical).unwrap();
    let id = mid(1, b"A");
    let loader = TableLoader { paths: vec![id.access_vector()], blobs: vec![native] };
    let mut res = DependencyResolver::new(Dialect::Diem, loader, Store::new());
    let got = res.resolve(&id).unwrap().unwrap();
    assert_eq!(got, canonical);
}

#[test]
fn implicit_signers_synthesized_by_arity() {
    // two leading signers, implicit mode: exactly two signer instances
    // come from the sender address
    let params = vec![TypeTag::Signer, TypeTag::Signer, TypeTag::U64];
    let args = vec![b"7".to_vec()];
    let sender = Address::from_hex_literal("0x1").unwrap();
    let (sg, vals) = prepare_function_signature(&params, &args, true, &sender).unwrap();
    match sg {
        Signers::Implicit(v) => {
            assert_eq!(v.len(), 2);
            assert_eq!(v[0].bytes(), sender.bytes());
            assert_eq!(v[1].bytes(), sender.bytes());
        },
        Signers::Explicit(_) => panic!("expected synthesized signers"),
    }
    assert_eq!(vals.len(), 1);
    assert!(matches!(vals[0], Value::U64(7)));
}

#[test]
fn explicit_signers_extracted_before_binding() {
    let params = vec![TypeTag::Signer, TypeTag::U8];
    let args = vec![b"0x2".to_vec(), b"9".to_vec()];
    let sender = Address::from_hex_literal("0x1").unwrap();
    let (sg, vals) = prepare_function_signature(&params, &args, false, &sender).unwrap();
    match sg {
        Signers::Explicit(v) => {
            assert_eq!(v.len(), 1);
            assert_eq!(v[0].bytes()[31], 2);
        },
        Signers::Implicit(_) => panic!("expected explicit signers"),
    }
    assert!(matches!(vals[0], Value::U8(9)));
}

#[test]
fn mixing_signer_conventions_is_fatal() {
    let params = vec![TypeTag::Signer, TypeTag::U8];
    let sender = Address::from_hex_literal("0x1").unwrap();
    // implicit permitted, yet a signer literal is supplied too
    let full = vec![b"0x2".to_vec(), b"9".to_vec()];
    assert!(matches!(
        prepare_function_signature(&params, &full, true, &sender),
        Err(CoreError::SignerConventionConflict)
    ));
    // implicit denied, yet no signer literal is supplied
    let short = vec![b"9".to_vec()];
    assert!(matches!(
        prepare_function_signature(&params, &short, false, &sender),
        Err(CoreError::SignerConventionConflict)
    ));
}

#[test]
fn literal_binding_is_typed() {
    let sender = Address::from_hex_literal("0x1").unwrap();
    let params = vec![TypeTag::Bool, TypeTag::Vector(Box::new(TypeTag::U8)), TypeTag::Address];
    let args = vec![b"true".to_vec(), b"0x0102".to_vec(), b"0x2a".to_vec()];
    let (_, vals) = prepare_function_signature(&params, &args, true, &sender).unwrap();
    assert!(matches!(vals[0], Value::Bool(true)));
    match &vals[1] {
        Value::Bytes(b) => assert_eq!(b, &vec![1u8, 2u8]),
        _ => panic!("expected a byte vector"),
    }
    match &vals[2] {
        Value::Address(a) => assert_eq!(a.bytes()[31], 42),
        _ => panic!("expected an address"),
    }
    // a u64 literal that does not fit is a binding failure
    let params2 = vec![TypeTag::U64];
    let args2 = vec![b"99999999999999999999999".to_vec()];
    assert!(matches!(
        prepare_function_signature(&params2, &args2, true, &sender),
        Err(CoreError::NoMatchingCandidate)
    ));
}

fn script_candidate(name: &[u8], index: &[u8], params: Vec<TypeTag>) -> Candidate {
    Candidate { name: name.to_vec(), index: index.to_vec(), params, type_params: 0 }
}

#[test]
fn script_call_scenario() {
    // candidate (signer, u64), implicit signers, sender 0x1, args ["42"]
    let cands = vec![script_candidate(b"main", b"0", vec![TypeTag::Signer, TypeTag::U64])];
    let sender = Address::from_hex_literal("0x1").unwrap();
    let et = make_script_call(
        &cands,
        &b"main".to_vec(),
        None,
        Vec::new(),
        &vec![b"42".to_vec()],
        &sender,
        false,
        b"CODE".to_vec(),
        Vec::new(),
        false,
    )
    .unwrap();
    match et {
        EnrichedTransaction::Global { tx, name } => {
            assert_eq!(name, b"main".to_vec());
            assert_eq!(tx.signers.len(), 1);
            assert_eq!(tx.signers[0].bytes()[31], 1);
            match tx.call {
                dove::tx::Call::Script { code, args, .. } => {
                    assert_eq!(code, b"CODE".to_vec());
                    assert_eq!(args.len(), 1);
                    assert!(matches!(args[0], Value::U64(42)));
                },
                _ => panic!("expected a script payload"),
            }
        },
        _ => panic!("expected a global transaction"),
    }
}

#[test]
fn candidate_selection_is_exact() {
    let cands = vec![
        script_candidate(b"main", b"0", vec![]),
        script_candidate(b"main", b"1", vec![]),
        script_candidate(b"other", b"2", vec![]),
    ];
    assert!(matches!(
        select_function(&cands, &b"missing".to_vec(), None),
        Err(CoreError::NoMatchingCandidate)
    ));
    assert!(matches!(
        select_function(&cands, &b"main".to_vec(), None),
        Err(CoreError::AmbiguousCandidate)
    ));
    assert_eq!(select_function(&cands, &b"main".to_vec(), Some(&b"1".to_vec())).unwrap(), 1);
    assert_eq!(select_function(&cands, &b"other".to_vec(), None).unwrap(), 2);
}

#[test]
fn function_call_carries_only_the_reference() {
    let cands = vec![script_candidate(b"transfer", b"0", vec![TypeTag::Signer, TypeTag::U64])];
    let sender = Address::from_hex_literal("0x1").unwrap();
    let et = make_function_call(
        &cands,
        Address::from_hex_literal("0x2").unwrap(),
        b"Bank".to_vec(),
        b"transfer".to_vec(),
        None,
        Vec::new(),
        &vec![b"5".to_vec()],
        &sender,
        false,
        Vec::new(),
        false,
    )
    .unwrap();
    match et {
        EnrichedTransaction::Global { tx, name } => {
            assert_eq!(name, b"Bank_transfer".to_vec());
            match tx.call {
                dove::tx::Call::ScriptFunction { module, func, args, .. } => {
                    assert_eq!(module, b"Bank".to_vec());
                    assert_eq!(func, b"transfer".to_vec());
                    assert!(matches!(args[0], Value::U64(5)));
                },
                _ => panic!("expected a function reference"),
            }
        },
        _ => panic!("expected a global transaction"),
    }
}

#[test]
fn function_call_local_carries_dependencies() {
    let cands = vec![script_candidate(b"transfer", b"0", vec![TypeTag::Signer, TypeTag::U64])];
    let sender = Address::from_hex_literal("0x1").unwrap();
    let dep_blob = blob(1, b"A", &[], b"aa");
    let et = make_function_call(
        &cands,
        Address::from_hex_literal("0x2").unwrap(),
        b"Bank".to_vec(),
        b"transfer".to_vec(),
        None,
        Vec::new(),
        &vec![b"5".to_vec()],
        &sender,
        false,
        vec![dep_blob.clone()],
        true,
    )
    .unwrap();
    match et {
        EnrichedTransaction::Local { tx, signers, deps } => {
            assert_eq!(deps, vec![dep_blob]);
            assert_eq!(signers.len(), 0);
            assert_eq!(tx.signers.len(), 1);
            assert_eq!(tx.signers[0].bytes()[31], 1);
        },
        _ => panic!("expected a local transaction"),
    }
}

#[test]
fn script_call_local_keeps_explicit_signers() {
    let cands = vec![script_candidate(b"main", b"0", vec![TypeTag::Signer, TypeTag::U64])];
    let sender = Address::from_hex_literal("0x1").unwrap();
    let et = make_script_call(
        &cands,
        &b"main".to_vec(),
        None,
        Vec::new(),
        &vec![b"0x7".to_vec(), b"42".to_vec()],
        &sender,
        true,  // implicit signers denied: signer literals required
        b"CODE".to_vec(),
        vec![b"dep".to_vec()],
        true,
    )
    .unwrap();
    match et {
        EnrichedTransaction::Local { tx, signers, deps } => {
            assert_eq!(deps, vec![b"dep".to_vec()]);
            assert_eq!(tx.signers.len(), 0);
            assert_eq!(signers.len(), 1);
            assert_eq!(signers[0].bytes()[31], 7);
        },
        _ => panic!("expected a local transaction"),
    }
}

#[test]
fn transaction_dispatches_on_call_kind() {
    let cands = vec![script_candidate(b"main", b"0", vec![TypeTag::U8])];
    let sender = Address::from_hex_literal("0x1").unwrap();
    let et = make_transaction(
        &cands,
        ParsedCall::Script {
            name: b"main".to_vec(),
            type_tag: Vec::new(),
            args: vec![b"3".to_vec()],
        },
        None,
        &sender,
        false,
        b"C".to_vec(),
    )
    .unwrap();
    assert!(matches!(et, EnrichedTransaction::Global { .. }));
}

#[test]
fn type_argument_count_must_match() {
    let mut c = script_candidate(b"main", b"0", vec![]);
    c.type_params = 1;
    let sender = Address::from_hex_literal("0x1").unwrap();
    let r = make_script_call(
        &vec![c],
        &b"main".to_vec(),
        None,
        Vec::new(),
        &Vec::new(),
        &sender,
        false,
        Vec::new(),
        Vec::new(),
        false,
    );
    assert!(matches!(r, Err(CoreError::NoMatchingCandidate)));
}

#[test]
fn clean_modes() {
    assert!(matches!(ClearType::from_str("STATE"), ClearType::State));
    assert!(matches!(ClearType::from_str("state"), ClearType::State));
    assert!(matches!(ClearType::from_str("everything"), ClearType::All));
    assert!(matches!(ClearType::default(), ClearType::All));

    let c = Clean { clear_type: Some(ClearType::State), global: false };
    assert_eq!(c.apply(), vec!["storage", "build/mv_interfaces", "build/package"]);
    let c2 = Clean { clear_type: None, global: true };
    assert_eq!(c2.apply(), vec!["storage", "build"]);
    assert_eq!(run_dove_clean(), vec!["storage", "build"]);
}

#[test]
fn source_map_ids_follow_insertion_order() {
    let mut sm = SourceMap::new();
    let a = sm.insert(b"a.move".to_vec(), b"text a".to_vec());
    let b = sm.insert(b"b.move".to_vec(), b"text b".to_vec());
    assert_eq!((a, b), (0, 1));
    assert_eq!(sm.len(), 2);
    assert_eq!(sm.name_of(0), &b"a.move".to_vec());
    assert_eq!(sm.text_of(1), &b"text b".to_vec());
}

#[test]
fn locate_is_exact() {
    let text = b"ab\ncd\n\nxy".to_vec();
    let lc = locate(&text, 0);
    assert_eq!((lc.line, lc.col), (1, 0));
    let lc = locate(&text, 4);
    assert_eq!((lc.line, lc.col), (2, 1));
    let lc = locate(&text, 7);
    assert_eq!((lc.line, lc.col), (4, 0));
}

#[test]
fn unresolved_dependency_surfaces_only_when_reported() {
    // the build resolved A; the compiler complains about X: only X is a
    // genuine unresolved dependency
    let mut t = InternTable::new();
    t.record(mid(1, b"A"), Some(b"bytes".to_vec()));
    assert!(dove::bridge::confirm_resolved(&t, &mid(1, b"A")).is_ok());
    assert!(matches!(
        dove::bridge::confirm_resolved(&t, &mid(9, b"X")),
        Err(CoreError::UnresolvedDependency)
    ));
    // a recorded loader miss the compiler then reports is an error too
    t.record(mid(9, b"X"), None);
    assert!(dove::bridge::confirm_resolved(&t, &mid(9, b"X")).is_err());
}

#[test]
fn intern_table_memoizes_per_build() {
    let mut t = InternTable::new();
    let id = mid(1, b"A");
    assert!(t.lookup(&id).is_none());
    t.record(id.duplicate(), Some(b"bytes".to_vec()));
    assert_eq!(t.lookup(&id), Some(Some(b"bytes".to_vec())));
    let gone = mid(2, b"B");
    t.record(gone.duplicate(), None);
    assert_eq!(t.lookup(&gone), Some(None));
}

#[test]
fn compiled_units_are_adapted_for_the_target() {
    let canonical = blob(1, b"A", &[], b"aa");
    let units = vec![dove::bridge::CompiledUnit {
        name: b"A".to_vec(),
        source: b"0".to_vec(),
        bytecode: canonical.clone(),
    }];
    let out = dove::bridge::build(&Dialect::Diem, units).unwrap();
    assert_eq!(out.len(), 1);
    assert_eq!(out[0].name, b"A".to_vec());
    assert_eq!(out[0].bytecode, Dialect::Diem.adapt_to_target(&canonical).unwrap());
}

#[test]
fn transaction_wire_format_is_exact() {
    let signer = Address::from_hex_literal("0x1").unwrap();
    let tx = dove::tx::Transaction::new_script_tx(
        vec![signer],
        vec![0xCA],
        vec![Value::U64(42)],
        vec![TypeTag::U8],
    );
    let mut expected = vec![1u8]; // one signer
    expected.extend(vec![0u8; 31]);
    expected.push(1); // its canonical address
    expected.push(0); // script tag
    expected.extend([1, 0xCA]); // code, length-prefixed
    expected.extend([1, 2, 42, 0, 0, 0, 0, 0, 0, 0]); // one u64 argument
    expected.extend([1, 1]); // one type argument: u8
    assert_eq!(tx.encode(), expected);

    let ftx = dove::tx::Transaction::new_func_tx(
        Vec::new(),
        Address::from_hex_literal("0x2").unwrap(),
        b"M".to_vec(),
        b"f".to_vec(),
        Vec::new(),
        vec![TypeTag::Vector(Box::new(TypeTag::U8))],
    );
    let mut fexpected = vec![0u8]; // no signers
    fexpected.push(1); // module-function tag
    fexpected.extend(vec![0u8; 31]);
    fexpected.push(2); // module owner address
    fexpected.extend([1, b'M', 1, b'f']); // module and function names
    fexpected.push(0); // no arguments
    fexpected.extend([1, 6, 1]); // one type argument: vector<u8>
    assert_eq!(ftx.encode(), fexpected);
}

#[test]
fn unit_selection_is_by_name_and_source() {
    let u = |name: &[u8], source: &[u8]| dove::bridge::CompiledUnit {
        name: name.to_vec(),
        source: source.to_vec(),
        bytecode: b"bc".to_vec(),
    };
    let units = vec![u(b"main", b"0"), u(b"main", b"1"), u(b"other", b"0")];
    assert_eq!(dove::bridge::find_unit(&units, &b"main".to_vec(), &b"1".to_vec()).unwrap(), 1);
    assert_eq!(dove::bridge::find_unit(&units, &b"other".to_vec(), &b"0".to_vec()).unwrap(), 2);
    assert!(matches!(
        dove::bridge::find_unit(&units, &b"main".to_vec(), &b"2".to_vec()),
        Err(CoreError::NoMatchingCandidate)
    ));
}

#[test]
fn proto_error_carries_its_message() {
    let _ = Empty;
    let e = Error::from(String::from("boom"));
    assert_eq!(e.message(), "boom");
}
