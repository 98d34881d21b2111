use dove::bundle::{BytecodeFile, Deploy, ModulePackage};
use dove::error::CoreError;

/// A canonical module blob: address, name, references, instructions.
fn blob(last: u8, name: &[u8], deps: &[(u8, &[u8])], code: &[u8]) -> Vec<u8> {
    let mut out = vec![0u8; 31];
    out.push(last);
    out.push(name.len() as u8);
    out.extend_from_slice(name);
    out.push(deps.len() as u8);
    for (dlast, dname) in deps {
        out.extend(vec![0u8; 31]);
        out.push(*dlast);
        out.push(dname.len() as u8);
        out.extend_from_slice(dname);
    }
    out.extend_from_slice(code);
    out
}

fn pack(blobs: &[Vec<u8>]) -> ModulePackage {
    let mut pac = ModulePackage::default();
    for b in blobs {
        pac.put(b.clone());
    }
    pac
}

#[test]
fn dependency_order_three_modules() {
    // A has no deps, B depends on A, C depends on A and B;
    // submitted as [C, A, B], the package must come out [A, B, C].
    let a = blob(1, b"A", &[], b"aa");
    let b = blob(1, b"B", &[(1, b"A")], b"bb");
    let c = blob(1, b"C", &[(1, b"A"), (1, b"B")], b"cc");
    let mut pac = pack(&[c.clone(), a.clone(), b.clone()]);
    pac.sort().unwrap();
    assert_eq!(pac.modules().as_slice(), &[a, b, c]);
}

#[test]
fn no_duplicate_emission_on_diamond() {
    // both B and C reference A; A appears exactly once, first.
    let a = blob(1, b"A", &[], b"aa");
    let b = blob(1, b"B", &[(1, b"A")], b"bb");
    let c = blob(1, b"C", &[(1, b"A")], b"cc");
    let mut pac = pack(&[b.clone(), c.clone(), a.clone()]);
    pac.sort().unwrap();
    assert_eq!(pac.modules().as_slice(), &[a, b, c]);
}

#[test]
fn package_deterministic_under_permutation() {
    let a = blob(1, b"A", &[], b"aa");
    let b = blob(2, b"B", &[(1, b"A")], b"bb");
    let c = blob(1, b"C", &[(2, b"B")], b"cc");
    let orders: [[&Vec<u8>; 3]; 3] = [[&a, &b, &c], [&c, &b, &a], [&b, &a, &c]];
    let mut encodings = Vec::new();
    for ord in &orders {
        let mut pac = ModulePackage::default();
        for x in ord.iter() {
            pac.put((*x).clone());
        }
        pac.sort().unwrap();
        encodings.push(pac.encode().unwrap());
    }
    assert_eq!(encodings[0], encodings[1]);
    assert_eq!(encodings[0], encodings[2]);
}

#[test]
fn missing_dependency_is_skipped_silently() {
    // B references A, but A is not part of the input set: the bundle
    // still succeeds and holds only B.
    let b = blob(1, b"B", &[(1, b"A")], b"bb");
    let mut pac = pack(&[b.clone()]);
    pac.sort().unwrap();
    assert_eq!(pac.modules().as_slice(), &[b]);
}

#[test]
fn self_reference_is_a_no_op() {
    let a = blob(1, b"A", &[(1, b"A")], b"aa");
    let mut pac = pack(&[a.clone()]);
    pac.sort().unwrap();
    assert_eq!(pac.modules().as_slice(), &[a]);
}

#[test]
fn malformed_module_aborts_the_bundle() {
    let a = blob(1, b"A", &[], b"aa");
    let mut pac = pack(&[a, vec![1, 2, 3]]);
    assert!(matches!(pac.sort(), Err(CoreError::DeserializationFailure)));
}

#[test]
fn envelope_matches_the_reference_serializer() {
    let a = blob(1, b"A", &[], b"aa");
    let b = blob(1, b"B", &[(1, b"A")], b"bb");
    let mut pac = pack(&[b.clone(), a.clone()]);
    pac.sort().unwrap();
    let ours = pac.encode().unwrap();
    let reference = bcs::to_bytes(&vec![a.clone(), b.clone()]).unwrap();
    assert_eq!(ours, reference);
    // the envelope is a real framing, not the plain concatenation
    let mut concat = a.clone();
    concat.extend_from_slice(&b);
    assert_ne!(ours, concat);
}

#[test]
fn deploy_excludes_named_modules() {
    let a = blob(1, b"A", &[], b"aa");
    let b = blob(1, b"B", &[(1, b"A")], b"bb");
    let files = vec![
        BytecodeFile { name: b"B.mv".to_vec(), bytes: b.clone() },
        BytecodeFile { name: b"A.mv".to_vec(), bytes: a.clone() },
    ];
    let d = Deploy { modules_exclude: vec![b"B".to_vec()], output: None };
    let pac_bytes = d.apply(&files).unwrap();
    assert_eq!(pac_bytes, bcs::to_bytes(&vec![a.clone()]).unwrap());

    let d_all = Deploy { modules_exclude: Vec::new(), output: None };
    let all_bytes = d_all.apply(&files).unwrap();
    assert_eq!(all_bytes, bcs::to_bytes(&vec![a, b]).unwrap());
}

#[test]
fn deploy_rejects_wrong_extension() {
    let files = vec![BytecodeFile { name: b"A.txt".to_vec(), bytes: blob(1, b"A", &[], b"") }];
    let d = Deploy { modules_exclude: Vec::new(), output: None };
    assert!(matches!(d.apply(&files), Err(CoreError::UnexpectedFileName)));
}

#[test]
fn exclusion_matches_any_case_with_or_without_suffix() {
    let a = blob(1, b"Alpha", &[], b"aa");
    let b = blob(1, b"Beta", &[], b"bb");
    let files = vec![
        BytecodeFile { name: b"Alpha.mv".to_vec(), bytes: a.clone() },
        BytecodeFile { name: b"Beta.mv".to_vec(), bytes: b.clone() },
    ];
    // lower-case entry, suffixed upper-case entry: both still exclude
    let d = Deploy {
        modules_exclude: vec![b"alpha".to_vec(), b"BETA.MV".to_vec()],
        output: None,
    };
    let pac = d.apply(&files).unwrap();
    assert_eq!(pac, bcs::to_bytes(&Vec::<Vec<u8>>::new()).unwrap());
    // a different stem does not exclude
    let d2 = Deploy { modules_exclude: vec![b"alphax".to_vec()], output: None };
    let pac2 = d2.apply(&files).unwrap();
    assert_eq!(pac2, bcs::to_bytes(&vec![a, b]).unwrap());
}
