use vstd::prelude::*;

use crate::address::Address;
use crate::error::CoreError;
use crate::module::{
    IdView, ModuleId, ModuleInfo, ModuleInfoV, deps_blob, id_blob, module_blob, parse_blob,
    parse_deps, parse_id, sub_bytes, copy_bytes,
};

verus! {

/// Width in bytes of the address field in a canonical module blob.
pub const CANONICAL_WIDTH: usize = 32;

/// The views of a list of identities.
pub open spec fn view_ids(s: Seq<ModuleId>) -> Seq<IdView> {
    Seq::new(s.len(), |i: int| s[i]@)
}

/// `k` zero bytes.
pub open spec fn zeros(k: int) -> Seq<u8> {
    Seq::new(k as nat, |i: int| 0u8)
}

/// Can an address of this value be re-encoded at width `to_w` without
/// losing set bytes?
pub open spec fn retarget_ok(a: Seq<u8>, to_w: int) -> bool {
    to_w >= a.len() || (forall|i: int| 0 <= i < a.len() - to_w ==> a[i] == 0)
}

/// The same address value at width `to_w`: zero-extended on the left when
/// growing, with zero bytes dropped when shrinking.
pub open spec fn retarget_addr(a: Seq<u8>, to_w: int) -> Seq<u8> {
    if to_w >= a.len() {
        zeros(to_w - a.len()) + a
    } else {
        a.skip(a.len() - to_w)
    }
}

/// The same identity at address width `to_w`.
pub open spec fn retarget_id(id: IdView, to_w: int) -> IdView {
    IdView { addr: retarget_addr(id.addr, to_w), name: id.name }
}

/// Do the module's own identity and every referenced identity fit width
/// `to_w`?
pub open spec fn blob_fits(m: ModuleInfoV, to_w: int) -> bool {
    retarget_ok(m.id.addr, to_w)
        && forall|d: int| 0 <= d < m.deps.len() ==> retarget_ok(#[trigger] m.deps[d].addr, to_w)
}

/// The module re-encoded at address width `to_w`: only address fields are
/// rewritten, the instruction bytes travel verbatim.
pub open spec fn retarget_blob(m: ModuleInfoV, to_w: int) -> Seq<u8> {
    module_blob(
        retarget_id(m.id, to_w),
        Seq::new(m.deps.len(), |d: int| retarget_id(m.deps[d], to_w)),
        m.code,
    )
}

/// Appending one identity to a reference list appends its blob.
pub proof fn lemma_deps_blob_push(s: Seq<IdView>, x: IdView)
    ensures
        deps_blob(s.push(x)) == deps_blob(s) + id_blob(x),
    decreases s.len(),
{
    if s.len() == 0 {
        assert(s.push(x)[0] == x);
        assert(s.push(x).skip(1) =~= Seq::<IdView>::empty());
        assert(deps_blob(Seq::<IdView>::empty()) =~= Seq::<u8>::empty());
        assert(deps_blob(s.push(x)) =~= id_blob(x) + deps_blob(s.push(x).skip(1)));
        assert(deps_blob(s) + id_blob(x) =~= id_blob(x));
        assert(id_blob(x) + Seq::<u8>::empty() =~= id_blob(x));
        assert(deps_blob(s.push(x)) =~= deps_blob(s) + id_blob(x));
    } else {
        assert(s.push(x)[0] == s[0]);
        assert(s.push(x).skip(1) =~= s.skip(1).push(x));
        lemma_deps_blob_push(s.skip(1), x);
        assert(deps_blob(s.push(x)) =~= deps_blob(s) + id_blob(x));
    }
}

/// Parse one raw (address, name) identity at offset `off` of a blob with
/// address width `w`; returns the pieces and the offset just past them.
pub fn parse_raw_id_at(bytes: &Vec<u8>, w: usize, off: usize) -> (r: Result<
    (Vec<u8>, Vec<u8>, usize),
    CoreError,
>)
    requires
        off <= bytes@.len(),
        0 < w <= 64,
    ensures
        r is Ok <==> parse_id(bytes@, w as int, off as int) is Some,
        r matches Ok((addr, name, next)) ==> parse_id(bytes@, w as int, off as int)
            == Some((IdView { addr: addr@, name: name@ }, next as int)) && next <= bytes@.len(),
        r matches Err(e) ==> e == CoreError::DeserializationFailure,
{
    let n = bytes.len();
    if n - off < w + 1 {
        return Err(CoreError::DeserializationFailure);
    }
    let nl = bytes[off + w];
    if nl >= 128 {
        return Err(CoreError::DeserializationFailure);
    }
    if n - (off + w + 1) < nl as usize {
        return Err(CoreError::DeserializationFailure);
    }
    let addr = sub_bytes(bytes, off, off + w);
    let name = sub_bytes(bytes, off + w + 1, off + w + 1 + nl as usize);
    Ok((addr, name, off + w + 1 + nl as usize))
}

/// Deserialize a canonical module blob into its identity, references and
/// instruction bytes. Fails exactly on blobs the canonical layout refuses.
pub fn parse_module(bytes: &Vec<u8>) -> (r: Result<ModuleInfo, CoreError>)
    ensures
        r is Ok <==> parse_blob(bytes@, CANONICAL_WIDTH as int) is Some,
        r matches Ok(m) ==> Some(m@) == parse_blob(bytes@, CANONICAL_WIDTH as int) && m.wf(),
        r matches Err(e) ==> e == CoreError::DeserializationFailure,
{
    let w = CANONICAL_WIDTH;
    let n = bytes.len();
    let (addr_bytes, name, off1) = match parse_raw_id_at(bytes, w, 0) {
        Ok(x) => x,
        Err(e) => {
            return Err(e);
        },
    };
    let address = match Address::from_bytes(addr_bytes) {
        Ok(a) => a,
        Err(_) => {
            proof {
                assert(false);
            }
            return Err(CoreError::DeserializationFailure);
        },
    };
    let id = ModuleId::new(address, name);
    if n - off1 < 1 {
        return Err(CoreError::DeserializationFailure);
    }
    let cnt = bytes[off1];
    if cnt >= 128 {
        return Err(CoreError::DeserializationFailure);
    }
    let ghost wi = w as int;
    let ghost off0: int = off1 as int + 1;
    let mut deps: Vec<ModuleId> = Vec::new();
    let mut cur: usize = off1 + 1;
    let mut i: usize = 0;
    while i < cnt as usize
        invariant
            0 <= i <= cnt < 128,
            deps@.len() == i,
            cur <= n,
            n == bytes@.len(),
            wi == 32,
            off0 == off1 + 1,
            parse_deps(bytes@, wi, off0, cnt as nat) == (match parse_deps(
                bytes@,
                wi,
                cur as int,
                (cnt - i) as nat,
            ) {
                None => None::<(Seq<IdView>, int)>,
                Some((rest, o)) => Some((view_ids(deps@) + rest, o)),
            }),
            forall|k: int| 0 <= k < deps@.len() ==> (#[trigger] deps@[k]).wf(),
        decreases cnt - i,
    {
        let (da, dn, next) = match parse_raw_id_at(bytes, w, cur) {
            Ok(x) => x,
            Err(e) => {
                return Err(e);
            },
        };
        let daddr = match Address::from_bytes(da) {
            Ok(a) => a,
            Err(_) => {
                proof {
                    assert(false);
                }
                return Err(CoreError::DeserializationFailure);
            },
        };
        let ghost old_deps = deps@;
        deps.push(ModuleId::new(daddr, dn));
        proof {
            let k = (cnt - i) as nat;
            let tail = parse_deps(bytes@, wi, next as int, (k - 1) as nat);
            match tail {
                None => {},
                Some((rest, o)) => {
                    assert(view_ids(deps@) =~= view_ids(old_deps).push(deps@[i as int]@));
                    assert(view_ids(old_deps) + (seq![deps@[i as int]@] + rest) =~= view_ids(
                        deps@,
                    ) + rest);
                },
            }
        }
        cur = next;
        i += 1;
    }
    let code = sub_bytes(bytes, cur, n);
    let out = ModuleInfo { id, deps, code, bytes: copy_bytes(bytes) };
    proof {
        assert(parse_deps(bytes@, wi, cur as int, 0nat) == Some((Seq::<IdView>::empty(), cur as int)));
        assert(view_ids(out.deps@) + Seq::<IdView>::empty() =~= view_ids(out.deps@));
        let m = parse_blob(bytes@, wi).unwrap();
        assert(bytes@.skip(cur as int) =~= bytes@.subrange(cur as int, n as int));
        assert(out@.deps =~= view_ids(out.deps@));
        assert(out@ =~= m);
    }
    Ok(out)
}

/// Re-encode an address value at width `to_w`; fails when set bytes would
/// be lost.
pub fn retarget_addr_exec(addr: &Vec<u8>, to_w: usize) -> (r: Result<Vec<u8>, CoreError>)
    requires
        to_w <= 64,
        addr@.len() <= 64,
    ensures
        r is Ok <==> retarget_ok(addr@, to_w as int),
        r matches Ok(t) ==> t@ == retarget_addr(addr@, to_w as int),
        r matches Err(e) ==> e == CoreError::EncodingMismatch,
{
    let n = addr.len();
    if to_w >= n {
        let mut out: Vec<u8> = Vec::new();
        while out.len() < to_w - n
            invariant
                out@.len() <= to_w - n,
                out@ == zeros(out@.len() as int),
            decreases to_w - n - out@.len(),
        {
            out.push(0);
            assert(out@ =~= zeros(out@.len() as int));
        }
        let mut i: usize = 0;
        while i < n
            invariant
                0 <= i <= n,
                n == addr@.len(),
                out@ == zeros((to_w - n) as int) + addr@.take(i as int),
            decreases n - i,
        {
            out.push(addr[i]);
            assert(out@ =~= zeros((to_w - n) as int) + addr@.take(i + 1));
            i += 1;
        }
        assert(addr@.take(n as int) =~= addr@);
        Ok(out)
    } else {
        let cut = n - to_w;
        let mut i: usize = 0;
        while i < cut
            invariant
                0 <= i <= cut <= addr@.len(),
                forall|j: int| 0 <= j < i ==> addr@[j] == 0,
            decreases cut - i,
        {
            if addr[i] != 0 {
                return Err(CoreError::EncodingMismatch);
            }
            i += 1;
        }
        Ok(sub_bytes(addr, cut, n))
    }
}

/// Serialize an identity at its own address width: address bytes, one
/// length byte, name bytes.
pub fn emit_id(out: &mut Vec<u8>, addr: &Vec<u8>, name: &Vec<u8>)
    requires
        name@.len() < 128,
    ensures
        final(out)@ == old(out)@ + id_blob(IdView { addr: addr@, name: name@ }),
{
    let ghost base = out@;
    let mut i: usize = 0;
    while i < addr.len()
        invariant
            0 <= i <= addr@.len(),
            out@ == base + addr@.take(i as int),
        decreases addr@.len() - i,
    {
        out.push(addr[i]);
        assert(out@ =~= base + addr@.take(i + 1));
        i += 1;
    }
    assert(addr@.take(addr@.len() as int) =~= addr@);
    out.push(name.len() as u8);
    let mut j: usize = 0;
    while j < name.len()
        invariant
            0 <= j <= name@.len(),
            out@ == base + addr@ + seq![name@.len() as u8] + name@.take(j as int),
        decreases name@.len() - j,
    {
        out.push(name[j]);
        assert(out@ =~= base + addr@ + seq![name@.len() as u8] + name@.take(j + 1));
        j += 1;
    }
    assert(name@.take(name@.len() as int) =~= name@);
    assert(out@ =~= base + id_blob(IdView { addr: addr@, name: name@ }));
}

/// Rewrite a module blob from address width `from_w` to `to_w`: only the
/// address-bearing fields change; name bytes and instruction bytes are
/// copied verbatim. Fails with `DeserializationFailure` on a malformed
/// blob and with `EncodingMismatch` when an address does not fit.
pub fn adapt_width(bytes: &Vec<u8>, from_w: usize, to_w: usize) -> (r: Result<Vec<u8>, CoreError>)
    requires
        0 < from_w <= 64,
        0 < to_w <= 64,
    ensures
        r is Ok <==> (parse_blob(bytes@, from_w as int) matches Some(m) && blob_fits(
            m,
            to_w as int,
        )),
        r matches Ok(t) ==> t@ == retarget_blob(
            parse_blob(bytes@, from_w as int).unwrap(),
            to_w as int,
        ),
        r is Err ==> (r matches Err(e) && (e == CoreError::DeserializationFailure
            || e == CoreError::EncodingMismatch)),
{
    let n = bytes.len();
    let (addr0, name0, off1) = match parse_raw_id_at(bytes, from_w, 0) {
        Ok(x) => x,
        Err(e) => {
            return Err(e);
        },
    };
    if n - off1 < 1 {
        return Err(CoreError::DeserializationFailure);
    }
    let cnt = bytes[off1];
    if cnt >= 128 {
        return Err(CoreError::DeserializationFailure);
    }
    let ghost wi = from_w as int;
    let ghost ti = to_w as int;
    let ghost m0 = parse_blob(bytes@, wi);

    let new_addr0 = match retarget_addr_exec(&addr0, to_w) {
        Ok(a) => a,
        Err(e) => {
            return Err(e);
        },
    };
    let mut out: Vec<u8> = Vec::new();
    emit_id(&mut out, &new_addr0, &name0);
    out.push(cnt);

    let ghost id_t = retarget_id(IdView { addr: addr0@, name: name0@ }, ti);
    let ghost header = id_blob(id_t) + seq![cnt];
    assert(out@ =~= header);

    let mut cur: usize = off1 + 1;
    let mut i: usize = 0;
    let ghost off0: int = off1 as int + 1;
    let ghost mut gdeps: Seq<IdView> = Seq::empty();
    while i < cnt as usize
        invariant
            0 <= i <= cnt < 128,
            cur <= n,
            n == bytes@.len(),
            0 < wi <= 64,
            0 < ti <= 64,
            off0 == off1 as int + 1,
            m0 == parse_blob(bytes@, wi),
            header == id_blob(id_t) + seq![cnt],
            gdeps.len() == i,
            parse_deps(bytes@, wi, off0, cnt as nat) == (match parse_deps(
                bytes@,
                wi,
                cur as int,
                (cnt - i) as nat,
            ) {
                None => None::<(Seq<IdView>, int)>,
                Some((rest, o)) => Some((gdeps + rest, o)),
            }),
            forall|d: int| 0 <= d < i ==> retarget_ok((#[trigger] gdeps[d]).addr, ti),
            out@ == header + deps_blob(Seq::new(i as nat, |d: int| retarget_id(gdeps[d], ti))),
        decreases cnt - i,
    {
        let (da, dn, next) = match parse_raw_id_at(bytes, from_w, cur) {
            Ok(x) => x,
            Err(e) => {
                proof {
                    assert(parse_deps(bytes@, wi, cur as int, (cnt - i) as nat) is None);
                }
                return Err(e);
            },
        };
        let nda = match retarget_addr_exec(&da, to_w) {
            Ok(a) => a,
            Err(e) => {
                proof {
                    let k = (cnt - i) as nat;
                    let idv = IdView { addr: da@, name: dn@ };
                    match parse_deps(bytes@, wi, cur as int, k) {
                        None => {
                            assert(parse_deps(bytes@, wi, off0, cnt as nat) is None);
                        },
                        Some((rest, o)) => {
                            let rest2 = parse_deps(bytes@, wi, next as int, (k - 1) as nat);
                            assert(rest2 is Some);
                            assert(rest == seq![idv] + rest2.unwrap().0);
                            assert(rest[0] == idv);
                            let full = gdeps + rest;
                            assert(parse_deps(bytes@, wi, off0, cnt as nat) == Some((full, o)));
                            assert(full[i as int] == rest[0]);
                            if m0 is Some {
                                assert(m0.unwrap().deps == full);
                                assert(!retarget_ok(full[i as int].addr, ti));
                                assert(!blob_fits(m0.unwrap(), ti));
                            }
                        },
                    }
                }
                return Err(e);
            },
        };
        emit_id(&mut out, &nda, &dn);
        proof {
            let idv = IdView { addr: da@, name: dn@ };
            let mapped_i = Seq::new(i as nat, |d: int| retarget_id(gdeps[d], ti));
            lemma_deps_blob_push(mapped_i, retarget_id(idv, ti));
            let g1 = gdeps.push(idv);
            let mapped_i1 = Seq::new((i + 1) as nat, |d: int| retarget_id(g1[d], ti));
            assert(mapped_i1 =~= mapped_i.push(retarget_id(idv, ti)));
            assert(out@ =~= header + deps_blob(mapped_i1));
            match parse_deps(bytes@, wi, next as int, (cnt - i - 1) as nat) {
                None => {},
                Some((rest2, o2)) => {
                    assert(gdeps + (seq![idv] + rest2) =~= g1 + rest2);
                },
            }
            gdeps = g1;
        }
        cur = next;
        i += 1;
    }
    // instruction bytes travel verbatim
    let mut p: usize = cur;
    let ghost body_start = cur as int;
    let ghost mid = out@;
    while p < n
        invariant
            body_start <= p <= n,
            n == bytes@.len(),
            out@ == mid + bytes@.subrange(body_start, p as int),
        decreases n - p,
    {
        out.push(bytes[p]);
        assert(out@ =~= mid + bytes@.subrange(body_start, p + 1));
        p += 1;
    }
    proof {
        assert(parse_deps(bytes@, wi, cur as int, 0nat) == Some((Seq::<IdView>::empty(), cur as int)));
        assert(gdeps + Seq::<IdView>::empty() =~= gdeps);
        assert(parse_deps(bytes@, wi, off0, cnt as nat) == Some((gdeps, cur as int)));
        let m = m0.unwrap();
        assert(m.deps == gdeps);
        assert(m.id == (IdView { addr: addr0@, name: name0@ }));
        assert(m.code =~= bytes@.subrange(body_start, n as int));
        assert(blob_fits(m, ti));
        assert(Seq::new(cnt as nat, |d: int| retarget_id(gdeps[d], ti)) =~= Seq::new(
            m.deps.len(),
            |d: int| retarget_id(m.deps[d], ti),
        ));
        assert(out@ =~= retarget_blob(m, ti));
    }
    Ok(out)
}

} // verus!
