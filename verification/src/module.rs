use vstd::prelude::*;

use crate::address::Address;
use crate::error::CoreError;

verus! {

/// Ghost identity of a compiled module: owner address bytes plus module name.
#[verifier::ext_equal]
pub ghost struct IdView {
    pub addr: Seq<u8>,
    pub name: Seq<u8>,
}

/// Ghost shape of one compiled module as the packager and the dialects see
/// it: its identity, the identities it references, its instruction bytes,
/// and the whole blob it was read from.
#[verifier::ext_equal]
pub ghost struct ModuleInfoV {
    pub id: IdView,
    pub deps: Seq<IdView>,
    pub code: Seq<u8>,
    pub bytes: Seq<u8>,
}

/// Canonical (address, name) key uniquely naming a compiled module.
pub struct ModuleId {
    pub address: Address,
    pub name: Vec<u8>,
}

impl View for ModuleId {
    type V = IdView;

    open spec fn view(&self) -> IdView {
        IdView { addr: self.address@, name: self.name@ }
    }
}

impl ModuleId {
    pub open spec fn wf(&self) -> bool {
        self.address.wf()
    }

    pub fn new(address: Address, name: Vec<u8>) -> (r: ModuleId)
        ensures
            r@ == (IdView { addr: address@, name: name@ }),
    {
        ModuleId { address, name }
    }

    /// A copy with the same address and name.
    pub fn duplicate(&self) -> (r: ModuleId)
        ensures
            r@ == self@,
    {
        let r = ModuleId {
            address: self.address.duplicate(),
            name: copy_bytes(&self.name),
        };
        proof {
            assert(r@ =~= self@);
        }
        r
    }

    /// The access path under which a chain stores this module:
    /// its identity in the module blob header encoding.
    pub fn access_vector(&self) -> (r: Vec<u8>)
        requires
            self@.name.len() < 128,
        ensures
            r@ == id_blob(self@),
    {
        let mut out = copy_bytes(self.address.bytes());
        out.push(self.name.len() as u8);
        let mut i: usize = 0;
        while i < self.name.len()
            invariant
                0 <= i <= self@.name.len(),
                out@ == self@.addr + seq![self@.name.len() as u8] + self@.name.take(i as int),
            decreases self@.name.len() - i,
        {
            out.push(self.name[i]);
            assert(self@.name.take(i + 1) =~= self@.name.take(i as int) + seq![self@.name[i as int]]);
            assert(out@ =~= self@.addr + seq![self@.name.len() as u8] + self@.name.take(i + 1));
            i += 1;
        }
        assert(self@.name.take(self@.name.len() as int) =~= self@.name);
        assert(out@ =~= id_blob(self@));
        out
    }

    /// Same address and same name.
    pub fn equals(&self, other: &ModuleId) -> (r: bool)
        ensures
            r == (self@ == other@),
    {
        let r = self.address.equals(&other.address) && crate::address::bytes_equal(&self.name, &other.name);
        proof {
            if self@.addr == other@.addr && self@.name == other@.name {
                assert(self@ =~= other@);
            }
        }
        r
    }
}

/// One compiled module, deserialized: identity, referenced identities,
/// instruction bytes, and the original blob.
pub struct ModuleInfo {
    pub id: ModuleId,
    pub deps: Vec<ModuleId>,
    pub code: Vec<u8>,
    pub bytes: Vec<u8>,
}

impl View for ModuleInfo {
    type V = ModuleInfoV;

    open spec fn view(&self) -> ModuleInfoV {
        ModuleInfoV {
            id: self.id@,
            deps: Seq::new(self.deps@.len(), |i: int| self.deps@[i]@),
            code: self.code@,
            bytes: self.bytes@,
        }
    }
}

impl ModuleInfo {
    pub open spec fn wf(&self) -> bool {
        self.id.wf()
    }
}

// ----------------------------------------------------------------------
// Total order over module identities: address bytes first, then name.
// ----------------------------------------------------------------------

/// Strict lexicographic order over byte strings.
pub open spec fn bytes_lt(a: Seq<u8>, b: Seq<u8>) -> bool
    decreases a.len() + b.len(),
{
    if b.len() == 0 {
        false
    } else if a.len() == 0 {
        true
    } else if a[0] < b[0] {
        true
    } else if a[0] > b[0] {
        false
    } else {
        bytes_lt(a.skip(1), b.skip(1))
    }
}

/// Strict order over module identities: address first, then name.
pub open spec fn id_lt(a: IdView, b: IdView) -> bool {
    bytes_lt(a.addr, b.addr) || (a.addr == b.addr && bytes_lt(a.name, b.name))
}

pub proof fn lemma_bytes_lt_trichotomy(a: Seq<u8>, b: Seq<u8>)
    ensures
        bytes_lt(a, b) || bytes_lt(b, a) || a == b,
        bytes_lt(a, b) ==> !bytes_lt(b, a) && a != b,
        bytes_lt(b, a) ==> !bytes_lt(a, b) && a != b,
    decreases a.len() + b.len(),
{
    if a.len() == 0 && b.len() == 0 {
        assert(a =~= b);
    } else if a.len() > 0 && b.len() > 0 && a[0] == b[0] {
        lemma_bytes_lt_trichotomy(a.skip(1), b.skip(1));
        if a.skip(1) == b.skip(1) {
            assert forall|i: int| 0 <= i < a.len() implies a[i] == b[i] by {
                if i > 0 {
                    assert(a[i] == a.skip(1)[i - 1]);
                    assert(b[i] == b.skip(1)[i - 1]);
                }
            }
            assert(a =~= b);
        }
        if a == b {
            assert(a.skip(1) =~= b.skip(1));
        }
    } else {
        if a == b && a.len() > 0 {
            assert(a[0] == b[0]);
        }
    }
}

pub proof fn lemma_bytes_lt_transitive(a: Seq<u8>, b: Seq<u8>, c: Seq<u8>)
    requires
        bytes_lt(a, b),
        bytes_lt(b, c),
    ensures
        bytes_lt(a, c),
    decreases a.len() + b.len() + c.len(),
{
    if a.len() == 0 {
        assert(c.len() > 0);
    } else {
        assert(b.len() > 0 && c.len() > 0);
        if a[0] == b[0] && b[0] == c[0] {
            lemma_bytes_lt_transitive(a.skip(1), b.skip(1), c.skip(1));
        }
    }
}

pub proof fn lemma_id_lt_trichotomy(a: IdView, b: IdView)
    ensures
        id_lt(a, b) || id_lt(b, a) || a == b,
        id_lt(a, b) ==> !id_lt(b, a) && a != b,
        id_lt(b, a) ==> !id_lt(a, b) && a != b,
{
    lemma_bytes_lt_trichotomy(a.addr, b.addr);
    lemma_bytes_lt_trichotomy(a.name, b.name);
    if a.addr == b.addr && a.name == b.name {
        assert(a =~= b);
    }
}

pub proof fn lemma_id_lt_transitive(a: IdView, b: IdView, c: IdView)
    requires
        id_lt(a, b),
        id_lt(b, c),
    ensures
        id_lt(a, c),
{
    if bytes_lt(a.addr, b.addr) && bytes_lt(b.addr, c.addr) {
        lemma_bytes_lt_transitive(a.addr, b.addr, c.addr);
    } else if a.addr == b.addr && a.name != b.name && b.addr == c.addr {
        lemma_bytes_lt_transitive(a.name, b.name, c.name);
    }
}

/// Three-way byte string comparison; `r` is negative, zero or positive as
/// `a` is below, equal to or above `b` in the lexicographic order.
pub fn bytes_cmp(a: &Vec<u8>, b: &Vec<u8>) -> (r: i8)
    ensures
        r == -1 ==> bytes_lt(a@, b@),
        r == 0 ==> a@ == b@,
        r == 1 ==> bytes_lt(b@, a@),
        r == -1 || r == 0 || r == 1,
{
    let n = if a.len() < b.len() { a.len() } else { b.len() };
    let mut i: usize = 0;
    while i < n
        invariant
            0 <= i <= n,
            n == if a@.len() < b@.len() { a@.len() } else { b@.len() },
            forall|j: int| 0 <= j < i ==> a@[j] == b@[j],
        decreases n - i,
    {
        if a[i] < b[i] {
            proof { lemma_bytes_lt_common_prefix(a@, b@, i as int); }
            return -1;
        }
        if a[i] > b[i] {
            proof { lemma_bytes_lt_common_prefix(b@, a@, i as int); }
            return 1;
        }
        i += 1;
    }
    if a.len() < b.len() {
        proof { lemma_bytes_lt_prefix(a@, b@); }
        -1
    } else if a.len() > b.len() {
        proof { lemma_bytes_lt_prefix(b@, a@); }
        1
    } else {
        proof {
            assert(a@ =~= b@);
        }
        0
    }
}

/// If `a` and `b` agree on the first `i` bytes and differ at `i`,
/// the smaller byte decides the order.
proof fn lemma_bytes_lt_common_prefix(a: Seq<u8>, b: Seq<u8>, i: int)
    requires
        0 <= i < a.len(),
        i < b.len(),
        forall|j: int| 0 <= j < i ==> a[j] == b[j],
        a[i] < b[i],
    ensures
        bytes_lt(a, b),
    decreases i,
{
    if i == 0 {
    } else {
        lemma_bytes_lt_common_prefix(a.skip(1), b.skip(1), i - 1);
    }
}

/// A strict prefix is below any longer string that extends it.
proof fn lemma_bytes_lt_prefix(a: Seq<u8>, b: Seq<u8>)
    requires
        a.len() < b.len(),
        forall|j: int| 0 <= j < a.len() ==> a[j] == b[j],
    ensures
        bytes_lt(a, b),
    decreases a.len(),
{
    if a.len() > 0 {
        lemma_bytes_lt_prefix(a.skip(1), b.skip(1));
    }
}

/// Three-way identity comparison, address bytes first, then name.
pub fn id_cmp(a: &ModuleId, b: &ModuleId) -> (r: i8)
    ensures
        r == -1 ==> id_lt(a@, b@),
        r == 0 ==> a@ == b@,
        r == 1 ==> id_lt(b@, a@),
        r == -1 || r == 0 || r == 1,
{
    let c = bytes_cmp(a.address.bytes(), b.address.bytes());
    if c != 0 {
        return c;
    }
    let c2 = bytes_cmp(&a.name, &b.name);
    proof {
        if c2 == 0 {
            assert(a@ =~= b@);
        }
    }
    c2
}

// ----------------------------------------------------------------------
// Module blob codec.
//
// A module blob with address width `w` is laid out as:
//   [w bytes]  owner address of the module itself
//   [1 byte]   name length (below 128), then the name bytes
//   [1 byte]   count of referenced modules (below 128), then per reference:
//              [w bytes] address, [1 byte] name length (below 128), name
//   [rest]     instruction bytes, copied verbatim by every rewrite
// ----------------------------------------------------------------------

/// Parse one (address, name) identity at offset `off`; `Some` holds the
/// identity and the offset just past it.
pub open spec fn parse_id(s: Seq<u8>, w: int, off: int) -> Option<(IdView, int)> {
    if off + w + 1 <= s.len() && s[off + w] < 128
        && off + w + 1 + s[off + w] <= s.len() {
        Some((
            IdView {
                addr: s.subrange(off, off + w),
                name: s.subrange(off + w + 1, off + w + 1 + s[off + w]),
            },
            off + w + 1 + s[off + w],
        ))
    } else {
        None
    }
}

/// Parse `k` consecutive identities starting at `off`.
pub open spec fn parse_deps(s: Seq<u8>, w: int, off: int, k: nat) -> Option<(Seq<IdView>, int)>
    decreases k,
{
    if k == 0 {
        Some((Seq::empty(), off))
    } else {
        match parse_id(s, w, off) {
            None => None,
            Some((id, off2)) => match parse_deps(s, w, off2, (k - 1) as nat) {
                None => None,
                Some((rest, off3)) => Some((seq![id] + rest, off3)),
            },
        }
    }
}

/// Parse a whole module blob of address width `w`.
pub open spec fn parse_blob(s: Seq<u8>, w: int) -> Option<ModuleInfoV> {
    match parse_id(s, w, 0) {
        None => None,
        Some((id, off1)) => {
            if off1 + 1 <= s.len() && s[off1] < 128 {
                match parse_deps(s, w, off1 + 1, s[off1] as nat) {
                    None => None,
                    Some((deps, off2)) => Some(ModuleInfoV {
                        id,
                        deps,
                        code: s.skip(off2),
                        bytes: s,
                    }),
                }
            } else {
                None
            }
        },
    }
}

/// Serialized form of one identity: address, name length, name.
pub open spec fn id_blob(id: IdView) -> Seq<u8> {
    id.addr + seq![id.name.len() as u8] + id.name
}

/// Serialized form of a reference list, one identity after the other.
pub open spec fn deps_blob(deps: Seq<IdView>) -> Seq<u8>
    decreases deps.len(),
{
    if deps.len() == 0 {
        Seq::empty()
    } else {
        id_blob(deps[0]) + deps_blob(deps.skip(1))
    }
}

/// Serialized form of a whole module at address width `w` (the width is
/// fixed by the identities themselves; shown here for documentation).
pub open spec fn module_blob(id: IdView, deps: Seq<IdView>, code: Seq<u8>) -> Seq<u8> {
    id_blob(id) + seq![deps.len() as u8] + deps_blob(deps) + code
}

/// Copy a byte vector.
pub fn copy_bytes(v: &Vec<u8>) -> (r: Vec<u8>)
    ensures
        r@ == v@,
{
    let mut out: Vec<u8> = Vec::new();
    let mut i: usize = 0;
    while i < v.len()
        invariant
            0 <= i <= v@.len(),
            out@ == v@.take(i as int),
        decreases v@.len() - i,
    {
        out.push(v[i]);
        assert(out@ =~= v@.take(i + 1));
        i += 1;
    }
    assert(v@.take(v@.len() as int) =~= v@);
    out
}

/// Copy the byte range `[a, b)` of `v`.
pub fn sub_bytes(v: &Vec<u8>, a: usize, b: usize) -> (r: Vec<u8>)
    requires
        a <= b <= v@.len(),
    ensures
        r@ == v@.subrange(a as int, b as int),
{
    let mut out: Vec<u8> = Vec::new();
    let mut i: usize = a;
    while i < b
        invariant
            a <= i <= b <= v@.len(),
            out@ == v@.subrange(a as int, i as int),
        decreases b - i,
    {
        out.push(v[i]);
        assert(out@ =~= v@.subrange(a as int, i + 1));
        i += 1;
    }
    out
}

} // verus!
