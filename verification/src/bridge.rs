use vstd::prelude::*;

use crate::dialect::Dialect;
use crate::error::CoreError;
use crate::module::{IdView, ModuleId, parse_blob};
use crate::codec::{CANONICAL_WIDTH, blob_fits, retarget_blob};

verus! {

/// Ordered file-id → source-text mapping. Insertion order is the
/// compilation order; a file id is its insertion position and is never
/// reused, so error locations map back exactly.
pub struct SourceMap {
    names: Vec<Vec<u8>>,
    texts: Vec<Vec<u8>>,
}

impl View for SourceMap {
    type V = Seq<(Seq<u8>, Seq<u8>)>;

    closed spec fn view(&self) -> Seq<(Seq<u8>, Seq<u8>)> {
        Seq::new(self.names@.len(), |i: int| (self.names@[i]@, self.texts@[i]@))
    }
}

impl SourceMap {
    pub closed spec fn wf(&self) -> bool {
        self.names@.len() == self.texts@.len()
    }

    /// An empty map.
    pub fn new() -> (r: SourceMap)
        ensures
            r.wf(),
            r@.len() == 0,
    {
        SourceMap { names: Vec::new(), texts: Vec::new() }
    }

    /// Add one file; the returned id is its position, assigned strictly
    /// in insertion order.
    pub fn insert(&mut self, name: Vec<u8>, text: Vec<u8>) -> (id: usize)
        requires
            old(self).wf(),
        ensures
            final(self).wf(),
            id == old(self)@.len(),
            final(self)@ == old(self)@.push((name@, text@)),
    {
        let id = self.names.len();
        self.names.push(name);
        self.texts.push(text);
        proof {
            assert(self@ =~= old(self)@.push((name@, text@)));
        }
        id
    }

    pub fn len(&self) -> (n: usize)
        requires
            self.wf(),
        ensures
            n == self@.len(),
    {
        self.names.len()
    }

    /// The name of the file with this id; exact, never off by one.
    pub fn name_of(&self, id: usize) -> (r: &Vec<u8>)
        requires
            self.wf(),
            id < self@.len(),
        ensures
            r@ == self@[id as int].0,
    {
        &self.names[id]
    }

    /// The text of the file with this id.
    pub fn text_of(&self, id: usize) -> (r: &Vec<u8>)
        requires
            self.wf(),
            id < self@.len(),
        ensures
            r@ == self@[id as int].1,
    {
        &self.texts[id]
    }
}

/// How many line breaks the first `k` bytes of a text hold.
pub open spec fn newlines_before(text: Seq<u8>, k: int) -> nat
    decreases k,
{
    if k <= 0 {
        0
    } else {
        newlines_before(text, k - 1) + (if text[k - 1] == 10 {
            1nat
        } else {
            0nat
        })
    }
}

/// The offset where the line holding byte `off` begins.
pub open spec fn line_start(text: Seq<u8>, off: int) -> int
    decreases off,
{
    if off <= 0 {
        0
    } else if text[off - 1] == 10 {
        off
    } else {
        line_start(text, off - 1)
    }
}

/// A resolved source position: 1-based line, 0-based column.
pub struct LineCol {
    pub line: usize,
    pub col: usize,
}

/// Map a byte offset in a source text to its line and column; the
/// mapping is exact, so diagnostics point where the compiler meant.
pub fn locate(text: &Vec<u8>, off: usize) -> (r: LineCol)
    requires
        off <= text@.len(),
        text@.len() < 0xffff_ffff,
    ensures
        r.line == newlines_before(text@, off as int) + 1,
        r.col == off - line_start(text@, off as int),
{
    let mut line: usize = 1;
    let mut start: usize = 0;
    let mut i: usize = 0;
    while i < off
        invariant
            0 <= i <= off <= text@.len(),
            text@.len() < 0xffff_ffff,
            line == newlines_before(text@, i as int) + 1,
            start == line_start(text@, i as int),
            line <= i + 1,
            start <= i,
        decreases off - i,
    {
        if text[i] == 10 {
            line += 1;
            start = i + 1;
        }
        i += 1;
    }
    LineCol { line, col: off - start }
}

/// Per-build memo of the compiler's module-resolution callbacks: what
/// was already resolved, and what is known absent, within one build run.
/// It is torn down with the build; cross-build caching is the store's
/// job.
pub struct InternTable {
    found: crate::resolver::Store,
    absent: Vec<ModuleId>,
}

impl InternTable {
    pub closed spec fn wf(&self) -> bool {
        self.found.wf()
    }

    /// What is memoized as present.
    pub closed spec fn known(&self) -> Map<IdView, Seq<u8>> {
        self.found@
    }

    /// Which identities are memoized as absent.
    pub closed spec fn misses(&self) -> Seq<IdView> {
        crate::resolver::key_views(self.absent@)
    }

    pub fn new() -> (r: InternTable)
        ensures
            r.wf(),
            r.known() == Map::<IdView, Seq<u8>>::empty(),
            r.misses().len() == 0,
    {
        InternTable { found: crate::resolver::Store::new(), absent: Vec::new() }
    }

    /// Memoize a resolution result.
    pub fn record(&mut self, id: ModuleId, bytes: Option<Vec<u8>>)
        requires
            old(self).wf(),
        ensures
            final(self).wf(),
            bytes matches Some(b) ==> final(self).known() == old(self).known().insert(id@, b@)
                && final(self).misses() == old(self).misses(),
            bytes is None ==> final(self).known() == old(self).known() && final(self).misses()
                == old(self).misses().push(id@),
    {
        match bytes {
            Some(b) => {
                self.found.put(id, b);
            },
            None => {
                self.absent.push(id);
                proof {
                    assert(crate::resolver::key_views(self.absent@) =~= crate::resolver::key_views(
                        old(self).absent@,
                    ).push(id@));
                }
            },
        }
    }

    /// Was this identity memoized as resolved?
    pub fn resolved(&self, id: &ModuleId) -> (r: bool)
        requires
            self.wf(),
        ensures
            r == self.known().contains_key(id@),
    {
        self.found.get(id).is_some()
    }

    /// Look a memoized identity up: hit, known miss, or unknown.
    pub fn lookup(&self, id: &ModuleId) -> (r: Option<Option<Vec<u8>>>)
        requires
            self.wf(),
        ensures
            r matches Some(Some(b)) ==> self.known().contains_key(id@) && b@ == self.known()[id@],
            r matches Some(None) ==> self.misses().contains(id@) && !self.known().contains_key(
                id@,
            ),
            r is None ==> !self.known().contains_key(id@),
    {
        match self.found.get(id) {
            Some(b) => Some(Some(b)),
            None => {
                let mut i: usize = 0;
                while i < self.absent.len()
                    invariant
                        0 <= i <= self.absent@.len(),
                    decreases self.absent@.len() - i,
                {
                    if self.absent[i].equals(id) {
                        proof {
                            assert(crate::resolver::key_views(self.absent@)[i as int] == id@);
                        }
                        return Some(None);
                    }
                    i += 1;
                }
                None
            },
        }
    }
}

/// When the frontend reports a symbol as unresolved, hold that against
/// the build's memo: a symbol the memo never saw resolved is a genuine
/// unresolved dependency and aborts the build; mere loader absence that
/// the compiler never missed is not an error.
pub fn confirm_resolved(table: &InternTable, id: &ModuleId) -> (r: Result<(), CoreError>)
    requires
        table.wf(),
    ensures
        r is Ok <==> table.known().contains_key(id@),
        r matches Err(e) ==> e == CoreError::UnresolvedDependency,
{
    if table.resolved(id) {
        Ok(())
    } else {
        Err(CoreError::UnresolvedDependency)
    }
}

/// What one build works on: the dialect, the sender address and the
/// sources, bundled once per request and torn down with it.
pub struct ProjectData {
    pub dialect: Dialect,
    pub address: crate::address::Address,
    pub source_map: SourceMap,
}

impl ProjectData {
    /// Assemble project data from a dialect name, an address literal and
    /// the sources.
    pub fn from(dialect: &str, addr: &str, source_map: SourceMap) -> (r: Result<
        ProjectData,
        CoreError,
    >)
        requires
            source_map.wf(),
        ensures
            r is Ok <==> crate::dialect::dialect_of_name(
                vstd::string::StringSliceAdditionalSpecFns::spec_bytes(dialect),
            ) is Some && crate::address::valid_hex_literal(
                vstd::string::StringSliceAdditionalSpecFns::spec_bytes(addr),
            ),
            r matches Ok(p) ==> {
                &&& Some(p.dialect) == crate::dialect::dialect_of_name(
                    vstd::string::StringSliceAdditionalSpecFns::spec_bytes(dialect),
                )
                &&& p.address@ == crate::address::addr_of_hex(
                    vstd::string::StringSliceAdditionalSpecFns::spec_bytes(addr).skip(2),
                )
                &&& p.source_map@ == source_map@
            },
            r matches Err(e) ==> e == CoreError::InvalidAddress,
    {
        let d = match Dialect::by_name(dialect) {
            Ok(d) => d,
            Err(e) => {
                return Err(e);
            },
        };
        let a = match crate::address::Address::from_hex_literal(addr) {
            Ok(a) => a,
            Err(e) => {
                return Err(e);
            },
        };
        Ok(ProjectData { dialect: d, address: a, source_map })
    }
}

/// One compiled unit the frontend hands back: its name, the source-map
/// entry it came from, and its canonical bytecode.
pub struct CompiledUnit {
    pub name: Vec<u8>,
    pub source: Vec<u8>,
    pub bytecode: Vec<u8>,
}

/// Does a compiled unit come from this source entry under this name?
pub open spec fn unit_matches(name: Seq<u8>, source: Seq<u8>, want_name: Seq<u8>,
    want_source: Seq<u8>) -> bool {
    name == want_name && source == want_source
}

/// Select the compiled script unit that the chosen candidate names: the
/// unit whose name and source entry both match. When the build produced
/// no such unit the script could not be compiled, which is fatal.
pub fn find_unit(units: &Vec<CompiledUnit>, want_name: &Vec<u8>, want_source: &Vec<u8>) -> (r:
    Result<usize, CoreError>)
    ensures
        r matches Ok(i) ==> i < units@.len() && unit_matches(
            units@[i as int].name@,
            units@[i as int].source@,
            want_name@,
            want_source@,
        ) && forall|j: int|
            0 <= j < i ==> !unit_matches(
                (#[trigger] units@[j]).name@,
                units@[j].source@,
                want_name@,
                want_source@,
            ),
        r is Err <==> (forall|j: int|
            0 <= j < units@.len() ==> !unit_matches(
                (#[trigger] units@[j]).name@,
                units@[j].source@,
                want_name@,
                want_source@,
            )),
        r matches Err(e) ==> e == CoreError::NoMatchingCandidate,
{
    let mut i: usize = 0;
    while i < units.len()
        invariant
            0 <= i <= units@.len(),
            forall|j: int|
                0 <= j < i ==> !unit_matches(
                    (#[trigger] units@[j]).name@,
                    units@[j].source@,
                    want_name@,
                    want_source@,
                ),
        decreases units@.len() - i,
    {
        if crate::address::bytes_equal(&units[i].name, want_name) && crate::address::bytes_equal(
            &units[i].source,
            want_source,
        ) {
            return Ok(i);
        }
        i += 1;
    }
    Err(CoreError::NoMatchingCandidate)
}

/// The tail of a build: rewrite every compiled unit's bytecode for the
/// target chain. The frontend's units come in; the chain-native blobs
/// come out, names kept, order kept. Any unit that cannot be rewritten
/// aborts the whole build.
pub fn build(dialect: &Dialect, units: Vec<CompiledUnit>) -> (r: Result<
    Vec<CompiledUnit>,
    CoreError,
>)
    ensures
        r is Ok <==> forall|i: int|
            0 <= i < units@.len() ==> (parse_blob(
                (#[trigger] units@[i]).bytecode@,
                CANONICAL_WIDTH as int,
            ) matches Some(m) && blob_fits(m, dialect.spec_target_width())),
        r matches Ok(out) ==> out@.len() == units@.len() && forall|i: int|
            0 <= i < out@.len() ==> (#[trigger] out@[i]).name@ == units@[i].name@
                && out@[i].source@ == units@[i].source@ && out@[i].bytecode@ == retarget_blob(
                parse_blob(units@[i].bytecode@, CANONICAL_WIDTH as int).unwrap(),
                dialect.spec_target_width(),
            ),
{
    let ghost uv = units@;
    let mut units = units;
    let mut out: Vec<CompiledUnit> = Vec::new();
    while units.len() > 0
        invariant
            out@.len() + units@.len() == uv.len(),
            forall|k: int| 0 <= k < units@.len() ==> #[trigger] units@[k] == uv[out@.len() + k],
            forall|i: int| 0 <= i < out@.len() ==> (parse_blob(
                (#[trigger] uv[i]).bytecode@,
                CANONICAL_WIDTH as int,
            ) matches Some(m) && blob_fits(m, dialect.spec_target_width())),
            forall|i: int| 0 <= i < out@.len() ==> (#[trigger] out@[i]).name@ == uv[i].name@
                && out@[i].source@ == uv[i].source@ && out@[i].bytecode@ == retarget_blob(
                parse_blob(uv[i].bytecode@, CANONICAL_WIDTH as int).unwrap(),
                dialect.spec_target_width(),
            ),
        decreases units@.len(),
    {
        let ghost before = units@;
        let u = units.remove(0);
        proof {
            assert(u == uv[out@.len() as int]);
            assert forall|k: int| 0 <= k < units@.len() implies #[trigger] units@[k] == uv[out@.len()
                + 1 + k] by {
                assert(units@[k] == before[k + 1]);
            }
        }
        let adapted = match dialect.adapt_to_target(&u.bytecode) {
            Ok(b) => b,
            Err(e) => {
                return Err(e);
            },
        };
        out.push(CompiledUnit { name: u.name, source: u.source, bytecode: adapted });
    }
    Ok(out)
}

} // verus!
