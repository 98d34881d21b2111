use vstd::prelude::*;
use vstd::string::StringSliceAdditionalSpecFns;
use vstd::string::StrSliceExecFns;

verus! {

/// What a clean run removes.
#[derive(Clone, Copy, Debug, PartialEq, Eq, Structural)]
pub enum ClearType {
    /// Only the executor state: the storage directory and the build
    /// interface and package directories.
    State,
    /// The storage directory and the whole build directory.
    All,
}

impl Default for ClearType {
    /// Cleaning defaults to removing everything.
    fn default() -> (r: ClearType)
        ensures
            r == ClearType::All,
    {
        ClearType::All
    }
}

/// ASCII lower-casing of one byte.
pub open spec fn fold_byte(c: u8) -> u8 {
    if 65 <= c <= 90 {
        (c + 32) as u8
    } else {
        c
    }
}

/// Case-insensitive equality with the word `state`.
pub open spec fn is_state_word(s: Seq<u8>) -> bool {
    Seq::new(s.len(), |i: int| fold_byte(s[i])) == seq![115u8, 116u8, 97u8, 116u8, 101u8]
}

impl ClearType {
    /// Parse a clean mode: `state`, in any letter case, selects the
    /// executor-state clean; every other word means everything.
    pub fn from_str(s: &str) -> (r: ClearType)
        ensures
            r == ClearType::State <==> is_state_word(s.spec_bytes()),
    {
        let b = s.as_bytes_vec();
        let mut folded: Vec<u8> = Vec::new();
        let mut i: usize = 0;
        while i < b.len()
            invariant
                0 <= i <= b@.len(),
                folded@ == Seq::new(i as nat, |k: int| fold_byte(b@[k])),
            decreases b@.len() - i,
        {
            let c = b[i];
            if 65 <= c && c <= 90 {
                folded.push(c + 32);
            } else {
                folded.push(c);
            }
            proof {
                assert(folded@ =~= Seq::new((i + 1) as nat, |k: int| fold_byte(b@[k])));
            }
            i += 1;
        }
        let word: Vec<u8> = vec![115, 116, 97, 116, 101];
        proof {
            assert(folded@ =~= Seq::new(b@.len(), |k: int| fold_byte(b@[k])));
        }
        if crate::address::bytes_equal(&folded, &word) {
            ClearType::State
        } else {
            ClearType::All
        }
    }
}

/// The clean command: what to remove, and whether the global cache goes
/// too. Path removal itself is the caller's job; the command only
/// decides which project-relative directories fall.
pub struct Clean {
    pub clear_type: Option<ClearType>,
    pub global: bool,
}

impl Default for Clean {
    /// The default clean removes everything local.
    fn default() -> (r: Clean)
        ensures
            r.clear_type is None,
            !r.global,
    {
        Clean { clear_type: None, global: false }
    }
}

impl Clean {
    /// The project-relative directories this clean removes, in order.
    /// The executor-state clean keeps compiled artifacts; the full clean
    /// drops the whole build tree.
    pub fn apply(&self) -> (r: Vec<String>)
        ensures
            ({
                let ct = match self.clear_type {
                    Some(c) => c,
                    None => ClearType::All,
                };
                &&& (ct == ClearType::State ==> r@.len() == 3 && r@[0]@ == ("storage")@ && r@[1]@
                    == ("build/mv_interfaces")@ && r@[2]@ == ("build/package")@)
                &&& (ct == ClearType::All ==> r@.len() == 2 && r@[0]@ == ("storage")@ && r@[1]@ == (
                "build")@)
            }),
    {
        let ct = match self.clear_type {
            Some(c) => c,
            None => ClearType::All,
        };
        let mut out: Vec<String> = Vec::new();
        match ct {
            ClearType::State => {
                out.push("storage".to_owned());
                out.push("build/mv_interfaces".to_owned());
                out.push("build/package".to_owned());
            },
            ClearType::All => {
                out.push("storage".to_owned());
                out.push("build".to_owned());
            },
        }
        out
    }
}

/// May `c` appear in a project name? Letters, digits, underscore or
/// hyphen.
pub open spec fn is_name_byte(c: u8) -> bool {
    (48 <= c <= 57) || (65 <= c <= 90) || (97 <= c <= 122) || c == 95 || c == 45
}

/// Is this a valid project name: one to 64 name characters?
pub fn is_valid_name(text: &str) -> (r: bool)
    ensures
        r == (1 <= text.spec_bytes().len() <= 64 && forall|i: int|
            0 <= i < text.spec_bytes().len() ==> is_name_byte(#[trigger] text.spec_bytes()[i])),
{
    let b = text.as_bytes_vec();
    let n = b.len();
    if n < 1 || n > 64 {
        return false;
    }
    let mut i: usize = 0;
    while i < n
        invariant
            0 <= i <= n == b@.len(),
            forall|k: int| 0 <= k < i ==> is_name_byte(#[trigger] b@[k]),
        decreases n - i,
    {
        let c = b[i];
        let ok = (48 <= c && c <= 57) || (65 <= c && c <= 90) || (97 <= c && c <= 122) || c == 95
            || c == 45;
        if !ok {
            return false;
        }
        i += 1;
    }
    true
}

/// The directories a default clean removes: everything local.
pub fn run_dove_clean() -> (r: Vec<String>)
    ensures
        r@.len() == 2,
        r@[0]@ == ("storage")@,
        r@[1]@ == ("build")@,
{
    let cmd = Clean::default();
    cmd.apply()
}

} // verus!
