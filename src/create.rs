use vstd::prelude::*;

use crate::exec::Exec;
use crate::path::{is_prefix, Path};

verus! {

/// Options of the create command.
pub struct Opt {
    /// Create without asking, even where the path exists.
    pub force: bool,
}

impl From<Exec> for Opt {
    fn from(e: Exec) -> (r: Opt) {
        Opt { force: e.contains_name("force") }
    }
}

impl vstd::std_specs::convert::FromSpecImpl<Exec> for Opt {
    open spec fn obeys_from_spec() -> bool {
        true
    }

    open spec fn from_spec(e: Exec) -> Opt {
        Opt { force: e.named_view().dom().contains("force"@) }
    }
}

/// Whether creating over a path asks for confirmation first.
pub fn needs_confirm(opt: &Opt, exists: bool) -> (r: bool)
    ensures
        r == (!opt.force && exists),
{
    !opt.force && exists
}

/// Whether an answer to the overwrite prompt confirms it.
pub fn confirmed(answer: &String) -> (r: bool)
    ensures
        r == (answer@ == seq!['y'] || answer@ == seq!['Y']),
{
    let lower = "y";
    let upper = "Y";
    proof {
        reveal_strlit("y");
        reveal_strlit("Y");
        assert(lower@ =~= seq!['y']);
        assert(upper@ =~= seq!['Y']);
    }
    let y = lower.to_owned();
    let cap = upper.to_owned();
    *answer == y || *answer == cap
}

/// Whether the name typed asks for a directory: it ends with a separator.
pub fn is_dir_name(name: &Vec<u8>) -> (r: bool)
    ensures
        r == (name@.len() > 0 && name@.last() == 47u8),
{
    name.len() > 0 && name[name.len() - 1] == 47u8
}

/// The entry of `cwd` that a new `path` lies in: the path cut one level
/// below `cwd`.
pub fn created_child(cwd: &Path, path: &Path) -> (r: Path)
    requires
        is_prefix(cwd@, path@),
        cwd@.len() < path@.len(),
    ensures
        r@ == path@.subrange(0, cwd@.len() as int + 1),
{
    let mut comps: Vec<Vec<u8>> = Vec::new();
    let total = path.len();
    let n = cwd.len() + 1;
    assert(n <= total);
    let full = path.copy();
    let mut i: usize = 0;
    while i < n
        invariant
            n == cwd@.len() + 1,
            n <= full@.len(),
            full@ == path@,
            i <= n,
            crate::path::view_comps(comps@) == full@.subrange(0, i as int),
        decreases n - i,
    {
        let c = crate::path::copy_bytes(&full.comps[i]);
        let ghost before = comps@;
        comps.push(c);
        assert(crate::path::view_comps(comps@) =~= crate::path::view_comps(before).push(c@));
        i = i + 1;
        assert(crate::path::view_comps(comps@) =~= full@.subrange(0, i as int));
    }
    Path { comps }
}

} // verus!
