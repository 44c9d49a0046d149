use vstd::prelude::*;

use crate::exec::Exec;
use crate::path::{parent_of, Path};

verus! {

/// Options of the command that reveals a path: the path to show.
pub struct Opt {
    pub target: Path,
}

impl From<Path> for Opt {
    fn from(target: Path) -> (r: Opt) {
        Opt { target }
    }
}

impl vstd::std_specs::convert::FromSpecImpl<Path> for Opt {
    open spec fn obeys_from_spec() -> bool {
        true
    }

    open spec fn from_spec(target: Path) -> Opt {
        Opt { target }
    }
}

/// A tab of the browser, showing one directory.
pub struct Tab {
    pub cwd: Path,
}

/// What revealing a path asks of the rest of the application: list `target`
/// in `parent` (as a placeholder until it is read) and hover it.
#[derive(Debug)]
pub struct Revealed {
    pub parent: Path,
    pub target: Path,
}

impl Tab {
    /// The command that reveals `target` (given in its display form).
    pub fn _reveal(target: &str) -> (r: Exec)
        ensures
            r.wf(),
            r.cmd@ == "reveal"@,
            r.args@.len() == 1,
            r.args@[0]@ == target@,
            r.named_view().dom().len() == 0,
    {
        let mut args: Vec<String> = Vec::new();
        args.push(target.to_owned());
        Exec::call("reveal", args)
    }

    /// Moves the tab into the parent of the target and says what to show.
    /// The root has no parent: nothing happens then.
    pub fn reveal_path(&mut self, opt: Opt) -> (r: Option<Revealed>)
        ensures
            opt.target@.len() == 0 ==> r.is_none() && final(self).cwd@ == old(self).cwd@,
            opt.target@.len() > 0 ==> {
                &&& r.is_some()
                &&& final(self).cwd@ == parent_of(opt.target@)
                &&& r.unwrap().parent@ == parent_of(opt.target@)
                &&& r.unwrap().target@ == opt.target@
            },
    {
        if opt.target.len() == 0 {
            return None;
        }
        let parent = opt.target.parent_or_self();
        self.cwd = parent.copy();
        Some(Revealed { parent, target: opt.target })
    }
}

} // verus!
