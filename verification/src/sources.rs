//! Which files of a source tree are scanned: the decision at each entry of the
//! walk. Reading the file system is left to the caller, which carries out each
//! step.

use vstd::prelude::*;
use crate::compiler::concat3;
use crate::text::text_eq;

verus! {

/// What the walk does with one entry of a source tree.
#[derive(Debug)]
pub enum SourceStep {
    /// The walk stops with this error.
    Reject(String),
    /// A directory: its entries are walked in turn.
    Descend,
    /// A Rust source file: it is scanned.
    Collect,
    /// Any other file: it is left alone.
    Skip,
}

pub open spec fn symlink_message(shown: Seq<char>) -> Seq<char> {
    "symlinked source "@ + shown + " is unsupported; use a real source path"@
}

/// The step for an entry shown as `shown`: a symbolic link is refused (the walk
/// follows no link, into `target/` or round a loop), a directory is descended,
/// and a file whose extension is `rs` is collected.
pub fn source_step(shown: &str, is_symlink: bool, is_dir: bool, extension: Option<&str>) -> (r: SourceStep)
    ensures
        is_symlink ==> (r matches SourceStep::Reject(m) && m@ == symlink_message(shown@)),
        !is_symlink && is_dir ==> r is Descend,
        !is_symlink && !is_dir ==> (r is Collect <==> (extension matches Some(e) && e@ == "rs"@)),
        !is_symlink && !is_dir && !(r is Collect) ==> r is Skip,
{
    if is_symlink {
        return SourceStep::Reject(
            concat3("symlinked source ", shown, " is unsupported; use a real source path"),
        );
    }
    if is_dir {
        return SourceStep::Descend;
    }
    match extension {
        Some(e) => if text_eq(e, "rs") {
            SourceStep::Collect
        } else {
            SourceStep::Skip
        },
        None => SourceStep::Skip,
    }
}

} // verus!
