//! The preprocessor: its name, the renderers it supports, and the run that
//! turns a listed source tree into the numbered outline.

use vstd::prelude::*;
use crate::names::str_eq;
use crate::numberer::{assign, assign_spec};
use crate::outline::{items_view, numbers_view, Item, ItemView};
use crate::source::{Entry, EntryView, WalkError, WalkErrorView};
use crate::tree::{visit_dirs_build, visit_dirs_build_spec};

verus! {

/// The outline of the source tree below `root`: the sibling lists that the
/// walk builds, numbered from the empty number down.
pub open spec fn outline_spec(root: EntryView) -> Result<Seq<ItemView>, WalkErrorView> {
    match visit_dirs_build_spec(root, Seq::empty(), Seq::empty()) {
        Ok(items) => Ok(assign_spec(Seq::empty(), items)),
        Err(e) => Err(e),
    }
}

/// The renderers that the preprocessor supports: all but `not-supported`.
pub open spec fn supports_renderer_spec(renderer: Seq<char>) -> bool {
    renderer != "not-supported"@
}

/// The preprocessor that writes the outline of a book from its source tree.
#[derive(Debug, Clone, Copy, PartialEq, Eq)]
pub struct SummaryGenerate;

impl SummaryGenerate {
    /// The preprocessor. It holds nothing: all it needs is handed to `run`.
    pub fn new() -> SummaryGenerate {
        SummaryGenerate {}
    }

    /// The name under which the preprocessor is configured.
    pub fn name(&self) -> (r: &str)
        ensures
            r@ == "summary-generate"@,
    {
        "summary-generate"
    }

    /// Whether the preprocessor supports the renderer of this name.
    pub fn supports_renderer(&self, renderer: &str) -> (r: bool)
        ensures
            r == supports_renderer_spec(renderer@),
    {
        !str_eq(renderer, "not-supported")
    }

    /// Builds the numbered outline of the source tree below `root`. The run
    /// fails with the first directory that had to be listed and could not
    /// be, and with nothing else.
    pub fn run(&self, root: &Entry) -> (r: Result<Vec<Item>, WalkError>)
        ensures
            match r {
                Ok(items) => outline_spec(root@) == Ok::<Seq<ItemView>, WalkErrorView>(
                    items_view(items@),
                ),
                Err(e) => outline_spec(root@) == Err::<Seq<ItemView>, WalkErrorView>(e@),
            },
    {
        let top: Vec<String> = Vec::new();
        let number: Vec<usize> = Vec::new();
        assert(top.deep_view() =~= Seq::<Seq<char>>::empty());
        assert(numbers_view(number@) =~= Seq::<int>::empty());
        match visit_dirs_build(root, &top, &top) {
            Ok(mut items) => {
                assign(&number, &mut items);
                Ok(items)
            },
            Err(e) => Err(e),
        }
    }
}

} // verus!
