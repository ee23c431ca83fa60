//! Position numbers.
//!
//! A chapter's number is the number of its parent followed by the chapter's
//! index in its sibling list. The index counts every entry of the list, the
//! separators and part titles too, and starts at zero.

use vstd::prelude::*;
use crate::outline::{item_view, items_view, numbers_view, Item, ItemView, Node, NodeView};

verus! {

/// The item at index `i` of a sibling list numbered under `prefix`: a
/// chapter gets the number `prefix + [i]` and its children are numbered
/// under that number; a marker stays as it is.
pub open spec fn number_item(prefix: Seq<int>, i: int, item: ItemView) -> ItemView
    decreases item, 0nat,
{
    match item {
        ItemView::Node(n) => ItemView::Node(
            NodeView {
                position_number: prefix.push(i),
                children: assign_spec(prefix.push(i), n.children),
                ..n
            },
        ),
        ItemView::Separator => ItemView::Separator,
        ItemView::PartTitle(label) => ItemView::PartTitle(label),
    }
}

/// The sibling list `items` with every chapter in it, at any depth, numbered
/// under `prefix`.
pub open spec fn assign_spec(prefix: Seq<int>, items: Seq<ItemView>) -> Seq<ItemView>
    decreases items, 1nat,
{
    Seq::new(
        items.len(),
        |i: int|
            if 0 <= i < items.len() {
                number_item(prefix, i, items[i])
            } else {
                ItemView::Separator
            },
    )
}

/// Numbers the chapters of a sibling list, and all chapters below them,
/// under `prefix`.
pub fn assign(prefix: &Vec<usize>, items: &mut Vec<Item>)
    ensures
        items_view(final(items)@) == assign_spec(numbers_view(prefix@), items_view(old(items)@)),
    decreases *old(items),
{
    let len = items.len();
    let ghost p = numbers_view(prefix@);
    let ghost initial = items@;
    let mut i: usize = 0;
    while i < len
        invariant
            items.len() == len,
            initial.len() == len,
            initial == old(items)@,
            p == numbers_view(prefix@),
            i <= len,
            forall|j: int|
                0 <= j < i ==> item_view(#[trigger] items@[j]) == number_item(
                    p,
                    j,
                    item_view(initial[j]),
                ),
            forall|j: int| i <= j < len ==> #[trigger] items@[j] == initial[j],
        decreases len - i,
    {
        let ghost before = items@;
        match &mut items[i] {
            Item::Node(node) => {
                let mut number = prefix.clone();
                number.push(i);
                proof {
                    vstd::std_specs::vec::axiom_vec_index_decreases(*old(items), i as int);
                    assert(numbers_view(number@) =~= p.push(i as int));
                }
                assign(&number, &mut node.children);
                node.position_number = number;
            },
            _ => {},
        }
        proof {
            assert(forall|j: int| 0 <= j < len && j != i ==> items@[j] == before[j]);
        }
        i += 1;
    }
    assert(items_view(items@) =~= assign_spec(p, items_view(initial)));
}

/// Numbers every chapter below `parent` under the number that `parent`
/// holds. Nothing else changes, the order of the sibling lists least of all.
pub fn handle_index(parent: &mut Node)
    ensures
        final(parent)@ == (NodeView {
            children: assign_spec(old(parent)@.position_number, old(parent)@.children),
            ..old(parent)@
        }),
{
    let prefix = parent.position_number.clone();
    assign(&prefix, &mut parent.children);
}

} // verus!
