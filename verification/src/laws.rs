//! What holds of every outline, stated over the specifications of the
//! other modules and proved from them.

use vstd::prelude::*;
use crate::names::{has_md_extension_spec, trim_number_spec};
use crate::numberer::assign_spec;
use crate::outline::{ItemView, NodeView};
use crate::preprocessor::outline_spec;
use crate::sorter::{
    category_before, group_spec, is_sorted, is_stable_sort_of, lemma_named_has,
    lemma_named_member, lemma_sort_spec, named, node_lt, reorder_spec, sort_spec,
};
use crate::source::{EntryKindView, EntryView};
use crate::tree::{
    build_children_spec, build_entry_spec, create_chapter_spec, get_content_from_index_spec,
    index_candidates, is_chapter_file_spec, is_skipped_dir_spec, load_index_spec, resolve_from,
    visit_dirs_build_spec,
};

verus! {

// ---------------------------------------------------------------------------
// Sorting and grouping keep the chapters
// ---------------------------------------------------------------------------

/// Sorting neither adds a sibling nor loses one.
pub proof fn lemma_sort_keeps_members(s: Seq<NodeView>, x: NodeView)
    ensures
        sort_spec(s).contains(x) <==> s.contains(x),
{
    lemma_sort_spec(s);
    let r = sort_spec(s);
    let k = x.file_name();
    assert(named(r, k) == named(s, k));
    if r.contains(x) {
        let i = choose|i: int| 0 <= i < r.len() && r[i] == x;
        lemma_named_has(r, i);
        let j = choose|j: int| 0 <= j < named(r, k).len() && named(r, k)[j] == x;
        lemma_named_member(s, k, j);
    }
    if s.contains(x) {
        let i = choose|i: int| 0 <= i < s.len() && s[i] == x;
        lemma_named_has(s, i);
        let j = choose|j: int| 0 <= j < named(s, k).len() && named(s, k)[j] == x;
        lemma_named_member(r, k, j);
    }
}

/// The chapters of a grouped list are the siblings that were grouped, in
/// their order: grouping only puts markers between them.
pub open spec fn chapters_of(items: Seq<ItemView>) -> Seq<NodeView>
    decreases items.len(),
{
    if items.len() == 0 {
        Seq::empty()
    } else {
        match items.last() {
            ItemView::Node(n) => chapters_of(items.drop_last()).push(n),
            _ => chapters_of(items.drop_last()),
        }
    }
}

proof fn lemma_chapters_of_push(items: Seq<ItemView>, item: ItemView)
    ensures
        chapters_of(items.push(item)) == match item {
            ItemView::Node(n) => chapters_of(items).push(n),
            _ => chapters_of(items),
        },
{
    assert(items.push(item).drop_last() =~= items);
}

/// Grouping keeps the siblings and their order.
pub proof fn lemma_group_keeps_chapters(s: Seq<NodeView>)
    ensures
        chapters_of(group_spec(s)) == s,
    decreases s.len(),
{
    if s.len() == 0 {
        assert(s =~= Seq::<NodeView>::empty());
    } else {
        let init = s.drop_last();
        let node = s.last();
        lemma_group_keeps_chapters(init);
        let g = group_spec(init);
        if node.tag() != category_before(s, s.len() - 1) {
            let title = ItemView::PartTitle(trim_number_spec(node.tag()));
            assert(group_spec(s) =~= g.push(ItemView::Separator).push(title).push(
                ItemView::Node(node),
            ));
            lemma_chapters_of_push(g, ItemView::Separator);
            lemma_chapters_of_push(g.push(ItemView::Separator), title);
            lemma_chapters_of_push(g.push(ItemView::Separator).push(title), ItemView::Node(node));
        } else {
            lemma_chapters_of_push(g, ItemView::Node(node));
        }
        assert(init.push(node) =~= s);
    }
}

/// Every chapter of a list is among `chapters_of` it.
pub proof fn lemma_chapters_of_has(items: Seq<ItemView>, i: int)
    requires
        0 <= i < items.len(),
        items[i] is Node,
    ensures
        chapters_of(items).contains(items[i]->Node_0),
    decreases items.len(),
{
    let init = items.drop_last();
    if i == items.len() - 1 {
        assert(chapters_of(items)[chapters_of(init).len() as int] == items[i]->Node_0);
    } else {
        lemma_chapters_of_has(init, i);
        let x = items[i]->Node_0;
        let j = choose|j: int| 0 <= j < chapters_of(init).len() && chapters_of(init)[j] == x;
        match items.last() {
            ItemView::Node(n) => {
                assert(chapters_of(items)[j] == x);
            },
            _ => {},
        }
    }
}

/// Every chapter of the final sibling list of a directory is one of the
/// chapters that were handed to the sorter.
pub proof fn lemma_reorder_keeps_chapters(children: Seq<NodeView>, i: int)
    requires
        0 <= i < reorder_spec(children).len(),
        reorder_spec(children)[i] is Node,
    ensures
        children.contains(reorder_spec(children)[i]->Node_0),
{
    let sorted = sort_spec(children);
    lemma_group_keeps_chapters(sorted);
    lemma_chapters_of_has(reorder_spec(children), i);
    lemma_sort_keeps_members(children, reorder_spec(children)[i]->Node_0);
}

// ---------------------------------------------------------------------------
// Nothing comes from a skipped directory
// ---------------------------------------------------------------------------

/// No segment of the path names a directory that the walk passes over.
pub open spec fn path_avoids_skipped(path: Seq<Seq<char>>) -> bool {
    forall|i: int| 0 <= i < path.len() ==> !is_skipped_dir_spec(#[trigger] path[i])
}

/// The item, if it is a chapter, has its text from a path outside every
/// skipped directory, and so have all chapters below it.
pub open spec fn item_avoids_skipped(item: ItemView) -> bool
    decreases item,
{
    match item {
        ItemView::Node(n) => path_avoids_skipped(n.source_path) && items_avoid_skipped(
            n.children,
        ),
        _ => true,
    }
}

/// All chapters of the list, at any depth, have their text from paths
/// outside every skipped directory.
pub open spec fn items_avoid_skipped(items: Seq<ItemView>) -> bool
    decreases items,
{
    forall|i: int| 0 <= i < items.len() ==> item_avoids_skipped(#[trigger] items[i])
}

proof fn lemma_md_name_not_skipped(name: Seq<char>)
    requires
        has_md_extension_spec(name),
    ensures
        !is_skipped_dir_spec(name),
{
    reveal_strlit("book");
    reveal_strlit("images");
    if name == "book"@ {
        assert(name[name.len() - 1] == 'k');
    }
    if name == "images"@ {
        assert(name[name.len() - 1] == 's');
    }
}

proof fn lemma_index_name_not_skipped(entries: Seq<EntryView>, candidates: Seq<Seq<char>>)
    requires
        forall|i: int| 0 <= i < candidates.len() ==> has_md_extension_spec(#[trigger] candidates[i]),
    ensures
        resolve_from(entries, candidates) matches Some((file, _)) ==> !is_skipped_dir_spec(file),
    decreases candidates.len(),
{
    if candidates.len() > 0 {
        lemma_md_name_not_skipped(candidates[0]);
        let rest = candidates.drop_first();
        assert forall|i: int| 0 <= i < rest.len() implies has_md_extension_spec(
            #[trigger] rest[i],
        ) by {
            assert(rest[i] == candidates[i + 1]);
        }
        lemma_index_name_not_skipped(entries, rest);
    }
}

proof fn lemma_candidates_are_md()
    ensures
        forall|i: int|
            0 <= i < index_candidates().len() ==> has_md_extension_spec(
                #[trigger] index_candidates()[i],
            ),
{
    reveal_strlit("INDEX.md");
    reveal_strlit("README.md");
    reveal_strlit("index.md");
    reveal_strlit("readme.md");
}

proof fn lemma_chapter_path_avoids_skipped(
    entry: EntryView,
    relative: Seq<Seq<char>>,
    ancestors: Seq<Seq<char>>,
)
    requires
        path_avoids_skipped(relative),
        !is_skipped_dir_spec(entry.name),
    ensures
        path_avoids_skipped(create_chapter_spec(entry, relative, ancestors).source_path),
{
    let path = relative.push(entry.name);
    assert(path_avoids_skipped(path)) by {
        assert forall|i: int| 0 <= i < path.len() implies !is_skipped_dir_spec(
            #[trigger] path[i],
        ) by {
            if i < relative.len() {
                assert(path[i] == relative[i]);
            }
        }
    }
    if let EntryKindView::Dir(entries) = entry.kind {
        lemma_candidates_are_md();
        lemma_index_name_not_skipped(entries, index_candidates());
        let source = get_content_from_index_spec(entries, path).1;
        assert forall|i: int| 0 <= i < source.len() implies !is_skipped_dir_spec(
            #[trigger] source[i],
        ) by {
            if i < path.len() {
                assert(source[i] == path[i]);
            }
        }
    }
}

proof fn lemma_reorder_avoids_skipped(children: Seq<NodeView>)
    requires
        forall|i: int|
            0 <= i < children.len() ==> item_avoids_skipped(ItemView::Node(#[trigger] children[i])),
    ensures
        items_avoid_skipped(reorder_spec(children)),
{
    let items = reorder_spec(children);
    assert forall|i: int| 0 <= i < items.len() implies item_avoids_skipped(#[trigger] items[i]) by {
        if items[i] is Node {
            lemma_reorder_keeps_chapters(children, i);
            let x = items[i]->Node_0;
            let j = choose|j: int| 0 <= j < children.len() && children[j] == x;
            assert(item_avoids_skipped(ItemView::Node(children[j])));
        }
    }
}

proof fn lemma_entry_avoids_skipped(
    entry: EntryView,
    relative: Seq<Seq<char>>,
    ancestors: Seq<Seq<char>>,
)
    requires
        path_avoids_skipped(relative),
    ensures
        build_entry_spec(entry, relative, ancestors) matches Ok(Some(n)) ==> item_avoids_skipped(
            ItemView::Node(n),
        ),
    decreases entry, 0nat,
{
    match entry.kind {
        EntryKindView::File(_) => {
            if is_chapter_file_spec(entry.name) {
                lemma_md_name_not_skipped(entry.name);
                lemma_chapter_path_avoids_skipped(entry, relative, ancestors);
            }
        },
        EntryKindView::Unreadable(_) => {},
        EntryKindView::Dir(entries) => {
            if !is_skipped_dir_spec(entry.name) {
                lemma_chapter_path_avoids_skipped(entry, relative, ancestors);
                let node = create_chapter_spec(entry, relative, ancestors);
                let below = relative.push(entry.name);
                assert(path_avoids_skipped(below)) by {
                    assert forall|i: int| 0 <= i < below.len() implies !is_skipped_dir_spec(
                        #[trigger] below[i],
                    ) by {
                        if i < relative.len() {
                            assert(below[i] == relative[i]);
                        }
                    }
                }
                lemma_children_avoid_skipped(entries, below, ancestors.push(node.name));
                if let Ok(children) = build_children_spec(
                    entries,
                    below,
                    ancestors.push(node.name),
                ) {
                    lemma_reorder_avoids_skipped(children);
                }
            }
        },
    }
}

proof fn lemma_children_avoid_skipped(
    entries: Seq<EntryView>,
    relative: Seq<Seq<char>>,
    ancestors: Seq<Seq<char>>,
)
    requires
        path_avoids_skipped(relative),
    ensures
        build_children_spec(entries, relative, ancestors) matches Ok(nodes) ==> forall|i: int|
            0 <= i < nodes.len() ==> item_avoids_skipped(ItemView::Node(#[trigger] nodes[i])),
    decreases entries, 1nat,
{
    if entries.len() > 0 {
        lemma_children_avoid_skipped(entries.drop_last(), relative, ancestors);
        lemma_entry_avoids_skipped(entries.last(), relative, ancestors);
    }
}

proof fn lemma_assign_avoids_skipped(prefix: Seq<int>, items: Seq<ItemView>)
    requires
        items_avoid_skipped(items),
    ensures
        items_avoid_skipped(assign_spec(prefix, items)),
    decreases items,
{
    let numbered = assign_spec(prefix, items);
    assert forall|i: int| 0 <= i < numbered.len() implies item_avoids_skipped(
        #[trigger] numbered[i],
    ) by {
        assert(item_avoids_skipped(items[i]));
        if let ItemView::Node(n) = items[i] {
            lemma_assign_avoids_skipped(prefix.push(i), n.children);
        }
    }
}

/// No chapter of an outline, at any depth, has its text from within a
/// directory named `book` or `images`: no segment of its source path is
/// such a name.
pub proof fn lemma_outline_avoids_skipped(root: EntryView)
    ensures
        outline_spec(root) matches Ok(items) ==> items_avoid_skipped(items),
{
    let top = Seq::<Seq<char>>::empty();
    if let Ok(items) = visit_dirs_build_spec(root, top, top) {
        if !is_skipped_dir_spec(root.name) {
            if let EntryKindView::Dir(entries) = root.kind {
                lemma_children_avoid_skipped(entries, top, top);
                lemma_reorder_avoids_skipped(build_children_spec(entries, top, top)->Ok_0);
            }
        }
        lemma_assign_avoids_skipped(Seq::empty(), items);
    }
}

// ---------------------------------------------------------------------------
// The index file
// ---------------------------------------------------------------------------

/// A directory that holds `INDEX.md` has its text from that file, whatever
/// else it holds.
pub proof fn lemma_index_md_comes_first(entries: Seq<EntryView>, relative: Seq<Seq<char>>)
    requires
        load_index_spec(entries, "INDEX.md"@) is Some,
    ensures
        get_content_from_index_spec(entries, relative) == (
            load_index_spec(entries, "INDEX.md"@)->Some_0,
            relative.push("INDEX.md"@),
        ),
{
}

// ---------------------------------------------------------------------------
// Numbering
// ---------------------------------------------------------------------------

/// Every chapter of the list has the number `prefix` followed by its index
/// in the list, and the chapters below it are numbered under that number.
pub open spec fn item_numbered_under(item: ItemView, prefix: Seq<int>, i: int) -> bool
    decreases item,
{
    match item {
        ItemView::Node(n) => n.position_number == prefix.push(i) && items_numbered_under(
            n.children,
            n.position_number,
        ),
        _ => true,
    }
}

pub open spec fn items_numbered_under(items: Seq<ItemView>, prefix: Seq<int>) -> bool
    decreases items,
{
    forall|i: int| 0 <= i < items.len() ==> item_numbered_under(#[trigger] items[i], prefix, i)
}

/// Every chapter of the list has a number of `depth` places, and every
/// chapter below it one place more for each level.
pub open spec fn item_numbered_at(item: ItemView, depth: nat) -> bool
    decreases item,
{
    match item {
        ItemView::Node(n) => n.position_number.len() == depth && items_numbered_at(
            n.children,
            depth + 1,
        ),
        _ => true,
    }
}

pub open spec fn items_numbered_at(items: Seq<ItemView>, depth: nat) -> bool
    decreases items,
{
    forall|i: int| 0 <= i < items.len() ==> item_numbered_at(#[trigger] items[i], depth)
}

/// The item without its number, and without the numbers below it.
pub open spec fn unnumbered_item(item: ItemView) -> ItemView
    decreases item,
{
    match item {
        ItemView::Node(n) => ItemView::Node(
            NodeView { position_number: Seq::empty(), children: unnumbered(n.children), ..n },
        ),
        ItemView::Separator => ItemView::Separator,
        ItemView::PartTitle(label) => ItemView::PartTitle(label),
    }
}

/// The list without any number in it.
pub open spec fn unnumbered(items: Seq<ItemView>) -> Seq<ItemView>
    decreases items,
{
    Seq::new(
        items.len(),
        |i: int|
            if 0 <= i < items.len() {
                unnumbered_item(items[i])
            } else {
                ItemView::Separator
            },
    )
}

/// After numbering, each chapter's number is its parent's number followed
/// by the chapter's index among all entries of its sibling list.
pub proof fn lemma_assign_numbers_under(prefix: Seq<int>, items: Seq<ItemView>)
    ensures
        items_numbered_under(assign_spec(prefix, items), prefix),
    decreases items,
{
    let numbered = assign_spec(prefix, items);
    assert forall|i: int| 0 <= i < numbered.len() implies item_numbered_under(
        #[trigger] numbered[i],
        prefix,
        i,
    ) by {
        if let ItemView::Node(n) = items[i] {
            lemma_assign_numbers_under(prefix.push(i), n.children);
        }
    }
}

/// A list numbered under `prefix` has numbers one place longer than
/// `prefix`, and one place more with each level below.
pub proof fn lemma_numbered_under_has_depth(items: Seq<ItemView>, prefix: Seq<int>)
    requires
        items_numbered_under(items, prefix),
    ensures
        items_numbered_at(items, prefix.len() + 1),
    decreases items,
{
    assert forall|i: int| 0 <= i < items.len() implies item_numbered_at(
        #[trigger] items[i],
        prefix.len() + 1,
    ) by {
        assert(item_numbered_under(items[i], prefix, i));
        if let ItemView::Node(n) = items[i] {
            lemma_numbered_under_has_depth(n.children, n.position_number);
        }
    }
}

/// Numbering changes the numbers and nothing else: the entries, their
/// order and all that the chapters hold stay as they were.
pub proof fn lemma_assign_changes_numbers_only(prefix: Seq<int>, items: Seq<ItemView>)
    ensures
        unnumbered(assign_spec(prefix, items)) == unnumbered(items),
        assign_spec(prefix, items).len() == items.len(),
    decreases items,
{
    let numbered = assign_spec(prefix, items);
    assert forall|i: int| 0 <= i < items.len() implies unnumbered_item(numbered[i])
        == unnumbered_item(items[i]) by {
        if let ItemView::Node(n) = items[i] {
            lemma_assign_changes_numbers_only(prefix.push(i), n.children);
        }
    }
    assert(unnumbered(numbered) =~= unnumbered(items));
}

/// In an outline the number of a chapter has as many places as the chapter
/// is deep: one at the top, one more with each level.
pub proof fn lemma_outline_numbers_have_depth(root: EntryView)
    ensures
        outline_spec(root) matches Ok(items) ==> items_numbered_at(items, 1) && items_numbered_under(
            items,
            Seq::empty(),
        ),
{
    if let Ok(items) = visit_dirs_build_spec(root, Seq::empty(), Seq::empty()) {
        lemma_assign_numbers_under(Seq::empty(), items);
        lemma_numbered_under_has_depth(assign_spec(Seq::empty(), items), Seq::empty());
    }
}

// ---------------------------------------------------------------------------
// Group boundaries
// ---------------------------------------------------------------------------

/// The category in force at index `i` of a sibling list: the tag of the
/// last chapter before `i`, and the empty tag where there is none.
pub open spec fn category_at(items: Seq<ItemView>, i: int) -> Seq<char>
    decreases i,
{
    if i <= 0 || i > items.len() {
        Seq::empty()
    } else {
        match items[i - 1] {
            ItemView::Node(n) => n.tag(),
            _ => category_at(items, i - 1),
        }
    }
}

/// A group opens at index `i`: a separator, then the part title, then the
/// first chapter of a category that is not the one in force. The title is
/// the chapter's category tag without its ordering prefix.
pub open spec fn opens_group(items: Seq<ItemView>, i: int) -> bool {
    &&& 0 <= i
    &&& i + 2 < items.len()
    &&& items[i] is Separator
    &&& items[i + 1] is PartTitle
    &&& items[i + 2] is Node
    &&& items[i + 1]->PartTitle_0 == trim_number_spec(items[i + 2]->Node_0.tag())
    &&& items[i + 2]->Node_0.tag() != category_at(items, i)
}

/// The entry at `i` is one of the three that open a group, or a chapter
/// that follows a chapter, or stands first, in the category in force.
pub open spec fn well_grouped_at(items: Seq<ItemView>, i: int) -> bool {
    match items[i] {
        ItemView::Separator => opens_group(items, i),
        ItemView::PartTitle(_) => opens_group(items, i - 1),
        ItemView::Node(n) => {
            ||| opens_group(items, i - 2)
            ||| (n.tag() == category_at(items, i) && (i == 0 || items[i - 1] is Node))
        },
    }
}

/// Every separator and part title of the list belongs to the opening of a
/// group, and every chapter either opens a group or continues one.
pub open spec fn well_grouped(items: Seq<ItemView>) -> bool {
    forall|i: int| 0 <= i < items.len() ==> #[trigger] well_grouped_at(items, i)
}

proof fn lemma_category_at_prefix(a: Seq<ItemView>, b: Seq<ItemView>, i: int)
    requires
        i <= a.len(),
    ensures
        category_at(a + b, i) == category_at(a, i),
    decreases i,
{
    if i > 0 {
        assert((a + b)[i - 1] == a[i - 1]);
        lemma_category_at_prefix(a, b, i - 1);
    }
}

proof fn lemma_well_grouped_prefix(a: Seq<ItemView>, b: Seq<ItemView>, i: int)
    requires
        0 <= i < a.len(),
        well_grouped_at(a, i),
    ensures
        well_grouped_at(a + b, i),
{
    let ab = a + b;
    assert forall|j: int| 0 <= j < a.len() implies #[trigger] ab[j] == a[j] by {}
    assert forall|j: int| opens_group(a, j) implies opens_group(ab, j) by {
        lemma_category_at_prefix(a, b, j);
        assert(ab[j] == a[j] && ab[j + 1] == a[j + 1] && ab[j + 2] == a[j + 2]);
    }
    lemma_category_at_prefix(a, b, i);
    assert(ab[i] == a[i]);
    if i > 0 {
        assert(ab[i - 1] == a[i - 1]);
    }
}

proof fn lemma_group_shape(s: Seq<NodeView>)
    ensures
        well_grouped(group_spec(s)),
        category_at(group_spec(s), group_spec(s).len() as int) == category_before(
            s,
            s.len() as int,
        ),
        s.len() == 0 ==> group_spec(s).len() == 0,
        s.len() > 0 ==> group_spec(s).len() > 0 && group_spec(s).last() == ItemView::Node(s.last()),
    decreases s.len(),
{
    if s.len() > 0 {
        let init = s.drop_last();
        let node = s.last();
        lemma_group_shape(init);
        let g = group_spec(init);
        let cat = category_before(s, s.len() - 1);
        assert(cat == category_before(init, init.len() as int));
        let n = g.len() as int;
        if node.tag() != cat {
            let tail = seq![
                ItemView::Separator,
                ItemView::PartTitle(trim_number_spec(node.tag())),
                ItemView::Node(node),
            ];
            let r = g + tail;
            assert(r == group_spec(s));
            lemma_category_at_prefix(g, tail, n);
            assert(r[n] == tail[0] && r[n + 1] == tail[1] && r[n + 2] == tail[2]);
            assert(opens_group(r, n));
            assert forall|i: int| 0 <= i < r.len() implies #[trigger] well_grouped_at(r, i) by {
                if i < n {
                    assert(well_grouped_at(g, i));
                    lemma_well_grouped_prefix(g, tail, i);
                }
            }
        } else {
            let tail = seq![ItemView::Node(node)];
            let r = g + tail;
            assert(r =~= group_spec(s));
            lemma_category_at_prefix(g, tail, n);
            assert(r[n] == tail[0]);
            if n > 0 {
                assert(r[n - 1] == g[n - 1]);
            }
            assert forall|i: int| 0 <= i < r.len() implies #[trigger] well_grouped_at(r, i) by {
                if i < n {
                    assert(well_grouped_at(g, i));
                    lemma_well_grouped_prefix(g, tail, i);
                }
            }
        }
    }
}

/// In the final sibling list of a directory every group boundary is a
/// separator and a part title directly before the first chapter of a new
/// category, and the chapters stand in sorted order.
pub proof fn lemma_reorder_is_well_grouped(children: Seq<NodeView>)
    ensures
        well_grouped(reorder_spec(children)),
        chapters_of(reorder_spec(children)) == sort_spec(children),
        is_stable_sort_of(sort_spec(children), children),
{
    lemma_group_shape(sort_spec(children));
    lemma_group_keeps_chapters(sort_spec(children));
    lemma_sort_spec(children);
}

// ---------------------------------------------------------------------------
// Every level of an outline
// ---------------------------------------------------------------------------

/// The item, if it is a chapter, holds the category tag of its raw file
/// name, and every sibling list below it is sound.
pub open spec fn item_is_sound(item: ItemView) -> bool
    decreases item,
{
    match item {
        ItemView::Node(n) => n.wf() && items_are_sound(n.children),
        _ => true,
    }
}

/// The sibling list is well grouped, its chapters stand in sorted order,
/// and the same holds of every sibling list below it.
pub open spec fn items_are_sound(items: Seq<ItemView>) -> bool
    decreases items,
{
    &&& well_grouped(items)
    &&& is_sorted(chapters_of(items))
    &&& forall|i: int| 0 <= i < items.len() ==> item_is_sound(#[trigger] items[i])
}

/// The entries at `i` of two lists are of one kind, with one title or one
/// source path.
pub open spec fn alike_at(a: Seq<ItemView>, b: Seq<ItemView>, i: int) -> bool {
    match a[i] {
        ItemView::Node(n) => b[i] is Node && b[i]->Node_0.source_path == n.source_path,
        ItemView::Separator => b[i] is Separator,
        ItemView::PartTitle(label) => b[i] == ItemView::PartTitle(label),
    }
}

/// Two sibling lists differ at most in what their chapters hold beside
/// their source paths.
pub open spec fn alike(a: Seq<ItemView>, b: Seq<ItemView>) -> bool {
    &&& a.len() == b.len()
    &&& forall|i: int| 0 <= i < a.len() ==> #[trigger] alike_at(a, b, i)
}

proof fn lemma_alike_category(a: Seq<ItemView>, b: Seq<ItemView>, i: int)
    requires
        alike(a, b),
    ensures
        category_at(a, i) == category_at(b, i),
    decreases i,
{
    if 0 < i <= a.len() {
        assert(alike_at(a, b, i - 1));
        lemma_alike_category(a, b, i - 1);
    }
}

proof fn lemma_alike_grouped(a: Seq<ItemView>, b: Seq<ItemView>)
    requires
        alike(a, b),
        well_grouped(a),
    ensures
        well_grouped(b),
{
    assert forall|j: int| opens_group(a, j) implies opens_group(b, j) by {
        lemma_alike_category(a, b, j);
        assert(alike_at(a, b, j) && alike_at(a, b, j + 1) && alike_at(a, b, j + 2));
    }
    assert forall|i: int| 0 <= i < b.len() implies #[trigger] well_grouped_at(b, i) by {
        assert(well_grouped_at(a, i));
        assert(alike_at(a, b, i));
        lemma_alike_category(a, b, i);
        if i > 0 {
            assert(alike_at(a, b, i - 1));
        }
    }
}

proof fn lemma_alike_chapters(a: Seq<ItemView>, b: Seq<ItemView>)
    requires
        alike(a, b),
    ensures
        chapters_of(a).len() == chapters_of(b).len(),
        forall|k: int|
            0 <= k < chapters_of(a).len() ==> (#[trigger] chapters_of(a)[k]).source_path
                == chapters_of(b)[k].source_path,
    decreases a.len(),
{
    if a.len() > 0 {
        let a0 = a.drop_last();
        let b0 = b.drop_last();
        assert(alike(a0, b0)) by {
            assert forall|i: int| 0 <= i < a0.len() implies #[trigger] alike_at(a0, b0, i) by {
                assert(alike_at(a, b, i));
            }
        }
        assert(alike_at(a, b, a.len() - 1));
        lemma_alike_chapters(a0, b0);
    }
}

proof fn lemma_alike_sorted(a: Seq<ItemView>, b: Seq<ItemView>)
    requires
        alike(a, b),
        is_sorted(chapters_of(a)),
    ensures
        is_sorted(chapters_of(b)),
{
    lemma_alike_chapters(a, b);
    let ca = chapters_of(a);
    let cb = chapters_of(b);
    assert forall|i: int, j: int| 0 <= i < j < cb.len() implies !node_lt(
        #[trigger] cb[j],
        #[trigger] cb[i],
    ) by {
        assert(ca[i].source_path == cb[i].source_path);
        assert(ca[j].source_path == cb[j].source_path);
        assert(!node_lt(ca[j], ca[i]));
    }
}

proof fn lemma_assign_keeps_sound(prefix: Seq<int>, items: Seq<ItemView>)
    requires
        items_are_sound(items),
    ensures
        items_are_sound(assign_spec(prefix, items)),
    decreases items,
{
    let numbered = assign_spec(prefix, items);
    assert(alike(items, numbered)) by {
        assert forall|i: int| 0 <= i < items.len() implies #[trigger] alike_at(
            items,
            numbered,
            i,
        ) by {}
    }
    lemma_alike_grouped(items, numbered);
    lemma_alike_sorted(items, numbered);
    assert forall|i: int| 0 <= i < numbered.len() implies item_is_sound(#[trigger] numbered[i]) by {
        assert(item_is_sound(items[i]));
        if let ItemView::Node(n) = items[i] {
            lemma_assign_keeps_sound(prefix.push(i), n.children);
        }
    }
}

proof fn lemma_reorder_is_sound(children: Seq<NodeView>)
    requires
        forall|i: int| 0 <= i < children.len() ==> item_is_sound(ItemView::Node(#[trigger] children[i])),
    ensures
        items_are_sound(reorder_spec(children)),
{
    lemma_reorder_is_well_grouped(children);
    let items = reorder_spec(children);
    assert forall|i: int| 0 <= i < items.len() implies item_is_sound(#[trigger] items[i]) by {
        if items[i] is Node {
            lemma_reorder_keeps_chapters(children, i);
            let x = items[i]->Node_0;
            let j = choose|j: int| 0 <= j < children.len() && children[j] == x;
            assert(item_is_sound(ItemView::Node(children[j])));
        }
    }
}

proof fn lemma_entry_is_sound(
    entry: EntryView,
    relative: Seq<Seq<char>>,
    ancestors: Seq<Seq<char>>,
)
    ensures
        build_entry_spec(entry, relative, ancestors) matches Ok(Some(n)) ==> item_is_sound(
            ItemView::Node(n),
        ),
    decreases entry, 0nat,
{
    match entry.kind {
        EntryKindView::File(_) => {
            let node = create_chapter_spec(entry, relative, ancestors);
            assert(chapters_of(node.children) =~= Seq::<NodeView>::empty());
        },
        EntryKindView::Unreadable(_) => {},
        EntryKindView::Dir(entries) => {
            if !is_skipped_dir_spec(entry.name) {
                let node = create_chapter_spec(entry, relative, ancestors);
                let below = relative.push(entry.name);
                lemma_children_are_sound(entries, below, ancestors.push(node.name));
                if let Ok(children) = build_children_spec(
                    entries,
                    below,
                    ancestors.push(node.name),
                ) {
                    lemma_reorder_is_sound(children);
                }
            }
        },
    }
}

proof fn lemma_children_are_sound(
    entries: Seq<EntryView>,
    relative: Seq<Seq<char>>,
    ancestors: Seq<Seq<char>>,
)
    ensures
        build_children_spec(entries, relative, ancestors) matches Ok(nodes) ==> forall|i: int|
            0 <= i < nodes.len() ==> item_is_sound(ItemView::Node(#[trigger] nodes[i])),
    decreases entries, 1nat,
{
    if entries.len() > 0 {
        lemma_children_are_sound(entries.drop_last(), relative, ancestors);
        lemma_entry_is_sound(entries.last(), relative, ancestors);
    }
}

/// Every sibling list of an outline, at any depth, is well grouped and has
/// its chapters in sorted order, and every chapter holds the category tag
/// of its raw file name.
pub proof fn lemma_outline_is_sound(root: EntryView)
    ensures
        outline_spec(root) matches Ok(items) ==> items_are_sound(items),
{
    let top = Seq::<Seq<char>>::empty();
    if let Ok(items) = visit_dirs_build_spec(root, top, top) {
        if !is_skipped_dir_spec(root.name) && root.kind is Dir {
            let entries = root.kind->Dir_0;
            lemma_children_are_sound(entries, top, top);
            lemma_reorder_is_sound(build_children_spec(entries, top, top)->Ok_0);
        } else {
            assert(chapters_of(items) =~= Seq::<NodeView>::empty());
        }
        lemma_assign_keeps_sound(Seq::empty(), items);
    }
}

} // verus!
