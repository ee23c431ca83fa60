//! The walk over the source tree.
//!
//! Every directory becomes a chapter whose text is that of its index file,
//! every Markdown file but the reserved ones becomes a chapter of its own,
//! and the chapters of each directory are ordered and grouped before the
//! walk returns from it. Directories named `book` or `images` are passed
//! over, with all that is in them.

use vstd::prelude::*;
use crate::names::{
    eq_ignore_ascii_case, eq_ignore_ascii_case_spec, has_md_extension, has_md_extension_spec,
    str_eq, trim_number, trim_number_spec, type_name_spec,
};
use crate::outline::{items_view, nodes_view, raw_file_name, Item, ItemView, Node, NodeView};
use crate::sorter::{reorder, reorder_spec};
use crate::source::{entries_view, Entry, EntryKind, EntryKindView, EntryView, WalkError, WalkErrorView};

verus! {

// ---------------------------------------------------------------------------
// Which entries count
// ---------------------------------------------------------------------------

/// A directory that the walk passes over: one named `book` or `images`.
pub open spec fn is_skipped_dir_spec(name: Seq<char>) -> bool {
    name == "book"@ || name == "images"@
}

/// A file name that never names a chapter of its own: `README.md`,
/// `INDEX.md` or `SUMMARY.md`, in any case of the letters.
pub open spec fn is_reserved_name_spec(name: Seq<char>) -> bool {
    ||| eq_ignore_ascii_case_spec(name, "README.md"@)
    ||| eq_ignore_ascii_case_spec(name, "INDEX.md"@)
    ||| eq_ignore_ascii_case_spec(name, "SUMMARY.md"@)
}

/// A file that becomes a chapter: it has the extension `md` and its name is
/// not reserved.
pub open spec fn is_chapter_file_spec(name: Seq<char>) -> bool {
    has_md_extension_spec(name) && !is_reserved_name_spec(name)
}

/// Whether the walk passes over a directory of this name.
pub fn is_skipped_dir(name: &str) -> (r: bool)
    ensures
        r == is_skipped_dir_spec(name@),
{
    str_eq(name, "book") || str_eq(name, "images")
}

/// Whether a file of this name becomes a chapter.
pub fn is_chapter_file(name: &str) -> (r: bool)
    ensures
        r == is_chapter_file_spec(name@),
{
    has_md_extension(name) && !eq_ignore_ascii_case(name, "README.md") && !eq_ignore_ascii_case(
        name,
        "INDEX.md",
    ) && !eq_ignore_ascii_case(name, "SUMMARY.md")
}

// ---------------------------------------------------------------------------
// The index file of a directory
// ---------------------------------------------------------------------------

/// The text found under the name `x` in a directory: that of the first
/// entry so named, empty where that entry is no file; `None` where the
/// directory has no entry of that name.
pub open spec fn load_index_spec(entries: Seq<EntryView>, x: Seq<char>) -> Option<Seq<char>>
    decreases entries.len(),
{
    if entries.len() == 0 {
        None
    } else if entries[0].name == x {
        Some(
            match entries[0].kind {
                EntryKindView::File(content) => content,
                _ => Seq::empty(),
            },
        )
    } else {
        load_index_spec(entries.drop_first(), x)
    }
}

/// The names under which a directory's index file is looked for, in the
/// order in which they are tried.
pub open spec fn index_candidates() -> Seq<Seq<char>> {
    seq!["INDEX.md"@, "README.md"@, "index.md"@, "readme.md"@]
}

/// The index file of a directory: the first candidate that the directory
/// holds, with its text.
pub open spec fn resolve_from(entries: Seq<EntryView>, candidates: Seq<Seq<char>>) -> Option<
    (Seq<char>, Seq<char>),
>
    decreases candidates.len(),
{
    if candidates.len() == 0 {
        None
    } else {
        match load_index_spec(entries, candidates[0]) {
            Some(content) => Some((candidates[0], content)),
            None => resolve_from(entries, candidates.drop_first()),
        }
    }
}

/// The text of a directory and the path of that text: those of its index
/// file where it has one, else the empty text and the directory's own path.
pub open spec fn get_content_from_index_spec(
    entries: Seq<EntryView>,
    relative: Seq<Seq<char>>,
) -> (Seq<char>, Seq<Seq<char>>) {
    match resolve_from(entries, index_candidates()) {
        Some((file, content)) => (content, relative.push(file)),
        None => (Seq::empty(), relative),
    }
}

pub proof fn lemma_load_index_skip(entries: Seq<EntryView>, x: Seq<char>, k: int)
    requires
        0 <= k <= entries.len(),
        forall|j: int| 0 <= j < k ==> (#[trigger] entries[j]).name != x,
    ensures
        load_index_spec(entries, x) == load_index_spec(entries.skip(k), x),
    decreases k,
{
    if k == 0 {
        assert(entries.skip(0) =~= entries);
    } else {
        assert(entries[0].name != x);
        let rest = entries.drop_first();
        assert forall|j: int| 0 <= j < k - 1 implies (#[trigger] rest[j]).name != x by {
            assert(rest[j] == entries[j + 1]);
        }
        lemma_load_index_skip(rest, x, k - 1);
        assert(rest.skip(k - 1) =~= entries.skip(k));
    }
}

proof fn lemma_resolve_skip(entries: Seq<EntryView>, candidates: Seq<Seq<char>>, k: int)
    requires
        0 <= k <= candidates.len(),
        forall|j: int| 0 <= j < k ==> load_index_spec(entries, #[trigger] candidates[j]) is None,
    ensures
        resolve_from(entries, candidates) == resolve_from(entries, candidates.skip(k)),
    decreases k,
{
    if k == 0 {
        assert(candidates.skip(0) =~= candidates);
    } else {
        assert(load_index_spec(entries, candidates[0]) is None);
        let rest = candidates.drop_first();
        assert forall|j: int| 0 <= j < k - 1 implies load_index_spec(
            entries,
            #[trigger] rest[j],
        ) is None by {
            assert(rest[j] == candidates[j + 1]);
        }
        lemma_resolve_skip(entries, rest, k - 1);
        assert(rest.skip(k - 1) =~= candidates.skip(k));
    }
}

/// Looks the name `x` up in a directory: the text of the entry so named,
/// empty where it is no file, or `None` where there is no such entry.
pub fn load_index_str(entries: &Vec<Entry>, x: &str) -> (r: Option<String>)
    ensures
        match r {
            Some(data) => load_index_spec(entries_view(entries@), x@) == Some(data@),
            None => load_index_spec(entries_view(entries@), x@) is None,
        },
{
    let ghost view = entries_view(entries@);
    let mut i: usize = 0;
    while i < entries.len()
        invariant
            view == entries_view(entries@),
            i <= entries.len(),
            forall|j: int| 0 <= j < i ==> (#[trigger] view[j]).name != x@,
        decreases entries.len() - i,
    {
        if str_eq(entries[i].name.as_str(), x) {
            proof {
                lemma_load_index_skip(view, x@, i as int);
                assert(view.skip(i as int)[0] == view[i as int]);
            }
            return Some(
                match &entries[i].kind {
                    EntryKind::File(content) => content.clone(),
                    _ => String::new(),
                },
            );
        }
        i += 1;
    }
    proof {
        lemma_load_index_skip(view, x@, i as int);
        assert(view.skip(i as int) =~= Seq::<EntryView>::empty());
    }
    None
}

/// Resolves the text of a directory from its index file. The names
/// `INDEX.md`, `README.md`, `index.md` and `readme.md` are tried in this
/// order; the first that the directory holds gives the text and is put at
/// the end of `relative_name`. Where the directory holds none of them, the
/// text is empty and `relative_name` stays the directory's own path.
pub fn get_content_from_index(entries: &Vec<Entry>, relative_name: &mut Vec<String>) -> (r: String)
    ensures
        (r@, final(relative_name).deep_view()) == get_content_from_index_spec(
            entries_view(entries@),
            old(relative_name).deep_view(),
        ),
{
    let candidates: [&str; 4] = ["INDEX.md", "README.md", "index.md", "readme.md"];
    let ghost names = index_candidates();
    let ghost view = entries_view(entries@);
    let mut i: usize = 0;
    while i < 4
        invariant
            i <= 4,
            names == index_candidates(),
            names.len() == 4,
            view == entries_view(entries@),
            forall|j: int| 0 <= j < 4 ==> (#[trigger] candidates[j])@ == names[j],
            forall|j: int| 0 <= j < i ==> load_index_spec(view, #[trigger] names[j]) is None,
            *relative_name == *old(relative_name),
        decreases 4 - i,
    {
        let x = candidates[i];
        if let Some(data) = load_index_str(entries, x) {
            proof {
                lemma_resolve_skip(view, names, i as int);
                assert(names.skip(i as int)[0] == names[i as int]);
            }
            let ghost before = relative_name.deep_view();
            relative_name.push(x.to_owned());
            assert(relative_name.deep_view() =~= before.push(x@));
            return data;
        }
        i += 1;
    }
    proof {
        lemma_resolve_skip(view, names, 4);
        assert(names.skip(4) =~= Seq::<Seq<char>>::empty());
    }
    String::new()
}

// ---------------------------------------------------------------------------
// The walk, stated
// ---------------------------------------------------------------------------

/// The chapter that stands for one entry, before it has children: a
/// directory has the text and path of its index file, a file its own.
pub open spec fn create_chapter_spec(
    entry: EntryView,
    relative: Seq<Seq<char>>,
    ancestors: Seq<Seq<char>>,
) -> NodeView {
    let path = relative.push(entry.name);
    let (content, source_path) = match entry.kind {
        EntryKindView::Dir(entries) => get_content_from_index_spec(entries, path),
        EntryKindView::File(content) => (content, path),
        EntryKindView::Unreadable(_) => (Seq::empty(), path),
    };
    NodeView {
        name: trim_number_spec(entry.name),
        category_tag: type_name_spec(raw_file_name(source_path)),
        content,
        source_path,
        ancestor_names: ancestors,
        position_number: Seq::empty(),
        children: Seq::empty(),
    }
}

/// The chapter of one directory entry with all that is below it, `None`
/// for an entry that gives no chapter, or the first directory below it that
/// could not be listed.
pub open spec fn build_entry_spec(
    entry: EntryView,
    relative: Seq<Seq<char>>,
    ancestors: Seq<Seq<char>>,
) -> Result<Option<NodeView>, WalkErrorView>
    decreases entry, 0nat,
{
    match entry.kind {
        EntryKindView::File(_) => {
            if is_chapter_file_spec(entry.name) {
                Ok(Some(create_chapter_spec(entry, relative, ancestors)))
            } else {
                Ok(None)
            }
        },
        EntryKindView::Unreadable(reason) => {
            if is_skipped_dir_spec(entry.name) {
                Ok(None)
            } else {
                Err(WalkErrorView { path: relative.push(entry.name), reason })
            }
        },
        EntryKindView::Dir(entries) => {
            if is_skipped_dir_spec(entry.name) {
                Ok(None)
            } else {
                let node = create_chapter_spec(entry, relative, ancestors);
                match build_children_spec(
                    entries,
                    relative.push(entry.name),
                    ancestors.push(node.name),
                ) {
                    Ok(children) => Ok(Some(NodeView { children: reorder_spec(children), ..node })),
                    Err(e) => Err(e),
                }
            }
        },
    }
}

/// The chapters of the entries of one directory, in the order of the
/// entries and not yet sorted, or the first directory that could not be
/// listed.
pub open spec fn build_children_spec(
    entries: Seq<EntryView>,
    relative: Seq<Seq<char>>,
    ancestors: Seq<Seq<char>>,
) -> Result<Seq<NodeView>, WalkErrorView>
    decreases entries, 1nat,
{
    if entries.len() == 0 {
        Ok(Seq::empty())
    } else {
        match build_children_spec(entries.drop_last(), relative, ancestors) {
            Err(e) => Err(e),
            Ok(nodes) => match build_entry_spec(entries.last(), relative, ancestors) {
                Err(e) => Err(e),
                Ok(Some(node)) => Ok(nodes.push(node)),
                Ok(None) => Ok(nodes),
            },
        }
    }
}

/// The sibling list of the directory `dir`, whose path from the root is
/// `relative` and whose chapters have the ancestors `ancestors`. A skipped
/// directory and an entry that is no directory have the empty list.
pub open spec fn visit_dirs_build_spec(
    dir: EntryView,
    relative: Seq<Seq<char>>,
    ancestors: Seq<Seq<char>>,
) -> Result<Seq<ItemView>, WalkErrorView> {
    if is_skipped_dir_spec(dir.name) {
        Ok(Seq::empty())
    } else {
        match dir.kind {
            EntryKindView::File(_) => Ok(Seq::empty()),
            EntryKindView::Unreadable(reason) => Err(WalkErrorView { path: relative, reason }),
            EntryKindView::Dir(entries) => match build_children_spec(entries, relative, ancestors) {
                Ok(children) => Ok(reorder_spec(children)),
                Err(e) => Err(e),
            },
        }
    }
}

// ---------------------------------------------------------------------------
// The walk
// ---------------------------------------------------------------------------

/// The path `relative` with `name` as one more segment.
pub fn child_path(relative: &Vec<String>, name: &str) -> (r: Vec<String>)
    ensures
        r.deep_view() == relative.deep_view().push(name@),
{
    let mut path = relative.clone();
    path.push(name.to_owned());
    assert(path.deep_view() =~= relative.deep_view().push(name@));
    path
}

/// Makes the chapter of one entry, without children and without number. Its
/// name is the entry's name without the ordering prefix. A directory gets
/// the text of its index file and that file's path, a file its own text and
/// path.
pub fn create_chapter(entry: &Entry, relative: &Vec<String>, ancestors: &Vec<String>) -> (r: Node)
    ensures
        r@ == create_chapter_spec(entry@, relative.deep_view(), ancestors.deep_view()),
{
    let mut path = child_path(relative, entry.name.as_str());
    let content = match &entry.kind {
        EntryKind::Dir(entries) => get_content_from_index(entries, &mut path),
        EntryKind::File(content) => content.clone(),
        EntryKind::Unreadable(_) => String::new(),
    };
    let name = trim_number(entry.name.as_str());
    Node::new(name, content, path, ancestors.clone())
}

/// Builds the sibling list of a directory: the chapters of its entries,
/// each with its own sibling list built first, ordered and grouped. Entries
/// that are neither directories nor chapter files give nothing, and neither
/// does a directory named `book` or `images`. The walk fails with the first
/// directory that it had to list and that could not be listed.
pub fn visit_dirs_build(dir: &Entry, relative: &Vec<String>, ancestors: &Vec<String>) -> (r: Result<
    Vec<Item>,
    WalkError,
>)
    ensures
        match r {
            Ok(items) => visit_dirs_build_spec(dir@, relative.deep_view(), ancestors.deep_view())
                == Ok::<Seq<ItemView>, WalkErrorView>(items_view(items@)),
            Err(e) => visit_dirs_build_spec(dir@, relative.deep_view(), ancestors.deep_view())
                == Err::<Seq<ItemView>, WalkErrorView>(e@),
        },
    decreases dir,
{
    if is_skipped_dir(dir.name.as_str()) {
        let items: Vec<Item> = Vec::new();
        assert(items_view(items@) =~= Seq::<ItemView>::empty());
        return Ok(items);
    }
    match &dir.kind {
        EntryKind::File(_) => {
            let items: Vec<Item> = Vec::new();
            assert(items_view(items@) =~= Seq::<ItemView>::empty());
            Ok(items)
        },
        EntryKind::Unreadable(reason) => {
            let e = WalkError { path: relative.clone(), reason: reason.clone() };
            Err(e)
        },
        EntryKind::Dir(entries) => {
            let ghost view = entries_view(entries@);
            let ghost rel = relative.deep_view();
            let ghost anc = ancestors.deep_view();
            let mut children: Vec<Node> = Vec::new();
            let mut i: usize = 0;
            assert(view.take(0) =~= Seq::<EntryView>::empty());
            assert(nodes_view(children@) =~= Seq::<NodeView>::empty());
            while i < entries.len()
                invariant
                    i <= entries.len(),
                    view == entries_view(entries@),
                    rel == relative.deep_view(),
                    anc == ancestors.deep_view(),
                    dir.kind == EntryKind::Dir(*entries),
                    !is_skipped_dir_spec(dir@.name),
                    build_children_spec(view.take(i as int), rel, anc) == Ok::<
                        Seq<NodeView>,
                        WalkErrorView,
                    >(nodes_view(children@)),
                decreases entries.len() - i,
            {
                let entry = &entries[i];
                let ghost before = nodes_view(children@);
                proof {
                    assert(view.take(i + 1).drop_last() =~= view.take(i as int));
                    assert(view.take(i + 1).last() == entry@);
                    vstd::std_specs::vec::axiom_vec_index_decreases(*entries, i as int);
                }
                match &entry.kind {
                    EntryKind::File(_) => {
                        if is_chapter_file(entry.name.as_str()) {
                            let chapter = create_chapter(entry, relative, ancestors);
                            children.push(chapter);
                            assert(nodes_view(children@) =~= before.push(chapter@));
                        }
                    },
                    EntryKind::Unreadable(reason) => {
                        if !is_skipped_dir(entry.name.as_str()) {
                            let e = WalkError {
                                path: child_path(relative, entry.name.as_str()),
                                reason: reason.clone(),
                            };
                            proof {
                                assert(view[i as int] == entry@);
                                lemma_build_children_fails(view, i as int, rel, anc);
                            }
                            return Err(e);
                        }
                    },
                    EntryKind::Dir(_) => {
                        if !is_skipped_dir(entry.name.as_str()) {
                            let mut chapter = create_chapter(entry, relative, ancestors);
                            let path = child_path(relative, entry.name.as_str());
                            let below = child_path(ancestors, chapter.name.as_str());
                            match visit_dirs_build(entry, &path, &below) {
                                Ok(items) => {
                                    let ghost bare = chapter@;
                                    chapter.children = items;
                                    assert(chapter@ == (NodeView {
                                        children: items_view(items@),
                                        ..bare
                                    }));
                                    children.push(chapter);
                                    assert(nodes_view(children@) =~= before.push(chapter@));
                                },
                                Err(e) => {
                                    proof {
                                        assert(view[i as int] == entry@);
                                        lemma_build_children_fails(view, i as int, rel, anc);
                                    }
                                    return Err(e);
                                },
                            }
                        }
                    },
                }
                i += 1;
            }
            assert(view.take(entries.len() as int) =~= view);
            Ok(reorder(children))
        },
    }
}

/// Once an entry fails, the whole directory fails with it.
proof fn lemma_build_children_fails(
    entries: Seq<EntryView>,
    i: int,
    relative: Seq<Seq<char>>,
    ancestors: Seq<Seq<char>>,
)
    requires
        0 <= i < entries.len(),
        build_children_spec(entries.take(i), relative, ancestors) is Ok,
        build_entry_spec(entries[i], relative, ancestors) is Err,
    ensures
        build_children_spec(entries, relative, ancestors) == Err::<Seq<NodeView>, WalkErrorView>(
            build_entry_spec(entries[i], relative, ancestors)->Err_0,
        ),
    decreases entries.len() - i,
{
    assert(entries.take(i + 1).drop_last() =~= entries.take(i));
    assert(entries.take(i + 1).last() == entries[i]);
    lemma_build_children_stays_failed(entries, i + 1, relative, ancestors);
}

proof fn lemma_build_children_stays_failed(
    entries: Seq<EntryView>,
    k: int,
    relative: Seq<Seq<char>>,
    ancestors: Seq<Seq<char>>,
)
    requires
        0 <= k <= entries.len(),
        build_children_spec(entries.take(k), relative, ancestors) is Err,
    ensures
        build_children_spec(entries, relative, ancestors) == build_children_spec(
            entries.take(k),
            relative,
            ancestors,
        ),
    decreases entries.len() - k,
{
    if k == entries.len() {
        assert(entries.take(k) =~= entries);
    } else {
        assert(entries.take(k + 1).drop_last() =~= entries.take(k));
        lemma_build_children_stays_failed(entries, k + 1, relative, ancestors);
    }
}

} // verus!
