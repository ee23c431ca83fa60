//! The outline does not depend on the order in which a directory was
//! listed.
//!
//! A file system hands the entries of a directory out in no particular
//! order. Where the chapters of every directory have different raw file
//! names, the sorter puts them into one order whatever order they came in,
//! and two listings of one tree give one outline.

use vstd::prelude::*;
use crate::names::trim_number_spec;
use crate::outline::{ItemView, NodeView};
use crate::preprocessor::outline_spec;
use crate::sorter::{
    is_stable_sort_of, lemma_named_none, lemma_sort_spec, named, reorder_spec, sort_spec,
};
use crate::source::{EntryKindView, EntryView, WalkErrorView};
use crate::tree::{
    build_children_spec, build_entry_spec, create_chapter_spec, get_content_from_index_spec,
    index_candidates, is_skipped_dir_spec, lemma_load_index_skip, load_index_spec, resolve_from,
};

verus! {

// ---------------------------------------------------------------------------
// Two listings of one tree
// ---------------------------------------------------------------------------

/// No two entries of the listing have one name.
pub open spec fn distinct_names(entries: Seq<EntryView>) -> bool {
    forall|i: int, j: int|
        0 <= i < j < entries.len() ==> (#[trigger] entries[i]).name != (#[trigger] entries[j]).name
}

/// `a` and `b` are one entry: the same file, or the same directory with its
/// entries listed in whatever order.
pub open spec fn same_tree(a: EntryView, b: EntryView) -> bool
    decreases a, 0nat,
{
    &&& a.name == b.name
    &&& match a.kind {
        EntryKindView::File(text) => b.kind == EntryKindView::File(text),
        EntryKindView::Unreadable(reason) => b.kind == EntryKindView::Unreadable(reason),
        EntryKindView::Dir(entries) => b.kind is Dir && same_listing(entries, b.kind->Dir_0),
    }
}

/// The index of the first entry of that name, or the length of the
/// listing where it has none.
pub open spec fn position(entries: Seq<EntryView>, name: Seq<char>) -> int
    decreases entries.len(),
{
    if entries.len() == 0 || entries[0].name == name {
        0
    } else {
        1 + position(entries.drop_first(), name)
    }
}

/// `xs` and `ys` list one directory: each name stands once in either, every
/// entry of `xs` stands under its name in `ys`, and `ys` has no other name.
pub open spec fn same_listing(xs: Seq<EntryView>, ys: Seq<EntryView>) -> bool
    decreases xs, 1nat,
{
    &&& distinct_names(xs)
    &&& distinct_names(ys)
    &&& forall|i: int|
        0 <= i < xs.len() ==> position(ys, (#[trigger] xs[i]).name) < ys.len() && same_tree(
            xs[i],
            ys[position(ys, xs[i].name)],
        )
    &&& forall|j: int| 0 <= j < ys.len() ==> position(xs, (#[trigger] ys[j]).name) < xs.len()
}

/// No two chapters of the list have one raw file name.
pub open spec fn distinct_file_names(nodes: Seq<NodeView>) -> bool {
    forall|i: int, j: int|
        0 <= i < j < nodes.len() ==> (#[trigger] nodes[i]).file_name() != (
        #[trigger] nodes[j]).file_name()
}

/// Below the entry every directory that the walk enters gives chapters of
/// different raw file names.
pub open spec fn unambiguous_entry(
    entry: EntryView,
    relative: Seq<Seq<char>>,
    ancestors: Seq<Seq<char>>,
) -> bool
    decreases entry, 0nat,
{
    match entry.kind {
        EntryKindView::Dir(entries) => is_skipped_dir_spec(entry.name) || unambiguous_listing(
            entries,
            relative.push(entry.name),
            ancestors.push(trim_number_spec(entry.name)),
        ),
        _ => true,
    }
}

/// The chapters of the listed directory have different raw file names, and
/// so have those of every directory below it that the walk enters.
pub open spec fn unambiguous_listing(
    entries: Seq<EntryView>,
    relative: Seq<Seq<char>>,
    ancestors: Seq<Seq<char>>,
) -> bool
    decreases entries, 1nat,
{
    &&& build_children_spec(entries, relative, ancestors) matches Ok(children)
        ==> distinct_file_names(children)
    &&& forall|i: int|
        0 <= i < entries.len() ==> unambiguous_entry(#[trigger] entries[i], relative, ancestors)
}

/// The text that an entry gives when it is taken for an index file.
pub open spec fn text_of(entry: EntryView) -> Seq<char> {
    match entry.kind {
        EntryKindView::File(text) => text,
        _ => Seq::empty(),
    }
}

proof fn lemma_same_tree(a: EntryView, b: EntryView)
    requires
        same_tree(a, b),
    ensures
        a.name == b.name,
        text_of(a) == text_of(b),
        a.kind is File <==> b.kind is File,
        a.kind is Unreadable ==> b.kind == a.kind,
        a.kind is Dir ==> b.kind is Dir && same_listing(a.kind->Dir_0, b.kind->Dir_0),
{
}

proof fn lemma_position(entries: Seq<EntryView>, name: Seq<char>)
    ensures
        0 <= position(entries, name) <= entries.len(),
        position(entries, name) < entries.len() ==> entries[position(entries, name)].name == name,
        forall|k: int| 0 <= k < position(entries, name) ==> (#[trigger] entries[k]).name != name,
    decreases entries.len(),
{
    if !(entries.len() == 0 || entries[0].name == name) {
        let rest = entries.drop_first();
        lemma_position(rest, name);
        assert forall|k: int| 0 <= k < position(entries, name) implies (#[trigger] entries[k]).name
            != name by {
            if k > 0 {
                assert(entries[k] == rest[k - 1]);
            }
        }
    }
}

proof fn lemma_position_of(entries: Seq<EntryView>, i: int)
    requires
        distinct_names(entries),
        0 <= i < entries.len(),
    ensures
        position(entries, entries[i].name) == i,
{
    lemma_position(entries, entries[i].name);
    let p = position(entries, entries[i].name);
    if p < i {
        assert(entries[p].name != entries[i].name);
    } else if p > i {
        assert(entries[i].name != entries[i].name);
    }
}

proof fn partner_in(xs: Seq<EntryView>, ys: Seq<EntryView>, i: int) -> (j: int)
    requires
        same_listing(xs, ys),
        0 <= i < xs.len(),
    ensures
        0 <= j < ys.len(),
        same_tree(xs[i], ys[j]),
{
    let j = position(ys, xs[i].name);
    lemma_position(ys, xs[i].name);
    j
}

proof fn partner_of(xs: Seq<EntryView>, ys: Seq<EntryView>, j: int) -> (i: int)
    requires
        same_listing(xs, ys),
        0 <= j < ys.len(),
    ensures
        0 <= i < xs.len(),
        same_tree(xs[i], ys[j]),
{
    let i = position(xs, ys[j].name);
    lemma_position(xs, ys[j].name);
    lemma_position_of(ys, j);
    i
}

proof fn lemma_unambiguous(
    entries: Seq<EntryView>,
    relative: Seq<Seq<char>>,
    ancestors: Seq<Seq<char>>,
    i: int,
)
    requires
        unambiguous_listing(entries, relative, ancestors),
        0 <= i < entries.len(),
    ensures
        build_children_spec(entries, relative, ancestors) is Ok ==> distinct_file_names(
            build_children_spec(entries, relative, ancestors)->Ok_0,
        ),
        entries[i].kind is Dir && !is_skipped_dir_spec(entries[i].name) ==> unambiguous_listing(
            entries[i].kind->Dir_0,
            relative.push(entries[i].name),
            ancestors.push(trim_number_spec(entries[i].name)),
        ),
{
    reveal_with_fuel(unambiguous_listing, 2);
    assert(unambiguous_entry(entries[i], relative, ancestors));
}

// ---------------------------------------------------------------------------
// The sorter
// ---------------------------------------------------------------------------

proof fn lemma_named_of_distinct(p: Seq<NodeView>, k: Seq<char>, i: int)
    requires
        distinct_file_names(p),
        0 <= i < p.len(),
        p[i].file_name() == k,
    ensures
        named(p, k) == seq![p[i]],
    decreases p.len(),
{
    let init = p.drop_last();
    if i == p.len() - 1 {
        assert forall|j: int| 0 <= j < init.len() implies (#[trigger] init[j]).file_name() != k by {
            assert(init[j] == p[j]);
        }
        lemma_named_none(init, k);
        assert(named(p, k) =~= seq![p[i]]);
    } else {
        assert(p.last() == p[p.len() - 1]);
        assert(distinct_file_names(init)) by {
            assert forall|a: int, b: int| 0 <= a < b < init.len() implies (
            #[trigger] init[a]).file_name() != (#[trigger] init[b]).file_name() by {
                assert(init[a] == p[a] && init[b] == p[b]);
            }
        }
        lemma_named_of_distinct(init, k, i);
    }
}

/// Chapters of different raw file names come out of the sorter in one
/// order, in whatever order they go in: two lists that hold the same
/// chapters, each once, have one final sibling list.
pub proof fn lemma_reorder_ignores_order(p: Seq<NodeView>, q: Seq<NodeView>)
    requires
        distinct_file_names(p),
        distinct_file_names(q),
        forall|n: NodeView| p.contains(n) <==> q.contains(n),
    ensures
        sort_spec(p) == sort_spec(q),
        reorder_spec(p) == reorder_spec(q),
{
    assert forall|k: Seq<char>| #[trigger] named(p, k) == named(q, k) by {
        if exists|i: int| 0 <= i < p.len() && (#[trigger] p[i]).file_name() == k {
            let i = choose|i: int| 0 <= i < p.len() && (#[trigger] p[i]).file_name() == k;
            assert(p.contains(p[i]));
            let j = choose|j: int| 0 <= j < q.len() && q[j] == p[i];
            lemma_named_of_distinct(p, k, i);
            lemma_named_of_distinct(q, k, j);
        } else {
            assert forall|j: int| 0 <= j < q.len() implies (#[trigger] q[j]).file_name() != k by {
                assert(q.contains(q[j]));
                let i = choose|i: int| 0 <= i < p.len() && p[i] == q[j];
                assert(p[i].file_name() != k);
            }
            lemma_named_none(p, k);
            lemma_named_none(q, k);
        }
    }
    lemma_sort_spec(p);
    lemma_sort_spec(q);
    assert(is_stable_sort_of(sort_spec(p), q)) by {
        assert forall|k: Seq<char>| #[trigger] named(sort_spec(p), k) == named(q, k) by {
            assert(named(sort_spec(p), k) == named(p, k));
            assert(named(p, k) == named(q, k));
        }
    }
}

// ---------------------------------------------------------------------------
// The chapters of a listing
// ---------------------------------------------------------------------------

proof fn lemma_children_ok(
    entries: Seq<EntryView>,
    relative: Seq<Seq<char>>,
    ancestors: Seq<Seq<char>>,
)
    ensures
        build_children_spec(entries, relative, ancestors) is Ok <==> forall|i: int|
            0 <= i < entries.len() ==> build_entry_spec(
                #[trigger] entries[i],
                relative,
                ancestors,
            ) is Ok,
    decreases entries.len(),
{
    if entries.len() > 0 {
        let init = entries.drop_last();
        lemma_children_ok(init, relative, ancestors);
        if build_children_spec(entries, relative, ancestors) is Ok {
            assert forall|i: int| 0 <= i < entries.len() implies build_entry_spec(
                #[trigger] entries[i],
                relative,
                ancestors,
            ) is Ok by {
                if i < init.len() {
                    assert(init[i] == entries[i]);
                }
            }
        }
        if forall|i: int|
            0 <= i < entries.len() ==> build_entry_spec(
                #[trigger] entries[i],
                relative,
                ancestors,
            ) is Ok {
            assert forall|i: int| 0 <= i < init.len() implies build_entry_spec(
                #[trigger] init[i],
                relative,
                ancestors,
            ) is Ok by {
                assert(init[i] == entries[i]);
            }
            assert(entries.last() == entries[entries.len() - 1]);
        }
    }
}

proof fn lemma_children_members(
    entries: Seq<EntryView>,
    relative: Seq<Seq<char>>,
    ancestors: Seq<Seq<char>>,
    n: NodeView,
)
    requires
        build_children_spec(entries, relative, ancestors) is Ok,
    ensures
        build_children_spec(entries, relative, ancestors)->Ok_0.contains(n) <==> exists|i: int|
            0 <= i < entries.len() && build_entry_spec(
                #[trigger] entries[i],
                relative,
                ancestors,
            ) == Ok::<Option<NodeView>, WalkErrorView>(Some(n)),
    decreases entries.len(),
{
    let c = build_children_spec(entries, relative, ancestors)->Ok_0;
    if entries.len() > 0 {
        let init = entries.drop_last();
        let last = entries.last();
        let ci = build_children_spec(init, relative, ancestors)->Ok_0;
        lemma_children_members(init, relative, ancestors, n);
        let from_last = build_entry_spec(last, relative, ancestors) == Ok::<
            Option<NodeView>,
            WalkErrorView,
        >(Some(n));
        if c.contains(n) {
            let j = choose|j: int| 0 <= j < c.len() && c[j] == n;
            if j < ci.len() {
                assert(ci[j] == n);
                assert(ci.contains(n));
                let i = choose|i: int|
                    0 <= i < init.len() && build_entry_spec(
                        #[trigger] init[i],
                        relative,
                        ancestors,
                    ) == Ok::<Option<NodeView>, WalkErrorView>(Some(n));
                assert(entries[i] == init[i]);
            } else {
                assert(from_last);
                assert(entries[entries.len() - 1] == last);
            }
        }
        if exists|i: int|
            0 <= i < entries.len() && build_entry_spec(
                #[trigger] entries[i],
                relative,
                ancestors,
            ) == Ok::<Option<NodeView>, WalkErrorView>(Some(n)) {
            let i = choose|i: int|
                0 <= i < entries.len() && build_entry_spec(
                    #[trigger] entries[i],
                    relative,
                    ancestors,
                ) == Ok::<Option<NodeView>, WalkErrorView>(Some(n));
            if i < init.len() {
                assert(init[i] == entries[i]);
                assert(ci.contains(n));
                let j = choose|j: int| 0 <= j < ci.len() && ci[j] == n;
                assert(c[j] == n);
            } else {
                assert(c[c.len() - 1] == n);
            }
        }
    }
}

proof fn lemma_entry_path(
    entry: EntryView,
    relative: Seq<Seq<char>>,
    ancestors: Seq<Seq<char>>,
)
    ensures
        build_entry_spec(entry, relative, ancestors) matches Ok(Some(n)) ==> n.source_path.len()
            > relative.len() && n.source_path[relative.len() as int] == entry.name,
{
    let node = create_chapter_spec(entry, relative, ancestors);
    let path = relative.push(entry.name);
    assert(node.source_path.len() > relative.len() && node.source_path[relative.len() as int]
        == entry.name) by {
        if let EntryKindView::Dir(entries) = entry.kind {
            let source = get_content_from_index_spec(entries, path).1;
            assert(source == path || source.drop_last() =~= path);
        }
    }
}

proof fn lemma_children_have_distinct_origins(
    entries: Seq<EntryView>,
    relative: Seq<Seq<char>>,
    ancestors: Seq<Seq<char>>,
)
    requires
        distinct_names(entries),
        build_children_spec(entries, relative, ancestors) is Ok,
    ensures
        build_children_spec(entries, relative, ancestors)->Ok_0.no_duplicates(),
    decreases entries.len(),
{
    let c = build_children_spec(entries, relative, ancestors)->Ok_0;
    if entries.len() > 0 {
        let init = entries.drop_last();
        let last = entries.last();
        let ci = build_children_spec(init, relative, ancestors)->Ok_0;
        assert(distinct_names(init)) by {
            assert forall|i: int, j: int| 0 <= i < j < init.len() implies (#[trigger] init[i]).name
                != (#[trigger] init[j]).name by {
                assert(init[i] == entries[i] && init[j] == entries[j]);
            }
        }
        lemma_children_have_distinct_origins(init, relative, ancestors);
        assert forall|a: int, b: int| 0 <= a < b < c.len() implies c[a] != c[b] by {
            if b < ci.len() {
                assert(c[a] == ci[a] && c[b] == ci[b]);
            } else {
                // c[b] is the chapter of the last entry; c[a] that of an earlier one.
                assert(c[a] == ci[a]);
                assert(ci.contains(c[a]));
                lemma_children_members(init, relative, ancestors, c[a]);
                let i = choose|i: int|
                    0 <= i < init.len() && build_entry_spec(
                        #[trigger] init[i],
                        relative,
                        ancestors,
                    ) == Ok::<Option<NodeView>, WalkErrorView>(Some(c[a]));
                lemma_entry_path(init[i], relative, ancestors);
                lemma_entry_path(last, relative, ancestors);
                assert(init[i] == entries[i]);
                assert(last == entries[entries.len() - 1]);
                assert(entries[i].name != entries[entries.len() - 1].name);
            }
        }
    }
}

// ---------------------------------------------------------------------------
// The index file
// ---------------------------------------------------------------------------

proof fn lemma_load_index_at(entries: Seq<EntryView>, x: Seq<char>, i: int)
    requires
        distinct_names(entries),
        0 <= i < entries.len(),
        entries[i].name == x,
    ensures
        load_index_spec(entries, x) == Some(text_of(entries[i])),
{
    assert forall|j: int| 0 <= j < i implies (#[trigger] entries[j]).name != x by {}
    lemma_load_index_skip(entries, x, i);
    assert(entries.skip(i)[0] == entries[i]);
}

proof fn lemma_load_index_none(entries: Seq<EntryView>, x: Seq<char>)
    requires
        forall|j: int| 0 <= j < entries.len() ==> (#[trigger] entries[j]).name != x,
    ensures
        load_index_spec(entries, x) is None,
{
    lemma_load_index_skip(entries, x, entries.len() as int);
    assert(entries.skip(entries.len() as int) =~= Seq::<EntryView>::empty());
}

proof fn lemma_load_index_same(xs: Seq<EntryView>, ys: Seq<EntryView>, x: Seq<char>)
    requires
        same_listing(xs, ys),
    ensures
        load_index_spec(xs, x) == load_index_spec(ys, x),
{
    if exists|i: int| 0 <= i < xs.len() && (#[trigger] xs[i]).name == x {
        let i = choose|i: int| 0 <= i < xs.len() && (#[trigger] xs[i]).name == x;
        let j = partner_in(xs, ys, i);
        lemma_same_tree(xs[i], ys[j]);
        lemma_load_index_at(xs, x, i);
        lemma_load_index_at(ys, x, j);
    } else {
        assert forall|j: int| 0 <= j < ys.len() implies (#[trigger] ys[j]).name != x by {
            let i = partner_of(xs, ys, j);
            lemma_same_tree(xs[i], ys[j]);
            assert(xs[i].name != x);
        }
        lemma_load_index_none(xs, x);
        lemma_load_index_none(ys, x);
    }
}

proof fn lemma_resolve_same(xs: Seq<EntryView>, ys: Seq<EntryView>, candidates: Seq<Seq<char>>)
    requires
        same_listing(xs, ys),
    ensures
        resolve_from(xs, candidates) == resolve_from(ys, candidates),
    decreases candidates.len(),
{
    if candidates.len() > 0 {
        lemma_load_index_same(xs, ys, candidates[0]);
        lemma_resolve_same(xs, ys, candidates.drop_first());
    }
}

// ---------------------------------------------------------------------------
// The walk
// ---------------------------------------------------------------------------

proof fn lemma_chapter_same(
    x: EntryView,
    y: EntryView,
    relative: Seq<Seq<char>>,
    ancestors: Seq<Seq<char>>,
)
    requires
        same_tree(x, y),
    ensures
        create_chapter_spec(y, relative, ancestors) == create_chapter_spec(x, relative, ancestors),
{
    lemma_same_tree(x, y);
    if x.kind is Dir {
        lemma_resolve_same(x.kind->Dir_0, y.kind->Dir_0, index_candidates());
    }
}

proof fn lemma_entry_independent(
    x: EntryView,
    y: EntryView,
    relative: Seq<Seq<char>>,
    ancestors: Seq<Seq<char>>,
)
    requires
        same_tree(x, y),
        x.kind is Dir && !is_skipped_dir_spec(x.name) ==> unambiguous_listing(
            x.kind->Dir_0,
            relative.push(x.name),
            ancestors.push(trim_number_spec(x.name)),
        ),
        build_entry_spec(x, relative, ancestors) is Ok,
    ensures
        build_entry_spec(y, relative, ancestors) == build_entry_spec(x, relative, ancestors),
    decreases x, 0nat,
{
    lemma_same_tree(x, y);
    lemma_chapter_same(x, y, relative, ancestors);
    if x.kind is Dir && !is_skipped_dir_spec(x.name) {
        let node = create_chapter_spec(x, relative, ancestors);
        lemma_listing_independent(
            x.kind->Dir_0,
            y.kind->Dir_0,
            relative.push(x.name),
            ancestors.push(node.name),
        );
    }
}

proof fn lemma_listing_independent(
    xs: Seq<EntryView>,
    ys: Seq<EntryView>,
    relative: Seq<Seq<char>>,
    ancestors: Seq<Seq<char>>,
)
    requires
        same_listing(xs, ys),
        unambiguous_listing(xs, relative, ancestors),
        build_children_spec(xs, relative, ancestors) is Ok,
    ensures
        build_children_spec(ys, relative, ancestors) is Ok,
        reorder_spec(build_children_spec(ys, relative, ancestors)->Ok_0) == reorder_spec(
            build_children_spec(xs, relative, ancestors)->Ok_0,
        ),
    decreases xs, 1nat,
{
    lemma_children_ok(xs, relative, ancestors);
    lemma_children_ok(ys, relative, ancestors);
    // Every entry of `ys` builds what its partner in `xs` builds.
    assert forall|j: int| 0 <= j < ys.len() implies build_entry_spec(
        #[trigger] ys[j],
        relative,
        ancestors,
    ) is Ok by {
        let i = partner_of(xs, ys, j);
        lemma_unambiguous(xs, relative, ancestors, i);
        lemma_entry_independent(xs[i], ys[j], relative, ancestors);
    }
    let cx = build_children_spec(xs, relative, ancestors)->Ok_0;
    let cy = build_children_spec(ys, relative, ancestors)->Ok_0;
    assert forall|n: NodeView| cx.contains(n) <==> cy.contains(n) by {
        lemma_children_members(xs, relative, ancestors, n);
        lemma_children_members(ys, relative, ancestors, n);
        if cx.contains(n) {
            let i = choose|i: int|
                0 <= i < xs.len() && build_entry_spec(#[trigger] xs[i], relative, ancestors)
                    == Ok::<Option<NodeView>, WalkErrorView>(Some(n));
            let j = partner_in(xs, ys, i);
            lemma_unambiguous(xs, relative, ancestors, i);
            lemma_entry_independent(xs[i], ys[j], relative, ancestors);
        }
        if cy.contains(n) {
            let j = choose|j: int|
                0 <= j < ys.len() && build_entry_spec(#[trigger] ys[j], relative, ancestors)
                    == Ok::<Option<NodeView>, WalkErrorView>(Some(n));
            let i = partner_of(xs, ys, j);
            lemma_unambiguous(xs, relative, ancestors, i);
            lemma_entry_independent(xs[i], ys[j], relative, ancestors);
        }
    }
    lemma_children_have_distinct_origins(ys, relative, ancestors);
    lemma_distinct_carries_over(cx, cy);
    lemma_reorder_ignores_order(cx, cy);
}

/// A list without repetition whose chapters all stand in a list of
/// different raw file names has different raw file names itself.
proof fn lemma_distinct_carries_over(cx: Seq<NodeView>, cy: Seq<NodeView>)
    requires
        distinct_file_names(cx),
        forall|n: NodeView| cx.contains(n) <==> cy.contains(n),
        cy.no_duplicates(),
    ensures
        distinct_file_names(cy),
{
    assert forall|a: int, b: int| 0 <= a < b < cy.len() implies (#[trigger] cy[a]).file_name() != (
    #[trigger] cy[b]).file_name() by {
        assert(cy[a] != cy[b]);
        assert(cy.contains(cy[a]) && cy.contains(cy[b]));
        let ia = choose|i: int| 0 <= i < cx.len() && cx[i] == cy[a];
        let ib = choose|i: int| 0 <= i < cx.len() && cx[i] == cy[b];
        if ia < ib {
            assert(cx[ia].file_name() != cx[ib].file_name());
        } else {
            assert(cx[ib].file_name() != cx[ia].file_name());
        }
    }
}

/// Two listings of one tree give one outline: where the walk over `a`
/// succeeds and no directory of `a` has two chapters of one raw file name,
/// the outline of `b`, which lists the entries of each directory of `a` in
/// whatever order, is the outline of `a`.
pub proof fn lemma_outline_ignores_listing_order(a: EntryView, b: EntryView)
    requires
        same_tree(a, b),
        a.kind matches EntryKindView::Dir(entries) ==> unambiguous_listing(
            entries,
            Seq::empty(),
            Seq::empty(),
        ),
        outline_spec(a) is Ok,
    ensures
        outline_spec(b) == outline_spec(a),
{
    let top = Seq::<Seq<char>>::empty();
    if !is_skipped_dir_spec(a.name) {
        if let EntryKindView::Dir(xs) = a.kind {
            lemma_listing_independent(xs, b.kind->Dir_0, top, top);
        }
    }
}

/// Two runs over one listing give one outline.
pub proof fn lemma_outline_is_determined(
    root: EntryView,
    first: Result<Seq<ItemView>, WalkErrorView>,
    second: Result<Seq<ItemView>, WalkErrorView>,
)
    requires
        first == outline_spec(root),
        second == outline_spec(root),
    ensures
        first == second,
{
}

} // verus!
