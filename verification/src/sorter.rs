//! Ordering and grouping of siblings.
//!
//! Siblings are ordered by the category tag of their raw file name and then
//! by that name. The order is stable: siblings of one name keep the order in
//! which they were given. In the ordered list a separator and a part title
//! stand before the first chapter of each category.

use vstd::prelude::*;
use crate::names::{
    get_type_name_and_file_name, lemma_lex_lt_asymmetric, lemma_lex_lt_irreflexive,
    lemma_lex_lt_total, lemma_lex_lt_transitive, lex_lt, str_eq, str_lt, trim_number,
    trim_number_spec, type_name_spec,
};
use crate::outline::{items_view, nodes_view, Item, ItemView, Node, NodeView};

verus! {

// ---------------------------------------------------------------------------
// The order of raw file names
// ---------------------------------------------------------------------------

/// The order of raw file names: the category tags compare first, the whole
/// names break the tie.
pub open spec fn name_lt(x: Seq<char>, y: Seq<char>) -> bool {
    ||| lex_lt(type_name_spec(x), type_name_spec(y))
    ||| (type_name_spec(x) == type_name_spec(y) && lex_lt(x, y))
}

/// The order of siblings: that of their raw file names.
pub open spec fn node_lt(a: NodeView, b: NodeView) -> bool {
    name_lt(a.file_name(), b.file_name())
}

/// No name sorts before itself, and no two names sort before each other.
pub proof fn lemma_name_lt_asymmetric(x: Seq<char>, y: Seq<char>)
    ensures
        !(name_lt(x, y) && name_lt(y, x)),
        !name_lt(x, x),
{
    lemma_lex_lt_asymmetric(type_name_spec(x), type_name_spec(y));
    lemma_lex_lt_asymmetric(x, y);
    lemma_lex_lt_irreflexive(type_name_spec(x));
    lemma_lex_lt_irreflexive(type_name_spec(y));
    lemma_lex_lt_irreflexive(x);
}

/// Of two different names one sorts before the other.
pub proof fn lemma_name_lt_total(x: Seq<char>, y: Seq<char>)
    ensures
        x == y || name_lt(x, y) || name_lt(y, x),
{
    lemma_lex_lt_total(type_name_spec(x), type_name_spec(y));
    lemma_lex_lt_total(x, y);
}

/// The order of names is transitive.
pub proof fn lemma_name_lt_transitive(x: Seq<char>, y: Seq<char>, z: Seq<char>)
    requires
        name_lt(x, y),
        name_lt(y, z),
    ensures
        name_lt(x, z),
{
    let tx = type_name_spec(x);
    let ty = type_name_spec(y);
    let tz = type_name_spec(z);
    if lex_lt(tx, ty) && lex_lt(ty, tz) {
        lemma_lex_lt_transitive(tx, ty, tz);
    } else if tx == ty && ty == tz {
        lemma_lex_lt_transitive(x, y, z);
    }
}

/// A name that sorts before `y` sorts before whatever does not sort before `y`.
pub proof fn lemma_name_lt_below(x: Seq<char>, y: Seq<char>, z: Seq<char>)
    requires
        name_lt(x, y),
        !name_lt(z, y),
    ensures
        name_lt(x, z),
{
    lemma_name_lt_total(y, z);
    if y != z {
        lemma_name_lt_transitive(x, y, z);
    }
}

// ---------------------------------------------------------------------------
// Stable sorting, stated
// ---------------------------------------------------------------------------

/// No sibling stands before one that sorts before it.
pub open spec fn is_sorted(s: Seq<NodeView>) -> bool {
    forall|i: int, j: int| 0 <= i < j < s.len() ==> !node_lt(#[trigger] s[j], #[trigger] s[i])
}

/// The siblings of `s` whose raw file name is `k`, in the order of `s`.
pub open spec fn named(s: Seq<NodeView>, k: Seq<char>) -> Seq<NodeView>
    decreases s.len(),
{
    if s.len() == 0 {
        Seq::empty()
    } else if s.last().file_name() == k {
        named(s.drop_last(), k).push(s.last())
    } else {
        named(s.drop_last(), k)
    }
}

/// `r` holds the siblings of `s` in order, those of one name as they stand
/// in `s`.
pub open spec fn is_stable_sort_of(r: Seq<NodeView>, s: Seq<NodeView>) -> bool {
    &&& is_sorted(r)
    &&& forall|k: Seq<char>| #[trigger] named(r, k) == named(s, k)
}

/// The siblings `s`, stably sorted by raw file name.
pub open spec fn sort_spec(s: Seq<NodeView>) -> Seq<NodeView> {
    choose|r: Seq<NodeView>| is_stable_sort_of(r, s)
}

/// Selecting by name goes through concatenation.
pub proof fn lemma_named_concat(a: Seq<NodeView>, b: Seq<NodeView>, k: Seq<char>)
    ensures
        named(a + b, k) == named(a, k) + named(b, k),
    decreases b.len(),
{
    if b.len() == 0 {
        assert(a + b =~= a);
        assert(named(a, k) + named(b, k) =~= named(a, k));
    } else {
        lemma_named_concat(a, b.drop_last(), k);
        assert((a + b).drop_last() =~= a + b.drop_last());
        assert((a + b).last() == b.last());
        assert(named(a + b, k) =~= named(a, k) + named(b, k));
    }
}

/// Where no sibling has the name, the selection is empty.
pub proof fn lemma_named_none(s: Seq<NodeView>, k: Seq<char>)
    requires
        forall|i: int| 0 <= i < s.len() ==> (#[trigger] s[i]).file_name() != k,
    ensures
        named(s, k) == Seq::<NodeView>::empty(),
    decreases s.len(),
{
    if s.len() > 0 {
        assert(s.last() == s[s.len() - 1]);
        lemma_named_none(s.drop_last(), k);
    }
}

/// Every selected sibling stands in the list and has the name.
pub proof fn lemma_named_member(s: Seq<NodeView>, k: Seq<char>, i: int)
    requires
        0 <= i < named(s, k).len(),
    ensures
        named(s, k)[i].file_name() == k,
        s.contains(named(s, k)[i]),
    decreases s.len(),
{
    if s.len() > 0 {
        let init = s.drop_last();
        if s.last().file_name() == k && i == named(init, k).len() {
            assert(s[s.len() - 1] == s.last());
        } else {
            lemma_named_member(init, k, i);
            let x = named(init, k)[i];
            let j = choose|j: int| 0 <= j < init.len() && init[j] == x;
            assert(s[j] == x);
        }
    }
}

/// A sibling of the list is among those selected by its name.
pub proof fn lemma_named_has(s: Seq<NodeView>, i: int)
    requires
        0 <= i < s.len(),
    ensures
        named(s, s[i].file_name()).contains(s[i]),
    decreases s.len(),
{
    let k = s[i].file_name();
    let init = s.drop_last();
    if i == s.len() - 1 {
        assert(named(s, k)[named(init, k).len() as int] == s[i]);
    } else {
        lemma_named_has(init, i);
        let j = choose|j: int| 0 <= j < named(init, k).len() && named(init, k)[j] == init[i];
        assert(named(s, k)[j] == s[i]);
    }
}

/// Putting `x` where the siblings that sort after it begin keeps the list a
/// stable sort, now of the source with `x` at its end.
pub proof fn lemma_insert_stable(out: Seq<NodeView>, src: Seq<NodeView>, x: NodeView, p: int)
    requires
        is_stable_sort_of(out, src),
        0 <= p <= out.len(),
        forall|j: int| 0 <= j < p ==> !node_lt(x, #[trigger] out[j]),
        forall|j: int| p <= j < out.len() ==> node_lt(x, #[trigger] out[j]),
    ensures
        is_stable_sort_of(out.insert(p, x), src.push(x)),
{
    let r = out.insert(p, x);
    assert forall|i: int, j: int| 0 <= i < j < r.len() implies !node_lt(
        #[trigger] r[j],
        #[trigger] r[i],
    ) by {
        if j == p {
            assert(r[i] == out[i]);
        } else if i == p {
            assert(r[j] == out[j - 1]);
            lemma_name_lt_asymmetric(x.file_name(), out[j - 1].file_name());
        } else {
            let oi = if i < p { i } else { i - 1 };
            let oj = if j < p { j } else { j - 1 };
            assert(r[i] == out[oi] && r[j] == out[oj]);
        }
    }
    assert forall|k: Seq<char>| #[trigger] named(r, k) == named(src.push(x), k) by {
        let head = out.take(p);
        let tail = out.skip(p);
        assert(r =~= (head + seq![x]) + tail);
        assert(out =~= head + tail);
        lemma_named_concat(head + seq![x], tail, k);
        lemma_named_concat(head, seq![x], k);
        lemma_named_concat(head, tail, k);
        assert(seq![x].drop_last() =~= Seq::<NodeView>::empty());
        assert(named(Seq::<NodeView>::empty(), k) =~= Seq::<NodeView>::empty());
        assert(seq![x].last() == x);
        assert(src.push(x).drop_last() =~= src);
        assert(named(out, k) == named(src, k));
        if x.file_name() == k {
            assert forall|i: int| 0 <= i < tail.len() implies (#[trigger] tail[i]).file_name()
                != k by {
                assert(tail[i] == out[p + i]);
                lemma_name_lt_asymmetric(x.file_name(), tail[i].file_name());
            }
            lemma_named_none(tail, k);
            assert(named(seq![x], k) =~= seq![x]);
            assert(named(r, k) =~= named(src, k).push(x));
        } else {
            assert(named(seq![x], k) =~= Seq::<NodeView>::empty());
            assert(named(r, k) =~= named(src, k));
        }
    }
}

/// Two sorted lists that agree on the siblings of every name are one list.
pub proof fn lemma_sorted_unique(a: Seq<NodeView>, b: Seq<NodeView>)
    requires
        is_sorted(a),
        is_sorted(b),
        forall|k: Seq<char>| #[trigger] named(a, k) == named(b, k),
    ensures
        a == b,
    decreases a.len(),
{
    if a.len() == 0 {
        if b.len() > 0 {
            lemma_named_has(b, 0);
            assert(named(a, b[0].file_name()) == named(b, b[0].file_name()));
        }
        assert(a =~= b);
    } else {
        let x = a.last();
        let kx = x.file_name();
        lemma_named_has(a, a.len() - 1);
        assert(named(a, kx) == named(b, kx));
        assert(named(b, kx).len() > 0);
        lemma_named_member(b, kx, 0);
        assert(b.len() > 0);
        let y = b.last();
        let ky = y.file_name();
        lemma_named_has(b, b.len() - 1);
        assert(named(a, ky) == named(b, ky));
        // Some sibling of `b` has the name of `x`, and some of `a` that of `y`.
        let in_b = named(b, kx)[0];
        let jb = choose|j: int| 0 <= j < b.len() && b[j] == in_b;
        lemma_named_member(a, ky, 0);
        let in_a = named(a, ky)[0];
        let ja = choose|j: int| 0 <= j < a.len() && a[j] == in_a;
        assert(kx == ky) by {
            lemma_name_lt_total(kx, ky);
            if jb < b.len() - 1 {
                assert(!node_lt(b[b.len() - 1], b[jb]));
            }
            if ja < a.len() - 1 {
                assert(!node_lt(a[a.len() - 1], a[ja]));
            }
        }
        assert(named(a, kx).last() == x);
        assert(named(b, kx).last() == y);
        let a0 = a.drop_last();
        let b0 = b.drop_last();
        assert forall|k: Seq<char>| #[trigger] named(a0, k) == named(b0, k) by {
            assert(named(a, k) == named(b, k));
            if k == kx {
                assert(named(a0, k) =~= named(a, k).drop_last());
                assert(named(b0, k) =~= named(b, k).drop_last());
            }
        }
        assert(is_sorted(a0)) by {
            assert forall|i: int, j: int| 0 <= i < j < a0.len() implies !node_lt(
                #[trigger] a0[j],
                #[trigger] a0[i],
            ) by {
                assert(a0[i] == a[i] && a0[j] == a[j]);
            }
        }
        assert(is_sorted(b0)) by {
            assert forall|i: int, j: int| 0 <= i < j < b0.len() implies !node_lt(
                #[trigger] b0[j],
                #[trigger] b0[i],
            ) by {
                assert(b0[i] == b[i] && b0[j] == b[j]);
            }
        }
        lemma_sorted_unique(a0, b0);
        assert(a =~= a0.push(x));
        assert(b =~= b0.push(y));
    }
}

/// Where the siblings that sort after `x` begin in a sorted list.
pub open spec fn insertion_point(out: Seq<NodeView>, x: NodeView) -> int
    decreases out.len(),
{
    if out.len() > 0 && node_lt(x, out.last()) {
        insertion_point(out.drop_last(), x)
    } else {
        out.len() as int
    }
}

/// In a sorted list the insertion point parts the siblings that sort after
/// `x` from the others.
pub proof fn lemma_insertion_point(out: Seq<NodeView>, x: NodeView)
    requires
        is_sorted(out),
    ensures
        0 <= insertion_point(out, x) <= out.len(),
        forall|j: int| 0 <= j < insertion_point(out, x) ==> !node_lt(x, #[trigger] out[j]),
        forall|j: int| insertion_point(out, x) <= j < out.len() ==> node_lt(x, #[trigger] out[j]),
    decreases out.len(),
{
    if out.len() > 0 && node_lt(x, out.last()) {
        let init = out.drop_last();
        assert forall|i: int, j: int| 0 <= i < j < init.len() implies !node_lt(
            #[trigger] init[j],
            #[trigger] init[i],
        ) by {
            assert(init[i] == out[i] && init[j] == out[j]);
        }
        lemma_insertion_point(init, x);
        let p = insertion_point(init, x);
        assert forall|j: int| 0 <= j < p implies !node_lt(x, #[trigger] out[j]) by {
            assert(out[j] == init[j]);
        }
        assert forall|j: int| p <= j < out.len() implies node_lt(x, #[trigger] out[j]) by {
            if j < init.len() {
                assert(out[j] == init[j]);
            }
        }
    } else if out.len() > 0 {
        let last = out.len() - 1;
        assert forall|j: int| 0 <= j < out.len() implies !node_lt(x, #[trigger] out[j]) by {
            if j < last && node_lt(x, out[j]) {
                assert(!node_lt(out[last], out[j]));
                lemma_name_lt_below(x.file_name(), out[j].file_name(), out[last].file_name());
            }
        }
    }
}

/// Every list of siblings has a stable sort, and `sort_spec` is the only one.
pub proof fn lemma_sort_spec(s: Seq<NodeView>)
    ensures
        is_stable_sort_of(sort_spec(s), s),
        forall|r: Seq<NodeView>| is_stable_sort_of(r, s) ==> r == sort_spec(s),
    decreases s.len(),
{
    if s.len() == 0 {
        assert(is_stable_sort_of(Seq::<NodeView>::empty(), s)) by {
            assert(s =~= Seq::<NodeView>::empty());
        }
    } else {
        let init = s.drop_last();
        lemma_sort_spec(init);
        let out = sort_spec(init);
        lemma_insertion_point(out, s.last());
        lemma_insert_stable(out, init, s.last(), insertion_point(out, s.last()));
        assert(init.push(s.last()) =~= s);
    }
    assert forall|r: Seq<NodeView>| is_stable_sort_of(r, s) implies r == sort_spec(s) by {
        lemma_sorted_unique(r, sort_spec(s));
    }
}

/// Sorting rearranges: the sorted list holds each sibling as often as the
/// source does, and is as long.
pub proof fn lemma_sort_is_permutation(s: Seq<NodeView>)
    ensures
        sort_spec(s).to_multiset() == s.to_multiset(),
        sort_spec(s).len() == s.len(),
    decreases s.len(),
{
    broadcast use vstd::seq_lib::group_to_multiset_ensures;

    if s.len() == 0 {
        lemma_sort_spec(s);
        assert(is_stable_sort_of(Seq::<NodeView>::empty(), s)) by {
            assert(s =~= Seq::<NodeView>::empty());
        }
        assert(sort_spec(s) == Seq::<NodeView>::empty());
        assert(s =~= Seq::<NodeView>::empty());
    } else {
        let init = s.drop_last();
        let x = s.last();
        lemma_sort_is_permutation(init);
        lemma_sort_spec(init);
        lemma_sort_spec(s);
        let out = sort_spec(init);
        let p = insertion_point(out, x);
        lemma_insertion_point(out, x);
        lemma_insert_stable(out, init, x, p);
        assert(init.push(x) =~= s);
        let r = out.insert(p, x);
        assert(r == sort_spec(s));
        assert(r.remove(p) =~= out);
        assert(r[p] == x);
        vstd::seq_lib::to_multiset_remove(r, p);
        assert(r.to_multiset() =~= out.to_multiset().insert(x));
        vstd::seq_lib::to_multiset_build(init, x);
    }
}

// ---------------------------------------------------------------------------
// Grouping, stated
// ---------------------------------------------------------------------------

/// The category in force before the sibling at `i`: the tag of the sibling
/// before it, and the empty tag before the first.
pub open spec fn category_before(s: Seq<NodeView>, i: int) -> Seq<char> {
    if 0 < i <= s.len() {
        s[i - 1].tag()
    } else {
        Seq::empty()
    }
}

/// The ordered siblings with a separator and a part title before each
/// sibling whose category tag is not the one in force. The title is the tag
/// without its ordering prefix.
pub open spec fn group_spec(s: Seq<NodeView>) -> Seq<ItemView>
    decreases s.len(),
{
    if s.len() == 0 {
        Seq::empty()
    } else {
        let init = s.drop_last();
        let node = s.last();
        if node.tag() != category_before(s, s.len() - 1) {
            group_spec(init) + seq![
                ItemView::Separator,
                ItemView::PartTitle(trim_number_spec(node.tag())),
                ItemView::Node(node),
            ]
        } else {
            group_spec(init).push(ItemView::Node(node))
        }
    }
}

/// The final sibling list of a directory: its chapters stably sorted, then
/// grouped.
pub open spec fn reorder_spec(children: Seq<NodeView>) -> Seq<ItemView> {
    group_spec(sort_spec(children))
}

// ---------------------------------------------------------------------------
// Executable functions
// ---------------------------------------------------------------------------

/// Whether `a` sorts before `b`: by category tag first, by raw file name
/// second.
pub fn sorts_before(a: &Node, b: &Node) -> (r: bool)
    ensures
        r == node_lt(a@, b@),
{
    let name_a = a.file_name();
    let name_b = b.file_name();
    let (tag_a, _) = get_type_name_and_file_name(name_a);
    let (tag_b, _) = get_type_name_and_file_name(name_b);
    str_lt(tag_a, tag_b) || (str_eq(tag_a, tag_b) && str_lt(name_a, name_b))
}

/// Sorts siblings by category tag and raw file name, keeping siblings of one
/// name in the order given.
pub fn sort_nodes(nodes: Vec<Node>) -> (r: Vec<Node>)
    ensures
        is_stable_sort_of(nodes_view(r@), nodes_view(nodes@)),
        nodes_view(r@) == sort_spec(nodes_view(nodes@)),
{
    let ghost src = nodes_view(nodes@);
    let mut out: Vec<Node> = Vec::new();
    assert(is_stable_sort_of(nodes_view(out@), src.take(0))) by {
        assert(nodes_view(out@) =~= Seq::<NodeView>::empty());
        assert(src.take(0) =~= Seq::<NodeView>::empty());
    }
    for node in it: nodes
        invariant
            src == nodes_view(nodes@),
            it.seq() == nodes@,
            is_stable_sort_of(nodes_view(out@), src.take(it.index() as int)),
    {
        let ghost before = nodes_view(out@);
        let mut p: usize = out.len();
        while p > 0 && sorts_before(&node, &out[p - 1])
            invariant
                p <= out.len(),
                forall|j: int| p <= j < out.len() ==> node_lt(node@, #[trigger] nodes_view(out@)[j]),
            decreases p,
        {
            p -= 1;
        }
        proof {
            let x = node@;
            assert forall|j: int| 0 <= j < p implies !node_lt(x, #[trigger] before[j]) by {
                if j < p - 1 && node_lt(x, before[j]) {
                    assert(!node_lt(before[p - 1], before[j]));
                    lemma_name_lt_below(
                        x.file_name(),
                        before[j].file_name(),
                        before[p - 1].file_name(),
                    );
                }
            }
            lemma_insert_stable(before, src.take(it.index() as int), x, p as int);
            assert(src.take(it.index() as int).push(x) =~= src.take(it.index() + 1));
        }
        out.insert(p, node);
        assert(nodes_view(out@) =~= before.insert(p as int, node@));
    }
    proof {
        assert(src.take(nodes@.len() as int) =~= src);
        lemma_sort_spec(src);
    }
    out
}

/// Orders the chapters of one directory and marks the groups: a separator
/// and a part title stand before each chapter whose category tag differs
/// from that of the chapter before it, and before the first chapter unless
/// its tag is empty.
pub fn reorder(children: Vec<Node>) -> (r: Vec<Item>)
    ensures
        items_view(r@) == reorder_spec(nodes_view(children@)),
{
    let sorted = sort_nodes(children);
    let ghost s = nodes_view(sorted@);
    let mut items: Vec<Item> = Vec::new();
    let mut current_type: String = String::new();
    assert(items_view(items@) =~= group_spec(s.take(0)));
    for node in it: sorted
        invariant
            s == nodes_view(sorted@),
            it.seq() == sorted@,
            items_view(items@) == group_spec(s.take(it.index() as int)),
            current_type@ == category_before(s, it.index() as int),
    {
        let ghost i = it.index() as int;
        let ghost before = items_view(items@);
        proof {
            assert(s.take(i + 1).drop_last() =~= s.take(i));
            assert(s.take(i + 1).last() == node@);
            assert(category_before(s.take(i + 1), i) == category_before(s, i)) by {
                if i > 0 {
                    assert(s.take(i + 1)[i - 1] == s[i - 1]);
                }
            }
        }
        let (tag, _) = get_type_name_and_file_name(node.file_name());
        if !str_eq(tag, current_type.as_str()) {
            current_type = tag.to_owned();
            let title = trim_number(tag).to_owned();
            items.push(Item::Separator);
            items.push(Item::PartTitle(title));
            items.push(Item::Node(node));
            assert(items_view(items@) =~= before + seq![
                ItemView::Separator,
                ItemView::PartTitle(trim_number_spec(s[i].tag())),
                ItemView::Node(s[i]),
            ]);
        } else {
            items.push(Item::Node(node));
            assert(items_view(items@) =~= before.push(ItemView::Node(s[i])));
        }
    }
    assert(s.take(sorted@.len() as int) =~= s);
    items
}

} // verus!
