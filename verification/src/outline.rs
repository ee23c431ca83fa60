//! The outline: chapter nodes, the markers between groups of them, and the
//! mathematical views that the contracts of this crate speak of.

use vstd::prelude::*;
use crate::names::{get_type_name_and_file_name, str_eq, type_name_spec};

verus! {

/// One entry of a sibling list: a chapter, or one of the two markers that
/// open a group of chapters.
#[derive(Debug, PartialEq, Eq)]
pub enum Item {
    Node(Node),
    Separator,
    PartTitle(String),
}

/// A chapter of the outline.
#[derive(Debug, PartialEq, Eq)]
pub struct Node {
    /// The display name: the entry's name without its ordering prefix.
    pub name: String,
    /// The category tag of the final segment of `source_path`.
    pub category_tag: String,
    /// The raw text of the chapter.
    pub content: String,
    /// The segments of the path of the chapter's text, from the root.
    pub source_path: Vec<String>,
    /// The display names of the chapters above this one, outermost first.
    pub ancestor_names: Vec<String>,
    /// The place of the chapter in the outline; empty until it is numbered.
    pub position_number: Vec<usize>,
    /// The grouped sibling list below this chapter.
    pub children: Vec<Item>,
}

/// What a `Node` holds, as mathematical values.
pub ghost struct NodeView {
    pub name: Seq<char>,
    pub category_tag: Seq<char>,
    pub content: Seq<char>,
    pub source_path: Seq<Seq<char>>,
    pub ancestor_names: Seq<Seq<char>>,
    pub position_number: Seq<int>,
    pub children: Seq<ItemView>,
}

/// What an `Item` holds, as mathematical values.
pub ghost enum ItemView {
    Node(NodeView),
    Separator,
    PartTitle(Seq<char>),
}

/// The numbers of a position, as integers.
pub open spec fn numbers_view(numbers: Seq<usize>) -> Seq<int> {
    Seq::new(numbers.len(), |i: int| numbers[i] as int)
}

pub open spec fn node_view(n: Node) -> NodeView
    decreases n,
{
    NodeView {
        name: n.name@,
        category_tag: n.category_tag@,
        content: n.content@,
        source_path: n.source_path.deep_view(),
        ancestor_names: n.ancestor_names.deep_view(),
        position_number: numbers_view(n.position_number@),
        children: items_view(n.children@),
    }
}

pub open spec fn item_view(item: Item) -> ItemView
    decreases item,
{
    match item {
        Item::Node(n) => ItemView::Node(node_view(n)),
        Item::Separator => ItemView::Separator,
        Item::PartTitle(label) => ItemView::PartTitle(label@),
    }
}

/// The views of a list of items, in order.
pub open spec fn items_view(items: Seq<Item>) -> Seq<ItemView>
    decreases items,
{
    Seq::new(
        items.len(),
        |i: int|
            if 0 <= i < items.len() {
                item_view(items[i])
            } else {
                ItemView::Separator
            },
    )
}

/// The views of a list of nodes, in order.
pub open spec fn nodes_view(nodes: Seq<Node>) -> Seq<NodeView> {
    Seq::new(nodes.len(), |i: int| node_view(nodes[i]))
}

impl View for Node {
    type V = NodeView;

    open spec fn view(&self) -> NodeView {
        node_view(*self)
    }
}

impl View for Item {
    type V = ItemView;

    open spec fn view(&self) -> ItemView {
        item_view(*self)
    }
}

/// The final segment of a path, or the empty name for the empty path.
pub open spec fn raw_file_name(path: Seq<Seq<char>>) -> Seq<char> {
    if path.len() > 0 {
        path.last()
    } else {
        Seq::empty()
    }
}

impl NodeView {
    /// The final segment of the source path: the name by which siblings are
    /// ordered and grouped.
    pub open spec fn file_name(self) -> Seq<char> {
        raw_file_name(self.source_path)
    }

    /// The category tag, read off the raw file name.
    pub open spec fn tag(self) -> Seq<char> {
        type_name_spec(self.file_name())
    }

    /// A node holds the category tag of its own raw file name.
    pub open spec fn wf(self) -> bool {
        self.category_tag == self.tag()
    }
}

impl Node {
    /// A chapter without number and without children. Its category tag is
    /// that of the final segment of `source_path`.
    pub fn new(
        name: &str,
        content: String,
        source_path: Vec<String>,
        ancestor_names: Vec<String>,
    ) -> (r: Node)
        ensures
            r@ == (NodeView {
                name: name@,
                category_tag: type_name_spec(raw_file_name(source_path.deep_view())),
                content: content@,
                source_path: source_path.deep_view(),
                ancestor_names: ancestor_names.deep_view(),
                position_number: Seq::empty(),
                children: Seq::empty(),
            }),
            r@.wf(),
    {
        let category_tag = {
            let (tag, _) = get_type_name_and_file_name(Self::raw_name(&source_path));
            tag.to_owned()
        };
        let r = Node {
            name: name.to_owned(),
            category_tag,
            content,
            source_path,
            ancestor_names,
            position_number: Vec::new(),
            children: Vec::new(),
        };
        assert(r@.children =~= Seq::empty());
        assert(r@.position_number =~= Seq::empty());
        r
    }

    /// The final segment of a path, or the empty name for the empty path.
    pub fn raw_name(path: &Vec<String>) -> (r: &str)
        ensures
            r@ == raw_file_name(path.deep_view()),
    {
        let len = path.len();
        if len > 0 {
            path[len - 1].as_str()
        } else {
            proof {
                reveal_strlit("");
            }
            ""
        }
    }

    /// The name by which this chapter is ordered among its siblings.
    pub fn file_name(&self) -> (r: &str)
        ensures
            r@ == self@.file_name(),
    {
        Self::raw_name(&self.source_path)
    }
}

/// `f` may be applied to the item with its level, and to every item below
/// it with the level of each: one more than that of its parent.
pub open spec fn can_handle<F: Fn(&Item, usize)>(item: Item, level: int, f: F) -> bool
    decreases item,
{
    &&& 0 <= level <= usize::MAX
    &&& call_requires(f, (&item, level as usize))
    &&& match item {
        Item::Node(n) => forall|i: int|
            0 <= i < n.children@.len() ==> can_handle(#[trigger] n.children@[i], level + 1, f),
        _ => true,
    }
}

/// `f` has been applied to the item with its level, and to every item
/// below it with the level of each.
pub open spec fn handled<F: Fn(&Item, usize)>(item: Item, level: int, f: F) -> bool
    decreases item,
{
    &&& call_ensures(f, (&item, level as usize), ())
    &&& match item {
        Item::Node(n) => forall|i: int|
            0 <= i < n.children@.len() ==> handled(#[trigger] n.children@[i], level + 1, f),
        _ => true,
    }
}

impl Item {
    /// Applies `f` to this item and to every item below it, parents before
    /// their children and siblings in their order, each with its level.
    pub fn recursive_handle<F: Fn(&Item, usize)>(&self, level: usize, f: &F)
        requires
            can_handle(*self, level as int, *f),
        ensures
            handled(*self, level as int, *f),
        decreases self,
    {
        f(self, level);
        if let Item::Node(n) = self {
            let mut i: usize = 0;
            while i < n.children.len()
                invariant
                    i <= n.children.len(),
                    *self is Node,
                    self->Node_0 == *n,
                    can_handle(*self, level as int, *f),
                    forall|j: int| 0 <= j < i ==> handled(#[trigger] n.children@[j], level + 1, *f),
                decreases n.children.len() - i,
            {
                proof {
                    vstd::std_specs::vec::axiom_vec_index_decreases(n.children, i as int);
                    assert(can_handle(n.children@[i as int], level + 1, *f));
                }
                n.children[i].recursive_handle(level + 1, f);
                i += 1;
            }
        }
    }
}

impl Node {
    /// Whether two chapters count as one entry: they have the same category
    /// tag and the same display name.
    pub fn same_entry(&self, other: &Node) -> (r: bool)
        ensures
            r == (self@.category_tag == other@.category_tag && self@.name == other@.name),
    {
        str_eq(self.category_tag.as_str(), other.category_tag.as_str()) && str_eq(
            self.name.as_str(),
            other.name.as_str(),
        )
    }
}

} // verus!
