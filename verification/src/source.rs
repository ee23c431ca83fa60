//! The source tree as it was listed: plain values that stand for the
//! directories and files below the root of a book.

use vstd::prelude::*;

verus! {

/// What a directory entry is.
#[derive(Debug, PartialEq, Eq)]
pub enum EntryKind {
    /// A file with its text; the text is empty where it could not be read.
    File(String),
    /// A directory with its entries, in the order in which they were listed.
    Dir(Vec<Entry>),
    /// A directory whose entries could not be listed, and why.
    Unreadable(String),
}

/// A directory entry: its name and what it is.
#[derive(Debug, PartialEq, Eq)]
pub struct Entry {
    pub name: String,
    pub kind: EntryKind,
}

/// A directory that had to be listed and could not be.
#[derive(Debug, PartialEq, Eq)]
pub struct WalkError {
    /// The segments of the directory's path, from the root.
    pub path: Vec<String>,
    /// What the listing reported.
    pub reason: String,
}

pub ghost enum EntryKindView {
    File(Seq<char>),
    Dir(Seq<EntryView>),
    Unreadable(Seq<char>),
}

pub ghost struct EntryView {
    pub name: Seq<char>,
    pub kind: EntryKindView,
}

pub ghost struct WalkErrorView {
    pub path: Seq<Seq<char>>,
    pub reason: Seq<char>,
}

pub open spec fn entry_view(entry: Entry) -> EntryView
    decreases entry,
{
    EntryView {
        name: entry.name@,
        kind: match entry.kind {
            EntryKind::File(content) => EntryKindView::File(content@),
            EntryKind::Dir(entries) => EntryKindView::Dir(entries_view(entries@)),
            EntryKind::Unreadable(reason) => EntryKindView::Unreadable(reason@),
        },
    }
}

/// The views of a list of entries, in order.
pub open spec fn entries_view(entries: Seq<Entry>) -> Seq<EntryView>
    decreases entries,
{
    Seq::new(
        entries.len(),
        |i: int|
            if 0 <= i < entries.len() {
                entry_view(entries[i])
            } else {
                EntryView { name: Seq::empty(), kind: EntryKindView::File(Seq::empty()) }
            },
    )
}

impl View for Entry {
    type V = EntryView;

    open spec fn view(&self) -> EntryView {
        entry_view(*self)
    }
}

impl View for WalkError {
    type V = WalkErrorView;

    open spec fn view(&self) -> WalkErrorView {
        WalkErrorView { path: self.path.deep_view(), reason: self.reason@ }
    }
}

impl Entry {
    /// A file with its text.
    pub fn file(name: &str, content: &str) -> (r: Entry)
        ensures
            r@ == (EntryView { name: name@, kind: EntryKindView::File(content@) }),
    {
        Entry { name: name.to_owned(), kind: EntryKind::File(content.to_owned()) }
    }

    /// A directory with its entries.
    pub fn dir(name: &str, entries: Vec<Entry>) -> (r: Entry)
        ensures
            r@ == (EntryView { name: name@, kind: EntryKindView::Dir(entries_view(entries@)) }),
    {
        Entry { name: name.to_owned(), kind: EntryKind::Dir(entries) }
    }

    /// A directory that could not be listed.
    pub fn unreadable(name: &str, reason: &str) -> (r: Entry)
        ensures
            r@ == (EntryView { name: name@, kind: EntryKindView::Unreadable(reason@) }),
    {
        Entry { name: name.to_owned(), kind: EntryKind::Unreadable(reason.to_owned()) }
    }
}

} // verus!
