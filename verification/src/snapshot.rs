//! A picture of a directory tree that does not depend on the order in which
//! the file system lists the entries of a directory.

use vstd::prelude::*;
use vstd::string::*;
use vstd::utf8::{decode_utf8, valid_utf8};
use crate::snapshot_laws::lemma_captured_wf;
use crate::text::{lemma_before_irreflexive, lemma_before_total, name_before, place, Placement};

verus! {

/// A file or a directory as it was read: the bytes of a file, and the
/// entries of a directory in the order in which they were listed.
pub ghost enum RawTree {
    File(Seq<u8>),
    Dir(Seq<(Seq<char>, RawTree)>),
}

/// One entry of a directory as it was read.
#[derive(Debug, PartialEq, Eq)]
pub struct RawChild {
    pub name: String,
    pub entry: RawEntry,
}

/// A file or a directory as it was read.
#[derive(Debug, PartialEq, Eq)]
pub enum RawEntry {
    /// The bytes of a file.
    File(Vec<u8>),
    /// The entries of a directory, in the order in which they were listed.
    Dir(Vec<RawChild>),
}

impl RawEntry {
    /// What was read, as plain values.
    pub open spec fn tree(self) -> RawTree
        decreases self,
    {
        match self {
            RawEntry::File(bytes) => RawTree::File(bytes@),
            RawEntry::Dir(children) => RawTree::Dir(
                Seq::new(
                    children@.len(),
                    |i: int|
                        if 0 <= i < children@.len() {
                            (children@[i].name@, children@[i].entry.tree())
                        } else {
                            (Seq::empty(), RawTree::File(Seq::empty()))
                        },
                ),
            ),
        }
    }
}

/// The picture of a file or a directory: the text of a file, and the
/// entries of a directory by name.
pub ghost enum Tree {
    Leaf(Seq<char>),
    Node(Seq<(Seq<char>, Tree)>),
}

/// One entry of a directory in a picture.
#[derive(Debug, PartialEq, Eq)]
pub struct Child {
    pub name: String,
    pub entry: Entry,
}

/// The picture of a file or a directory.
#[derive(Debug, PartialEq, Eq)]
pub enum Entry {
    /// The text of a file.
    File(String),
    /// The entries of a directory, in the order of their names.
    Dir(Vec<Child>),
}

/// The entries of a directory in a picture, as plain values.
pub open spec fn child_views(children: Seq<Child>) -> Seq<(Seq<char>, Tree)> {
    Seq::new(children.len(), |i: int| (children[i].name@, children[i].entry.tree()))
}

impl Entry {
    /// The picture, as plain values.
    pub open spec fn tree(self) -> Tree
        decreases self,
    {
        match self {
            Entry::File(text) => Tree::Leaf(text@),
            Entry::Dir(children) => Tree::Node(
                Seq::new(
                    children@.len(),
                    |i: int|
                        if 0 <= i < children@.len() {
                            (children@[i].name@, children@[i].entry.tree())
                        } else {
                            (Seq::empty(), Tree::Leaf(Seq::empty()))
                        },
                ),
            ),
        }
    }
}

/// The names go up strictly from each entry to the next.
pub open spec fn sorted(children: Seq<(Seq<char>, Tree)>) -> bool {
    forall|i: int, j: int|
        0 <= i < j < children.len() ==> name_before(
            (#[trigger] children[i]).0,
            (#[trigger] children[j]).0,
        )
}

impl Tree {
    /// In every directory of the picture the entries stand in the order of
    /// their names, and no name stands twice.
    pub open spec fn wf(self) -> bool
        decreases self,
    {
        match self {
            Tree::Leaf(_) => true,
            Tree::Node(children) => sorted(children) && forall|i: int|
                0 <= i < children.len() ==> (#[trigger] children[i]).1.wf(),
        }
    }
}

/// What a list of entries holds by name. Where a name stands twice, the
/// later entry counts.
pub open spec fn mapping(children: Seq<(Seq<char>, Tree)>) -> Map<Seq<char>, Tree>
    decreases children.len(),
{
    if children.len() == 0 {
        Map::empty()
    } else {
        mapping(children.drop_last()).insert(children.last().0, children.last().1)
    }
}

/// A list in the order of names with one more entry in its place. An entry
/// of the same name gives way to the new one.
pub open spec fn insert_child(children: Seq<(Seq<char>, Tree)>, child: (Seq<char>, Tree)) -> Seq<
    (Seq<char>, Tree),
>
    decreases children.len(),
{
    if children.len() == 0 {
        seq![child]
    } else if name_before(child.0, children.last().0) {
        insert_child(children.drop_last(), child).push(children.last())
    } else if children.last().0 == child.0 {
        children.drop_last().push(child)
    } else {
        children.push(child)
    }
}

/// The picture of what was read. There is none where a file does not hold
/// text. The entries of each directory stand in the order of their names.
pub open spec fn captured(raw: RawTree) -> Option<Tree>
    decreases raw,
{
    match raw {
        RawTree::File(bytes) => if valid_utf8(bytes) {
            Some(Tree::Leaf(decode_utf8(bytes)))
        } else {
            None
        },
        RawTree::Dir(listing) => if all_captured(listing) {
            Some(Tree::Node(arrange(pictures(listing))))
        } else {
            None
        },
    }
}

/// There is a picture of every entry of the listing.
pub open spec fn all_captured(listing: Seq<(Seq<char>, RawTree)>) -> bool
    decreases listing,
{
    forall|i: int| 0 <= i < listing.len() ==> captured((#[trigger] listing[i]).1) is Some
}

/// The pictures of the entries of a listing, each under its name, in the
/// order of the listing.
pub open spec fn pictures(listing: Seq<(Seq<char>, RawTree)>) -> Seq<(Seq<char>, Tree)>
    decreases listing,
{
    Seq::new(
        listing.len(),
        |i: int|
            if 0 <= i < listing.len() {
                (listing[i].0, captured(listing[i].1)->0)
            } else {
                (Seq::empty(), Tree::Leaf(Seq::empty()))
            },
    )
}

/// Why there is no picture of what was read.
#[derive(Clone, Copy, Debug, PartialEq, Eq, Structural)]
pub enum SnapshotError {
    /// A file does not hold text.
    NotText,
}

/// The entries of a listing put in the order of their names.
pub open spec fn arrange(listing: Seq<(Seq<char>, Tree)>) -> Seq<(Seq<char>, Tree)>
    decreases listing.len(),
{
    if listing.len() == 0 {
        Seq::empty()
    } else {
        insert_child(arrange(listing.drop_last()), listing.last())
    }
}

/// `String::from_utf8` of the standard library, with its error dropped. It
/// is taken to succeed exactly on bytes that are valid UTF-8, and then to
/// give the text that the bytes encode.
#[verifier::external_body]
fn text_of(bytes: Vec<u8>) -> (text: Option<String>)
    ensures
        text is Some <==> valid_utf8(bytes@),
        text matches Some(t) ==> t@ == decode_utf8(bytes@),
{
    String::from_utf8(bytes).ok()
}

/// Puts one more entry in its place in a list. An entry of the same name
/// gives way to the new one.
pub fn insert_entry(children: &mut Vec<Child>, child: Child)
    ensures
        child_views(final(children)@) == insert_child(
            child_views(old(children)@),
            (child.name@, child.entry.tree()),
        ),
{
    let ghost before = child_views(children@);
    let ghost new = (child.name@, child.entry.tree());
    let mut p: usize = children.len();
    proof {
        assert(before.take(p as int) =~= before);
        assert(insert_child(before, new) + before.skip(p as int) =~= insert_child(before, new));
    }
    while p > 0 && place(child.name.as_str(), children[p - 1].name.as_str()) == Placement::Before
        invariant
            p <= children.len(),
            before == child_views(children@),
            new == (child.name@, child.entry.tree()),
            insert_child(before, new) == insert_child(before.take(p as int), new) + before.skip(
                p as int,
            ),
        decreases p,
    {
        proof {
            let front = before.take(p as int);
            assert(front.last() == before[p - 1]);
            assert(front.drop_last() =~= before.take(p - 1));
            assert(insert_child(front, new) == insert_child(before.take(p - 1), new).push(
                before[p - 1],
            ));
            assert(insert_child(before.take(p - 1), new).push(before[p - 1]) + before.skip(
                p as int,
            ) =~= insert_child(before.take(p - 1), new) + before.skip(p - 1));
        }
        p = p - 1;
    }
    let ghost front = before.take(p as int);
    if p > 0 {
        assert(front.last() == before[p - 1]);
        assert(front.drop_last() =~= before.take(p - 1));
        match place(child.name.as_str(), children[p - 1].name.as_str()) {
            Placement::Same => {
                proof {
                    lemma_before_irreflexive(new.0);
                }
                children[p - 1] = child;
                assert(child_views(children@) =~= before.take(p - 1).push(new) + before.skip(
                    p as int,
                ));
            },
            _ => {
                proof {
                    lemma_before_total(new.0, before[p - 1].0);
                }
                children.insert(p, child);
                assert(child_views(children@) =~= front.push(new) + before.skip(p as int));
            },
        }
    } else {
        children.insert(p, child);
        assert(child_views(children@) =~= seq![new] + before.skip(p as int));
    }
}

/// Makes the picture of what was read. There is none where a file does not
/// hold text. In the picture the entries of each directory stand in the order
/// of their names, whatever the order in which they were listed.
pub fn capture(raw: &RawEntry) -> (picture: Result<Entry, SnapshotError>)
    ensures
        match captured(raw.tree()) {
            Some(tree) => picture matches Ok(entry) && entry.tree() == tree && tree.wf(),
            None => picture == Err::<Entry, SnapshotError>(SnapshotError::NotText),
        },
    decreases raw,
{
    proof {
        lemma_captured_wf(raw.tree());
    }
    match raw {
        RawEntry::File(bytes) => {
            assert(raw.tree() == RawTree::File(bytes@));
            match text_of(bytes.clone()) {
                Some(text) => Ok(Entry::File(text)),
                None => Err(SnapshotError::NotText),
            }
        },
        RawEntry::Dir(listing) => {
            let ghost read = raw.tree()->Dir_0;
            let ghost pictures = pictures(read);
            let mut children: Vec<Child> = Vec::new();
            let mut i: usize = 0;
            assert(pictures.take(0) =~= Seq::empty());
            while i < listing.len()
                invariant
                    *raw == RawEntry::Dir(*listing),
                    read == raw.tree()->Dir_0,
                    read.len() == listing.len(),
                    pictures.len() == read.len(),
                    forall|k: int|
                        0 <= k < read.len() ==> (#[trigger] pictures[k]) == (
                            read[k].0,
                            captured(read[k].1)->0,
                        ),
                    i <= listing.len(),
                    forall|k: int| 0 <= k < i ==> captured((#[trigger] read[k]).1) is Some,
                    child_views(children@) == arrange(pictures.take(i as int)),
                decreases listing.len() - i,
            {
                proof {
                    broadcast use vstd::std_specs::vec::axiom_vec_index_decreases;
                    assert(raw->Dir_0 == *listing);
                    assert(decreases_to!(*raw => raw->Dir_0));
                    assert(decreases_to!(listing[i as int] => listing[i as int].entry));
                    assert(read[i as int] == (listing[i as int].name@, listing[i as int].entry.tree()));
                }
                match capture(&listing[i].entry) {
                    Err(e) => {
                        assert(captured(read[i as int].1) is None);
                        return Err(e);
                    },
                    Ok(entry) => {
                        let child = Child { name: listing[i].name.clone(), entry };
                        assert(pictures.take(i + 1).drop_last() =~= pictures.take(i as int));
                        assert(pictures.take(i + 1).last() == pictures[i as int]);
                        insert_entry(&mut children, child);
                    },
                }
                i = i + 1;
            }
            assert(pictures.take(i as int) =~= pictures);
            let entry = Entry::Dir(children);
            assert(entry.tree() is Node);
            assert(entry.tree()->Node_0 =~= child_views(children@));
            assert(raw.tree() == RawTree::Dir(read));
            Ok(entry)
        },
    }
}

} // verus!
