//! Why the picture of a directory does not depend on the order in which its
//! entries were listed.

use vstd::prelude::*;
use crate::snapshot::{
    all_captured, arrange, captured, insert_child, mapping, pictures, sorted, RawTree, Tree,
};
use crate::text::{
    lemma_before_asymmetric, lemma_before_irreflexive, lemma_before_total,
    lemma_before_transitive, name_before,
};

verus! {

/// No name stands twice in the list.
pub open spec fn distinct_names(children: Seq<(Seq<char>, Tree)>) -> bool {
    forall|i: int, j: int|
        0 <= i < j < children.len() ==> (#[trigger] children[i]).0 != (#[trigger] children[j]).0
}

/// In a list in the order of names no name stands twice.
pub proof fn lemma_sorted_distinct(children: Seq<(Seq<char>, Tree)>)
    requires
        sorted(children),
    ensures
        distinct_names(children),
{
    assert forall|i: int, j: int| 0 <= i < j < children.len() implies (#[trigger] children[i]).0 != (
    #[trigger] children[j]).0 by {
        lemma_before_irreflexive(children[i].0);
    }
}

/// Where no name stands twice, the list holds by name exactly its entries.
pub proof fn lemma_mapping(children: Seq<(Seq<char>, Tree)>)
    requires
        distinct_names(children),
    ensures
        forall|i: int|
            0 <= i < children.len() ==> mapping(children).dom().contains(
                (#[trigger] children[i]).0,
            ) && mapping(children)[children[i].0] == children[i].1,
        forall|name: Seq<char>| #[trigger]
            mapping(children).dom().contains(name) ==> exists|i: int|
                0 <= i < children.len() && (#[trigger] children[i]).0 == name,
    decreases children.len(),
{
    if children.len() > 0 {
        let front = children.drop_last();
        let last = children.last();
        assert forall|i: int, j: int| 0 <= i < j < front.len() implies (#[trigger] front[i]).0 != (
        #[trigger] front[j]).0 by {
            assert(front[i] == children[i] && front[j] == children[j]);
        }
        lemma_mapping(front);
        assert forall|i: int| 0 <= i < children.len() implies mapping(children).dom().contains(
            (#[trigger] children[i]).0,
        ) && mapping(children)[children[i].0] == children[i].1 by {
            if i < front.len() {
                assert(front[i] == children[i]);
                assert(children[i].0 != children[children.len() - 1].0);
            }
        }
        assert forall|name: Seq<char>| #[trigger]
            mapping(children).dom().contains(name) implies exists|i: int|
            0 <= i < children.len() && (#[trigger] children[i]).0 == name by {
            if name == last.0 {
                assert(children[children.len() - 1].0 == name);
            } else {
                assert(mapping(front).dom().contains(name));
                let i = choose|i: int| 0 <= i < front.len() && (#[trigger] front[i]).0 == name;
                assert(children[i] == front[i]);
            }
        }
    }
}

/// With one more entry put in its place, a list in the order of names is
/// still in that order, and holds nothing but the new entry and its own.
pub proof fn lemma_insert_sorted(children: Seq<(Seq<char>, Tree)>, child: (Seq<char>, Tree))
    requires
        sorted(children),
    ensures
        sorted(insert_child(children, child)),
        forall|k: int|
            0 <= k < insert_child(children, child).len() ==> (#[trigger] insert_child(
                children,
                child,
            )[k]) == child || children.contains(insert_child(children, child)[k]),
    decreases children.len(),
{
    let result = insert_child(children, child);
    if children.len() == 0 {
    } else {
        let front = children.drop_last();
        let last = children.last();
        assert forall|i: int, j: int| 0 <= i < j < front.len() implies name_before(
            (#[trigger] front[i]).0,
            (#[trigger] front[j]).0,
        ) by {
            assert(front[i] == children[i] && front[j] == children[j]);
        }
        if name_before(child.0, last.0) {
            let inner = insert_child(front, child);
            lemma_insert_sorted(front, child);
            assert forall|k: int| 0 <= k < result.len() implies (#[trigger] result[k]) == child
                || children.contains(result[k]) by {
                if k < inner.len() {
                    assert(result[k] == inner[k]);
                    if inner[k] != child {
                        let j = choose|j: int| 0 <= j < front.len() && front[j] == inner[k];
                        assert(children[j] == inner[k]);
                    }
                } else {
                    assert(children[children.len() - 1] == result[k]);
                }
            }
            assert forall|i: int, j: int| 0 <= i < j < result.len() implies name_before(
                (#[trigger] result[i]).0,
                (#[trigger] result[j]).0,
            ) by {
                if j < inner.len() {
                    assert(result[i] == inner[i] && result[j] == inner[j]);
                } else {
                    assert(result[j] == last);
                    assert(result[i] == inner[i]);
                    if inner[i] != child {
                        let m = choose|m: int| 0 <= m < front.len() && front[m] == inner[i];
                        assert(children[m] == inner[i]);
                        assert(children[children.len() - 1] == last);
                    }
                }
            }
        } else if last.0 == child.0 {
            assert forall|k: int| 0 <= k < result.len() implies (#[trigger] result[k]) == child
                || children.contains(result[k]) by {
                if k < front.len() {
                    assert(children[k] == result[k]);
                }
            }
            assert forall|i: int, j: int| 0 <= i < j < result.len() implies name_before(
                (#[trigger] result[i]).0,
                (#[trigger] result[j]).0,
            ) by {
                assert(result[i] == children[i]);
                if j < front.len() {
                    assert(result[j] == children[j]);
                } else {
                    assert(children[j].0 == child.0);
                }
            }
        } else {
            lemma_before_total(child.0, last.0);
            assert forall|k: int| 0 <= k < result.len() implies (#[trigger] result[k]) == child
                || children.contains(result[k]) by {
                if k < children.len() {
                    assert(children[k] == result[k]);
                }
            }
            assert forall|i: int, j: int| 0 <= i < j < result.len() implies name_before(
                (#[trigger] result[i]).0,
                (#[trigger] result[j]).0,
            ) by {
                assert(result[i] == children[i]);
                if j < children.len() {
                    assert(result[j] == children[j]);
                } else {
                    assert(children[children.len() - 1] == last);
                    if i < children.len() - 1 {
                        lemma_before_transitive(children[i].0, last.0, child.0);
                    }
                }
            }
        }
    }
}

/// With one more entry put in its place, a list holds by name what it held,
/// but for the name of the new entry, under which it holds that entry.
pub proof fn lemma_insert_mapping(children: Seq<(Seq<char>, Tree)>, child: (Seq<char>, Tree))
    ensures
        mapping(insert_child(children, child)) == mapping(children).insert(child.0, child.1),
    decreases children.len(),
{
    let result = insert_child(children, child);
    if children.len() == 0 {
        assert(result.drop_last() =~= children);
        assert(result.last() == child);
    } else {
        let front = children.drop_last();
        let last = children.last();
        if name_before(child.0, last.0) {
            lemma_insert_mapping(front, child);
            lemma_before_irreflexive(child.0);
            let inner = insert_child(front, child);
            assert(result.drop_last() =~= inner);
            assert(result.last() == last);
            assert(mapping(result) =~= mapping(children).insert(child.0, child.1));
        } else if last.0 == child.0 {
            assert(result.drop_last() =~= front);
            assert(result.last() == child);
            assert(mapping(result) =~= mapping(children).insert(child.0, child.1));
        } else {
            assert(result.drop_last() =~= children);
            assert(result.last() == child);
        }
    }
}

/// A listing put in order is in the order of names, and holds by name what
/// the listing held.
pub proof fn lemma_arrange(listing: Seq<(Seq<char>, Tree)>)
    ensures
        sorted(arrange(listing)),
        mapping(arrange(listing)) == mapping(listing),
    decreases listing.len(),
{
    if listing.len() > 0 {
        lemma_arrange(listing.drop_last());
        lemma_insert_sorted(arrange(listing.drop_last()), listing.last());
        lemma_insert_mapping(arrange(listing.drop_last()), listing.last());
    }
}

/// What a list in the order of names holds by name decides the list: two
/// such lists that hold the same are the same list.
pub proof fn lemma_sorted_unique(a: Seq<(Seq<char>, Tree)>, b: Seq<(Seq<char>, Tree)>)
    requires
        sorted(a),
        sorted(b),
        mapping(a) == mapping(b),
    ensures
        a == b,
    decreases a.len(),
{
    lemma_sorted_distinct(a);
    lemma_sorted_distinct(b);
    lemma_mapping(a);
    lemma_mapping(b);
    if a.len() == 0 {
        if b.len() > 0 {
            assert(mapping(b).dom().contains(b[0].0));
            assert(mapping(a) =~= Map::empty());
        }
        assert(a =~= b);
    } else if b.len() == 0 {
        assert(mapping(a).dom().contains(a[0].0));
        assert(mapping(b) =~= Map::empty());
    } else {
        let la = a.last();
        let lb = b.last();
        assert(a[a.len() - 1] == la && b[b.len() - 1] == lb);
        assert(mapping(b).dom().contains(la.0));
        assert(mapping(a).dom().contains(lb.0));
        let j = choose|j: int| 0 <= j < b.len() && (#[trigger] b[j]).0 == la.0;
        let i = choose|i: int| 0 <= i < a.len() && (#[trigger] a[i]).0 == lb.0;
        if la.0 != lb.0 {
            assert(name_before(b[j].0, b[b.len() - 1].0));
            assert(name_before(a[i].0, a[a.len() - 1].0));
            lemma_before_asymmetric(la.0, lb.0);
        }
        assert(la.1 == mapping(a)[la.0]);
        assert(lb.1 == mapping(b)[lb.0]);
        assert(la == lb);
        let fa = a.drop_last();
        let fb = b.drop_last();
        lemma_front_sorted(a);
        lemma_front_sorted(b);
        assert(mapping(fa) =~= mapping(fb));
        lemma_sorted_unique(fa, fb);
        assert(a =~= fa.push(la));
        assert(b =~= fb.push(lb));
    }
}

/// A list in the order of names without its last entry is in that order too,
/// and holds by name what the list held, but for the name of the last entry.
pub proof fn lemma_front_sorted(children: Seq<(Seq<char>, Tree)>)
    requires
        sorted(children),
        children.len() > 0,
    ensures
        sorted(children.drop_last()),
        mapping(children.drop_last()) == mapping(children).remove(children.last().0),
{
    let front = children.drop_last();
    let last = children.last();
    assert forall|i: int, j: int| 0 <= i < j < front.len() implies name_before(
        (#[trigger] front[i]).0,
        (#[trigger] front[j]).0,
    ) by {
        assert(front[i] == children[i] && front[j] == children[j]);
    }
    lemma_sorted_distinct(front);
    lemma_mapping(front);
    if mapping(front).dom().contains(last.0) {
        let i = choose|i: int| 0 <= i < front.len() && (#[trigger] front[i]).0 == last.0;
        assert(front[i] == children[i]);
        assert(children[children.len() - 1] == last);
        lemma_before_irreflexive(last.0);
    }
    assert(mapping(front) =~= mapping(children).remove(last.0));
}

/// The order in which a directory is listed does not show in the picture:
/// two listings of the same entries, each name once, are put in the same order.
pub proof fn lemma_arrange_any_order(a: Seq<(Seq<char>, Tree)>, b: Seq<(Seq<char>, Tree)>)
    requires
        distinct_names(a),
        distinct_names(b),
        forall|entry: (Seq<char>, Tree)| a.contains(entry) <==> b.contains(entry),
    ensures
        arrange(a) == arrange(b),
{
    lemma_mapping(a);
    lemma_mapping(b);
    assert forall|name: Seq<char>| mapping(a).dom().contains(name) implies mapping(
        b,
    ).dom().contains(name) && mapping(b)[name] == mapping(a)[name] by {
        let i = choose|i: int| 0 <= i < a.len() && (#[trigger] a[i]).0 == name;
        assert(a.contains(a[i]));
        assert(b.contains(a[i]));
        let j = choose|j: int| 0 <= j < b.len() && b[j] == a[i];
        assert(b[j].0 == name);
    }
    assert forall|name: Seq<char>| mapping(b).dom().contains(name) implies mapping(
        a,
    ).dom().contains(name) by {
        let j = choose|j: int| 0 <= j < b.len() && (#[trigger] b[j]).0 == name;
        assert(b.contains(b[j]));
        assert(a.contains(b[j]));
        let i = choose|i: int| 0 <= i < a.len() && a[i] == b[j];
        assert(a[i].0 == name);
    }
    assert(mapping(a) =~= mapping(b));
    lemma_arrange(a);
    lemma_arrange(b);
    lemma_sorted_unique(arrange(a), arrange(b));
}

/// A listing put in order holds no entry that the listing did not hold.
pub proof fn lemma_arrange_entries(listing: Seq<(Seq<char>, Tree)>)
    ensures
        forall|k: int|
            0 <= k < arrange(listing).len() ==> listing.contains(#[trigger] arrange(listing)[k]),
    decreases listing.len(),
{
    if listing.len() > 0 {
        let front = listing.drop_last();
        let last = listing.last();
        lemma_arrange(front);
        lemma_arrange_entries(front);
        lemma_insert_sorted(arrange(front), last);
        assert forall|k: int| 0 <= k < arrange(listing).len() implies listing.contains(
            #[trigger] arrange(listing)[k],
        ) by {
            let entry = arrange(listing)[k];
            if entry == last {
                assert(listing[listing.len() - 1] == entry);
            } else {
                let m = choose|m: int| 0 <= m < arrange(front).len() && arrange(front)[m] == entry;
                let n = choose|n: int| 0 <= n < front.len() && front[n] == entry;
                assert(listing[n] == entry);
            }
        }
    }
}

/// In every directory of a picture the entries stand in the order of their
/// names.
pub proof fn lemma_captured_wf(raw: RawTree)
    ensures
        captured(raw) matches Some(tree) ==> tree.wf(),
    decreases raw,
{
    match raw {
        RawTree::File(_) => {},
        RawTree::Dir(listing) => {
            if all_captured(listing) {
                let listed = pictures(listing);
                let children = arrange(listed);
                lemma_arrange(listed);
                lemma_arrange_entries(listed);
                assert forall|k: int| 0 <= k < children.len() implies (#[trigger] children[k]).1.wf() by {
                    let i = choose|i: int| 0 <= i < listed.len() && listed[i] == children[k];
                    lemma_captured_wf(listing[i].1);
                }
            }
        },
    }
}

/// No name stands twice in what was listed of a directory.
pub open spec fn distinct_listing(listing: Seq<(Seq<char>, RawTree)>) -> bool {
    forall|i: int, j: int|
        0 <= i < j < listing.len() ==> (#[trigger] listing[i]).0 != (#[trigger] listing[j]).0
}

/// An entry of the first listing stands in the second listing too: under the
/// same name, and with the same read of it.
pub open spec fn in_second(entry: (Seq<char>, RawTree), second: Seq<(Seq<char>, RawTree)>) -> bool
    decreases entry,
{
    exists|j: int|
        0 <= j < second.len() && (#[trigger] second[j]).0 == entry.0 && same_entries(
            entry.1,
            second[j].1,
        )
}

/// An entry of the second listing stands in the first listing too: under the
/// same name, and with the same read of it.
pub open spec fn in_first(first: Seq<(Seq<char>, RawTree)>, entry: (Seq<char>, RawTree)) -> bool
    decreases first,
{
    exists|i: int|
        0 <= i < first.len() && (#[trigger] first[i]).0 == entry.0 && same_entries(
            first[i].1,
            entry.1,
        )
}

/// Two readings of the same tree: the files hold the same bytes, and each
/// directory was listed with the same entries, each name once, in whatever
/// order.
pub open spec fn same_entries(a: RawTree, b: RawTree) -> bool
    decreases a,
{
    match a {
        RawTree::File(_) => b == a,
        RawTree::Dir(first) => {
            &&& b is Dir
            &&& distinct_listing(first)
            &&& distinct_listing(b->Dir_0)
            &&& forall|i: int| 0 <= i < first.len() ==> in_second(#[trigger] first[i], b->Dir_0)
            &&& forall|j: int|
                0 <= j < b->Dir_0.len() ==> in_first(first, #[trigger] b->Dir_0[j])
        },
    }
}

/// Entry `i` of the first listing has, in the second, an entry of the same
/// name and with the same picture.
spec fn paired_in_second(
    first: Seq<(Seq<char>, RawTree)>,
    second: Seq<(Seq<char>, RawTree)>,
    i: int,
) -> bool {
    exists|j: int|
        0 <= j < second.len() && (#[trigger] second[j]).0 == first[i].0 && captured(second[j].1)
            == captured(first[i].1)
}

/// Entry `j` of the second listing has, in the first, an entry of the same
/// name and with the same picture.
spec fn paired_in_first(
    first: Seq<(Seq<char>, RawTree)>,
    second: Seq<(Seq<char>, RawTree)>,
    j: int,
) -> bool {
    exists|i: int|
        0 <= i < first.len() && (#[trigger] first[i]).0 == second[j].0 && captured(first[i].1)
            == captured(second[j].1)
}

/// An entry that was read twice has one picture.
proof fn lemma_paired_in_second(a: RawTree, b: RawTree, i: int)
    requires
        same_entries(a, b),
        a is Dir,
        0 <= i < a->Dir_0.len(),
    ensures
        paired_in_second(a->Dir_0, b->Dir_0, i),
    decreases a, 0int,
{
    let first = a->Dir_0;
    let second = b->Dir_0;
    assert(in_second(first[i], second));
    let j = choose|j: int|
        0 <= j < second.len() && (#[trigger] second[j]).0 == first[i].0 && same_entries(
            first[i].1,
            second[j].1,
        );
    lemma_capture_any_order(first[i].1, second[j].1);
}

/// An entry that was read twice has one picture.
proof fn lemma_paired_in_first(a: RawTree, b: RawTree, j: int)
    requires
        same_entries(a, b),
        a is Dir,
        0 <= j < b->Dir_0.len(),
    ensures
        paired_in_first(a->Dir_0, b->Dir_0, j),
    decreases a, 0int,
{
    let first = a->Dir_0;
    let second = b->Dir_0;
    assert(in_first(first, second[j]));
    let i = choose|i: int|
        0 <= i < first.len() && (#[trigger] first[i]).0 == second[j].0 && same_entries(
            first[i].1,
            second[j].1,
        );
    lemma_capture_any_order(first[i].1, second[j].1);
}

/// The picture does not depend on the order in which directories are listed:
/// two readings of the same tree give the same picture, or both give none.
pub proof fn lemma_capture_any_order(a: RawTree, b: RawTree)
    requires
        same_entries(a, b),
    ensures
        captured(a) == captured(b),
    decreases a, 1int,
{
    match a {
        RawTree::File(_) => {},
        RawTree::Dir(first) => {
            let second = b->Dir_0;
            assert forall|i: int| 0 <= i < first.len() implies #[trigger] paired_in_second(
                first,
                second,
                i,
            ) by {
                lemma_paired_in_second(a, b, i);
            }
            assert forall|j: int| 0 <= j < second.len() implies #[trigger] paired_in_first(
                first,
                second,
                j,
            ) by {
                lemma_paired_in_first(a, b, j);
            }
            lemma_paired_pictures(first, second);
            if all_captured(first) {
                lemma_arrange_any_order(pictures(first), pictures(second));
            }
        },
    }
}

/// Two listings of which each entry has, in the other, an entry of the same
/// name and with the same picture: there is a picture of every entry of one
/// exactly if there is of every entry of the other, and then the pictures
/// are the same, in whatever order.
proof fn lemma_paired_pictures(
    first: Seq<(Seq<char>, RawTree)>,
    second: Seq<(Seq<char>, RawTree)>,
)
    requires
        distinct_listing(first),
        distinct_listing(second),
        forall|i: int| 0 <= i < first.len() ==> #[trigger] paired_in_second(first, second, i),
        forall|j: int| 0 <= j < second.len() ==> #[trigger] paired_in_first(first, second, j),
    ensures
        all_captured(first) == all_captured(second),
        all_captured(first) ==> distinct_names(pictures(first)) && distinct_names(
            pictures(second),
        ) && forall|entry: (Seq<char>, Tree)|
            pictures(first).contains(entry) <==> pictures(second).contains(entry),
{
    let pa = pictures(first);
    let pb = pictures(second);
    if all_captured(first) {
        assert forall|j: int| 0 <= j < second.len() implies captured((#[trigger] second[j]).1)
            is Some by {
            assert(paired_in_first(first, second, j));
        }
    }
    if all_captured(second) {
        assert forall|i: int| 0 <= i < first.len() implies captured((#[trigger] first[i]).1)
            is Some by {
            assert(paired_in_second(first, second, i));
        }
    }
    if all_captured(first) {
        assert forall|i: int, j: int| 0 <= i < j < pa.len() implies (#[trigger] pa[i]).0 != (
        #[trigger] pa[j]).0 by {
            assert(first[i].0 != first[j].0);
        }
        assert forall|i: int, j: int| 0 <= i < j < pb.len() implies (#[trigger] pb[i]).0 != (
        #[trigger] pb[j]).0 by {
            assert(second[i].0 != second[j].0);
        }
        assert forall|entry: (Seq<char>, Tree)| pa.contains(entry) implies pb.contains(entry) by {
            let i = choose|i: int| 0 <= i < pa.len() && pa[i] == entry;
            assert(paired_in_second(first, second, i));
            let j = choose|j: int|
                0 <= j < second.len() && (#[trigger] second[j]).0 == first[i].0 && captured(
                    second[j].1,
                ) == captured(first[i].1);
            assert(pb[j] == entry);
        }
        assert forall|entry: (Seq<char>, Tree)| pb.contains(entry) implies pa.contains(entry) by {
            let j = choose|j: int| 0 <= j < pb.len() && pb[j] == entry;
            assert(paired_in_first(first, second, j));
            let i = choose|i: int|
                0 <= i < first.len() && (#[trigger] first[i]).0 == second[j].0 && captured(
                    first[i].1,
                ) == captured(second[j].1);
            assert(pa[i] == entry);
        }
    }
}

} // verus!
