//! What holds of the files of a registry after packages were published.

use vstd::prelude::*;
use crate::files::{apply, apply_all, bytes_at, read, Files};
use crate::index::{entry_line, index_bytes, lemma_records_of_index_bytes, records_of};
use crate::layout::{
    contents_file, index_file, lemma_contents_file_injective, lemma_places_apart,
};
use crate::name::NameView;
use crate::package::{single_line, IdView, ManifestView};
use crate::registry::publish_ops;

verus! {

/// One publishing: a manifest and the contents that go with it.
pub ghost struct Publication {
    pub manifest: ManifestView,
    pub contents: Seq<u8>,
}

/// The files after one publishing whose operations all went well.
pub open spec fn published(root: Seq<char>, files: Files, publication: Publication) -> Files {
    apply_all(files, publish_ops(root, publication.manifest, publication.contents))
}

/// The files after a sequence of publishings, made in order.
pub open spec fn published_all(root: Seq<char>, files: Files, publications: Seq<Publication>) -> Files
    decreases publications.len(),
{
    if publications.len() == 0 {
        files
    } else {
        published(
            root,
            published_all(root, files, publications.drop_last()),
            publications.last(),
        )
    }
}

/// The records of the publishings of one package name, in their order.
pub open spec fn records_for(name: NameView, publications: Seq<Publication>) -> Seq<Seq<u8>>
    decreases publications.len(),
{
    if publications.len() == 0 {
        Seq::empty()
    } else {
        let earlier = records_for(name, publications.drop_last());
        if publications.last().manifest.name == name {
            earlier.push(publications.last().manifest.record)
        } else {
            earlier
        }
    }
}

/// What one publishing leaves behind: the index file of the package name has
/// grown by one line, the contents of the version are those that were
/// published, and every other file is as it was.
pub proof fn lemma_published(root: Seq<char>, files: Files, publication: Publication)
    ensures
        published(root, files, publication) == files.insert(
            index_file(root, publication.manifest.name),
            bytes_at(files, index_file(root, publication.manifest.name)) + entry_line(
                publication.manifest.record,
            ),
        ).insert(contents_file(root, publication.manifest.id()), publication.contents),
{
    let ops = publish_ops(root, publication.manifest, publication.contents);
    let ops3 = ops.drop_last();
    let ops2 = ops3.drop_last();
    let ops1 = ops2.drop_last();
    assert(ops1.drop_last().len() == 0);
    assert(apply_all(files, ops1.drop_last()) == files);
    assert(apply_all(files, ops1) == apply(files, ops[0]));
    assert(apply_all(files, ops2) == apply(apply_all(files, ops1), ops[1]));
    assert(apply_all(files, ops3) == apply(apply_all(files, ops2), ops[2]));
    assert(apply_all(files, ops) == apply(apply_all(files, ops3), ops[3]));
}

/// The index only grows. After any sequence of publishings, the index file of
/// a package name holds what it held before, followed by one line for each
/// publishing of that name, in the order in which they were made.
pub proof fn lemma_index_append_only(
    root: Seq<char>,
    files: Files,
    publications: Seq<Publication>,
    name: NameView,
)
    ensures
        bytes_at(published_all(root, files, publications), index_file(root, name)) == bytes_at(
            files,
            index_file(root, name),
        ) + index_bytes(records_for(name, publications)),
    decreases publications.len(),
{
    let path = index_file(root, name);
    if publications.len() == 0 {
        assert(bytes_at(files, path) + index_bytes(records_for(name, publications)) =~= bytes_at(
            files,
            path,
        ));
    } else {
        let earlier = publications.drop_last();
        let last = publications.last();
        let before = published_all(root, files, earlier);
        lemma_index_append_only(root, files, earlier, name);
        lemma_published(root, before, last);
        let own = index_file(root, last.manifest.name);
        assert(contents_file(root, last.manifest.id()).segments.len() == 4);
        assert(path.segments.len() == 3);
        if last.manifest.name == name {
            assert(records_for(name, publications).drop_last() =~= records_for(name, earlier));
            assert(bytes_at(published_all(root, files, publications), path) =~= bytes_at(
                files,
                path,
            ) + index_bytes(records_for(name, publications)));
        } else {
            assert(own.segments[1] == last.manifest.name.scope);
            assert(own.segments[2] == last.manifest.name.name);
            assert(path.segments[1] == name.scope);
            assert(path.segments[2] == name.name);
            assert(own != path);
        }
    }
}

/// Published to a package name that had no index file, a sequence of
/// manifests leaves an index file that holds exactly their lines, in the
/// order of publishing.
pub proof fn lemma_index_is_lines_in_order(
    root: Seq<char>,
    files: Files,
    publications: Seq<Publication>,
    name: NameView,
)
    requires
        read(files, index_file(root, name)) is None,
        forall|i: int|
            0 <= i < publications.len() ==> (#[trigger] publications[i]).manifest.name == name,
    ensures
        bytes_at(published_all(root, files, publications), index_file(root, name)) == index_bytes(
            Seq::new(publications.len(), |i: int| publications[i].manifest.record),
        ),
{
    lemma_index_append_only(root, files, publications, name);
    lemma_records_for_same_name(name, publications);
    assert(Seq::<u8>::empty() + index_bytes(records_for(name, publications)) =~= index_bytes(
        records_for(name, publications),
    ));
}

/// Where every publishing is of the same package name, its records are all
/// the records.
pub proof fn lemma_records_for_same_name(name: NameView, publications: Seq<Publication>)
    requires
        forall|i: int|
            0 <= i < publications.len() ==> (#[trigger] publications[i]).manifest.name == name,
    ensures
        records_for(name, publications) == Seq::new(
            publications.len(),
            |i: int| publications[i].manifest.record,
        ),
    decreases publications.len(),
{
    if publications.len() > 0 {
        let earlier = publications.drop_last();
        assert forall|i: int| 0 <= i < earlier.len() implies (#[trigger] earlier[i]).manifest.name
            == name by {
            assert(earlier[i] == publications[i]);
        }
        lemma_records_for_same_name(name, earlier);
        assert(publications.last() == publications[publications.len() - 1]);
        assert(records_for(name, publications) =~= Seq::new(
            publications.len(),
            |i: int| publications[i].manifest.record,
        ));
    } else {
        assert(records_for(name, publications) =~= Seq::new(
            publications.len(),
            |i: int| publications[i].manifest.record,
        ));
    }
}

/// What was published is what is fetched: after a publishing, the file of
/// the contents of that version holds the published bytes, and no others.
pub proof fn lemma_publish_then_fetch(root: Seq<char>, files: Files, publication: Publication)
    ensures
        read(
            published(root, files, publication),
            contents_file(root, publication.manifest.id()),
        ) == Some(publication.contents),
{
    lemma_published(root, files, publication);
}

/// What was published is what is read back: the records of an index file
/// that began with the first publishing are the published records, oldest
/// first.
pub proof fn lemma_publish_then_read_index(
    root: Seq<char>,
    files: Files,
    publications: Seq<Publication>,
    name: NameView,
)
    requires
        read(files, index_file(root, name)) is None,
        forall|i: int|
            0 <= i < publications.len() ==> (#[trigger] publications[i]).manifest.name == name
                && single_line(publications[i].manifest.record),
    ensures
        records_of(bytes_at(published_all(root, files, publications), index_file(root, name)))
            == Seq::new(publications.len(), |i: int| publications[i].manifest.record),
{
    let records = Seq::new(publications.len(), |i: int| publications[i].manifest.record);
    lemma_index_is_lines_in_order(root, files, publications, name);
    assert forall|i: int| 0 <= i < records.len() implies single_line(#[trigger] records[i]) by {
        assert(publications[i].manifest.name == name);
    }
    lemma_records_of_index_bytes(records);
}

/// A publishing touches the contents of its own version only: the contents
/// of every other version, of this package or of another, stay as they were.
pub proof fn lemma_publish_keeps_other_contents(
    root: Seq<char>,
    files: Files,
    publication: Publication,
    id: IdView,
)
    requires
        id != publication.manifest.id(),
    ensures
        read(published(root, files, publication), contents_file(root, id)) == read(
            files,
            contents_file(root, id),
        ),
{
    lemma_published(root, files, publication);
    lemma_places_apart(root, publication.manifest.name, id);
    if contents_file(root, id) == contents_file(root, publication.manifest.id()) {
        lemma_contents_file_injective(root, id, publication.manifest.id());
    }
}

} // verus!
