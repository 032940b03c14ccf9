//! Where things lie below the root of a registry.
//!
//! ```text
//! <root>/index/config.json                     the registries to fall back on
//! <root>/index/<scope>/<name>                  one record per published version
//! <root>/contents/<scope>/<name>/<version>.blob    the bytes of one version
//! ```

use vstd::prelude::*;
use vstd::string::*;
use crate::name::{NameView, PackageName};
use crate::package::{IdView, PackageId};
use crate::text::{clean, lemma_clean_dotted, lemma_clean_is_safe, path_safe};
use crate::version::{lemma_text_clean, PackageVersion};

verus! {

/// A place in the file system, as plain text: a root, and the segments that
/// are appended to it one by one.
pub ghost struct PathView {
    pub root: Seq<char>,
    pub segments: Seq<Seq<char>>,
}

impl PathView {
    /// The directory that holds this place.
    pub open spec fn parent(self) -> PathView
        recommends
            self.segments.len() > 0,
    {
        PathView { root: self.root, segments: self.segments.drop_last() }
    }
}

/// A place in the file system: the root of a registry and the segments that
/// lead from it to a file or a directory, outermost first.
#[derive(Debug, PartialEq, Eq)]
pub struct StorePath {
    pub root: String,
    pub segments: Vec<String>,
}

/// The texts of a list of strings.
pub open spec fn texts(strings: Seq<String>) -> Seq<Seq<char>> {
    Seq::new(strings.len(), |i: int| strings[i]@)
}

impl View for StorePath {
    type V = PathView;

    open spec fn view(&self) -> PathView {
        PathView { root: self.root@, segments: texts(self.segments@) }
    }
}

impl Clone for StorePath {
    fn clone(&self) -> (copy: Self)
        ensures
            copy@ == self@,
    {
        let mut segments: Vec<String> = Vec::new();
        let mut i: usize = 0;
        while i < self.segments.len()
            invariant
                i <= self.segments.len(),
                segments.len() == i,
                forall|j: int| 0 <= j < i ==> segments@[j]@ == self.segments@[j]@,
            decreases self.segments.len() - i,
        {
            segments.push(self.segments[i].clone());
            i = i + 1;
        }
        let copy = StorePath { root: self.root.clone(), segments };
        assert(copy@.segments =~= self@.segments);
        copy
    }
}

/// The file name of the contents of one version.
pub open spec fn blob_name(version: PackageVersion) -> Seq<char> {
    version.text() + ".blob"@
}

/// The directory that holds the index files of one scope.
pub open spec fn index_dir(root: Seq<char>, name: NameView) -> PathView {
    PathView { root, segments: seq!["index"@, name.scope] }
}

/// The index file of one package name.
pub open spec fn index_file(root: Seq<char>, name: NameView) -> PathView {
    PathView { root, segments: seq!["index"@, name.scope, name.name] }
}

/// The directory that holds the contents of all versions of one package name.
pub open spec fn contents_dir(root: Seq<char>, name: NameView) -> PathView {
    PathView { root, segments: seq!["contents"@, name.scope, name.name] }
}

/// The file that holds the contents of one version.
pub open spec fn contents_file(root: Seq<char>, id: IdView) -> PathView {
    PathView { root, segments: seq!["contents"@, id.name.scope, id.name.name, blob_name(id.version)] }
}

/// The file that lists the registries to fall back on.
pub open spec fn config_file(root: Seq<char>) -> PathView {
    PathView { root, segments: seq!["index"@, "config.json"@] }
}

/// A place that a configuration names, relative to the root.
pub open spec fn relative_to(root: Seq<char>, relative: Seq<char>) -> PathView {
    PathView { root, segments: seq![relative] }
}

/// Builds the index file's place.
pub fn index_file_path(root: &str, name: &PackageName) -> (path: StorePath)
    ensures
        path@ == index_file(root@, name@),
{
    let mut segments: Vec<String> = Vec::new();
    segments.push("index".to_owned());
    segments.push(name.scope().to_owned());
    segments.push(name.name().to_owned());
    let path = StorePath { root: root.to_owned(), segments };
    assert(path@.segments =~= index_file(root@, name@).segments);
    path
}

/// Builds the place of the directory of one scope in the index.
pub fn index_dir_path(root: &str, name: &PackageName) -> (path: StorePath)
    ensures
        path@ == index_dir(root@, name@),
        path@ == index_file(root@, name@).parent(),
{
    let mut segments: Vec<String> = Vec::new();
    segments.push("index".to_owned());
    segments.push(name.scope().to_owned());
    let path = StorePath { root: root.to_owned(), segments };
    assert(path@.segments =~= index_dir(root@, name@).segments);
    assert(path@.segments =~= index_file(root@, name@).segments.drop_last());
    path
}

/// Builds the place of the directory of one package name in the contents.
pub fn contents_dir_path(root: &str, name: &PackageName) -> (path: StorePath)
    ensures
        path@ == contents_dir(root@, name@),
{
    let mut segments: Vec<String> = Vec::new();
    segments.push("contents".to_owned());
    segments.push(name.scope().to_owned());
    segments.push(name.name().to_owned());
    let path = StorePath { root: root.to_owned(), segments };
    assert(path@.segments =~= contents_dir(root@, name@).segments);
    path
}

/// Builds the place of the contents of one version.
pub fn contents_file_path(root: &str, id: &PackageId) -> (path: StorePath)
    ensures
        path@ == contents_file(root@, id@),
        path@.parent() == contents_dir(root@, id@.name),
{
    let mut file = id.version().to_text();
    file.append(".blob");
    let mut segments: Vec<String> = Vec::new();
    segments.push("contents".to_owned());
    segments.push(id.name().scope().to_owned());
    segments.push(id.name().name().to_owned());
    segments.push(file);
    let path = StorePath { root: root.to_owned(), segments };
    assert(path@.segments =~= contents_file(root@, id@).segments);
    assert(path@.segments.drop_last() =~= contents_dir(root@, id@.name).segments);
    path
}

/// Builds the place of the configuration file.
pub fn config_file_path(root: &str) -> (path: StorePath)
    ensures
        path@ == config_file(root@),
{
    let mut segments: Vec<String> = Vec::new();
    segments.push("index".to_owned());
    segments.push("config.json".to_owned());
    let path = StorePath { root: root.to_owned(), segments };
    assert(path@.segments =~= config_file(root@).segments);
    path
}

/// Two versions have two file names.
pub proof fn lemma_blob_name_injective(a: PackageVersion, b: PackageVersion)
    requires
        blob_name(a) == blob_name(b),
    ensures
        a == b,
{
    let suffix = ".blob"@;
    assert(blob_name(a).len() == a.text().len() + suffix.len());
    assert(blob_name(b).len() == b.text().len() + suffix.len());
    assert forall|i: int| 0 <= i < a.text().len() implies a.text()[i] == b.text()[i] by {
        assert(blob_name(a)[i] == a.text()[i]);
        assert(blob_name(b)[i] == b.text()[i]);
    }
    assert(a.text() =~= b.text());
    crate::version::lemma_text_injective(a, b);
}

/// Each version of each package has a place of its own for its contents.
pub proof fn lemma_contents_file_injective(root: Seq<char>, a: IdView, b: IdView)
    requires
        contents_file(root, a) == contents_file(root, b),
    ensures
        a == b,
{
    let pa = contents_file(root, a).segments;
    let pb = contents_file(root, b).segments;
    assert(pa[1] == a.name.scope && pb[1] == b.name.scope);
    assert(pa[2] == a.name.name && pb[2] == b.name.name);
    assert(pa[3] == blob_name(a.version) && pb[3] == blob_name(b.version));
    lemma_blob_name_injective(a.version, b.version);
}

/// Each package name has an index file of its own.
pub proof fn lemma_index_file_injective(root: Seq<char>, a: NameView, b: NameView)
    requires
        index_file(root, a) == index_file(root, b),
    ensures
        a == b,
{
    let pa = index_file(root, a).segments;
    let pb = index_file(root, b).segments;
    assert(pa[1] == a.scope && pb[1] == b.scope);
    assert(pa[2] == a.name && pb[2] == b.name);
}

/// No place serves two purposes: an index file is no contents file, and the
/// configuration file is neither.
pub proof fn lemma_places_apart(root: Seq<char>, name: NameView, id: IdView)
    ensures
        index_file(root, name) != contents_file(root, id),
        config_file(root) != index_file(root, name),
        config_file(root) != contents_file(root, id),
{
    assert(index_file(root, name).segments.len() == 3);
    assert(contents_file(root, id).segments.len() == 4);
    assert(config_file(root).segments.len() == 2);
}

/// Every segment is path-safe.
pub open spec fn all_safe(segments: Seq<Seq<char>>) -> bool {
    forall|i: int| 0 <= i < segments.len() ==> path_safe(#[trigger] segments[i])
}

/// The file name of the contents of a version is path-safe.
pub proof fn lemma_blob_name_safe(version: PackageVersion)
    ensures
        path_safe(blob_name(version)),
{
    reveal_strlit(".blob");
    let word = seq!['b', 'l', 'o', 'b'];
    assert(".blob"@ =~= seq!['.'] + word);
    assert(clean(word));
    lemma_text_clean(version);
    lemma_clean_dotted(version.text(), word);
    assert(blob_name(version) =~= version.text() + seq!['.'] + word);
    lemma_clean_is_safe(blob_name(version));
}

/// No place of the layout leaves the root: every segment that leads to an
/// index file, to a contents file or to the configuration file is path-safe.
pub proof fn lemma_layout_safe(root: Seq<char>, id: IdView)
    requires
        id.name.wf(),
    ensures
        all_safe(index_file(root, id.name).segments),
        all_safe(contents_file(root, id).segments),
        all_safe(config_file(root).segments),
{
    reveal_strlit("index");
    reveal_strlit("contents");
    reveal_strlit("config.json");
    assert("index"@ =~= seq!['i', 'n', 'd', 'e', 'x']);
    assert("contents"@ =~= seq!['c', 'o', 'n', 't', 'e', 'n', 't', 's']);
    assert("config.json"@ =~= seq!['c', 'o', 'n', 'f', 'i', 'g', '.', 'j', 's', 'o', 'n']);
    assert(clean("index"@));
    assert(clean("contents"@));
    assert(clean("config.json"@));
    lemma_clean_is_safe("index"@);
    lemma_clean_is_safe("contents"@);
    lemma_clean_is_safe("config.json"@);
    lemma_blob_name_safe(id.version);
}

} // verus!
