//! The listing of a split's root directory, as the library sees it, and the
//! rules that turn it into class labels and samples.

use vstd::prelude::*;

verus! {

/// One entry found inside a class directory.
pub struct FileEntry {
    /// Full path of the entry.
    pub path: String,
    /// Whether the entry is a regular file.
    pub is_file: bool,
    /// The text after the last dot of the file name, if there is one.
    pub extension: Option<String>,
}

/// One entry found at the root of a split, with what its directory holds.
pub struct RootEntry {
    /// File name of the entry: the class name when it is a directory.
    pub name: String,
    /// Whether the entry is a directory.
    pub is_dir: bool,
    /// The entries of the directory in listing order (empty for a plain file).
    pub entries: Vec<FileEntry>,
}

/// The lower-case form of a string, as std's `to_lowercase` gives it.
pub uninterp spec fn lower_of(s: Seq<char>) -> Seq<char>;

/// Relies on `str::to_lowercase`: the result depends on the characters alone.
#[verifier::external_body]
fn lowercase(s: &str) -> (r: String)
    ensures
        r@ == lower_of(s@),
{
    s.to_lowercase()
}

/// The lower-case extensions that mark an image.
pub open spec fn is_image_lowered(l: Seq<char>) -> bool {
    l == seq!['j', 'p', 'g'] || l == seq!['p', 'n', 'g'] || l == seq!['j', 'p', 'e', 'g']
}

/// Whether an already lower-cased extension is one of `jpg`, `png`, `jpeg`.
pub fn is_image_extension_lowered(l: &str) -> (r: bool)
    ensures
        r == is_image_lowered(l@),
{
    let n = l.unicode_len();
    if n == 3 {
        let a = l.get_char(0);
        let b = l.get_char(1);
        let c = l.get_char(2);
        assert(l@ =~= seq![a, b, c]);
        (a == 'j' && b == 'p' && c == 'g') || (a == 'p' && b == 'n' && c == 'g')
    } else if n == 4 {
        let a = l.get_char(0);
        let b = l.get_char(1);
        let c = l.get_char(2);
        let d = l.get_char(3);
        assert(l@ =~= seq![a, b, c, d]);
        a == 'j' && b == 'p' && c == 'e' && d == 'g'
    } else {
        false
    }
}

/// Whether an extension names an image, whatever its case.
pub fn is_image_extension(ext: &str) -> (r: bool)
    ensures
        r == is_image_lowered(lower_of(ext@)),
{
    let lowered = lowercase(ext);
    is_image_extension_lowered(lowered.as_str())
}

/// A file that becomes a sample: a regular file with an image extension.
pub open spec fn is_sample(f: FileEntry) -> bool {
    f.is_file && f.extension is Some && is_image_lowered(lower_of(f.extension->0@))
}

/// Every entry of a class directory carries an extension.
pub open spec fn all_extended(files: Seq<FileEntry>) -> bool {
    forall|k: int| 0 <= k < files.len() ==> (#[trigger] files[k]).extension is Some
}

/// The samples of one class directory, in listing order, each with `label`.
pub open spec fn images_in(files: Seq<FileEntry>, label: int) -> Seq<(int, Seq<char>)>
    decreases files.len(),
{
    if files.len() == 0 {
        Seq::empty()
    } else {
        let prev = images_in(files.drop_last(), label);
        if is_sample(files.last()) {
            prev.push((label, files.last().path@))
        } else {
            prev
        }
    }
}

/// The class names of a root listing: its directories, in listing order.
/// The label of a class is its position in this sequence.
pub open spec fn class_names_of(root: Seq<RootEntry>) -> Seq<Seq<char>>
    decreases root.len(),
{
    if root.len() == 0 {
        Seq::empty()
    } else {
        let prev = class_names_of(root.drop_last());
        if root.last().is_dir {
            prev.push(root.last().name@)
        } else {
            prev
        }
    }
}

/// The samples of a root listing: those of each class directory in turn.
pub open spec fn samples_of(root: Seq<RootEntry>) -> Seq<(int, Seq<char>)>
    decreases root.len(),
{
    if root.len() == 0 {
        Seq::empty()
    } else {
        let prev = samples_of(root.drop_last());
        if root.last().is_dir {
            prev + images_in(root.last().entries@, class_names_of(root.drop_last()).len() as int)
        } else {
            prev
        }
    }
}

/// A listing that can be scanned: no entry of a class directory lacks an extension.
pub open spec fn scannable(root: Seq<RootEntry>) -> bool {
    forall|k: int| 0 <= k < root.len() && (#[trigger] root[k]).is_dir ==> all_extended(root[k].entries@)
}

/// The number of directories at the root of a listing.
pub open spec fn dir_count(root: Seq<RootEntry>) -> nat {
    root.filter(|e: RootEntry| e.is_dir).len()
}

/// The number of files with an image extension in a class directory.
pub open spec fn image_count(files: Seq<FileEntry>) -> nat {
    files.filter(|f: FileEntry| is_sample(f)).len()
}

/// The number of files with an image extension over all class directories.
pub open spec fn recognized_count(root: Seq<RootEntry>) -> nat
    decreases root.len(),
{
    if root.len() == 0 {
        0
    } else {
        recognized_count(root.drop_last()) + if root.last().is_dir {
            image_count(root.last().entries@)
        } else {
            0
        }
    }
}

/// The samples of one class directory are its image files, all with its label.
pub proof fn lemma_images_in(files: Seq<FileEntry>, label: int)
    ensures
        images_in(files, label).len() == image_count(files),
        forall|k: int|
            0 <= k < images_in(files, label).len() ==> (#[trigger] images_in(files, label)[k]).0
                == label,
    decreases files.len(),
{
    reveal_with_fuel(Seq::filter, 1);
    if files.len() > 0 {
        lemma_images_in(files.drop_last(), label);
    }
}

/// Labels are dense: there is one class per directory at the root, and the
/// label of every sample is one of `0..K` where `K` is that count.
pub proof fn law_dense_labels(root: Seq<RootEntry>)
    ensures
        class_names_of(root).len() == dir_count(root),
        forall|k: int|
            0 <= k < samples_of(root).len() ==> 0 <= (#[trigger] samples_of(root)[k]).0
                < class_names_of(root).len(),
    decreases root.len(),
{
    reveal_with_fuel(Seq::filter, 1);
    if root.len() > 0 {
        let prev = root.drop_last();
        law_dense_labels(prev);
        if root.last().is_dir {
            let label = class_names_of(prev).len() as int;
            lemma_images_in(root.last().entries@, label);
            let imgs = images_in(root.last().entries@, label);
            assert forall|k: int|
                0 <= k < samples_of(root).len() implies 0 <= (#[trigger] samples_of(root)[k]).0
                < class_names_of(root).len() by {
                if k >= samples_of(prev).len() {
                    assert(samples_of(root)[k] == imgs[k - samples_of(prev).len()]);
                } else {
                    assert(samples_of(root)[k] == samples_of(prev)[k]);
                }
            }
        }
    }
}

/// The number of samples is the number of files with a recognised extension
/// (in any case) across all class directories.
pub proof fn law_sample_count(root: Seq<RootEntry>)
    ensures
        samples_of(root).len() == recognized_count(root),
    decreases root.len(),
{
    if root.len() > 0 {
        law_sample_count(root.drop_last());
        if root.last().is_dir {
            lemma_images_in(root.last().entries@, class_names_of(root.drop_last()).len() as int);
        }
    }
}

/// Scanning is a function of the listing: two scans of the same listing give
/// the same classes, labels and samples.
pub proof fn law_scan_repeatable(a: Seq<RootEntry>, b: Seq<RootEntry>)
    requires
        a == b,
    ensures
        scannable(a) == scannable(b),
        class_names_of(a) == class_names_of(b),
        samples_of(a) == samples_of(b),
        samples_of(a).len() == samples_of(b).len(),
{
}

} // verus!
