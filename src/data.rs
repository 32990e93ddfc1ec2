//! The dataset of one split and the loader that cuts it into batches.

use crate::scan::{
    all_extended, class_names_of, dir_count, images_in, is_image_extension, is_sample,
    law_dense_labels, law_sample_count, recognized_count, samples_of, scannable, FileEntry,
    RootEntry,
};
use rand::seq::SliceRandom;
use vstd::prelude::*;

verus! {

/// The ways in which building or reading a dataset fails.
#[derive(Debug, Clone, Copy, PartialEq, Eq, Structural)]
pub enum DataError {
    /// The root of the split does not exist or cannot be read.
    DatasetNotFound,
    /// A class directory could not be read during the scan.
    DatasetScanError,
    /// An entry of a class directory has no extension.
    MalformedEntry,
    /// An image could not be decoded.
    ImageDecodeError,
    /// A checkpoint could not be saved or loaded.
    CheckpointIOError,
}

/// The view of stored samples: each label with its path.
pub open spec fn samples_view(s: Seq<(usize, String)>) -> Seq<(int, Seq<char>)> {
    s.map_values(|p: (usize, String)| (p.0 as int, p.1@))
}

/// The view of the stored class names.
pub open spec fn names_view(s: Seq<String>) -> Seq<Seq<char>> {
    s.map_values(|n: String| n@)
}

/// Appends the samples of one class directory to `out`, with label `label`.
/// Fails when an entry of the directory has no extension.
fn collect_images(files: &Vec<FileEntry>, label: usize, out: &mut Vec<(usize, String)>) -> (r:
    Result<(), DataError>)
    ensures
        r is Ok <==> all_extended(files@),
        r is Err ==> r == Err::<(), DataError>(DataError::MalformedEntry),
        r is Ok ==> samples_view(final(out)@) == samples_view(old(out)@) + images_in(
            files@,
            label as int,
        ),
        r is Ok ==> final(out)@.len() >= old(out)@.len(),
        r is Ok ==> forall|k: int|
            old(out)@.len() <= k < final(out)@.len() ==> (#[trigger] final(out)@[k]).0 == label,
        r is Ok ==> final(out)@.subrange(0, old(out)@.len() as int) == old(out)@,
{
    let ghost start = out@;
    let mut i: usize = 0;
    while i < files.len()
        invariant
            i <= files@.len(),
            all_extended(files@.subrange(0, i as int)),
            samples_view(out@) == samples_view(start) + images_in(
                files@.subrange(0, i as int),
                label as int,
            ),
            out@.len() >= start.len(),
            forall|k: int| start.len() <= k < out@.len() ==> (#[trigger] out@[k]).0 == label,
            out@.subrange(0, start.len() as int) == start,
        decreases files@.len() - i,
    {
        let f = &files[i];
        let ghost pre = files@.subrange(0, i as int);
        let ghost next = files@.subrange(0, i as int + 1);
        assert(next.drop_last() =~= pre);
        assert(next.last() == files@[i as int]);
        match &f.extension {
            None => {
                assert(!all_extended(files@)) by {
                    assert(files@[i as int].extension is None);
                }
                return Err(DataError::MalformedEntry);
            },
            Some(ext) => {
                let image = is_image_extension(ext.as_str());
                if f.is_file && image {
                    let ghost before = out@;
                    out.push((label, f.path.clone()));
                    assert(samples_view(out@) =~= samples_view(before).push(
                        (label as int, f.path@),
                    ));
                    assert(out@.subrange(0, start.len() as int) =~= before.subrange(
                        0,
                        start.len() as int,
                    ));
                }
                assert(is_sample(files@[i as int]) == (f.is_file && image));
            },
        }
        i += 1;
        assert(all_extended(files@.subrange(0, i as int))) by {
            assert forall|k: int| 0 <= k < i implies (#[trigger] files@.subrange(
                0,
                i as int,
            )[k]).extension is Some by {
                if k < i - 1 {
                    assert(files@.subrange(0, i as int)[k] == pre[k]);
                }
            }
        }
    }
    assert(files@.subrange(0, files@.len() as int) =~= files@);
    Ok(())
}

/// The samples and classes of one split.
pub struct Dataset {
    root: String,
    class_names: Vec<String>,
    image_path: Vec<(usize, String)>,
    total_size: usize,
}

impl Dataset {
    /// The class names; the label of a class is its position.
    pub closed spec fn classes(&self) -> Seq<Seq<char>> {
        names_view(self.class_names@)
    }

    /// The samples in their stored order.
    pub closed spec fn samples(&self) -> Seq<(int, Seq<char>)> {
        samples_view(self.image_path@)
    }

    /// The number of samples.
    pub closed spec fn size(&self) -> nat {
        self.total_size as nat
    }

    /// The root the dataset was built from.
    pub closed spec fn root_path(&self) -> Seq<char> {
        self.root@
    }

    /// The size matches the samples, and every label names a class.
    pub closed spec fn wf(&self) -> bool {
        &&& self.total_size == self.image_path@.len()
        &&& forall|k: int|
            0 <= k < self.image_path@.len() ==> (#[trigger] self.image_path@[k]).0
                < self.class_names@.len()
    }

    /// What a well-formed dataset guarantees its users.
    pub proof fn lemma_wf(&self)
        requires
            self.wf(),
        ensures
            self.size() == self.samples().len(),
            forall|k: int|
                0 <= k < self.samples().len() ==> 0 <= (#[trigger] self.samples()[k]).0
                    < self.classes().len(),
    {
    }

    /// Builds the dataset of a split from the listing of its root: each
    /// directory becomes a class, labelled in listing order, and each regular
    /// file in it with extension `jpg`, `png` or `jpeg` (in any case) becomes
    /// a sample. An entry of a class directory without an extension fails the
    /// whole scan.
    pub fn new(root: String, listing: Vec<RootEntry>) -> (r: Result<Dataset, DataError>)
        ensures
            r is Ok <==> scannable(listing@),
            r is Err ==> r == Err::<Dataset, DataError>(DataError::MalformedEntry),
            r matches Ok(d) ==> {
                &&& d.wf()
                &&& d.root_path() == root@
                &&& d.classes() == class_names_of(listing@)
                &&& d.samples() == samples_of(listing@)
                &&& d.size() == recognized_count(listing@)
                &&& d.classes().len() == dir_count(listing@)
            },
    {
        let mut class_names: Vec<String> = Vec::new();
        let mut image_path: Vec<(usize, String)> = Vec::new();
        let mut i: usize = 0;
        while i < listing.len()
            invariant
                i <= listing@.len(),
                scannable(listing@.subrange(0, i as int)),
                names_view(class_names@) == class_names_of(listing@.subrange(0, i as int)),
                samples_view(image_path@) == samples_of(listing@.subrange(0, i as int)),
                forall|k: int|
                    0 <= k < image_path@.len() ==> (#[trigger] image_path@[k]).0
                        < class_names@.len(),
            decreases listing@.len() - i,
        {
            let entry = &listing[i];
            let ghost pre = listing@.subrange(0, i as int);
            let ghost next = listing@.subrange(0, i as int + 1);
            assert(next.drop_last() =~= pre);
            assert(next.last() == listing@[i as int]);
            if entry.is_dir {
                let label = class_names.len();
                let ghost before = image_path@;
                match collect_images(&entry.entries, label, &mut image_path) {
                    Err(e) => {
                        assert(!scannable(listing@)) by {
                            assert(listing@[i as int].is_dir);
                        }
                        return Err(e);
                    },
                    Ok(()) => {},
                }
                assert forall|k: int| 0 <= k < image_path@.len() implies (#[trigger] image_path@[k]).0
                    < class_names@.len() + 1 by {
                    if k < before.len() {
                        assert(image_path@[k] == image_path@.subrange(0, before.len() as int)[k]);
                    }
                }
                class_names.push(entry.name.clone());
                assert(names_view(class_names@) =~= class_names_of(next));
            } else {
                assert(names_view(class_names@) =~= class_names_of(next));
            }
            i += 1;
            assert(scannable(listing@.subrange(0, i as int))) by {
                assert forall|k: int|
                    0 <= k < i && (#[trigger] listing@.subrange(0, i as int)[k]).is_dir implies all_extended(
                    listing@.subrange(0, i as int)[k].entries@,
                ) by {
                    if k < i - 1 {
                        assert(listing@.subrange(0, i as int)[k] == pre[k]);
                    }
                }
            }
        }
        assert(listing@.subrange(0, listing@.len() as int) =~= listing@);
        proof {
            law_dense_labels(listing@);
            law_sample_count(listing@);
        }
        let total_size = image_path.len();
        Ok(Dataset { root, class_names, image_path, total_size })
    }

    /// The number of samples.
    pub fn len(&self) -> (r: usize)
        requires
            self.wf(),
        ensures
            r == self.size(),
    {
        self.total_size
    }

    /// The number of classes.
    pub fn num_classes(&self) -> (r: usize)
        ensures
            r == self.classes().len(),
    {
        self.class_names.len()
    }

    /// The root the dataset was built from.
    pub fn root(&self) -> (r: &String)
        ensures
            r@ == self.root_path(),
    {
        &self.root
    }

    /// The path and the label of sample `idx`.
    pub fn get_item(&self, idx: usize) -> (r: (String, usize))
        requires
            self.wf(),
            idx < self.size(),
        ensures
            r.0@ == self.samples()[idx as int].1,
            r.1 == self.samples()[idx as int].0,
    {
        let item = &self.image_path[idx];
        (item.1.clone(), item.0)
    }

    /// The name of the class with label `label`, if there is one.
    pub fn class_name(&self, label: usize) -> (r: Option<String>)
        ensures
            label < self.classes().len() ==> r is Some && r->0@ == self.classes()[label as int],
            label >= self.classes().len() ==> r is None,
    {
        if label < self.class_names.len() {
            Some(self.class_names[label].clone())
        } else {
            None
        }
    }

    /// The label of the class called `name`: the first class of that name.
    pub fn class_index(&self, name: &String) -> (r: Option<usize>)
        ensures
            r matches Some(l) ==> l < self.classes().len() && self.classes()[l as int] == name@
                && forall|j: int| 0 <= j < l ==> self.classes()[j] != name@,
            r is None ==> !self.classes().contains(name@),
    {
        let mut i: usize = 0;
        while i < self.class_names.len()
            invariant
                i <= self.class_names@.len(),
                forall|j: int| 0 <= j < i ==> self.classes()[j] != name@,
            decreases self.class_names@.len() - i,
        {
            if self.class_names[i] == *name {
                return Some(i);
            }
            i += 1;
        }
        proof {
            if self.classes().contains(name@) {
                let j = choose|j: int| 0 <= j < self.classes().len() && self.classes()[j] == name@;
                assert(self.classes()[j] != name@);
            }
        }
        None
    }
}

/// The indices `0, 1, ..., n - 1` in order.
pub open spec fn index_range(n: nat) -> Seq<usize> {
    Seq::new(n, |k: int| k as usize)
}

/// `order` holds each index below `n` exactly once.
pub open spec fn is_order_of(order: Seq<usize>, n: nat) -> bool {
    order.to_multiset() == index_range(n).to_multiset()
}

/// Every index in an order of `n` items is below `n`.
pub proof fn lemma_order_in_range(order: Seq<usize>, n: nat)
    requires
        is_order_of(order, n),
        n <= usize::MAX + 1,
    ensures
        order.len() == n,
        forall|k: int| 0 <= k < order.len() ==> (#[trigger] order[k]) < n,
{
    broadcast use vstd::seq_lib::group_to_multiset_ensures;

    assert(order.len() == order.to_multiset().len());
    assert(index_range(n).len() == index_range(n).to_multiset().len());
    assert forall|k: int| 0 <= k < order.len() implies (#[trigger] order[k]) < n by {
        let x = order[k];
        assert(order.contains(x));
        assert(order.to_multiset().count(x) > 0);
        assert(index_range(n).contains(x));
        let j = choose|j: int| 0 <= j < index_range(n).len() && index_range(n)[j] == x;
        assert(j as usize == x);
    }
}

/// Relies on rand's `SliceRandom::shuffle` with the thread-local generator:
/// it only swaps elements, so the result is a rearrangement of the input.
#[verifier::external_body]
fn shuffle_in_place(v: &mut Vec<usize>)
    ensures
        final(v)@.to_multiset() == old(v)@.to_multiset(),
{
    let mut rng = rand::thread_rng();
    v.shuffle(&mut rng);
}

/// The first position of the order drawn by batch `index`.
pub open spec fn batch_start(index: nat, batch_size: nat) -> nat {
    index * batch_size
}

/// One past the last position of the order drawn by batch `index`: the
/// batch is cut short at the end of the order.
pub open spec fn batch_end(index: nat, batch_size: nat, total: nat) -> nat {
    if (index + 1) * batch_size <= total {
        (index + 1) * batch_size
    } else {
        total
    }
}

/// The samples of a batch: those at positions `start..end` of the order.
pub open spec fn batch_of(
    samples: Seq<(int, Seq<char>)>,
    order: Seq<usize>,
    start: nat,
    end: nat,
) -> Seq<(int, Seq<char>)> {
    Seq::new((end - start) as nat, |j: int| samples[order[start + j] as int])
}

/// Cuts a dataset into batches of `batch_size` samples, one epoch after
/// another. Batches are drawn through an order of the sample indices, which
/// is reshuffled at the start of each epoch when `shuffle` is set.
pub struct DataLoader {
    dataset: Dataset,
    order: Vec<usize>,
    batch_size: usize,
    batch_index: usize,
    shuffle: bool,
}

impl DataLoader {
    /// The dataset being cut into batches.
    pub closed spec fn data(&self) -> Dataset {
        self.dataset
    }

    /// The order in which samples are drawn during the current epoch.
    pub closed spec fn order(&self) -> Seq<usize> {
        self.order@
    }

    /// The number of samples per batch.
    pub closed spec fn size_of_batch(&self) -> nat {
        self.batch_size as nat
    }

    /// The index of the next batch within the epoch.
    pub closed spec fn cursor(&self) -> nat {
        self.batch_index as nat
    }

    /// Whether each epoch starts with a reshuffle.
    pub closed spec fn shuffles(&self) -> bool {
        self.shuffle
    }

    /// The order is a rearrangement of the sample indices, and the cursor has
    /// not gone past the batch that ends the epoch.
    pub closed spec fn wf(&self) -> bool {
        &&& self.dataset.wf()
        &&& self.batch_size > 0
        &&& self.dataset.total_size + self.batch_size <= usize::MAX
        &&& is_order_of(self.order@, self.dataset.total_size as nat)
        &&& (self.batch_index == 0 || (self.batch_index - 1) * self.batch_size
            < self.dataset.total_size)
    }

    /// A loader at the start of its first epoch, drawing samples in stored order.
    pub fn new(dataset: Dataset, batch_size: i64, shuffle: bool) -> (r: DataLoader)
        requires
            dataset.wf(),
            batch_size > 0,
            dataset.size() + batch_size <= usize::MAX,
        ensures
            r.wf(),
            r.data() == dataset,
            r.order() == index_range(dataset.size()),
            r.size_of_batch() == batch_size,
            r.cursor() == 0,
            r.shuffles() == shuffle,
    {
        let n = dataset.total_size;
        let mut order: Vec<usize> = Vec::new();
        let mut i: usize = 0;
        while i < n
            invariant
                i <= n,
                order@ == index_range(i as nat),
            decreases n - i,
        {
            order.push(i);
            i += 1;
            assert(order@ =~= index_range(i as nat));
        }
        DataLoader { dataset, order, batch_size: batch_size as usize, batch_index: 0, shuffle }
    }

    /// The dataset being cut into batches.
    pub fn dataset(&self) -> (r: &Dataset)
        ensures
            *r == self.data(),
    {
        &self.dataset
    }

    /// Whether the order is reshuffled at the start of each epoch.
    pub fn is_shuffling(&self) -> (r: bool)
        ensures
            r == self.shuffles(),
    {
        self.shuffle
    }

    /// The number of samples per batch.
    pub fn batch_size(&self) -> (r: usize)
        ensures
            r == self.size_of_batch(),
    {
        self.batch_size
    }

    /// Total number of samples in the dataset.
    pub fn len(&self) -> (r: usize)
        requires
            self.wf(),
        ensures
            r == self.data().size(),
    {
        self.dataset.total_size
    }

    /// The number of batches reported for an epoch: `total / batch_size + 1`.
    /// When the batch size divides the total this is one more than the
    /// number of batches an epoch yields.
    pub fn len_batch(&self) -> (r: usize)
        requires
            self.wf(),
        ensures
            r == self.data().size() / self.size_of_batch() + 1,
    {
        assert(self.dataset.total_size / self.batch_size <= self.dataset.total_size) by (nonlinear_arith)
            requires self.batch_size > 0;
        self.dataset.total_size / self.batch_size + 1
    }

    /// Draws the next batch of the epoch, as (label, path) pairs. At the end of
    /// an epoch returns `None` and rewinds to the start of the next one. When
    /// shuffling, the order is reshuffled before the first batch of an epoch.
    pub fn next(&mut self) -> (r: Option<Vec<(usize, String)>>)
        requires
            old(self).wf(),
        ensures
            final(self).wf(),
            final(self).data() == old(self).data(),
            final(self).size_of_batch() == old(self).size_of_batch(),
            final(self).shuffles() == old(self).shuffles(),
            !(old(self).shuffles() && old(self).cursor() == 0) ==> final(self).order() == old(
                self,
            ).order(),
            batch_start(old(self).cursor(), old(self).size_of_batch()) >= old(self).data().size()
                ==> r is None && final(self).cursor() == 0,
            batch_start(old(self).cursor(), old(self).size_of_batch()) < old(self).data().size()
                ==> r is Some && final(self).cursor() == old(self).cursor() + 1 && samples_view(
                r->0@,
            ) == batch_of(
                old(self).data().samples(),
                final(self).order(),
                batch_start(old(self).cursor(), old(self).size_of_batch()),
                batch_end(
                    old(self).cursor(),
                    old(self).size_of_batch(),
                    old(self).data().size(),
                ),
            ),
    {
        let total = self.dataset.total_size;
        let bs = self.batch_size;
        let bi = self.batch_index;
        proof {
            if bi > 0 {
                assert((bi - 1) * bs + bs == bi * bs) by (nonlinear_arith);
            }
        }
        let start = bi * bs;
        if start >= total {
            self.batch_index = 0;
            return None;
        }
        let end = if total - start < bs {
            total
        } else {
            start + bs
        };
        assert(end == batch_end(bi as nat, bs as nat, total as nat)) by (nonlinear_arith)
            requires
                start == bi * bs,
                end == (if total - start < bs { total as int } else { start + bs }),
        {
        }
        if bi == 0 && self.shuffle {
            shuffle_in_place(&mut self.order);
        }
        proof {
            lemma_order_in_range(self.order@, total as nat);
        }
        let mut batch: Vec<(usize, String)> = Vec::new();
        let mut k: usize = start;
        while k < end
            invariant
                start <= k <= end,
                end <= total,
                total == self.dataset.total_size,
                self.dataset.wf(),
                self.order@.len() == total,
                forall|j: int| 0 <= j < self.order@.len() ==> (#[trigger] self.order@[j]) < total,
                samples_view(batch@) == batch_of(
                    self.dataset.samples(),
                    self.order@,
                    start as nat,
                    k as nat,
                ),
            decreases end - k,
        {
            let idx = self.order[k];
            let item = &self.dataset.image_path[idx];
            assert(self.dataset.samples()[idx as int] == (item.0 as int, item.1@));
            let ghost before = batch@;
            batch.push((item.0, item.1.clone()));
            assert(samples_view(batch@) =~= samples_view(before).push((item.0 as int, item.1@)));
            k += 1;
            assert(samples_view(batch@) =~= batch_of(
                self.dataset.samples(),
                self.order@,
                start as nat,
                k as nat,
            ));
        }
        assert(bi <= bi * bs) by (nonlinear_arith)
            requires
                bs >= 1,
        ;
        self.batch_index = bi + 1;
        assert(((bi + 1) - 1) * bs < total);
        Some(batch)
    }
}

/// The number of batches an epoch yields: `total / batch_size` rounded up.
pub open spec fn batches_per_epoch(total: nat, batch_size: nat) -> nat {
    ((total + batch_size - 1) as nat) / batch_size
}

/// The positions of the order drawn by the first `k` batches of an epoch,
/// batch after batch.
pub open spec fn drawn(order: Seq<usize>, batch_size: nat, k: nat) -> Seq<usize>
    decreases k,
{
    if k == 0 {
        Seq::empty()
    } else {
        let j = (k - 1) as nat;
        drawn(order, batch_size, j) + order.subrange(
            batch_start(j, batch_size) as int,
            batch_end(j, batch_size, order.len()) as int,
        )
    }
}

proof fn lemma_drawn_prefix(order: Seq<usize>, batch_size: nat, k: nat)
    requires
        batch_size > 0,
        k == 0 || (k - 1) * batch_size < order.len(),
    ensures
        drawn(order, batch_size, k) == order.subrange(
            0,
            batch_end((k - 1) as nat, batch_size, order.len()) as int,
        ) || k == 0,
        k == 0 ==> drawn(order, batch_size, k) == Seq::<usize>::empty(),
    decreases k,
{
    if k > 0 {
        let j = (k - 1) as nat;
        assert(j * batch_size + batch_size == (j + 1) * batch_size) by (nonlinear_arith);
        if j > 0 {
            assert((j - 1) * batch_size <= j * batch_size) by (nonlinear_arith)
                requires
                    j > 0,
            ;
            assert((j - 1) * batch_size + batch_size == j * batch_size) by (nonlinear_arith)
                requires
                    j > 0,
            ;
            lemma_drawn_prefix(order, batch_size, j);
            assert(batch_end((j - 1) as nat, batch_size, order.len()) == j * batch_size);
            let e = batch_end(j, batch_size, order.len());
            assert(j * batch_size <= e <= order.len());
            assert(drawn(order, batch_size, j) == order.subrange(0, (j * batch_size) as int));
            assert(drawn(order, batch_size, k) == drawn(order, batch_size, j) + order.subrange(
                (j * batch_size) as int,
                e as int,
            ));
            assert(drawn(order, batch_size, k) =~= order.subrange(
                0,
                batch_end(j, batch_size, order.len()) as int,
            ));
        } else {
            assert(0 * batch_size == 0);
            assert(batch_start(0, batch_size) == 0);
            assert(drawn(order, batch_size, 0) == Seq::<usize>::empty());
            assert(drawn(order, batch_size, k) == Seq::<usize>::empty() + order.subrange(
                0,
                batch_end(j, batch_size, order.len()) as int,
            ));
            assert(drawn(order, batch_size, k) =~= order.subrange(
                0,
                batch_end(j, batch_size, order.len()) as int,
            ));
        }
    }
}

/// One epoch draws every sample exactly once. For any order of `total`
/// samples and any positive batch size, the epoch yields
/// `batches_per_epoch` batches before it ends; together they draw the whole
/// order, which holds each index once; the last batch holds
/// `total % batch_size` samples, or `batch_size` when that is zero; and the
/// count that `len_batch` reports is one more than the batches yielded
/// exactly when the batch size divides the total.
pub proof fn law_epoch_draws_each_once(order: Seq<usize>, total: nat, batch_size: nat)
    requires
        batch_size > 0,
        is_order_of(order, total),
        total <= usize::MAX,
    ensures
        forall|k: nat|
            k < batches_per_epoch(total, batch_size) ==> #[trigger] batch_start(k, batch_size)
                < total,
        batch_start(batches_per_epoch(total, batch_size), batch_size) >= total,
        drawn(order, batch_size, batches_per_epoch(total, batch_size)) == order,
        order.no_duplicates(),
        forall|i: usize| i < total ==> #[trigger] order.contains(i),
        total > 0 ==> batch_end(
            (batches_per_epoch(total, batch_size) - 1) as nat,
            batch_size,
            total,
        ) - batch_start((batches_per_epoch(total, batch_size) - 1) as nat, batch_size) == (
        if total % batch_size == 0 {
            batch_size
        } else {
            total % batch_size
        }),
        total / batch_size + 1 == batches_per_epoch(total, batch_size) + (if total % batch_size
            == 0 {
            1int
        } else {
            0int
        }),
{
    broadcast use vstd::seq_lib::group_to_multiset_ensures;

    let n = total as int;
    let bs = batch_size as int;
    let c = batches_per_epoch(total, batch_size) as int;
    lemma_order_in_range(order, total);
    vstd::arithmetic::div_mod::lemma_fundamental_div_mod(n + bs - 1, bs);
    vstd::arithmetic::div_mod::lemma_fundamental_div_mod(n, bs);
    let r = (n + bs - 1) % bs;
    let q = n / bs;
    let m = n % bs;
    assert(c * bs == bs * c);
    assert(q * bs == bs * q);
    if m == 0 {
        assert(n + bs - 1 == q * bs + (bs - 1));
        vstd::arithmetic::div_mod::lemma_fundamental_div_mod_converse(n + bs - 1, bs, q, bs - 1);
    } else {
        assert(n + bs - 1 == (q + 1) * bs + (m - 1)) by (nonlinear_arith)
            requires
                n == bs * q + m,
        ;
        vstd::arithmetic::div_mod::lemma_fundamental_div_mod_converse(
            n + bs - 1,
            bs,
            q + 1,
            m - 1,
        );
    }
    assert(c * bs >= n);
    assert forall|k: nat| k < batches_per_epoch(total, batch_size) implies #[trigger] batch_start(
        k,
        batch_size,
    ) < total by {
        assert(k * bs <= (c - 1) * bs) by (nonlinear_arith)
            requires
                k <= c - 1,
                bs > 0,
        ;
        assert((c - 1) * bs == c * bs - bs) by (nonlinear_arith);
    }
    if c > 0 {
        assert((c - 1) * bs == c * bs - bs) by (nonlinear_arith);
        lemma_drawn_prefix(order, batch_size, c as nat);
        assert(order.subrange(0, n) =~= order);
    } else {
        assert(c * bs == 0) by (nonlinear_arith)
            requires
                c == 0,
        ;
        assert(n == 0);
        assert(order =~= Seq::<usize>::empty());
    }
    let ids = index_range(total);
    assert(ids.no_duplicates());
    ids.lemma_multiset_has_no_duplicates();
    order.lemma_multiset_has_no_duplicates_conv();
    assert forall|i: usize| i < total implies #[trigger] order.contains(i) by {
        assert(ids[i as int] == i);
        assert(ids.contains(i));
        assert(ids.to_multiset().count(i) > 0);
        assert(order.to_multiset().count(i) > 0);
    }
}

} // verus!
