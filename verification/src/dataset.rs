//! Decoding of the raw dataset byte buffers into samples.
//!
//! A labels buffer is a 4-byte big-endian magic number (2049), a 4-byte
//! big-endian count `N`, then `N` single label bytes, each in [0, 9].
//! An images buffer is a 4-byte big-endian magic number (2051), a 4-byte
//! big-endian count `N` (which must match the labels count), 8 reserved
//! dimension bytes, then `N` contiguous blocks of 784 pixel bytes (a 28 x 28
//! grid, row-major, one byte per pixel).

use vstd::prelude::*;

use crate::bytes::be_val;
use crate::bytes::read_be_u32;
use crate::error::Error;

verus! {

/// One decoded record: the label byte, the one-hot encoding of the label
/// (ten entries, a single 1 at the label's index), and the raw 784 pixel
/// intensities in [0, 255].
#[derive(Clone, Debug)]
pub struct Sample {
    pub label: u8,
    pub one_hot: Vec<u8>,
    pub pixels: Vec<u8>,
}

/// The mathematical value of a `Sample`.
#[verifier::ext_equal]
pub ghost struct SampleV {
    pub label: u8,
    pub one_hot: Seq<u8>,
    pub pixels: Seq<u8>,
}

impl View for Sample {
    type V = SampleV;

    open spec fn view(&self) -> SampleV {
        SampleV { label: self.label, one_hot: self.one_hot@, pixels: self.pixels@ }
    }
}

/// The count a labels buffer declares in its second big-endian word.
pub open spec fn label_count(lb: Seq<u8>) -> int
    recommends
        lb.len() >= 8,
{
    be_val(lb[4], lb[5], lb[6], lb[7])
}

/// The count an images buffer declares in its second big-endian word.
pub open spec fn image_count(ib: Seq<u8>) -> int
    recommends
        ib.len() >= 8,
{
    be_val(ib[4], ib[5], ib[6], ib[7])
}

/// A labels buffer is well-formed when its magic number is 2049, it holds
/// the label byte of every declared record, and every label byte is a digit
/// class in [0, 9].
pub open spec fn labels_wf(lb: Seq<u8>) -> bool {
    &&& lb.len() >= 8
    &&& be_val(lb[0], lb[1], lb[2], lb[3]) == 2049
    &&& lb.len() >= 8 + label_count(lb)
    &&& forall|i: int| 8 <= i < 8 + label_count(lb) ==> lb[i] <= 9
}

/// An images buffer is well-formed when its magic number is 2051 and it
/// holds the 16-byte header and the 784 pixel bytes of every declared record.
pub open spec fn images_wf(ib: Seq<u8>) -> bool {
    &&& ib.len() >= 8
    &&& be_val(ib[0], ib[1], ib[2], ib[3]) == 2051
    &&& ib.len() >= 16 + 784 * image_count(ib)
}

/// Decoding succeeds exactly when both buffers are well-formed and declare
/// the same record count.
pub open spec fn decode_ok(ib: Seq<u8>, lb: Seq<u8>) -> bool {
    &&& labels_wf(lb)
    &&& images_wf(ib)
    &&& image_count(ib) == label_count(lb)
}

/// The one-hot encoding of a label: ten entries, a single 1 at the label's
/// index, 0 everywhere else.
pub open spec fn one_hot_seq(label: int) -> Seq<u8> {
    Seq::new(10, |j: int| if j == label { 1u8 } else { 0u8 })
}

/// The record at index `i` of a well-formed buffer pair.
pub open spec fn sample_spec(ib: Seq<u8>, lb: Seq<u8>, i: int) -> SampleV {
    SampleV {
        label: lb[8 + i],
        one_hot: one_hot_seq(lb[8 + i] as int),
        pixels: ib.subrange(16 + 784 * i, 16 + 784 * (i + 1)),
    }
}

/// The sum of a sequence of bytes.
pub open spec fn byte_sum(s: Seq<u8>) -> int
    decreases s.len(),
{
    if s.len() == 0 {
        0
    } else {
        s[0] + byte_sum(s.drop_first())
    }
}

proof fn lemma_byte_sum_zero(s: Seq<u8>)
    requires
        forall|j: int| 0 <= j < s.len() ==> s[j] == 0,
    ensures
        byte_sum(s) == 0,
    decreases s.len(),
{
    if s.len() > 0 {
        lemma_byte_sum_zero(s.drop_first());
    }
}

proof fn lemma_byte_sum_single(s: Seq<u8>, k: int)
    requires
        0 <= k < s.len(),
        s[k] == 1,
        forall|j: int| 0 <= j < s.len() && j != k ==> s[j] == 0,
    ensures
        byte_sum(s) == 1,
    decreases s.len(),
{
    if k == 0 {
        lemma_byte_sum_zero(s.drop_first());
    } else {
        lemma_byte_sum_single(s.drop_first(), k - 1);
    }
}

/// The one-hot encoding of a valid label has exactly one 1, at the label's
/// index, zeros elsewhere, and its entries sum to 1.
pub proof fn lemma_one_hot_properties(label: int)
    requires
        0 <= label <= 9,
    ensures
        one_hot_seq(label).len() == 10,
        one_hot_seq(label)[label] == 1,
        forall|j: int| 0 <= j < 10 && j != label ==> one_hot_seq(label)[j] == 0,
        byte_sum(one_hot_seq(label)) == 1,
{
    lemma_byte_sum_single(one_hot_seq(label), label);
}

/// Builds the one-hot encoding of a valid label byte.
pub fn one_hot(label: u8) -> (r: Vec<u8>)
    requires
        label <= 9,
    ensures
        r@ == one_hot_seq(label as int),
        r@.len() == 10,
        r@[label as int] == 1,
        forall|j: int| 0 <= j < 10 && j != label ==> r@[j] == 0,
        byte_sum(r@) == 1,
{
    let mut r: Vec<u8> = Vec::new();
    for j in 0..10usize
        invariant
            r@.len() == j,
            forall|t: int| 0 <= t < j ==> r@[t] == one_hot_seq(label as int)[t],
    {
        if j == label as usize {
            r.push(1);
        } else {
            r.push(0);
        }
    }
    assert(r@ =~= one_hot_seq(label as int));
    proof {
        lemma_one_hot_properties(label as int);
    }
    r
}

/// An ordered, immutable collection of decoded samples.
pub struct Dataset {
    samples: Vec<Sample>,
}

impl View for Dataset {
    type V = Seq<SampleV>;

    closed spec fn view(&self) -> Seq<SampleV> {
        self.samples@.map_values(|s: Sample| s@)
    }
}

impl Dataset {
    /// Decodes the two raw buffers into a dataset, eagerly building every
    /// sample. Succeeds exactly on well-formed buffer pairs; every other
    /// input is rejected as malformed.
    pub fn from_raw(images: &[u8], labels: &[u8]) -> (r: Result<Dataset, Error>)
        ensures
            r is Ok <==> decode_ok(images@, labels@),
            r is Err ==> r == Err::<Dataset, Error>(Error::MalformedData),
            r matches Ok(ds) ==> {
                &&& ds@.len() == label_count(labels@)
                &&& forall|i: int|
                    0 <= i < ds@.len() ==> ds@[i] == sample_spec(images@, labels@, i)
            },
    {
        if labels.len() < 8 || images.len() < 8 {
            return Err(Error::MalformedData);
        }
        if read_be_u32(labels, 0) != 2049 {
            return Err(Error::MalformedData);
        }
        if read_be_u32(images, 0) != 2051 {
            return Err(Error::MalformedData);
        }
        let count = read_be_u32(labels, 4);
        if read_be_u32(images, 4) != count {
            return Err(Error::MalformedData);
        }
        if (labels.len() as u64) < 8 + (count as u64) {
            return Err(Error::MalformedData);
        }
        if (images.len() as u64) < 16 + 784 * (count as u64) {
            return Err(Error::MalformedData);
        }
        let n = count as usize;
        let labels_len = labels.len();
        let images_len = images.len();
        let mut samples: Vec<Sample> = Vec::new();
        for i in 0..n
            invariant
                n == label_count(labels@),
                labels_len == labels@.len(),
                images_len == images@.len(),
                labels_len >= 8 + n,
                images_len >= 16 + 784 * n,
                samples@.len() == i,
                forall|k: int| 8 <= k < 8 + i ==> labels@[k] <= 9,
                forall|k: int|
                    0 <= k < i ==> samples@.map_values(|s: Sample| s@)[k] == sample_spec(
                        images@,
                        labels@,
                        k,
                    ),
        {
            let label = labels[8 + i];
            if label > 9 {
                return Err(Error::MalformedData);
            }
            let oh = one_hot(label);
            let mut pixels: Vec<u8> = Vec::new();
            for j in 0..784usize
                invariant
                    i < n,
                    images_len == images@.len(),
                    images_len >= 16 + 784 * n,
                    pixels@.len() == j,
                    forall|t: int| 0 <= t < j ==> pixels@[t] == images@[16 + 784 * i + t],
            {
                pixels.push(images[16 + 784 * i + j]);
            }
            proof {
                assert(pixels@ =~= images@.subrange(16 + 784 * (i as int), 16 + 784 * (i + 1)));
            }
            let sample = Sample { label, one_hot: oh, pixels };
            proof {
                assert(sample@ =~= sample_spec(images@, labels@, i as int));
            }
            samples.push(sample);
        }
        Ok(Dataset { samples })
    }

    /// The number of samples.
    pub fn sample_count(&self) -> (r: usize)
        ensures
            r == self@.len(),
    {
        self.samples.len()
    }

    /// The sample at `index`; rejected when `index` is at or beyond the
    /// sample count.
    pub fn sample_at(&self, index: usize) -> (r: Result<&Sample, Error>)
        ensures
            r is Ok <==> index < self@.len(),
            r matches Ok(s) ==> s@ == self@[index as int],
            r is Err ==> r == Err::<&Sample, Error>(Error::IndexOutOfRange),
    {
        if index < self.samples.len() {
            Ok(&self.samples[index])
        } else {
            Err(Error::IndexOutOfRange)
        }
    }

    /// All samples in storage order: a finite, restartable, read-only view
    /// of the collection.
    pub fn iterate(&self) -> (r: &Vec<Sample>)
        ensures
            r@.len() == self@.len(),
            forall|i: int| 0 <= i < r@.len() ==> r@[i]@ == self@[i],
    {
        &self.samples
    }
}

} // verus!
