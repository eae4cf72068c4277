//! The dataset corpus parser: turns the two raw byte buffers of an
//! image/label corpus into per-example pixel rows and label bytes.
//!
//! The image buffer carries a magic number, a big-endian example count and
//! two dimension words, then `784` pixel bytes per example; the label buffer
//! carries its own magic number, the same count bytes, then one label byte
//! per example. Reading the files and turning pixels into network inputs is
//! the caller's business; this module only checks the framing and slices
//! the buffers, exactly.

use vstd::prelude::*;

verus! {

/// A parsed corpus: one `784`-byte pixel row per example and the matching
/// label bytes.
pub struct MnistImages {
    pub images: Vec<Vec<u8>>,
    pub labels: Vec<u8>,
}


/// The big-endian 32-bit word formed by four bytes.
pub open spec fn be_u32(b0: u8, b1: u8, b2: u8, b3: u8) -> int {
    b0 * 0x1000000 + b1 * 0x10000 + b2 * 0x100 + b3
}

/// The example count announced by an image buffer's header.
pub open spec fn image_count(imgs: Seq<u8>) -> int {
    be_u32(imgs[4], imgs[5], imgs[6], imgs[7])
}

/// A well-formed corpus: both magic numbers in place, the same count bytes
/// in both headers, and both buffers long enough for that many examples.
/// Trailing bytes beyond the announced examples are allowed and ignored.
pub open spec fn corpus_wf(imgs: Seq<u8>, labs: Seq<u8>) -> bool {
    &&& imgs.len() >= 16
    &&& labs.len() >= 8
    &&& be_u32(imgs[0], imgs[1], imgs[2], imgs[3]) == 0x803
    &&& be_u32(labs[0], labs[1], labs[2], labs[3]) == 0x801
    &&& imgs[4] == labs[4]
    &&& imgs[5] == labs[5]
    &&& imgs[6] == labs[6]
    &&& imgs[7] == labs[7]
    &&& imgs.len() >= 16 + image_count(imgs) * 784
    &&& labs.len() >= 8 + image_count(imgs)
}

/// The big-endian 32-bit word formed by four bytes.
fn be_u32_exec(b0: u8, b1: u8, b2: u8, b3: u8) -> (r: u32)
    ensures
        r == be_u32(b0, b1, b2, b3),
{
    (b0 as u32) * 0x1000000 + (b1 as u32) * 0x10000 + (b2 as u32) * 0x100 + (b3 as u32)
}

/// Unpack a corpus from its two raw byte buffers. Returns `None`, and only
/// `None`, when the framing is malformed: a missing or wrong magic number,
/// count bytes that disagree between the buffers, or a buffer shorter than
/// its header announces. On success, image `i` is exactly the `i`-th
/// `784`-byte slice of the image buffer and label `i` the `i`-th label
/// byte, for every announced example.
pub fn unpack(images_data: &Vec<u8>, labels_data: &Vec<u8>) -> (r: Option<MnistImages>)
    ensures
        match r {
            Some(m) => {
                &&& corpus_wf(images_data@, labels_data@)
                &&& m.images@.len() == image_count(images_data@)
                &&& m.labels@.len() == image_count(images_data@)
                &&& forall|i: int|
                    0 <= i < m.images@.len() ==> (#[trigger] m.images@[i])@
                        == images_data@.subrange(
                        16 + i * 784,
                        16 + i * 784 + 784,
                    )
                &&& forall|i: int|
                    0 <= i < m.labels@.len() ==> (#[trigger] m.labels@[i]) == labels_data@[8 + i]
            },
            None => !corpus_wf(images_data@, labels_data@),
        },
{
    if images_data.len() < 16 || labels_data.len() < 8 {
        return None;
    }
    let images_magic = be_u32_exec(images_data[0], images_data[1], images_data[2], images_data[3]);
    let labels_magic = be_u32_exec(labels_data[0], labels_data[1], labels_data[2], labels_data[3]);
    if images_magic != 0x803 || labels_magic != 0x801 {
        return None;
    }
    if images_data[4] != labels_data[4] || images_data[5] != labels_data[5] || images_data[6]
        != labels_data[6] || images_data[7] != labels_data[7] {
        return None;
    }
    let count = be_u32_exec(images_data[4], images_data[5], images_data[6], images_data[7]);
    if (count as u64) * (784 as u64) + 16 > images_data.len() as u64 {
        return None;
    }
    if (count as u64) + 8 > labels_data.len() as u64 {
        return None;
    }
    let n = count as usize;
    let mut images: Vec<Vec<u8>> = Vec::new();
    let mut labels: Vec<u8> = Vec::new();
    for i in 0..n
        invariant
            n == image_count(images_data@),
            images_data@.len() <= usize::MAX,
            images_data@.len() >= 16 + n * 784,
            labels_data@.len() >= 8 + n,
            images@.len() == i,
            labels@.len() == i,
            forall|k: int|
                0 <= k < i ==> (#[trigger] images@[k])@ == images_data@.subrange(
                    16 + k * 784,
                    16 + k * 784 + 784,
                ),
            forall|k: int| 0 <= k < i ==> (#[trigger] labels@[k]) == labels_data@[8 + k],
    {
        let base = 16 + i * 784;
        let mut px: Vec<u8> = Vec::new();
        for j in 0..784
            invariant
                base == 16 + i * 784,
                i < n,
                images_data@.len() <= usize::MAX,
                images_data@.len() >= 16 + n * 784,
                px@.len() == j,
                forall|q: int| 0 <= q < j ==> (#[trigger] px@[q]) == images_data@[base + q],
        {
            px.push(images_data[base + j]);
        }
        proof {
            assert(px@ =~= images_data@.subrange(
                16 + i as int * 784,
                16 + i as int * 784 + 784,
            ));
        }
        images.push(px);
        labels.push(labels_data[8 + i]);
    }
    Some(MnistImages { images, labels })
}

} // verus!
