use neuralnetwork::mnist_unpacker::unpack;

fn image_header(count: u32) -> Vec<u8> {
    let mut bytes: Vec<u8> = Vec::new();
    bytes.extend_from_slice(&[0x00, 0x00, 0x08, 0x03]);
    bytes.extend_from_slice(&count.to_be_bytes());
    bytes.extend_from_slice(&28u32.to_be_bytes());
    bytes.extend_from_slice(&28u32.to_be_bytes());
    bytes
}

fn label_header(count: u32) -> Vec<u8> {
    let mut bytes: Vec<u8> = Vec::new();
    bytes.extend_from_slice(&[0x00, 0x00, 0x08, 0x01]);
    bytes.extend_from_slice(&count.to_be_bytes());
    bytes
}

fn sample_corpus(count: u32) -> (Vec<u8>, Vec<u8>) {
    let mut images = image_header(count);
    for i in 0..count {
        for p in 0..784u32 {
            images.push((i as u8).wrapping_add(p as u8));
        }
    }
    let mut labels = label_header(count);
    for i in 0..count {
        labels.push((7 + i) as u8);
    }
    (images, labels)
}

#[test]
fn unpack_slices_images_and_labels() {
    let (images, labels) = sample_corpus(2);
    let parsed = unpack(&images, &labels).unwrap();
    assert_eq!(parsed.images.len(), 2);
    assert_eq!(parsed.labels, vec![7, 8]);
    assert_eq!(parsed.images[0].len(), 784);
    assert_eq!(parsed.images[1].len(), 784);
    assert_eq!(parsed.images[0][0], 0);
    assert_eq!(parsed.images[0][5], 5);
    assert_eq!(parsed.images[1][0], 1);
    assert_eq!(parsed.images[1][783], 1u8.wrapping_add(783u32 as u8));
}

#[test]
fn unpack_accepts_trailing_bytes() {
    let (mut images, mut labels) = sample_corpus(1);
    images.extend_from_slice(&[9, 9, 9]);
    labels.push(42);
    let parsed = unpack(&images, &labels).unwrap();
    assert_eq!(parsed.images.len(), 1);
    assert_eq!(parsed.labels, vec![7]);
}

#[test]
fn unpack_rejects_wrong_image_magic() {
    let (mut images, labels) = sample_corpus(1);
    images[3] = 0x04;
    assert!(unpack(&images, &labels).is_none());
}

#[test]
fn unpack_rejects_wrong_label_magic() {
    let (images, mut labels) = sample_corpus(1);
    labels[3] = 0x02;
    assert!(unpack(&images, &labels).is_none());
}

#[test]
fn unpack_rejects_disagreeing_counts() {
    let (images, _) = sample_corpus(2);
    let mut labels = label_header(3);
    labels.extend_from_slice(&[7, 8, 9]);
    assert!(unpack(&images, &labels).is_none());
}

#[test]
fn unpack_rejects_truncated_image_data() {
    let (mut images, labels) = sample_corpus(2);
    images.pop();
    assert!(unpack(&images, &labels).is_none());
}

#[test]
fn unpack_rejects_truncated_label_data() {
    let (images, mut labels) = sample_corpus(2);
    labels.pop();
    assert!(unpack(&images, &labels).is_none());
}

#[test]
fn unpack_rejects_short_header() {
    let images = vec![0x00, 0x00, 0x08];
    let labels = label_header(0);
    assert!(unpack(&images, &labels).is_none());
}
