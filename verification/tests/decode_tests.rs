use ml::Dataset;
use ml::Error;

fn be32(x: u32) -> [u8; 4] {
    [(x >> 24) as u8, (x >> 16) as u8, (x >> 8) as u8, x as u8]
}

fn labels_buf(magic: u32, count: u32, labels: &[u8]) -> Vec<u8> {
    let mut b = Vec::new();
    b.extend_from_slice(&be32(magic));
    b.extend_from_slice(&be32(count));
    b.extend_from_slice(labels);
    b
}

fn images_buf(magic: u32, count: u32, pixels: &[u8]) -> Vec<u8> {
    let mut b = Vec::new();
    b.extend_from_slice(&be32(magic));
    b.extend_from_slice(&be32(count));
    b.extend_from_slice(&[0u8; 8]);
    b.extend_from_slice(pixels);
    b
}

#[test]
fn one_hot_all_labels() {
    for label in 0u8..=9 {
        let v = ml::one_hot(label);
        assert_eq!(v.len(), 10);
        let mut sum = 0u32;
        for (j, &e) in v.iter().enumerate() {
            if j == label as usize {
                assert_eq!(e, 1);
            } else {
                assert_eq!(e, 0);
            }
            sum += e as u32;
        }
        assert_eq!(sum, 1);
    }
}

#[test]
fn labels_bad_magic_is_malformed() {
    let lb = labels_buf(2050, 1, &[3]);
    let ib = images_buf(2051, 1, &[0u8; 784]);
    assert!(matches!(Dataset::from_raw(&ib, &lb), Err(Error::MalformedData)));
}

#[test]
fn images_bad_magic_is_malformed() {
    let lb = labels_buf(2049, 1, &[3]);
    let ib = images_buf(2052, 1, &[0u8; 784]);
    assert!(matches!(Dataset::from_raw(&ib, &lb), Err(Error::MalformedData)));
}

#[test]
fn count_mismatch_is_malformed() {
    let lb = labels_buf(2049, 2, &[3, 7]);
    let ib = images_buf(2051, 3, &[0u8; 784 * 3]);
    assert!(matches!(Dataset::from_raw(&ib, &lb), Err(Error::MalformedData)));
}

#[test]
fn truncated_labels_is_malformed() {
    let lb = labels_buf(2049, 3, &[3, 7]);
    let ib = images_buf(2051, 3, &[0u8; 784 * 3]);
    assert!(matches!(Dataset::from_raw(&ib, &lb), Err(Error::MalformedData)));
}

#[test]
fn truncated_images_is_malformed() {
    let lb = labels_buf(2049, 2, &[3, 7]);
    let ib = images_buf(2051, 2, &[0u8; 784 * 2 - 1]);
    assert!(matches!(Dataset::from_raw(&ib, &lb), Err(Error::MalformedData)));
}

#[test]
fn short_header_is_malformed() {
    let lb = vec![0u8, 0, 8];
    let ib = images_buf(2051, 0, &[]);
    assert!(matches!(Dataset::from_raw(&ib, &lb), Err(Error::MalformedData)));
}

#[test]
fn label_byte_above_nine_is_malformed() {
    let lb = labels_buf(2049, 1, &[10]);
    let ib = images_buf(2051, 1, &[0u8; 784]);
    assert!(matches!(Dataset::from_raw(&ib, &lb), Err(Error::MalformedData)));
}

#[test]
fn decodes_two_zero_images() {
    let lb = vec![0u8, 0, 8, 1, 0, 0, 0, 2, 3, 7];
    let ib = images_buf(2051, 2, &[0u8; 784 * 2]);
    let ds = Dataset::from_raw(&ib, &lb).unwrap();
    assert_eq!(ds.sample_count(), 2);

    let s0 = ds.sample_at(0).unwrap();
    assert_eq!(s0.label, 3);
    assert_eq!(s0.one_hot, ml::one_hot(3));
    assert_eq!(s0.pixels.len(), 784);
    assert!(s0.pixels.iter().all(|&p| p == 0));

    let s1 = ds.sample_at(1).unwrap();
    assert_eq!(s1.label, 7);
    assert_eq!(s1.one_hot, ml::one_hot(7));
    assert!(s1.pixels.iter().all(|&p| p == 0));
}

#[test]
fn decodes_pixel_values_in_order() {
    let lb = labels_buf(2049, 1, &[0]);
    let mut pixels = [0u8; 784];
    for (i, p) in pixels.iter_mut().enumerate() {
        *p = (i % 251) as u8;
    }
    let ib = images_buf(2051, 1, &pixels);
    let ds = Dataset::from_raw(&ib, &lb).unwrap();
    let s = ds.sample_at(0).unwrap();
    assert_eq!(&s.pixels[..], &pixels[..]);
}

#[test]
fn empty_dataset_decodes() {
    let lb = labels_buf(2049, 0, &[]);
    let ib = images_buf(2051, 0, &[]);
    let ds = Dataset::from_raw(&ib, &lb).unwrap();
    assert_eq!(ds.sample_count(), 0);
    assert!(matches!(ds.sample_at(0), Err(Error::IndexOutOfRange)));
    assert_eq!(ds.iterate().len(), 0);
}

#[test]
fn images_header_must_be_complete() {
    // The sixteen-byte images header is part of the layout even for an empty
    // dataset; a buffer that stops after the two counted words is malformed.
    let lb = labels_buf(2049, 0, &[]);
    let ib = vec![0u8, 0, 8, 3, 0, 0, 0, 0];
    assert!(matches!(Dataset::from_raw(&ib, &lb), Err(Error::MalformedData)));
}

#[test]
fn sample_at_out_of_range() {
    let lb = labels_buf(2049, 1, &[0]);
    let ib = images_buf(2051, 1, &[0u8; 784]);
    let ds = Dataset::from_raw(&ib, &lb).unwrap();
    assert!(ds.sample_at(0).is_ok());
    assert!(matches!(ds.sample_at(1), Err(Error::IndexOutOfRange)));
    assert!(matches!(ds.sample_at(usize::MAX), Err(Error::IndexOutOfRange)));
}

#[test]
fn iterate_walks_all_samples_in_order() {
    let lb = labels_buf(2049, 3, &[1, 4, 9]);
    let mut pixels = vec![0u8; 784 * 3];
    pixels[784] = 255;
    let ib = images_buf(2051, 3, &pixels);
    let ds = Dataset::from_raw(&ib, &lb).unwrap();
    let labels: Vec<u8> = ds.iterate().iter().map(|s| s.label).collect();
    assert_eq!(labels, vec![1, 4, 9]);
    assert_eq!(ds.iterate()[1].pixels[0], 255);
    assert_eq!(ds.iterate()[0].pixels[0], 0);
}

#[test]
fn read_be_u32_values() {
    assert_eq!(ml::read_be_u32(&[0, 0, 8, 1], 0), 2049);
    assert_eq!(ml::read_be_u32(&[0xff, 0, 0, 8, 3], 1), 2051);
    assert_eq!(ml::read_be_u32(&[0xde, 0xad, 0xbe, 0xef], 0), 0xdeadbeef);
}

#[test]
fn push_be_u32_round_trips() {
    let mut out = Vec::new();
    ml::push_be_u32(&mut out, 0x01020304);
    ml::push_be_u32(&mut out, 0xfffefdfc);
    assert_eq!(out, vec![1, 2, 3, 4, 0xff, 0xfe, 0xfd, 0xfc]);
    assert_eq!(ml::read_be_u32(&out, 4), 0xfffefdfc);
}
