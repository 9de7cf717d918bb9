use mnist_net::{read_labels, read_numbers, Error};
use mnist_net::mnist::get_pictures;

fn image_file(count: u32, rows: u32, cols: u32, pixels: &[u8]) -> Vec<u8> {
    let mut data = Vec::new();
    data.extend_from_slice(&0x0803u32.to_be_bytes());
    data.extend_from_slice(&count.to_be_bytes());
    data.extend_from_slice(&rows.to_be_bytes());
    data.extend_from_slice(&cols.to_be_bytes());
    data.extend_from_slice(pixels);
    data
}

fn label_file(count: u32, labels: &[u8]) -> Vec<u8> {
    let mut data = Vec::new();
    data.extend_from_slice(&0x0801u32.to_be_bytes());
    data.extend_from_slice(&count.to_be_bytes());
    data.extend_from_slice(labels);
    data
}

#[test]
fn it_works() {
}

#[test]
fn decode_images_round_trip() {
    let data = image_file(2, 2, 2, &[0, 1, 2, 3, 4, 5, 6, 7]);
    let nums = read_numbers(&data).unwrap();
    assert_eq!(nums.magic_number, 0x0803);
    assert_eq!(nums.size, 2);
    assert_eq!(nums.rows, 2);
    assert_eq!(nums.cols, 2);
    assert_eq!(nums.pictures.len(), 2);
    assert_eq!(nums.pictures[0], vec![vec![0u8, 1], vec![2, 3]]);
    assert_eq!(nums.pictures[1], vec![vec![4u8, 5], vec![6, 7]]);
}

#[test]
fn decode_labels_round_trip() {
    let data = label_file(2, &[3, 7]);
    let labs = read_labels(&data).unwrap();
    assert_eq!(labs.magic_number, 0x0801);
    assert_eq!(labs.size, 2);
    assert_eq!(labs.labels, vec![3u8, 7]);
}

#[test]
fn paired_samples_round_trip() {
    let ndata = image_file(2, 2, 2, &[0, 1, 2, 3, 4, 5, 6, 7]);
    let ldata = label_file(2, &[3, 7]);
    let pics = get_pictures(&ndata, &ldata).unwrap();
    assert_eq!(pics.len(), 2);
    assert_eq!(pics[0].pixels, vec![vec![0u8, 1], vec![2, 3]]);
    assert_eq!(pics[0].value, 3);
    assert_eq!(pics[1].pixels, vec![vec![4u8, 5], vec![6, 7]]);
    assert_eq!(pics[1].value, 7);
}

#[test]
fn truncated_image_file_is_rejected() {
    // header promises 10 * 2 * 2 pixel bytes but only 6 follow
    let data = image_file(10, 2, 2, &[1, 2, 3, 4, 5, 6]);
    assert_eq!(read_numbers(&data).unwrap_err(), Error::TruncatedData);
}

#[test]
fn short_image_header_is_rejected() {
    let data = vec![1u8, 2, 3];
    assert_eq!(read_numbers(&data).unwrap_err(), Error::TruncatedData);
}

#[test]
fn truncated_label_file_is_rejected() {
    let data = label_file(10, &[1, 2, 3]);
    assert_eq!(read_labels(&data).unwrap_err(), Error::TruncatedData);
}

#[test]
fn truncation_propagates_through_pairing() {
    let ndata = image_file(10, 2, 2, &[1, 2, 3]);
    let ldata = label_file(1, &[0]);
    assert_eq!(get_pictures(&ndata, &ldata).unwrap_err(), Error::TruncatedData);
}

#[test]
fn zip_truncation_takes_the_shorter_side() {
    // 5 one-pixel images against 3 labels: exactly 3 samples come out
    let ndata = image_file(5, 1, 1, &[10, 20, 30, 40, 50]);
    let ldata = label_file(3, &[0, 1, 2]);
    let pics = get_pictures(&ndata, &ldata).unwrap();
    assert_eq!(pics.len(), 3);
    assert_eq!(pics[0].pixels, vec![vec![10u8]]);
    assert_eq!(pics[0].value, 0);
    assert_eq!(pics[2].pixels, vec![vec![30u8]]);
    assert_eq!(pics[2].value, 2);
}

#[test]
fn empty_image_file_decodes_to_nothing() {
    let data = image_file(0, 28, 28, &[]);
    let nums = read_numbers(&data).unwrap();
    assert_eq!(nums.size, 0);
    assert_eq!(nums.pictures.len(), 0);
}
