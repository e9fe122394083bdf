use segue_attacca::image_url::image_to_url;

#[test]
fn three_bytes_encode_without_padding() {
    let url = image_to_url(&vec![b'a', b'b', b'c']);
    assert_eq!(url, "data:image/webp;base64,YWJj");
}

#[test]
fn one_byte_encodes_with_two_padding_characters() {
    let url = image_to_url(&vec![b'a']);
    assert_eq!(url, "data:image/webp;base64,YQ==");
}

#[test]
fn empty_image_gives_the_bare_prefix() {
    let url = image_to_url(&Vec::new());
    assert_eq!(url, "data:image/webp;base64,");
}

#[test]
fn binary_bytes_encode_exactly() {
    let url = image_to_url(&vec![0x00, 0xff, 0x10, 0x80]);
    assert_eq!(url, "data:image/webp;base64,AP8QgA==");
}
