use librualg::huffman::Huffman;

#[test]
fn test() {
    assert_eq!(Huffman::encode(""), None);

    let (bytes, decode_table) = Huffman::encode("abracadabra").unwrap();
    let msg = Huffman::decode(&bytes, &decode_table);
    assert_eq!(msg, "abracadabra");

    let (bytes, decode_table) = Huffman::encode("aaa").unwrap();
    let msg = Huffman::decode(&bytes, &decode_table);
    assert_eq!(msg, "aaa");

    let (bytes, decode_table) = Huffman::encode("a").unwrap();
    let msg = Huffman::decode(&bytes, &decode_table);
    assert_eq!(msg, "a");

    let (bytes, decode_table) = Huffman::encode(" a ").unwrap();
    let msg = Huffman::decode(&bytes, &decode_table);
    assert_eq!(msg, " a ");

    let (bytes, decode_table) = Huffman::encode(" a \n").unwrap();
    let msg = Huffman::decode(&bytes, &decode_table);
    assert_eq!(msg, " a \n");

    let (bytes, decode_table) = Huffman::encode("aaaaaaaa").unwrap();
    let msg = Huffman::decode(&bytes, &decode_table);
    assert_eq!(msg, "aaaaaaaa");
    assert_eq!(bytes.len(), 2);
}
