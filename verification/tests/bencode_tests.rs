use torrent_core::bencode::{encode, parse, Item};

fn enc_one(it: Item) -> Vec<u8> {
    encode(&vec![it])
}

#[test]
fn encode_int_bytes() {
    assert_eq!(enc_one(Item::Int(-42)), b"i-42e".to_vec());
    assert_eq!(enc_one(Item::Int(0)), b"i0e".to_vec());
    assert_eq!(enc_one(Item::Int(12345)), b"i12345e".to_vec());
    assert_eq!(enc_one(Item::Int(i64::MIN)), b"i-9223372036854775808e".to_vec());
}

#[test]
fn encode_string_bytes() {
    assert_eq!(enc_one(Item::String(b"spam".to_vec())), b"4:spam".to_vec());
    assert_eq!(enc_one(Item::String(Vec::new())), b"0:".to_vec());
}

#[test]
fn encode_list_and_dict_bytes() {
    let l = Item::List(vec![Item::Int(1), Item::String(b"ab".to_vec())]);
    assert_eq!(enc_one(l), b"li1e2:abe".to_vec());
    let d = Item::Dict(vec![
        (b"cow".to_vec(), Item::String(b"moo".to_vec())),
        (b"spam".to_vec(), Item::String(b"eggs".to_vec())),
    ]);
    assert_eq!(enc_one(d), b"d3:cow3:moo4:spam4:eggse".to_vec());
}

#[test]
fn decode_example_dict() {
    let bytes = b"d3:cow3:moo4:spam4:eggse".to_vec();
    let items = parse(&bytes).expect("well-formed bencode must parse");
    assert_eq!(items.len(), 1);
    let d = items[0].get_dict();
    assert_eq!(d.len(), 2);
    assert_eq!(d[0].0, b"cow".to_vec());
    assert_eq!(d[0].1.get_str(), &b"moo".to_vec());
    assert_eq!(d[1].0, b"spam".to_vec());
    assert_eq!(d[1].1.get_str(), &b"eggs".to_vec());
}

#[test]
fn decode_encode_round_trip() {
    let tree = vec![Item::Dict(vec![
        (b"a".to_vec(), Item::Int(-7)),
        (b"b".to_vec(), Item::List(vec![
            Item::String(b"xy".to_vec()),
            Item::Int(0),
            Item::Dict(vec![(b"k".to_vec(), Item::String(Vec::new()))]),
        ])),
        (b"c".to_vec(), Item::String(b"zz".to_vec())),
    ])];
    let bytes = encode(&tree);
    let back = parse(&bytes).expect("round trip must parse");
    // the decoder is exact: re-encoding gives the same bytes
    assert_eq!(encode(&back), bytes);
}

#[test]
fn decode_rejects_malformed() {
    assert!(parse(&b"i-0e".to_vec()).is_none());
    assert!(parse(&b"i01e".to_vec()).is_none());
    assert!(parse(&b"i42".to_vec()).is_none());
    assert!(parse(&b"01:a".to_vec()).is_none());
    assert!(parse(&b"5:ab".to_vec()).is_none());
    assert!(parse(&b"d3:key".to_vec()).is_none());
    assert!(parse(&b"li1e".to_vec()).is_none());
    assert!(parse(&b"x".to_vec()).is_none());
}

#[test]
fn decode_keep_alive_keys_in_order() {
    // dictionary order is kept as on the wire, first match wins on lookup
    let bytes = b"d1:bi2e1:ai1ee".to_vec();
    let items = parse(&bytes).expect("parses");
    let d = items[0].get_dict();
    assert_eq!(d[0].0, b"b".to_vec());
    assert_eq!(d[1].0, b"a".to_vec());
    let got = items[0].dict_get(&b"a".to_vec()).expect("key is there");
    assert_eq!(got.get_int(), 1);
    assert!(items[0].dict_get(&b"zz".to_vec()).is_none());
}
