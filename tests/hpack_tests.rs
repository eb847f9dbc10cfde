use hpack::decoder::Decoder;
use hpack::encoder::Encoder;
use hpack::header_collection::HeaderCollection;
use hpack::header_field::HeaderField;
use hpack::header_set::HeaderSet;
use hpack::header_table::HeaderTable;
use hpack::huffman::{HuffmanDecoder, HuffmanEncoder};
use hpack::integer::{decode_int, encode_int};
use hpack::reference_set::ReferenceSet;
use hpack::representation::{ContextUpdate, IndexedHeader, IndexedLiteral, NamedLiteral, Representation};

fn hf(k: &str, v: &str) -> HeaderField {
    HeaderField::new(k.as_bytes().to_vec(), v.as_bytes().to_vec())
}

fn first_value(hs: &HeaderSet, name: &str) -> Vec<u8> {
    hs.get(name.as_bytes())[0].clone()
}

#[test]
fn encode_int_test() {
    let t0 = encode_int(10, 5);
    assert!(t0[0] == 10);

    let t1 = encode_int(1337, 5);
    assert!(t1[0] == 31);
    assert!(t1[1] == 154);
    assert!(t1[2] == 10);

    let t2 = encode_int(42, 8);
    assert!(t2[0] == 42);
}

#[test]
fn decode_int_test() {
    let (t0, _) = decode_int(vec![10], 5).unwrap();
    assert!(t0 == 10);

    let (t1, _) = decode_int(vec![31, 154, 10], 5).unwrap();
    assert!(t1 == 1337);

    let (t2, _) = decode_int(vec![42], 8).unwrap();
    assert!(t2 == 42);
}

#[test]
fn encode_int_decode_int_test() {
    let cases: [(usize, u8); 4] = [(123456789, 6), (100, 1), (22222222, 3), (42, 8)];
    for (t, p) in cases.iter() {
        let (d, rest) = decode_int(encode_int(*t, *p), *p).unwrap();
        assert!(d == *t);
        assert!(rest.is_empty());
    }

    let t4 = 3999;
    let t5 = 4000;
    let mut b2 = encode_int(t4, 6);
    b2.extend(encode_int(t5, 7));
    let (t6, b2) = decode_int(b2, 6).unwrap();
    let (t7, _) = decode_int(b2, 7).unwrap();
    assert!(t6 == t4);
    assert!(t7 == t5);
}

#[test]
fn encode_int_examples_exact() {
    assert_eq!(encode_int(1337, 5), vec![31, 154, 10]);
    assert_eq!(encode_int(42, 8), vec![42]);
    assert_eq!(encode_int(31, 5), vec![31, 0]);
    assert_eq!(encode_int(0, 1), vec![0]);
}

#[test]
fn decode_int_errors() {
    assert!(decode_int(vec![], 5).is_none());
    assert!(decode_int(vec![31, 154], 5).is_none());
    assert!(decode_int(vec![10], 0).is_none());
    assert!(decode_int(vec![10], 9).is_none());
    // six continuation octets are excessive
    assert!(decode_int(vec![31, 128, 128, 128, 128, 128, 1], 5).is_none());
    // a value past the 32-bit range is excessive
    assert!(decode_int(vec![255, 255, 255, 255, 255, 127], 8).is_none());
    // prefix bits above the first n are ignored
    let (v, rest) = decode_int(vec![0xE5, 7], 5).unwrap();
    assert_eq!(v, 5);
    assert_eq!(rest, vec![7]);
}

#[test]
fn integer_round_trip_all_prefixes() {
    for n in 1u8..=8 {
        for &i in [0usize, 1, 126, 127, 128, 255, 256, 16383, 16384, (1 << 28) - 1].iter() {
            let (d, rest) = decode_int(encode_int(i, n), n).unwrap();
            assert_eq!(d, i);
            assert!(rest.is_empty());
        }
    }
}

#[test]
fn header_table_test() {
    let h0 = hf("foo", "bar0");
    let h1 = hf("foo1", "bar00");
    let h2 = hf("foo2", "bar000");

    let s0 = h0.size();
    let s1 = h1.size();
    let s2 = h2.size();

    let mut ht = HeaderTable::new(0);

    ht.add(h0);
    ht.add(h1);
    ht.add(h2);

    assert!(ht.len() == 3);
    assert!(ht.size() == s0 + s1 + s2);

    assert!(ht.get(1).unwrap().key == b"foo2".to_vec());
    assert!(ht.get(2).unwrap().key == b"foo1".to_vec());
    assert!(ht.get(3).unwrap().key == b"foo".to_vec());

    ht.remove(2);

    assert!(ht.len() == 2);
    assert!(ht.size() == s0 + s2);

    assert!(ht.get(1).unwrap().key == b"foo2".to_vec());
    assert!(ht.get(2).unwrap().key == b"foo".to_vec());
}

#[test]
fn header_field_size_exact() {
    assert_eq!(hf("foo", "bar0").size(), 3 + 4 + 32);
    assert_eq!(hf("", "").size(), 32);
}

#[test]
fn header_table_find_and_bounds() {
    let mut ht = HeaderTable::new(4096);
    ht.add(hf("a", "1"));
    ht.add(hf("b", "2"));
    ht.add(hf("a", "3"));
    assert_eq!(ht.find(hf("a", "1")), Some((3, true)));
    assert_eq!(ht.find(hf("a", "9")), Some((3, false)));
    assert_eq!(ht.find(hf("c", "1")), None);
    assert!(ht.get(0).is_none());
    assert!(ht.get(4).is_none());
    assert!(ht.remove(4).is_none());
}

#[test]
fn reference_set_test() {
    let mut rs = ReferenceSet::new();

    let h0 = hf("foo", "bar0");
    let h1 = hf("foo1", "bar00");
    let h2 = hf("foo2", "bar000");

    rs.add(h0.clone(), true);
    rs.add(h1.clone(), false);
    rs.add(h2.clone(), true);

    assert!(rs.len() == 3);
    assert!(rs.has(&h0));
    assert!(rs.has(&h1));
    assert!(rs.has(&h2));

    let h3 = hf("foo2", "bar0000");
    rs.add(h3.clone(), true);
    rs.remove(&h2);
    assert!(rs.len() == 3);

    assert!(rs.has(&h0));
    assert!(rs.has(&h1));
    assert!(rs.has(&h3));
    assert!(!rs.has(&h2));

    for (f, _) in rs.entries().iter() {
        if f.key == b"foo".to_vec() {
            assert!(f.value == b"bar0".to_vec());
        } else if f.key == b"foo1".to_vec() {
            assert!(f.value == b"bar00".to_vec());
        } else if f.key == b"foo2".to_vec() {
            assert!(f.value == b"bar0000".to_vec());
        } else {
            assert!(false);
        }
    }

    rs.remove(&h0);

    assert!(rs.len() == 2);
    assert!(!rs.has(&h0));
    assert!(rs.has(&h1));
    assert!(!rs.has(&h2));
    assert!(rs.has(&h3));

    rs.reset();

    for (_, emitted) in rs.entries().iter() {
        assert!(!*emitted);
    }

    rs.empty();

    assert!(rs.len() == 0);
    assert!(!rs.has(&h0));
    assert!(!rs.has(&h1));
    assert!(!rs.has(&h2));
    assert!(!rs.has(&h3));
}

#[test]
fn header_set_test() {
    let mut hs = HeaderSet::new();
    hs.emit(hf("foo", "bar"));
    assert!(hs.len() == 1);
    hs.emit(hf("foo1", "bar1"));
    assert!(hs.len() == 2);
    hs.emit(hf("foo2", "bar2"));
    assert!(hs.len() == 3);
}

#[test]
fn header_set_keeps_duplicates_in_order() {
    let mut hs = HeaderSet::new();
    hs.emit(hf("a", "1"));
    hs.emit(hf("b", "2"));
    hs.emit(hf("a", "3"));
    assert_eq!(hs.get(b"a"), vec![b"1".to_vec(), b"3".to_vec()]);
    assert!(hs.contains(&hf("b", "2")));
    assert!(!hs.contains(&hf("b", "3")));
}

#[test]
fn huffman_encoder_test() {
    let mut encoder = HuffmanEncoder::new();
    let ascii_bytes: Vec<u8> = (0..256).map(|i| i as u8).collect();
    let huffman_codes: Vec<u8> = vec![255, 255, 238, 191, 255, 251, 191, 255, 254, 243, 255, 255, 189, 255, 255, 239, 191, 255, 251, 255, 255, 255, 3, 255, 255, 193, 255, 255, 240, 191, 255, 252, 63, 255, 255, 19, 255, 255, 197, 255, 255, 241, 191, 255, 252, 127, 255,255, 35, 255, 255, 201, 255, 255, 242, 191, 255, 252, 191, 255, 255, 51, 255, 255, 205, 255, 255, 243, 191, 255, 252, 255, 255, 255, 67, 255, 255, 209, 255, 255, 244, 191, 255, 253, 63, 255, 255, 83, 255, 255, 213, 255, 255, 245, 191, 255,253, 127, 255, 255, 99, 255, 255, 217, 55, 255, 62, 31, 254, 127, 252, 123, 39,255, 127, 175, 143, 247, 254, 101, 204, 249, 192, 73, 16, 67, 20, 114, 75, 55, 103, 255, 242, 127, 255, 191, 239, 255, 236, 253, 189, 218, 59, 244, 234, 249, 120, 124, 254, 159, 93, 123, 60, 124, 190, 223, 125, 180, 121, 254, 63, 62, 159, 175, 223, 252, 255, 255, 246, 191, 239, 255, 187, 191, 255, 228, 239, 85, 43, 225, 85, 108, 245, 246, 178, 219, 155, 127, 243, 12, 93, 199, 151, 62, 157, 125, 255, 255, 191, 249, 255, 254, 255, 223, 255, 255, 111, 255, 255, 220, 255, 255, 247, 127, 255, 253, 239, 255, 255, 127, 255, 255, 224, 255, 255, 248, 127, 255, 254, 47, 255, 255, 143, 255, 255, 228, 255, 255, 249, 127, 255, 254, 111, 255, 255, 159, 255, 255, 232, 255, 255, 250, 127, 255, 254, 175, 255, 255, 175, 255, 255, 236, 255, 255, 251, 127, 255, 254, 239, 255, 255, 191, 255, 255, 240, 255, 255, 252, 127, 255, 255, 47, 255, 255, 207, 255, 255, 244, 255, 255, 253, 127, 255, 255, 111, 255, 255, 223, 255, 255, 248, 255, 255, 254, 127, 255, 255, 175, 255, 255, 239, 255, 255, 252, 255, 255, 255, 127, 255, 255, 239, 255, 255, 255, 255, 255, 1, 255, 255, 129, 255, 255, 193, 127, 255, 224, 255, 255, 240, 159, 255, 248, 95, 255, 252, 55, 255, 254, 31, 255, 255, 17, 255, 255, 137, 255, 255, 197,127, 255, 226, 255, 255, 241, 159, 255, 248, 223, 255, 252, 119, 255, 254, 63, 255, 255, 33, 255, 255, 145, 255, 255, 201, 127, 255, 228, 255, 255, 242, 159, 255, 249, 95, 255, 252, 183, 255, 254, 95, 255, 255, 49, 255, 255, 153, 255, 255,205, 127, 255, 230, 255, 255, 243, 159, 255, 249, 223, 255, 252, 247, 255, 254,127, 255, 255, 65, 255, 255, 161, 255, 255, 209, 127, 255, 232, 255, 255, 244, 159, 255, 250, 95, 255, 253, 55, 255, 254, 159, 255, 255, 81, 255, 255, 169, 255, 255, 213, 127, 255, 234, 255, 255, 245, 159, 255, 250, 223, 255, 253, 119, 255, 254, 191, 255, 255, 97, 255, 255, 177, 255, 255, 217, 127, 255, 236, 255, 255,246, 159, 255, 251, 95, 255, 253, 183, 255, 254, 223, 255, 255, 113, 255, 255, 185, 255, 255, 221, 127, 255, 238, 255, 255, 247, 159, 255, 251, 223, 255, 253, 247, 255, 254, 255, 255, 255, 129, 255, 255, 193, 255, 255, 225, 127, 255, 240, 255, 255, 248, 159, 255, 252, 95, 255, 254, 55, 255, 255, 31, 255, 255, 145, 255, 255, 201, 255, 255, 229, 127, 255, 242, 255, 255, 249, 159, 255, 252, 223, 255, 254, 119, 255, 255, 63, 255, 255, 161, 255, 255, 209, 255, 255, 233, 127, 255,244, 255, 255, 250, 159, 255, 253, 95, 255, 254, 183, 255, 255, 95, 255, 255, 177, 255, 255, 217, 255, 255, 237, 127, 255, 246, 255];
    let encoded_bytes = encoder.encode(ascii_bytes);
    assert!(encoded_bytes == huffman_codes);
}

#[test]
fn huffman_round_trip() {
    let mut enc = HuffmanEncoder::new();
    let mut dec = HuffmanDecoder::new();
    let all: Vec<u8> = (0..256).map(|i| i as u8).collect();
    for s in [b"".to_vec(), b"www.example.com".to_vec(), b"no-cache".to_vec(), all].iter() {
        let e = enc.encode(s.clone());
        assert_eq!(dec.decode(e).unwrap(), *s);
    }
}

#[test]
fn huffman_shortens_common_text() {
    let mut enc = HuffmanEncoder::new();
    let e = enc.encode(b"0120".to_vec());
    // four 4-bit codes
    assert_eq!(e, vec![0x01, 0x20]);
}

#[test]
fn huffman_decode_errors() {
    let mut dec = HuffmanDecoder::new();
    // a full octet of padding
    assert!(dec.decode(vec![0xFF]).is_none());
    // padding that is not all ones
    assert!(dec.decode(vec![0x0C]).is_none());
    // the end-of-string code itself
    assert!(dec.decode(vec![0xFF, 0xFF, 0xEE, 0x7F]).is_none());
}

#[test]
fn indexed_header_test() {
    let h0 = IndexedHeader::new(127);
    assert!(h0.encode()[0] == 255);

    let h1 = IndexedHeader::new(128);
    assert!(h1.encode()[0] == 255);
    assert!(h1.encode()[1] == 1);
}

#[test]
fn indexed_literal_test() {
    let s0 = b"Hello".to_vec();
    // literal with incremental indexing: 01 prefix, 6-bit index
    let h0 = IndexedLiteral::new(true, false, 14, false, s0.clone());
    assert!(h0.encode()[0] == 0x40 | 14);
    assert!(h0.encode()[1] == 5);
    assert!(h0.encode()[2] == 72);
    assert!(h0.encode()[3] == 101);
    assert!(h0.encode()[4] == 108);
    assert!(h0.encode()[5] == 108);
    assert!(h0.encode()[6] == 111);

    // literal without indexing: 0000 prefix, 4-bit index
    let h1 = IndexedLiteral::new(false, false, 62, false, s0.clone());
    assert!(h1.encode() == vec![15, 47, 5, 72, 101, 108, 108, 111]);

    // never indexed: 0001 prefix
    let h2 = IndexedLiteral::new(false, true, 3, false, s0.clone());
    assert!(h2.encode()[0] == 0x13);
}

#[test]
fn named_literal_test() {
    let n0 = b"Hello".to_vec();
    let v0 = b"World".to_vec();
    let h0 = NamedLiteral::new(true, false, false, n0.clone(), false, v0.clone());
    assert!(h0.encode() == vec![64, 5, 72, 101, 108, 108, 111, 5, 87, 111, 114, 108, 100]);

    let h1 = NamedLiteral::new(false, false, false, n0.clone(), false, v0.clone());
    assert!(h1.encode() == vec![0, 5, 72, 101, 108, 108, 111, 5, 87, 111, 114, 108, 100]);

    let h2 = NamedLiteral::new(false, true, true, n0.clone(), false, v0.clone());
    assert!(h2.encode()[0] == 0x10);
    assert!(h2.encode()[1] == 0x85);
}

#[test]
fn context_update_encoding() {
    assert_eq!(ContextUpdate::new(true, 0).encode(), vec![0x30]);
    assert_eq!(ContextUpdate::new(false, 4096).encode(), vec![0x2F, 0xF1, 0x1F]);
}

#[test]
fn decode_test() {
    let mut decoder = Decoder::new();
    let h0 = hf(":path", "/index.html");
    let h1 = hf("foo", "bar");
    let h2 = hf("foo", "baz");

    let header_fields = decoder.decode(vec![0x85]).unwrap();
    assert!(header_fields.contains(&h0));
    assert_eq!(header_fields.len(), 1);

    let frame1 = vec![0x40, 3, b'f', b'o', b'o', 3, b'b', b'a', b'r'];
    let header_fields = decoder.decode(frame1).unwrap();
    assert!(header_fields.contains(&h0));
    assert!(header_fields.contains(&h1));
    assert_eq!(header_fields.len(), 2);

    let frame2 = vec![0x81, 0x01, 3, b'b', b'a', b'z'];
    let header_fields = decoder.decode(frame2).unwrap();
    assert!(header_fields.contains(&h0));
    assert!(header_fields.contains(&h2));
    assert!(!header_fields.contains(&h1));
}

#[test]
fn decode_context_update_empties_reference_set() {
    let mut decoder = Decoder::new();
    decoder.decode(vec![0x85]).unwrap();
    let hs = decoder.decode(vec![0x30]).unwrap();
    assert_eq!(hs.len(), 0);
    let hs = decoder.decode(vec![]).unwrap();
    assert_eq!(hs.len(), 0);
}

#[test]
fn decode_toggle_removes_without_emitting() {
    let mut decoder = Decoder::new();
    // index 5 emits :path and copies it to dynamic entry 1
    decoder.decode(vec![0x85]).unwrap();
    // index 1 now names the referenced entry: it is removed, not emitted
    let hs = decoder.decode(vec![0x81]).unwrap();
    assert_eq!(hs.len(), 0);
    let hs = decoder.decode(vec![]).unwrap();
    assert_eq!(hs.len(), 0);
}

#[test]
fn decode_errors() {
    let mut decoder = Decoder::new();
    // index 0
    assert!(decoder.decode(vec![0x80]).is_none());
    // index past the combined table
    assert!(decoder.decode(vec![0xBE]).is_none());
    // string cut short
    assert!(decoder.decode(vec![0x40, 3, b'f']).is_none());
    // reserved context update
    assert!(decoder.decode(vec![0x31]).is_none());
    // integer continuation cut short
    assert!(decoder.decode(vec![0xFF]).is_none());
}

#[test]
fn decode_max_size_change_evicts() {
    let mut decoder = Decoder::new();
    decoder.decode(vec![0x40, 3, b'f', b'o', b'o', 3, b'b', b'a', b'r']).unwrap();
    // maximum size 0: the entry and its reference go
    let hs = decoder.decode(vec![0x20]).unwrap();
    assert_eq!(hs.len(), 0);
    // index 1 is the static :authority again
    let hs = decoder.decode(vec![0x81]).unwrap();
    assert!(hs.contains(&hf(":authority", "")));
}

#[test]
fn decode_huffman_literal() {
    let mut enc = HuffmanEncoder::new();
    let v = enc.encode(b"www.example.com".to_vec());
    let mut block = vec![0x04 | 0x00, 0x80 | v.len() as u8];
    block.extend(v);
    let mut decoder = Decoder::new();
    // literal without indexing, name from static entry 4 (:path)
    let hs = decoder.decode(block).unwrap();
    assert!(hs.contains(&hf(":path", "www.example.com")));
    let hs = decoder.decode(vec![]).unwrap();
    assert_eq!(hs.len(), 0);
}

#[test]
fn encode_decode_fresh_pair() {
    let mut encoder = Encoder::new();
    let mut decoder = Decoder::new();
    let set = vec![hf("Foo", "Bar"), hf(":authority", "example")];
    let block = encoder.encode(set.clone());
    let hs = decoder.decode(block).unwrap();
    assert_eq!(hs.len(), 2);
    for f in set.iter() {
        assert!(hs.contains(f));
    }
}

#[test]
fn test_hpack() {
    let mut hpack_decoder = Decoder::new();
    let mut hpack_encoder = Encoder::new();

    let h0 = hf("Foo", "Bar");
    let h1 = hf(":authority", "Respect my authoritah!!!!");
    let hs0 = hpack_decoder.decode(hpack_encoder.encode(vec![h0.clone(), h1.clone()])).unwrap();
    assert!(first_value(&hs0, "Foo") == h0.value);
    assert!(first_value(&hs0, ":authority") == h1.value);

    let h2 = hf("Foo", "Bar");
    let h3 = hf(":status", "200");
    let h4 = hf("Baz", "Hello World!!!");
    let hs1 = hpack_decoder
        .decode(hpack_encoder.encode(vec![h2.clone(), h3.clone(), h4.clone()]))
        .unwrap();
    assert!(first_value(&hs1, "Foo") == h2.value);
    assert!(first_value(&hs1, ":status") == h3.value);
    assert!(first_value(&hs1, "Baz") == h4.value);

    let h5 = hf(":status", "200");
    let h6 = hf("www-authenticate", "Basic");
    let h7 = hf(":server", "RustyHTTP");
    let h8 = hf("date", "04-04-2014");
    let h9 = hf(":status", "200");
    let h10 = hf("Foo", "Bar");
    let h11 = hf("Baz", "Goodbye World!!!");
    let h12 = hf("cookie", "y2tqg67f8g8437qfg9867t487&/(%/GFCih37824/)dsfhasdhfuisdhf/#RYhffas\u{f8}\u{e6}\u{e5}dasdnhaksh");
    let h13 = hf("Doge", "much awesome");
    let h14 = hf("_haps_snaps_,.", "Vi sejled' op ad \u{e5}'en!!!");
    let h15 = hf("Proin vel pellentesque nibh. Aliquam vehicula arcu sit amet nibh lobortis cursus. Fusce dignissim felis vel velit gravida, vitae pellentesque orci fringilla. Nunc nec tempor neque. Lorem ipsum dolor sit amet, consectetur adipiscing elit. Donec a est nisi. Duis lobortis sodales imperdiet. Maecenas vitae consequat justo. Donec sit amet laoreet ipsum. Nam euismod purus sed elementum condimentum. Sed vitae lorem eu est egestas mattis. Pellentesque habitant morbi tristique senectus et netus et malesuada fames ac turpis egestas. Suspendisse quis elit dignissim, scelerisque libero vel, tempor odio.", "Ipsum Lorem");
    let h16 = hf("Lorem ipsum", "Lorem ipsum dolor sit amet, consectetur adipiscing elit. Integer at justo non sapien fringilla facilisis in at augue. Sed interdum, leo vel hendrerit fermentum, mi dolor malesuada tellus, in lobortis nisl sem porta augue. Praesent pellentesque, quam eget suscipit consequat, arcu velit mattis est, et porttitor nulla arcu eget velit. Nam at sodales massa. Vivamus velit erat, accumsan nec velit in, mattis euismod massa. Sed vel enim ullamcorper, lobortis mauris a, tempor metus. Cras ullamcorper odio ac odio bibendum rutrum. Duis blandit faucibus risus, sit amet fringilla odio venenatis et. Phasellus vehicula odio varius eros ultrices elementum. In rhoncus enim a massa interdum convallis.");
    let hb2 = vec![
        h5.clone(), h6.clone(), h7.clone(), h8.clone(), h9.clone(), h10.clone(), h11.clone(),
        h12.clone(), h13.clone(), h14.clone(), h15.clone(), h16.clone(),
    ];
    let hs2 = hpack_decoder.decode(hpack_encoder.encode(hb2)).unwrap();

    assert!(first_value(&hs2, ":status") == h5.value);
    assert!(first_value(&hs2, "www-authenticate") == h6.value);
    assert!(first_value(&hs2, ":server") == h7.value);
    assert!(first_value(&hs2, "date") == h8.value);
    assert!(first_value(&hs2, ":status") == h9.value);
    assert!(first_value(&hs2, "Foo") == h10.value);
    // the earlier "Baz" value was toggled off: only the new one is emitted
    assert!(hs2.get(b"Baz").len() == 1);
    assert!(first_value(&hs2, "Baz") == h11.value);
    assert!(first_value(&hs2, "cookie") == h12.value);
    assert!(first_value(&hs2, "Doge") == h13.value);
    assert!(first_value(&hs2, "_haps_snaps_,.") == h14.value);
    assert!(hs2.get(&h15.key)[0] == h15.value);
    assert!(first_value(&hs2, "Lorem ipsum") == h16.value);
}

#[test]
fn test_bug() {
    let mut hpack_decoder = Decoder::new();
    let value = "Respect my authoritah!!!!";
    let mut index = encode_int(1, 6);
    index[0] |= 64;
    let mut frame: Vec<u8> = Vec::new();
    frame.extend(index);
    frame.extend(encode_int(value.len(), 7));
    frame.extend(value.as_bytes().to_vec());

    let header_fields = hpack_decoder.decode(frame).unwrap();
    let header_fields2 = hpack_decoder.decode(vec![]).unwrap();

    assert!(first_value(&header_fields, ":authority") == value.as_bytes().to_vec());
    assert!(first_value(&header_fields2, ":authority") == value.as_bytes().to_vec());
}

#[test]
fn encoder_decoder_stay_in_step() {
    let mut encoder = Encoder::new();
    let mut decoder = Decoder::new();
    let sets = vec![
        vec![hf("a", "1"), hf("b", "2"), hf(":method", "GET")],
        vec![hf("a", "1"), hf("c", "3")],
        vec![hf("a", "1"), hf("c", "3")],
        vec![],
        vec![hf("b", "2"), hf(":path", "/x")],
    ];
    for set in sets.iter() {
        let hs = decoder.decode(encoder.encode(set.clone())).unwrap();
        assert_eq!(hs.len(), set.len());
        for f in set.iter() {
            assert!(hs.contains(f));
        }
    }
}

#[test]
fn encode_then_decode_contexts_agree() {
    let mut encoder = Encoder::new();
    let mut decoder = Decoder::new();
    let set = vec![hf("Foo", "Bar"), hf(":authority", "example")];
    let hs = decoder.decode(encoder.encode(set.clone())).unwrap();
    assert_eq!(hs.len(), 2);
    assert!(hs.contains(&set[0]));
    assert!(hs.contains(&set[1]));
    assert_eq!(encoder.state().dynamic_entries(), decoder.state().dynamic_entries());
    let mut er: Vec<HeaderField> = encoder.state().references().into_iter().map(|p| p.0).collect();
    let mut dr: Vec<HeaderField> = decoder.state().references().into_iter().map(|p| p.0).collect();
    er.sort_by(|a, b| (&a.key, &a.value).cmp(&(&b.key, &b.value)));
    dr.sort_by(|a, b| (&a.key, &a.value).cmp(&(&b.key, &b.value)));
    assert_eq!(er, dr);
    // ":authority" goes as a literal without indexing: only "Foo" is referenced
    assert_eq!(er, vec![hf("Foo", "Bar")]);
}

#[test]
fn decode_scenarios_table_contents() {
    let mut decoder = Decoder::new();
    decoder.decode(vec![0x85]).unwrap();
    assert_eq!(decoder.state().dynamic_entries(), vec![hf(":path", "/index.html")]);
    decoder.decode(vec![0x40, 3, b'f', b'o', b'o', 3, b'b', b'a', b'r']).unwrap();
    assert_eq!(decoder.state().dynamic_entries()[0], hf("foo", "bar"));
    let hs = decoder.decode(vec![0x81, 0x01, 3, b'b', b'a', b'z']).unwrap();
    assert_eq!(hs.len(), 2);
    // 0x81 toggles ("foo", "bar") off; 0x01 is a literal without indexing,
    // so the dynamic table is left as it was
    assert_eq!(
        decoder.state().dynamic_entries(),
        vec![hf("foo", "bar"), hf(":path", "/index.html")]
    );
}

#[test]
fn header_collection_groups_values() {
    let mut a = HeaderCollection::new();
    a.add(b"x".to_vec(), b"1".to_vec());
    a.add(b"y".to_vec(), b"2".to_vec());
    a.add(b"x".to_vec(), b"3".to_vec());
    assert_eq!(a.get(b"x"), vec![b"1".to_vec(), b"3".to_vec()]);
    assert!(a.get(b"z").is_empty());
    let mut b = HeaderCollection::new();
    b.add(b"x".to_vec(), b"4".to_vec());
    a.merge(b);
    assert_eq!(a.get(b"x"), vec![b"1".to_vec(), b"3".to_vec(), b"4".to_vec()]);
    assert_eq!(a.get(b"y"), vec![b"2".to_vec()]);
}

#[test]
fn find_header_prefers_full_static_match() {
    let mut ctx = hpack::context::Context::new(4096);
    ctx.insert(hf("cookie", "x"), false);
    // the dynamic entry matches the name only; static entry 32 matches fully
    assert_eq!(ctx.find_header(&hf("cookie", "")), Some((1 + 32, true)));
    assert_eq!(ctx.find_header(&hf("cookie", "y")), Some((1, false)));
    assert_eq!(ctx.find_header(&hf("via", "z")), Some((1 + 60, false)));
    assert_eq!(ctx.find_header(&hf("x-none", "z")), None);
}

#[test]
fn encoder_empties_reference_set_when_most_go() {
    let mut encoder = Encoder::new();
    let mut decoder = Decoder::new();
    let first = vec![hf("a", "1"), hf("b", "2"), hf("c", "3")];
    decoder.decode(encoder.encode(first)).unwrap();
    let block = encoder.encode(vec![hf("d", "4")]);
    assert_eq!(block[0], 0x30);
    let hs = decoder.decode(block).unwrap();
    assert_eq!(hs.len(), 1);
    assert!(hs.contains(&hf("d", "4")));
}

#[test]
fn encoder_sends_nothing_for_current_references() {
    let mut encoder = Encoder::new();
    assert!(encoder.encode(vec![]).is_empty());
    let set = vec![hf("a", "1"), hf("b", "2")];
    encoder.encode(set.clone());
    assert!(encoder.encode(set).is_empty());
}

#[test]
fn read_string_huffman_and_raw() {
    let mut enc = HuffmanEncoder::new();
    let mut dec = HuffmanDecoder::new();
    let s = b"custom-value".to_vec();
    let h = enc.encode(s.clone());
    let mut lit1 = encode_int(h.len(), 7);
    lit1[0] |= 0x80;
    lit1.extend(h);
    lit1.push(9);
    let (v, e) = hpack::decoder::read_string(&mut dec, &lit1, 0).unwrap();
    assert_eq!(v, s);
    assert_eq!(lit1[e], 9);
    let mut lit0 = encode_int(s.len(), 7);
    lit0.extend(s.clone());
    let (v, _) = hpack::decoder::read_string(&mut dec, &lit0, 0).unwrap();
    assert_eq!(v, s);
}

#[test]
fn kept_reference_survives_a_large_insertion() {
    let mut encoder = Encoder::new();
    let mut decoder = Decoder::new();
    decoder.decode(encoder.encode(vec![hf("a", "1")])).unwrap();
    let big = "v".repeat(4040);
    let set = vec![hf("a", "1"), hf("b", &big)];
    let block = encoder.encode(set.clone());
    // adding "b" could evict the kept ("a", "1"): the block empties first
    assert_eq!(block[0], 0x30);
    let hs = decoder.decode(block).unwrap();
    assert!(hs.contains(&set[0]));
    assert!(hs.contains(&set[1]));
    assert_eq!(encoder.state().dynamic_entries(), decoder.state().dynamic_entries());
}
