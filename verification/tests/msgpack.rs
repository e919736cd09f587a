use resolvd::msgpack::{Error, Reader, Writer};

#[test]
fn scalars_round_trip() {
    let mut w = Writer::new();
    w.write_array(9)
        .write_nil()
        .write_bool(true)
        .write_uint(5)
        .write_uint(300)
        .write_uint(70000)
        .write_uint(1 << 40)
        .write_int(-5)
        .write_int(-300)
        .write_str("hello");
    let bytes = w.into_bytes();
    let mut r = Reader::new(&bytes);
    assert_eq!(r.read_array().unwrap(), 9);
    r.read_nil().unwrap();
    assert!(r.read_bool().unwrap());
    assert_eq!(r.read_uint().unwrap(), 5);
    assert_eq!(r.read_uint().unwrap(), 300);
    assert_eq!(r.read_uint().unwrap(), 70000);
    assert_eq!(r.read_uint().unwrap(), 1 << 40);
    assert_eq!(r.read_int().unwrap(), -5);
    assert_eq!(r.read_int().unwrap(), -300);
    assert_eq!(r.read_str().unwrap(), "hello");
    assert_eq!(r.remaining(), 0);
}

#[test]
fn long_strings_bins_and_containers() {
    let long = "x".repeat(300);
    let bin = vec![7u8; 70000];
    let mut w = Writer::new();
    w.write_map(2)
        .write_str("s")
        .write_str(&long)
        .write_str("b")
        .write_bin(&bin);
    let bytes = w.into_bytes();
    let mut r = Reader::new(&bytes);
    assert_eq!(r.read_map().unwrap(), 2);
    assert_eq!(r.read_str().unwrap(), "s");
    assert_eq!(r.read_str().unwrap(), long);
    assert_eq!(r.read_str().unwrap(), "b");
    assert_eq!(r.read_bin().unwrap(), &bin[..]);
}

#[test]
fn skip_walks_nested_values_and_refuses_lies() {
    let mut w = Writer::new();
    w.write_array(2)
        .write_map(1)
        .write_str("k")
        .write_array(1)
        .write_uint(1)
        .write_str("after");
    let bytes = w.into_bytes();
    let mut r = Reader::new(&bytes);
    assert_eq!(r.read_array().unwrap(), 2);
    r.skip().unwrap();
    assert_eq!(r.read_str().unwrap(), "after");
    // An array claiming a billion elements in three bytes.
    let lie = [0xdd, 0x3b, 0x9a, 0xca, 0x00];
    assert_eq!(Reader::new(&lie).read_array(), Err(Error::Truncated));
    let mut deep = vec![0x91u8; 40];
    deep.push(0xc0);
    assert_eq!(Reader::new(&deep).skip(), Err(Error::Depth));
    assert_eq!(
        Reader::new(&[0xca, 0, 0, 0, 0]).skip(),
        Err(Error::Unsupported)
    );
}
