use sha1_core::sha1::{DigestError, Sha1};
use sha1_core::GitRepository;

#[test]
fn it_works() {
}

#[test]
fn try_from_bytes_slice() {
    let bytes = &"abcdefghijklmnopqrstuvwxyz".as_bytes()[0..20];
    let sha = Sha1::from_bytes(bytes).unwrap();
    assert_eq!(sha.as_bytes().as_slice(), bytes);
}

#[test]
fn try_from_string_1() {
    let s = "68695759657552474D5749715042386666686330";
    let sha = Sha1::from_hex(s).unwrap();
    assert_eq!(sha.to_hex(), s);
}

#[test]
fn try_from_string_2() {
    let s = "4579667A62774254505448704B76705A70753643";
    let sha = Sha1::from_hex(s).unwrap();
    assert_eq!(sha.to_hex(), s);
}

#[test]
fn try_from_string_3() {
    let s = "57337965544462306D52776E6C55367475614E66";
    let sha = Sha1::from_hex(s).unwrap();
    assert_eq!(sha.to_hex(), s);
}

#[test]
fn try_from_string_4() {
    let s = "6134394451474441414443316644303047457230";
    let sha = Sha1::from_hex(s).unwrap();
    assert_eq!(sha.to_hex(), s);
}

#[test]
fn display_1() {
    let sha = Sha1::from_bytes(&"hiWYeuRGMWIqPB8ffhc0".as_bytes()[0..20]).unwrap();
    assert_eq!(sha.to_hex(), "68695759657552474D5749715042386666686330");
}

#[test]
fn display_2() {
    let sha = Sha1::from_bytes(&"EyfzbwBTPTHpKvpZpu6C".as_bytes()[0..20]).unwrap();
    assert_eq!(sha.to_hex(), "4579667A62774254505448704B76705A70753643");
}

#[test]
fn display_3() {
    let sha = Sha1::from_bytes(&"W3yeTDb0mRwnlU6tuaNf".as_bytes()[0..20]).unwrap();
    assert_eq!(sha.to_hex(), "57337965544462306D52776E6C55367475614E66");
}

#[test]
fn display_4() {
    let sha = Sha1::from_bytes(&"a49DQGDAADC1fD00GEr0".as_bytes()[0..20]).unwrap();
    assert_eq!(sha.to_hex(), "6134394451474441414443316644303047457230");
}

#[test]
fn encode() {
    assert_eq!(
        Sha1::encode("abcde".as_bytes()).to_hex(),
        "03DE6C570BFE24BFC328CCD7CA46B76EADAF4334"
    );
}

#[test]
fn fk_choice_range() {
    assert_eq!(Sha1::fk(10, 0x26EA74BC, 0xCD0AF957, 0xB30B23C9), 0xEF8DECEE);
}

#[test]
fn fk_first_parity_range() {
    assert_eq!(Sha1::fk(30, 0x353A2010, 0xA835EC3A, 0xD1C4D076), 0xBBA507FD);
}

#[test]
fn fk_majority_range() {
    assert_eq!(Sha1::fk(50, 0x90236E48, 0xB83C0990, 0xD9658F02), 0x2740CBDC);
}

#[test]
fn fk_second_parity_range() {
    assert_eq!(Sha1::fk(70, 0x4F5D1322, 0xDB469DA0, 0x97A4BD58), 0xCE21F5B0);
}

#[test]
fn transmute() {
    let mut v: Vec<u32> = vec![0xA82CA0B2, 0x37D62331, 0x9E21D818, 0xDA4C5411, 0x785E6B9C];
    Sha1::transmute(&mut v, 0x61626364, 0xCD0AF957);
    let expected: Vec<u32> = vec![0xAC5FDEAC, 0xA82CA0B2, 0x4DF588CC, 0x9E21D818, 0xDA4C5411];
    assert_eq!(v, expected);
}

#[test]
fn hash_known_vectors() {
    assert_eq!(
        Sha1::encode(b"").to_hex(),
        "DA39A3EE5E6B4B0D3255BFEF95601890AFD80709"
    );
    assert_eq!(
        Sha1::encode(b"abcde").to_hex(),
        "03DE6C570BFE24BFC328CCD7CA46B76EADAF4334"
    );
    assert_eq!(
        Sha1::encode(b"hello world").to_hex(),
        "2AAE6C35C94FCFB415DBE95F408B9CE91EE846ED"
    );
}

#[test]
fn digest_length_is_20() {
    assert_eq!(Sha1::encode(b"").as_bytes().len(), 20);
    assert_eq!(Sha1::encode(b"x").as_bytes().len(), 20);
    assert_eq!(Sha1::encode(&[0u8; 1000]).as_bytes().len(), 20);
}

#[test]
fn hex_round_trip() {
    let d = Sha1::encode(b"hello world");
    let h = d.to_hex();
    assert_eq!(h.len(), 40);
    assert!(h.chars().all(|c| c.is_ascii_digit() || ('A'..='F').contains(&c)));
    let d2 = Sha1::from_hex(&h).unwrap();
    assert_eq!(d2.as_bytes(), d.as_bytes());
}

#[test]
fn from_bytes_round_trip() {
    let b: Vec<u8> = (0..20).map(|i| (i * 13 + 7) as u8).collect();
    let d = Sha1::from_bytes(&b).unwrap();
    let h = d.to_hex();
    let d2 = Sha1::from_hex(&h).unwrap();
    assert_eq!(d2.as_bytes(), &b);
}

#[test]
fn from_bytes_invalid_length() {
    assert!(matches!(
        Sha1::from_bytes(&[0u8; 19]),
        Err(DigestError::InvalidLength { len: 19 })
    ));
    assert!(matches!(
        Sha1::from_bytes(&[0u8; 21]),
        Err(DigestError::InvalidLength { len: 21 })
    ));
}

#[test]
fn from_hex_invalid_character() {
    let s = "68695759657552474D574971504238666668633G";
    assert!(matches!(
        Sha1::from_hex(s),
        Err(DigestError::InvalidHex { pos: 39 })
    ));
    let s = "G8695759657552474D5749715042386666686330";
    assert!(matches!(
        Sha1::from_hex(s),
        Err(DigestError::InvalidHex { pos: 0 })
    ));
}

#[test]
fn from_hex_invalid_length() {
    let s = "68695759657552474D574971504238666668633";
    assert!(matches!(
        Sha1::from_hex(s),
        Err(DigestError::InvalidHex { pos: 39 })
    ));
    let s = "68695759657552474D57497150423866666863300";
    assert!(matches!(
        Sha1::from_hex(s),
        Err(DigestError::InvalidHex { pos: 41 })
    ));
    assert!(matches!(
        Sha1::from_hex(""),
        Err(DigestError::InvalidHex { pos: 0 })
    ));
}

#[test]
fn from_hex_accepts_lowercase() {
    let d = Sha1::from_hex("da39a3ee5e6b4b0d3255bfef95601890afd80709").unwrap();
    assert_eq!(d.to_hex(), "DA39A3EE5E6B4B0D3255BFEF95601890AFD80709");
}

#[test]
fn padding_boundary_55() {
    let m = [b'a'; 55];
    assert_eq!(Sha1::prepare_blocks(&m).len(), 16);
    assert_eq!(
        Sha1::encode(&m).to_hex(),
        "C1C8BBDC22796E28C0E15163D20899B65621D65A"
    );
}

#[test]
fn padding_boundary_56() {
    let m = [b'a'; 56];
    assert_eq!(Sha1::prepare_blocks(&m).len(), 32);
    assert_eq!(
        Sha1::encode(&m).to_hex(),
        "C2DB330F6083854C99D4B5BFB6E8F29F201BE699"
    );
}

#[test]
fn padding_boundary_63() {
    let m = [b'a'; 63];
    assert_eq!(Sha1::prepare_blocks(&m).len(), 32);
    assert_eq!(
        Sha1::encode(&m).to_hex(),
        "03F09F5B158A7A8CDAD920BDDC29B81C18A551F5"
    );
}

#[test]
fn padding_boundary_64() {
    let m = [b'a'; 64];
    assert_eq!(Sha1::prepare_blocks(&m).len(), 32);
    assert_eq!(
        Sha1::encode(&m).to_hex(),
        "0098BA824B5C16427BD7A1122A5A442A25EC644D"
    );
}

#[test]
fn repository_new() {
    let _repo = GitRepository::new("/tmp/objects");
}
