use arf::{get_driver_file, ArfError, DriverFile, Options};
use sha2::{Digest, Sha256};

fn options() -> Options {
    Options::new(
        "netcard".to_string(),
        "A network card driver".to_string(),
        [1, 2, 3],
        0x8086,
        0x100E,
        0x02,
        0x05,
    )
}

#[test]
fn options_are_kept() {
    let o = options();
    assert_eq!(o.driver_name(), "netcard");
    assert_eq!(o.driver_description(), "A network card driver");
    assert_eq!(o.driver_version(), [1, 2, 3]);
    assert_eq!(o.manufacturer(), 0x8086);
    assert_eq!(o.device_id(), 0x100E);
    assert_eq!(o.subsystem(), 0x02);
    assert_eq!(o.driver_type(), 0x05);
}

#[test]
fn default_package() {
    let f = DriverFile::default();
    assert_eq!(f.header(), "AVDRIV01");
    assert_eq!(f.type_byte(), 0);
    assert_eq!(f.manufacturer(), 0);
    assert_eq!(f.device_id(), 0);
    assert_eq!(f.subsystem(), 0);
    assert_eq!(f.driver_name(), "");
    assert_eq!(f.driver_description(), "");
    assert_eq!(f.driver_version(), [0, 0, 0]);
    assert_eq!(f.hash(), "");
    assert!(f.executable().is_empty());
}

#[test]
fn set_options_fills_the_package() {
    let mut f = get_driver_file(options(), vec![1, 2, 3]);
    f.set_options(Options::new("a".to_string(), "b".to_string(), [9, 8, 7], 1, 2, 3, 4));
    assert_eq!(f.header(), "AVDRIV01");
    assert_eq!(f.type_byte(), 4);
    assert_eq!(f.manufacturer(), 1);
    assert_eq!(f.device_id(), 2);
    assert_eq!(f.subsystem(), 3);
    assert_eq!(f.driver_name(), "a");
    assert_eq!(f.driver_description(), "b");
    assert_eq!(f.driver_version(), [9, 8, 7]);
    assert_eq!(f.hash(), "");
    assert!(f.executable().is_empty());
}

#[test]
fn hash_is_sha256_of_name_manufacturer_and_executable() {
    let executable = vec![0x7F, b'E', b'L', b'F', 0, 1, 2, 3];
    let f = get_driver_file(options(), executable.clone());
    let mut hashed = b"netcard".to_vec();
    hashed.extend_from_slice(&[0x86, 0x80]);
    hashed.extend_from_slice(&executable);
    let digest = Sha256::digest(&hashed);
    let expected: String = digest.iter().map(|b| format!("{:02x}", b)).collect();
    assert_eq!(f.hash(), expected);
    assert_eq!(f.hash().len(), 64);
    assert!(f.hash().chars().all(|c| c.is_ascii_digit() || ('a'..='f').contains(&c)));
    assert_eq!(f.executable(), &executable);
    assert_eq!(f.driver_name(), "netcard");
    assert_eq!(f.manufacturer(), 0x8086);
}

#[test]
fn hash_of_the_empty_input() {
    let f = get_driver_file(
        Options::new(String::new(), String::new(), [0, 0, 0], 0, 0, 0, 0),
        Vec::new(),
    );
    assert_eq!(f.hash(), "96a296d224f285c67bee93c30f8a309157f0daa35dc5b87e410b78630a09cfc7");
    let f = get_driver_file(
        Options::new("abc".to_string(), String::new(), [0, 0, 0], 0x6463, 0, 0, 0),
        b"e".to_vec(),
    );
    let expected: String =
        Sha256::digest(b"abccde").iter().map(|b| format!("{:02x}", b)).collect();
    assert_eq!(f.hash(), expected);
}

#[test]
fn hash_depends_on_each_part() {
    let base = get_driver_file(options(), vec![1, 2, 3]);
    let other = get_driver_file(options(), vec![1, 2, 4]);
    assert_ne!(base.hash(), other.hash());
    let renamed = Options::new("netcard2".to_string(), String::new(), [1, 2, 3], 0x8086, 0, 0, 0);
    assert_ne!(base.hash(), get_driver_file(renamed, vec![1, 2, 3]).hash());
    let sold = Options::new("netcard".to_string(), String::new(), [1, 2, 3], 0x8087, 0, 0, 0);
    assert_ne!(base.hash(), get_driver_file(sold, vec![1, 2, 3]).hash());
    let same = Options::new("netcard".to_string(), "x".to_string(), [0, 0, 0], 0x8086, 9, 9, 9);
    assert_eq!(base.hash(), get_driver_file(same, vec![1, 2, 3]).hash());
}

#[test]
fn wire_form_of_a_package() {
    let f = get_driver_file(options(), vec![0xDE, 0xAD]);
    let bytes = f.to_bytes().unwrap();
    let mut expected = b"AVDRIV01".to_vec();
    expected.push(0x05);
    expected.extend_from_slice(&[0x86, 0x80]);
    expected.extend_from_slice(&[0x0E, 0x10]);
    expected.push(0x02);
    expected.extend_from_slice(&[7, 0, 0, 0]);
    expected.extend_from_slice(b"netcard");
    expected.extend_from_slice(&[21, 0, 0, 0]);
    expected.extend_from_slice(b"A network card driver");
    expected.extend_from_slice(&[64, 0, 0, 0]);
    expected.extend_from_slice(f.hash().as_bytes());
    expected.extend_from_slice(&[1, 2, 3]);
    expected.extend_from_slice(&[0xDE, 0xAD]);
    assert_eq!(bytes, expected);
}

#[test]
fn wire_form_of_the_default_package() {
    let bytes = DriverFile::default().to_bytes().unwrap();
    let mut expected = b"AVDRIV01".to_vec();
    expected.extend_from_slice(&[0; 6]);
    expected.extend_from_slice(&[0; 12]);
    expected.extend_from_slice(&[0; 3]);
    assert_eq!(bytes, expected);
}

#[test]
fn long_names_keep_their_length() {
    let name = "é".repeat(300);
    let f = get_driver_file(
        Options::new(name.clone(), String::new(), [0, 0, 0], 0, 0, 0, 0),
        Vec::new(),
    );
    let bytes: Result<Vec<u8>, ArfError> = f.to_bytes();
    let bytes = bytes.unwrap();
    assert_eq!(&bytes[14..18], &[0x58, 0x02, 0, 0]);
    assert_eq!(&bytes[18..618], name.as_bytes());
}

#[test]
fn hashed_input_is_name_manufacturer_executable() {
    assert_eq!(
        arf::driver::hash_input("net", 0x8086, &[1, 2, 3]),
        vec![b'n', b'e', b't', 0x86, 0x80, 1, 2, 3]
    );
    assert_eq!(arf::driver::hash_input("", 0x0001, &[]), vec![0x01, 0x00]);
    assert_eq!(arf::driver::hash_input("é", 0xFF00, &[9]), vec![0xC3, 0xA9, 0x00, 0xFF, 9]);
}

#[test]
fn package_from_its_parts() {
    let f = DriverFile::from_parts(options(), "cafe".to_string(), vec![7, 7]);
    assert_eq!(f.header(), "AVDRIV01");
    assert_eq!(f.type_byte(), 5);
    assert_eq!(f.driver_name(), "netcard");
    assert_eq!(f.driver_description(), "A network card driver");
    assert_eq!(f.driver_version(), [1, 2, 3]);
    assert_eq!(f.hash(), "cafe");
    assert_eq!(f.executable(), &vec![7, 7]);
}
