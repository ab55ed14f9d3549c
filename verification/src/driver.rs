//! The driver package: device identification, a digest, and the executable.

use crate::error::ArfError;
use crate::text::le16;
use crate::text::le32;
use crate::text::push_bytes;
use crate::text::push_le32;
use sha2::Digest;
use sha2::Sha256;
use vstd::prelude::*;
use vstd::string::*;
use vstd::utf8::*;

verus! {

/// The magic of a driver package.
pub open spec fn driver_magic() -> Seq<char> {
    seq!['A', 'V', 'D', 'R', 'I', 'V', '0', '1']
}

/// What the author of a driver says of it.
#[derive(Debug)]
pub struct Options {
    driver_name: String,
    driver_description: String,
    driver_version: [u8; 3],
    manufacturer: u16,
    device_id: u16,
    subsystem: u8,
    driver_type: u8,
}

/// The options of a driver, as a mathematical value.
pub struct OptionsView {
    pub driver_name: Seq<char>,
    pub driver_description: Seq<char>,
    pub driver_version: Seq<u8>,
    pub manufacturer: u16,
    pub device_id: u16,
    pub subsystem: u8,
    pub driver_type: u8,
}

impl View for Options {
    type V = OptionsView;

    closed spec fn view(&self) -> OptionsView {
        OptionsView {
            driver_name: self.driver_name@,
            driver_description: self.driver_description@,
            driver_version: self.driver_version@,
            manufacturer: self.manufacturer,
            device_id: self.device_id,
            subsystem: self.subsystem,
            driver_type: self.driver_type,
        }
    }
}

impl Options {
    /// The options with the given values.
    pub fn new(
        driver_name: String,
        driver_description: String,
        driver_version: [u8; 3],
        manufacturer: u16,
        device_id: u16,
        subsystem: u8,
        driver_type: u8,
    ) -> (o: Options)
        ensures
            o@ == (OptionsView {
                driver_name: driver_name@,
                driver_description: driver_description@,
                driver_version: driver_version@,
                manufacturer,
                device_id,
                subsystem,
                driver_type,
            }),
    {
        Options {
            driver_name,
            driver_description,
            driver_version,
            manufacturer,
            device_id,
            subsystem,
            driver_type,
        }
    }

    /// The name of the driver.
    pub fn driver_name(&self) -> (r: &str)
        ensures
            r@ == self@.driver_name,
    {
        self.driver_name.as_str()
    }

    /// A sentence on the driver.
    pub fn driver_description(&self) -> (r: &str)
        ensures
            r@ == self@.driver_description,
    {
        self.driver_description.as_str()
    }

    /// The version: major, minor, patch.
    pub fn driver_version(&self) -> (r: [u8; 3])
        ensures
            r@ == self@.driver_version,
    {
        self.driver_version
    }

    /// The identifier of the manufacturer.
    pub fn manufacturer(&self) -> (r: u16)
        ensures
            r == self@.manufacturer,
    {
        self.manufacturer
    }

    /// The identifier of the device.
    pub fn device_id(&self) -> (r: u16)
        ensures
            r == self@.device_id,
    {
        self.device_id
    }

    /// The identifier of the subsystem.
    pub fn subsystem(&self) -> (r: u8)
        ensures
            r == self@.subsystem,
    {
        self.subsystem
    }

    /// The type of the driver.
    pub fn driver_type(&self) -> (r: u8)
        ensures
            r == self@.driver_type,
    {
        self.driver_type
    }
}

/// A driver package.
#[derive(Debug)]
pub struct DriverFile {
    header: String,
    type_byte: u8,
    manufacturer: u16,
    device_id: u16,
    subsystem: u8,
    driver_name: String,
    driver_description: String,
    driver_version: [u8; 3],
    hash: String,
    executable: Vec<u8>,
}

/// A driver package, as a mathematical value.
pub struct DriverFileView {
    pub header: Seq<char>,
    pub type_byte: u8,
    pub manufacturer: u16,
    pub device_id: u16,
    pub subsystem: u8,
    pub driver_name: Seq<char>,
    pub driver_description: Seq<char>,
    pub driver_version: Seq<u8>,
    pub hash: Seq<char>,
    pub executable: Seq<u8>,
}

impl View for DriverFile {
    type V = DriverFileView;

    closed spec fn view(&self) -> DriverFileView {
        DriverFileView {
            header: self.header@,
            type_byte: self.type_byte,
            manufacturer: self.manufacturer,
            device_id: self.device_id,
            subsystem: self.subsystem,
            driver_name: self.driver_name@,
            driver_description: self.driver_description@,
            driver_version: self.driver_version@,
            hash: self.hash@,
            executable: self.executable@,
        }
    }
}

/// The lowercase hexadecimal SHA-256 digest of `data`, as `sha2::Sha256`
/// computes it.
pub uninterp spec fn sha256_hex_of(data: Seq<u8>) -> Seq<char>;

/// `c` is one of `0` to `9` or `a` to `f`.
pub open spec fn is_lower_hex_digit(c: char) -> bool {
    ('0' <= c && c <= '9') || ('a' <= c && c <= 'f')
}

/// Hashes `data` with `sha2::Sha256` and writes the digest in hexadecimal.
/// The result depends on `data` alone; the digest has 32 bytes, each of
/// which is written as two lowercase digits.
#[verifier::external_body]
fn sha256_hex(data: &[u8]) -> (r: String)
    ensures
        r@ == sha256_hex_of(data@),
        r@.len() == 64,
        forall|i: int| 0 <= i < r@.len() ==> is_lower_hex_digit(#[trigger] r@[i]),
{
    let mut hasher = Sha256::new();
    hasher.update(data);
    format!("{:x}", hasher.finalize())
}

/// What the digest of a package is taken over: the bytes of the driver's
/// name, the manufacturer with its low byte first, and the executable.
pub open spec fn hashed_bytes(name: Seq<char>, manufacturer: u16, executable: Seq<u8>) -> Seq<u8> {
    encode_utf8(name) + le16(manufacturer) + executable
}

/// The package without digest and executable that `options` describes.
pub open spec fn described_by(options: OptionsView) -> DriverFileView {
    DriverFileView {
        header: driver_magic(),
        type_byte: options.driver_type,
        manufacturer: options.manufacturer,
        device_id: options.device_id,
        subsystem: options.subsystem,
        driver_name: options.driver_name,
        driver_description: options.driver_description,
        driver_version: options.driver_version,
        hash: Seq::empty(),
        executable: Seq::empty(),
    }
}

/// The package for `options` and the executable `executable`.
pub open spec fn driver_of(options: OptionsView, executable: Seq<u8>) -> DriverFileView {
    DriverFileView {
        hash: sha256_hex_of(hashed_bytes(options.driver_name, options.manufacturer, executable)),
        executable,
        ..described_by(options)
    }
}

/// A string on the wire: the number of its bytes as a little-endian word,
/// then the bytes.
pub open spec fn emit_string(s: Seq<char>) -> Seq<u8> {
    le32(encode_utf8(s).len() as u32) + encode_utf8(s)
}

/// The wire form of a package.
pub open spec fn emit_driver(f: DriverFileView) -> Seq<u8> {
    encode_utf8(f.header) + seq![f.type_byte] + le16(f.manufacturer) + le16(f.device_id) + seq![
        f.subsystem,
    ] + emit_string(f.driver_name) + emit_string(f.driver_description) + emit_string(f.hash)
        + f.driver_version + f.executable
}

/// Whether the three strings of a package are short enough for their
/// length words.
pub open spec fn strings_fit(f: DriverFileView) -> bool {
    &&& encode_utf8(f.driver_name).len() <= u32::MAX
    &&& encode_utf8(f.driver_description).len() <= u32::MAX
    &&& encode_utf8(f.hash).len() <= u32::MAX
}

/// The magic, as a string.
fn magic() -> (r: String)
    ensures
        r@ == driver_magic(),
{
    proof {
        reveal_strlit("AVDRIV01");
    }
    assert("AVDRIV01"@ =~= driver_magic());
    "AVDRIV01".to_owned()
}

/// Appends the two bytes of `x`, least significant first.
fn push_le16(out: &mut Vec<u8>, x: u16)
    ensures
        final(out)@ == old(out)@ + le16(x),
{
    out.push((x % 256) as u8);
    out.push((x / 256) as u8);
    assert(out@ =~= old(out)@ + le16(x));
}

/// Appends a string behind its length, unless the length does not fit.
fn write_string(out: &mut Vec<u8>, s: &str) -> (ok: bool)
    ensures
        ok == (encode_utf8(s@).len() <= u32::MAX),
        ok ==> final(out)@ == old(out)@ + emit_string(s@),
{
    let bytes = s.as_bytes();
    if bytes.len() > 0xFFFF_FFFF {
        return false;
    }
    push_le32(out, bytes.len() as u32);
    push_bytes(out, bytes);
    assert(out@ =~= old(out)@ + emit_string(s@));
    true
}

impl Default for DriverFile {
    /// A package with the magic and nothing else.
    fn default() -> (f: DriverFile)
        ensures
            f@ == (DriverFileView {
                header: driver_magic(),
                type_byte: 0,
                manufacturer: 0,
                device_id: 0,
                subsystem: 0,
                driver_name: Seq::empty(),
                driver_description: Seq::empty(),
                driver_version: seq![0u8, 0u8, 0u8],
                hash: Seq::empty(),
                executable: Seq::empty(),
            }),
    {
        let f = DriverFile {
            header: magic(),
            type_byte: 0,
            manufacturer: 0,
            device_id: 0,
            subsystem: 0,
            driver_name: String::new(),
            driver_description: String::new(),
            driver_version: [0u8, 0u8, 0u8],
            hash: String::new(),
            executable: Vec::new(),
        };
        assert(f@.driver_version =~= seq![0u8, 0u8, 0u8]);
        f
    }
}

impl DriverFile {
    /// Makes the package the one that `options` describes, without digest
    /// and without executable.
    pub fn set_options(&mut self, options: Options)
        ensures
            final(self)@ == described_by(options@),
    {
        self.header = magic();
        self.type_byte = options.driver_type();
        self.manufacturer = options.manufacturer();
        self.device_id = options.device_id();
        self.subsystem = options.subsystem();
        self.driver_version = options.driver_version();
        self.driver_name = options.driver_name;
        self.driver_description = options.driver_description;
        self.hash = String::new();
        self.executable = Vec::new();
    }

    /// The magic.
    pub fn header(&self) -> (r: &str)
        ensures
            r@ == self@.header,
    {
        self.header.as_str()
    }

    /// The type of the driver.
    pub fn type_byte(&self) -> (r: u8)
        ensures
            r == self@.type_byte,
    {
        self.type_byte
    }

    /// The identifier of the manufacturer.
    pub fn manufacturer(&self) -> (r: u16)
        ensures
            r == self@.manufacturer,
    {
        self.manufacturer
    }

    /// The identifier of the device.
    pub fn device_id(&self) -> (r: u16)
        ensures
            r == self@.device_id,
    {
        self.device_id
    }

    /// The identifier of the subsystem.
    pub fn subsystem(&self) -> (r: u8)
        ensures
            r == self@.subsystem,
    {
        self.subsystem
    }

    /// The name of the driver.
    pub fn driver_name(&self) -> (r: &str)
        ensures
            r@ == self@.driver_name,
    {
        self.driver_name.as_str()
    }

    /// A sentence on the driver.
    pub fn driver_description(&self) -> (r: &str)
        ensures
            r@ == self@.driver_description,
    {
        self.driver_description.as_str()
    }

    /// The version: major, minor, patch.
    pub fn driver_version(&self) -> (r: [u8; 3])
        ensures
            r@ == self@.driver_version,
    {
        self.driver_version
    }

    /// The digest, in hexadecimal; empty until the package is packed.
    pub fn hash(&self) -> (r: &str)
        ensures
            r@ == self@.hash,
    {
        self.hash.as_str()
    }

    /// The executable of the driver.
    pub fn executable(&self) -> (r: &Vec<u8>)
        ensures
            r@ == self@.executable,
    {
        &self.executable
    }

    /// The wire form of the package: the magic, the type, the manufacturer,
    /// the device, the subsystem, then name, description and digest, each
    /// behind its length, the three version bytes and the executable. A
    /// string whose length does not fit in a word is an overflow.
    pub fn to_bytes(&self) -> (r: Result<Vec<u8>, ArfError>)
        ensures
            match r {
                Ok(bytes) => strings_fit(self@) && bytes@ == emit_driver(self@),
                Err(e) => e == ArfError::IntegerOverflow && !strings_fit(self@),
            },
    {
        let mut out: Vec<u8> = Vec::new();
        push_bytes(&mut out, self.header.as_str().as_bytes());
        out.push(self.type_byte);
        push_le16(&mut out, self.manufacturer);
        push_le16(&mut out, self.device_id);
        out.push(self.subsystem);
        if !write_string(&mut out, self.driver_name.as_str()) {
            return Err(ArfError::IntegerOverflow);
        }
        if !write_string(&mut out, self.driver_description.as_str()) {
            return Err(ArfError::IntegerOverflow);
        }
        if !write_string(&mut out, self.hash.as_str()) {
            return Err(ArfError::IntegerOverflow);
        }
        out.push(self.driver_version[0]);
        out.push(self.driver_version[1]);
        out.push(self.driver_version[2]);
        push_bytes(&mut out, self.executable.as_slice());
        assert(out@ =~= emit_driver(self@));
        Ok(out)
    }
}

/// The bytes that the digest of a package is taken over.
pub fn hash_input(name: &str, manufacturer: u16, executable: &[u8]) -> (r: Vec<u8>)
    ensures
        r@ == hashed_bytes(name@, manufacturer, executable@),
{
    let mut hashed: Vec<u8> = Vec::new();
    push_bytes(&mut hashed, name.as_bytes());
    push_le16(&mut hashed, manufacturer);
    push_bytes(&mut hashed, executable);
    assert(hashed@ =~= hashed_bytes(name@, manufacturer, executable@));
    hashed
}

impl DriverFile {
    /// The package that `options` describes, with the given digest and
    /// executable.
    pub fn from_parts(options: Options, hash: String, executable: Vec<u8>) -> (f: DriverFile)
        ensures
            f@ == (DriverFileView { hash: hash@, executable: executable@, ..described_by(options@) }),
    {
        let mut f = DriverFile::default();
        f.set_options(options);
        f.hash = hash;
        f.executable = executable;
        f
    }
}

/// Packs a driver: the package that `options` describes, with the
/// executable and with the digest of the driver's name, the manufacturer
/// and the executable, in 64 lowercase hexadecimal digits.
pub fn get_driver_file(options: Options, executable: Vec<u8>) -> (f: DriverFile)
    ensures
        f@ == driver_of(options@, executable@),
        f@.hash.len() == 64,
        forall|i: int| 0 <= i < 64 ==> is_lower_hex_digit(#[trigger] f@.hash[i]),
{
    let hashed = hash_input(options.driver_name(), options.manufacturer(), executable.as_slice());
    let hash = sha256_hex(hashed.as_slice());
    DriverFile::from_parts(options, hash, executable)
}

} // verus!
