//! The descriptor of a container: a text that lists the kernel extensions
//! that a program asks for, and says whether it is a library.

use crate::error::ArfError;
use crate::text::bytes_eq;
use crate::text::index_of_byte;
use crate::text::lemma_index_of_byte;
use crate::text::copy_range;
use crate::text::find_byte;
use vstd::prelude::*;
use vstd::string::*;
use vstd::utf8::*;

verus! {

/// The request byte of the console extension.
pub const EXT_CONSOLE: u8 = 0x00;

/// The request byte of the framebuffer extension.
pub const EXT_FRAMEBUFFER: u8 = 0x01;

/// The request byte of the filesystem extension.
pub const EXT_FILESYSTEM: u8 = 0x02;

/// What a descriptor says.
#[derive(Debug)]
pub struct ArfDescriptionFile {
    extensions: Vec<u8>,
    library: bool,
}

/// What a descriptor says, as a mathematical value.
pub struct DescriptionView {
    /// The request bytes, in the order of the lines.
    pub extensions: Seq<u8>,
    pub library: bool,
}

impl View for ArfDescriptionFile {
    type V = DescriptionView;

    closed spec fn view(&self) -> DescriptionView {
        DescriptionView { extensions: self.extensions@, library: self.library }
    }
}

impl ArfDescriptionFile {
    /// A descriptor that asks for the given extensions.
    pub fn new(extensions: Vec<u8>, library: bool) -> (d: ArfDescriptionFile)
        ensures
            d@ == (DescriptionView { extensions: extensions@, library }),
    {
        ArfDescriptionFile { extensions, library }
    }

    /// The request bytes, in the order of the lines.
    pub fn extensions(&self) -> (r: &Vec<u8>)
        ensures
            r@ == self@.extensions,
    {
        &self.extensions
    }

    /// Whether the descriptor has the heading `[library]`.
    pub fn library(&self) -> (r: bool)
        ensures
            r == self@.library,
    {
        self.library
    }
}

/// The request byte of the extension whose name has the bytes `name`.
pub open spec fn extension_code(name: Seq<u8>) -> Option<u8> {
    if name == encode_utf8("console"@) {
        Some(EXT_CONSOLE)
    } else if name == encode_utf8("framebuffer"@) {
        Some(EXT_FRAMEBUFFER)
    } else if name == encode_utf8("filesystem"@) {
        Some(EXT_FILESYSTEM)
    } else {
        None
    }
}

/// The name of the extension with the request byte `code`.
pub open spec fn extension_name(code: u8) -> Option<Seq<char>> {
    if code == EXT_CONSOLE {
        Some("console"@)
    } else if code == EXT_FRAMEBUFFER {
        Some("framebuffer"@)
    } else if code == EXT_FILESYSTEM {
        Some("filesystem"@)
    } else {
        None
    }
}

/// A white space character of one byte: tab, line feed, vertical tab, form
/// feed, carriage return or space.
pub open spec fn is_space1(b: u8) -> bool {
    (0x09 <= b && b <= 0x0D) || b == 0x20
}

/// A white space character of two bytes: U+0085 or U+00A0.
pub open spec fn is_space2(b0: u8, b1: u8) -> bool {
    b0 == 0xC2 && (b1 == 0x85 || b1 == 0xA0)
}

/// A white space character of three bytes: U+1680, U+2000 to U+200A,
/// U+2028, U+2029, U+202F, U+205F or U+3000.
pub open spec fn is_space3(b0: u8, b1: u8, b2: u8) -> bool {
    ||| (b0 == 0xE1 && b1 == 0x9A && b2 == 0x80)
    ||| (b0 == 0xE2 && b1 == 0x80 && ((0x80 <= b2 && b2 <= 0x8A) || b2 == 0xA8 || b2 == 0xA9 || b2
        == 0xAF))
    ||| (b0 == 0xE2 && b1 == 0x81 && b2 == 0x9F)
    ||| (b0 == 0xE3 && b1 == 0x80 && b2 == 0x80)
}

/// The number of bytes of the white space character that `line` begins
/// with; 0 if it begins with none.
pub open spec fn leading_space(line: Seq<u8>) -> int {
    if line.len() >= 1 && is_space1(line[0]) {
        1
    } else if line.len() >= 2 && is_space2(line[0], line[1]) {
        2
    } else if line.len() >= 3 && is_space3(line[0], line[1], line[2]) {
        3
    } else {
        0
    }
}

/// The number of bytes of the white space character that `line` ends with;
/// 0 if it ends with none.
pub open spec fn trailing_space(line: Seq<u8>) -> int {
    let n = line.len() as int;
    if n >= 1 && is_space1(line[n - 1]) {
        1
    } else if n >= 2 && is_space2(line[n - 2], line[n - 1]) {
        2
    } else if n >= 3 && is_space3(line[n - 3], line[n - 2], line[n - 1]) {
        3
    } else {
        0
    }
}

/// `line` without the white space that it begins with.
pub open spec fn trim_start(line: Seq<u8>) -> Seq<u8>
    decreases line.len(),
{
    if leading_space(line) > 0 {
        trim_start(line.skip(leading_space(line)))
    } else {
        line
    }
}

/// `line` without the white space that it ends with.
pub open spec fn trim_end(line: Seq<u8>) -> Seq<u8>
    decreases line.len(),
{
    if trailing_space(line) > 0 {
        trim_end(line.take(line.len() - trailing_space(line)))
    } else {
        line
    }
}

/// `line` without the white space around it.
pub open spec fn trim(line: Seq<u8>) -> Seq<u8> {
    trim_end(trim_start(line))
}

/// What a descriptor says after one more line, which has been trimmed: an
/// empty line, a comment and the heading `[kernextensions]` change nothing;
/// the heading `[library]` makes it a library; the name of an extension adds
/// its request; anything else is an unknown extension.
pub open spec fn with_line(d: DescriptionView, line: Seq<u8>) -> Result<DescriptionView, ArfError> {
    if line.len() == 0 || line[0] == 0x3B || line == encode_utf8("[kernextensions]"@) {
        Ok(d)
    } else if line == encode_utf8("[library]"@) {
        Ok(DescriptionView { library: true, ..d })
    } else {
        match extension_code(line) {
            Some(code) => Ok(DescriptionView { extensions: d.extensions.push(code), ..d }),
            None => Err(ArfError::UnknownExtension),
        }
    }
}

/// What a descriptor says after the lines of `text`, which end at each line
/// feed and at the end of the text.
pub open spec fn with_lines(d: DescriptionView, text: Seq<u8>) -> Result<DescriptionView, ArfError>
    decreases text.len(),
{
    let k = index_of_byte(text, 0x0A);
    match with_line(d, trim(text.take(k))) {
        Err(e) => Err(e),
        Ok(next) => if 0 <= k < text.len() {
            with_lines(next, text.skip(k + 1))
        } else {
            Ok(next)
        },
    }
}

/// What the descriptor with the bytes `text` says.
pub open spec fn description_of(text: Seq<u8>) -> Result<DescriptionView, ArfError> {
    with_lines(DescriptionView { extensions: Seq::empty(), library: false }, text)
}

/// The request byte of the extension whose name has the bytes `name`.
pub fn lookup_extension(name: &[u8]) -> (r: Option<u8>)
    ensures
        r == extension_code(name@),
{
    if bytes_eq(name, "console".as_bytes()) {
        Some(EXT_CONSOLE)
    } else if bytes_eq(name, "framebuffer".as_bytes()) {
        Some(EXT_FRAMEBUFFER)
    } else if bytes_eq(name, "filesystem".as_bytes()) {
        Some(EXT_FILESYSTEM)
    } else {
        None
    }
}

/// The name of the extension with the request byte `code`.
pub fn name_of_extension(code: u8) -> (r: Option<&'static str>)
    ensures
        r is Some <==> extension_name(code) is Some,
        r matches Some(name) ==> extension_name(code) == Some(name@),
{
    if code == EXT_CONSOLE {
        Some("console")
    } else if code == EXT_FRAMEBUFFER {
        Some("framebuffer")
    } else if code == EXT_FILESYSTEM {
        Some("filesystem")
    } else {
        None
    }
}

/// Whether `b` is a white space character of one byte.
fn space1(b: u8) -> (r: bool)
    ensures
        r == is_space1(b),
{
    (0x09 <= b && b <= 0x0D) || b == 0x20
}

/// Whether the two bytes are a white space character.
fn space2(b0: u8, b1: u8) -> (r: bool)
    ensures
        r == is_space2(b0, b1),
{
    b0 == 0xC2 && (b1 == 0x85 || b1 == 0xA0)
}

/// Whether the three bytes are a white space character.
fn space3(b0: u8, b1: u8, b2: u8) -> (r: bool)
    ensures
        r == is_space3(b0, b1, b2),
{
    (b0 == 0xE1 && b1 == 0x9A && b2 == 0x80) || (b0 == 0xE2 && b1 == 0x80 && ((0x80 <= b2 && b2
        <= 0x8A) || b2 == 0xA8 || b2 == 0xA9 || b2 == 0xAF)) || (b0 == 0xE2 && b1 == 0x81 && b2
        == 0x9F) || (b0 == 0xE3 && b1 == 0x80 && b2 == 0x80)
}

/// The length of the white space character at the start of the bytes of
/// `text` from `from` up to `to`.
fn space_at_start(text: &[u8], from: usize, to: usize) -> (n: usize)
    requires
        from <= to <= text.len(),
    ensures
        n == leading_space(text@.subrange(from as int, to as int)),
        n <= to - from,
{
    let ghost line = text@.subrange(from as int, to as int);
    let len = to - from;
    if len >= 1 && space1(text[from]) {
        assert(line[0] == text@[from as int]);
        1
    } else if len >= 2 && space2(text[from], text[from + 1]) {
        assert(line[0] == text@[from as int] && line[1] == text@[from + 1]);
        2
    } else if len >= 3 && space3(text[from], text[from + 1], text[from + 2]) {
        assert(line[0] == text@[from as int] && line[1] == text@[from + 1] && line[2] == text@[from
            + 2]);
        3
    } else {
        proof {
            if len >= 1 {
                assert(line[0] == text@[from as int]);
            }
            if len >= 2 {
                assert(line[1] == text@[from + 1]);
            }
            if len >= 3 {
                assert(line[2] == text@[from + 2]);
            }
        }
        0
    }
}

/// The length of the white space character at the end of the bytes of
/// `text` from `from` up to `to`.
fn space_at_end(text: &[u8], from: usize, to: usize) -> (n: usize)
    requires
        from <= to <= text.len(),
    ensures
        n == trailing_space(text@.subrange(from as int, to as int)),
        n <= to - from,
{
    let ghost line = text@.subrange(from as int, to as int);
    let len = to - from;
    proof {
        if len >= 1 {
            assert(line[len - 1] == text@[to - 1]);
        }
        if len >= 2 {
            assert(line[len - 2] == text@[to - 2]);
        }
        if len >= 3 {
            assert(line[len - 3] == text@[to - 3]);
        }
    }
    if len >= 1 && space1(text[to - 1]) {
        1
    } else if len >= 2 && space2(text[to - 2], text[to - 1]) {
        2
    } else if len >= 3 && space3(text[to - 3], text[to - 2], text[to - 1]) {
        3
    } else {
        0
    }
}

/// The bounds of the bytes of `text` from `from` up to `to` without the
/// white space around them.
pub fn trim_bounds(text: &[u8], from: usize, to: usize) -> (r: (usize, usize))
    requires
        from <= to <= text.len(),
    ensures
        from <= r.0 <= r.1 <= to,
        text@.subrange(r.0 as int, r.1 as int) == trim(text@.subrange(from as int, to as int)),
{
    let mut a: usize = from;
    let mut n = space_at_start(text, a, to);
    while n > 0
        invariant
            from <= a <= to <= text.len(),
            n == leading_space(text@.subrange(a as int, to as int)),
            n <= to - a,
            trim_start(text@.subrange(from as int, to as int)) == trim_start(
                text@.subrange(a as int, to as int),
            ),
        decreases to - a,
    {
        assert(text@.subrange(a as int, to as int).skip(n as int) =~= text@.subrange(
            a + n,
            to as int,
        ));
        a = a + n;
        n = space_at_start(text, a, to);
    }
    let mut b: usize = to;
    let mut m = space_at_end(text, a, b);
    while m > 0
        invariant
            a <= b <= to <= text.len(),
            m == trailing_space(text@.subrange(a as int, b as int)),
            m <= b - a,
            trim_end(text@.subrange(a as int, to as int)) == trim_end(
                text@.subrange(a as int, b as int),
            ),
        decreases b - a,
    {
        assert(text@.subrange(a as int, b as int).take(b - a - m) =~= text@.subrange(
            a as int,
            b - m,
        ));
        b = b - m;
        m = space_at_end(text, a, b);
    }
    (a, b)
}

/// Reads a descriptor from its text.
pub fn parse_ad_file(text: &str) -> (r: Result<ArfDescriptionFile, ArfError>)
    ensures
        match r {
            Ok(d) => description_of(encode_utf8(text@)) == Ok::<_, ArfError>(d@),
            Err(e) => e == ArfError::UnknownExtension && description_of(encode_utf8(text@)) == Err::<
                DescriptionView,
                _,
            >(e),
        },
{
    let bytes = text.as_bytes();
    let mut extensions: Vec<u8> = Vec::new();
    let mut library = false;
    let mut start: usize = 0;
    let mut done = false;
    assert(bytes@.skip(0) =~= bytes@);
    while !done
        invariant
            start <= bytes.len(),
            bytes@ == encode_utf8(text@),
            !done ==> description_of(bytes@) == with_lines(
                DescriptionView { extensions: extensions@, library },
                bytes@.skip(start as int),
            ),
            done ==> description_of(bytes@) == Ok::<_, ArfError>(
                DescriptionView { extensions: extensions@, library },
            ),
        decreases
                bytes.len() - start,
                (if done {
                    0int
                } else {
                    1int
                }),
    {
        let ghost rest = bytes@.skip(start as int);
        assert(bytes@.subrange(start as int, bytes@.len() as int) =~= rest);
        let end = find_byte(bytes, start, bytes.len(), 0x0A);
        proof {
            assert(rest.take(end - start) =~= bytes@.subrange(start as int, end as int));
            if end < bytes.len() {
                assert(rest.skip(end - start + 1) =~= bytes@.skip(end + 1));
            }
        }
        let (a, b) = trim_bounds(bytes, start, end);
        let line = copy_range(bytes, a, b);
        if line.len() == 0 || line[0] == 0x3B || bytes_eq(
            line.as_slice(),
            "[kernextensions]".as_bytes(),
        ) {
        } else if bytes_eq(line.as_slice(), "[library]".as_bytes()) {
            library = true;
        } else {
            match lookup_extension(line.as_slice()) {
                Some(code) => {
                    extensions.push(code);
                },
                None => {
                    return Err(ArfError::UnknownExtension);
                },
            }
        }
        if end >= bytes.len() {
            done = true;
        } else {
            start = end + 1;
        }
    }
    Ok(ArfDescriptionFile { extensions, library })
}

/// A request that a descriptor line adds is one of the three known.
pub proof fn lemma_with_line_requests(d: DescriptionView, line: Seq<u8>)
    requires
        forall|i: int| 0 <= i < d.extensions.len() ==> #[trigger] d.extensions[i] <= EXT_FILESYSTEM,
    ensures
        with_line(d, line) matches Ok(next) ==> forall|i: int|
            0 <= i < next.extensions.len() ==> #[trigger] next.extensions[i] <= EXT_FILESYSTEM,
{
}

/// The requests of a descriptor are among the three known.
pub proof fn lemma_with_lines_requests(d: DescriptionView, text: Seq<u8>)
    requires
        forall|i: int| 0 <= i < d.extensions.len() ==> #[trigger] d.extensions[i] <= EXT_FILESYSTEM,
    ensures
        with_lines(d, text) matches Ok(last) ==> forall|i: int|
            0 <= i < last.extensions.len() ==> #[trigger] last.extensions[i] <= EXT_FILESYSTEM,
    decreases text.len(),
{
    let k = index_of_byte(text, 0x0A);
    lemma_with_line_requests(d, trim(text.take(k)));
    if let Ok(next) = with_line(d, trim(text.take(k))) {
        if 0 <= k < text.len() {
            lemma_with_lines_requests(next, text.skip(k + 1));
        }
    }
}

/// Taking the white space off the front of valid UTF-8 leaves valid UTF-8.
pub proof fn lemma_trim_start_keeps_utf8(line: Seq<u8>)
    requires
        valid_utf8(line),
    ensures
        valid_utf8(trim_start(line)),
    decreases line.len(),
{
    let n = leading_space(line);
    if n > 0 {
        assert(length_of_first_scalar(line) == n);
        assert(pop_first_scalar(line) =~= line.skip(n));
        lemma_trim_start_keeps_utf8(line.skip(n));
    }
}

/// Taking the white space off the end of valid UTF-8 leaves valid UTF-8.
pub proof fn lemma_trim_end_keeps_utf8(line: Seq<u8>)
    requires
        valid_utf8(line),
    ensures
        valid_utf8(trim_end(line)),
    decreases line.len(),
{
    let m = trailing_space(line);
    if m > 0 {
        let at = line.len() - m;
        assert(!is_continuation_byte(line[at]));
        is_char_boundary_iff_not_is_continuation_byte(line, at);
        valid_utf8_split(line, at);
        assert(line.subrange(0, at) =~= line.take(at));
        lemma_trim_end_keeps_utf8(line.take(at));
    }
}

/// Trimming valid UTF-8 leaves valid UTF-8.
pub proof fn lemma_trim_keeps_utf8(line: Seq<u8>)
    requires
        valid_utf8(line),
    ensures
        valid_utf8(trim(line)),
{
    lemma_trim_start_keeps_utf8(line);
    lemma_trim_end_keeps_utf8(trim_start(line));
}

/// `text` without the white space around it, as characters.
pub open spec fn trimmed(text: Seq<char>) -> Seq<char> {
    decode_utf8(trim(encode_utf8(text)))
}

/// `text` without the white space around it.
pub fn trim_text(text: &str) -> (r: String)
    ensures
        r@ == trimmed(text@),
        encode_utf8(r@) == trim(encode_utf8(text@)),
{
    let bytes = text.as_bytes();
    let (a, b) = trim_bounds(bytes, 0, bytes.len());
    assert(bytes@.subrange(0, bytes@.len() as int) =~= bytes@);
    let kept = copy_range(bytes, a, b);
    proof {
        encode_utf8_valid_utf8(text@);
        lemma_trim_keeps_utf8(bytes@);
        decode_utf8_encode_utf8(kept@);
    }
    match crate::text::string_from_utf8(kept) {
        Some(r) => r,
        None => {
            assert(false);
            String::new()
        },
    }
}

/// A line that neither begins nor ends with white space is its own
/// trimmed form.
pub proof fn lemma_trim_bare(line: Seq<u8>)
    requires
        leading_space(line) == 0,
        trailing_space(line) == 0,
    ensures
        trim(line) == line,
{
}

/// The first line of a text ends at the first line feed, or at the end of
/// the text if it holds none; the descriptor goes on with what follows the
/// line feed.
pub proof fn lemma_with_lines_first(d: DescriptionView, text: Seq<u8>, k: int)
    requires
        0 <= k <= text.len(),
        forall|i: int| 0 <= i < k ==> #[trigger] text[i] != 0x0A,
        k < text.len() ==> text[k] == 0x0A,
    ensures
        with_lines(d, text) == (match with_line(d, trim(text.take(k))) {
            Err(e) => Err(e),
            Ok(next) => if k < text.len() {
                with_lines(next, text.skip(k + 1))
            } else {
                Ok(next)
            },
        }),
{
    lemma_index_of_byte(text, 0x0A, k);
}

} // verus!
