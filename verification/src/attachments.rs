//! Files that the user attaches to a message.
//!
//! An image is carried as a data URL, a text file by its text, and any other file by
//! its name alone. Reading the files is the caller's work.
use vstd::arithmetic::div_mod::*;
use vstd::prelude::*;
use vstd::string::*;
use vstd::utf8::*;

use crate::ids;
use crate::text;

verus! {

/// The size of the largest text file that is carried by its text.
pub const MAX_TEXT_BYTES: u64 = 1_000_000;

/// A file that is attached to a message.
#[derive(Clone, Debug)]
pub struct Attachment {
    pub id: String,
    pub name: String,
    pub mime: String,
    pub size: u64,
    /// `image` or `file`.
    pub kind: String,
    /// The image as a data URL.
    pub data_url: Option<String>,
    /// The text of the file.
    pub text: Option<String>,
}

/// What an attachment holds.
#[verifier::ext_equal]
pub struct AttachmentView {
    pub id: Seq<char>,
    pub name: Seq<char>,
    pub mime: Seq<char>,
    pub size: u64,
    pub kind: Seq<char>,
    pub data_url: Option<Seq<char>>,
    pub text: Option<Seq<char>>,
}

impl View for Attachment {
    type V = AttachmentView;

    open spec fn view(&self) -> AttachmentView {
        AttachmentView {
            id: self.id@,
            name: self.name@,
            mime: self.mime@,
            size: self.size,
            kind: self.kind@,
            data_url: text::opt_text(self.data_url),
            text: text::opt_text(self.text),
        }
    }
}

impl Default for Attachment {
    /// An attachment of which nothing is said.
    fn default() -> (r: Self)
        ensures
            r@ == (AttachmentView {
                id: Seq::empty(),
                name: Seq::empty(),
                mime: Seq::empty(),
                size: 0,
                kind: Seq::empty(),
                data_url: None,
                text: None,
            }),
    {
        Attachment {
            id: String::new(),
            name: String::new(),
            mime: String::new(),
            size: 0,
            kind: String::new(),
            data_url: None,
            text: None,
        }
    }
}

/// What the attachments hold.
pub open spec fn views(v: Seq<Attachment>) -> Seq<AttachmentView> {
    Seq::new(v.len(), |i: int| v[i]@)
}

// ---------------------------------------------------------------------------
// Kinds of files
// ---------------------------------------------------------------------------

/// The media type of a file with an extension.
pub open spec fn mime_of(ext: Seq<char>) -> Seq<char> {
    if ext == "png"@ {
        "image/png"@
    } else if ext == "jpg"@ || ext == "jpeg"@ {
        "image/jpeg"@
    } else if ext == "gif"@ {
        "image/gif"@
    } else if ext == "webp"@ {
        "image/webp"@
    } else if ext == "bmp"@ {
        "image/bmp"@
    } else if ext == "svg"@ {
        "image/svg+xml"@
    } else if ext == "ico"@ {
        "image/x-icon"@
    } else if ext == "pdf"@ {
        "application/pdf"@
    } else if ext == "json"@ {
        "application/json"@
    } else if ext == "csv"@ {
        "text/csv"@
    } else if ext == "md"@ || ext == "markdown"@ {
        "text/markdown"@
    } else if ext == "txt"@ || ext == "log"@ || ext == "ini"@ || ext == "conf"@ || ext == "toml"@
        || ext == "yaml"@ || ext == "yml"@ {
        "text/plain"@
    } else if ext == "xml"@ {
        "application/xml"@
    } else if ext == "html"@ || ext == "htm"@ {
        "text/html"@
    } else if ext == "css"@ {
        "text/css"@
    } else if ext == "js"@ || ext == "mjs"@ || ext == "cjs"@ {
        "text/javascript"@
    } else if ext == "ts"@ || ext == "tsx"@ {
        "text/typescript"@
    } else if ext == "rs"@ {
        "text/x-rust"@
    } else if ext == "py"@ {
        "text/x-python"@
    } else if ext == "go"@ {
        "text/x-go"@
    } else if ext == "java"@ {
        "text/x-java"@
    } else if ext == "sh"@ || ext == "bash"@ || ext == "zsh"@ {
        "text/x-sh"@
    } else {
        "application/octet-stream"@
    }
}

/// The media type of a file with an extension.
pub fn mime_for(ext: &str) -> (r: String)
    ensures
        r@ == mime_of(ext@),
{
    let mime = if text::same(ext, "png") {
        "image/png"
    } else if text::same(ext, "jpg") || text::same(ext, "jpeg") {
        "image/jpeg"
    } else if text::same(ext, "gif") {
        "image/gif"
    } else if text::same(ext, "webp") {
        "image/webp"
    } else if text::same(ext, "bmp") {
        "image/bmp"
    } else if text::same(ext, "svg") {
        "image/svg+xml"
    } else if text::same(ext, "ico") {
        "image/x-icon"
    } else if text::same(ext, "pdf") {
        "application/pdf"
    } else if text::same(ext, "json") {
        "application/json"
    } else if text::same(ext, "csv") {
        "text/csv"
    } else if text::same(ext, "md") || text::same(ext, "markdown") {
        "text/markdown"
    } else if text::same(ext, "txt") || text::same(ext, "log") || text::same(ext, "ini")
        || text::same(ext, "conf") || text::same(ext, "toml") || text::same(ext, "yaml")
        || text::same(ext, "yml") {
        "text/plain"
    } else if text::same(ext, "xml") {
        "application/xml"
    } else if text::same(ext, "html") || text::same(ext, "htm") {
        "text/html"
    } else if text::same(ext, "css") {
        "text/css"
    } else if text::same(ext, "js") || text::same(ext, "mjs") || text::same(ext, "cjs") {
        "text/javascript"
    } else if text::same(ext, "ts") || text::same(ext, "tsx") {
        "text/typescript"
    } else if text::same(ext, "rs") {
        "text/x-rust"
    } else if text::same(ext, "py") {
        "text/x-python"
    } else if text::same(ext, "go") {
        "text/x-go"
    } else if text::same(ext, "java") {
        "text/x-java"
    } else if text::same(ext, "sh") || text::same(ext, "bash") || text::same(ext, "zsh") {
        "text/x-sh"
    } else {
        "application/octet-stream"
    };
    mime.to_owned()
}

/// Whether a file with an extension holds text.
pub open spec fn holds_text(ext: Seq<char>) -> bool {
    ||| ext == "txt"@ || ext == "log"@ || ext == "ini"@ || ext == "conf"@ || ext == "toml"@
    ||| ext == "yaml"@ || ext == "yml"@ || ext == "json"@ || ext == "csv"@ || ext == "md"@
    ||| ext == "markdown"@ || ext == "xml"@ || ext == "html"@ || ext == "htm"@ || ext == "css"@
    ||| ext == "js"@ || ext == "mjs"@ || ext == "cjs"@ || ext == "ts"@ || ext == "tsx"@
    ||| ext == "jsx"@ || ext == "rs"@ || ext == "py"@ || ext == "go"@ || ext == "java"@
    ||| ext == "c"@ || ext == "cc"@ || ext == "cpp"@ || ext == "h"@ || ext == "hpp"@
    ||| ext == "sh"@ || ext == "bash"@ || ext == "zsh"@ || ext == "sql"@ || ext == "env"@
    ||| ext == "gitignore"@
}

/// Whether a file with an extension holds text.
pub fn is_text_like(ext: &str) -> (r: bool)
    ensures
        r == holds_text(ext@),
{
    text::same(ext, "txt") || text::same(ext, "log") || text::same(ext, "ini") || text::same(
        ext,
        "conf",
    ) || text::same(ext, "toml") || text::same(ext, "yaml") || text::same(ext, "yml") || text::same(
        ext,
        "json",
    ) || text::same(ext, "csv") || text::same(ext, "md") || text::same(ext, "markdown")
        || text::same(ext, "xml") || text::same(ext, "html") || text::same(ext, "htm")
        || text::same(ext, "css") || text::same(ext, "js") || text::same(ext, "mjs") || text::same(
        ext,
        "cjs",
    ) || text::same(ext, "ts") || text::same(ext, "tsx") || text::same(ext, "jsx") || text::same(
        ext,
        "rs",
    ) || text::same(ext, "py") || text::same(ext, "go") || text::same(ext, "java") || text::same(
        ext,
        "c",
    ) || text::same(ext, "cc") || text::same(ext, "cpp") || text::same(ext, "h") || text::same(
        ext,
        "hpp",
    ) || text::same(ext, "sh") || text::same(ext, "bash") || text::same(ext, "zsh") || text::same(
        ext,
        "sql",
    ) || text::same(ext, "env") || text::same(ext, "gitignore")
}

// ---------------------------------------------------------------------------
// Base64
// ---------------------------------------------------------------------------

/// The character that stands for six bits.
pub open spec fn sextet_char(n: int) -> char {
    if n < 26 {
        (65 + n) as char
    } else if n < 52 {
        (71 + n) as char
    } else if n < 62 {
        (n - 4) as char
    } else if n == 62 {
        '+'
    } else {
        '/'
    }
}

/// The byte at `i`, or 0 behind the last.
pub open spec fn byte_or_zero(b: Seq<u8>, i: int) -> int {
    if i < b.len() {
        b[i] as int
    } else {
        0
    }
}

/// Four characters for the first three bytes of `b`, of which there may be fewer.
pub open spec fn quad(b: Seq<u8>) -> Seq<char> {
    let n = byte_or_zero(b, 0) * 65536 + byte_or_zero(b, 1) * 256 + byte_or_zero(b, 2);
    seq![
        sextet_char(n / 262144),
        sextet_char(n / 4096 % 64),
        if b.len() > 1 {
            sextet_char(n / 64 % 64)
        } else {
            '='
        },
        if b.len() > 2 {
            sextet_char(n % 64)
        } else {
            '='
        },
    ]
}

/// Bytes in base64.
pub open spec fn base64(b: Seq<u8>) -> Seq<char>
    decreases b.len(),
{
    if b.len() == 0 {
        Seq::empty()
    } else if b.len() <= 3 {
        quad(b)
    } else {
        quad(b.take(3)) + base64(b.skip(3))
    }
}

/// The character that stands for six bits.
fn sextet(n: u32) -> (r: char)
    requires
        n < 64,
    ensures
        r == sextet_char(n as int),
{
    if n < 26 {
        (65 + n as u8) as char
    } else if n < 52 {
        (71 + n as u8) as char
    } else if n < 62 {
        (n as u8 - 4) as char
    } else if n == 62 {
        '+'
    } else {
        '/'
    }
}

/// Bytes in base64.
pub fn base64_encode(bytes: &Vec<u8>) -> (r: String)
    ensures
        r@ == base64(bytes@),
{
    let ghost b = bytes@;
    let mut out = String::new();
    let mut i: usize = 0;
    assert(b.skip(0) =~= b);
    assert(out@ + base64(b) =~= base64(b));
    while i < bytes.len()
        invariant
            i <= bytes@.len(),
            b == bytes@,
            base64(b) == out@ + base64(b.skip(i as int)),
        decreases bytes@.len() - i,
    {
        let ghost rest = b.skip(i as int);
        let ghost before = out@;
        let left: usize = bytes.len() - i;
        let b0: u32 = bytes[i] as u32;
        let b1: u32 = if left > 1 {
            bytes[i + 1] as u32
        } else {
            0
        };
        let b2: u32 = if left > 2 {
            bytes[i + 2] as u32
        } else {
            0
        };
        let n: u32 = b0 * 65536 + b1 * 256 + b2;
        let ghost group = if left > 3 {
            rest.take(3)
        } else {
            rest
        };
        assert(n == byte_or_zero(group, 0) * 65536 + byte_or_zero(group, 1) * 256 + byte_or_zero(
            group,
            2,
        ));
        out.push(sextet(n / 262144));
        out.push(sextet(n / 4096 % 64));
        if left > 1 {
            out.push(sextet(n / 64 % 64));
        } else {
            out.push('=');
        }
        if left > 2 {
            out.push(sextet(n % 64));
        } else {
            out.push('=');
        }
        assert(out@ =~= before + quad(group));
        if left > 3 {
            i += 3;
            assert(rest.skip(3) =~= b.skip(i as int));
            assert(before + (quad(group) + base64(rest.skip(3))) =~= out@ + base64(
                b.skip(i as int),
            ));
        } else {
            i = bytes.len();
            assert(b.skip(i as int) =~= Seq::<u8>::empty());
            assert(base64(b.skip(i as int)) =~= Seq::<char>::empty());
            assert(before + quad(group) =~= out@ + base64(b.skip(i as int)));
        }
    }
    assert(b.skip(i as int) =~= Seq::<u8>::empty());
    assert(out@ =~= out@ + base64(b.skip(i as int)));
    out
}

/// The six bits for which a character stands.
pub open spec fn char_sextet(c: char) -> int {
    let u = c as int;
    if 65 <= u <= 90 {
        u - 65
    } else if 97 <= u <= 122 {
        u - 71
    } else if 48 <= u <= 57 {
        u + 4
    } else if c == '+' {
        62
    } else {
        63
    }
}

/// The bytes for which four characters stand.
pub open spec fn unquad(q: Seq<char>) -> Seq<u8> {
    let n = char_sextet(q[0]) * 262144 + char_sextet(q[1]) * 4096 + (if q[2] == '=' {
        0
    } else {
        char_sextet(q[2]) * 64
    }) + (if q[3] == '=' {
        0
    } else {
        char_sextet(q[3])
    });
    let b0 = (n / 65536) as u8;
    let b1 = (n / 256 % 256) as u8;
    let b2 = (n % 256) as u8;
    if q[2] == '=' {
        seq![b0]
    } else if q[3] == '=' {
        seq![b0, b1]
    } else {
        seq![b0, b1, b2]
    }
}

/// The bytes for which a text in base64 stands.
pub open spec fn unbase64(s: Seq<char>) -> Seq<u8>
    decreases s.len(),
{
    if s.len() < 4 {
        Seq::empty()
    } else {
        unquad(s.take(4)) + unbase64(s.skip(4))
    }
}

/// A character stands for the bits for which it was written.
proof fn lemma_sextet(n: int)
    requires
        0 <= n < 64,
    ensures
        char_sextet(sextet_char(n)) == n,
        sextet_char(n) != '=',
{
}

/// A number of 24 bits is the sum of its sextets, and of its bytes.
proof fn lemma_bits(b0: int, b1: int, b2: int, n: int)
    requires
        0 <= b0 < 256,
        0 <= b1 < 256,
        0 <= b2 < 256,
        n == b0 * 65536 + b1 * 256 + b2,
    ensures
        0 <= n / 262144 < 64,
        n == (n / 262144) * 262144 + (n / 4096 % 64) * 4096 + (n / 64 % 64) * 64 + n % 64,
        n / 65536 == b0,
        n / 256 % 256 == b1,
        n % 256 == b2,
        b2 == 0 ==> n % 64 == 0,
        b2 == 0 && b1 == 0 ==> n / 64 % 64 == 0,
{
    lemma_div_denominator(n, 64, 64);
    lemma_div_denominator(n, 4096, 64);
    let a = n / 64;
    let c = a / 64;
    let d = c / 64;
    assert(c == n / 4096);
    assert(d == n / 262144);
    assert(n == 64 * a + n % 64);
    assert(a == 64 * c + a % 64);
    assert(c == 64 * d + c % 64);
    assert(n < 16777216);
    lemma_bytes(b0, b1, b2, n);
    if b2 == 0 {
        assert(n == 64 * (b0 * 1024 + b1 * 4));
        if b1 == 0 {
            assert(a == b0 * 1024);
        }
    }
}

/// A number of 24 bits is made of its bytes.
proof fn lemma_bytes(b0: int, b1: int, b2: int, n: int)
    requires
        0 <= b0 < 256,
        0 <= b1 < 256,
        0 <= b2 < 256,
        n == b0 * 65536 + b1 * 256 + b2,
    ensures
        n / 65536 == b0,
        n / 256 % 256 == b1,
        n % 256 == b2,
{
    assert(n / 256 == b0 * 256 + b1);
}

/// Three bytes are read from the four characters that were written for them.
proof fn lemma_quad(b: Seq<u8>)
    requires
        1 <= b.len() <= 3,
    ensures
        quad(b).len() == 4,
        unquad(quad(b)) == b,
{
    let n = byte_or_zero(b, 0) * 65536 + byte_or_zero(b, 1) * 256 + byte_or_zero(b, 2);
    lemma_bits(byte_or_zero(b, 0), byte_or_zero(b, 1), byte_or_zero(b, 2), n);
    let q = quad(b);
    let s0 = n / 262144;
    let s1 = n / 4096 % 64;
    let s2 = n / 64 % 64;
    let s3 = n % 64;
    lemma_sextet(s0);
    lemma_sextet(s1);
    lemma_sextet(s2);
    lemma_sextet(s3);
    assert(char_sextet(q[0]) == s0 && char_sextet(q[1]) == s1);
    let m = char_sextet(q[0]) * 262144 + char_sextet(q[1]) * 4096 + (if q[2] == '=' {
        0
    } else {
        char_sextet(q[2]) * 64
    }) + (if q[3] == '=' {
        0
    } else {
        char_sextet(q[3])
    });
    assert(m == n);
    let r = unquad(q);
    assert(r.len() == b.len());
    assert(r =~= b);
}

/// What was written in base64 can be read again: no two files have one text.
pub proof fn law_base64_is_read_back(b: Seq<u8>)
    ensures
        unbase64(base64(b)) == b,
    decreases b.len(),
{
    let s = base64(b);
    if b.len() > 0 {
        if b.len() <= 3 {
            lemma_quad(b);
            assert(s.take(4) =~= s);
            assert(s.skip(4) =~= Seq::<char>::empty());
            assert(unbase64(s.skip(4)) =~= Seq::<u8>::empty());
            assert(unquad(s) + Seq::<u8>::empty() =~= b);
        } else {
            lemma_quad(b.take(3));
            law_base64_is_read_back(b.skip(3));
            assert(s.take(4) =~= quad(b.take(3)));
            assert(s.skip(4) =~= base64(b.skip(3)));
            assert(b.take(3) + b.skip(3) =~= b);
        }
    }
}

// ---------------------------------------------------------------------------
// Attachments
// ---------------------------------------------------------------------------

/// `String::from_utf8`: the text for which bytes stand, where they are UTF-8.
#[verifier::external_body]
fn utf8_text(bytes: Vec<u8>) -> (r: Option<String>)
    ensures
        match r {
            Some(s) => valid_utf8(bytes@) && s@ == decode_utf8(bytes@),
            None => !valid_utf8(bytes@),
        },
{
    String::from_utf8(bytes).ok()
}

/// How a file is carried.
#[derive(PartialEq, Eq, Structural, Clone, Copy, Debug)]
pub enum Reading {
    /// As an image: its bytes are read.
    Image,
    /// By its text: its bytes are read.
    Text,
    /// By its name alone.
    Name,
}

/// How a file is carried, whatever the case of the letters of its extension.
pub open spec fn reading_of(ext: Seq<char>, size: u64) -> Reading {
    let ext = text::lower(ext);
    if text::begins(mime_of(ext), "image/"@) {
        Reading::Image
    } else if holds_text(ext) && size <= MAX_TEXT_BYTES {
        Reading::Text
    } else {
        Reading::Name
    }
}

/// What the system says of a path.
pub struct FileFacts {
    pub is_file: bool,
    pub size: u64,
}

/// What is told of a path that cannot be read.
pub fn unreadable(path: &str, error: &str) -> (r: String)
    ensures
        r@ == path@ + ": "@ + error@,
{
    let mut message = path.to_owned();
    message.append(": ");
    message.append(error);
    message
}

/// How the file at a path is carried, or why it is not: `facts` is what the system says
/// of it, or why it says nothing.
pub fn plan_reading(path: &str, ext: &str, facts: Result<FileFacts, String>) -> (r: Result<
    Reading,
    String,
>)
    ensures
        match facts {
            Err(e) => r matches Err(m) && m@ == path@ + ": "@ + e@,
            Ok(f) => if f.is_file {
                r == Ok::<Reading, String>(reading_of(ext@, f.size))
            } else {
                r matches Err(m) && m@ == path@ + " is not a file"@
            },
        },
{
    match facts {
        Err(e) => Err(unreadable(path, e.as_str())),
        Ok(f) => {
            if !f.is_file {
                let mut message = path.to_owned();
                message.append(" is not a file");
                return Err(message);
            }
            let ext = text::to_lower(ext);
            if text::starts_with(mime_for(ext.as_str()).as_str(), "image/") {
                Ok(Reading::Image)
            } else if is_text_like(ext.as_str()) && f.size <= MAX_TEXT_BYTES {
                Ok(Reading::Text)
            } else {
                Ok(Reading::Name)
            }
        },
    }
}

/// The attachment of a file with the given bytes.
pub open spec fn attached(
    id: Seq<char>,
    name: Seq<char>,
    ext: Seq<char>,
    size: u64,
    bytes: Seq<u8>,
) -> AttachmentView {
    let mime = mime_of(text::lower(ext));
    let reading = reading_of(ext, size);
    AttachmentView {
        id,
        name,
        mime,
        size,
        kind: if reading == Reading::Image {
            "image"@
        } else {
            "file"@
        },
        data_url: if reading == Reading::Image {
            Some("data:"@ + mime + ";base64,"@ + base64(bytes))
        } else {
            None
        },
        text: if reading == Reading::Text && valid_utf8(bytes) {
            Some(decode_utf8(bytes))
        } else {
            None
        },
    }
}

/// The case of the letters of an extension makes no difference to how a file is carried.
pub proof fn law_case_makes_no_difference(
    id: Seq<char>,
    name: Seq<char>,
    ext: Seq<char>,
    size: u64,
    bytes: Seq<u8>,
)
    ensures
        reading_of(text::lower(ext), size) == reading_of(ext, size),
        attached(id, name, text::lower(ext), size, bytes) == attached(id, name, ext, size, bytes),
{
    assert(text::lower(text::lower(ext)) =~= text::lower(ext));
}

/// The attachment of a file with the given bytes. Where the file is carried by its name
/// alone, the bytes are not looked at.
pub fn attachment(id: String, name: &str, ext: &str, size: u64, bytes: Vec<u8>) -> (r: Attachment)
    ensures
        r@ == attached(id@, name@, ext@, size, bytes@),
{
    let ext = text::to_lower(ext);
    let mime = mime_for(ext.as_str());
    if text::starts_with(mime.as_str(), "image/") {
        let mut url = "data:".to_owned();
        url.append(mime.as_str());
        url.append(";base64,");
        url.append(base64_encode(&bytes).as_str());
        return Attachment {
            id,
            name: name.to_owned(),
            mime,
            size,
            kind: "image".to_owned(),
            data_url: Some(url),
            text: None,
        };
    }
    let content = if is_text_like(ext.as_str()) && size <= MAX_TEXT_BYTES {
        utf8_text(bytes)
    } else {
        None
    };
    Attachment {
        id,
        name: name.to_owned(),
        mime,
        size,
        kind: "file".to_owned(),
        data_url: None,
        text: content,
    }
}

/// The attachment of a file that was read just now.
pub fn read_attachment(name: &str, ext: &str, size: u64, bytes: Vec<u8>) -> (r: Attachment)
    ensures
        ids::is_uuid(r@.id),
        r@ == attached(r@.id, name@, ext@, size, bytes@),
{
    attachment(ids::fresh_id(), name, ext, size, bytes)
}

/// Whether a file with this extension, in small letters, is an image.
pub open spec fn is_image(ext: Seq<char>) -> bool {
    ||| ext == "png"@ || ext == "jpg"@ || ext == "jpeg"@ || ext == "gif"@ || ext == "webp"@
    ||| ext == "bmp"@ || ext == "svg"@ || ext == "ico"@
}

/// The extensions differ from each other.
proof fn lemma_extensions()
    ensures
        "png"@.len() == 3 && "png"@[0] == 'p' && "png"@[1] == 'n' && "png"@[2] == 'g',
        "jpg"@.len() == 3 && "jpg"@[0] == 'j' && "jpg"@[1] == 'p' && "jpg"@[2] == 'g',
        "jpeg"@.len() == 4 && "jpeg"@[0] == 'j' && "jpeg"@[1] == 'p' && "jpeg"@[2] == 'e' && "jpeg"@[3] == 'g',
        "gif"@.len() == 3 && "gif"@[0] == 'g' && "gif"@[1] == 'i' && "gif"@[2] == 'f',
        "webp"@.len() == 4 && "webp"@[0] == 'w' && "webp"@[1] == 'e' && "webp"@[2] == 'b' && "webp"@[3] == 'p',
        "bmp"@.len() == 3 && "bmp"@[0] == 'b' && "bmp"@[1] == 'm' && "bmp"@[2] == 'p',
        "svg"@.len() == 3 && "svg"@[0] == 's' && "svg"@[1] == 'v' && "svg"@[2] == 'g',
        "ico"@.len() == 3 && "ico"@[0] == 'i' && "ico"@[1] == 'c' && "ico"@[2] == 'o',
        "pdf"@.len() == 3 && "pdf"@[0] == 'p' && "pdf"@[1] == 'd' && "pdf"@[2] == 'f',
        "json"@.len() == 4 && "json"@[0] == 'j' && "json"@[1] == 's' && "json"@[2] == 'o' && "json"@[3] == 'n',
        "csv"@.len() == 3 && "csv"@[0] == 'c' && "csv"@[1] == 's' && "csv"@[2] == 'v',
        "md"@.len() == 2 && "md"@[0] == 'm' && "md"@[1] == 'd',
        "markdown"@.len() == 8 && "markdown"@[0] == 'm' && "markdown"@[1] == 'a' && "markdown"@[2] == 'r' && "markdown"@[3] == 'k',
        "txt"@.len() == 3 && "txt"@[0] == 't' && "txt"@[1] == 'x' && "txt"@[2] == 't',
        "log"@.len() == 3 && "log"@[0] == 'l' && "log"@[1] == 'o' && "log"@[2] == 'g',
        "ini"@.len() == 3 && "ini"@[0] == 'i' && "ini"@[1] == 'n' && "ini"@[2] == 'i',
        "conf"@.len() == 4 && "conf"@[0] == 'c' && "conf"@[1] == 'o' && "conf"@[2] == 'n' && "conf"@[3] == 'f',
        "toml"@.len() == 4 && "toml"@[0] == 't' && "toml"@[1] == 'o' && "toml"@[2] == 'm' && "toml"@[3] == 'l',
        "yaml"@.len() == 4 && "yaml"@[0] == 'y' && "yaml"@[1] == 'a' && "yaml"@[2] == 'm' && "yaml"@[3] == 'l',
        "yml"@.len() == 3 && "yml"@[0] == 'y' && "yml"@[1] == 'm' && "yml"@[2] == 'l',
        "xml"@.len() == 3 && "xml"@[0] == 'x' && "xml"@[1] == 'm' && "xml"@[2] == 'l',
        "html"@.len() == 4 && "html"@[0] == 'h' && "html"@[1] == 't' && "html"@[2] == 'm' && "html"@[3] == 'l',
        "htm"@.len() == 3 && "htm"@[0] == 'h' && "htm"@[1] == 't' && "htm"@[2] == 'm',
        "css"@.len() == 3 && "css"@[0] == 'c' && "css"@[1] == 's' && "css"@[2] == 's',
        "js"@.len() == 2 && "js"@[0] == 'j' && "js"@[1] == 's',
        "mjs"@.len() == 3 && "mjs"@[0] == 'm' && "mjs"@[1] == 'j' && "mjs"@[2] == 's',
        "cjs"@.len() == 3 && "cjs"@[0] == 'c' && "cjs"@[1] == 'j' && "cjs"@[2] == 's',
        "ts"@.len() == 2 && "ts"@[0] == 't' && "ts"@[1] == 's',
        "tsx"@.len() == 3 && "tsx"@[0] == 't' && "tsx"@[1] == 's' && "tsx"@[2] == 'x',
        "rs"@.len() == 2 && "rs"@[0] == 'r' && "rs"@[1] == 's',
        "py"@.len() == 2 && "py"@[0] == 'p' && "py"@[1] == 'y',
        "go"@.len() == 2 && "go"@[0] == 'g' && "go"@[1] == 'o',
        "java"@.len() == 4 && "java"@[0] == 'j' && "java"@[1] == 'a' && "java"@[2] == 'v' && "java"@[3] == 'a',
        "sh"@.len() == 2 && "sh"@[0] == 's' && "sh"@[1] == 'h',
        "bash"@.len() == 4 && "bash"@[0] == 'b' && "bash"@[1] == 'a' && "bash"@[2] == 's' && "bash"@[3] == 'h',
        "zsh"@.len() == 3 && "zsh"@[0] == 'z' && "zsh"@[1] == 's' && "zsh"@[2] == 'h',
        "jsx"@.len() == 3 && "jsx"@[0] == 'j' && "jsx"@[1] == 's' && "jsx"@[2] == 'x',
        "c"@.len() == 1 && "c"@[0] == 'c',
        "cc"@.len() == 2 && "cc"@[0] == 'c' && "cc"@[1] == 'c',
        "cpp"@.len() == 3 && "cpp"@[0] == 'c' && "cpp"@[1] == 'p' && "cpp"@[2] == 'p',
        "h"@.len() == 1 && "h"@[0] == 'h',
        "hpp"@.len() == 3 && "hpp"@[0] == 'h' && "hpp"@[1] == 'p' && "hpp"@[2] == 'p',
        "sql"@.len() == 3 && "sql"@[0] == 's' && "sql"@[1] == 'q' && "sql"@[2] == 'l',
        "env"@.len() == 3 && "env"@[0] == 'e' && "env"@[1] == 'n' && "env"@[2] == 'v',
        "gitignore"@.len() == 9 && "gitignore"@[0] == 'g' && "gitignore"@[1] == 'i' && "gitignore"@[2] == 't' && "gitignore"@[3] == 'i',
{
    reveal_strlit("png");
    reveal_strlit("jpg");
    reveal_strlit("jpeg");
    reveal_strlit("gif");
    reveal_strlit("webp");
    reveal_strlit("bmp");
    reveal_strlit("svg");
    reveal_strlit("ico");
    reveal_strlit("pdf");
    reveal_strlit("json");
    reveal_strlit("csv");
    reveal_strlit("md");
    reveal_strlit("markdown");
    reveal_strlit("txt");
    reveal_strlit("log");
    reveal_strlit("ini");
    reveal_strlit("conf");
    reveal_strlit("toml");
    reveal_strlit("yaml");
    reveal_strlit("yml");
    reveal_strlit("xml");
    reveal_strlit("html");
    reveal_strlit("htm");
    reveal_strlit("css");
    reveal_strlit("js");
    reveal_strlit("mjs");
    reveal_strlit("cjs");
    reveal_strlit("ts");
    reveal_strlit("tsx");
    reveal_strlit("rs");
    reveal_strlit("py");
    reveal_strlit("go");
    reveal_strlit("java");
    reveal_strlit("sh");
    reveal_strlit("bash");
    reveal_strlit("zsh");
    reveal_strlit("jsx");
    reveal_strlit("c");
    reveal_strlit("cc");
    reveal_strlit("cpp");
    reveal_strlit("h");
    reveal_strlit("hpp");
    reveal_strlit("sql");
    reveal_strlit("env");
    reveal_strlit("gitignore");
}

/// The media types of images begin as such, and no other does.
proof fn lemma_types(ext: Seq<char>)
    ensures
        text::begins(mime_of(ext), "image/"@) == is_image(ext),
{
    reveal_strlit("image/");
    reveal_strlit("image/png");
    reveal_strlit("image/jpeg");
    reveal_strlit("image/gif");
    reveal_strlit("image/webp");
    reveal_strlit("image/bmp");
    reveal_strlit("image/svg+xml");
    reveal_strlit("image/x-icon");
    reveal_strlit("application/pdf");
    reveal_strlit("application/json");
    reveal_strlit("text/csv");
    reveal_strlit("text/markdown");
    reveal_strlit("text/plain");
    reveal_strlit("application/xml");
    reveal_strlit("text/html");
    reveal_strlit("text/css");
    reveal_strlit("text/javascript");
    reveal_strlit("text/typescript");
    reveal_strlit("text/x-rust");
    reveal_strlit("text/x-python");
    reveal_strlit("text/x-go");
    reveal_strlit("text/x-java");
    reveal_strlit("text/x-sh");
    reveal_strlit("application/octet-stream");
    let head = "image/"@;
    lemma_extensions();
    assert("image/png"@.subrange(0, 6) =~= head);
    assert("image/jpeg"@.subrange(0, 6) =~= head);
    assert("image/gif"@.subrange(0, 6) =~= head);
    assert("image/webp"@.subrange(0, 6) =~= head);
    assert("image/bmp"@.subrange(0, 6) =~= head);
    assert("image/svg+xml"@.subrange(0, 6) =~= head);
    assert("image/x-icon"@.subrange(0, 6) =~= head);
    assert("application/pdf"@.subrange(0, 6)[0] != head[0]);
    assert("application/json"@.subrange(0, 6)[0] != head[0]);
    assert("text/csv"@.subrange(0, 6)[0] != head[0]);
    assert("text/markdown"@.subrange(0, 6)[0] != head[0]);
    assert("text/plain"@.subrange(0, 6)[0] != head[0]);
    assert("application/xml"@.subrange(0, 6)[0] != head[0]);
    assert("text/html"@.subrange(0, 6)[0] != head[0]);
    assert("text/css"@.subrange(0, 6)[0] != head[0]);
    assert("text/javascript"@.subrange(0, 6)[0] != head[0]);
    assert("text/typescript"@.subrange(0, 6)[0] != head[0]);
    assert("text/x-rust"@.subrange(0, 6)[0] != head[0]);
    assert("text/x-python"@.subrange(0, 6)[0] != head[0]);
    assert("text/x-go"@.subrange(0, 6)[0] != head[0]);
    assert("text/x-java"@.subrange(0, 6)[0] != head[0]);
    assert("text/x-sh"@.subrange(0, 6)[0] != head[0]);
    assert("application/octet-stream"@.subrange(0, 6)[0] != head[0]);
}

/// Most media types are named after the extension, and extensions of one format have one
/// type; a file of no known format has that of plain bytes.
pub proof fn law_types_go_by_the_extension(ext: Seq<char>)
    ensures
        ext == "png"@ || ext == "jpeg"@ || ext == "gif"@ || ext == "webp"@ || ext == "bmp"@
            ==> mime_of(ext) == "image/"@ + ext,
        ext == "csv"@ || ext == "html"@ || ext == "css"@ || ext == "markdown"@ ==> mime_of(ext)
            == "text/"@ + ext,
        ext == "pdf"@ || ext == "json"@ || ext == "xml"@ ==> mime_of(ext) == "application/"@ + ext,
        ext == "go"@ || ext == "java"@ || ext == "sh"@ ==> mime_of(ext) == "text/x-"@ + ext,
        ext == "jpg"@ ==> mime_of(ext) == mime_of("jpeg"@),
        ext == "md"@ ==> mime_of(ext) == mime_of("markdown"@),
        ext == "htm"@ ==> mime_of(ext) == mime_of("html"@),
        ext == "mjs"@ || ext == "cjs"@ ==> mime_of(ext) == mime_of("js"@),
        ext == "tsx"@ ==> mime_of(ext) == mime_of("ts"@),
        ext == "bash"@ || ext == "zsh"@ ==> mime_of(ext) == mime_of("sh"@),
        ext == "log"@ || ext == "ini"@ || ext == "conf"@ || ext == "toml"@ || ext == "yaml"@ || ext
            == "yml"@ ==> mime_of(ext) == mime_of("txt"@),
        !is_image(ext) && !holds_text(ext) && ext != "pdf"@ ==> mime_of(ext)
            == "application/octet-stream"@,
{
    lemma_extensions();
    reveal_strlit("image/");
    reveal_strlit("text/");
    reveal_strlit("text/x-");
    reveal_strlit("application/");
    reveal_strlit("image/png");
    reveal_strlit("png");
    assert("image/png"@ =~= "image/"@ + "png"@);
    reveal_strlit("image/jpeg");
    reveal_strlit("jpeg");
    assert("image/jpeg"@ =~= "image/"@ + "jpeg"@);
    reveal_strlit("image/gif");
    reveal_strlit("gif");
    assert("image/gif"@ =~= "image/"@ + "gif"@);
    reveal_strlit("image/webp");
    reveal_strlit("webp");
    assert("image/webp"@ =~= "image/"@ + "webp"@);
    reveal_strlit("image/bmp");
    reveal_strlit("bmp");
    assert("image/bmp"@ =~= "image/"@ + "bmp"@);
    reveal_strlit("text/csv");
    reveal_strlit("csv");
    assert("text/csv"@ =~= "text/"@ + "csv"@);
    reveal_strlit("text/html");
    reveal_strlit("html");
    assert("text/html"@ =~= "text/"@ + "html"@);
    reveal_strlit("text/css");
    reveal_strlit("css");
    assert("text/css"@ =~= "text/"@ + "css"@);
    reveal_strlit("text/markdown");
    reveal_strlit("markdown");
    assert("text/markdown"@ =~= "text/"@ + "markdown"@);
    reveal_strlit("application/pdf");
    reveal_strlit("pdf");
    assert("application/pdf"@ =~= "application/"@ + "pdf"@);
    reveal_strlit("application/json");
    reveal_strlit("json");
    assert("application/json"@ =~= "application/"@ + "json"@);
    reveal_strlit("application/xml");
    reveal_strlit("xml");
    assert("application/xml"@ =~= "application/"@ + "xml"@);
    reveal_strlit("text/x-go");
    reveal_strlit("go");
    assert("text/x-go"@ =~= "text/x-"@ + "go"@);
    reveal_strlit("text/x-java");
    reveal_strlit("java");
    assert("text/x-java"@ =~= "text/x-"@ + "java"@);
    reveal_strlit("text/x-sh");
    reveal_strlit("sh");
    assert("text/x-sh"@ =~= "text/x-"@ + "sh"@);
}

/// An image is carried by its bytes, whatever its size: its data URL tells its media type,
/// and from what follows the bytes are read again.
pub proof fn law_images_are_carried(
    id: Seq<char>,
    name: Seq<char>,
    ext: Seq<char>,
    size: u64,
    bytes: Seq<u8>,
)
    requires
        is_image(text::lower(ext)),
    ensures
        ({
            let a = attached(id, name, ext, size, bytes);
            let head = "data:"@ + mime_of(text::lower(ext)) + ";base64,"@;
            &&& reading_of(ext, size) == Reading::Image
            &&& a.kind == "image"@ && a.mime == mime_of(text::lower(ext)) && a.text is None
            &&& a.data_url matches Some(url) && text::begins(url, head) && unbase64(
                url.skip(head.len() as int),
            ) == bytes
        }),
{
    lemma_types(text::lower(ext));
    law_base64_is_read_back(bytes);
    let head = "data:"@ + mime_of(text::lower(ext)) + ";base64,"@;
    let url = head + base64(bytes);
    assert(url.subrange(0, head.len() as int) =~= head);
    assert(url.skip(head.len() as int) =~= base64(bytes));
}

/// A file of text is carried by its text, as it stands in it, where it is of a million
/// bytes at most and UTF-8; a larger one, and any other file, by its name alone.
pub proof fn law_text_files_are_carried(
    id: Seq<char>,
    name: Seq<char>,
    ext: Seq<char>,
    size: u64,
    bytes: Seq<u8>,
)
    requires
        !is_image(text::lower(ext)),
    ensures
        ({
            let a = attached(id, name, ext, size, bytes);
            let read = holds_text(text::lower(ext)) && size <= 1_000_000;
            &&& reading_of(ext, size) == (if read {
                Reading::Text
            } else {
                Reading::Name
            })
            &&& a.kind == "file"@ && a.data_url is None && a.mime == mime_of(text::lower(ext))
            &&& read && valid_utf8(bytes) ==> a.text == Some(decode_utf8(bytes))
            &&& read && !valid_utf8(bytes) ==> a.text is None
            &&& !read ==> a.text is None
        }),
{
    lemma_types(text::lower(ext));
}

/// What is carried of any file is its name and its size, under the id that it was given.
pub proof fn law_files_keep_their_names(
    id: Seq<char>,
    name: Seq<char>,
    ext: Seq<char>,
    size: u64,
    bytes: Seq<u8>,
)
    ensures
        ({
            let a = attached(id, name, ext, size, bytes);
            a.id == id && a.name == name && a.size == size
        }),
{
}

/// The extensions of files that hold text.
pub open spec fn text_extensions() -> Seq<Seq<char>> {
    seq![
        "txt"@,
        "log"@,
        "ini"@,
        "conf"@,
        "toml"@,
        "yaml"@,
        "yml"@,
        "json"@,
        "csv"@,
        "md"@,
        "markdown"@,
        "xml"@,
        "html"@,
        "htm"@,
        "css"@,
        "js"@,
        "mjs"@,
        "cjs"@,
        "ts"@,
        "tsx"@,
        "jsx"@,
        "rs"@,
        "py"@,
        "go"@,
        "java"@,
        "c"@,
        "cc"@,
        "cpp"@,
        "h"@,
        "hpp"@,
        "sh"@,
        "bash"@,
        "zsh"@,
        "sql"@,
        "env"@,
        "gitignore"@,
    ]
}

/// The files of notes, settings, data, pages and programs hold text, and no others are
/// known to.
pub proof fn law_text_files_are_known(ext: Seq<char>)
    ensures
        holds_text(ext) == text_extensions().contains(ext),
{
    let all = text_extensions();
    assert(all[0] == "txt"@);
    assert(all[1] == "log"@);
    assert(all[2] == "ini"@);
    assert(all[3] == "conf"@);
    assert(all[4] == "toml"@);
    assert(all[5] == "yaml"@);
    assert(all[6] == "yml"@);
    assert(all[7] == "json"@);
    assert(all[8] == "csv"@);
    assert(all[9] == "md"@);
    assert(all[10] == "markdown"@);
    assert(all[11] == "xml"@);
    assert(all[12] == "html"@);
    assert(all[13] == "htm"@);
    assert(all[14] == "css"@);
    assert(all[15] == "js"@);
    assert(all[16] == "mjs"@);
    assert(all[17] == "cjs"@);
    assert(all[18] == "ts"@);
    assert(all[19] == "tsx"@);
    assert(all[20] == "jsx"@);
    assert(all[21] == "rs"@);
    assert(all[22] == "py"@);
    assert(all[23] == "go"@);
    assert(all[24] == "java"@);
    assert(all[25] == "c"@);
    assert(all[26] == "cc"@);
    assert(all[27] == "cpp"@);
    assert(all[28] == "h"@);
    assert(all[29] == "hpp"@);
    assert(all[30] == "sh"@);
    assert(all[31] == "bash"@);
    assert(all[32] == "zsh"@);
    assert(all[33] == "sql"@);
    assert(all[34] == "env"@);
    assert(all[35] == "gitignore"@);
}

} // verus!
