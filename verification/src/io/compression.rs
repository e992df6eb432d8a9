use crate::io::fs::{extension, extension_of};
use crate::utils::text::text_eq;
use vstd::prelude::*;
use vstd::string::{StrSliceExecFns, StringSliceAdditionalSpecFns};

verus! {

/// The ways in which a file may be compressed.
#[derive(Clone, Copy, Debug, PartialEq, Eq, Structural)]
pub enum CompressionType {
    Bzip2,
    Xz,
    Zstandard,
    Gzip,
    /// Not compressed.
    Uncompressed,
}

/// The lowercase form of a text.
pub uninterp spec fn lowercase_of(text: Seq<char>) -> Seq<char>;

/// Calls `str::to_lowercase`, which maps each character to its lowercase
/// form as Unicode defines it; the result depends on the text alone.
#[verifier::external_body]
fn lowercase(text: &str) -> (lower: String)
    ensures
        lower@ == lowercase_of(text@),
{
    text.to_lowercase()
}

/// The compression that a file extension, in lowercase, stands for.
pub open spec fn compression_of(ext: Seq<char>) -> CompressionType {
    if ext == "bz2"@ {
        CompressionType::Bzip2
    } else if ext == "xz"@ {
        CompressionType::Xz
    } else if ext == "zst"@ {
        CompressionType::Zstandard
    } else if ext == "gz"@ {
        CompressionType::Gzip
    } else {
        CompressionType::Uncompressed
    }
}

/// The compression that the extension of a path tells.
pub open spec fn guessed_compression(filepath: Seq<char>) -> CompressionType {
    match extension_of(filepath) {
        Some(ext) => compression_of(lowercase_of(ext)),
        None => CompressionType::Uncompressed,
    }
}

/// The name of a compression.
pub open spec fn name_of(compression_type: CompressionType) -> Seq<char> {
    match compression_type {
        CompressionType::Bzip2 => "Bzip2"@,
        CompressionType::Xz => "Xz"@,
        CompressionType::Zstandard => "Zstandard"@,
        CompressionType::Gzip => "Gzip"@,
        CompressionType::Uncompressed => "None"@,
    }
}

/// The name of the variable of the environment that sets the level of a
/// compression: its extension in capitals, and `_COMPRESSION`.
pub open spec fn level_variable_of(compression_type: CompressionType) -> Seq<char> {
    match compression_type {
        CompressionType::Bzip2 => "BZ2_COMPRESSION"@,
        CompressionType::Xz => "XZ_COMPRESSION"@,
        CompressionType::Zstandard => "ZST_COMPRESSION"@,
        CompressionType::Gzip => "GZ_COMPRESSION"@,
        CompressionType::Uncompressed => Seq::empty(),
    }
}

impl CompressionType {
    /// The name of the compression, as it is shown.
    pub fn name(&self) -> (name: &'static str)
        ensures
            name@ == name_of(*self),
    {
        match self {
            CompressionType::Bzip2 => "Bzip2",
            CompressionType::Xz => "Xz",
            CompressionType::Zstandard => "Zstandard",
            CompressionType::Gzip => "Gzip",
            CompressionType::Uncompressed => "None",
        }
    }

    /// The variable of the environment that sets the level of the
    /// compression, where it has levels.
    pub fn level_variable(&self) -> (variable: Option<&'static str>)
        ensures
            match variable {
                Some(variable) => *self != CompressionType::Uncompressed && variable@
                    == level_variable_of(*self),
                None => *self == CompressionType::Uncompressed,
            },
    {
        match self {
            CompressionType::Bzip2 => Some("BZ2_COMPRESSION"),
            CompressionType::Xz => Some("XZ_COMPRESSION"),
            CompressionType::Zstandard => Some("ZST_COMPRESSION"),
            CompressionType::Gzip => Some("GZ_COMPRESSION"),
            CompressionType::Uncompressed => None,
        }
    }

    /// The compression that a file extension stands for: `bz2`, `xz`, `zst`
    /// and `gz`, in lowercase, each stand for one; any other for none.
    pub fn from_extension(ext: &str) -> (compression_type: CompressionType)
        ensures
            compression_type == compression_of(ext@),
    {
        if text_eq(ext, "bz2") {
            CompressionType::Bzip2
        } else if text_eq(ext, "xz") {
            CompressionType::Xz
        } else if text_eq(ext, "zst") {
            CompressionType::Zstandard
        } else if text_eq(ext, "gz") {
            CompressionType::Gzip
        } else {
            CompressionType::Uncompressed
        }
    }
}

/// The compression of a file, told by the extension of its path, and that
/// extension in lowercase. The case of the extension does not count. A path
/// without an extension is not compressed.
pub fn guess_compression_from_filepath(filepath: &str) -> (guess: (CompressionType, String))
    ensures
        match extension_of(filepath@) {
            Some(ext) => guess.0 == compression_of(lowercase_of(ext)) && guess.1@ == lowercase_of(
                ext,
            ),
            None => guess.0 == CompressionType::Uncompressed && guess.1@ == Seq::<char>::empty(),
        },
{
    match extension(filepath) {
        None => (CompressionType::Uncompressed, String::new()),
        Some(ext) => {
            let ext = lowercase(ext.as_str());
            let compression_type = CompressionType::from_extension(ext.as_str());
            (compression_type, ext)
        },
    }
}

/// What is told of a read or a write that failed.
#[derive(Debug)]
pub struct FailureNote {
    /// What was being done.
    pub message: String,
    /// The path of the file, or `None` where none is known.
    pub filename: String,
    /// The name of the compression.
    pub algorithm: String,
}

/// The path as a failure note shows it.
pub open spec fn shown_path(filepath: Option<String>) -> Seq<char> {
    match filepath {
        Some(path) => path@,
        None => "None"@,
    }
}

fn note(message: &str, filepath: &Option<String>, compression_type: CompressionType) -> (note:
    FailureNote)
    ensures
        note.message@ == message@,
        note.filename@ == shown_path(*filepath),
        note.algorithm@ == name_of(compression_type),
{
    let filename = match filepath {
        Some(path) => path.clone(),
        None => "None".to_owned(),
    };
    FailureNote {
        message: message.to_owned(),
        filename,
        algorithm: compression_type.name().to_owned(),
    }
}

/// A source of compressed bytes, with the compression in which it is to be
/// read. The bytes themselves are read and decompressed by whoever takes
/// the parts.
pub struct Decompressor<R> {
    reader: R,
    compression_type: CompressionType,
    filepath: Option<String>,
}

impl<R> Decompressor<R> {
    /// The source that this decompressor reads.
    pub closed spec fn reader(&self) -> R {
        self.reader
    }

    /// The compression in which the source is read.
    pub closed spec fn compression(&self) -> CompressionType {
        self.compression_type
    }

    /// The path that is told when reading fails.
    pub closed spec fn path(&self) -> Option<String> {
        self.filepath
    }

    /// A decompressor of `reader` for the given compression. It knows no
    /// path.
    pub fn new(reader: R, compression_type: &CompressionType) -> (made: Self)
        ensures
            made.reader() == reader,
            made.compression() == *compression_type,
            made.path() is None,
    {
        Decompressor { reader, compression_type: *compression_type, filepath: None }
    }

    /// A decompressor of `reader` for the compression that the extension of
    /// `filepath` tells.
    pub fn from_path(reader: R, filepath: &str) -> (made: Self)
        ensures
            made.reader() == reader,
            made.compression() == guessed_compression(filepath@),
            made.path() is None,
    {
        let (compression_type, _) = guess_compression_from_filepath(filepath);
        Decompressor::new(reader, &compression_type)
    }

    /// The compression in which the source is read.
    pub fn compression_type(&self) -> (compression_type: CompressionType)
        ensures
            compression_type == self.compression(),
    {
        self.compression_type
    }

    /// What is told when a read fails.
    pub fn failure_note(&self) -> (note: FailureNote)
        ensures
            note.message@ == "While decompressing file"@,
            note.filename@ == shown_path(self.path()),
            note.algorithm@ == name_of(self.compression()),
    {
        note("While decompressing file", &self.filepath, self.compression_type)
    }

    /// The source and the compression in which to read it.
    pub fn into_parts(self) -> (parts: (R, CompressionType))
        ensures
            parts.0 == self.reader(),
            parts.1 == self.compression(),
    {
        (self.reader, self.compression_type)
    }
}

impl<'r> Decompressor<&'r [u8]> {
    /// A decompressor of the bytes of `content` for the compression that
    /// the extension of `filepath` tells.
    pub fn from_str_and_path(content: &'r str, filepath: &str) -> (made: Self)
        ensures
            made.reader()@ == content.spec_bytes(),
            made.compression() == guessed_compression(filepath@),
            made.path() is None,
    {
        let reader = content.as_bytes();
        let (compression_type, _) = guess_compression_from_filepath(filepath);
        Decompressor::new(reader, &compression_type)
    }
}

/// A sink of bytes, with the compression in which they are to be written.
/// The bytes themselves are compressed and written by whoever takes the
/// parts.
pub struct Compressor<W> {
    writer: W,
    compression_type: CompressionType,
    filepath: Option<String>,
}

impl<W> Compressor<W> {
    /// The sink that this compressor writes.
    pub closed spec fn writer(&self) -> W {
        self.writer
    }

    /// The compression in which the sink is written.
    pub closed spec fn compression(&self) -> CompressionType {
        self.compression_type
    }

    /// The path that is told when writing fails.
    pub closed spec fn path(&self) -> Option<String> {
        self.filepath
    }

    /// A compressor of `writer` for the given compression. It knows no
    /// path.
    pub fn new(writer: W, compression_type: &CompressionType) -> (made: Self)
        ensures
            made.writer() == writer,
            made.compression() == *compression_type,
            made.path() is None,
    {
        Compressor { writer, compression_type: *compression_type, filepath: None }
    }

    /// A compressor of `writer` for the compression that the extension of
    /// `filepath` tells.
    pub fn from_path(writer: W, filepath: &str) -> (made: Self)
        ensures
            made.writer() == writer,
            made.compression() == guessed_compression(filepath@),
            made.path() is None,
    {
        let (compression_type, _) = guess_compression_from_filepath(filepath);
        Compressor::new(writer, &compression_type)
    }

    /// The compression in which the sink is written.
    pub fn compression_type(&self) -> (compression_type: CompressionType)
        ensures
            compression_type == self.compression(),
    {
        self.compression_type
    }

    /// What is told when a write fails.
    pub fn write_failure_note(&self) -> (note: FailureNote)
        ensures
            note.message@ == "While compressing file"@,
            note.filename@ == shown_path(self.path()),
            note.algorithm@ == name_of(self.compression()),
    {
        note("While compressing file", &self.filepath, self.compression_type)
    }

    /// What is told when flushing fails.
    pub fn flush_failure_note(&self) -> (note: FailureNote)
        ensures
            note.message@ == "While flushing compressed file"@,
            note.filename@ == shown_path(self.path()),
            note.algorithm@ == name_of(self.compression()),
    {
        note("While flushing compressed file", &self.filepath, self.compression_type)
    }

    /// The sink and the compression in which to write it.
    pub fn into_parts(self) -> (parts: (W, CompressionType))
        ensures
            parts.0 == self.writer(),
            parts.1 == self.compression(),
    {
        (self.writer, self.compression_type)
    }
}

/// The level of compression where none is set.
pub const DEFAULT_LEVEL: u8 = 2;

/// Whether `c` is one of the digits `0` to `9`.
pub open spec fn is_digit(c: char) -> bool {
    48 <= c as u32 <= 57
}

/// The number that a sequence of digits spells in base ten.
pub open spec fn digits_value(digits: Seq<char>) -> nat
    decreases digits.len(),
{
    if digits.len() == 0 {
        0
    } else {
        (digits_value(digits.drop_last()) * 10 + (digits.last() as u32 - 48)) as nat
    }
}

/// Whether `digits` is one digit or more, and nothing else.
pub open spec fn is_number(digits: Seq<char>) -> bool {
    digits.len() > 0 && forall|i: int| 0 <= i < digits.len() ==> is_digit(#[trigger] digits[i])
}

/// Whether `text` begins with the sign `sign`.
pub open spec fn has_sign(text: Seq<char>, sign: char) -> bool {
    text.len() > 0 && text[0] == sign
}

/// The digits of `text`: all of it but a leading `+` or `-`.
pub open spec fn digits_of(text: Seq<char>) -> Seq<char> {
    if has_sign(text, '+') || has_sign(text, '-') {
        text.drop_first()
    } else {
        text
    }
}

/// The level that the text of a setting gives to a compression whose
/// levels are unsigned: the number that the text spells, with or without a
/// `+` before it, where it fits; else the default, as without a setting.
pub open spec fn unsigned_level(setting: Option<Seq<char>>) -> u32 {
    match setting {
        Some(text) => if !has_sign(text, '-') && is_number(digits_of(text)) && digits_value(
            digits_of(text),
        ) <= u32::MAX {
            digits_value(digits_of(text)) as u32
        } else {
            DEFAULT_LEVEL as u32
        },
        None => DEFAULT_LEVEL as u32,
    }
}

/// The level that the text of a setting gives to a compression whose
/// levels are signed: the number that the text spells, with or without a
/// sign before it, where it fits; else the default, as without a setting.
pub open spec fn signed_level(setting: Option<Seq<char>>) -> i32 {
    match setting {
        Some(text) => {
            let size = digits_value(digits_of(text));
            if !is_number(digits_of(text)) {
                DEFAULT_LEVEL as i32
            } else if has_sign(text, '-') {
                if size <= 0x8000_0000 {
                    (-size) as i32
                } else {
                    DEFAULT_LEVEL as i32
                }
            } else if size <= i32::MAX {
                size as i32
            } else {
                DEFAULT_LEVEL as i32
            }
        },
        None => DEFAULT_LEVEL as i32,
    }
}

proof fn lemma_digits_value_grows(digits: Seq<char>)
    requires
        digits.len() > 0,
        is_digit(digits.last()),
    ensures
        digits_value(digits) >= digits_value(digits.drop_last()),
        digits_value(digits) == digits_value(digits.drop_last()) * 10 + (digits.last() as u32 - 48),
{
}

/// The number that `digits` spells, where it is a number that fits 32 bits.
fn parse_digits(digits: &str) -> (value: Option<u32>)
    ensures
        match value {
            Some(value) => is_number(digits@) && value == digits_value(digits@),
            None => !is_number(digits@) || digits_value(digits@) > u32::MAX,
        },
{
    let mut all_digits = true;
    let mut fits = true;
    let mut value: u32 = 0;
    let mut seen = false;
    let ghost mut i: int = 0;
    for c in it: digits.chars()
        invariant
            it.seq() == digits@,
            i == it.index(),
            seen == (i > 0),
            all_digits == (forall|j: int| 0 <= j < i ==> is_digit(#[trigger] digits@[j])),
            all_digits && fits ==> value == digits_value(digits@.take(i)),
            all_digits && !fits ==> digits_value(digits@.take(i)) > u32::MAX,
    {
        let code = c as u32;
        proof {
            assert(digits@.take(i + 1).drop_last() =~= digits@.take(i));
            assert(digits@.take(i + 1).last() == c);
        }
        if code < 48 || code > 57 {
            all_digits = false;
        } else if all_digits {
            proof {
                lemma_digits_value_grows(digits@.take(i + 1));
            }
            if fits {
                let digit = code - 48;
                if value > (u32::MAX - digit) / 10 {
                    fits = false;
                } else {
                    value = value * 10 + digit;
                }
            }
        }
        seen = true;
        proof {
            i = i + 1;
        }
    }
    proof {
        assert(digits@.take(i) =~= digits@);
    }
    if seen && all_digits && fits {
        Some(value)
    } else {
        None
    }
}

/// The sign and the digits of `text`.
fn split_sign(text: &str) -> (parts: (Option<char>, &str))
    ensures
        parts.1@ == digits_of(text@),
        match parts.0 {
            Some(sign) => has_sign(text@, sign) && (sign == '+' || sign == '-'),
            None => !has_sign(text@, '+') && !has_sign(text@, '-'),
        },
{
    let len = text.unicode_len();
    if len == 0 {
        return (None, text);
    }
    let first = text.get_char(0);
    if first == '+' || first == '-' {
        let rest = text.substring_char(1, len);
        assert(rest@ =~= text@.drop_first());
        (Some(first), rest)
    } else {
        (None, text)
    }
}

/// The level of a compression whose levels are unsigned, from the text of
/// its setting, if it is set.
pub fn get_comp_level(setting: Option<&str>) -> (level: u32)
    ensures
        level == unsigned_level(
            match setting {
                Some(text) => Some(text@),
                None => None,
            },
        ),
{
    match setting {
        Some(text) => {
            let (sign, digits) = split_sign(text);
            match (sign, parse_digits(digits)) {
                (Some('-'), _) => DEFAULT_LEVEL as u32,
                (_, Some(value)) => value,
                (_, None) => DEFAULT_LEVEL as u32,
            }
        },
        None => DEFAULT_LEVEL as u32,
    }
}

/// The level of a compression whose levels are signed, from the text of its
/// setting, if it is set.
pub fn get_signed_comp_level(setting: Option<&str>) -> (level: i32)
    ensures
        level == signed_level(
            match setting {
                Some(text) => Some(text@),
                None => None,
            },
        ),
{
    match setting {
        Some(text) => {
            let (sign, digits) = split_sign(text);
            match parse_digits(digits) {
                Some(value) => {
                    if sign == Some('-') {
                        if value <= 0x8000_0000 {
                            (-(value as i64)) as i32
                        } else {
                            DEFAULT_LEVEL as i32
                        }
                    } else if value <= 0x7fff_ffff {
                        value as i32
                    } else {
                        DEFAULT_LEVEL as i32
                    }
                },
                None => DEFAULT_LEVEL as i32,
            }
        },
        None => DEFAULT_LEVEL as i32,
    }
}

} // verus!
