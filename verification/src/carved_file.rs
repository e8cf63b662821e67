use vstd::prelude::*;

use crate::signature::{kind_extension, FileKind};
use crate::text::{decimal, decimal_string, push_decimal, push_repeated, push_str, repeat_char};

verus! {

/// A file recovered (or recoverable) from raw disk data.
/// Holds the absolute byte offsets within the source device/image.
#[derive(Debug, Clone, Copy, PartialEq, Eq, Structural)]
pub struct CarvedFile {
    pub kind: FileKind,
    /// Absolute offset of the first byte of the file header in the source.
    pub offset_start: u64,
    /// Absolute offset of the byte immediately after the file footer.
    pub offset_end: u64,
}

/// Length of the byte range `[start, end)`, or 0 when the range is inverted.
pub open spec fn range_size(start: u64, end: u64) -> u64 {
    if end >= start { (end - start) as u64 } else { 0 }
}

/// `t` preceded by zeros up to `width` characters (`format!("{:0width$}")`).
pub open spec fn zero_padded(t: Seq<char>, width: int) -> Seq<char> {
    repeat_char('0', width - t.len()) + t
}

/// The name a recovered file is saved under: `file_`, its place among the
/// files found (in decimal, zero-padded to four digits), `_`, the offset of
/// its header in the source, and its kind's extension, as in
/// `file_0003_4096.png`.
pub open spec fn carved_name(index: nat, file: CarvedFile) -> Seq<char> {
    "file_"@ + zero_padded(decimal(index), 4) + "_"@ + decimal(file.offset_start as nat) + "."@
        + kind_extension(file.kind)
}

impl CarvedFile {
    /// The name this file is saved under when it is the `index`-th one found
    /// (counting from 0).
    pub fn file_name(&self, index: usize) -> (res: String)
        ensures
            res@ == carved_name(index as nat, *self),
    {
        let digits = decimal_string(index as u64);
        let n = digits.as_str().unicode_len();
        let fill: usize = if n < 4 { 4 - n } else { 0 };
        let mut s = String::new();
        push_str(&mut s, "file_");
        push_repeated(&mut s, '0', fill);
        assert(repeat_char('0', fill as int) == repeat_char('0', 4 - decimal(index as nat).len()));
        push_str(&mut s, digits.as_str());
        push_str(&mut s, "_");
        push_decimal(&mut s, self.offset_start);
        push_str(&mut s, ".");
        push_str(&mut s, self.kind.extension());
        assert(s@ =~= carved_name(index as nat, *self));
        s
    }

    /// Number of bytes between the two offsets (0 when `offset_end <= offset_start`).
    pub fn size(&self) -> (res: u64)
        ensures
            res == range_size(self.offset_start, self.offset_end),
    {
        self.offset_end.saturating_sub(self.offset_start)
    }
}

} // verus!
