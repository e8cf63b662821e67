//! Hex dump rendering: sixteen bytes per line, each line opened by its offset.
use vstd::prelude::*;

use crate::text::{hex_padded, push_char, push_hex_padded};

verus! {

/// The text that byte `b` at index `i` adds to a dump: a new line headed by
/// the 8-digit hex offset when `i` is a multiple of 16, then the byte as two
/// hex digits and a space.
pub open spec fn hexdump_piece(i: nat, b: u8) -> Seq<char> {
    (if i % 16 == 0 {
        seq!['\n'] + hex_padded(i, 8) + seq![':', ' ']
    } else {
        Seq::empty()
    }) + hex_padded(b as nat, 2) + seq![' ']
}

/// The dump of the first `k` bytes of `buffer`, without the final newline.
pub open spec fn hexdump_prefix(buffer: Seq<u8>, k: int) -> Seq<char>
    decreases k,
{
    if k <= 0 {
        Seq::empty()
    } else {
        hexdump_prefix(buffer, k - 1) + hexdump_piece((k - 1) as nat, buffer[k - 1])
    }
}

/// The whole dump of `buffer`, ending with a newline.
pub open spec fn hexdump(buffer: Seq<u8>) -> Seq<char> {
    hexdump_prefix(buffer, buffer.len() as int).push('\n')
}

/// Formats `buffer` as a hex dump: lower-case two-digit bytes separated by
/// spaces, sixteen per line, each line starting with `\n` and the 8-digit
/// hex offset of its first byte followed by `": "`; a final newline ends it.
pub fn format_hexdump(buffer: &[u8]) -> (res: String)
    ensures
        res@ == hexdump(buffer@),
{
    let mut output = String::new();
    let n = buffer.len();
    let mut i: usize = 0;
    while i < n
        invariant
            n == buffer@.len(),
            i <= n,
            output@ == hexdump_prefix(buffer@, i as int),
        decreases n - i,
    {
        let ghost before = output@;
        if i % 16 == 0 {
            push_char(&mut output, '\n');
            push_hex_padded(&mut output, i as u64, 8);
            push_char(&mut output, ':');
            push_char(&mut output, ' ');
        }
        let ghost mid = output@;
        push_hex_padded(&mut output, buffer[i] as u64, 2);
        push_char(&mut output, ' ');
        proof {
            if i % 16 == 0 {
                assert(mid =~= before + (seq!['\n'] + hex_padded(i as nat, 8) + seq![':', ' ']));
            } else {
                assert(mid =~= before + Seq::<char>::empty());
            }
            assert(output@ =~= before + hexdump_piece(i as nat, buffer@[i as int]));
        }
        i = i + 1;
    }
    push_char(&mut output, '\n');
    output
}

} // verus!
