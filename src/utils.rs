use vstd::prelude::*;
use vstd::string::StringSliceAdditionalSpecFns;
use vstd::utf8::{
    encode_utf8, encode_utf8_valid_utf8, is_char_boundary_iff_not_is_continuation_byte,
    is_char_boundary_start_end_of_seq,
};

verus! {

/// The index of the first line feed in `b`, or its length if it has none.
pub open spec fn first_newline(b: Seq<u8>) -> int
    decreases b.len(),
{
    if b.len() == 0 || b[0] == 10 {
        0
    } else {
        1 + first_newline(b.drop_first())
    }
}

/// Whether the text starts with `#!`.
pub open spec fn has_shebang(b: Seq<u8>) -> bool {
    b.len() >= 2 && b[0] == 35 && b[1] == 33
}

/// The text without its first line if that line is a shebang; the line feed
/// that ends it is kept.
pub open spec fn without_shebang(b: Seq<u8>) -> Seq<u8> {
    if has_shebang(b) {
        b.subrange(first_newline(b), b.len() as int)
    } else {
        b
    }
}

proof fn lemma_first_newline(b: Seq<u8>, i: int)
    requires
        0 <= i <= b.len(),
        i == b.len() || b[i] == 10,
        forall|j: int| 0 <= j < i ==> b[j] != 10,
    ensures
        first_newline(b) == i,
    decreases i,
{
    if i > 0 {
        lemma_first_newline(b.drop_first(), i - 1);
    }
}

fn strip(code: &str) -> (r: &str)
    ensures
        r.spec_bytes() == without_shebang(code.spec_bytes()),
{
    let bytes = code.as_bytes();
    if bytes.len() < 2 || bytes[0] != 35 || bytes[1] != 33 {
        return code;
    }
    let mut i: usize = 0;
    while i < bytes.len() && bytes[i] != 10
        invariant
            i <= bytes@.len(),
            forall|j: int| 0 <= j < i ==> bytes@[j] != 10,
        decreases bytes@.len() - i,
    {
        i += 1;
    }
    proof {
        lemma_first_newline(bytes@, i as int);
        encode_utf8_valid_utf8(code@);
        is_char_boundary_start_end_of_seq(bytes@);
        if i < bytes@.len() {
            is_char_boundary_iff_not_is_continuation_byte(bytes@, i as int);
        }
    }
    let (_, rest) = code.split_at(i);
    rest
}

/// Strips a shebang line from source text, in case it has one.
pub trait StripShebang {
    /// The text as UTF-8 bytes.
    spec fn text_bytes(&self) -> Seq<u8>;

    /// The text without its first line if that line starts with `#!`; the line
    /// feed that ended it stays.
    fn strip_shebang(&self) -> (r: &str)
        ensures
            r.spec_bytes() == without_shebang(self.text_bytes()),
    ;
}

impl StripShebang for String {
    open spec fn text_bytes(&self) -> Seq<u8> {
        encode_utf8(self@)
    }

    fn strip_shebang(&self) -> (r: &str) {
        strip(self.as_str())
    }
}

impl<'s> StripShebang for &'s str {
    open spec fn text_bytes(&self) -> Seq<u8> {
        (*self).spec_bytes()
    }

    fn strip_shebang(&self) -> (r: &str) {
        strip(*self)
    }
}

} // verus!
