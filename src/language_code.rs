//! A short language code held inline in a fixed buffer.
use vstd::prelude::*;
use vstd::string::StringSliceAdditionalSpecFns;
use vstd::utf8::{decode_utf8, encode_utf8_decode_utf8, encode_utf8_valid_utf8, valid_utf8};
use crate::bytes::text_of;

verus! {

/// The most bytes a language code can hold: three hyphen-separated
/// three-letter segments.
pub const MAX_CODE_LEN: usize = 11;

/// A language code of at most `MAX_CODE_LEN` bytes, held without allocation.
/// The bytes past `len` are always zero, so two codes are equal exactly when
/// their byte sequences are equal.
#[derive(Clone, Copy, Debug, PartialEq, Eq, PartialOrd, Ord, Hash)]
pub struct LanguageCode {
    data: [u8; 11],
    len: u8,
}

impl View for LanguageCode {
    type V = Seq<u8>;

    closed spec fn view(&self) -> Seq<u8> {
        self.data@.subrange(0, self.len as int)
    }
}

impl LanguageCode {
    #[verifier::type_invariant]
    closed spec fn padded(self) -> bool {
        &&& self.len as usize <= MAX_CODE_LEN
        &&& forall|i: int| self.len <= i < MAX_CODE_LEN ==> self.data@[i] == 0u8
        &&& valid_utf8(self.data@.subrange(0, self.len as int))
    }

    /// Makes a code of the given UTF-8 bytes; `None` where there are more
    /// than `MAX_CODE_LEN` of them. No other check is made.
    pub(crate) fn from_bytes(bytes: &[u8]) -> (r: Option<LanguageCode>)
        requires
            valid_utf8(bytes@),
        ensures
            r is Some <==> bytes@.len() <= MAX_CODE_LEN,
            r matches Some(c) ==> c@ == bytes@,
    {
        let n = bytes.len();
        if n > MAX_CODE_LEN {
            return None;
        }
        let mut data: [u8; 11] = [0u8; 11];
        let mut i: usize = 0;
        while i < n
            invariant
                n == bytes@.len(),
                n <= MAX_CODE_LEN,
                0 <= i <= n,
                forall|j: int| 0 <= j < i ==> data@[j] == bytes@[j],
                forall|j: int| n <= j < MAX_CODE_LEN ==> data@[j] == 0u8,
            decreases n - i,
        {
            data[i] = bytes[i];
            i = i + 1;
        }
        assert(data@.subrange(0, n as int) =~= bytes@);
        let code = LanguageCode { data, len: n as u8 };
        Some(code)
    }

    /// Makes a code of the UTF-8 bytes of `code`; `None` where they are more
    /// than `MAX_CODE_LEN`.
    pub fn new(code: &str) -> (r: Option<LanguageCode>)
        ensures
            r is Some <==> code.spec_bytes().len() <= MAX_CODE_LEN,
            r matches Some(c) ==> c@ == code.spec_bytes() && decode_utf8(c@) == code@,
    {
        proof {
            encode_utf8_valid_utf8(code@);
            encode_utf8_decode_utf8(code@);
        }
        LanguageCode::from_bytes(code.as_bytes())
    }

    /// The number of bytes in the code.
    pub fn len(&self) -> (r: usize)
        ensures
            r == self@.len(),
            r <= MAX_CODE_LEN,
    {
        proof {
            use_type_invariant(self);
        }
        self.len as usize
    }

    /// The code's bytes.
    pub fn as_bytes(&self) -> (r: Vec<u8>)
        ensures
            r@ == self@,
    {
        proof {
            use_type_invariant(self);
        }
        let n = self.len as usize;
        let mut out: Vec<u8> = Vec::with_capacity(n);
        let mut i: usize = 0;
        while i < n
            invariant
                n == self.len,
                n <= MAX_CODE_LEN,
                0 <= i <= n,
                out@ =~= self.data@.subrange(0, i as int),
            decreases n - i,
        {
            out.push(self.data[i]);
            i = i + 1;
        }
        out
    }

    /// The code as text. A code made from a `&str` gives that text back.
    pub fn as_text(&self) -> (r: String)
        ensures
            r@ == decode_utf8(self@),
    {
        proof {
            use_type_invariant(self);
        }
        let bytes = self.as_bytes();
        text_of(bytes.as_slice())
    }

    /// Whether two codes hold the same bytes.
    pub fn same_as(&self, other: &LanguageCode) -> (r: bool)
        ensures
            r == (self@ == other@),
    {
        proof {
            use_type_invariant(self);
            use_type_invariant(other);
        }
        if self.len != other.len {
            assert(self@.len() != other@.len());
            return false;
        }
        let n = self.len as usize;
        let mut i: usize = 0;
        while i < n
            invariant
                n == self.len,
                n == other.len,
                n <= MAX_CODE_LEN,
                0 <= i <= n,
                forall|j: int| 0 <= j < i ==> self.data@[j] == other.data@[j],
            decreases n - i,
        {
            if self.data[i] != other.data[i] {
                assert(self@[i as int] != other@[i as int]);
                return false;
            }
            i = i + 1;
        }
        assert(self@ =~= other@);
        true
    }
}

} // verus!
