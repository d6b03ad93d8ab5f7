//! A single DNS label: an octet string of 1 to 63 bytes whose first and last
//! bytes are ASCII alphanumeric, whose interior bytes are ASCII alphanumeric
//! or `-`, and which does not consist of digits alone.

use vstd::prelude::*;
use vstd::slice::{slice_subrange, slice_to_vec};
use vstd::string::StringSliceAdditionalSpecFns;

use crate::DecodeError;

verus! {

/// ASCII letter or digit.
pub open spec fn is_alnum(b: u8) -> bool {
    (48 <= b <= 57) || (65 <= b <= 90) || (97 <= b <= 122)
}

/// ASCII digit.
pub open spec fn is_digit(b: u8) -> bool {
    48 <= b <= 57
}

/// The validity rule for a label's bytes.
pub open spec fn valid_label(s: Seq<u8>) -> bool {
    &&& 1 <= s.len() <= 63
    &&& is_alnum(s[0])
    &&& is_alnum(s[s.len() - 1])
    &&& (forall|i: int| 0 <= i < s.len() ==> is_alnum(#[trigger] s[i]) || s[i] == 45)
    &&& !(forall|i: int| 0 <= i < s.len() ==> is_digit(#[trigger] s[i]))
}

/// Parses one length-prefixed label starting at `i`: a length byte in 1..=63
/// followed by that many bytes forming a valid label. Returns the label bytes
/// and the offset just past them.
pub open spec fn spec_parse_label(s: Seq<u8>, i: int) -> Option<(Seq<u8>, int)> {
    if 0 <= i < s.len() && 1 <= s[i] <= 63 && i + 1 + s[i] <= s.len() && valid_label(
        s.subrange(i + 1, i + 1 + s[i]),
    ) {
        Some((s.subrange(i + 1, i + 1 + s[i]), i + 1 + s[i]))
    } else {
        None
    }
}

/// One component of a domain name.
#[derive(Debug)]
pub struct Label {
    pub value: Vec<u8>,
}

impl View for Label {
    type V = Seq<u8>;

    open spec fn view(&self) -> Seq<u8> {
        self.value@
    }
}

impl Clone for Label {
    fn clone(&self) -> (r: Self)
        ensures
            r@ == self@,
    {
        Label { value: self.value.clone() }
    }
}

impl PartialEq for Label {
    fn eq(&self, other: &Self) -> (r: bool)
        ensures
            r == (self@ == other@),
    {
        let r = self.value == other.value;
        proof {
            if r {
                assert(self@ =~= other@);
            }
        }
        r
    }
}

impl Eq for Label {

}

impl vstd::std_specs::cmp::PartialEqSpecImpl for Label {
    open spec fn obeys_eq_spec() -> bool {
        true
    }

    open spec fn eq_spec(&self, other: &Self) -> bool {
        self@ == other@
    }
}

impl Label {
    /// Reads one length-prefixed label from `stream` at `offset`.
    pub fn unserialize(stream: &[u8], offset: usize) -> (r: Result<(Label, usize), DecodeError>)
        ensures
            match r {
                Ok((label, end)) => {
                    &&& spec_parse_label(stream@, offset as int) == Some((label@, end as int))
                    &&& valid_label(label@)
                    &&& offset < end <= stream@.len()
                },
                Err(_) => spec_parse_label(stream@, offset as int) is None,
            },
    {
        if offset >= stream.len() {
            return Err(DecodeError::Truncated);
        }
        let length = stream[offset] as usize;
        if length < 1 || length > 63 {
            return Err(DecodeError::LabelInvalid);
        }
        if length > stream.len() - offset - 1 {
            return Err(DecodeError::Truncated);
        }
        let bytes = slice_subrange(stream, offset + 1, offset + 1 + length);
        let label = Label { value: slice_to_vec(bytes) };
        if !label.is_valid() {
            return Err(DecodeError::LabelInvalid);
        }
        Ok((label, offset + 1 + length))
    }

    /// Appends the length-prefixed wire form of this label to `bytes`.
    pub fn serialize(&self, bytes: &mut Vec<u8>)
        requires
            self@.len() <= 63,
        ensures
            final(bytes)@ == old(bytes)@ + seq![self@.len() as u8] + self@,
    {
        bytes.push(self.value.len() as u8);
        let mut i: usize = 0;
        while i < self.value.len()
            invariant
                i <= self.value@.len() <= 63,
                bytes@ == old(bytes)@ + seq![self@.len() as u8] + self@.subrange(0, i as int),
            decreases self.value@.len() - i,
        {
            bytes.push(self.value[i]);
            i = i + 1;
            proof {
                assert(bytes@ =~= old(bytes)@ + seq![self@.len() as u8] + self@.subrange(
                    0,
                    i as int,
                ));
            }
        }
        proof {
            assert(self@.subrange(0, self@.len() as int) =~= self@);
        }
    }

    /// Whether this label's bytes satisfy the validity rule.
    pub fn is_valid(&self) -> (r: bool)
        ensures
            r == valid_label(self@),
    {
        let n = self.value.len();
        if n < 1 || n > 63 {
            return false;
        }
        if !byte_is_alnum(self.value[0]) || !byte_is_alnum(self.value[n - 1]) {
            return false;
        }
        let mut i: usize = 0;
        let mut seen_nondigit = false;
        while i < n
            invariant
                0 <= i <= n == self.value@.len(),
                forall|j: int| 0 <= j < i ==> is_alnum(#[trigger] self.value@[j]) || self.value@[j] == 45,
                seen_nondigit == !(forall|j: int| 0 <= j < i ==> is_digit(#[trigger] self.value@[j])),
            decreases n - i,
        {
            let b = self.value[i];
            if !byte_is_alnum(b) && b != 45 {
                return false;
            }
            if !byte_is_digit(b) {
                seen_nondigit = true;
            }
            i = i + 1;
        }
        seen_nondigit
    }

    /// The label's bytes as a `String` (labels are always ASCII).
    pub fn as_str(&self) -> (r: String)
        requires
            forall|i: int| 0 <= i < self@.len() ==> #[trigger] self@[i] < 128,
        ensures
            r@.len() == self@.len(),
            forall|i: int| 0 <= i < self@.len() ==> #[trigger] r@[i] == self@[i] as char,
    {
        proof {
            assert forall|i: int| 0 <= i < self.value@.len() implies #[trigger] self.value@[i]
                < 128 by {
                assert(self@[i] < 128);
            }
        }
        ascii_to_string(&self.value)
    }

    /// Byte length of the label.
    pub fn len(&self) -> (r: usize)
        ensures
            r == self@.len(),
    {
        self.value.len()
    }
}

impl From<&str> for Label {
    /// Builds a label from a string's bytes. The value is not validated;
    /// `Label::is_valid` tells whether it may go on the wire.
    fn from(value: &str) -> (r: Self)
        ensures
            r@ == value.spec_bytes(),
    {
        Label { value: slice_to_vec(value.as_bytes()) }
    }
}

impl vstd::std_specs::convert::FromSpecImpl<&str> for Label {
    open spec fn obeys_from_spec() -> bool {
        false
    }

    open spec fn from_spec(v: &str) -> Label {
        arbitrary()
    }
}

/// Byte-for-byte equality of two byte vectors.
pub fn bytes_eq(a: &Vec<u8>, b: &Vec<u8>) -> (r: bool)
    ensures
        r == (a@ == b@),
{
    if a.len() != b.len() {
        return false;
    }
    let mut i: usize = 0;
    while i < a.len()
        invariant
            i <= a@.len() == b@.len(),
            forall|p: int| 0 <= p < i ==> a@[p] == b@[p],
        decreases a@.len() - i,
    {
        if a[i] != b[i] {
            return false;
        }
        i = i + 1;
    }
    proof {
        assert(a@ =~= b@);
    }
    true
}

/// Executable check matching `is_alnum`.
pub fn byte_is_alnum(b: u8) -> (r: bool)
    ensures
        r == is_alnum(b),
{
    (48 <= b && b <= 57) || (65 <= b && b <= 90) || (97 <= b && b <= 122)
}

/// Executable check matching `is_digit`.
pub fn byte_is_digit(b: u8) -> (r: bool)
    ensures
        r == is_digit(b),
{
    48 <= b && b <= 57
}

/// Lowercases one ASCII byte.
pub fn byte_to_lower(b: u8) -> (r: u8)
    ensures
        r == spec_lower(b),
{
    if 65 <= b && b <= 90 {
        b + 32
    } else {
        b
    }
}

/// ASCII lowercase of one byte.
pub open spec fn spec_lower(b: u8) -> u8 {
    if 65 <= b <= 90 {
        (b + 32) as u8
    } else {
        b
    }
}

/// ASCII lowercase of a byte sequence.
pub open spec fn spec_lower_seq(s: Seq<u8>) -> Seq<u8> {
    s.map_values(|b: u8| spec_lower(b))
}

/// Builds a `String` from ASCII bytes, one character per byte.
/// Relies on std's String::from_utf8: ASCII bytes decode to one char per byte.
#[verifier::external_body]
pub(crate) fn ascii_to_string(bytes: &Vec<u8>) -> (r: String)
    requires
        forall|i: int| 0 <= i < bytes@.len() ==> #[trigger] bytes@[i] < 128,
    ensures
        r@.len() == bytes@.len(),
        forall|i: int| 0 <= i < bytes@.len() ==> #[trigger] r@[i] == bytes@[i] as char,
{
    String::from_utf8(bytes.clone()).unwrap_or_default()
}

} // verus!
