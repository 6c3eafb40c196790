//! Object ids.
use vstd::prelude::*;
use crate::order::{
    bytes_less, bytes_less_irreflexive, bytes_less_total, bytes_less_transitive, is_bytes_less,
};

verus! {

/// The id of a git object.
#[derive(Clone, Copy, Debug, Eq)]
pub struct Oid {
    pub bytes: [u8; 20],
}

impl PartialEq for Oid {
    fn eq(&self, other: &Oid) -> (same: bool) {
        let mut i: usize = 0;
        while i < 20
            invariant
                i <= 20,
                forall|k: int| 0 <= k < i ==> self.bytes@[k] == other.bytes@[k],
            decreases 20 - i,
        {
            if self.bytes[i] != other.bytes[i] {
                return false;
            }
            i += 1;
        }
        proof {
            assert(self.bytes@ =~= other.bytes@);
            assert(self.bytes =~= other.bytes);
        }
        true
    }
}

impl vstd::std_specs::cmp::PartialEqSpecImpl for Oid {
    open spec fn obeys_eq_spec() -> bool {
        true
    }

    open spec fn eq_spec(&self, other: &Oid) -> bool {
        *self == *other
    }
}

/// The digit that stands for `n` in hexadecimal, in lower case.
pub open spec fn hex_digit(n: int) -> char {
    if n < 10 {
        (48 + n) as char
    } else {
        (87 + n) as char
    }
}

/// The bytes in hexadecimal, two digits for each, the higher one first.
pub open spec fn hex(bytes: Seq<u8>) -> Seq<char> {
    Seq::new(
        2 * bytes.len(),
        |i: int|
            hex_digit(
                if i % 2 == 0 {
                    bytes[i / 2] as int / 16
                } else {
                    bytes[i / 2] as int % 16
                },
            ),
    )
}

/// Two ids that are written alike are the same id.
pub proof fn hex_injective(a: Oid, b: Oid)
    requires
        hex(a.bytes@) == hex(b.bytes@),
    ensures
        a == b,
{
    assert forall|k: int| 0 <= k < 20 implies a.bytes@[k] == b.bytes@[k] by {
        assert(hex(a.bytes@)[2 * k] == hex(b.bytes@)[2 * k]);
        assert(hex(a.bytes@)[2 * k + 1] == hex(b.bytes@)[2 * k + 1]);
        let x = a.bytes@[k] as int;
        let y = b.bytes@[k] as int;
        assert(hex(a.bytes@)[2 * k] == hex_digit(x / 16));
        assert(hex(b.bytes@)[2 * k] == hex_digit(y / 16));
        assert(hex(a.bytes@)[2 * k + 1] == hex_digit(x % 16));
        assert(hex(b.bytes@)[2 * k + 1] == hex_digit(y % 16));
        assert(x / 16 == y / 16 && x % 16 == y % 16);
    }
    assert(a.bytes@ =~= b.bytes@);
    assert(a.bytes =~= b.bytes);
}

/// The text of an id: `git2::Oid::from_bytes` takes any twenty bytes, and the `Display` of
/// `git2::Oid` writes them in hexadecimal, in lower case and at full length. That is believed
/// here, not proved.
#[verifier::external_body]
fn oid_text(bytes: &[u8; 20]) -> (text: String)
    ensures
        text@ == hex(bytes@),
{
    git2::Oid::from_bytes(bytes).unwrap().to_string()
}

impl Oid {
    /// The order of ids: that of their bytes.
    pub open spec fn less(self, other: Oid) -> bool {
        bytes_less(self.bytes@, other.bytes@)
    }

    /// Whether this id comes before `other`.
    pub fn is_less(&self, other: &Oid) -> (less: bool)
        ensures
            less == self.less(*other),
    {
        is_bytes_less(self.bytes.as_slice(), other.bytes.as_slice())
    }

    /// The id as text.
    pub fn to_hex(&self) -> (text: String)
        ensures
            text@ == hex(self.bytes@),
    {
        oid_text(&self.bytes)
    }

    /// The order of ids is a strict total order.
    pub proof fn less_is_strict_total_order(a: Oid, b: Oid, c: Oid)
        ensures
            !a.less(a),
            a.less(b) && b.less(c) ==> a.less(c),
            a == b || a.less(b) || b.less(a),
    {
        bytes_less_irreflexive(a.bytes@);
        if a.less(b) && b.less(c) {
            bytes_less_transitive(a.bytes@, b.bytes@, c.bytes@);
        }
        bytes_less_total(a.bytes@, b.bytes@);
        if a.bytes@ == b.bytes@ {
            assert(a.bytes =~= b.bytes);
        }
    }
}

} // verus!
