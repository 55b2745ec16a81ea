//! Content hashes: 20-byte node hashes and their 40-character hex form.

use vstd::prelude::*;

verus! {

/// Number of bytes in a node hash.
pub const HASH_LEN: usize = 20;

/// Number of hex characters in the textual form of a node hash.
pub const HEX_LEN: usize = 40;

/// True for the ASCII bytes `0-9`, `a-f`, `A-F`.
pub open spec fn is_hex_digit(b: u8) -> bool {
    (48 <= b <= 57) || (97 <= b <= 102) || (65 <= b <= 70)
}

/// Numeric value of a hex digit byte.
pub open spec fn hex_val(b: u8) -> u8
    recommends
        is_hex_digit(b),
{
    if 48 <= b <= 57 {
        (b - 48) as u8
    } else if 97 <= b <= 102 {
        (b - 87) as u8
    } else {
        (b - 55) as u8
    }
}

/// Lowercase hex digit byte for a value below 16.
pub open spec fn hex_digit(v: u8) -> u8
    recommends
        v < 16,
{
    if v < 10 {
        (v + 48) as u8
    } else {
        (v + 87) as u8
    }
}

/// The 20 bytes denoted by a 40-character hex sequence.
pub open spec fn bytes_of_hex(s: Seq<u8>) -> Seq<u8>
    recommends
        s.len() == HEX_LEN,
{
    Seq::new(HASH_LEN as nat, |j: int| (hex_val(s[2 * j]) * 16 + hex_val(s[2 * j + 1])) as u8)
}

/// The 40 lowercase hex characters denoting 20 bytes.
pub open spec fn hex_of_bytes(b: Seq<u8>) -> Seq<u8>
    recommends
        b.len() == HASH_LEN,
{
    Seq::new(HEX_LEN as nat, |i: int| {
        if i % 2 == 0 {
            hex_digit(b[i / 2] / 16)
        } else {
            hex_digit(b[i / 2] % 16)
        }
    })
}

/// The views of the hashes a keyed store holds.
pub open spec fn hash_views(m: Map<Seq<u8>, NodeHash>) -> Map<Seq<u8>, Seq<u8>> {
    m.map_values(|h: NodeHash| h@)
}

/// A content-derived changeset, manifest or file node identity: 20 raw bytes.
#[derive(Debug)]
pub struct NodeHash {
    bytes: Vec<u8>,
}

impl NodeHash {
    /// The raw 20 bytes.
    pub closed spec fn view(&self) -> Seq<u8> {
        self.bytes@
    }

    /// A node hash always holds exactly 20 bytes.
    #[verifier::type_invariant]
    spec fn inv(self) -> bool {
        self.bytes@.len() == HASH_LEN
    }

    /// Wrap 20 raw bytes; rejects any other length.
    pub fn from_bytes(bytes: Vec<u8>) -> (r: Option<NodeHash>)
        ensures
            match r {
                Some(h) => bytes@.len() == HASH_LEN && h@ == bytes@,
                None => bytes@.len() != HASH_LEN,
            },
    {
        if bytes.len() == HASH_LEN {
            Some(NodeHash { bytes })
        } else {
            None
        }
    }

    /// Decode a 40-character hex field; rejects any other length and any
    /// byte that is not a hex digit.
    pub fn from_hex(hex: &Vec<u8>) -> (r: Option<NodeHash>)
        ensures
            match r {
                Some(h) => hex@.len() == HEX_LEN && (forall|i: int|
                    0 <= i < hex@.len() ==> is_hex_digit(hex@[i])) && h@ == bytes_of_hex(hex@),
                None => hex@.len() != HEX_LEN || exists|i: int|
                    0 <= i < hex@.len() && !is_hex_digit(hex@[i]),
            },
    {
        if hex.len() != HEX_LEN {
            return None;
        }
        let mut bytes: Vec<u8> = Vec::new();
        let mut j: usize = 0;
        while j < HASH_LEN
            invariant
                hex@.len() == HEX_LEN,
                0 <= j <= HASH_LEN,
                bytes@.len() == j,
                forall|i: int| 0 <= i < 2 * j ==> is_hex_digit(hex@[i]),
                forall|i: int| 0 <= i < j ==> bytes@[i] == bytes_of_hex(hex@)[i],
            decreases HASH_LEN - j,
        {
            let hi = hex[2 * j];
            let lo = hex[2 * j + 1];
            if !hex_digit_value(hi).is_some() {
                return None;
            }
            if !hex_digit_value(lo).is_some() {
                return None;
            }
            let hv = hex_digit_value(hi).unwrap();
            let lv = hex_digit_value(lo).unwrap();
            bytes.push(hv * 16 + lv);
            j = j + 1;
        }
        assert(bytes@ =~= bytes_of_hex(hex@));
        Some(NodeHash { bytes })
    }

    /// The 40-character lowercase hex form.
    pub fn to_hex(&self) -> (r: Vec<u8>)
        ensures
            r@ == hex_of_bytes(self@),
    {
        proof {
            use_type_invariant(self);
        }
        let mut out: Vec<u8> = Vec::new();
        let mut i: usize = 0;
        while i < HASH_LEN
            invariant
                self.bytes@.len() == HASH_LEN,
                0 <= i <= HASH_LEN,
                out@.len() == 2 * i,
                forall|k: int| 0 <= k < 2 * i ==> out@[k] == hex_of_bytes(self@)[k],
            decreases HASH_LEN - i,
        {
            let b = self.bytes[i];
            out.push(hex_digit_byte(b / 16));
            out.push(hex_digit_byte(b % 16));
            i = i + 1;
        }
        assert(out@ =~= hex_of_bytes(self@));
        out
    }

    /// A fresh copy of the raw 20 bytes.
    pub fn to_bytes(&self) -> (r: Vec<u8>)
        ensures
            r@ == self@,
    {
        let c = self.clone();
        let NodeHash { bytes } = c;
        bytes
    }

}

impl Clone for NodeHash {
    /// A clone denotes the same 20 bytes.
    fn clone(&self) -> (r: Self)
        ensures
            r@ == self@,
    {
        proof {
            use_type_invariant(self);
        }
        let mut bytes: Vec<u8> = Vec::new();
        let mut i: usize = 0;
        while i < self.bytes.len()
            invariant
                0 <= i <= self.bytes@.len(),
                bytes@ == self.bytes@.take(i as int),
            decreases self.bytes@.len() - i,
        {
            bytes.push(self.bytes[i]);
            i = i + 1;
        }
        assert(bytes@ =~= self.bytes@);
        NodeHash { bytes }
    }
}

impl PartialEq for NodeHash {
    fn eq(&self, other: &Self) -> (r: bool) {
        bytes_eq(&self.bytes, &other.bytes)
    }
}

impl vstd::std_specs::cmp::PartialEqSpecImpl for NodeHash {
    open spec fn obeys_eq_spec() -> bool {
        true
    }

    open spec fn eq_spec(&self, other: &Self) -> bool {
        self@ == other@
    }
}

impl Eq for NodeHash {

}

/// Byte-wise equality of two byte strings.
pub fn bytes_eq(a: &Vec<u8>, b: &Vec<u8>) -> (r: bool)
    ensures
        r <==> a@ == b@,
{
    if a.len() != b.len() {
        assert(a@ != b@);
        return false;
    }
    let mut i: usize = 0;
    while i < a.len()
        invariant
            a@.len() == b@.len(),
            0 <= i <= a@.len(),
            forall|k: int| 0 <= k < i ==> a@[k] == b@[k],
        decreases a@.len() - i,
    {
        if a[i] != b[i] {
            assert(a@[i as int] != b@[i as int]);
            return false;
        }
        i = i + 1;
    }
    assert(a@ =~= b@);
    true
}

/// Executable form of `hex_val`, rejecting non-digits.
pub fn hex_digit_value(b: u8) -> (r: Option<u8>)
    ensures
        match r {
            Some(v) => is_hex_digit(b) && v == hex_val(b) && v < 16,
            None => !is_hex_digit(b),
        },
{
    if 48 <= b && b <= 57 {
        Some(b - 48)
    } else if 97 <= b && b <= 102 {
        Some(b - 87)
    } else if 65 <= b && b <= 70 {
        Some(b - 55)
    } else {
        None
    }
}

/// Executable form of `hex_digit`.
pub fn hex_digit_byte(v: u8) -> (r: u8)
    requires
        v < 16,
    ensures
        r == hex_digit(v),
{
    if v < 10 {
        v + 48
    } else {
        v + 87
    }
}

} // verus!
