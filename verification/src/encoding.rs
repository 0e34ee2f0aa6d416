//! The packed encoding scheme: how an ordered sequence of strings is laid
//! out in one contiguous byte buffer, and the laws that layout obeys.
//!
//! Each element is written as its UTF-8 bytes followed by one `DELIMITER`
//! byte. `DELIMITER` is `0xff`, a value that never occurs in any valid
//! UTF-8 byte stream, so the boundaries between elements are always
//! unambiguous and no escaping is required.

use vstd::prelude::*;
use vstd::utf8::*;

verus! {

/// The reserved separator byte written after every element.
/// `0xff` is neither a UTF-8 leading byte nor a continuation byte,
/// so it cannot occur inside an element's payload.
pub const DELIMITER: u8 = 0xff;

/// The bytes one element contributes to a packed buffer:
/// its UTF-8 encoding followed by the delimiter.
pub open spec fn unit_bytes(s: Seq<char>) -> Seq<u8> {
    encode_utf8(s).push(DELIMITER)
}

/// The packed encoding of an ordered list of strings.
pub open spec fn pack(elems: Seq<Seq<char>>) -> Seq<u8>
    decreases elems.len(),
{
    if elems.len() == 0 {
        Seq::empty()
    } else {
        unit_bytes(elems[0]) + pack(elems.drop_first())
    }
}

/// Index of the first delimiter byte, or the length of the buffer if none occurs.
pub open spec fn first_delim(bytes: Seq<u8>) -> nat
    decreases bytes.len(),
{
    if bytes.len() == 0 {
        0
    } else if bytes[0] == DELIMITER {
        0
    } else {
        1 + first_delim(bytes.drop_first())
    }
}

/// The list of strings encoded in a packed buffer: repeatedly take the bytes
/// up to the first delimiter as one element and continue after it.
/// On a buffer that does not satisfy the encoding invariant (one that ends
/// without a delimiter) the trailing fragment is ignored.
pub open spec fn unpack(bytes: Seq<u8>) -> Seq<Seq<char>>
    decreases bytes.len(),
{
    if bytes.len() == 0 {
        Seq::empty()
    } else if first_delim(bytes) < bytes.len() {
        seq![decode_utf8(bytes.take(first_delim(bytes) as int))] + unpack(
            bytes.skip(first_delim(bytes) + 1int),
        )
    } else {
        Seq::empty()
    }
}

/// The well-formedness invariant on raw bytes: a valid concatenation of
/// UTF-8-payload-plus-delimiter units with no trailing data.
pub open spec fn well_formed_bytes(bytes: Seq<u8>) -> bool
    decreases bytes.len(),
{
    if bytes.len() == 0 {
        true
    } else if first_delim(bytes) < bytes.len() {
        valid_utf8(bytes.take(first_delim(bytes) as int)) && well_formed_bytes(
            bytes.skip(first_delim(bytes) + 1int),
        )
    } else {
        false
    }
}

/// No byte of a valid UTF-8 encoding is the delimiter: leading bytes are at
/// most `0xf7` and continuation bytes at most `0xbf`.
pub proof fn lemma_valid_utf8_no_delimiter(bytes: Seq<u8>)
    requires
        valid_utf8(bytes),
    ensures
        forall|i: int| 0 <= i < bytes.len() ==> bytes[i] != DELIMITER,
    decreases bytes.len(),
{
    if bytes.len() != 0 {
        let k = length_of_first_scalar(bytes);
        let rest = pop_first_scalar(bytes);
        lemma_valid_utf8_no_delimiter(rest);
        assert forall|i: int| 0 <= i < bytes.len() implies bytes[i] != DELIMITER by {
            if i < k {
            } else {
                assert(bytes[i] == rest[i - k]);
            }
        }
    }
}

/// The UTF-8 encoding of any string contains no delimiter byte.
pub proof fn lemma_encode_utf8_no_delimiter(s: Seq<char>)
    ensures
        forall|i: int| 0 <= i < encode_utf8(s).len() ==> encode_utf8(s)[i] != DELIMITER,
{
    encode_utf8_valid_utf8(s);
    lemma_valid_utf8_no_delimiter(encode_utf8(s));
}

/// Appending one element to the list appends that element's unit to the
/// packed bytes.
pub proof fn lemma_pack_push(elems: Seq<Seq<char>>, e: Seq<char>)
    ensures
        pack(elems.push(e)) == pack(elems) + unit_bytes(e),
    decreases elems.len(),
{
    if elems.len() == 0 {
        let l = elems.push(e);
        assert(l[0] == e);
        assert(l.drop_first() =~= Seq::<Seq<char>>::empty());
        assert(pack(l.drop_first()) == Seq::<u8>::empty());
        assert(pack(l) == unit_bytes(l[0]) + pack(l.drop_first()));
        assert(pack(l) =~= pack(elems) + unit_bytes(e));
    } else {
        let l = elems.push(e);
        assert(l.drop_first() =~= elems.drop_first().push(e));
        lemma_pack_push(elems.drop_first(), e);
        assert(pack(l) == unit_bytes(l[0]) + pack(l.drop_first()));
        assert(pack(l) =~= pack(elems) + unit_bytes(e));
    }
}

/// Split symmetry at the front: a non-empty list packs to the unit of its
/// first element followed by the packed remainder, so splitting off the
/// first element and re-prepending it reconstructs the original bytes.
pub proof fn lemma_pack_cons(elems: Seq<Seq<char>>)
    requires
        elems.len() > 0,
    ensures
        pack(elems) == unit_bytes(elems[0]) + pack(elems.drop_first()),
{
}

/// A non-empty list packs to its front followed by the unit of its last
/// element: the fact behind splitting at the back.
pub proof fn lemma_pack_snoc(elems: Seq<Seq<char>>)
    requires
        elems.len() > 0,
    ensures
        pack(elems) == pack(elems.drop_last()) + unit_bytes(elems.last()),
{
    assert(elems =~= elems.drop_last().push(elems.last()));
    lemma_pack_push(elems.drop_last(), elems.last());
}

/// The packed buffer is empty exactly when the list is empty.
pub proof fn lemma_pack_len_zero(elems: Seq<Seq<char>>)
    ensures
        pack(elems).len() == 0 <==> elems.len() == 0,
{
    if elems.len() > 0 {
        assert(pack(elems).len() >= unit_bytes(elems[0]).len());
    }
}

/// A non-empty packed buffer ends with the delimiter.
pub proof fn lemma_pack_last_byte(elems: Seq<Seq<char>>)
    requires
        elems.len() > 0,
    ensures
        pack(elems).len() > 0,
        pack(elems).last() == DELIMITER,
{
    lemma_pack_snoc(elems);
    let front = pack(elems.drop_last());
    let unit = unit_bytes(elems.last());
    assert(pack(elems).last() == unit.last());
}

/// If the first delimiter occurs at position `n`, `first_delim` finds it.
pub proof fn lemma_first_delim_at(bytes: Seq<u8>, n: int)
    requires
        0 <= n < bytes.len(),
        bytes[n] == DELIMITER,
        forall|j: int| 0 <= j < n ==> bytes[j] != DELIMITER,
    ensures
        first_delim(bytes) == n,
    decreases n,
{
    if n > 0 {
        let rest = bytes.drop_first();
        assert(forall|j: int| 0 <= j < n - 1 ==> rest[j] == bytes[j + 1]);
        lemma_first_delim_at(rest, n - 1);
    }
}

/// In a buffer without any delimiter byte, `first_delim` runs off the end.
pub proof fn lemma_first_delim_none(bytes: Seq<u8>)
    requires
        forall|j: int| 0 <= j < bytes.len() ==> bytes[j] != DELIMITER,
    ensures
        first_delim(bytes) == bytes.len(),
    decreases bytes.len(),
{
    if bytes.len() > 0 {
        let rest = bytes.drop_first();
        assert(forall|j: int| 0 <= j < rest.len() ==> rest[j] == bytes[j + 1]);
        lemma_first_delim_none(rest);
    }
}

/// Every packed list satisfies the well-formedness invariant: any byte
/// sequence built exclusively by the owned buffer's operations is a valid
/// concatenation of payload-plus-delimiter units.
pub proof fn lemma_pack_well_formed(elems: Seq<Seq<char>>)
    ensures
        well_formed_bytes(pack(elems)),
    decreases elems.len(),
{
    if elems.len() > 0 {
        let e0 = elems[0];
        let enc = encode_utf8(e0);
        let bytes = pack(elems);
        let rest = pack(elems.drop_first());
        assert(bytes == unit_bytes(e0) + rest);
        lemma_encode_utf8_no_delimiter(e0);
        assert(forall|j: int| 0 <= j < enc.len() ==> bytes[j] == enc[j]);
        assert(bytes[enc.len() as int] == DELIMITER);
        lemma_first_delim_at(bytes, enc.len() as int);
        assert(bytes.take(enc.len() as int) =~= enc);
        encode_utf8_valid_utf8(e0);
        assert(bytes.skip(enc.len() + 1int) =~= rest);
        lemma_pack_well_formed(elems.drop_first());
    }
}

/// Where the first delimiter stands: no delimiter occurs before it, and it
/// is a delimiter whenever it lies inside the buffer.
pub proof fn lemma_first_delim_bounds(bytes: Seq<u8>)
    ensures
        first_delim(bytes) <= bytes.len(),
        first_delim(bytes) < bytes.len() ==> bytes[first_delim(bytes) as int] == DELIMITER,
        forall|j: int| 0 <= j < first_delim(bytes) ==> bytes[j] != DELIMITER,
    decreases bytes.len(),
{
    if bytes.len() > 0 && bytes[0] != DELIMITER {
        let rest = bytes.drop_first();
        lemma_first_delim_bounds(rest);
        assert forall|j: int| 0 <= j < first_delim(bytes) implies bytes[j] != DELIMITER by {
            if j > 0 {
                assert(bytes[j] == rest[j - 1]);
            }
        }
    }
}

/// Unpacking well-formed bytes and packing the result reproduces the
/// bytes: well-formed buffers carry no information beyond their list.
pub proof fn lemma_pack_unpack(bytes: Seq<u8>)
    requires
        well_formed_bytes(bytes),
    ensures
        pack(unpack(bytes)) == bytes,
    decreases bytes.len(),
{
    if bytes.len() > 0 {
        lemma_first_delim_bounds(bytes);
        let fd = first_delim(bytes) as int;
        let head = bytes.take(fd);
        let rest = bytes.skip(fd + 1);
        decode_utf8_encode_utf8(head);
        lemma_pack_unpack(rest);
        let u = unpack(bytes);
        assert(u == seq![decode_utf8(head)] + unpack(rest));
        assert(u.drop_first() =~= unpack(rest));
        assert(pack(u) == unit_bytes(u[0]) + pack(u.drop_first()));
        assert(pack(u) =~= bytes);
    }
}

/// A byte buffer satisfies the well-formedness invariant exactly when it
/// is the packed form of some list of strings.
pub proof fn lemma_well_formed_exactly_packed(bytes: Seq<u8>)
    ensures
        well_formed_bytes(bytes) <==> (exists|elems: Seq<Seq<char>>| pack(elems) == bytes),
{
    if well_formed_bytes(bytes) {
        lemma_pack_unpack(bytes);
        assert(pack(unpack(bytes)) == bytes);
    }
    if exists|elems: Seq<Seq<char>>| pack(elems) == bytes {
        lemma_pack_well_formed(choose|elems: Seq<Seq<char>>| pack(elems) == bytes);
    }
}

/// Round trip at the level of the model: unpacking a packed list yields
/// exactly the original list of strings, in order. This is what makes the
/// packed bytes a faithful representation.
pub proof fn lemma_unpack_pack(elems: Seq<Seq<char>>)
    ensures
        unpack(pack(elems)) == elems,
    decreases elems.len(),
{
    if elems.len() == 0 {
        assert(unpack(pack(elems)) =~= elems);
    } else {
        let e0 = elems[0];
        let enc = encode_utf8(e0);
        let bytes = pack(elems);
        let rest = pack(elems.drop_first());
        assert(bytes == unit_bytes(e0) + rest);
        lemma_encode_utf8_no_delimiter(e0);
        assert(forall|j: int| 0 <= j < enc.len() ==> bytes[j] == enc[j]);
        assert(bytes[enc.len() as int] == DELIMITER);
        lemma_first_delim_at(bytes, enc.len() as int);
        assert(bytes.take(enc.len() as int) =~= enc);
        encode_utf8_decode_utf8(e0);
        assert(bytes.skip(enc.len() + 1int) =~= rest);
        lemma_unpack_pack(elems.drop_first());
        assert(unpack(bytes) =~= elems);
    }
}

/// Packing is injective: two lists pack to the same bytes exactly when they
/// are the same list. Byte-for-byte equality of packed buffers therefore
/// coincides with element-wise equality of the lists they encode.
pub proof fn lemma_pack_injective(a: Seq<Seq<char>>, b: Seq<Seq<char>>)
    ensures
        pack(a) == pack(b) <==> a == b,
{
    lemma_unpack_pack(a);
    lemma_unpack_pack(b);
}

} // verus!
