//! The borrowed view, the owned buffer, and the iterators over packed
//! string lists.

use vstd::prelude::*;
use vstd::slice::*;
use vstd::utf8::*;

use core::cmp::Ordering;
use vstd::string::StrSliceExecFns;

use vstd::pervasive::unreached;

use crate::encoding::{
    lemma_encode_utf8_no_delimiter, lemma_first_delim_at, lemma_first_delim_none,
    lemma_pack_last_byte, lemma_pack_len_zero, lemma_pack_push, lemma_pack_snoc, pack, unit_bytes,
    well_formed_bytes, DELIMITER,
};
use crate::order::{lemma_chars_trichotomy, lemma_list_trichotomy, list_lt, str_compare};

verus! {

/// A read-only window over bytes already known to satisfy the packed
/// encoding invariant. It owns no memory and splitting it never copies
/// payload bytes: both halves are windows over the same storage.
#[derive(Clone, Copy)]
pub struct StrList<'a> {
    bytes: &'a [u8],
    elems: Ghost<Seq<Seq<char>>>,
}

impl<'a> View for StrList<'a> {
    type V = Seq<Seq<char>>;

    closed spec fn view(&self) -> Seq<Seq<char>> {
        self.elems@
    }
}

/// Relies on `core::str::from_utf8`: it returns `Ok` exactly when the
/// bytes are a valid UTF-8 encoding, and the returned string slice is then
/// backed by exactly those bytes, so the slice's UTF-8 encoding is the
/// input.
#[verifier::external_body]
fn try_bytes_as_str<'a>(v: &'a [u8]) -> (r: Option<&'a str>)
    ensures
        (r is Some <==> valid_utf8(v@)),
        (match r {
            Some(s) => encode_utf8(s@) == v@,
            None => !valid_utf8(v@),
        }),
{
    core::str::from_utf8(v).ok()
}

/// Reinterprets bytes known to be valid UTF-8 as a string slice.
fn bytes_as_str<'a>(v: &'a [u8]) -> (r: &'a str)
    requires
        valid_utf8(v@),
    ensures
        encode_utf8(r@) == v@,
{
    match try_bytes_as_str(v) {
        Some(s) => s,
        None => unreached(),
    }
}

impl<'a> StrList<'a> {
    /// The window satisfies the encoding invariant: its bytes are exactly
    /// the packed form of the element list it stands for.
    pub closed spec fn wf(self) -> bool {
        self.bytes@ == pack(self.elems@)
    }

    /// If the view is non-empty, returns its first element and a window
    /// over everything after that element's delimiter; `None` exactly on
    /// the empty list.
    pub fn split_first(&self) -> (r: Option<(&'a str, StrList<'a>)>)
        requires
            self.wf(),
        ensures
            (match r {
                None => self@.len() == 0,
                Some((s, rest)) => {
                    &&& self@.len() > 0
                    &&& s@ == self@[0]
                    &&& rest@ == self@.drop_first()
                    &&& rest.wf()
                },
            }),
    {
        let n = self.bytes.len();
        if n == 0 {
            proof {
                lemma_pack_len_zero(self.elems@);
            }
            return None;
        }
        proof {
            lemma_pack_len_zero(self.elems@);
        }
        let ghost e0 = self.elems@[0];
        let ghost enc = encode_utf8(e0);
        let ghost rest_bytes = pack(self.elems@.drop_first());
        proof {
            assert(self.bytes@ == unit_bytes(e0) + rest_bytes);
            lemma_encode_utf8_no_delimiter(e0);
            assert(enc.len() < n);
            assert(self.bytes@[enc.len() as int] == DELIMITER);
            assert(forall|j: int| 0 <= j < enc.len() ==> self.bytes@[j] == enc[j]);
        }
        let mut i: usize = 0;
        while self.bytes[i] != DELIMITER
            invariant
                0 <= i <= enc.len() < n,
                n == self.bytes@.len(),
                self.bytes@[enc.len() as int] == DELIMITER,
                forall|j: int| 0 <= j < enc.len() ==> self.bytes@[j] != DELIMITER,
            decreases enc.len() - i,
        {
            i = i + 1;
        }
        proof {
            assert(i == enc.len());
        }
        let head = slice_subrange(self.bytes, 0, i);
        let tail = slice_subrange(self.bytes, i + 1, n);
        proof {
            assert(head@ =~= enc);
            encode_utf8_valid_utf8(e0);
        }
        let s = bytes_as_str(head);
        proof {
            encode_utf8_decode_utf8(s@);
            encode_utf8_decode_utf8(e0);
            assert(s@ == e0);
            assert(tail@ =~= rest_bytes);
        }
        let rest = StrList { bytes: tail, elems: Ghost(self.elems@.drop_first()) };
        Some((s, rest))
    }

    /// If the view is non-empty, returns its last element and a window over
    /// everything before it (that part's own trailing delimiter included);
    /// `None` exactly on the empty list. The last element's payload starts
    /// right after the previous delimiter, found by a backward scan.
    pub fn split_last(&self) -> (r: Option<(&'a str, StrList<'a>)>)
        requires
            self.wf(),
        ensures
            (match r {
                None => self@.len() == 0,
                Some((s, rest)) => {
                    &&& self@.len() > 0
                    &&& s@ == self@.last()
                    &&& rest@ == self@.drop_last()
                    &&& rest.wf()
                },
            }),
    {
        let n = self.bytes.len();
        if n == 0 {
            proof {
                lemma_pack_len_zero(self.elems@);
            }
            return None;
        }
        proof {
            lemma_pack_len_zero(self.elems@);
        }
        let ghost el = self.elems@.last();
        let ghost enc = encode_utf8(el);
        let ghost front = pack(self.elems@.drop_last());
        let ghost fl = front.len() as int;
        proof {
            lemma_pack_snoc(self.elems@);
            assert(self.bytes@ == front + unit_bytes(el));
            lemma_encode_utf8_no_delimiter(el);
            assert(forall|j: int| fl <= j < n - 1 ==> self.bytes@[j] != DELIMITER);
            lemma_pack_len_zero(self.elems@.drop_last());
            if self.elems@.drop_last().len() > 0 {
                lemma_pack_last_byte(self.elems@.drop_last());
                assert(self.bytes@[fl - 1] == front.last());
            }
        }
        let m = n - 1;
        let mut i: usize = m;
        while i > 0 && self.bytes[i - 1] != DELIMITER
            invariant
                fl <= i <= m,
                m == n - 1,
                n == self.bytes@.len(),
                fl + enc.len() == m,
                forall|j: int| fl <= j < m ==> self.bytes@[j] != DELIMITER,
                fl > 0 ==> self.bytes@[fl - 1] == DELIMITER,
            decreases i,
        {
            i = i - 1;
        }
        proof {
            if i > 0 {
                assert(self.bytes@[i - 1] == DELIMITER);
                assert(i - 1 < fl);
            }
            assert(i == fl);
        }
        let head = slice_subrange(self.bytes, i, m);
        let tail = slice_subrange(self.bytes, 0, i);
        proof {
            assert(head@ =~= enc);
            encode_utf8_valid_utf8(el);
        }
        let s = bytes_as_str(head);
        proof {
            encode_utf8_decode_utf8(s@);
            encode_utf8_decode_utf8(el);
            assert(s@ == el);
            assert(tail@ =~= front);
        }
        let rest = StrList { bytes: tail, elems: Ghost(self.elems@.drop_last()) };
        Some((s, rest))
    }

    /// The no-argument borrowed view: it denotes the empty list.
    pub fn empty() -> (r: StrList<'static>)
        ensures
            r.wf(),
            r@ == Seq::<Seq<char>>::empty(),
    {
        let bytes: &'static [u8] = &[];
        proof {
            assert(bytes@ =~= pack(Seq::<Seq<char>>::empty()));
        }
        StrList { bytes, elems: Ghost(Seq::empty()) }
    }

    /// Compares two views element-wise, as strings, in order: the first
    /// index at which the elements differ decides the result, and a strict
    /// prefix is smaller. This follows `list_lt`, not byte order of the
    /// packed buffers.
    pub fn compare(&self, other: &StrList<'_>) -> (r: Ordering)
        requires
            self.wf(),
            other.wf(),
        ensures
            (r == Ordering::Less <==> list_lt(self@, other@)),
            (r == Ordering::Equal <==> self@ == other@),
            (r == Ordering::Greater <==> list_lt(other@, self@)),
    {
        let mut x = *self;
        let mut y = *other;
        loop
            invariant
                x.wf(),
                y.wf(),
                (list_lt(self@, other@) <==> list_lt(x@, y@)),
                ((self@ == other@) <==> (x@ == y@)),
                (list_lt(other@, self@) <==> list_lt(y@, x@)),
            decreases x@.len(),
        {
            let rx = x.split_first();
            let ry = y.split_first();
            match (rx, ry) {
                (None, None) => {
                    proof {
                        assert(x@ =~= y@);
                        lemma_list_trichotomy(self@, other@);
                    }
                    return Ordering::Equal;
                },
                (None, Some(_)) => {
                    proof {
                        lemma_list_trichotomy(self@, other@);
                    }
                    return Ordering::Less;
                },
                (Some(_), None) => {
                    proof {
                        lemma_list_trichotomy(self@, other@);
                    }
                    return Ordering::Greater;
                },
                (Some((sx, xr)), Some((sy, yr))) => {
                    let c = str_compare(sx, sy);
                    match c {
                        Ordering::Equal => {
                            proof {
                                assert(x@[0] == y@[0]);
                                assert(list_lt(x@, y@) == list_lt(xr@, yr@));
                                assert(list_lt(y@, x@) == list_lt(yr@, xr@));
                                if xr@ == yr@ {
                                    assert forall|j: int| 0 <= j < x@.len() implies x@[j]
                                        == y@[j] by {
                                        if j > 0 {
                                            assert(x@[j] == x@.drop_first()[j - 1]);
                                            assert(y@[j] == y@.drop_first()[j - 1]);
                                        }
                                    }
                                    assert(x@ =~= y@);
                                }
                            }
                            x = xr;
                            y = yr;
                        },
                        Ordering::Less => {
                            proof {
                                assert(list_lt(x@, y@));
                                lemma_chars_trichotomy(sx@, sy@);
                                assert(!list_lt(y@, x@));
                                lemma_list_trichotomy(self@, other@);
                            }
                            return Ordering::Less;
                        },
                        Ordering::Greater => {
                            proof {
                                assert(list_lt(y@, x@));
                                lemma_chars_trichotomy(sx@, sy@);
                                assert(!list_lt(x@, y@));
                                lemma_list_trichotomy(self@, other@);
                            }
                            return Ordering::Greater;
                        },
                    }
                },
            }
        }
    }

    /// True exactly when the two views hold the same elements in the same
    /// order; packing being injective, that is also when their packed
    /// bytes are identical.
    pub fn equals(&self, other: &StrList<'_>) -> (r: bool)
        requires
            self.wf(),
            other.wf(),
        ensures
            r == (self@ == other@),
    {
        match self.compare(other) {
            Ordering::Equal => true,
            _ => false,
        }
    }

    /// Number of bytes in the window.
    pub fn byte_len(&self) -> (r: usize)
        requires
            self.wf(),
        ensures
            r == pack(self@).len(),
    {
        self.bytes.len()
    }

    /// A forward/backward cursor over the window's elements.
    pub fn iter(&self) -> (r: Iter<'a>)
        requires
            self.wf(),
        ensures
            r.wf(),
            r@ == self@,
    {
        Iter { inner: *self }
    }

    /// Copies the window's bytes into an independent owned buffer holding
    /// the same list.
    pub fn to_str_list_buf(&self) -> (r: StrListBuf)
        requires
            self.wf(),
        ensures
            r.wf(),
            r@ == self@,
    {
        StrListBuf { bytes: slice_to_vec(self.bytes), elems: self.elems }
    }
}

/// A forward/backward cursor over a borrowed view. Its only state is the
/// window of elements not yet yielded; each call from either end narrows
/// that window by one element.
pub struct Iter<'a> {
    inner: StrList<'a>,
}

impl<'a> View for Iter<'a> {
    type V = Seq<Seq<char>>;

    closed spec fn view(&self) -> Seq<Seq<char>> {
        self.inner@
    }
}

impl<'a> Iter<'a> {
    /// The remaining window satisfies the encoding invariant.
    pub closed spec fn wf(self) -> bool {
        self.inner.wf()
    }

    /// Yields the first remaining element, or `None` once the window is
    /// exhausted.
    pub fn next(&mut self) -> (r: Option<&'a str>)
        requires
            old(self).wf(),
        ensures
            final(self).wf(),
            (match r {
                None => old(self)@.len() == 0 && final(self)@ == old(self)@,
                Some(s) => {
                    &&& old(self)@.len() > 0
                    &&& s@ == old(self)@[0]
                    &&& final(self)@ == old(self)@.drop_first()
                },
            }),
    {
        match self.inner.split_first() {
            Some((s, rest)) => {
                self.inner = rest;
                Some(s)
            },
            None => None,
        }
    }

    /// Yields the last remaining element, or `None` once the window is
    /// exhausted.
    pub fn next_back(&mut self) -> (r: Option<&'a str>)
        requires
            old(self).wf(),
        ensures
            final(self).wf(),
            (match r {
                None => old(self)@.len() == 0 && final(self)@ == old(self)@,
                Some(s) => {
                    &&& old(self)@.len() > 0
                    &&& s@ == old(self)@.last()
                    &&& final(self)@ == old(self)@.drop_last()
                },
            }),
    {
        match self.inner.split_last() {
            Some((s, rest)) => {
                self.inner = rest;
                Some(s)
            },
            None => None,
        }
    }
}

/// Appends every byte of `src` to `dst`.
fn append_bytes(dst: &mut Vec<u8>, src: &[u8])
    ensures
        final(dst)@ == old(dst)@ + src@,
{
    let n = src.len();
    let mut i: usize = 0;
    while i < n
        invariant
            i <= n,
            n == src@.len(),
            dst@ == old(dst)@ + src@.take(i as int),
        decreases n - i,
    {
        dst.push(src[i]);
        proof {
            assert(old(dst)@ + src@.take(i as int) + seq![src@[i as int]] =~= old(dst)@
                + src@.take(i + 1));
        }
        i = i + 1;
    }
    proof {
        assert(src@.take(n as int) =~= src@);
    }
}

/// The error signalled when externally supplied bytes do not satisfy the
/// packed encoding invariant.
#[derive(Clone, Copy, Debug, PartialEq, Eq, Structural)]
pub struct MalformedEncoding;

/// A growable byte buffer that always satisfies the encoding invariant.
/// Mutation keeps the invariant; every read goes through a borrowed view
/// of the current bytes.
pub struct StrListBuf {
    bytes: Vec<u8>,
    elems: Ghost<Seq<Seq<char>>>,
}

impl View for StrListBuf {
    type V = Seq<Seq<char>>;

    closed spec fn view(&self) -> Seq<Seq<char>> {
        self.elems@
    }
}

impl StrListBuf {
    /// The buffer's bytes are exactly the packed form of its element list.
    pub closed spec fn wf(self) -> bool {
        self.bytes@ == pack(self.elems@)
    }

    /// An empty buffer.
    pub fn new() -> (r: StrListBuf)
        ensures
            r.wf(),
            r@ == Seq::<Seq<char>>::empty(),
    {
        StrListBuf { bytes: Vec::new(), elems: Ghost(Seq::empty()) }
    }

    /// An empty buffer with room reserved for `capacity` bytes. The
    /// capacity is a hint only; it does not affect the represented list.
    pub fn with_capacity(capacity: usize) -> (r: StrListBuf)
        ensures
            r.wf(),
            r@ == Seq::<Seq<char>>::empty(),
    {
        StrListBuf { bytes: Vec::with_capacity(capacity), elems: Ghost(Seq::empty()) }
    }

    /// A borrowed view over the buffer's current bytes, without copying.
    pub fn as_str_list(&self) -> (r: StrList<'_>)
        requires
            self.wf(),
        ensures
            r.wf(),
            r@ == self@,
    {
        StrList { bytes: self.bytes.as_slice(), elems: self.elems }
    }

    /// Appends one element: the value's UTF-8 bytes followed by the
    /// delimiter.
    pub fn push(&mut self, value: &str)
        requires
            old(self).wf(),
        ensures
            final(self).wf(),
            final(self)@ == old(self)@.push(value@),
    {
        append_bytes(&mut self.bytes, value.as_bytes());
        self.bytes.push(DELIMITER);
        proof {
            lemma_pack_push(self.elems@, value@);
        }
        self.elems = Ghost(self.elems@.push(value@));
        proof {
            assert(self.bytes@ =~= pack(self.elems@));
        }
    }

    /// Removes the last element if there is one, by locating the boundary
    /// of the remaining view and truncating the storage to it. Returns
    /// whether an element was removed; a no-op on the empty buffer.
    pub fn pop(&mut self) -> (r: bool)
        requires
            old(self).wf(),
        ensures
            final(self).wf(),
            r == (old(self)@.len() > 0),
            old(self)@.len() == 0 ==> final(self)@ == old(self)@,
            old(self)@.len() > 0 ==> final(self)@ == old(self)@.drop_last(),
    {
        let boundary: usize;
        match self.as_str_list().split_last() {
            None => {
                return false;
            },
            Some((_, rest)) => {
                boundary = rest.byte_len();
            },
        }
        proof {
            lemma_pack_snoc(self.elems@);
        }
        self.bytes.truncate(boundary);
        self.elems = Ghost(self.elems@.drop_last());
        proof {
            assert(self.bytes@ =~= pack(self.elems@));
        }
        true
    }

    /// Removes every element; the buffer becomes empty.
    pub fn clear(&mut self)
        ensures
            final(self).wf(),
            final(self)@ == Seq::<Seq<char>>::empty(),
    {
        self.bytes.clear();
        self.elems = Ghost(Seq::empty());
    }

    /// True exactly when the buffer holds no element, which is when it
    /// holds no byte.
    pub fn is_empty(&self) -> (r: bool)
        requires
            self.wf(),
        ensures
            r == (self@.len() == 0),
    {
        proof {
            lemma_pack_len_zero(self.elems@);
        }
        self.bytes.len() == 0
    }

    /// Appends every element of `values` in order; byte-identical to
    /// performing the pushes by hand.
    pub fn extend_from(&mut self, values: &Vec<String>)
        requires
            old(self).wf(),
        ensures
            final(self).wf(),
            final(self)@ == old(self)@ + values.deep_view(),
    {
        let n = values.len();
        let mut i: usize = 0;
        while i < n
            invariant
                i <= n,
                n == values@.len(),
                self.wf(),
                self@ == old(self)@ + values.deep_view().take(i as int),
            decreases n - i,
        {
            self.push(values[i].as_str());
            proof {
                assert((old(self)@ + values.deep_view().take(i as int)).push(
                    values@[i as int]@,
                ) =~= old(self)@ + values.deep_view().take(i + 1));
            }
            i = i + 1;
        }
        proof {
            assert(old(self)@ + values.deep_view().take(n as int) =~= old(self)@
                + values.deep_view());
        }
    }

    /// An independent owned buffer with identical bytes.
    pub fn to_owned_copy(&self) -> (r: StrListBuf)
        requires
            self.wf(),
        ensures
            r.wf(),
            r@ == self@,
    {
        self.as_str_list().to_str_list_buf()
    }

    /// Compares two buffers element-wise, as strings, in order.
    pub fn compare(&self, other: &StrListBuf) -> (r: Ordering)
        requires
            self.wf(),
            other.wf(),
        ensures
            (r == Ordering::Less <==> list_lt(self@, other@)),
            (r == Ordering::Equal <==> self@ == other@),
            (r == Ordering::Greater <==> list_lt(other@, self@)),
    {
        self.as_str_list().compare(&other.as_str_list())
    }

    /// True exactly when the two buffers hold the same elements in the
    /// same order.
    pub fn equals(&self, other: &StrListBuf) -> (r: bool)
        requires
            self.wf(),
            other.wf(),
        ensures
            r == (self@ == other@),
    {
        self.as_str_list().equals(&other.as_str_list())
    }

    /// Consumes the buffer and re-tags its storage as a fixed, read-only
    /// view. The bytes are moved, not copied.
    pub fn into_boxed_str_list(self) -> (r: BoxedStrList)
        requires
            self.wf(),
        ensures
            r.wf(),
            r@ == self@,
    {
        BoxedStrList { bytes: self.bytes, elems: self.elems }
    }

    /// Wraps externally supplied bytes as a buffer, after a one-time
    /// validation scan: it succeeds exactly when the bytes are a valid
    /// concatenation of UTF-8-payload-plus-delimiter units, and signals
    /// `MalformedEncoding` otherwise (a payload that is not UTF-8, or
    /// trailing data after the last delimiter).
    pub fn from_bytes(bytes: Vec<u8>) -> (r: Result<StrListBuf, MalformedEncoding>)
        ensures
            (r is Ok <==> well_formed_bytes(bytes@)),
            (match r {
                Ok(b) => b.wf() && pack(b@) == bytes@,
                Err(_) => !well_formed_bytes(bytes@),
            }),
    {
        let n = bytes.len();
        let ghost mut elems: Seq<Seq<char>> = Seq::empty();
        let mut i: usize = 0;
        proof {
            assert(bytes@.skip(0) =~= bytes@);
        }
        while i < n
            invariant
                i <= n,
                n == bytes@.len(),
                pack(elems) == bytes@.take(i as int),
                (well_formed_bytes(bytes@) <==> well_formed_bytes(bytes@.skip(i as int))),
            decreases n - i,
        {
            let mut j: usize = i;
            while j < n && bytes[j] != DELIMITER
                invariant
                    i <= j <= n,
                    n == bytes@.len(),
                    forall|k: int| i <= k < j ==> bytes@[k] != DELIMITER,
                decreases n - j,
            {
                j = j + 1;
            }
            let ghost tail = bytes@.skip(i as int);
            proof {
                assert(forall|k: int| 0 <= k < tail.len() ==> tail[k] == bytes@[i + k]);
            }
            if j == n {
                proof {
                    lemma_first_delim_none(tail);
                    assert(!well_formed_bytes(tail));
                }
                return Err(MalformedEncoding);
            }
            proof {
                assert(tail[j - i] == DELIMITER);
                lemma_first_delim_at(tail, j - i);
            }
            let seg = slice_subrange(bytes.as_slice(), i, j);
            proof {
                assert(seg@ =~= tail.take(j - i));
            }
            match try_bytes_as_str(seg) {
                None => {
                    proof {
                        assert(!well_formed_bytes(tail));
                    }
                    return Err(MalformedEncoding);
                },
                Some(s) => {
                    proof {
                        assert(well_formed_bytes(tail) == well_formed_bytes(
                            bytes@.skip(i as int).skip(j - i + 1int),
                        ));
                        assert(tail.skip(j - i + 1int) =~= bytes@.skip(j + 1int));
                        lemma_pack_push(elems, s@);
                        assert(pack(elems.push(s@)) =~= bytes@.take(j + 1int));
                        elems = elems.push(s@);
                    }
                    i = j + 1;
                },
            }
        }
        proof {
            assert(bytes@.take(n as int) =~= bytes@);
            assert(bytes@.skip(n as int) =~= Seq::<u8>::empty());
        }
        Ok(StrListBuf { bytes, elems: Ghost(elems) })
    }

    /// Builds a buffer by pushing every element of `values` in order;
    /// byte-identical to performing the pushes by hand.
    pub fn from_strs(values: &Vec<String>) -> (r: StrListBuf)
        ensures
            r.wf(),
            r@ == values.deep_view(),
    {
        let mut result = StrListBuf::new();
        let n = values.len();
        let mut i: usize = 0;
        while i < n
            invariant
                i <= n,
                n == values@.len(),
                result.wf(),
                result@ == values.deep_view().take(i as int),
            decreases n - i,
        {
            result.push(values[i].as_str());
            proof {
                assert(values.deep_view().take(i as int).push(values@[i as int]@)
                    =~= values.deep_view().take(i + 1));
            }
            i = i + 1;
        }
        proof {
            assert(values.deep_view().take(n as int) =~= values.deep_view());
        }
        result
    }
}

impl Default for StrListBuf {
    /// The default buffer holds the empty list.
    fn default() -> (r: StrListBuf)
        ensures
            r.wf(),
            r@ == Seq::<Seq<char>>::empty(),
    {
        StrListBuf::new()
    }
}

/// An independently owned, fixed view over packed bytes: the same storage
/// a buffer holds, re-tagged as read-only. It offers no mutation; reads go
/// through a borrowed view, and a fresh growable buffer can be copied out.
pub struct BoxedStrList {
    bytes: Vec<u8>,
    elems: Ghost<Seq<Seq<char>>>,
}

impl View for BoxedStrList {
    type V = Seq<Seq<char>>;

    closed spec fn view(&self) -> Seq<Seq<char>> {
        self.elems@
    }
}

impl BoxedStrList {
    /// The view's bytes are exactly the packed form of its element list.
    pub closed spec fn wf(self) -> bool {
        self.bytes@ == pack(self.elems@)
    }

    /// A borrowed view over the fixed bytes, without copying.
    pub fn as_str_list(&self) -> (r: StrList<'_>)
        requires
            self.wf(),
        ensures
            r.wf(),
            r@ == self@,
    {
        StrList { bytes: self.bytes.as_slice(), elems: self.elems }
    }

    /// Copies the fixed bytes back into an independent growable buffer
    /// holding the same list.
    pub fn to_str_list_buf(&self) -> (r: StrListBuf)
        requires
            self.wf(),
        ensures
            r.wf(),
            r@ == self@,
    {
        self.as_str_list().to_str_list_buf()
    }
}

} // verus!
