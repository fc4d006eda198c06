//! The buffer reader: a cursor over a shared, immutable byte container.

use crate::error::{ParseError, ParseErrorKind, ParseResult};
use vstd::prelude::*;

verus! {

/// The reference-counted byte container of the `bytes` crate. Verus sees
/// nothing inside it; its contents are named by [`bytes_contents`].
#[verifier::external_type_specification]
#[verifier::external_body]
pub struct ExBytes(bytes::Bytes);

/// The bytes that a container holds, first to last.
pub uninterp spec fn bytes_contents(b: bytes::Bytes) -> Seq<u8>;

/// `Bytes::as_ref`: the container's bytes as a slice. Trusted: the slice
/// holds exactly the contents of the container.
#[verifier::external_body]
pub(crate) fn bytes_as_slice(b: &bytes::Bytes) -> (s: &[u8])
    ensures
        s@ == bytes_contents(*b),
{
    b.as_ref()
}

/// `Bytes::slice`: a handle that shares the container's memory and covers
/// the bytes from `begin` up to `end`. Trusted: the handle holds that
/// subrange. The call panics unless `begin <= end <= len`, which the
/// precondition demands.
#[verifier::external_body]
pub(crate) fn bytes_slice(b: &bytes::Bytes, begin: usize, end: usize) -> (r: bytes::Bytes)
    requires
        begin <= end <= bytes_contents(*b).len(),
    ensures
        bytes_contents(r) == bytes_contents(*b).subrange(begin as int, end as int),
{
    b.slice(begin..end)
}

/// `Bytes::from` on a vector: a container that takes the vector's bytes
/// over. Trusted: the container holds what the vector held.
#[verifier::external_body]
pub(crate) fn bytes_from_vec(v: Vec<u8>) -> (r: bytes::Bytes)
    ensures
        bytes_contents(r) == v@,
{
    bytes::Bytes::from(v)
}

/// Whether `rest` is what is left of `whole` when bytes are taken off its
/// front.
pub open spec fn is_tail(rest: Seq<u8>, whole: Seq<u8>) -> bool {
    rest.len() <= whole.len() && rest == whole.skip(whole.len() - rest.len())
}

/// Everything is a tail of itself, and what is left behind some bytes is
/// one.
pub proof fn lemma_tail_of_skip(whole: Seq<u8>, n: int)
    requires
        0 <= n <= whole.len(),
    ensures
        is_tail(whole.skip(n), whole),
        is_tail(whole, whole),
{
    assert(whole.skip(0) =~= whole);
}

/// A tail of a tail is a tail.
pub proof fn lemma_tail_of_tail(rest: Seq<u8>, middle: Seq<u8>, whole: Seq<u8>)
    requires
        is_tail(rest, middle),
        is_tail(middle, whole),
    ensures
        is_tail(rest, whole),
{
    assert(whole.skip(whole.len() - middle.len()).skip(middle.len() - rest.len()) =~= whole.skip(
        whole.len() - rest.len(),
    ));
}

/// Every tail of a tail is a tail of the whole.
pub proof fn lemma_tails_of_tail(middle: Seq<u8>, whole: Seq<u8>)
    requires
        is_tail(middle, whole),
    ensures
        forall|rest: Seq<u8>| #[trigger] is_tail(rest, middle) ==> is_tail(rest, whole),
{
    assert forall|rest: Seq<u8>| #[trigger] is_tail(rest, middle) implies is_tail(rest, whole) by {
        lemma_tail_of_tail(rest, middle, whole);
    }
}

/// A cursor over the bytes of a container. It borrows the container and
/// never changes it; reading carves sub-readers off its front.
///
/// Its view is the sequence of bytes not yet read.
pub struct BytesRef<'a> {
    b: &'a bytes::Bytes,
    data: &'a [u8],
    start: usize,
}

impl<'a> View for BytesRef<'a> {
    type V = Seq<u8>;

    closed spec fn view(&self) -> Seq<u8> {
        self.data@
    }
}

impl<'a> BytesRef<'a> {
    /// The unread bytes are a window of the container that starts at `start`.
    #[verifier::type_invariant]
    spec fn window(self) -> bool {
        &&& self.start + self.data@.len() <= bytes_contents(*self.b).len() <= usize::MAX
        &&& self.data@ == bytes_contents(*self.b).subrange(
            self.start as int,
            self.start + self.data@.len(),
        )
    }

    /// A cursor at the front of `b`.
    pub fn new(b: &'a bytes::Bytes) -> (r: Self)
        ensures
            r@ == bytes_contents(*b),
    {
        let data = bytes_as_slice(b);
        let ghost n = data.len();
        proof {
            assert(data@.len() == n);
            assert(data@ =~= bytes_contents(*b).subrange(0, data@.len() as int));
        }
        BytesRef { b, data, start: 0 }
    }

    /// How many bytes are left.
    pub fn len(&self) -> (n: usize)
        ensures
            n == self@.len(),
    {
        self.data.len()
    }

    /// Whether no byte is left.
    pub fn is_empty(&self) -> (e: bool)
        ensures
            e <==> self@.len() == 0,
    {
        self.data.len() == 0
    }

    /// The bytes that are left, as a slice.
    pub fn as_slice(&self) -> (s: &'a [u8])
        ensures
            s@ == self@,
    {
        self.data
    }

    /// The next byte, without reading it; `None` when nothing is left.
    pub fn peek_byte(&self) -> (b: Option<u8>)
        ensures
            b == (if self@.len() == 0 {
                None
            } else {
                Some(self@[0])
            }),
    {
        if self.data.len() == 0 {
            None
        } else {
            Some(self.data[0])
        }
    }

    /// Carves the next `amt` bytes off the front and returns a reader over
    /// them. With fewer than `amt` bytes left nothing is read and the error
    /// says how many were asked for and how many there are.
    pub fn read(&mut self, amt: usize) -> (r: ParseResult<Self>)
        ensures
            match r {
                Ok(head) => {
                    &&& amt <= old(self)@.len()
                    &&& head@ == old(self)@.subrange(0, amt as int)
                    &&& final(self)@ == old(self)@.skip(amt as int)
                },
                Err(e) => {
                    &&& amt > old(self)@.len()
                    &&& *e.kind() == (ParseErrorKind::InsufficientData {
                        needed: amt,
                        available: old(self)@.len() as usize,
                    })
                    &&& final(self)@ == old(self)@
                },
            },
    {
        proof {
            use_type_invariant(&*self);
        }
        if amt > self.data.len() {
            return Err(
                ParseError::new(
                    ParseErrorKind::InsufficientData { needed: amt, available: self.data.len() },
                ),
            );
        }
        let (head, tail) = self.data.split_at(amt);
        let ghost whole = bytes_contents(*self.b);
        let ghost from = self.start as int;
        proof {
            assert(head@ =~= whole.subrange(from, from + amt));
            assert(tail@ =~= whole.subrange(from + amt, from + amt + tail@.len()));
            assert(tail@ =~= self.data@.skip(amt as int));
        }
        let result = BytesRef { b: self.b, data: head, start: self.start };
        *self = BytesRef { b: self.b, data: tail, start: self.start + amt };
        Ok(result)
    }

    /// Carves everything that is left off the front and returns a reader
    /// over it.
    pub fn take_all(&mut self) -> (r: Self)
        ensures
            r@ == old(self)@,
            final(self)@.len() == 0,
    {
        proof {
            use_type_invariant(&*self);
        }
        let n = self.data.len();
        let (head, tail) = self.data.split_at(n);
        let ghost whole = bytes_contents(*self.b);
        let ghost from = self.start as int;
        proof {
            assert(head@ =~= self.data@);
            assert(tail@ =~= whole.subrange(from + n, from + n + tail@.len()));
        }
        let result = BytesRef { b: self.b, data: head, start: self.start };
        *self = BytesRef { b: self.b, data: tail, start: self.start + n };
        result
    }

    /// A handle on the bytes that are left, sharing the container's memory.
    pub fn to_bytes(&self) -> (r: bytes::Bytes)
        ensures
            bytes_contents(r) == self@,
    {
        proof {
            use_type_invariant(self);
        }
        bytes_slice(self.b, self.start, self.start + self.data.len())
    }
}

impl std::ops::Deref for BytesRef<'_> {
    type Target = [u8];

    /// The bytes that are left, as a slice.
    fn deref(&self) -> (s: &[u8])
        ensures
            s@ == self@,
    {
        self.data
    }
}

} // verus!
