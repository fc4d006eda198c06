//! Arrays: one element type, then the elements back to back.

use crate::buf::{bytes_as_slice, bytes_contents, is_tail, lemma_tails_of_tail, BytesRef};
use crate::error::{ParseError, ParseErrorKind, ParseResult, WriteErrorKind, WriteResult};
use crate::parse::parse_value_for_typeid;
use crate::scalars::{append_bytes, too_large};
use crate::traits::{
    add_lengths, clamp_length, decoded, lemma_prefix_of_sum, lemma_prefixes_of_prefix, roundtrips,
    Relish,
};
use crate::type_id::TypeId;
use crate::varint::{
    lemma_varint_size, tagged_varint_length_size, varint_bytes, write_tagged_varint_length,
};
use crate::wire::{fits, frame, framed, lemma_frame_framed, type_byte};
use vstd::prelude::*;

verus! {

/// The payloads of the elements, back to back.
pub open spec fn elements_bytes<T: Relish>(s: Seq<T>) -> Seq<u8>
    decreases s.len(),
{
    if s.len() == 0 {
        Seq::empty()
    } else {
        elements_bytes(s.drop_last()) + framed(T::TYPE, s.last().content())
    }
}

/// The reason why the first element that cannot be written cannot be, if
/// there is such an element.
pub open spec fn elements_write_error<T: Relish>(s: Seq<T>) -> Option<WriteErrorKind>
    decreases s.len(),
{
    if s.len() == 0 {
        None
    } else {
        match elements_write_error(s.drop_last()) {
            Some(e) => Some(e),
            None => s.last().write_error(),
        }
    }
}

/// The contents of the values of type `t` that lie back to back in `s`,
/// as far as they can be carved off.
pub open spec fn element_frames(t: TypeId, s: Seq<u8>) -> Seq<Seq<u8>>
    decreases s.len(),
{
    if s.len() == 0 {
        Seq::empty()
    } else {
        match frame(t, s) {
            Err(_) => Seq::empty(),
            Ok((content, rest)) => if rest.len() >= s.len() {
                Seq::empty()
            } else {
                seq![content] + element_frames(t, rest)
            },
        }
    }
}

/// The first error on the way through the elements that lie back to back
/// in `s`, if there is one: a value that cannot be carved off, a content
/// that is no `T`, or bytes that values of size zero can never use up.
pub open spec fn elements_error<T: Relish>(s: Seq<u8>) -> Option<ParseErrorKind>
    decreases s.len(),
{
    if s.len() == 0 {
        None
    } else {
        match frame(T::TYPE, s) {
            Err(e) => Some(e),
            Ok((content, rest)) => match T::parse_error(content) {
                Some(e) => Some(e),
                None => if rest.len() >= s.len() {
                    Some(ParseErrorKind::ExtraData { bytes_remaining: rest.len() as usize })
                } else {
                    elements_error::<T>(rest)
                },
            },
        }
    }
}

/// The length of the content of an array with these elements.
pub open spec fn array_content_length<T: Relish>(s: Seq<T>) -> nat {
    1 + elements_bytes(s).len()
}

/// The content length of an array, with the greatest `usize` for every
/// length beyond it.
pub fn array_content_size<T: Relish>(elements: &Vec<T>) -> (n: usize)
    ensures
        T::obeys_wire_spec() ==> n == clamp_length(array_content_length(elements@)),
{
    let mut content_size: usize = 1;
    let mut i: usize = 0;
    while i < elements.len()
        invariant
            i <= elements.len(),
            T::obeys_wire_spec() ==> content_size == clamp_length(
                array_content_length(elements@.take(i as int)),
            ),
        decreases elements.len() - i,
    {
        let size = elements[i].value_length();
        proof {
            assert(elements@.take(i + 1).drop_last() =~= elements@.take(i as int));
        }
        content_size = add_lengths(content_size, size);
        i = i + 1;
    }
    proof {
        assert(elements@.take(elements.len() as int) =~= elements@);
    }
    content_size
}

/// An array: the type byte of its elements, then their payloads.
impl<T: Relish> Relish for Vec<T> {
    const TYPE: TypeId = TypeId::Array;

    open spec fn obeys_wire_spec() -> bool {
        T::obeys_wire_spec()
    }

    open spec fn content(&self) -> Seq<u8> {
        seq![T::TYPE.code()] + elements_bytes(self@)
    }

    open spec fn write_error(&self) -> Option<WriteErrorKind> {
        match too_large(array_content_length(self@)) {
            Some(e) => Some(e),
            None => elements_write_error(self@),
        }
    }

    open spec fn parse_error(content: Seq<u8>) -> Option<ParseErrorKind> {
        match type_byte(T::TYPE, content) {
            Err(e) => Some(e),
            Ok(rest) => elements_error::<T>(rest),
        }
    }

    open spec fn parsed(content: Seq<u8>, value: &Self) -> bool {
        let frames = element_frames(T::TYPE, content.skip(1));
        &&& value@.len() == frames.len()
        &&& forall|i: int| 0 <= i < frames.len() ==> T::parsed(frames[i], &#[trigger] value@[i])
    }

    fn parse_value(data: &mut BytesRef) -> (r: ParseResult<Self>) {
        let elem_type = TypeId::read_for_type::<T>(data)?;
        let ghost start = data@;
        let ghost mut done: Seq<Seq<u8>> = Seq::empty();
        let mut elements: Vec<T> = Vec::new();
        proof {
            assert(old(data)@.skip(1) =~= start);
            assert(done + element_frames(T::TYPE, data@) =~= element_frames(T::TYPE, start));
        }
        while !data.is_empty()
            invariant
                elem_type == T::TYPE,
                type_byte(T::TYPE, old(data)@) == Ok::<Seq<u8>, ParseErrorKind>(start),
                old(data)@.skip(1) == start,
                is_tail(data@, old(data)@),
                T::obeys_wire_spec() ==> elements_error::<T>(start) == elements_error::<T>(data@),
                element_frames(T::TYPE, start) == done + element_frames(T::TYPE, data@),
                done.len() == elements@.len(),
                T::obeys_wire_spec() ==> forall|i: int|
                    0 <= i < done.len() ==> T::parsed(done[i], &#[trigger] elements@[i]),
            decreases data@.len(),
        {
            let before = data.len();
            let ghost here = data@;
            proof {
                lemma_tails_of_tail(here, old(data)@);
            }
            let elem = parse_value_for_typeid::<T>(data, elem_type)?;
            if data.len() >= before {
                return Err(
                    ParseError::new(ParseErrorKind::ExtraData { bytes_remaining: data.len() }),
                );
            }
            elements.push(elem);
            proof {
                let content = frame(T::TYPE, here)->Ok_0.0;
                assert(done.push(content) + element_frames(T::TYPE, data@) =~= done + (
                seq![content] + element_frames(T::TYPE, data@)));
                done = done.push(content);
            }
        }
        proof {
            assert(done + Seq::<Seq<u8>>::empty() =~= done);
        }
        Ok(elements)
    }

    fn write_value(&self, buffer: &mut Vec<u8>) -> (r: WriteResult<()>) {
        let content_len = array_content_size(self);
        write_tagged_varint_length(buffer, content_len)?;
        buffer.push(T::TYPE.to_byte());
        let ghost head = old(buffer)@ + varint_bytes(array_content_length(self@)) + seq![
            T::TYPE.code(),
        ];
        let mut i: usize = 0;
        proof {
            assert(head + elements_bytes(self@.take(0)) =~= head);
            lemma_prefix_of_sum(
                old(buffer)@,
                varint_bytes(array_content_length(self@)) + seq![T::TYPE.code()],
            );
            assert(head =~= old(buffer)@ + (varint_bytes(array_content_length(self@)) + seq![
                T::TYPE.code(),
            ]));
        }
        while i < self.len()
            invariant
                i <= self.len(),
                T::obeys_wire_spec() ==> old(buffer)@.is_prefix_of(buffer@),
                T::obeys_wire_spec() ==> {
                    &&& too_large(array_content_length(self@)) is None
                    &&& elements_write_error(self@.take(i as int)) is None
                    &&& buffer@ == head + elements_bytes(self@.take(i as int))
                },
            decreases self.len() - i,
        {
            let ghost here = buffer@;
            proof {
                assert(self@.take(i + 1).drop_last() =~= self@.take(i as int));
                lemma_write_error_prefix(self@, i + 1);
                if T::obeys_wire_spec() {
                    lemma_prefixes_of_prefix(old(buffer)@, here);
                }
            }
            self[i].write_value(buffer)?;
            proof {
                if T::obeys_wire_spec() {
                    assert(buffer@ =~= head + elements_bytes(self@.take(i + 1)));
                }
            }
            i = i + 1;
        }
        proof {
            assert(self@.take(self.len() as int) =~= self@);
            if T::obeys_wire_spec() {
                assert(buffer@ =~= old(buffer)@ + framed(Self::TYPE, self.content()));
            }
        }
        Ok(())
    }

    fn value_length(&self) -> (n: usize) {
        let content_size = array_content_size(self);
        proof {
            lemma_varint_size(array_content_length(self@));
        }
        add_lengths(tagged_varint_length_size(content_size), content_size)
    }
}

/// A byte container: an array of `u8`, decoded without copying. Its
/// encoding is that of a vector of the same bytes.
impl Relish for bytes::Bytes {
    const TYPE: TypeId = TypeId::Array;

    open spec fn obeys_wire_spec() -> bool {
        true
    }

    open spec fn content(&self) -> Seq<u8> {
        seq![TypeId::U8.code()] + bytes_contents(*self)
    }

    open spec fn write_error(&self) -> Option<WriteErrorKind> {
        too_large(1 + bytes_contents(*self).len())
    }

    open spec fn parse_error(content: Seq<u8>) -> Option<ParseErrorKind> {
        match type_byte(TypeId::U8, content) {
            Err(e) => Some(e),
            Ok(_) => None,
        }
    }

    open spec fn parsed(content: Seq<u8>, value: &Self) -> bool {
        bytes_contents(*value) == content.skip(1)
    }

    fn parse_value(data: &mut BytesRef) -> (r: ParseResult<Self>) {
        crate::wire::expect_type_id(data, TypeId::U8)?;
        Ok(data.to_bytes())
    }

    fn write_value(&self, buffer: &mut Vec<u8>) -> (r: WriteResult<()>) {
        let bytes = bytes_as_slice(self);
        let content_len = add_lengths(1, bytes.len());
        write_tagged_varint_length(buffer, content_len)?;
        buffer.reserve(content_len);
        buffer.push(TypeId::U8.to_byte());
        append_bytes(buffer, bytes);
        proof {
            assert(buffer@ =~= old(buffer)@ + framed(Self::TYPE, self.content()));
        }
        Ok(())
    }

    fn value_length(&self) -> (n: usize) {
        let content_size = add_lengths(1, bytes_as_slice(self).len());
        proof {
            lemma_varint_size(1 + bytes_contents(*self).len());
        }
        add_lengths(tagged_varint_length_size(content_size), content_size)
    }
}

/// The payloads of bytes, back to back, are the bytes.
pub proof fn lemma_elements_bytes_of_bytes(s: Seq<u8>)
    ensures
        elements_bytes(s) == s,
    decreases s.len(),
{
    if s.len() > 0 {
        lemma_elements_bytes_of_bytes(s.drop_last());
        let last = s.last();
        reveal_with_fuel(crate::le::le_bytes, 2);
        assert(crate::le::le_bytes(last as nat, 1) =~= seq![last]);
        crate::integers::lemma_integer_wire_types();
        assert(last.content() == seq![last]);
        assert(framed(<u8 as Relish>::TYPE, last.content()) == seq![last]);
        assert(elements_bytes(s) =~= s.drop_last().push(last));
        assert(s.drop_last().push(s.last()) =~= s);
    } else {
        assert(elements_bytes(s) =~= s);
    }
}

/// A byte container and a vector that hold the same bytes have the same
/// content on the wire.
pub proof fn lemma_bytes_as_vec(b: bytes::Bytes, v: Vec<u8>)
    requires
        bytes_contents(b) == v@,
    ensures
        b.content() == v.content(),
        b.write_error() == v.write_error(),
{
    lemma_elements_bytes_of_bytes(v@);
    crate::integers::lemma_integer_wire_types();
    lemma_array_wire_types::<u8>();
    lemma_no_write_error_of_bytes(v@);
}

/// The wire type of a vector and of a byte container.
pub proof fn lemma_array_wire_types<T: Relish>()
    ensures
        <Vec<T> as Relish>::TYPE == TypeId::Array,
        <bytes::Bytes as Relish>::TYPE == TypeId::Array,
{
}

/// Every byte can be written.
proof fn lemma_no_write_error_of_bytes(s: Seq<u8>)
    ensures
        elements_write_error(s) is None,
    decreases s.len(),
{
    if s.len() > 0 {
        lemma_no_write_error_of_bytes(s.drop_last());
    }
}

/// The payloads of the elements are the payload of the first, then the
/// payloads of the others.
pub proof fn lemma_elements_bytes_front<T: Relish>(s: Seq<T>)
    requires
        s.len() > 0,
    ensures
        elements_bytes(s) == framed(T::TYPE, s[0].content()) + elements_bytes(s.skip(1)),
    decreases s.len(),
{
    if s.len() == 1 {
        assert(s.drop_last() =~= Seq::<T>::empty());
        assert(s.skip(1) =~= Seq::<T>::empty());
        assert(elements_bytes(s) =~= framed(T::TYPE, s[0].content()) + elements_bytes(
            s.skip(1),
        ));
    } else {
        lemma_elements_bytes_front(s.drop_last());
        assert(s.drop_last().skip(1) =~= s.skip(1).drop_last());
        assert(s.drop_last()[0] == s[0]);
        assert(s.skip(1).last() == s.last());
        assert(elements_bytes(s) =~= framed(T::TYPE, s[0].content()) + elements_bytes(
            s.skip(1),
        ));
    }
}

/// Elements that can all be written are free of write errors as a run.
pub proof fn lemma_elements_write_error_none<T: Relish>(s: Seq<T>)
    ensures
        elements_write_error(s) is None <==> forall|i: int|
            0 <= i < s.len() ==> (#[trigger] s[i]).write_error() is None,
    decreases s.len(),
{
    if s.len() > 0 {
        lemma_elements_write_error_none(s.drop_last());
        if elements_write_error(s) is None {
            assert forall|i: int| 0 <= i < s.len() implies (#[trigger] s[i]).write_error()
                is None by {
                if i < s.len() - 1 {
                    assert(s.drop_last()[i] == s[i]);
                }
            }
        } else {
            if elements_write_error(s.drop_last()) is Some {
                let i = choose|i: int|
                    0 <= i < s.drop_last().len() && (#[trigger] s.drop_last()[i]).write_error()
                        is Some;
                assert(s[i] == s.drop_last()[i]);
            }
        }
    }
}

/// A payload takes bytes unless its type is null.
pub proof fn lemma_framed_nonempty(t: TypeId, content: Seq<u8>)
    requires
        fits(t, content),
        t != TypeId::Null,
    ensures
        framed(t, content).len() > 0,
{
    if t.length() is Varsize {
        lemma_varint_size(content.len());
    }
}

/// Elements that decoding undoes encoding at, laid out back to back, are
/// carved off and decoded one by one without error.
pub proof fn lemma_elements_decode<T: Relish>(s: Seq<T>)
    requires
        T::TYPE != TypeId::Null,
        forall|i: int|
            0 <= i < s.len() ==> (#[trigger] s[i]).write_error() is None && roundtrips(s[i]),
    ensures
        elements_error::<T>(elements_bytes(s)) is None,
        element_frames(T::TYPE, elements_bytes(s)).len() == s.len(),
        forall|i: int|
            0 <= i < s.len() ==> #[trigger] element_frames(T::TYPE, elements_bytes(s))[i]
                == s[i].content(),
    decreases s.len(),
{
    if s.len() > 0 {
        let first = s[0].content();
        let tail = s.skip(1);
        let rest = elements_bytes(tail);
        lemma_elements_bytes_front(s);
        assert(roundtrips(s[0]));
        lemma_frame_framed(T::TYPE, first, rest);
        lemma_framed_nonempty(T::TYPE, first);
        assert forall|i: int| 0 <= i < tail.len() implies (#[trigger] tail[i]).write_error()
            is None && roundtrips(tail[i]) by {
            assert(tail[i] == s[i + 1]);
        }
        lemma_elements_decode(tail);
        let frames = element_frames(T::TYPE, elements_bytes(s));
        assert(frames =~= seq![first] + element_frames(T::TYPE, rest));
        assert forall|i: int| 0 <= i < s.len() implies #[trigger] frames[i]
            == s[i].content() by {
            if i > 0 {
                assert(frames[i] == element_frames(T::TYPE, rest)[i - 1]);
                assert(tail[i - 1] == s[i]);
            }
        }
    }
}

/// Decoding undoes encoding at a vector whose elements it undoes encoding
/// at. The elements must not be of the null type: a run of nulls takes no
/// bytes, so that no decoder can tell how many there were.
pub proof fn lemma_vec_roundtrips<T: Relish>(v: Vec<T>)
    requires
        T::TYPE != TypeId::Null,
        forall|i: int| 0 <= i < v@.len() ==> roundtrips(#[trigger] v@[i]),
    ensures
        roundtrips(v),
{
    if v.write_error() is None {
        lemma_elements_write_error_none(v@);
        lemma_elements_decode(v@);
        let content = v.content();
        let rest = elements_bytes(v@);
        T::TYPE.lemma_code_of_byte(content[0]);
        assert(content.skip(1) =~= rest);
        assert(content[0] == T::TYPE.code());
        let frames = element_frames(T::TYPE, rest);
        assert forall|i: int| 0 <= i < frames.len() implies T::parsed(
            frames[i],
            &#[trigger] v@[i],
        ) by {
            assert(roundtrips(v@[i]));
            assert(frames[i] == v@[i].content());
        }
    }
}

/// Decoding undoes encoding at every byte container.
pub proof fn lemma_bytes_roundtrips(b: bytes::Bytes)
    ensures
        roundtrips(b),
{
    if b.write_error() is None {
        let content = b.content();
        TypeId::U8.lemma_code_of_byte(content[0]);
        assert(content.skip(1) =~= bytes_contents(b));
    }
}

/// An element that cannot be written makes every longer run of elements
/// unwritable, for the same reason unless an earlier element gave one.
pub proof fn lemma_write_error_prefix<T: Relish>(s: Seq<T>, n: int)
    requires
        0 <= n <= s.len(),
    ensures
        elements_write_error(s.take(n)) matches Some(e) ==> elements_write_error(s) == Some(e),
    decreases s.len() - n,
{
    if n < s.len() {
        assert(s.take(n + 1).drop_last() =~= s.take(n));
        lemma_write_error_prefix(s, n + 1);
    } else {
        assert(s.take(n) =~= s);
    }
}

} // verus!
