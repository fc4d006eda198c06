//! Dictionaries: a key type and a value type, then the pairs back to back.
//! No key may occur twice.

use crate::buf::{is_tail, lemma_tails_of_tail, BytesRef};
use crate::error::{ParseError, ParseErrorKind, ParseResult, WriteErrorKind, WriteResult};
use crate::parse::parse_value_for_typeid;
use crate::scalars::too_large;
use crate::traits::{add_lengths, clamp_length, decoded, roundtrips, Relish};
use crate::type_id::TypeId;
use crate::value::entry_frames;
use crate::varint::{
    lemma_varint_size, tagged_varint_length_size, varint_bytes, write_tagged_varint_length,
};
use crate::wire::{frame, framed, lemma_frame_parts, type_byte};
use std::collections::HashMap;
use std::hash::{BuildHasher, Hash};
use vstd::prelude::*;
use vstd::std_specs::hash::{builds_valid_hashers, obeys_key_model, spec_hash_map_iter};
use vstd::std_specs::iter::VerusForLoopWrapper;

verus! {

/// The pairs of a dictionary in the order in which it hands them out.
pub open spec fn dict_pairs<K, V, S>(m: &HashMap<K, V, S>) -> Seq<(K, V)> {
    vstd::std_specs::hash::into_iter(spec_hash_map_iter(m))
}

/// The payloads of the keys and values of the pairs, back to back.
pub open spec fn pairs_bytes<K: Relish, V: Relish>(s: Seq<(K, V)>) -> Seq<u8>
    decreases s.len(),
{
    if s.len() == 0 {
        Seq::empty()
    } else {
        pairs_bytes(s.drop_last()) + framed(K::TYPE, s.last().0.content()) + framed(
            V::TYPE,
            s.last().1.content(),
        )
    }
}

/// The reason why the first key or value that cannot be written cannot
/// be, if there is one.
pub open spec fn pairs_write_error<K: Relish, V: Relish>(s: Seq<(K, V)>) -> Option<
    WriteErrorKind,
>
    decreases s.len(),
{
    if s.len() == 0 {
        None
    } else {
        match pairs_write_error(s.drop_last()) {
            Some(e) => Some(e),
            None => match s.last().0.write_error() {
                Some(e) => Some(e),
                None => s.last().1.write_error(),
            },
        }
    }
}

/// The length of the content of a dictionary with these pairs.
pub open spec fn dict_content_length<K: Relish, V: Relish>(s: Seq<(K, V)>) -> nat {
    2 + pairs_bytes(s).len()
}

/// Whether two contents decode to one and the same key.
pub open spec fn same_key<K: Relish>(a: Seq<u8>, b: Seq<u8>) -> bool {
    exists|k: K| #[trigger] K::parsed(a, &k) && K::parsed(b, &k)
}

/// Whether a content decodes to a key that one of the contents seen
/// before decodes to.
pub open spec fn key_seen<K: Relish>(seen: Seq<Seq<u8>>, key: Seq<u8>) -> bool {
    exists|i: int| 0 <= i < seen.len() && same_key::<K>(#[trigger] seen[i], key)
}

/// Whether a content decodes to at most one key.
pub open spec fn keys_are_unique<K: Relish>() -> bool {
    forall|content: Seq<u8>, a: K, b: K|
        #[trigger] K::parsed(content, &a) && #[trigger] K::parsed(content, &b) ==> a == b
}

/// The first error on the way through the pairs that lie back to back in
/// `s`, behind the keys whose contents are `seen`, if there is one. A key
/// that occurred before is found when its pair has been decoded.
pub open spec fn pairs_error<K: Relish, V: Relish>(s: Seq<u8>, seen: Seq<Seq<u8>>) -> Option<
    ParseErrorKind,
>
    decreases s.len(),
{
    if s.len() == 0 {
        None
    } else {
        match frame(K::TYPE, s) {
            Err(e) => Some(e),
            Ok((key, after_key)) => match K::parse_error(key) {
                Some(e) => Some(e),
                None => match frame(V::TYPE, after_key) {
                    Err(e) => Some(e),
                    Ok((value, rest)) => match V::parse_error(value) {
                        Some(e) => Some(e),
                        None => if key_seen::<K>(seen, key) {
                            Some(ParseErrorKind::DuplicateMapKey)
                        } else if rest.len() >= s.len() {
                            Some(
                                ParseErrorKind::ExtraData { bytes_remaining: rest.len() as usize },
                            )
                        } else {
                            pairs_error::<K, V>(rest, seen.push(key))
                        },
                    },
                },
            },
        }
    }
}

/// Whether a map holds what the contents of a key and of its value decode
/// to.
pub open spec fn pair_decoded<K: Relish, V: Relish>(
    contents: (Seq<u8>, Seq<u8>),
    m: Map<K, V>,
) -> bool {
    exists|k: K|
        {
            &&& #[trigger] K::parsed(contents.0, &k)
            &&& m.contains_key(k)
            &&& V::parsed(contents.1, &m[k])
        }
}

/// Whether a dictionary with these types keeps the contracts of its
/// codec: its keys and values keep theirs, the keys hash and compare as
/// the model of the hash map asks, and a content decodes to at most one
/// key.
pub open spec fn dict_obeys<K: Relish, V: Relish, S>() -> bool {
    &&& K::obeys_wire_spec()
    &&& V::obeys_wire_spec()
    &&& obeys_key_model::<K>()
    &&& builds_valid_hashers::<S>()
    &&& keys_are_unique::<K>()
}

/// The content length of a dictionary, with the greatest `usize` for
/// every length beyond it.
pub fn dict_content_size<K: Relish + Eq + Hash, V: Relish, S: BuildHasher>(
    m: &HashMap<K, V, S>,
) -> (n: usize)
    ensures
        dict_obeys::<K, V, S>() ==> n == clamp_length(
            dict_content_length(dict_pairs(m)),
        ),
        dict_obeys::<K, V, S>() ==> pairs_listed(m),
{
    let ghost obeys = dict_obeys::<K, V, S>();
    let ghost pairs = dict_pairs(m);
    let ghost mut count: int = 0;
    let mut content_size: usize = 2;
    proof {
        assert(pairs.take(0) =~= Seq::<(K, V)>::empty());
    }
    let mut it = VerusForLoopWrapper::new(m.iter(), Ghost(None));
    let n = m.len();
    let mut i: usize = 0;
    proof {
        if obeys {
            vstd::std_specs::hash::axiom_spec_hash_map_iter(m);
            vstd::std_specs::hash::axiom_spec_hash_map_len(m);
            let listed = it.seq();
            assert forall|i: int, j: int| 0 <= i < j < pairs.len() implies (
            #[trigger] pairs[i]).0 != (#[trigger] pairs[j]).0 by {
                assert(pairs[i] == (*listed[i].0, *listed[i].1));
                assert(pairs[j] == (*listed[j].0, *listed[j].1));
                assert(m@[*listed[i].0] == *listed[i].1);
                assert(m@[*listed[j].0] == *listed[j].1);
                if pairs[i].0 == pairs[j].0 {
                    assert(listed[i] == listed[j]);
                }
            }
            assert forall|i: int| 0 <= i < pairs.len() implies m@.contains_key(
                (#[trigger] pairs[i]).0,
            ) && m@[pairs[i].0] == pairs[i].1 by {
                assert(pairs[i] == (*listed[i].0, *listed[i].1));
                assert(m@.contains_key(*listed[i].0));
            }
            assert(pairs_listed(m));
        }
    }
    while i < n
        invariant
            obeys == dict_obeys::<K, V, S>(),
            pairs == dict_pairs(m),
            it.wf(),
            count == it.index(),
            count == i <= n,
            obeys ==> pairs_listed(m),
            obeys ==> it.seq().unref() == pairs && pairs.len() == n,
            obeys ==> content_size == clamp_length(dict_content_length(pairs.take(count))),
        decreases n - i,
    {
        match it.next() {
            None => {
                return content_size;
            },
            Some((k, v)) => {
                proof {
                    if obeys {
                        assert(pairs.take(count + 1).drop_last() =~= pairs.take(count));
                        assert(pairs.take(count + 1).last() == (*k, *v));
                    }
                }
                content_size = add_lengths(content_size, k.value_length());
                content_size = add_lengths(content_size, v.value_length());
                i = i + 1;
                proof {
                    count = count + 1;
                }
            },
        }
    }
    proof {
        if obeys {
            assert(pairs.take(pairs.len() as int) =~= pairs);
        }
    }
    content_size
}

/// One pair that is carved off, decoded and found new leaves the rest of
/// the pairs to decide.
proof fn lemma_pairs_step<K: Relish, V: Relish>(
    s: Seq<u8>,
    middle: Seq<u8>,
    rest: Seq<u8>,
    seen: Seq<Seq<u8>>,
)
    requires
        s.len() > 0,
        rest.len() < s.len(),
        frame(K::TYPE, s) matches Ok((key, after_key)) && after_key == middle && K::parse_error(
            key,
        ) is None && !key_seen::<K>(seen, key),
        frame(V::TYPE, middle) matches Ok((value, after_value)) && after_value == rest
            && V::parse_error(value) is None,
    ensures
        pairs_error::<K, V>(s, seen) == pairs_error::<K, V>(
            rest,
            seen.push(frame(K::TYPE, s)->Ok_0.0),
        ),
        entry_frames(K::TYPE, V::TYPE, s) == seq![
            (frame(K::TYPE, s)->Ok_0.0, frame(V::TYPE, middle)->Ok_0.0),
        ] + entry_frames(K::TYPE, V::TYPE, rest),
{
}

/// A dictionary: the type bytes of its keys and of its values, then the
/// payloads of each key and its value. The pairs are written in the order
/// in which the hash map hands them out.
impl<K: Relish + Eq + Hash, V: Relish, S: BuildHasher + Default> Relish for HashMap<K, V, S> {
    const TYPE: TypeId = TypeId::Dict;

    open spec fn obeys_wire_spec() -> bool {
        dict_obeys::<K, V, S>()
    }

    open spec fn content(&self) -> Seq<u8> {
        seq![K::TYPE.code(), V::TYPE.code()] + pairs_bytes(dict_pairs(self))
    }

    open spec fn write_error(&self) -> Option<WriteErrorKind> {
        match too_large(dict_content_length(dict_pairs(self))) {
            Some(e) => Some(e),
            None => pairs_write_error(dict_pairs(self)),
        }
    }

    open spec fn parse_error(content: Seq<u8>) -> Option<ParseErrorKind> {
        match type_byte(K::TYPE, content) {
            Err(e) => Some(e),
            Ok(after_key_type) => match type_byte(V::TYPE, after_key_type) {
                Err(e) => Some(e),
                Ok(rest) => pairs_error::<K, V>(rest, Seq::empty()),
            },
        }
    }

    open spec fn parsed(content: Seq<u8>, value: &Self) -> bool {
        let frames = entry_frames(K::TYPE, V::TYPE, content.skip(2));
        &&& value@.dom().finite()
        &&& value@.len() == frames.len()
        &&& forall|i: int| 0 <= i < frames.len() ==> pair_decoded(#[trigger] frames[i], value@)
    }

    fn parse_value(data: &mut BytesRef) -> (r: ParseResult<Self>) {
        let key_type = TypeId::read_for_type::<K>(data)?;
        proof {
            let here = data@;
            lemma_tails_of_tail(here, old(data)@);
        }
        let value_type = TypeId::read_for_type::<V>(data)?;
        let ghost obeys = dict_obeys::<K, V, S>();
        let ghost start = data@;
        let ghost mut done: Seq<(Seq<u8>, Seq<u8>)> = Seq::empty();
        let ghost mut seen: Seq<Seq<u8>> = Seq::empty();
        let ghost mut keys: Seq<K> = Seq::empty();
        let mut map: HashMap<K, V, S> = HashMap::default();
        proof {
            assert(old(data)@.skip(1).skip(1) =~= old(data)@.skip(2));
            assert(done + entry_frames(K::TYPE, V::TYPE, data@) =~= entry_frames(
                K::TYPE,
                V::TYPE,
                start,
            ));
        }
        while !data.is_empty()
            invariant
                key_type == K::TYPE,
                value_type == V::TYPE,
                obeys == dict_obeys::<K, V, S>(),
                type_byte(K::TYPE, old(data)@) matches Ok(after) && type_byte(V::TYPE, after)
                    == Ok::<Seq<u8>, ParseErrorKind>(start),
                old(data)@.skip(2) == start,
                is_tail(data@, old(data)@),
                entry_frames(K::TYPE, V::TYPE, start) == done + entry_frames(
                    K::TYPE,
                    V::TYPE,
                    data@,
                ),
                seen.len() == done.len(),
                keys.len() == done.len(),
                forall|i: int| 0 <= i < done.len() ==> #[trigger] seen[i] == done[i].0,
                obeys ==> pairs_error::<K, V>(start, Seq::empty()) == pairs_error::<K, V>(
                    data@,
                    seen,
                ),
                obeys ==> map@.dom().finite() && map@.len() == keys.len(),
                obeys ==> forall|i: int|
                    0 <= i < keys.len() ==> {
                        &&& K::parsed(done[i].0, &#[trigger] keys[i])
                        &&& map@.contains_key(keys[i])
                        &&& V::parsed(done[i].1, &map@[keys[i]])
                    },
                obeys ==> forall|k: K| #[trigger]
                    map@.contains_key(k) ==> exists|i: int|
                        0 <= i < keys.len() && #[trigger] keys[i] == k,
            decreases data@.len(),
        {
            let before = data.len();
            let ghost here = data@;
            proof {
                lemma_frame_parts(K::TYPE, here);
                lemma_tails_of_tail(here, old(data)@);
            }
            let key = parse_value_for_typeid::<K>(data, key_type)?;
            let ghost middle = data@;
            proof {
                lemma_frame_parts(V::TYPE, middle);
                lemma_tails_of_tail(middle, old(data)@);
            }
            let value = parse_value_for_typeid::<V>(data, value_type)?;
            let ghost key_content = frame(K::TYPE, here)->Ok_0.0;
            let ghost value_content = frame(V::TYPE, middle)->Ok_0.0;
            let ghost the_key = key;
            let ghost the_value = value;
            let ghost map_before = map@;
            let previous = map.insert(key, value);
            if previous.is_some() {
                proof {
                    if obeys {
                        let j = choose|j: int| 0 <= j < keys.len() && #[trigger] keys[j] == the_key;
                        assert(K::parsed(seen[j], &the_key));
                        assert(same_key::<K>(seen[j], key_content));
                        assert(key_seen::<K>(seen, key_content));
                    }
                }
                return Err(ParseError::new(ParseErrorKind::DuplicateMapKey));
            }
            proof {
                if obeys {
                    assert(!key_seen::<K>(seen, key_content)) by {
                        if key_seen::<K>(seen, key_content) {
                            let j = choose|j: int|
                                0 <= j < seen.len() && same_key::<K>(
                                    #[trigger] seen[j],
                                    key_content,
                                );
                            let k = choose|k: K| #[trigger]
                                K::parsed(seen[j], &k) && K::parsed(key_content, &k);
                            assert(K::parsed(seen[j], &keys[j]));
                            assert(k == keys[j]);
                            assert(k == the_key);
                            assert(map_before.contains_key(keys[j]));
                        }
                    }
                }
            }
            if data.len() >= before {
                return Err(
                    ParseError::new(ParseErrorKind::ExtraData { bytes_remaining: data.len() }),
                );
            }
            proof {
                let piece = (key_content, value_content);
                if obeys {
                    lemma_pairs_step::<K, V>(here, middle, data@, seen);
                    assert forall|i: int| 0 <= i < keys.push(the_key).len() implies {
                        &&& K::parsed(done.push(piece)[i].0, &#[trigger] keys.push(the_key)[i])
                        &&& map@.contains_key(keys.push(the_key)[i])
                        &&& V::parsed(done.push(piece)[i].1, &map@[keys.push(the_key)[i]])
                    } by {
                        if i < keys.len() {
                            assert(keys[i] != the_key);
                        }
                    }
                    assert forall|k: K| #[trigger] map@.contains_key(k) implies exists|i: int|
                        0 <= i < keys.push(the_key).len() && #[trigger] keys.push(the_key)[i]
                            == k by {
                        if k == the_key {
                            assert(keys.push(the_key)[keys.len() as int] == k);
                        } else {
                            let j = choose|j: int| 0 <= j < keys.len() && #[trigger] keys[j] == k;
                            assert(keys.push(the_key)[j] == k);
                        }
                    }
                }
                assert(done.push(piece) + entry_frames(K::TYPE, V::TYPE, data@) =~= done + (
                seq![piece] + entry_frames(K::TYPE, V::TYPE, data@)));
                done = done.push(piece);
                seen = seen.push(key_content);
                keys = keys.push(the_key);
            }
        }
        proof {
            assert(done + Seq::<(Seq<u8>, Seq<u8>)>::empty() =~= done);
            if obeys {
                assert forall|i: int| 0 <= i < done.len() implies pair_decoded(
                    #[trigger] done[i],
                    map@,
                ) by {
                    assert(K::parsed(done[i].0, &keys[i]));
                }
            }
        }
        Ok(map)
    }

    fn write_value(&self, buffer: &mut Vec<u8>) -> (r: WriteResult<()>) {
        let ghost obeys = dict_obeys::<K, V, S>();
        let content_len = dict_content_size(self);
        write_tagged_varint_length(buffer, content_len)?;
        buffer.push(K::TYPE.to_byte());
        buffer.push(V::TYPE.to_byte());
        let ghost head = old(buffer)@ + varint_bytes(dict_content_length(dict_pairs(self)))
            + seq![K::TYPE.code(), V::TYPE.code()];
        let ghost pairs = dict_pairs(self);
        let ghost mut count: int = 0;
        proof {
            assert(pairs.take(0) =~= Seq::<(K, V)>::empty());
            if obeys {
                assert(buffer@ =~= head + pairs_bytes(pairs.take(0)));
            }
        }
        let mut it = VerusForLoopWrapper::new(self.iter(), Ghost(None));
        let n = self.len();
        let mut i: usize = 0;
        proof {
            if obeys {
                vstd::std_specs::hash::axiom_spec_hash_map_iter(self);
                vstd::std_specs::hash::axiom_spec_hash_map_len(self);
            }
        }
        while i < n
            invariant
                obeys == dict_obeys::<K, V, S>(),
                pairs == dict_pairs(self),
                it.wf(),
                count == it.index(),
                count == i <= n,
                obeys ==> it.seq().unref() == pairs && pairs.len() == n,
                obeys ==> too_large(dict_content_length(pairs)) is None,
                obeys ==> pairs_write_error(pairs.take(count)) is None,
                obeys ==> buffer@ == head + pairs_bytes(pairs.take(count)),
                head == old(buffer)@ + varint_bytes(dict_content_length(pairs)) + seq![
                    K::TYPE.code(),
                    V::TYPE.code(),
                ],
            decreases n - i,
        {
            match it.next() {
                None => {
                    return Ok(());
                },
                Some((k, v)) => {
                    proof {
                        if obeys {
                            assert(pairs.take(count + 1).drop_last() =~= pairs.take(count));
                            assert(pairs.take(count + 1).last() == (*k, *v));
                            lemma_pairs_write_error_prefix(pairs, count + 1);
                        }
                    }
                    k.write_value(buffer)?;
                    v.write_value(buffer)?;
                    i = i + 1;
                    proof {
                        if obeys {
                            assert(buffer@ =~= head + pairs_bytes(pairs.take(count + 1)));
                        }
                        count = count + 1;
                    }
                },
            }
        }
        proof {
            if obeys {
                assert(pairs.take(pairs.len() as int) =~= pairs);
                assert(buffer@ =~= old(buffer)@ + framed(Self::TYPE, self.content()));
            }
        }
        Ok(())
    }

    fn value_length(&self) -> (n: usize) {
        let content_size = dict_content_size(self);
        proof {
            lemma_varint_size(dict_content_length(dict_pairs(self)));
        }
        add_lengths(tagged_varint_length_size(content_size), content_size)
    }
}

/// A key or value that cannot be written makes every longer run of pairs
/// unwritable, for the same reason unless an earlier one gave a reason.
pub proof fn lemma_pairs_write_error_prefix<K: Relish, V: Relish>(s: Seq<(K, V)>, n: int)
    requires
        0 <= n <= s.len(),
    ensures
        pairs_write_error(s.take(n)) matches Some(e) ==> pairs_write_error(s) == Some(e),
    decreases s.len() - n,
{
    if n < s.len() {
        assert(s.take(n + 1).drop_last() =~= s.take(n));
        lemma_pairs_write_error_prefix(s, n + 1);
    } else {
        assert(s.take(n) =~= s);
    }
}

/// The payloads of the pairs with these contents, back to back.
pub open spec fn entries_bytes(kt: TypeId, vt: TypeId, entries: Seq<(Seq<u8>, Seq<u8>)>) -> Seq<
    u8,
>
    decreases entries.len(),
{
    if entries.len() == 0 {
        Seq::empty()
    } else {
        framed(kt, entries[0].0) + framed(vt, entries[0].1) + entries_bytes(
            kt,
            vt,
            entries.skip(1),
        )
    }
}

/// Whether each pair of contents suits the types and decodes without
/// error.
pub open spec fn entries_decodable<K: Relish, V: Relish>(
    entries: Seq<(Seq<u8>, Seq<u8>)>,
) -> bool {
    forall|i: int|
        0 <= i < entries.len() ==> {
            &&& crate::wire::fits(K::TYPE, (#[trigger] entries[i]).0)
            &&& crate::wire::fits(V::TYPE, entries[i].1)
            &&& K::parse_error(entries[i].0) is None
            &&& V::parse_error(entries[i].1) is None
        }
}

/// A key that was seen stays seen when more keys are.
proof fn lemma_key_seen_push<K: Relish>(seen: Seq<Seq<u8>>, more: Seq<u8>, key: Seq<u8>)
    ensures
        key_seen::<K>(seen, key) ==> key_seen::<K>(seen.push(more), key),
        same_key::<K>(more, key) ==> key_seen::<K>(seen.push(more), key),
{
    if key_seen::<K>(seen, key) {
        let i = choose|i: int| 0 <= i < seen.len() && same_key::<K>(#[trigger] seen[i], key);
        assert(seen.push(more)[i] == seen[i]);
    }
    if same_key::<K>(more, key) {
        assert(seen.push(more)[seen.len() as int] == more);
    }
}

/// The first of the pairs that lie back to back is carved off as it was
/// laid out, and takes bytes unless key and value are both null.
pub proof fn lemma_first_entry(kt: TypeId, vt: TypeId, entries: Seq<(Seq<u8>, Seq<u8>)>)
    requires
        entries.len() > 0,
        crate::wire::fits(kt, entries[0].0),
        crate::wire::fits(vt, entries[0].1),
    ensures
        frame(kt, entries_bytes(kt, vt, entries)) == Ok::<(Seq<u8>, Seq<u8>), ParseErrorKind>(
            (entries[0].0, framed(vt, entries[0].1) + entries_bytes(kt, vt, entries.skip(1))),
        ),
        frame(vt, framed(vt, entries[0].1) + entries_bytes(kt, vt, entries.skip(1))) == Ok::<
            (Seq<u8>, Seq<u8>),
            ParseErrorKind,
        >((entries[0].1, entries_bytes(kt, vt, entries.skip(1)))),
        kt != TypeId::Null || vt != TypeId::Null ==> entries_bytes(kt, vt, entries.skip(1)).len()
            < entries_bytes(kt, vt, entries).len(),
{
    let first = entries[0];
    let rest = entries_bytes(kt, vt, entries.skip(1));
    let after_key = framed(vt, first.1) + rest;
    assert(entries_bytes(kt, vt, entries) =~= framed(kt, first.0) + after_key);
    crate::wire::lemma_frame_framed(kt, first.0, after_key);
    crate::wire::lemma_frame_framed(vt, first.1, rest);
    if kt != TypeId::Null {
        crate::array::lemma_framed_nonempty(kt, first.0);
    } else if vt != TypeId::Null {
        crate::array::lemma_framed_nonempty(vt, first.1);
    }
}

/// A pair whose key decodes to a key seen before, or to the key of a pair
/// before it, makes the payload a payload with a duplicate key.
pub proof fn lemma_duplicate_key_found<K: Relish, V: Relish>(
    entries: Seq<(Seq<u8>, Seq<u8>)>,
    seen: Seq<Seq<u8>>,
    j: int,
)
    requires
        K::TYPE != TypeId::Null || V::TYPE != TypeId::Null,
        entries_decodable::<K, V>(entries),
        0 <= j < entries.len(),
        key_seen::<K>(seen, entries[j].0) || exists|i: int|
            0 <= i < j && same_key::<K>((#[trigger] entries[i]).0, entries[j].0),
    ensures
        pairs_error::<K, V>(entries_bytes(K::TYPE, V::TYPE, entries), seen) == Some(
            ParseErrorKind::DuplicateMapKey,
        ),
    decreases entries.len(),
{
    let first = entries[0];
    let tail = entries.skip(1);
    lemma_first_entry(K::TYPE, V::TYPE, entries);
    if !key_seen::<K>(seen, first.0) {
        assert(j > 0);
        assert forall|i: int| 0 <= i < tail.len() implies {
            &&& crate::wire::fits(K::TYPE, (#[trigger] tail[i]).0)
            &&& crate::wire::fits(V::TYPE, tail[i].1)
            &&& K::parse_error(tail[i].0) is None
            &&& V::parse_error(tail[i].1) is None
        } by {
            assert(tail[i] == entries[i + 1]);
        }
        assert(tail[j - 1] == entries[j]);
        lemma_key_seen_push::<K>(seen, first.0, entries[j].0);
        if !key_seen::<K>(seen.push(first.0), entries[j].0) {
            let i = choose|i: int|
                0 <= i < j && same_key::<K>((#[trigger] entries[i]).0, entries[j].0);
            assert(i > 0);
            assert(tail[i - 1] == entries[i]);
            assert(same_key::<K>(tail[i - 1].0, tail[j - 1].0));
        }
        lemma_duplicate_key_found::<K, V>(tail, seen.push(first.0), j - 1);
    }
}

/// Uniqueness of keys: a dictionary payload in which two pairs decode to
/// one and the same key is refused as a payload with a duplicate key.
///
/// Pairs of a null key and a null value take no bytes at all, so a payload
/// cannot hold two of them: the law speaks of the other dictionaries.
pub proof fn lemma_duplicate_key_refused<
    K: Relish + Eq + Hash,
    V: Relish,
    S: BuildHasher + Default,
>(entries: Seq<(Seq<u8>, Seq<u8>)>, i: int, j: int)
    requires
        K::TYPE != TypeId::Null || V::TYPE != TypeId::Null,
        entries_decodable::<K, V>(entries),
        0 <= i < j < entries.len(),
        same_key::<K>(entries[i].0, entries[j].0),
    ensures
        <HashMap<K, V, S> as Relish>::parse_error(
            seq![K::TYPE.code(), V::TYPE.code()] + entries_bytes(K::TYPE, V::TYPE, entries),
        ) == Some(ParseErrorKind::DuplicateMapKey),
{
    let body = entries_bytes(K::TYPE, V::TYPE, entries);
    let content = seq![K::TYPE.code(), V::TYPE.code()] + body;
    K::TYPE.lemma_code_of_byte(content[0]);
    V::TYPE.lemma_code_of_byte(content[1]);
    assert(content.skip(1)[0] == content[1]);
    assert(content.skip(1).skip(1) =~= body);
    lemma_duplicate_key_found::<K, V>(entries, Seq::empty(), j);
}

/// Whether no key among the contents decodes to a key seen before or to
/// the key of a pair before it.
pub open spec fn keys_distinct<K: Relish>(
    seen: Seq<Seq<u8>>,
    entries: Seq<(Seq<u8>, Seq<u8>)>,
) -> bool {
    &&& forall|j: int|
        0 <= j < entries.len() ==> !key_seen::<K>(seen, (#[trigger] entries[j]).0)
    &&& forall|i: int, j: int|
        0 <= i < j < entries.len() ==> !same_key::<K>(
            (#[trigger] entries[i]).0,
            (#[trigger] entries[j]).0,
        )
}

/// Pairs that suit their types, decode without error and have distinct
/// keys, laid out back to back, are carved off and decoded one by one
/// without error.
pub proof fn lemma_entries_decode<K: Relish, V: Relish>(
    entries: Seq<(Seq<u8>, Seq<u8>)>,
    seen: Seq<Seq<u8>>,
)
    requires
        K::TYPE != TypeId::Null,
        entries_decodable::<K, V>(entries),
        keys_distinct::<K>(seen, entries),
    ensures
        pairs_error::<K, V>(entries_bytes(K::TYPE, V::TYPE, entries), seen) is None,
        entry_frames(K::TYPE, V::TYPE, entries_bytes(K::TYPE, V::TYPE, entries)) == entries,
    decreases entries.len(),
{
    let s = entries_bytes(K::TYPE, V::TYPE, entries);
    if entries.len() > 0 {
        let first = entries[0];
        let tail = entries.skip(1);
        let rest = entries_bytes(K::TYPE, V::TYPE, tail);
        let after_key = framed(V::TYPE, first.1) + rest;
        assert(s =~= framed(K::TYPE, first.0) + after_key);
        crate::wire::lemma_frame_framed(K::TYPE, first.0, after_key);
        crate::wire::lemma_frame_framed(V::TYPE, first.1, rest);
        crate::array::lemma_framed_nonempty(K::TYPE, first.0);
        assert forall|i: int| 0 <= i < tail.len() implies {
            &&& crate::wire::fits(K::TYPE, (#[trigger] tail[i]).0)
            &&& crate::wire::fits(V::TYPE, tail[i].1)
            &&& K::parse_error(tail[i].0) is None
            &&& V::parse_error(tail[i].1) is None
        } by {
            assert(tail[i] == entries[i + 1]);
        }
        assert(keys_distinct::<K>(seen.push(first.0), tail)) by {
            assert forall|j: int| 0 <= j < tail.len() implies !key_seen::<K>(
                seen.push(first.0),
                (#[trigger] tail[j]).0,
            ) by {
                assert(tail[j] == entries[j + 1]);
                if key_seen::<K>(seen.push(first.0), tail[j].0) {
                    let i = choose|i: int|
                        0 <= i < seen.push(first.0).len() && same_key::<K>(
                            #[trigger] seen.push(first.0)[i],
                            tail[j].0,
                        );
                    if i < seen.len() {
                        assert(seen[i] == seen.push(first.0)[i]);
                        assert(key_seen::<K>(seen, entries[j + 1].0));
                    } else {
                        assert(same_key::<K>(entries[0].0, entries[j + 1].0));
                    }
                }
            }
            assert forall|i: int, j: int| 0 <= i < j < tail.len() implies !same_key::<K>(
                (#[trigger] tail[i]).0,
                (#[trigger] tail[j]).0,
            ) by {
                assert(tail[i] == entries[i + 1]);
                assert(tail[j] == entries[j + 1]);
            }
        }
        lemma_entries_decode::<K, V>(tail, seen.push(first.0));
        assert(entry_frames(K::TYPE, V::TYPE, s) =~= seq![first] + tail);
        assert(seq![first] + tail =~= entries);
    } else {
        assert(entry_frames(K::TYPE, V::TYPE, s) =~= entries);
    }
}

/// The contents of the keys and values of pairs.
pub open spec fn pairs_contents<K: Relish, V: Relish>(pairs: Seq<(K, V)>) -> Seq<
    (Seq<u8>, Seq<u8>),
> {
    Seq::new(pairs.len(), |i: int| (pairs[i].0.content(), pairs[i].1.content()))
}

/// The payloads of pairs are the payloads of their contents.
pub proof fn lemma_pairs_bytes_of_contents<K: Relish, V: Relish>(pairs: Seq<(K, V)>)
    ensures
        pairs_bytes(pairs) == entries_bytes(K::TYPE, V::TYPE, pairs_contents(pairs)),
    decreases pairs.len(),
{
    if pairs.len() > 0 {
        lemma_pairs_bytes_of_contents(pairs.drop_last());
        lemma_entries_bytes_push(
            K::TYPE,
            V::TYPE,
            pairs_contents(pairs.drop_last()),
            (pairs.last().0.content(), pairs.last().1.content()),
        );
        assert(pairs_contents(pairs.drop_last()).push(
            (pairs.last().0.content(), pairs.last().1.content()),
        ) =~= pairs_contents(pairs));
    } else {
        assert(pairs_contents(pairs) =~= Seq::<(Seq<u8>, Seq<u8>)>::empty());
    }
}

/// The payloads of pairs with one more pair behind them.
proof fn lemma_entries_bytes_push(
    kt: TypeId,
    vt: TypeId,
    entries: Seq<(Seq<u8>, Seq<u8>)>,
    last: (Seq<u8>, Seq<u8>),
)
    ensures
        entries_bytes(kt, vt, entries.push(last)) == entries_bytes(kt, vt, entries) + framed(
            kt,
            last.0,
        ) + framed(vt, last.1),
    decreases entries.len(),
{
    let longer = entries.push(last);
    if entries.len() == 0 {
        assert(longer.skip(1) =~= Seq::<(Seq<u8>, Seq<u8>)>::empty());
        assert(longer[0] == last);
        assert(entries_bytes(kt, vt, longer.skip(1)) =~= Seq::<u8>::empty());
        assert(entries_bytes(kt, vt, entries) =~= Seq::<u8>::empty());
        assert(entries_bytes(kt, vt, longer) =~= framed(kt, last.0) + framed(vt, last.1));
        assert(entries_bytes(kt, vt, entries) + framed(kt, last.0) + framed(vt, last.1)
            =~= framed(kt, last.0) + framed(vt, last.1));
    } else {
        lemma_entries_bytes_push(kt, vt, entries.skip(1), last);
        assert(longer.skip(1) =~= entries.skip(1).push(last));
        assert(longer[0] == entries[0]);
        assert(entries_bytes(kt, vt, longer) =~= entries_bytes(kt, vt, entries) + framed(
            kt,
            last.0,
        ) + framed(vt, last.1));
    }
}

/// Pairs that can all be written are free of write errors as a run.
pub proof fn lemma_pairs_write_error_none<K: Relish, V: Relish>(s: Seq<(K, V)>)
    requires
        pairs_write_error(s) is None,
    ensures
        forall|i: int|
            0 <= i < s.len() ==> (#[trigger] s[i]).0.write_error() is None
                && s[i].1.write_error() is None,
    decreases s.len(),
{
    if s.len() > 0 {
        lemma_pairs_write_error_none(s.drop_last());
        assert forall|i: int| 0 <= i < s.len() implies (#[trigger] s[i]).0.write_error()
            is None && s[i].1.write_error() is None by {
            if i < s.len() - 1 {
                assert(s.drop_last()[i] == s[i]);
            }
        }
    }
}

/// Whether the pairs that a dictionary hands out are its pairs, each once.
/// [`dict_content_size`] shows this of every hash map whose keys obey the
/// model of the hash map.
pub open spec fn pairs_listed<K, V, S>(m: &HashMap<K, V, S>) -> bool {
    let pairs = dict_pairs(m);
    &&& pairs.len() == m@.len()
    &&& forall|i: int|
        0 <= i < pairs.len() ==> m@.contains_key((#[trigger] pairs[i]).0) && m@[pairs[i].0]
            == pairs[i].1
    &&& forall|i: int, j: int|
        0 <= i < j < pairs.len() ==> (#[trigger] pairs[i]).0 != (#[trigger] pairs[j]).0
}

/// Decoding undoes encoding at a dictionary whose keys and values it
/// undoes encoding at. The keys must not be of the null type.
pub proof fn lemma_dict_roundtrips<K: Relish + Eq + Hash, V: Relish, S: BuildHasher + Default>(
    m: HashMap<K, V, S>,
)
    requires
        K::TYPE != TypeId::Null,
        keys_are_unique::<K>(),
        m@.dom().finite(),
        pairs_listed(&m),
        forall|k: K| #[trigger] m@.contains_key(k) ==> roundtrips(k) && roundtrips(m@[k]),
    ensures
        roundtrips(m),
{
    if m.write_error() is None {
        let pairs = dict_pairs(&m);
        let entries = pairs_contents(pairs);
        let content = m.content();
        lemma_pairs_write_error_none(pairs);
        lemma_pairs_bytes_of_contents(pairs);
        assert forall|i: int| 0 <= i < pairs.len() implies {
            &&& roundtrips((#[trigger] pairs[i]).0)
            &&& roundtrips(pairs[i].1)
        } by {
            assert(m@.contains_key(pairs[i].0));
        }
        assert(entries_decodable::<K, V>(entries)) by {
            assert forall|i: int| 0 <= i < entries.len() implies {
                &&& crate::wire::fits(K::TYPE, (#[trigger] entries[i]).0)
                &&& crate::wire::fits(V::TYPE, entries[i].1)
                &&& K::parse_error(entries[i].0) is None
                &&& V::parse_error(entries[i].1) is None
            } by {
                assert(roundtrips(pairs[i].0));
                assert(roundtrips(pairs[i].1));
            }
        }
        assert(keys_distinct::<K>(Seq::empty(), entries)) by {
            assert forall|i: int, j: int| 0 <= i < j < entries.len() implies !same_key::<K>(
                (#[trigger] entries[i]).0,
                (#[trigger] entries[j]).0,
            ) by {
                if same_key::<K>(entries[i].0, entries[j].0) {
                    let k = choose|k: K| #[trigger]
                        K::parsed(entries[i].0, &k) && K::parsed(entries[j].0, &k);
                    assert(roundtrips(pairs[i].0));
                    assert(roundtrips(pairs[j].0));
                    assert(K::parsed(entries[i].0, &pairs[i].0));
                    assert(K::parsed(entries[j].0, &pairs[j].0));
                    assert(k == pairs[i].0);
                    assert(k == pairs[j].0);
                }
            }
        }
        lemma_entries_decode::<K, V>(entries, Seq::empty());
        K::TYPE.lemma_code_of_byte(content[0]);
        V::TYPE.lemma_code_of_byte(content[1]);
        assert(content.skip(1)[0] == content[1]);
        assert(content.skip(1).skip(1) =~= pairs_bytes(pairs));
        assert(content.skip(2) =~= pairs_bytes(pairs));
        assert forall|i: int| 0 <= i < entries.len() implies pair_decoded(
            #[trigger] entries[i],
            m@,
        ) by {
            assert(roundtrips(pairs[i].0));
            assert(roundtrips(pairs[i].1));
            assert(K::parsed(entries[i].0, &pairs[i].0));
            assert(m@.contains_key(pairs[i].0));
        }
    }
}

/// A content decodes to at most one integer and to at most one bool, so
/// that each of these types can be the type of the keys of a dictionary.
pub proof fn lemma_integer_keys_are_unique()
    ensures
        keys_are_unique::<u8>(),
        keys_are_unique::<u16>(),
        keys_are_unique::<u32>(),
        keys_are_unique::<u64>(),
        keys_are_unique::<u128>(),
        keys_are_unique::<i8>(),
        keys_are_unique::<i16>(),
        keys_are_unique::<i32>(),
        keys_are_unique::<i64>(),
        keys_are_unique::<i128>(),
        keys_are_unique::<bool>(),
{
}

/// The wire type of a dictionary.
pub proof fn lemma_dict_wire_type<K: Relish + Eq + Hash, V: Relish, S: BuildHasher + Default>()
    ensures
        <HashMap<K, V, S> as Relish>::TYPE == TypeId::Dict,
{
}

} // verus!
