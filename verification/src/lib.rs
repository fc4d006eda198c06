//! A binary serialization format in which every value is announced by a
//! one-byte type, values without fixed size carry a length prefix, and the
//! fields of a struct carry numeric ids, so that a reader can pass over
//! what it does not know.
//!
//! The crate holds the reader and the writer of the format, the cursor that
//! reads the fields of a struct in the order of their ids, a decoder that
//! needs no schema, and a textual rendering of what that decoder finds.
//! Every function states in its contract what it returns, over a
//! mathematical model of the wire format, and is verified against it; the
//! few functions that call into the `bytes` and `chrono` crates and into
//! parts of the standard library say so, and their contracts are taken on
//! trust.

pub mod array;
pub mod ascii;
pub mod buf;
pub mod cursor;
pub mod decode;
pub mod dict;
pub mod error;
pub mod format;
pub mod integers;
pub mod laws;
pub mod le;
pub mod parse;
pub mod record;
pub mod scalars;
pub mod schema;
pub mod text;
pub mod timestamp;
pub mod traits;
pub mod type_id;
pub mod value;
pub mod varint;
pub mod wire;
pub mod write;

pub use crate::array::{
    array_content_length, array_content_size, element_frames, elements_bytes, elements_error,
    elements_write_error, lemma_array_wire_types, lemma_bytes_as_vec, lemma_bytes_roundtrips,
    lemma_elements_bytes_front, lemma_elements_bytes_of_bytes, lemma_elements_decode,
    lemma_elements_write_error_none, lemma_framed_nonempty, lemma_vec_roundtrips,
    lemma_write_error_prefix,
};
pub use crate::ascii::{collect_float_leaves, push_float_leaves, relish2ascii, texts_of};
pub use crate::buf::{
    bytes_contents, BytesRef, is_tail, lemma_tail_of_skip, lemma_tail_of_tail, lemma_tails_of_tail,
};
pub use crate::cursor::{
    drain_error, drain_halt, first_disorder, ids_below, lemma_disorder_found, lemma_drain_appended,
    lemma_drain_of_records, lemma_order_enforced, lemma_order_enforced_after_seek,
    lemma_record_absent, lemma_record_found, lemma_records_read_back,
    lemma_refused_record_untouched, lemma_seek_appended, lemma_seek_keeps_disorder,
    lemma_skip_record_appended, lemma_skip_record_of_record, lemma_skip_record_shrinks,
    next_field_id, order_error, record, record_ids_rise, records_bytes, records_well_formed, seek,
    seek_halt, seen_below, skip_record, stands_at, StructParser,
};
pub use crate::decode::{
    from_bytes, parse_array_content, parse_dict_content, parse_entry, parse_enum_content,
    parse_struct_content, parse_typed_value, parse_value,
};
pub use crate::dict::{
    dict_content_length, dict_content_size, dict_obeys, dict_pairs, entries_bytes,
    entries_decodable, key_seen, keys_are_unique, keys_distinct, lemma_dict_roundtrips,
    lemma_dict_wire_type, lemma_duplicate_key_found, lemma_duplicate_key_refused,
    lemma_entries_decode, lemma_first_entry, lemma_integer_keys_are_unique,
    lemma_pairs_bytes_of_contents, lemma_pairs_write_error_none, lemma_pairs_write_error_prefix,
    pair_decoded, pairs_bytes, pairs_contents, pairs_error, pairs_listed, pairs_write_error,
    same_key,
};
pub use crate::error::{
    ParseError, ParseErrorKind, ParseResult, WriteError, WriteErrorKind, WriteResult,
};
pub use crate::format::{
    block, entries_float_leaves, fields_float_leaves, first_text, float_leaves, FloatLeaf,
    format_value, items_float_leaves, lemma_texts_after_twice, rendered, rendered_entries,
    rendered_fields, rendered_items, suffix_text, texts_after, to_ascii, type_suffix,
};
pub use crate::integers::{
    leading_value, lemma_integer_wire_types, lemma_integers_roundtrip, lemma_unsigned_roundtrip,
    parse_unsigned, short_of, signed_of, unsigned_of,
};
pub use crate::laws::{
    entries_decode_plainly, lemma_duplicate_entry_found, lemma_duplicate_entry_refused,
    lemma_enum_exact_fit, lemma_field_read_back, lemma_high_bit_rejected, lemma_variant_exact_fit,
    lemma_variant_read_back,
};
pub use crate::le::{
    from_twos_complement, le_bytes, le_value, lemma_le_bytes_len, lemma_le_bytes_of_value,
    lemma_le_bytes_push, lemma_le_value_bound, lemma_le_value_of_bytes, lemma_pow256_monotonic,
    lemma_pow256_values, lemma_twos_complement_roundtrip, pow256, read_le, twos_complement,
    write_le,
};
pub use crate::parse::{
    lemma_length_agreement, lemma_parse_of_encoding, lemma_parse_rejects_high_bit, parse,
    parse_outcome, parse_tlv, parse_value_for_typeid, tlv_outcome,
};
pub use crate::record::{
    end_error, expect_end, field_bytes, field_length, field_write_error, MAX_FIELD_ID,
    parse_variant, read_variant_id, record_bytes, record_write_error, unknown_variant,
    variant_id_read, variant_length, write_field, write_variant,
};
pub use crate::scalars::{
    append_bytes, bool_byte, Float32, Float64, lemma_scalar_wire_types, lemma_scalars_roundtrip,
    Null, parse_text, text_error, text_length, too_large, write_text,
};
pub use crate::schema::{
    check_variant, combine_markings, combined, count_below, count_of, declared, declared_ids,
    digits_value, first_marking_error, holds_id, id_value, id_words, ids_distinct, ids_rise,
    is_blank, last_id, least_duplicate, Marking, marking_error, marking_of_words, markings_sound,
    order_by_id, read_marking, SchemaError, skip_word, struct_layout, trim_back, trim_front,
    variant_error, VariantShape,
};
pub use crate::text::{
    decimal, digit, digit_char, escaped, escaped_char, format_string_literal, push_decimal,
    push_escaped_char, push_signed_decimal, quoted, signed_decimal,
};
pub use crate::timestamp::{
    calendar_holds, lemma_timestamp_roundtrips, lemma_timestamp_wire_type, Timestamp,
    wire_in_calendar, wire_seconds,
};
pub use crate::traits::{
    add_lengths, clamp_length, decoded, FieldValue, lemma_prefix_of_prefix, lemma_prefix_of_sum,
    lemma_prefixes_of_prefix, Relish, roundtrips,
};
pub use crate::type_id::{TYPE_ID_LIMIT, TypeId, TypeLength};
pub use crate::value::{
    alike, alike_values, decode_error, decoded_key_seen, decodes_to, describes, entries_alike,
    entries_describe, entries_error, entry_frames, fields_alike, fields_describe, fields_error,
    items_alike, items_describe, items_error, key_among, lemma_alike_transitive,
    lemma_describes_alike, lemma_entries_alike_pointwise, lemma_entries_describe_pointwise,
    lemma_fields_alike_pointwise, lemma_fields_describe_pointwise, lemma_items_alike_pointwise,
    lemma_items_describe_pointwise, number_width, record_frames, same_decoded, Value, value_error,
};
pub use crate::varint::{
    lemma_varint_read_bound, lemma_varint_roundtrip, lemma_varint_size, MAX_CONTENT_LENGTH,
    tagged_varint_length_size, varint_bytes, varint_read, varint_size, write_tagged_varint_length,
};
pub use crate::wire::{
    any_frame, expect_type_id, fits, frame, framed, lemma_any_frame_appended, lemma_any_frame_parts,
    lemma_frame_appended, lemma_frame_framed, lemma_frame_parts, lemma_tagged_frame_tagged,
    read_byte, read_tagged_varint_length, read_type_id, read_value_for_typeid, tagged, tagged_frame,
    type_byte,
};
pub use crate::write::{to_vec};
