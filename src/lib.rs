use vstd::prelude::*;

mod errors;
mod fix_message_builder;
mod laws;
mod serialization;
mod tags;
mod utils;

pub use errors::FixSerializeError;
pub use fix_message_builder::{
    FIX_BODY_LEN, FIX_CHECK_SUM, FIX_MESSAGE_TYPE, FIX_VERSION, FixMessageBuilder, MessageView,
    body_bytes, checked_bytes, decoding, encoding, field_values, tag_bytes,
};
pub use laws::{
    lemma_check_sum_enforced, lemma_missing_tags, lemma_repeated_tag_kept, lemma_round_trip, plain,
};
pub use serialization::{FixDeserializeModel, FixSerializeModel};
pub use tags::{split_fix_to_tags, tag_groups, wire_fields};
pub use utils::{
    FIX_DELIMETR, FIX_EQUALS, bytes_to_fix_string, calculate_check_sum, compile_fix_chunk,
    check_sum_digits, chunk, decimal, decimal_digits, signed_decimal, signed_decimal_digits,
};
