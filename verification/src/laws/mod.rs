//! What the wire formats and the orders on them mean, in terms of the numbers,
//! texts and lists that they stand for.

mod commands;
mod fields;
mod files;
mod fingerprints;
mod ids;
mod ints;
mod messages;
mod numbers;
mod readings;
mod shapes;

pub use commands::{
    decimal_char, law_bare_mode_is_spelled, law_block_mode_is_spelled, law_buffered_mode_is_spelled,
    law_command_line_is_settled, law_flags_set_what_they_are_for, law_plain_number_grows,
    law_ring_mode_is_spelled, law_ring_shape_is_three_numbers, law_single_digits_are_numbers,
    law_text_is_cut_at_the_first_mark, no_x,
};
pub use fields::{
    law_container_holds_its_length, law_first_and_rest, law_flag_is_one_byte,
    law_patch_replaces_bytes, law_reader_goes_on_or_stops, law_reader_reads_whole_strings,
    law_string_is_length_and_bytes, law_string_is_read_if_it_is_there,
};
pub use files::{
    law_buffers_are_written_one_behind_the_other, law_open_creates_or_empties,
    law_parent_is_the_directory, law_publish_moves_the_file, law_remove_takes_the_file_away,
};
pub use fingerprints::{
    law_bits_of_a_byte, law_cancelled_byte_is_shifted_out, law_fingerprint_is_linear, xor_bytes,
};
pub use ids::{
    law_ballot_round_comes_first, law_ballots_of_one_round_order_by_owner,
    law_decimal_ids_order_as_numbers, law_first_different_byte_decides, law_id_field_holds_the_text,
    law_numeric_id_is_its_number, law_shorter_id_comes_first, law_unterminated_id_is_refused,
};
pub use ints::{
    law_u16_is_little_endian, law_u32_is_little_endian, law_u64_is_little_endian,
    law_written_u16_is_little_endian, law_written_u32_is_little_endian,
    law_written_u64_is_little_endian,
};
pub use messages::{
    carries_members, carries_texts, header_kept, law_bad_header_is_refused,
    law_checksum_is_the_fingerprint, law_cut_vote_is_refused, law_header_sizes,
    law_message_fields_have_their_places, law_plain_message_comes_back,
    law_request_is_put_behind_the_others, law_short_buffer_does_not_verify, message_kept, node_kept,
    plain_header, plain_id, plain_message, plain_set, plain_vote, set_kept, vote_kept,
};
pub use readings::{
    law_ballot_is_read_from_its_places, law_configuration_is_read_from_its_places,
    law_header_is_read_from_its_places, law_header_stops_at_the_field,
    law_join_is_read_from_its_places, law_member_is_read_from_its_places,
    law_members_are_read_in_a_row, law_other_bodies_are_read_behind_the_header,
    law_reading_stops_at_the_field, law_set_is_read_from_its_places,
    law_status_is_read_from_its_places, law_vote_is_read_part_by_part,
};
pub use shapes::{
    law_accepted_prepare_carries_the_vote, law_any_nonzero_mark_is_set,
    law_bootstrap_carries_the_set, law_configuration_is_number_decree_and_set,
    law_header_fields_have_their_places, law_join_fields_have_their_places,
    law_member_fields_have_their_places, law_member_is_put_behind_the_others,
    law_other_messages_are_refused, law_prepare_carries_the_cookie,
    law_requests_are_read_to_the_end, law_set_is_count_members_and_cookie,
    law_status_fields_have_their_places, law_vote_body_is_in_order,
    law_votes_are_refused_for_a_reason,
};
pub use numbers::{
    at_most_max, hex_worth, law_blanks_do_not_count, law_decimal_digits, law_decimal_number_grows,
    law_empty_text_is_zero, law_hex_number_grows, law_octal_number_grows,
    law_signs_count_modulo_the_word, law_trailing_text_is_refused,
};

pub(crate) use messages::{lemma_plain_id, lemma_plain_set, lemma_plain_vote};
