mod directory;
mod error;
mod file_slice;
mod index;
mod owned_bytes;
mod ram_directory;
mod tokenizer;

pub use directory::{Directory, Entry, has_path, lookup, map_of, path_index, unique_keys, upsert,
    usage};
pub use directory::{lemma_has_path_map_of, lemma_lookup_map_of, lemma_lookup_upsert,
    lemma_map_of_upsert, lemma_no_partial_content_visible,
    lemma_reservation_blocks_second_writer, lemma_upsert_unique, lemma_usage_accounting,
    lemma_usage_take_le, lemma_usage_take_succ, lemma_usage_upsert,
    lemma_write_flush_read_round_trip};
pub use error::DirError;
pub use file_slice::{AnyHandle, FileHandle, FileSlice, HasLen};
pub use file_slice::{lemma_full_slice_identity, lemma_split_concat};
pub use index::Index;
pub use owned_bytes::OwnedBytes;
pub use owned_bytes::{bytes_decimal, debug_repr, decimal_digits, digit_char};
pub use ram_directory::{InnerDirectory, RAMDirectory, VecWriter};
pub use tokenizer::{BoxTokenStream, SimpleTokenizer, TextAnalyzer, Token, TokenStream, Tokenizer,
    TokenizerManager};
pub use tokenizer::{is_token_char, next_break, next_token_start, token_bounds, token_bounds_from,
    tokens_match};
