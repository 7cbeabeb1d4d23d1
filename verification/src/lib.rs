mod glyph;
mod names;
mod table;
mod text;

pub use glyph::DecodedImage;
pub use glyph::lemma_byte_bits;
pub use glyph::lemma_pack_round_trip;
pub use glyph::lemma_packed_len;
pub use glyph::pack_glyph;
pub use glyph::unpack_glyph;
pub use names::is_png_file;
pub use names::lemma_sorted_names_unique;
pub use names::sort_files;
pub use names::str_le;
pub use table::FontError;
pub use table::FontToBytes;
pub use table::lemma_header_count;
pub use table::lemma_output_canonical;
