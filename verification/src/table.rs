use vstd::prelude::*;
use vstd::string::StringExecFns;
use crate::glyph::{DecodedImage, packed, pack_glyph, lemma_pixel_count_multiple};
use crate::names::{
    sorted_names, name_views, png_names, filter_png, sort_files, lemma_sorted_names_unique,
};
use crate::text::{dec_of, hex_of, upper_of, append_dec, append_hex, append_upper};

verus! {

/// Why a table could not be produced.
#[derive(Clone, Copy, Debug, PartialEq, Eq, Structural)]
pub enum FontError {
    /// No directory entry carried the recognized image extension.
    NoGlyphs,
    /// The probed glyph width is not a multiple of eight, so rows would not
    /// pack into whole bytes.
    BadWidth,
    /// A glyph's dimensions differ from those probed from the first glyph.
    DimensionMismatch,
}

impl FontError {
    /// A human-readable diagnostic for the error.
    pub fn message(&self) -> (r: &'static str)
        ensures
            *self == FontError::NoGlyphs ==> r@ == "no matching image files found"@,
            *self == FontError::BadWidth ==> r@ == "glyph width is not a multiple of 8"@,
            *self == FontError::DimensionMismatch ==> r@
                == "glyph dimensions do not match the first glyph"@,
    {
        match self {
            FontError::NoGlyphs => "no matching image files found",
            FontError::BadWidth => "glyph width is not a multiple of 8",
            FontError::DimensionMismatch => "glyph dimensions do not match the first glyph",
        }
    }
}

/// The pixel grids of a list of images.
pub open spec fn pixel_grids(imgs: Seq<DecodedImage>) -> Seq<Seq<u8>> {
    imgs.map_values(|img: DecodedImage| img.pixels@)
}

/// Whether every image in the list has exactly the given dimensions.
pub open spec fn uniform_dims(imgs: Seq<DecodedImage>, w: u32, h: u32) -> bool {
    forall|k: int| 0 <= k < imgs.len() ==> ((#[trigger] imgs[k]).width == w && imgs[k].height == h)
}

/// The table header: include guard, the four metadata definitions, and the
/// opening of the array declaration.
pub open spec fn header_text(name: Seq<char>, count: nat, row_bytes: nat, rows: nat) -> Seq<
    char,
> {
    "#ifndef "@ + upper_of(name) + "_H_\n#define "@ + upper_of(name) + "_H_\n\n#define "@
        + upper_of(name) + "_IDX_CNT          ("@ + dec_of(count) + "u)\n#define "@ + upper_of(name)
        + "_WIDTH_BYTES      ("@ + dec_of(row_bytes) + "u)\n#define "@ + upper_of(name)
        + "_HEIGHT_ROWS      ("@ + dec_of(rows) + "u)\n#define "@ + upper_of(name)
        + "_BYTES_PER_CHAR   ("@ + upper_of(name) + "_HEIGHT_ROWS * "@ + upper_of(name)
        + "_WIDTH_BYTES)\n\nstatic const unsigned char "@ + name + "["@ + upper_of(name)
        + "_IDX_CNT]["@ + upper_of(name) + "_BYTES_PER_CHAR] = {"@
}

/// Separator before byte `idx` of a glyph's body: items are comma
/// separated, with a line break after every twelfth byte.
pub open spec fn sep_text(idx: int) -> Seq<char> {
    if idx == 0 {
        Seq::empty()
    } else if idx % 12 == 0 {
        ",\n\t "@
    } else {
        ", "@
    }
}

/// The first `n` bytes of a glyph rendered as `0x..` items with separators.
pub open spec fn body_prefix(bytes: Seq<u8>, n: int) -> Seq<char>
    decreases n,
{
    if n <= 0 {
        Seq::empty()
    } else {
        body_prefix(bytes, n - 1) + sep_text(n - 1) + "0x"@ + hex_of(bytes[n - 1])
    }
}

/// A glyph's bytes rendered as the inside of its brace pair.
pub open spec fn body_text(bytes: Seq<u8>) -> Seq<char> {
    body_prefix(bytes, bytes.len() as int)
}

/// One glyph's fragment: a comment naming the source file, then the packed
/// bytes inside braces, followed by the comma that joins fragments into the
/// outer array.
pub open spec fn fragment_text(folder: Seq<char>, file: Seq<char>, pixels: Seq<u8>) -> Seq<
    char,
> {
    "\n\t// "@ + folder + "/"@ + file + "\n\t{"@ + body_text(packed(pixels)) + "},"@
}

/// The first `n` glyph fragments, in order.
pub open spec fn fragments_prefix(
    folder: Seq<char>,
    files: Seq<Seq<char>>,
    glyphs: Seq<Seq<u8>>,
    n: int,
) -> Seq<char>
    decreases n,
{
    if n <= 0 {
        Seq::empty()
    } else {
        fragments_prefix(folder, files, glyphs, n - 1) + fragment_text(
            folder,
            files[n - 1],
            glyphs[n - 1],
        )
    }
}

/// The complete output document for one table.
pub open spec fn table_text(
    folder: Seq<char>,
    files: Seq<Seq<char>>,
    name: Seq<char>,
    glyphs: Seq<Seq<u8>>,
    width: nat,
    rows: nat,
) -> Seq<char> {
    header_text(name, files.len(), width / 8, rows) + fragments_prefix(
        folder,
        files,
        glyphs,
        files.len() as int,
    ) + "\n};\n\n#endif"@
}

/// Appends the formatted bytes of one glyph.
fn append_body(out: &mut String, bytes: &Vec<u8>)
    ensures
        final(out)@ == old(out)@ + body_text(bytes@),
{
    proof {
        assert(out@ =~= old(out)@ + body_prefix(bytes@, 0));
    }
    let mut idx: usize = 0;
    while idx < bytes.len()
        invariant
            idx <= bytes@.len(),
            out@ == old(out)@ + body_prefix(bytes@, idx as int),
        decreases bytes@.len() - idx,
    {
        if idx > 0 {
            if idx % 12 == 0 {
                out.append(",\n\t ");
            } else {
                out.append(", ");
            }
        }
        append_hex(out, bytes[idx]);
        proof {
            assert(out@ =~= old(out)@ + body_prefix(bytes@, idx as int + 1));
        }
        idx += 1;
    }
}

/// One conversion job: the directory, the matching filenames in their final
/// order, and the name of the emitted array.
pub struct FontToBytes {
    pub folder: String,
    pub files: Vec<String>,
    pub array_name: String,
}

impl FontToBytes {
    /// Builds a table job from a directory's entries: keeps exactly the
    /// names with the recognized extension and puts them in lexicographic
    /// order, so that repeated runs over the same directory contents see
    /// the same sequence whatever order the listing supplied.
    pub fn new(folder: String, entries: Vec<String>, array_name: String) -> (r: FontToBytes)
        ensures
            r.folder == folder,
            r.array_name == array_name,
            sorted_names(name_views(r.files@)),
            name_views(r.files@).to_multiset() == png_names(name_views(entries@)).to_multiset(),
            r.files@.len() == png_names(name_views(entries@)).len(),
    {
        let kept = filter_png(&entries);
        let files = sort_files(kept);
        proof {
            broadcast use vstd::seq_lib::group_to_multiset_ensures;

            assert(name_views(files@).to_multiset().len() == name_views(files@).len());
            assert(png_names(name_views(entries@)).to_multiset().len() == png_names(
                name_views(entries@),
            ).len());
        }
        FontToBytes { folder, files, array_name }
    }

    /// The table header for the probed dimensions: include guard, glyph
    /// count, row byte-width, row count, derived bytes-per-glyph, and the
    /// opening of the array declaration.
    pub fn print_macro(&self, width: u32, height: u32) -> (r: String)
        ensures
            r@ == header_text(
                self.array_name@,
                self.files@.len() as nat,
                (width / 8) as nat,
                height as nat,
            ),
    {
        let mut out = String::new();
        out.append("#ifndef ");
        append_upper(&mut out, self.array_name.as_str());
        out.append("_H_\n#define ");
        append_upper(&mut out, self.array_name.as_str());
        out.append("_H_\n\n#define ");
        append_upper(&mut out, self.array_name.as_str());
        out.append("_IDX_CNT          (");
        append_dec(&mut out, self.files.len() as u64);
        out.append("u)\n#define ");
        append_upper(&mut out, self.array_name.as_str());
        out.append("_WIDTH_BYTES      (");
        append_dec(&mut out, (width / 8) as u64);
        out.append("u)\n#define ");
        append_upper(&mut out, self.array_name.as_str());
        out.append("_HEIGHT_ROWS      (");
        append_dec(&mut out, height as u64);
        out.append("u)\n#define ");
        append_upper(&mut out, self.array_name.as_str());
        out.append("_BYTES_PER_CHAR   (");
        append_upper(&mut out, self.array_name.as_str());
        out.append("_HEIGHT_ROWS * ");
        append_upper(&mut out, self.array_name.as_str());
        out.append("_WIDTH_BYTES)\n\nstatic const unsigned char ");
        out.append(self.array_name.as_str());
        out.append("[");
        append_upper(&mut out, self.array_name.as_str());
        out.append("_IDX_CNT][");
        append_upper(&mut out, self.array_name.as_str());
        out.append("_BYTES_PER_CHAR] = {");
        proof {
            assert(out@ =~= header_text(
                self.array_name@,
                self.files@.len() as nat,
                (width / 8) as nat,
                height as nat,
            ));
        }
        out
    }

    /// Emits the complete table for the given images, one per filename in
    /// order. The first image fixes the table dimensions; a width that does
    /// not pack into whole bytes, or a glyph that does not match the probed
    /// dimensions, is rejected rather than silently mis-packed.
    pub fn run(&self, images: &Vec<DecodedImage>) -> (r: Result<String, FontError>)
        requires
            images@.len() == self.files@.len(),
            forall|i: int| 0 <= i < images@.len() ==> (#[trigger] images@[i]).wf(),
        ensures
            match r {
                Ok(out) => {
                    &&& self.files@.len() > 0
                    &&& images@[0].width % 8 == 0
                    &&& uniform_dims(images@, images@[0].width, images@[0].height)
                    &&& out@ == table_text(
                        self.folder@,
                        name_views(self.files@),
                        self.array_name@,
                        pixel_grids(images@),
                        images@[0].width as nat,
                        images@[0].height as nat,
                    )
                },
                Err(FontError::NoGlyphs) => self.files@.len() == 0,
                Err(FontError::BadWidth) => self.files@.len() > 0 && images@[0].width % 8 != 0,
                Err(FontError::DimensionMismatch) => {
                    &&& self.files@.len() > 0
                    &&& images@[0].width % 8 == 0
                    &&& !uniform_dims(images@, images@[0].width, images@[0].height)
                },
            },
    {
        if self.files.len() == 0 {
            return Err(FontError::NoGlyphs);
        }
        let width = images[0].width;
        let height = images[0].height;
        if width % 8 != 0 {
            return Err(FontError::BadWidth);
        }
        let mut i: usize = 0;
        while i < images.len()
            invariant
                i <= images@.len(),
                self.files@.len() > 0,
                images@.len() == self.files@.len(),
                width == images@[0].width,
                height == images@[0].height,
                width % 8 == 0,
                uniform_dims(images@.take(i as int), width, height),
            decreases images@.len() - i,
        {
            let img = &images[i];
            if img.width != width || img.height != height {
                proof {
                    assert(!(images@[i as int].width == images@[0].width && images@[i as int].height
                        == images@[0].height));
                    assert(!uniform_dims(images@, images@[0].width, images@[0].height));
                }
                return Err(FontError::DimensionMismatch);
            }
            proof {
                assert(images@[i as int].width == width && images@[i as int].height == height);
                assert forall|k: int| 0 <= k < i as int + 1 implies ((#[trigger] images@.take(
                    i as int + 1,
                )[k]).width == width && images@.take(i as int + 1)[k].height == height) by {
                    assert(images@.take(i as int + 1)[k] == images@[k]);
                    if k < i as int {
                        assert(images@.take(i as int)[k] == images@[k]);
                    }
                }
            }
            i += 1;
        }
        proof {
            assert(images@.take(images@.len() as int) =~= images@);
            assert(uniform_dims(images@, width, height)) by {
                assert forall|k: int| 0 <= k < images@.len() implies ((#[trigger] images@[k]).width
                    == width && images@[k].height == height) by {
                    assert(images@.take(images@.len() as int)[k] == images@[k]);
                }
            }
        }
        let mut out = self.print_macro(width, height);
        let ghost header = header_text(
            self.array_name@,
            self.files@.len() as nat,
            (width / 8) as nat,
            height as nat,
        );
        let ghost nv = name_views(self.files@);
        let ghost grids = pixel_grids(images@);
        proof {
            assert(out@ =~= header + fragments_prefix(self.folder@, nv, grids, 0));
        }
        let mut g: usize = 0;
        while g < self.files.len()
            invariant
                self.files@.len() == images@.len(),
                g <= self.files@.len(),
                forall|i: int| 0 <= i < images@.len() ==> (#[trigger] images@[i]).wf(),
                uniform_dims(images@, width, height),
                width % 8 == 0,
                nv == name_views(self.files@),
                grids == pixel_grids(images@),
                header == header_text(
                    self.array_name@,
                    self.files@.len() as nat,
                    (width / 8) as nat,
                    height as nat,
                ),
                out@ == header + fragments_prefix(self.folder@, nv, grids, g as int),
            decreases self.files@.len() - g,
        {
            out.append("\n\t// ");
            out.append(self.folder.as_str());
            out.append("/");
            let file = &self.files[g];
            out.append(file.as_str());
            out.append("\n\t{");
            let img = &images[g];
            proof {
                lemma_pixel_count_multiple(images@[g as int]);
            }
            let bytes = pack_glyph(&img.pixels);
            append_body(&mut out, &bytes);
            out.append("},");
            proof {
                assert(out@ =~= header + fragments_prefix(
                    self.folder@,
                    nv,
                    grids,
                    g as int + 1,
                ));
            }
            g += 1;
        }
        out.append("\n};\n\n#endif");
        proof {
            assert(out@ =~= table_text(
                self.folder@,
                nv,
                self.array_name@,
                grids,
                width as nat,
                height as nat,
            ));
        }
        Ok(out)
    }
}

/// Law: the output text is determined by which names are present, not by
/// the order the directory listing supplied them — two sorted listings with
/// the same names produce byte-identical output.
pub proof fn lemma_output_canonical(
    folder: Seq<char>,
    name: Seq<char>,
    files1: Seq<Seq<char>>,
    files2: Seq<Seq<char>>,
    glyphs: Seq<Seq<u8>>,
    width: nat,
    rows: nat,
)
    requires
        sorted_names(files1),
        sorted_names(files2),
        files1.to_multiset() == files2.to_multiset(),
    ensures
        table_text(folder, files1, name, glyphs, width, rows) == table_text(
            folder,
            files2,
            name,
            glyphs,
            width,
            rows,
        ),
{
    lemma_sorted_names_unique(files1, files2);
}

/// Law: the glyph count rendered in the header is exactly the number of
/// matching image files, for any file list holding the matching names.
pub proof fn lemma_header_count(
    folder: Seq<char>,
    name: Seq<char>,
    files: Seq<Seq<char>>,
    entries: Seq<Seq<char>>,
    glyphs: Seq<Seq<u8>>,
    width: nat,
    rows: nat,
)
    requires
        files.to_multiset() == png_names(entries).to_multiset(),
    ensures
        table_text(folder, files, name, glyphs, width, rows) == header_text(
            name,
            png_names(entries).len(),
            width / 8,
            rows,
        ) + fragments_prefix(folder, files, glyphs, files.len() as int) + "\n};\n\n#endif"@,
{
    broadcast use vstd::seq_lib::group_to_multiset_ensures;

    assert(files.to_multiset().len() == files.len());
    assert(png_names(entries).to_multiset().len() == png_names(entries).len());
}

} // verus!
