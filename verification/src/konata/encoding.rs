//! The stored form of a detail page: its serialized bytes compressed with LZ4 (the
//! uncompressed size prepended), and their decompression when the page is read back.
use vstd::prelude::*;
use crate::konata::trace::{decimal, unsigned_text};

verus! {

/// The LZ4 block that `lz4_flex::compress_prepend_size` makes of `bytes`.
pub uninterp spec fn lz4_compressed(bytes: Seq<u8>) -> Seq<u8>;

/// An error of LZ4 decompression.
#[verifier::external_type_specification]
#[verifier::external_body]
pub struct ExDecompressError(lz4_flex::block::DecompressError);

/// `lz4_flex::compress_prepend_size`: compresses all bytes, with their count prepended as
/// a little-endian `u32`.
#[verifier::external_body]
fn compress_bytes(bytes: &[u8]) -> (compressed: Vec<u8>)
    requires
        bytes@.len() <= u32::MAX,
    ensures
        compressed@ == lz4_compressed(bytes@),
{
    lz4_flex::compress_prepend_size(bytes)
}

/// `lz4_flex::decompress_size_prepended`: decompresses a block made by
/// `compress_prepend_size`, which gives back the bytes that were compressed. Only such
/// blocks are handed to it: it allocates the size that the block's header declares, so
/// other input can exhaust memory.
#[verifier::external_body]
fn decompress_bytes(input: &[u8]) -> (result: Result<Vec<u8>, lz4_flex::block::DecompressError>)
    requires
        exists|bytes: Seq<u8>| #[trigger] lz4_compressed(bytes) == input@ && bytes.len() <= u32::MAX,
    ensures
        result is Ok || forall|bytes: Seq<u8>| #[trigger] lz4_compressed(bytes) == input@ ==> bytes.len() > u32::MAX,
        result matches Ok(v) ==> forall|bytes: Seq<u8>|
            #[trigger] lz4_compressed(bytes) == input@ && bytes.len() <= u32::MAX ==> v@ == bytes,
{
    lz4_flex::decompress_size_prepended(input)
}

/// The `Display` text of an LZ4 decompression error.
#[verifier::external_body]
fn decompress_error_text(error: &lz4_flex::block::DecompressError) -> (text: String) {
    format!("{error}")
}

/// The detail pages of a model in their stored form: each page's serialized bytes,
/// compressed. The view is the serialized bytes of each page, in page order.
pub struct EncodedPages {
    pages: Vec<Vec<u8>>,
    contents: Ghost<Seq<Seq<u8>>>,
}

impl View for EncodedPages {
    type V = Seq<Seq<u8>>;

    closed spec fn view(&self) -> Seq<Seq<u8>> {
        self.contents@
    }
}

/// The serialized bytes of each page in `pages`.
pub open spec fn serialized_views(pages: Seq<Vec<u8>>) -> Seq<Seq<u8>> {
    pages.map_values(|page: Vec<u8>| page@)
}

impl EncodedPages {
    /// Each stored page is the compression of the page it stands for.
    #[verifier::type_invariant]
    spec fn stored(self) -> bool {
        &&& self.pages@.len() == self.contents@.len()
        &&& forall|i: int|
            0 <= i < self.pages@.len() ==> #[trigger] self.pages@[i]@ == lz4_compressed(self.contents@[i])
                && self.contents@[i].len() <= u32::MAX
    }

    /// Compresses each of the serialized pages, in order.
    pub fn encode(serialized: &Vec<Vec<u8>>) -> (encoded: Self)
        requires
            forall|i: int| 0 <= i < serialized@.len() ==> #[trigger] serialized@[i]@.len() <= u32::MAX,
        ensures
            encoded@ == serialized_views(serialized@),
    {
        let mut pages: Vec<Vec<u8>> = Vec::new();
        let mut i: usize = 0;
        while i < serialized.len()
            invariant
                i <= serialized@.len(),
                pages@.len() == i,
                forall|j: int| 0 <= j < serialized@.len() ==> #[trigger] serialized@[j]@.len() <= u32::MAX,
                forall|j: int| 0 <= j < i ==> #[trigger] pages@[j]@ == lz4_compressed(serialized@[j]@),
            decreases serialized@.len() - i,
        {
            let page = compress_bytes(serialized[i].as_slice());
            pages.push(page);
            i = i + 1;
        }
        let ghost contents = serialized_views(serialized@);
        EncodedPages { pages, contents: Ghost(contents) }
    }

    /// The number of stored pages.
    pub fn page_count(&self) -> (count: usize)
        ensures
            count == self@.len(),
    {
        proof {
            use_type_invariant(self);
        }
        self.pages.len()
    }

    /// The size of page `page_id` in its stored form, for a stored page.
    pub fn encoded_size(&self, page_id: usize) -> (size: Option<usize>)
        ensures
            page_id < self@.len() <==> size is Some,
            size matches Some(n) ==> n == lz4_compressed(self@[page_id as int]).len(),
    {
        proof {
            use_type_invariant(self);
        }
        if page_id < self.pages.len() {
            Some(self.pages[page_id].len())
        } else {
            None
        }
    }

    /// The serialized bytes of page `page_id`: a page that is not stored is unavailable,
    /// a stored page gives back the bytes it was made of, and a stored form that does not
    /// decompress is reported with the decompression error.
    pub fn decode(&self, page_id: u32) -> (result: Result<Vec<u8>, String>)
        ensures
            page_id >= self@.len() ==> (result matches Err(message) && message@ == "Konata detail page "@
                + decimal(page_id as nat) + " is unavailable"@),
            page_id < self@.len() ==> (result matches Ok(v) && v@ == self@[page_id as int]),
    {
        proof {
            use_type_invariant(self);
        }
        if page_id as usize >= self.pages.len() {
            let message = String::from_str("Konata detail page ").concat(unsigned_text(page_id as u64).as_str()).concat(
                " is unavailable",
            );
            return Err(message);
        }
        let stored = &self.pages[page_id as usize];
        proof {
            let k = page_id as int;
            assert(lz4_compressed(self.contents@[k]) == stored@ && self.contents@[k].len() <= u32::MAX);
        }
        match decompress_bytes(stored.as_slice()) {
            Ok(v) => Ok(v),
            Err(error) => {
                let detail = decompress_error_text(&error);
                let message = String::from_str("Failed to decompress Konata detail page ").concat(
                    unsigned_text(page_id as u64).as_str(),
                ).concat(": ").concat(detail.as_str());
                Err(message)
            },
        }
    }
}

} // verus!
