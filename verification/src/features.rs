use vstd::prelude::*;

verus! {

/// The feature vector an encoded image yields at a given resolution: the
/// row-major 8-bit intensities of the decoded image after grayscale
/// conversion and a triangle-filter resize to `width x height`. Decoding and
/// resampling are pure functions of the bytes and the resolution, so the
/// result is named rather than spelled out.
pub uninterp spec fn gray_resized(bytes: Seq<u8>, width: u32, height: u32) -> Seq<u8>;

/// Whether the bytes decode as a supported raster image. Decoding reads
/// nothing but the bytes (format sniffing, the decoders and their fixed
/// allocation limits are functions of the input alone), so success is a
/// function of the bytes and can be named.
pub uninterp spec fn decodes(bytes: Seq<u8>) -> bool;

/// Relies on image::load_from_memory, image::DynamicImage::to_luma8 and
/// image::imageops::resize with FilterType::Triangle: together they are a
/// deterministic function of the input bytes and the target resolution,
/// decoding succeeds or fails on the bytes alone, and a successful decode
/// yields exactly `width * height` pixels, row-major.
#[verifier::external_body]
fn decode_gray_resized(bytes: &Vec<u8>, width: u32, height: u32) -> (r: Result<Vec<u8>, ()>)
    requires
        1 <= width,
        1 <= height,
        width * height <= usize::MAX,
    ensures
        r is Ok <==> decodes(bytes@),
        r matches Ok(v) ==> v@ == gray_resized(bytes@, width, height) && v@.len() == width
            * height,
{
    match image::load_from_memory(bytes.as_slice()) {
        Ok(img) => {
            let gray = img.to_luma8();
            let resized = image::imageops::resize(
                &gray,
                width,
                height,
                image::imageops::FilterType::Triangle,
            );
            Ok(resized.into_raw())
        },
        Err(_) => Err(()),
    }
}

/// Encodes an image, given as its raw file bytes, into the feature vector of
/// `width * height` grayscale intensities; fails exactly when the bytes do
/// not decode as a supported raster format.
pub fn preprocess_image(bytes: &Vec<u8>, width: u32, height: u32) -> (r: Result<Vec<u8>, ()>)
    requires
        1 <= width,
        1 <= height,
        width * height <= usize::MAX,
    ensures
        r is Ok <==> decodes(bytes@),
        r matches Ok(v) ==> v@ == gray_resized(bytes@, width, height) && v@.len() == width
            * height,
{
    decode_gray_resized(bytes, width, height)
}

/// Law: encoding the same image bytes twice at the same resolution yields
/// bit-identical feature vectors.
pub proof fn lemma_encode_deterministic(
    bytes: Seq<u8>,
    width: u32,
    height: u32,
    r1: Seq<u8>,
    r2: Seq<u8>,
)
    requires
        r1 == gray_resized(bytes, width, height),
        r2 == gray_resized(bytes, width, height),
    ensures
        r1 == r2,
{
}

} // verus!
