//! Encoding a mask as an 8-bit grayscale PNG image. The encoder itself is the
//! `png` crate's; what is proved here is what is handed to it and what is done
//! with its answer.
use crate::mask::Mask;
use crate::mask::MaskError;
use crate::mask::MaskView;
use vstd::prelude::*;

verus! {

/// The error type of the `png` crate's encoder, carried through unread.
#[verifier::external_type_specification]
#[verifier::external_body]
pub struct ExEncodingError(png::EncodingError);

/// The PNG stream that the `png` crate's encoder, with its default compression
/// and filter, makes of `pixels` as an 8-bit grayscale image of `width` by
/// `height`, or `None` where the encoder refuses the image.
pub uninterp spec fn png_grayscale(width: u32, height: u32, pixels: Seq<u8>) -> Option<Seq<u8>>;

/// Whether the encoder can address one row of `width` pixels: it counts the
/// bits of a row, eight per pixel, in a `usize`.
pub open spec fn row_addressable(width: u32) -> bool {
    width * 8 <= usize::MAX
}

/// The PNG stream of a mask, or `None` where the mask cannot be encoded.
pub open spec fn png_bytes(m: MaskView) -> Option<Seq<u8>> {
    if row_addressable(m.width) {
        png_grayscale(m.width, m.height, m.pixels)
    } else {
        None
    }
}

/// Runs `png::Encoder` on an in-memory sink: `Encoder::new`, `set_color` with
/// `Grayscale`, `set_depth` with `Eight`, `write_header`, then
/// `Writer::write_image_data`; dropping the writer ends the stream. The
/// contract claims that the answer depends on the arguments alone, and that an
/// image without columns or without rows is refused, as `write_header` does
/// before it writes anything. The two preconditions keep the encoder's own
/// size arithmetic from overflowing.
#[verifier::external_body]
fn encode_grayscale(width: u32, height: u32, pixels: &[u8]) -> (r: Result<
    Vec<u8>,
    png::EncodingError,
>)
    requires
        pixels@.len() == width * height,
        row_addressable(width),
    ensures
        match r {
            Ok(bytes) => png_grayscale(width, height, pixels@) == Some(bytes@),
            Err(_) => png_grayscale(width, height, pixels@) is None,
        },
        width == 0 || height == 0 ==> r is Err,
{
    let mut out = Vec::new();
    {
        let mut encoder = png::Encoder::new(&mut out, width, height);
        encoder.set_color(png::ColorType::Grayscale);
        encoder.set_depth(png::BitDepth::Eight);
        let mut writer = encoder.write_header()?;
        writer.write_image_data(pixels)?;
    }
    Ok(out)
}

/// Appends an encoder's stream to `out`, or reports that the encoder refused
/// the image and leaves `out` as it is.
pub fn write_encoded(out: &mut Vec<u8>, encoded: Result<Vec<u8>, png::EncodingError>) -> (r: Result<
    (),
    MaskError,
>)
    ensures
        match encoded {
            Ok(bytes) => r is Ok && final(out)@ == old(out)@ + bytes@,
            Err(_) => r == Err::<(), MaskError>(MaskError::Encoding) && final(out)@ == old(out)@,
        },
{
    match encoded {
        Ok(bytes) => {
            out.extend_from_slice(bytes.as_slice());
            assert(out@ =~= old(out)@ + bytes@);
            Ok(())
        },
        Err(_) => Err(MaskError::Encoding),
    }
}

impl Mask {
    /// Writes the mask to `out` as a single-channel 8-bit grayscale PNG image.
    /// Where the mask cannot be encoded, `out` stays as it is; a mask without
    /// columns or without rows never can.
    pub fn write_png(&self, out: &mut Vec<u8>) -> (r: Result<(), MaskError>)
        requires
            self@.wf(),
        ensures
            match png_bytes(self@) {
                Some(bytes) => r is Ok && final(out)@ == old(out)@ + bytes,
                None => r == Err::<(), MaskError>(MaskError::Encoding) && final(out)@ == old(
                    out,
                )@,
            },
            self@.width == 0 || self@.height == 0 ==> r is Err,
    {
        if (self.width() as u64) * 8 > (usize::MAX as u64) {
            return Err(MaskError::Encoding);
        }
        let encoded = encode_grayscale(self.width(), self.height(), self.pixels());
        write_encoded(out, encoded)
    }
}

} // verus!
