//! Image decoding through the `image` crate.

use crate::png::palette_in_order;
use vstd::prelude::*;

verus! {

/// What `image::load_from_memory` makes of a file's bytes: the pixels in RGBA
/// order with their width and height, or the text of its error.
pub uninterp spec fn decoded(bytes: Seq<u8>) -> Result<(Seq<u8>, u32, u32), Seq<char>>;

/// A decoded picture: eight bits for each of red, green, blue and alpha.
#[derive(Debug)]
pub struct Picture {
    pub rgba: Vec<u8>,
    pub width: u32,
    pub height: u32,
}

impl View for Picture {
    type V = (Seq<u8>, u32, u32);

    open spec fn view(&self) -> (Seq<u8>, u32, u32) {
        (self.rgba@, self.width, self.height)
    }
}

/// The pixels fill the picture's width and height, four bytes each.
pub open spec fn complete_picture(picture: (Seq<u8>, u32, u32)) -> bool {
    picture.0.len() == 4 * picture.1 * picture.2
}

/// Calls `image::load_from_memory`, which guesses the format from the leading
/// bytes and decodes the file, and hands the image out as plain values: its
/// pixels by `to_rgba8` and `into_raw`, its width and height by `dimensions`,
/// or the text of its error.
///
/// The PNG decoder below it refuses a palette with a wrong checksum, and panics
/// on pixels that index one with a torn colour or with more than 256 colours,
/// so such a file is not to be handed in.
///
/// Claimed of it: equal bytes give equal pixels and dimensions, or an equal
/// error text; the pixels take four bytes each. Which bytes decode, and to
/// what, is left unsaid.
#[verifier::external_body]
pub(crate) fn load_from_memory(bytes: &Vec<u8>) -> (result: Result<Picture, String>)
    requires
        palette_in_order(bytes@),
    ensures
        result is Ok <==> decoded(bytes@) is Ok,
        result is Ok ==> result->Ok_0@ == decoded(bytes@)->Ok_0,
        result is Ok ==> complete_picture(result->Ok_0@),
        result is Err ==> result->Err_0@ == decoded(bytes@)->Err_0,
{
    match image::load_from_memory(bytes) {
        Ok(loaded) => {
            let rgba = loaded.to_rgba8();
            let (width, height) = rgba.dimensions();
            Ok(Picture { rgba: rgba.into_raw(), width, height })
        },
        Err(e) => Err(e.to_string()),
    }
}

} // verus!
