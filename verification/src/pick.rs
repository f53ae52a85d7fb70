use vstd::prelude::*;

verus! {

/// The number a pick-buffer pixel stores, its bytes read little-endian.
pub open spec fn pixel_key(pixel: Seq<u8>) -> int {
    pixel[0] + 256 * pixel[1] + 65536 * pixel[2] + 16777216 * pixel[3]
}

/// The stroke drawn at a pixel of the pick buffer: pixel value `n` names the
/// `n`-th stroke of the color key map (counting from one); zero and values
/// past the end of the map (its length taken as a `u32`) name no stroke.
pub fn pick_stroke(pixel: [u8; 4], color_key_map: &Vec<u64>) -> (res: Option<u64>)
    ensures
        ({
            let color = pixel_key(pixel@);
            if 0 < color <= (color_key_map@.len() as u32) {
                res == Some(color_key_map@[color - 1])
            } else {
                res is None
            }
        }),
{
    let color: u32 = (pixel[0] as u32) + 256 * (pixel[1] as u32) + 65536 * (pixel[2] as u32) + 16777216 * (pixel[3] as u32);
    let n = color_key_map.len() as u32;
    if color > 0 && color <= n {
        Some(color_key_map[(color - 1) as usize])
    } else {
        None
    }
}

} // verus!
