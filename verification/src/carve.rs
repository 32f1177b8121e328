use crate::energy::{calculate_energy_map, energy_grid, lemma_energy_grid_dimensions, EnergyMap};
use crate::error::CarveError;
use crate::picture::{fits_buffer, Color, Picture, PictureView};
use crate::seam::{
    find_low_energy_seam, lemma_lowest_seam_is_seam, lowest_seam, seam_fits, PixelLocation, Seam,
};
use vstd::prelude::*;

verus! {

/// The picture that is left when each row loses the pixel that the seam names
/// in it: one column narrower, the other pixels in their order.
pub open spec fn without_seam(picture: PictureView, seam: Seq<PixelLocation>) -> PictureView {
    PictureView {
        width: (picture.width - 1) as nat,
        height: picture.height,
        rows: Seq::new(picture.height, |y: int| picture.rows[y].remove(seam[y].x as int)),
    }
}

/// The picture after its cheapest seam is cut out.
pub open spec fn narrowed(picture: PictureView) -> PictureView {
    without_seam(picture, lowest_seam(energy_grid(picture)))
}

/// The picture after `trim_width` rounds of cutting out the cheapest seam,
/// each seam found in the picture that the round before left.
pub open spec fn carved(picture: PictureView, trim_width: nat) -> PictureView
    decreases trim_width,
{
    if trim_width == 0 {
        picture
    } else {
        narrowed(carved(picture, (trim_width - 1) as nat))
    }
}

/// Cutting a fitting seam out of a picture leaves a picture one column
/// narrower and as high, in which every pixel left of the seam stands where
/// it stood and every pixel right of it one column further left.
pub proof fn lemma_without_seam_keeps_pixels(picture: PictureView, seam: Seq<PixelLocation>)
    requires
        picture.wf(),
        picture.width > 0,
        seam_fits(seam, picture.width, picture.height),
    ensures
        without_seam(picture, seam).wf(),
        without_seam(picture, seam).width == picture.width - 1,
        without_seam(picture, seam).height == picture.height,
        forall|x: int, y: int|
            0 <= y < picture.height && 0 <= x < seam[y].x ==> without_seam(picture, seam).pixel(
                x,
                y,
            ) == picture.pixel(x, y),
        forall|x: int, y: int|
            0 <= y < picture.height && seam[y].x <= x < picture.width - 1 ==> without_seam(
                picture,
                seam,
            ).pixel(x, y) == picture.pixel(x + 1, y),
{
    let cut = without_seam(picture, seam);
    assert forall|y: int| 0 <= y < cut.height implies (#[trigger] cut.rows[y]).len()
        == cut.width by {
        assert(seam[y].x < picture.width);
        assert(picture.rows[y].len() == picture.width);
    }
    assert forall|x: int, y: int| 0 <= y < picture.height && 0 <= x < seam[y].x implies cut.pixel(
        x,
        y,
    ) == picture.pixel(x, y) by {
        assert(picture.rows[y].len() == picture.width);
    }
    assert forall|x: int, y: int|
        0 <= y < picture.height && seam[y].x <= x < picture.width - 1 implies cut.pixel(x, y)
        == picture.pixel(x + 1, y) by {
        assert(picture.rows[y].len() == picture.width);
    }
}

/// Whether the seam names one pixel of each row of the picture, top to
/// bottom.
fn seam_matches(seam: &Seam, width: u32, height: u32) -> (fits: bool)
    ensures
        fits == seam_fits(seam@, width as nat, height as nat),
{
    if seam.locations.len() != height as usize {
        return false;
    }
    let mut y: u32 = 0;
    while y < height
        invariant
            seam@.len() == height,
            y <= height,
            forall|r: int| 0 <= r < y ==> (#[trigger] seam@[r]).y == r && seam@[r].x < width,
        decreases height - y,
    {
        let location: PixelLocation = seam.locations[y as usize];
        if location.y != y || location.x >= width {
            return false;
        }
        y += 1;
    }
    true
}

/// Cuts the seam out of the picture: the result is one column narrower, and
/// each of its rows holds the pixels of the picture's row but the one that
/// the seam names, in their order. The picture itself is left as it is.
///
/// A seam that does not name exactly one pixel of the picture in each row,
/// top to bottom, is refused as `SeamRowMismatch`; a picture without
/// columns as `InvalidDimensions`.
pub fn delete_seam(img: &Picture, seam: &Seam) -> (cut: Result<Picture, CarveError>)
    ensures
        cut.is_ok() <==> seam_fits(seam@, img@.width, img@.height) && img@.width > 0,
        cut == Err::<Picture, CarveError>(CarveError::SeamRowMismatch) <==> !seam_fits(
            seam@,
            img@.width,
            img@.height,
        ),
        cut == Err::<Picture, CarveError>(CarveError::InvalidDimensions) <==> seam_fits(
            seam@,
            img@.width,
            img@.height,
        ) && img@.width == 0,
        cut matches Ok(out) ==> {
            &&& out@ == without_seam(img@, seam@)
            &&& out@.wf()
            &&& out@.width == img@.width - 1
            &&& out@.height == img@.height
        },
{
    let (old_width, old_height) = img.dimensions();
    if !seam_matches(seam, old_width, old_height) {
        return Err(CarveError::SeamRowMismatch);
    }
    if old_width == 0 {
        return Err(CarveError::InvalidDimensions);
    }
    let width: u32 = old_width - 1;
    assert(fits_buffer(width as nat, old_height as nat)) by (nonlinear_arith)
        requires
            fits_buffer(old_width as nat, old_height as nat),
            width == old_width - 1,
    ;
    let mut new_img: Picture = Picture::new(width, old_height).unwrap();
    let ghost goal = without_seam(img@, seam@);
    proof {
        lemma_without_seam_keeps_pixels(img@, seam@);
    }
    let mut y: u32 = 0;
    while y < old_height
        invariant
            img@.wf(),
            old_width == img@.width,
            old_height == img@.height,
            width == old_width - 1,
            seam_fits(seam@, img@.width, img@.height),
            goal == without_seam(img@, seam@),
            goal.wf(),
            new_img@.wf(),
            new_img@.width == width,
            new_img@.height == old_height,
            y <= old_height,
            forall|r: int| 0 <= r < y ==> #[trigger] new_img@.rows[r] == goal.rows[r],
        decreases old_height - y,
    {
        let skipped: u32 = seam.locations[y as usize].x;
        let mut x: u32 = 0;
        while x < width
            invariant
                img@.wf(),
                old_width == img@.width,
                old_height == img@.height,
                width == old_width - 1,
                seam_fits(seam@, img@.width, img@.height),
                goal == without_seam(img@, seam@),
                goal.wf(),
                new_img@.wf(),
                new_img@.width == width,
                new_img@.height == old_height,
                y < old_height,
                skipped == seam@[y as int].x,
                x <= width,
                forall|r: int| 0 <= r < y ==> #[trigger] new_img@.rows[r] == goal.rows[r],
                forall|c: int|
                    0 <= c < x ==> #[trigger] new_img@.rows[y as int][c] == goal.rows[y as int][c],
            decreases width - x,
        {
            let source: u32 = if x < skipped {
                x
            } else {
                x + 1
            };
            let color: Color = img.get_pixel(source, y);
            proof {
                assert(img@.rows[y as int].len() == img@.width);
                assert(goal.rows[y as int][x as int] == color);
            }
            new_img.put_pixel(x, y, color);
            x += 1;
        }
        proof {
            assert(goal.rows[y as int].len() == width);
            assert(new_img@.rows[y as int].len() == width);
            assert(new_img@.rows[y as int] =~= goal.rows[y as int]);
        }
        y += 1;
    }
    assert(new_img@.rows =~= goal.rows);
    Ok(new_img)
}

/// Every round of carving takes one column and leaves the height.
pub proof fn lemma_carved_dimensions(picture: PictureView, trim_width: nat)
    requires
        picture.wf(),
        trim_width < picture.width,
        trim_width > 0 ==> picture.height > 0,
    ensures
        carved(picture, trim_width).wf(),
        carved(picture, trim_width).width == picture.width - trim_width,
        carved(picture, trim_width).height == picture.height,
    decreases trim_width,
{
    if trim_width > 0 {
        let before = carved(picture, (trim_width - 1) as nat);
        lemma_carved_dimensions(picture, (trim_width - 1) as nat);
        lemma_energy_grid_dimensions(before);
        lemma_lowest_seam_is_seam(energy_grid(before));
        lemma_without_seam_keeps_pixels(before, lowest_seam(energy_grid(before)));
    }
}

/// Narrows a picture by `trim_width` columns. Each round rates the pixels of
/// the picture as the round before left it, finds the cheapest seam and cuts
/// it out.
///
/// A `trim_width` that is not smaller than the picture's width is refused as
/// `InvalidTrimWidth` before anything is cut; a picture without rows that is
/// to lose a column as `InvalidDimensions`.
pub fn resize_image(img: Picture, trim_width: u32) -> (resized: Result<Picture, CarveError>)
    ensures
        resized == Err::<Picture, CarveError>(CarveError::InvalidTrimWidth) <==> trim_width
            >= img@.width,
        resized == Err::<Picture, CarveError>(CarveError::InvalidDimensions) <==> 0 < trim_width
            < img@.width && img@.height == 0,
        resized.is_ok() <==> trim_width < img@.width && (trim_width == 0 || img@.height > 0),
        resized matches Ok(out) ==> {
            &&& out@ == carved(img@, trim_width as nat)
            &&& out@.wf()
            &&& out@.width == img@.width - trim_width
            &&& out@.height == img@.height
            &&& trim_width == 0 ==> out@ == img@
        },
{
    let (in_width, in_height) = img.dimensions();
    if trim_width >= in_width {
        return Err(CarveError::InvalidTrimWidth);
    }
    let ghost input = img@;
    let mut out: Picture = img;
    let mut trimmed: u32 = 0;
    while trimmed < trim_width
        invariant
            input == img@,
            input.wf(),
            in_width == input.width,
            in_height == input.height,
            trim_width < in_width,
            trimmed <= trim_width,
            trimmed > 0 ==> in_height > 0,
            out@ == carved(input, trimmed as nat),
            out@.wf(),
            out@.width == in_width - trimmed,
            out@.height == in_height,
        decreases trim_width - trimmed,
    {
        let energy_map: EnergyMap = match calculate_energy_map(&out) {
            Ok(energy_map) => energy_map,
            Err(e) => {
                return Err(e);
            },
        };
        let seam: Seam = match find_low_energy_seam(&energy_map) {
            Ok(seam) => seam,
            Err(e) => {
                return Err(e);
            },
        };
        out =
        match delete_seam(&out, &seam) {
            Ok(narrower) => narrower,
            Err(e) => {
                return Err(e);
            },
        };
        trimmed += 1;
    }
    Ok(out)
}

} // verus!
