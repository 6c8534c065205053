use raster3d::clip::{clip_count, clip_plan, ClipPlan};
use raster3d::clip::Corner::{Cut, Kept};

#[test]
fn all_outside_is_discarded() {
    let p = clip_plan([false, false, false]);
    assert_eq!(p, ClipPlan::Discard);
    assert_eq!(clip_count(&p), 0);
}

#[test]
fn all_inside_is_kept_whole() {
    let p = clip_plan([true, true, true]);
    assert_eq!(p, ClipPlan::Whole);
    assert_eq!(clip_count(&p), 1);
}

#[test]
fn one_inside_gives_smaller_triangle() {
    assert_eq!(clip_plan([true, false, false]), ClipPlan::One([Kept(0), Cut(0, 1), Cut(0, 2)]));
    assert_eq!(clip_plan([false, true, false]), ClipPlan::One([Kept(1), Cut(1, 0), Cut(1, 2)]));
    assert_eq!(clip_plan([false, false, true]), ClipPlan::One([Kept(2), Cut(2, 0), Cut(2, 1)]));
    assert_eq!(clip_count(&clip_plan([false, true, false])), 1);
}

#[test]
fn two_inside_gives_quad_as_two_triangles() {
    assert_eq!(
        clip_plan([true, true, false]),
        ClipPlan::Two([Kept(0), Kept(1), Cut(0, 2)], [Kept(1), Cut(0, 2), Cut(1, 2)])
    );
    assert_eq!(
        clip_plan([true, false, true]),
        ClipPlan::Two([Kept(0), Kept(2), Cut(0, 1)], [Kept(2), Cut(0, 1), Cut(2, 1)])
    );
    assert_eq!(
        clip_plan([false, true, true]),
        ClipPlan::Two([Kept(1), Kept(2), Cut(1, 0)], [Kept(2), Cut(1, 0), Cut(2, 0)])
    );
    assert_eq!(clip_count(&clip_plan([true, false, true])), 2);
}
