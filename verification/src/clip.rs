//! The decision part of clipping a triangle against a plane. Which corners
//! lie on the kept side is measured elsewhere; from those three flags this
//! module decides how many triangles survive and how each of their corners is
//! obtained: a corner of the input, or the point where an edge from a kept
//! corner to a dropped corner crosses the plane.

use vstd::prelude::*;

verus! {

/// How a corner of a clipped triangle is obtained from the input triangle.
#[derive(Clone, Copy, Debug, PartialEq, Eq, Structural)]
pub enum Corner {
    /// Input corner number `i`, unchanged.
    Kept(usize),
    /// Where the edge from input corner `i` (kept side) to input corner `o`
    /// (dropped side) meets the plane.
    Cut(usize, usize),
}

/// The outcome of clipping one triangle against a plane.
#[derive(Clone, Copy, Debug, PartialEq, Eq)]
pub enum ClipPlan {
    /// Every corner is on the dropped side: nothing remains.
    Discard,
    /// Every corner is on the kept side: the triangle remains as it is.
    Whole,
    /// One corner is kept: a smaller triangle remains.
    One([Corner; 3]),
    /// Two corners are kept: the remaining quad is split into two triangles.
    Two([Corner; 3], [Corner; 3]),
}

/// The indices `i` below `n` with `flags[i] == want`, in increasing order.
pub open spec fn indices_where(flags: Seq<bool>, n: int, want: bool) -> Seq<usize>
    decreases n,
{
    if n <= 0 {
        Seq::empty()
    } else if flags[n - 1] == want {
        indices_where(flags, n - 1, want).push((n - 1) as usize)
    } else {
        indices_where(flags, n - 1, want)
    }
}

/// The corners on the kept side, in corner order.
pub open spec fn kept_corners(inside: Seq<bool>) -> Seq<usize> {
    indices_where(inside, 3, true)
}

/// The corners on the dropped side, in corner order.
pub open spec fn dropped_corners(inside: Seq<bool>) -> Seq<usize> {
    indices_where(inside, 3, false)
}

/// The clip outcome for the given side of each corner. With one kept corner
/// `a` and dropped corners `b`, `c`, the remaining triangle is `a`, cut(a, b),
/// cut(a, c). With kept corners `a`, `b` and dropped corner `c`, the quad
/// `a`, `b`, cut(b, c), cut(a, c) is split into the triangles
/// (`a`, `b`, cut(a, c)) and (`b`, cut(a, c), cut(b, c)).
pub open spec fn clip_plan_of(inside: Seq<bool>) -> ClipPlan {
    let ins = kept_corners(inside);
    let outs = dropped_corners(inside);
    if ins.len() == 0 {
        ClipPlan::Discard
    } else if ins.len() == 3 {
        ClipPlan::Whole
    } else if ins.len() == 1 {
        ClipPlan::One([Corner::Kept(ins[0]), Corner::Cut(ins[0], outs[0]), Corner::Cut(ins[0], outs[1])])
    } else {
        ClipPlan::Two(
            [Corner::Kept(ins[0]), Corner::Kept(ins[1]), Corner::Cut(ins[0], outs[0])],
            [Corner::Kept(ins[1]), Corner::Cut(ins[0], outs[0]), Corner::Cut(ins[1], outs[0])],
        )
    }
}

/// Number of triangles that a clip outcome leaves.
pub open spec fn plan_count(plan: ClipPlan) -> nat {
    match plan {
        ClipPlan::Discard => 0,
        ClipPlan::Whole => 1,
        ClipPlan::One(_) => 1,
        ClipPlan::Two(_, _) => 2,
    }
}

/// Decides how a triangle is clipped, given for each corner whether it lies
/// on the kept side of the plane (signed distance at least zero).
pub fn clip_plan(inside: [bool; 3]) -> (plan: ClipPlan)
    ensures
        plan == clip_plan_of(inside@),
{
    let mut ins: Vec<usize> = Vec::new();
    let mut outs: Vec<usize> = Vec::new();
    let mut i: usize = 0;
    while i < 3
        invariant
            i <= 3,
            ins@ == indices_where(inside@, i as int, true),
            outs@ == indices_where(inside@, i as int, false),
        decreases 3 - i,
    {
        if inside[i] {
            ins.push(i);
        } else {
            outs.push(i);
        }
        i = i + 1;
    }
    proof {
        lemma_split_sizes(inside@, 3);
    }
    if ins.len() == 0 {
        ClipPlan::Discard
    } else if ins.len() == 3 {
        ClipPlan::Whole
    } else if ins.len() == 1 {
        ClipPlan::One([Corner::Kept(ins[0]), Corner::Cut(ins[0], outs[0]), Corner::Cut(ins[0], outs[1])])
    } else {
        ClipPlan::Two(
            [Corner::Kept(ins[0]), Corner::Kept(ins[1]), Corner::Cut(ins[0], outs[0])],
            [Corner::Kept(ins[1]), Corner::Cut(ins[0], outs[0]), Corner::Cut(ins[1], outs[0])],
        )
    }
}

/// Every corner below `n` is on exactly one side.
proof fn lemma_split_sizes(flags: Seq<bool>, n: int)
    requires
        0 <= n,
    ensures
        indices_where(flags, n, true).len() + indices_where(flags, n, false).len() == n,
    decreases n,
{
    if n > 0 {
        lemma_split_sizes(flags, n - 1);
    }
}

/// The listed indices are below `n`, carry the wanted flag, increase strictly,
/// and every index below `n` with that flag is listed.
proof fn lemma_indices_where(flags: Seq<bool>, n: int, want: bool)
    requires
        0 <= n <= flags.len(),
        n <= usize::MAX,
    ensures
        ({
            let s = indices_where(flags, n, want);
            &&& forall|j: int| 0 <= j < s.len() ==> #[trigger] s[j] < n && flags[s[j] as int] == want
            &&& forall|j: int, l: int| 0 <= j < l < s.len() ==> #[trigger] s[j] < #[trigger] s[l]
            &&& forall|i: int| 0 <= i < n && flags[i] == want ==> #[trigger] s.contains(i as usize)
        }),
    decreases n,
{
    if n > 0 {
        lemma_indices_where(flags, n - 1, want);
        let prev = indices_where(flags, n - 1, want);
        let s = indices_where(flags, n, want);
        assert forall|i: int| 0 <= i < n && flags[i] == want implies #[trigger] s.contains(i as usize) by {
            if i < n - 1 {
                assert(prev.contains(i as usize));
                let j = choose|j: int| 0 <= j < prev.len() && prev[j] == i as usize;
                assert(s[j] == i as usize);
            } else {
                assert(s[s.len() - 1] == i as usize);
            }
        }
    }
}

/// A corner of a clipped triangle is well formed: a kept corner lies on the
/// kept side, and a cut joins a corner on the kept side to one on the
/// dropped side.
pub open spec fn corner_ok(inside: Seq<bool>, c: Corner) -> bool {
    match c {
        Corner::Kept(i) => i < 3 && inside[i as int],
        Corner::Cut(i, o) => i < 3 && o < 3 && inside[i as int] && !inside[o as int],
    }
}

/// Number of corners on the kept side.
pub open spec fn kept_count(inside: Seq<bool>) -> nat {
    (if inside[0] { 1nat } else { 0nat }) + (if inside[1] { 1nat } else { 0nat }) + (if inside[2] { 1nat } else { 0nat })
}

/// Clipping leaves no triangle when no corner is kept, two when exactly two
/// are kept, and one otherwise; every corner it produces is well formed, the
/// kept corners keep their input order, and the two triangles of a split quad
/// share the cut point on the edge from the first kept corner.
pub proof fn lemma_clip_plan_sound(inside: Seq<bool>)
    requires
        inside.len() == 3,
    ensures
        plan_count(clip_plan_of(inside)) == (if kept_count(inside) == 0 {
            0nat
        } else if kept_count(inside) == 2 {
            2nat
        } else {
            1nat
        }),
        clip_plan_of(inside) is Whole <==> kept_count(inside) == 3,
        clip_plan_of(inside) matches ClipPlan::One(t) ==> {
            &&& corner_ok(inside, t[0]) && corner_ok(inside, t[1]) && corner_ok(inside, t[2])
            &&& t[1] != t[2]
        },
        clip_plan_of(inside) matches ClipPlan::Two(t, u) ==> {
            &&& corner_ok(inside, t[0]) && corner_ok(inside, t[1]) && corner_ok(inside, t[2])
            &&& corner_ok(inside, u[0]) && corner_ok(inside, u[1]) && corner_ok(inside, u[2])
            &&& t[0] matches Corner::Kept(a) && t[1] matches Corner::Kept(b) && a < b
            &&& t[2] == u[1]
            &&& u[0] == t[1]
        },
{
    reveal_with_fuel(indices_where, 4);
    lemma_indices_where(inside, 3, true);
    lemma_indices_where(inside, 3, false);
    lemma_split_sizes(inside, 3);
}

/// The clip outcome described directly by the three flags: nothing when no
/// corner is kept; the whole triangle when all are; with one kept corner `i`
/// and dropped corners `o0 < o1`, the triangle `i`, cut(i, o0), cut(i, o1);
/// with kept corners `a < b` and dropped corner `c`, the triangles
/// (`a`, `b`, cut(a, c)) and (`b`, cut(a, c), cut(b, c)).
pub proof fn lemma_clip_plan_exact(inside: Seq<bool>)
    requires
        inside.len() == 3,
    ensures
        (clip_plan_of(inside) is Discard) <==> (!inside[0] && !inside[1] && !inside[2]),
        (clip_plan_of(inside) is Whole) <==> (inside[0] && inside[1] && inside[2]),
        clip_plan_of(inside) matches ClipPlan::One(t) ==> {
            &&& kept_count(inside) == 1
            &&& t[0] matches Corner::Kept(i)
            &&& t[1] matches Corner::Cut(i1, o0)
            &&& t[2] matches Corner::Cut(i2, o1)
            &&& i1 == i && i2 == i && inside[i as int]
            &&& o0 < o1 && o1 < 3 && !inside[o0 as int] && !inside[o1 as int]
        },
        clip_plan_of(inside) matches ClipPlan::Two(t, u) ==> {
            &&& kept_count(inside) == 2
            &&& t[0] matches Corner::Kept(a)
            &&& t[1] matches Corner::Kept(b)
            &&& t[2] matches Corner::Cut(a2, c)
            &&& a2 == a
            &&& a < b && b < 3 && c < 3
            &&& inside[a as int] && inside[b as int] && !inside[c as int]
            &&& u[0] == Corner::Kept(b)
            &&& u[1] == Corner::Cut(a, c)
            &&& u[2] == Corner::Cut(b, c)
        },
{
    reveal_with_fuel(indices_where, 4);
    lemma_indices_where(inside, 3, true);
    lemma_indices_where(inside, 3, false);
    lemma_split_sizes(inside, 3);
}

/// Number of triangles that clipping returns.
pub fn clip_count(plan: &ClipPlan) -> (n: usize)
    ensures
        n == plan_count(*plan),
{
    match plan {
        ClipPlan::Discard => 0,
        ClipPlan::Whole => 1,
        ClipPlan::One(_) => 1,
        ClipPlan::Two(_, _) => 2,
    }
}

} // verus!
