//! The tiling algorithm: the visible windows stand in one row,
//! horizontally centred as a group, each vertically centred, separated
//! by a fixed padding, in creation order. Everything here is stated
//! over the ordered sequence of intrinsic sizes of the visible
//! windows; the session table applies it to its entries.

use vstd::prelude::*;

verus! {

/// Horizontal gap between neighbouring windows, in pixels.
pub const PADDING: i32 = 20;

/// Halving as the machine's signed division computes it: rounded
/// toward zero.
pub open spec fn half(a: int) -> int {
    if a >= 0 {
        a / 2
    } else {
        -((-a) / 2)
    }
}

/// The sum of the widths of a row of sizes.
pub open spec fn sum_widths(s: Seq<(int, int)>) -> int
    decreases s.len(),
{
    if s.len() == 0 {
        0
    } else {
        sum_widths(s.drop_last()) + s.last().0
    }
}

/// The width of the whole row: all windows plus the padding between
/// neighbours.
pub open spec fn total_width(s: Seq<(int, int)>) -> int {
    sum_widths(s) + (PADDING as int) * (s.len() - 1)
}

/// Where the row starts: the group is centred on the screen; the start
/// may be negative, in which case windows extend past the screen edge.
pub open spec fn start_x(s: Seq<(int, int)>, screen_w: int) -> int {
    half(screen_w - total_width(s))
}

/// The horizontal position of the `i`-th window of the row: the start
/// plus every earlier window and one padding each.
pub open spec fn pos_x(s: Seq<(int, int)>, screen_w: int, i: int) -> int {
    start_x(s, screen_w) + sum_widths(s.take(i)) + (PADDING as int) * i
}

/// The vertical position of a window of the given height: vertically
/// centred on the screen.
pub open spec fn pos_y(height: int, screen_h: int) -> int {
    half(screen_h - height)
}

/// Sizes the layout accepts: each nonnegative and representable.
pub open spec fn sizes_wf(s: Seq<(int, int)>) -> bool {
    forall|i: int|
        0 <= i < s.len() ==> 0 <= #[trigger] s[i].0 <= i32::MAX && 0 <= s[i].1 <= i32::MAX
}

/// What the machine forces on the inputs: every intermediate value of
/// the computation fits a 32-bit position.
pub open spec fn layout_fits(s: Seq<(int, int)>, screen_w: int, screen_h: int) -> bool {
    &&& sum_widths(s) + (PADDING as int) * s.len() <= i32::MAX
    &&& i32::MIN <= screen_w - total_width(s)
    &&& start_x(s, screen_w) + sum_widths(s) + (PADDING as int) * s.len() <= i32::MAX
    &&& forall|i: int| 0 <= i < s.len() ==> i32::MIN <= screen_h - #[trigger] s[i].1
}

/// Widths are nonnegative, so the row's width sum is too.
pub proof fn lemma_sum_widths_nonneg(s: Seq<(int, int)>)
    requires
        sizes_wf(s),
    ensures
        0 <= sum_widths(s),
    decreases s.len(),
{
    if s.len() > 0 {
        assert(sizes_wf(s.drop_last())) by {
            assert(forall|i: int|
                0 <= i < s.len() - 1 ==> s.drop_last()[i] == s[i]);
        }
        lemma_sum_widths_nonneg(s.drop_last());
    }
}

/// A prefix of the row is no wider than the whole row.
pub proof fn lemma_sum_widths_prefix(s: Seq<(int, int)>, i: int)
    requires
        sizes_wf(s),
        0 <= i <= s.len(),
    ensures
        sum_widths(s.take(i)) <= sum_widths(s),
        0 <= sum_widths(s.take(i)),
    decreases s.len() - i,
{
    if i == s.len() {
        assert(s.take(i) =~= s);
        lemma_sum_widths_nonneg(s);
    } else {
        lemma_sum_widths_prefix(s, i + 1);
        assert(s.take(i + 1).drop_last() =~= s.take(i));
        assert(sum_widths(s.take(i + 1)) == sum_widths(s.take(i)) + s[i].0);
        assert(sizes_wf(s.take(i))) by {
            assert(forall|j: int| 0 <= j < i ==> s.take(i)[j] == s[j]);
        }
        lemma_sum_widths_nonneg(s.take(i));
    }
}

/// One step of the row: a prefix one longer adds exactly that window's
/// width.
pub proof fn lemma_sum_widths_step(s: Seq<(int, int)>, i: int)
    requires
        0 <= i < s.len(),
    ensures
        sum_widths(s.take(i + 1)) == sum_widths(s.take(i)) + s[i].0,
{
    assert(s.take(i + 1).drop_last() =~= s.take(i));
}

/// Law (the layout is a pure function): identical sizes, order and
/// screen always yield identical positions; nothing else enters the
/// computation.
pub proof fn lemma_layout_pure(
    s1: Seq<(int, int)>,
    s2: Seq<(int, int)>,
    screen_w1: int,
    screen_w2: int,
    screen_h1: int,
    screen_h2: int,
    i: int,
)
    requires
        s1 == s2,
        screen_w1 == screen_w2,
        screen_h1 == screen_h2,
        0 <= i < s1.len(),
    ensures
        pos_x(s1, screen_w1, i) == pos_x(s2, screen_w2, i),
        pos_y(s1[i].1, screen_h1) == pos_y(s2[i].1, screen_h2),
{
}

} // verus!
