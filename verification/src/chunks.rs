//! Chunk compensation comes every 200 frames to every column, whatever
//! the pixels do.

use crate::encode::{
    after_frames, at_boundary, chunk_pass, compensated, connector, diff_pass, encode_frame,
    flips, forced_delayer, frame_at, initial, pixel_delayer, Circuit,
};
use crate::layout::{lemma_room_for_boards, Layout};
use crate::numbers::lemma_split_index;
use crate::parts::{ComponentKind, ComponentView};
use vstd::prelude::*;

verus! {

/// Whether a component is a forced delay element of column `c`: a delay
/// element on the column's row that sits where the column's taps sit.
pub open spec fn forced_in(l: Layout, component: ComponentView, c: int) -> bool {
    &&& component.kind == ComponentKind::DelayElement
    &&& component.position.x == 900 * l.x_of(c) + 750
    &&& component.parent == Some(l.board_address(l.row_of(c)) as u32)
}

/// Whether a component is the forced delay element of column `c` for frame `f`.
pub open spec fn forced_at(l: Layout, component: ComponentView, c: int, f: nat) -> bool {
    forced_in(l, component, c) && component.position.z == 1200 * f - 450
}

/// How many of the components have the property.
pub open spec fn count(components: Seq<ComponentView>, property: spec_fn(ComponentView) -> bool)
    -> nat
    decreases components.len(),
{
    if components.len() == 0 {
        0
    } else {
        count(components.drop_last(), property) + if property(components.last()) {
            1nat
        } else {
            0nat
        }
    }
}

/// Counting goes on by one at a component that has the property.
pub proof fn lemma_count_push(
    components: Seq<ComponentView>,
    component: ComponentView,
    property: spec_fn(ComponentView) -> bool,
)
    ensures
        count(components.push(component), property) == count(components, property) + if property(
            component,
        ) {
            1nat
        } else {
            0nat
        },
{
    assert(components.push(component).drop_last() =~= components);
}

/// Where no component has the property, the count is 0.
pub proof fn lemma_count_none(
    components: Seq<ComponentView>,
    property: spec_fn(ComponentView) -> bool,
)
    requires
        forall|i: int| 0 <= i < components.len() ==> !property(#[trigger] components[i]),
    ensures
        count(components, property) == 0,
    decreases components.len(),
{
    if components.len() > 0 {
        lemma_count_none(components.drop_last(), property);
    }
}

/// Two columns with the same row and the same place in it are one.
pub proof fn lemma_column_by_place(l: Layout, a: int, b: int)
    requires
        0 <= a < l.columns(),
        0 <= b < l.columns(),
        l.row_of(a) == l.row_of(b),
        l.x_of(a) == l.x_of(b),
    ensures
        a == b,
{
    lemma_split_index(a, l.width as int, l.height as int);
    lemma_split_index(b, l.width as int, l.height as int);
}

/// The forced delay element of column `b` at frame `f` is one of column
/// `c` only if `b` is `c`, and then it is the one for frame `f` and no other.
pub proof fn lemma_forced_delayer_place(l: Layout, s: Circuit, f: nat, b: int, c: int, g: nat)
    requires
        l.fits(),
        1 <= f <= l.frames,
        0 <= b < l.columns(),
        0 <= c < l.columns(),
    ensures
        forced_in(l, forced_delayer(l, s, f, b), c) <==> b == c,
        forced_at(l, forced_delayer(l, s, f, b), c, g) <==> (b == c && f == g),
{
    lemma_room_for_boards(l);
    lemma_split_index(b, l.width as int, l.height as int);
    lemma_split_index(c, l.width as int, l.height as int);
    if l.row_of(b) == l.row_of(c) && l.x_of(b) == l.x_of(c) {
        lemma_column_by_place(l, b, c);
    }
}

/// What a pixel's change adds is no forced delay element of any column.
pub proof fn lemma_flip_parts_place(l: Layout, s: Circuit, f: nat, b: int, c: int)
    requires
        l.fits(),
        1 <= f <= l.frames,
        0 <= b < l.columns(),
        0 <= c < l.columns(),
    ensures
        !forced_in(l, pixel_delayer(l, s, f, b), c),
        !forced_in(l, connector(l, s, f, b), c),
{
    lemma_split_index(b, l.width as int, l.height as int);
    lemma_split_index(c, l.width as int, l.height as int);
}

/// What was made before the first frame holds no forced delay element.
pub proof fn lemma_fixed_part_place(l: Layout, i: int, c: int)
    requires
        l.fits(),
        l.frames >= 1,
        0 <= i < l.fixed_components(),
        0 <= c < l.columns(),
    ensures
        !forced_in(l, l.fixed_component(i), c),
{
    lemma_split_index(c, l.width as int, l.height as int);
}

/// Chunk compensation of the first `n` columns adds one forced delay
/// element of column `c` for frame `f` if `c` is among them, and none else.
pub proof fn lemma_chunk_pass_count(l: Layout, s: Circuit, f: nat, n: nat, c: int, g: nat)
    requires
        l.fits(),
        1 <= f <= l.frames,
        n <= l.columns(),
        0 <= c < l.columns(),
    ensures
        count(chunk_pass(l, s, f, n).components, |p: ComponentView| forced_in(l, p, c)) == count(
            s.components,
            |p: ComponentView| forced_in(l, p, c),
        ) + if c < n {
            1nat
        } else {
            0nat
        },
        count(chunk_pass(l, s, f, n).components, |p: ComponentView| forced_at(l, p, c, g))
            == count(s.components, |p: ComponentView| forced_at(l, p, c, g)) + if c < n && f
            == g {
            1nat
        } else {
            0nat
        },
    decreases n,
{
    if n > 0 {
        lemma_chunk_pass_count(l, s, f, (n - 1) as nat, c, g);
        let done = chunk_pass(l, s, f, (n - 1) as nat);
        lemma_forced_delayer_place(l, done, f, n - 1, c, g);
        lemma_count_push(
            done.components,
            forced_delayer(l, done, f, n - 1),
            |p: ComponentView| forced_in(l, p, c),
        );
        lemma_count_push(
            done.components,
            forced_delayer(l, done, f, n - 1),
            |p: ComponentView| forced_at(l, p, c, g),
        );
    }
}

/// The changes of pixels add no forced delay element.
pub proof fn lemma_diff_pass_count(
    l: Layout,
    s: Circuit,
    before: Seq<bool>,
    now: Seq<bool>,
    f: nat,
    n: nat,
    c: int,
    g: nat,
)
    requires
        l.fits(),
        1 <= f <= l.frames,
        n <= l.columns(),
        0 <= c < l.columns(),
    ensures
        count(
            diff_pass(l, s, before, now, f, n).components,
            |p: ComponentView| forced_in(l, p, c),
        ) == count(s.components, |p: ComponentView| forced_in(l, p, c)),
        count(
            diff_pass(l, s, before, now, f, n).components,
            |p: ComponentView| forced_at(l, p, c, g),
        ) == count(s.components, |p: ComponentView| forced_at(l, p, c, g)),
    decreases n,
{
    if n > 0 {
        lemma_diff_pass_count(l, s, before, now, f, (n - 1) as nat, c, g);
        let done = diff_pass(l, s, before, now, f, (n - 1) as nat);
        if flips(l, before, now, n - 1) {
            lemma_flip_parts_place(l, done, f, n - 1, c);
            let delayer = pixel_delayer(l, done, f, n - 1);
            let tap = connector(l, done, f, n - 1);
            lemma_count_push(done.components, delayer, |p: ComponentView| forced_in(l, p, c));
            lemma_count_push(done.components, delayer, |p: ComponentView| forced_at(l, p, c, g));
            if !at_boundary(f) {
                lemma_count_push(
                    done.components.push(delayer),
                    tap,
                    |p: ComponentView| forced_in(l, p, c),
                );
                lemma_count_push(
                    done.components.push(delayer),
                    tap,
                    |p: ComponentView| forced_at(l, p, c, g),
                );
            }
        }
    }
}

/// After `n` frames of any video, each column holds one forced delay
/// element for every 200 frames that have passed: one for each frame that
/// 200 divides, none for any other frame, `n / 200` in all. What the
/// pixels did in those frames does not enter.
pub proof fn lemma_chunks_regular(l: Layout, video: Seq<Seq<bool>>, n: nat, c: int, g: nat)
    requires
        l.fits(),
        l.frames >= 1,
        n <= l.frames,
        0 <= c < l.columns(),
    ensures
        count(after_frames(l, video, n).components, |p: ComponentView| forced_in(l, p, c)) == n
            / 200,
        count(after_frames(l, video, n).components, |p: ComponentView| forced_at(l, p, c, g))
            == if 1 <= g <= n && at_boundary(g) {
            1nat
        } else {
            0nat
        },
    decreases n,
{
    if n == 0 {
        let s = initial(l);
        assert forall|i: int| 0 <= i < s.components.len() implies !forced_in(
            l,
            #[trigger] s.components[i],
            c,
        ) by {
            lemma_fixed_part_place(l, i, c);
        }
        lemma_count_none(s.components, |p: ComponentView| forced_in(l, p, c));
        lemma_count_none(s.components, |p: ComponentView| forced_at(l, p, c, g));
    } else {
        lemma_chunks_regular(l, video, (n - 1) as nat, c, g);
        let s = after_frames(l, video, (n - 1) as nat);
        if at_boundary(n) {
            lemma_chunk_pass_count(l, s, n, l.columns(), c, g);
        }
        lemma_diff_pass_count(
            l,
            compensated(l, s, n),
            frame_at(l, video, (n - 1) as nat),
            frame_at(l, video, n),
            n,
            l.columns(),
            c,
            g,
        );
    }
}

/// A frame in which no pixel changes adds what chunk compensation adds and
/// nothing more: one forced delay element and one wire for each column at
/// a boundary, nothing at all elsewhere.
pub proof fn lemma_still_frame(l: Layout, s: Circuit, before: Seq<bool>, now: Seq<bool>, f: nat)
    requires
        forall|c: int| 0 <= c < l.columns() ==> !flips(l, before, now, c),
    ensures
        encode_frame(l, s, before, now, f) == compensated(l, s, f),
        !at_boundary(f) ==> encode_frame(l, s, before, now, f) == s,
{
    lemma_diff_pass_still(l, compensated(l, s, f), before, now, f, l.columns());
}

proof fn lemma_diff_pass_still(
    l: Layout,
    s: Circuit,
    before: Seq<bool>,
    now: Seq<bool>,
    f: nat,
    n: nat,
)
    requires
        n <= l.columns(),
        forall|c: int| 0 <= c < l.columns() ==> !flips(l, before, now, c),
    ensures
        diff_pass(l, s, before, now, f, n) == s,
    decreases n,
{
    if n > 0 {
        lemma_diff_pass_still(l, s, before, now, f, (n - 1) as nat);
    }
}

} // verus!
