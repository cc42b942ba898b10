//! The renderer: replays the chosen path over a fresh all-white buffer,
//! darkening every pixel each chord passes through, so that overlapping
//! chords accumulate density.

use vstd::prelude::*;
use crate::geometry::Point;
use crate::lines::LineTable;
use crate::lines::line_id;
use crate::lines::get_line_id;
use crate::lines::spec_lookup;
use crate::lines::table_matches;
use crate::lines::lemma_segment_in_image;

verus! {

/// The darkening step applied to a pixel a chord passes through: the value
/// lowered by 20, floored at zero.
pub open spec fn darken_px(v: int) -> int {
    if v - 20 >= 0 {
        v - 20
    } else {
        0
    }
}

/// Darkens every pixel of `seg` in order in the buffer, flooring at zero.
pub open spec fn darken_fold(buf: Seq<u8>, seg: Seq<Point>, size: int) -> Seq<u8>
    decreases seg.len(),
{
    if seg.len() == 0 {
        buf
    } else {
        let idx = size * (seg[0].y as int) + (seg[0].x as int);
        darken_fold(buf.update(idx, darken_px(buf[idx] as int) as u8), seg.drop_first(), size)
    }
}

/// An all-white buffer of `size * size` pixels.
pub open spec fn white_buffer(size: int) -> Seq<u8> {
    Seq::new((size * size) as nat, |i: int| 255u8)
}

/// The preview: start all white and darken along the stored chord of every
/// consecutive pair of the path, in order.
pub open spec fn render_spec(path: Seq<u16>, t: LineTable, size: int) -> Seq<u8>
    decreases path.len(),
{
    if path.len() <= 1 {
        white_buffer(size)
    } else {
        darken_fold(
            render_spec(path.drop_last(), t, size),
            spec_lookup(t, line_id(path[path.len() - 2], path[path.len() - 1])),
            size,
        )
    }
}

/// Darkens the preview along one chord: every pixel on the segment is
/// lowered by 20, floored at zero. No value ever increases.
fn darken_line(buf: &mut Vec<u8>, seg: &Vec<Point>, size: usize)
    requires
        1 <= size <= 32767,
        old(buf)@.len() == size * size,
        forall|k: int| 0 <= k < seg@.len() ==> (#[trigger] seg@[k]).x < size && seg@[k].y < size,
    ensures
        final(buf)@ == darken_fold(old(buf)@, seg@, size as int),
        final(buf)@.len() == old(buf)@.len(),
        forall|j: int| 0 <= j < old(buf)@.len() ==> final(buf)@[j] <= old(buf)@[j],
{
    let len: usize = seg.len();
    let mut i: usize = 0;
    proof {
        assert(seg@.skip(0) =~= seg@);
    }
    while i < len
        invariant
            len == seg@.len(),
            1 <= size <= 32767,
            buf@.len() == size * size,
            old(buf)@.len() == size * size,
            forall|k: int|
                0 <= k < seg@.len() ==> (#[trigger] seg@[k]).x < size && seg@[k].y < size,
            0 <= i <= len,
            darken_fold(old(buf)@, seg@, size as int) == darken_fold(
                buf@,
                seg@.skip(i as int),
                size as int,
            ),
            forall|j: int| 0 <= j < old(buf)@.len() ==> buf@[j] <= old(buf)@[j],
        decreases len - i,
    {
        let p: Point = seg[i];
        proof {
            assert(size * (p.y as int) + (p.x as int) < size * size) by (nonlinear_arith)
                requires
                    0 <= p.y < size,
                    0 <= p.x < size,
            ;
            assert(size * (p.y as int) >= 0) by (nonlinear_arith)
                requires
                    0 <= p.y,
                    0 <= size,
            ;
            assert(size * size <= 32767 * 32767) by (nonlinear_arith)
                requires
                    0 <= size <= 32767,
            ;
        }
        let idx: usize = size * (p.y as usize) + (p.x as usize);
        let v: u8 = buf[idx];
        let nv: u8 = if v >= 20 {
            v - 20
        } else {
            0
        };
        let ghost before: Seq<u8> = buf@;
        buf.set(idx, nv);
        proof {
            assert(nv as int == darken_px(before[idx as int] as int));
            assert(seg@.skip(i as int).drop_first() =~= seg@.skip(i + 1));
            assert(seg@.skip(i as int)[0] == seg@[i as int]);
            assert forall|j: int| 0 <= j < old(buf)@.len() implies buf@[j] <= old(buf)@[j] by {
                if j != idx {
                    assert(buf@[j] == before[j]);
                }
            }
        }
        i = i + 1;
    }
    proof {
        assert(seg@.skip(len as int) =~= Seq::<Point>::empty());
    }
}

/// Renders the preview for a chosen path: an all-white buffer darkened
/// along the stored chord of every consecutive pair of pegs.
pub fn render(path: &Vec<u16>, lines: &LineTable, coords: &Vec<Point>, image_size: usize) -> (out:
    Vec<u8>)
    requires
        1 <= image_size <= 32767,
        table_matches(*lines, coords@),
        coords@.len() <= 32767,
        forall|i: int|
            0 <= i < coords@.len() ==> (#[trigger] coords@[i]).x < image_size && coords@[i].y
                < image_size,
        path@.len() >= 1,
        forall|i: int| 0 <= i < path@.len() ==> (#[trigger] path@[i]) < coords@.len(),
        forall|i: int| 1 <= i < path@.len() ==> (#[trigger] path@[i]) != path@[i - 1],
    ensures
        out@ == render_spec(path@, *lines, image_size as int),
        out@.len() == image_size * image_size,
{
    let size: usize = image_size;
    proof {
        assert(size * size <= 32767 * 32767) by (nonlinear_arith)
            requires
                0 <= size <= 32767,
        ;
        assert(size * size >= 1) by (nonlinear_arith)
            requires
                1 <= size,
        ;
    }
    let area: usize = size * size;
    let mut out: Vec<u8> = Vec::new();
    let mut j: usize = 0;
    while j < area
        invariant
            area == size * size,
            out@.len() == j,
            0 <= j <= area,
            forall|k: int| 0 <= k < j ==> out@[k] == 255u8,
        decreases area - j,
    {
        out.push(255u8);
        j = j + 1;
    }
    proof {
        assert(out@ =~= white_buffer(size as int));
        assert(path@.take(1).len() == 1);
        assert(render_spec(path@.take(1), *lines, size as int) == white_buffer(size as int));
    }
    let mut i: usize = 1;
    while i < path.len()
        invariant
            1 <= size <= 32767,
            table_matches(*lines, coords@),
            coords@.len() <= 32767,
            forall|k: int|
                0 <= k < coords@.len() ==> (#[trigger] coords@[k]).x < size && coords@[k].y
                    < size,
            path@.len() >= 1,
            forall|k: int| 0 <= k < path@.len() ==> (#[trigger] path@[k]) < coords@.len(),
            forall|k: int| 1 <= k < path@.len() ==> (#[trigger] path@[k]) != path@[k - 1],
            1 <= i <= path@.len(),
            out@.len() == size * size,
            out@ == render_spec(path@.take(i as int), *lines, size as int),
        decreases path@.len() - i,
    {
        let p1: u16 = path[i - 1];
        let p2: u16 = path[i];
        let id = get_line_id(p1, p2);
        proof {
            lemma_segment_in_image(*lines, coords@, size as int, id.start as int, id.end as int);
        }
        let seg: &Vec<Point> = lines.get(id);
        darken_line(&mut out, seg, size);
        proof {
            let q = path@.take(i + 1);
            assert(q.drop_last() =~= path@.take(i as int));
            assert(q[q.len() - 2] == p1 && q[q.len() - 1] == p2);
        }
        i = i + 1;
    }
    proof {
        assert(path@.take(path@.len() as int) =~= path@);
    }
    out
}

} // verus!
