use vstd::prelude::*;
use vstd::math::min;
use crate::memory::path_view;

verus! {

/// The total width that displaying a path takes up: every segment is
/// followed by a separator drawn as ` \ `, except the last, which is
/// followed by the one-column ` >` marker instead; the first column is
/// column zero.
pub open spec fn path_width(path: Seq<Seq<char>>) -> int
    decreases path.len(),
{
    if path.len() == 0 {
        -2
    } else {
        path_width(path.drop_last()) + path.last().len() + 3
    }
}

pub proof fn lemma_path_width_at_least(path: Seq<Seq<char>>)
    requires
        path.len() >= 1,
    ensures
        path_width(path) >= 1,
    decreases path.len(),
{
    if path.len() > 1 {
        lemma_path_width_at_least(path.drop_last());
    } else {
        assert(path.drop_last().len() == 0);
        assert(path_width(path.drop_last()) == -2);
    }
}

/// The largest column the breadcrumb may reach: three quarters of the
/// screen width, leaving room for the listing to its right.
pub open spec fn anchor_cap(width: int) -> int {
    3 * width / 4
}

/// The column of the breadcrumb's trailing marker for `path` on a screen
/// `width` columns wide: the full breadcrumb width, capped at three
/// quarters of the screen.
pub fn anchor_for(path: &Vec<String>, width: u16) -> (r: u16)
    requires
        path@.len() >= 1,
    ensures
        r as int == min(path_width(path_view(path@)), anchor_cap(width as int)),
{
    let ghost pv = path_view(path@);
    let cap2: u64 = width as u64 * 3 / 4 + 2;
    let mut acc: u64 = 0;
    let mut i: usize = 0;
    while i < path.len()
        invariant
            i <= path@.len(),
            pv == path_view(path@),
            cap2 == anchor_cap(width as int) + 2,
            acc as int == min(path_width(pv.take(i as int)) + 2, cap2 as int),
        decreases path@.len() - i,
    {
        let l = path[i].as_str().unicode_len();
        proof {
            assert(pv.take(i + 1).drop_last() =~= pv.take(i as int));
            assert(pv.take(i + 1).last() == pv[i as int]);
        }
        if l as u64 >= cap2 - acc {
            acc = cap2;
        } else {
            let stepped = acc + l as u64 + 3;
            acc = if stepped > cap2 { cap2 } else { stepped };
        }
        i = i + 1;
    }
    proof {
        assert(pv.take(path@.len() as int) =~= pv);
        lemma_path_width_at_least(pv);
    }
    (acc - 2) as u16
}

/// The anchor column after descending into a child whose name is
/// `name_len` characters long: grown by the child's share of the
/// breadcrumb, clamped to the same cap.
pub fn grow_anchor(anchor: u16, name_len: usize, width: u16) -> (r: u16)
    ensures
        r as int == min(anchor as int + name_len as int + 3, anchor_cap(width as int)),
{
    let cap: u64 = width as u64 * 3 / 4;
    if name_len as u64 >= cap {
        cap as u16
    } else {
        let sum: u64 = anchor as u64 + name_len as u64 + 3;
        if sum > cap {
            cap as u16
        } else {
            sum as u16
        }
    }
}

/// One breadcrumb draw command: write `text` starting at column `col` of
/// the breadcrumb row.
pub struct DrawV {
    pub col: int,
    pub text: Seq<char>,
}

#[derive(Debug)]
pub struct Draw {
    pub col: u16,
    pub text: String,
}

impl View for Draw {
    type V = DrawV;

    open spec fn view(&self) -> DrawV {
        DrawV { col: self.col as int, text: self.text@ }
    }
}

/// The views of a sequence of draw commands.
pub open spec fn draw_views(s: Seq<Draw>) -> Seq<DrawV> {
    s.map_values(|d: Draw| d@)
}

/// The draw commands for the path segments, walked from the deepest
/// segment to the shallowest with the cursor starting at column `x`: each
/// segment takes its width plus one column, each separator two more
/// (skipped after the root segment), and where a segment or separator
/// would cross column zero an ellipsis marker is drawn instead and the
/// walk stops.
pub open spec fn crumb_draws(path: Seq<Seq<char>>, x: int) -> Seq<DrawV>
    decreases path.len(),
{
    if path.len() == 0 {
        Seq::empty()
    } else {
        let seg = path.last();
        if seg.len() + 1 > x {
            seq![DrawV { col: if x >= 4 { x - 4 } else { 0 }, text: "..."@ }]
        } else {
            let x1 = x - seg.len() - 1;
            let d = DrawV { col: x1, text: seg };
            if path.len() == 1 {
                seq![d]
            } else if x1 < 2 {
                seq![d, DrawV { col: 0, text: "..."@ }]
            } else {
                seq![d, DrawV { col: x1 - 2, text: "\\"@ }] + crumb_draws(path.drop_last(), x1 - 2)
            }
        }
    }
}

/// Rendering the breadcrumb never issues a draw at a negative column, and
/// never to the right of the starting column.
pub proof fn lemma_crumbs_in_bounds(path: Seq<Seq<char>>, x: int)
    requires
        x >= 0,
    ensures
        forall|k: int|
            0 <= k < crumb_draws(path, x).len()
                ==> 0 <= (#[trigger] crumb_draws(path, x)[k]).col <= x,
    decreases path.len(),
{
    if path.len() > 0 {
        let seg = path.last();
        if seg.len() + 1 > x {
        } else {
            let x1 = x - seg.len() - 1;
            if path.len() == 1 {
            } else if x1 < 2 {
            } else {
                lemma_crumbs_in_bounds(path.drop_last(), x1 - 2);
                assert forall|k: int|
                    0 <= k < crumb_draws(path, x).len()
                    implies 0 <= (#[trigger] crumb_draws(path, x)[k]).col <= x by {
                    if k >= 2 {
                        assert(crumb_draws(path, x)[k]
                            == crumb_draws(path.drop_last(), x1 - 2)[k - 2]);
                    }
                }
            }
        }
    }
}

/// For a path whose full rendered width exceeds the starting column, the
/// breadcrumb emits a truncation marker.
pub proof fn lemma_crumbs_truncated(path: Seq<Seq<char>>, x: int)
    requires
        path.len() >= 1,
        path_width(path) > x,
    ensures
        exists|k: int|
            0 <= k < crumb_draws(path, x).len()
                && (#[trigger] crumb_draws(path, x)[k]).text == "..."@,
    decreases path.len(),
{
    let seg = path.last();
    if seg.len() + 1 > x {
        assert(crumb_draws(path, x)[0].text == "..."@);
    } else {
        let x1 = x - seg.len() - 1;
        if path.len() == 1 {
            assert(path.drop_last().len() == 0);
            assert(path_width(path.drop_last()) == -2);
            assert(false);
        } else if x1 < 2 {
            assert(crumb_draws(path, x)[1].text == "..."@);
        } else {
            lemma_crumbs_truncated(path.drop_last(), x1 - 2);
            let sub = crumb_draws(path.drop_last(), x1 - 2);
            let k = choose|k: int| 0 <= k < sub.len() && (#[trigger] sub[k]).text == "..."@;
            assert(crumb_draws(path, x)[k + 2].text == "..."@);
        }
    }
}

/// The draw commands for the whole breadcrumb line: the `>` marker at the
/// anchor column, then the path rendered right-to-left from there,
/// truncated with an ellipsis rather than drawn off-screen.
pub fn breadcrumb_draws(path: &Vec<String>, anchor: u16) -> (out: Vec<Draw>)
    requires
        path@.len() >= 1,
    ensures
        draw_views(out@) == seq![DrawV { col: anchor as int, text: ">"@ }]
            + crumb_draws(path_view(path@), anchor as int),
{
    let ghost pv = path_view(path@);
    let ghost total = seq![DrawV { col: anchor as int, text: ">"@ }]
        + crumb_draws(pv, anchor as int);
    let mut out: Vec<Draw> = Vec::new();
    out.push(Draw { col: anchor, text: ">".to_owned() });
    proof {
        assert(pv.take(path@.len() as int) =~= pv);
        assert(draw_views(out@) =~= seq![DrawV { col: anchor as int, text: ">"@ }]);
    }
    let mut x: u16 = anchor;
    let mut i: usize = path.len();
    while i > 0
        invariant_except_break
            0 < i <= path@.len() || i == 0,
            pv == path_view(path@),
            total == draw_views(out@) + crumb_draws(pv.take(i as int), x as int),
        ensures
            total == draw_views(out@),
        decreases i,
    {
        let ghost out_pre = draw_views(out@);
        let ghost xi = x as int;
        proof {
            assert(pv.take(i as int).drop_last() =~= pv.take(i - 1));
            assert(pv.take(i as int).last() == pv[i - 1]);
        }
        let l = path[i - 1].as_str().unicode_len();
        if l >= x as usize {
            // the segment itself no longer fits
            out.push(Draw { col: if x >= 4 { x - 4 } else { 0 }, text: "...".to_owned() });
            proof {
                assert(draw_views(out@) =~= out_pre + crumb_draws(pv.take(i as int), xi));
            }
            break;
        }
        let x1 = x - l as u16 - 1;
        out.push(Draw { col: x1, text: path[i - 1].clone() });
        if i == 1 {
            proof {
                assert(draw_views(out@) =~= out_pre + crumb_draws(pv.take(i as int), xi));
                assert(crumb_draws(pv.take(0), x1 as int) =~= Seq::<DrawV>::empty());
                assert(draw_views(out@) + crumb_draws(pv.take(0), x1 as int) =~= draw_views(out@));
            }
            x = x1;
            i = 0;
        } else if x1 < 2 {
            out.push(Draw { col: 0, text: "...".to_owned() });
            proof {
                assert(draw_views(out@) =~= out_pre + crumb_draws(pv.take(i as int), xi));
            }
            break;
        } else {
            out.push(Draw { col: x1 - 2, text: "\\".to_owned() });
            proof {
                assert(draw_views(out@) + crumb_draws(pv.take(i - 1), x1 - 2)
                    =~= out_pre + crumb_draws(pv.take(i as int), xi));
            }
            x = x1 - 2;
            i = i - 1;
        }
    }
    proof {
        assert(draw_views(out@) =~= total);
    }
    out
}

} // verus!
