//! The chart of a schedule as an SVG document: time runs to the right,
//! resource units upwards, and every activity between the dummies is a box
//! as wide as its duration and as high as the units it holds.

use vstd::prelude::*;
use vstd::string::StringExecFns;
use crate::activity::usages_view;
use crate::model::{has_id, position, ActivityView, ResourceView, UsageView};
use crate::project::{capped, resources_view, Project};
use crate::rn_resource::RnResource;
use crate::rn_resource_usage::RnResourceUsage;
use crate::sa_state::{SaState, StateView};
use crate::text::{decimal, push_decimal, push_signed, signed_decimal};

verus! {

/// The largest coordinate of a chart.
pub const LIMIT: u64 = 0xffff_ffff;

/// A box of the chart: its left and upper edge, its width and its height.
#[derive(Debug, Clone, Copy, PartialEq, Eq, Structural)]
pub struct Bar {
    pub x: u32,
    pub y: u32,
    pub width: u32,
    pub height: u32,
}

/// The units that the resources have together.
pub open spec fn total_capacity(resources: Seq<ResourceView>) -> int
    decreases resources.len(),
{
    if resources.len() == 0 {
        0
    } else {
        total_capacity(resources.drop_last()) + resources.last().capacity
    }
}

/// The units that the usage records hold together.
pub open spec fn demand_of(supplies: Seq<UsageView>) -> int
    decreases supplies.len(),
{
    if supplies.len() == 0 {
        0
    } else {
        demand_of(supplies.drop_last()) + supplies.last().usage
    }
}

/// A line of the chart from (`x1`, `y1`) to (`x2`, `y2`).
pub open spec fn line_text(x1: int, x2: int, y1: int, y2: int) -> Seq<char> {
    "  <line x1='"@ + decimal(x1 as nat) + "' x2='"@ + decimal(x2 as nat) + "' y1='"@ + decimal(
        y1 as nat,
    ) + "' y2='"@ + decimal(y2 as nat) + "' stroke='black' stroke-width='5'/>\n"@
}

/// A text of the chart at (`x`, `y`), `x` being given as a numeral.
pub open spec fn label_text(x: Seq<char>, y: int, attributes: Seq<char>, body: Seq<char>) -> Seq<
    char,
> {
    "   <text x='"@ + x + "' y='"@ + decimal(y as nat) + attributes + body + "</text>\n"@
}

/// The box `b` of the chart.
pub open spec fn rect_text(b: Bar) -> Seq<char> {
    "  <rect x='"@ + decimal(b.x as nat) + "' y='"@ + decimal(b.y as nat) + "' width='"@ + decimal(
        b.width as nat,
    ) + "' height='"@ + decimal(b.height as nat) + "' fill='rgb(100, 149, 237)'"@
        + " stroke='black' stroke-width='.7mm' />\n"@
}

/// How the numbers at the marks of the axes are set.
pub open spec fn tick_attributes() -> Seq<char> {
    "' font-size='60' text-anchor='middle'>"@
}

/// The first `k` marks of the time axis of a chart of height `height`.
pub open spec fn time_marks(height: int, k: int) -> Seq<char>
    decreases k,
{
    if k <= 0 {
        Seq::empty()
    } else {
        let x = 500 + (k - 1) * 100;
        time_marks(height, k - 1) + line_text(x, x, height - 500, height - 400) + label_text(
            decimal(x as nat),
            height - 350,
            tick_attributes(),
            decimal((k - 1) as nat),
        )
    }
}

/// The first `k` marks of the resource axis of a chart of height `height`.
pub open spec fn unit_marks(height: int, k: int) -> Seq<char>
    decreases k,
{
    if k <= 0 {
        Seq::empty()
    } else {
        let y = height - 500 - (k - 1) * 100;
        unit_marks(height, k - 1) + line_text(400, 500, y, y) + label_text(
            decimal(350),
            y + 20,
            tick_attributes(),
            decimal((k - 1) as nat),
        )
    }
}

/// The axes of a chart for a schedule that ends at `end`, over resources of
/// `total` units together, with their names and marks.
pub open spec fn frame_text(end: int, total: int) -> Seq<char> {
    let height = total * 100 + 600;
    let width = end * 100 + 600;
    line_text(500, 500 + end * 100, height - 500, height - 500) + line_text(
        500,
        500,
        height - 500 - total * 100,
        height - 500,
    ) + label_text(
        decimal((width / 2) as nat),
        height - 200,
        "' font-size='100' text-anchor='middle'>"@,
        "Tiempo"@,
    ) + time_marks(height, end + 1) + label_text(
        signed_decimal(-(height / 2)),
        200,
        "' transform='rotate(270)' font-size='100' text-anchor='middle'>"@,
        "Recursos"@,
    ) + unit_marks(height, total + 1)
}

/// The box `b` lies over the column at `x`.
pub open spec fn over_column(b: Bar, x: int) -> bool {
    b.x == x || (b.x < x && x < b.x + b.width)
}

/// A box of height `h` with its upper edge at `y` would meet the box `b`.
pub open spec fn meets(b: Bar, y: int, h: int) -> bool {
    ||| b.y == y
    ||| (b.y < y && y + h <= b.y + b.height)
    ||| (y < b.y && y + h >= b.y + b.height)
    ||| (b.y < y && y + h >= b.y + b.height && b.y + b.height > y)
}

/// Where the upper edge of a box of height `h` in the column at `x` goes
/// on account of the box `b`, and whether the boxes have to be looked at
/// again: it stays where it does not meet `b`, it goes to the top of the
/// chart where it does not fit above `b`, and else it goes right above `b`.
pub open spec fn dodged(b: Bar, x: int, y: int, h: int) -> (int, bool) {
    if over_column(b, x) && meets(b, y, h) {
        if h > b.y {
            (0, false)
        } else {
            (b.y - h, true)
        }
    } else {
        (y, false)
    }
}

/// One look at the first `k` boxes of `done`, one after the other.
pub open spec fn looked(done: Seq<Bar>, k: int, x: int, y: int, h: int) -> (int, bool)
    decreases k,
{
    if k <= 0 {
        (y, false)
    } else {
        let before = looked(done, k - 1, x, y, h);
        let now = dodged(done[k - 1], x, before.0, h);
        (now.0, before.1 || now.1)
    }
}

/// Where the upper edge of a box of height `h` in the column at `x` comes
/// to rest: the boxes are looked at until a look moves nothing, and no more
/// often than `looks` times after the first.
pub open spec fn settled_edge(done: Seq<Bar>, x: int, y: int, h: int, looks: nat) -> int
    decreases looks,
{
    let after = looked(done, done.len() as int, x, y, h);
    if after.1 && looks > 0 {
        settled_edge(done, x, after.0, h, (looks - 1) as nat)
    } else {
        after.0
    }
}

/// The chart while its boxes are drawn: the text so far, the corner at
/// which the next box is tried, and the boxes drawn.
pub struct Drawing {
    pub text: Seq<char>,
    pub x: int,
    pub y: int,
    pub done: Seq<Bar>,
}

/// What stands in a box: the parent of the activity where it has one, else
/// its identity.
pub open spec fn box_name(a: ActivityView) -> Seq<char> {
    if a.parent != -1 {
        signed_decimal(a.parent as int)
    } else {
        decimal(a.id as nat)
    }
}

/// The drawing after the activity at place `i` of the priority list. The
/// dummies, which are the first and the last of the list, are not drawn.
/// Any other activity is tried below the box before it, or at the bottom
/// of its column where it starts a new one, and moved up until it meets no
/// box; then the corner moves on to the column of the next start time
/// where that differs. Nothing is drawn where the activity is not of the
/// project, a coordinate leaves the range of the chart, or the box does not
/// fit under the corner.
pub open spec fn drawn_step(s: StateView, base: int, i: int, d: Drawing) -> Option<Drawing> {
    let acts = s.project.activities;
    let id = s.planning[i];
    if id == s.planning.first() || id == s.planning.last() {
        Some(d)
    } else if !has_id(acts, id) {
        None
    } else {
        let a = acts[position(acts, id)];
        let w = a.duration * 100;
        let h = demand_of(a.supplies) * 100;
        if w > LIMIT || h > LIMIT || d.y < h || d.x + w > LIMIT {
            None
        } else {
            let y = settled_edge(d.done, d.x, d.y - h, h, d.done.len());
            let b = Bar { x: d.x as u32, y: y as u32, width: w as u32, height: h as u32 };
            let text = d.text + rect_text(b) + label_text(
                decimal((w / 2 + d.x) as nat),
                h / 2 + y,
                "' font-size='50' text-anchor='middle'>"@,
                box_name(a),
            );
            if i + 1 != s.planning.len() && s.times[i + 1] != s.times[i] {
                if s.times[i + 1] < 0 || s.times[i + 1] * 100 + 500 > LIMIT {
                    None
                } else {
                    Some(
                        Drawing {
                            text,
                            x: s.times[i + 1] * 100 + 500,
                            y: base,
                            done: d.done.push(b),
                        },
                    )
                }
            } else {
                Some(Drawing { text, x: d.x, y, done: d.done.push(b) })
            }
        }
    }
}

/// The drawing after the first `k` activities of the priority list.
pub open spec fn drawn(s: StateView, base: int, k: int) -> Option<Drawing>
    decreases k,
{
    if k <= 0 {
        Some(Drawing { text: Seq::empty(), x: 500, y: base, done: Seq::empty() })
    } else {
        match drawn(s, base, k - 1) {
            Some(d) => drawn_step(s, base, k - 1, d),
            None => None,
        }
    }
}

/// The state can be charted at all: there is a time for every activity,
/// the schedule ends at an instant that is not negative, and the axes stay
/// within the range of the chart.
pub open spec fn frame_fits(s: StateView) -> bool {
    &&& s.planning.len() > 0
    &&& s.times.len() == s.planning.len()
    &&& s.times.last() >= 0
    &&& s.times.last() * 100 + 600 <= LIMIT
    &&& total_capacity(s.project.resources) * 100 + 600 <= i32::MAX
}

/// The chart of the state, where it can be drawn.
pub open spec fn chart_of(s: StateView) -> Option<Seq<char>> {
    let total = total_capacity(s.project.resources);
    let height = total * 100 + 600;
    if !frame_fits(s) {
        None
    } else {
        match drawn(s, height - 500, s.planning.len() as int) {
            None => None,
            Some(d) => if d.x + 100 > LIMIT {
                None
            } else {
                Some(
                    "<svg version='1.1' width='"@ + decimal((d.x + 100) as nat) + "' height='"@
                        + decimal(height as nat) + "' xmlns='http://www.w3.org/2000/svg'>\n"@
                        + frame_text(s.times.last() as int, total) + d.text + "</svg>"@,
                )
            },
        }
    }
}

proof fn lemma_total_nonneg(resources: Seq<ResourceView>)
    ensures
        total_capacity(resources) >= 0,
    decreases resources.len(),
{
    if resources.len() > 0 {
        lemma_total_nonneg(resources.drop_last());
    }
}

proof fn lemma_demand_of_nonneg(supplies: Seq<UsageView>)
    ensures
        demand_of(supplies) >= 0,
    decreases supplies.len(),
{
    if supplies.len() > 0 {
        lemma_demand_of_nonneg(supplies.drop_last());
    }
}

/// The units that the resources have together, capped.
fn total_units(resources: &Vec<RnResource>) -> (r: u64)
    ensures
        r == capped(total_capacity(resources_view(resources@))),
{
    let ghost view = resources_view(resources@);
    let mut total: u64 = 0;
    let mut i: usize = 0;
    assert(view.take(0) =~= Seq::empty());
    while i < resources.len()
        invariant
            i <= resources.len(),
            view == resources_view(resources@),
            total == capped(total_capacity(view.take(i as int))),
        decreases resources.len() - i,
    {
        proof {
            assert(view.take(i + 1).drop_last() =~= view.take(i as int));
            assert(view.take(i + 1).last() == resources@[i as int]@);
            lemma_total_nonneg(view.take(i as int));
        }
        let sum: u64 = total + resources[i].capacity as u64;
        total = if sum >= 0x1_0000_0000 {
            0x1_0000_0000
        } else {
            sum
        };
        i += 1;
    }
    assert(view.take(resources.len() as int) =~= view);
    total
}

/// The units that the usage records hold together, capped.
fn held_units(supplies: &Vec<RnResourceUsage>) -> (r: u64)
    ensures
        r == capped(demand_of(usages_view(supplies@))),
{
    let ghost view = usages_view(supplies@);
    let mut total: u64 = 0;
    let mut i: usize = 0;
    assert(view.take(0) =~= Seq::empty());
    while i < supplies.len()
        invariant
            i <= supplies.len(),
            view == usages_view(supplies@),
            total == capped(demand_of(view.take(i as int))),
        decreases supplies.len() - i,
    {
        proof {
            assert(view.take(i + 1).drop_last() =~= view.take(i as int));
            assert(view.take(i + 1).last() == supplies@[i as int]@);
            lemma_demand_of_nonneg(view.take(i as int));
        }
        let sum: u64 = total + supplies[i].usage as u64;
        total = if sum >= 0x1_0000_0000 {
            0x1_0000_0000
        } else {
            sum
        };
        i += 1;
    }
    assert(view.take(supplies.len() as int) =~= view);
    total
}

fn push_line(out: &mut String, x1: u64, x2: u64, y1: u64, y2: u64)
    ensures
        final(out)@ == old(out)@ + line_text(x1 as int, x2 as int, y1 as int, y2 as int),
{
    out.append("  <line x1='");
    push_decimal(out, x1);
    out.append("' x2='");
    push_decimal(out, x2);
    out.append("' y1='");
    push_decimal(out, y1);
    out.append("' y2='");
    push_decimal(out, y2);
    out.append("' stroke='black' stroke-width='5'/>\n");
    assert(out@ =~= old(out)@ + line_text(x1 as int, x2 as int, y1 as int, y2 as int));
}

fn push_label(out: &mut String, x: &str, y: u64, attributes: &str, body: &str)
    ensures
        final(out)@ == old(out)@ + label_text(x@, y as int, attributes@, body@),
{
    out.append("   <text x='");
    out.append(x);
    out.append("' y='");
    push_decimal(out, y);
    out.append(attributes);
    out.append(body);
    out.append("</text>\n");
    assert(out@ =~= old(out)@ + label_text(x@, y as int, attributes@, body@));
}

fn push_rect(out: &mut String, b: Bar)
    ensures
        final(out)@ == old(out)@ + rect_text(b),
{
    out.append("  <rect x='");
    push_decimal(out, b.x as u64);
    out.append("' y='");
    push_decimal(out, b.y as u64);
    out.append("' width='");
    push_decimal(out, b.width as u64);
    out.append("' height='");
    push_decimal(out, b.height as u64);
    out.append("' fill='rgb(100, 149, 237)'");
    out.append(" stroke='black' stroke-width='.7mm' />\n");
    assert(out@ =~= old(out)@ + rect_text(b));
}

/// The decimal numeral of `n`.
fn numeral(n: u64) -> (r: String)
    ensures
        r@ == decimal(n as nat),
{
    crate::text::decimal_string(n)
}

/// Writes the axes of the chart with their names and marks.
fn push_frame(out: &mut String, end: u64, total: u64)
    requires
        end * 100 + 600 <= LIMIT,
        total * 100 + 600 <= i32::MAX,
    ensures
        final(out)@ == old(out)@ + frame_text(end as int, total as int),
{
    let height: u64 = total * 100 + 600;
    let width: u64 = end * 100 + 600;
    let ghost start = out@;
    push_line(out, 500, 500 + end * 100, height - 500, height - 500);
    push_line(out, 500, 500, height - 500 - total * 100, height - 500);
    let middle = numeral(width / 2);
    push_label(out, middle.as_str(), height - 200, "' font-size='100' text-anchor='middle'>", "Tiempo");
    let ghost head = out@;
    let mut k: u64 = 0;
    assert(out@ =~= head + time_marks(height as int, 0));
    while k <= end
        invariant
            k <= end + 1,
            end * 100 + 600 <= LIMIT,
            height == total * 100 + 600,
            total * 100 + 600 <= i32::MAX,
            out@ == head + time_marks(height as int, k as int),
        decreases end + 1 - k,
    {
        let x: u64 = 500 + k * 100;
        let ghost before = out@;
        push_line(out, x, x, height - 500, height - 400);
        let at = numeral(x);
        let mark = numeral(k);
        push_label(out, at.as_str(), height - 350, "' font-size='60' text-anchor='middle'>", mark.as_str());
        assert(out@ =~= head + time_marks(height as int, k + 1));
        k += 1;
    }
    let mut side = String::new();
    push_signed(&mut side, -((height / 2) as i64));
    assert(side@ =~= signed_decimal(-(height as int / 2)));
    push_label(
        out,
        side.as_str(),
        200,
        "' transform='rotate(270)' font-size='100' text-anchor='middle'>",
        "Recursos",
    );
    let ghost head2 = out@;
    let mut k: u64 = 0;
    assert(out@ =~= head2 + unit_marks(height as int, 0));
    while k <= total
        invariant
            k <= total + 1,
            height == total * 100 + 600,
            total * 100 + 600 <= i32::MAX,
            out@ == head2 + unit_marks(height as int, k as int),
        decreases total + 1 - k,
    {
        let y: u64 = height - 500 - k * 100;
        push_line(out, 400, 500, y, y);
        let at = numeral(350);
        let mark = numeral(k);
        push_label(out, at.as_str(), y + 20, "' font-size='60' text-anchor='middle'>", mark.as_str());
        assert(out@ =~= head2 + unit_marks(height as int, k + 1));
        k += 1;
    }
    assert(out@ =~= start + frame_text(end as int, total as int));
}

/// Where the upper edge goes on account of one box.
fn dodge(b: Bar, x: u64, y: u64, h: u64) -> (r: (u64, bool))
    requires
        x <= LIMIT,
        y <= LIMIT,
        h <= LIMIT,
    ensures
        (r.0 as int, r.1) == dodged(b, x as int, y as int, h as int),
        r.0 <= LIMIT,
{
    let left: u64 = b.x as u64;
    let top: u64 = b.y as u64;
    let wide: u64 = b.width as u64;
    let high: u64 = b.height as u64;
    let over: bool = left == x || (left < x && x < left + wide);
    let hit: bool = top == y || (top < y && y + h <= top + high) || (y < top && y + h >= top
        + high) || (top < y && y + h >= top + high && top + high > y);
    if over && hit {
        if h > top {
            (0, false)
        } else {
            (top - h, true)
        }
    } else {
        (y, false)
    }
}

/// One look at all the boxes.
fn look(done: &Vec<Bar>, x: u64, y: u64, h: u64) -> (r: (u64, bool))
    requires
        x <= LIMIT,
        y <= LIMIT,
        h <= LIMIT,
    ensures
        (r.0 as int, r.1) == looked(done@, done@.len() as int, x as int, y as int, h as int),
        r.0 <= LIMIT,
{
    let mut edge: u64 = y;
    let mut again: bool = false;
    let mut k: usize = 0;
    while k < done.len()
        invariant
            k <= done.len(),
            x <= LIMIT,
            h <= LIMIT,
            edge <= LIMIT,
            (edge as int, again) == looked(done@, k as int, x as int, y as int, h as int),
        decreases done.len() - k,
    {
        let moved = dodge(done[k], x, edge, h);
        edge = moved.0;
        again = again || moved.1;
        k += 1;
    }
    (edge, again)
}

/// Where the upper edge comes to rest.
fn settle(done: &Vec<Bar>, x: u64, y: u64, h: u64) -> (r: u64)
    requires
        x <= LIMIT,
        y <= LIMIT,
        h <= LIMIT,
    ensures
        r == settled_edge(done@, x as int, y as int, h as int, done@.len()),
        r <= LIMIT,
{
    let mut edge: u64 = y;
    let mut looks: usize = done.len();
    loop
        invariant
            x <= LIMIT,
            h <= LIMIT,
            edge <= LIMIT,
            settled_edge(done@, x as int, y as int, h as int, done@.len()) == settled_edge(
                done@,
                x as int,
                edge as int,
                h as int,
                looks as nat,
            ),
        decreases looks,
    {
        let after = look(done, x, edge, h);
        if after.1 && looks > 0 {
            edge = after.0;
            looks -= 1;
        } else {
            return after.0;
        }
    }
}

/// A drawing that has failed stays failed.
proof fn lemma_drawn_fails(s: StateView, base: int, k: int, m: int)
    requires
        0 <= k <= m,
        drawn(s, base, k).is_none(),
    ensures
        drawn(s, base, m).is_none(),
    decreases m - k,
{
    if k < m {
        lemma_drawn_fails(s, base, k, m - 1);
    }
}

/// Draws the activity at place `i` of the priority list, and gives the
/// corner at which the next box is tried.
fn draw_step(
    project: &Project,
    planning: &Vec<u32>,
    times: &Vec<i32>,
    base: u64,
    i: usize,
    bars: &mut String,
    done: &mut Vec<Bar>,
    x: u64,
    y: u64,
    Ghost(s): Ghost<StateView>,
) -> (r: Option<(u64, u64)>)
    requires
        i < planning@.len(),
        planning@.len() == times@.len(),
        planning@ == s.planning,
        times@ == s.times,
        project@ == s.project,
        base <= LIMIT,
        x <= LIMIT,
        y <= LIMIT,
    ensures
        match r {
            Some(corner) => drawn_step(
                s,
                base as int,
                i as int,
                Drawing { text: old(bars)@, x: x as int, y: y as int, done: old(done)@ },
            ) == Some(
                Drawing {
                    text: final(bars)@,
                    x: corner.0 as int,
                    y: corner.1 as int,
                    done: final(done)@,
                },
            ) && corner.0 <= LIMIT && corner.1 <= LIMIT,
            None => drawn_step(
                s,
                base as int,
                i as int,
                Drawing { text: old(bars)@, x: x as int, y: y as int, done: old(done)@ },
            ).is_none(),
        },
{
    let ghost d = Drawing { text: bars@, x: x as int, y: y as int, done: done@ };
    let n: usize = planning.len();
    let id: u32 = planning[i];
    if id == planning[0] || id == planning[n - 1] {
        return Some((x, y));
    }
    let at: usize = match project.find(id) {
        Some(at) => at,
        None => {
            return None;
        },
    };
    let a = &project.activities[at];
    assert(a@ == s.project.activities[position(s.project.activities, id)]);
    let w: u64 = a.duration as u64 * 100;
    let held: u64 = held_units(&a.supplies);
    proof {
        lemma_demand_of_nonneg(a@.supplies);
    }
    if held > 42949672 {
        return None;
    }
    let h: u64 = held * 100;
    if w > LIMIT || h > LIMIT || y < h || x + w > LIMIT {
        return None;
    }
    let edge: u64 = settle(done, x, y - h, h);
    let b = Bar { x: x as u32, y: edge as u32, width: w as u32, height: h as u32 };
    push_rect(bars, b);
    let middle = numeral(w / 2 + x);
    let mut name = String::new();
    if a.parent != -1 {
        push_signed(&mut name, a.parent as i64);
    } else {
        push_decimal(&mut name, a.id as u64);
    }
    assert(name@ =~= box_name(a@));
    push_label(
        bars,
        middle.as_str(),
        h / 2 + edge,
        "' font-size='50' text-anchor='middle'>",
        name.as_str(),
    );
    done.push(b);
    assert(bars@ =~= d.text + rect_text(b) + label_text(
        decimal((w / 2 + x) as nat),
        (h / 2 + edge) as int,
        "' font-size='50' text-anchor='middle'>"@,
        box_name(a@),
    ));
    if i + 1 != n && times[i + 1] != times[i] {
        if times[i + 1] < 0 || times[i + 1] as u64 > 42949667 {
            return None;
        }
        Some((times[i + 1] as u64 * 100 + 500, base))
    } else {
        Some((x, edge))
    }
}

impl SaState {
    /// The chart of this state as an SVG document, or nothing where it
    /// cannot be drawn: the axes with their names and marks, and a box for
    /// every activity between the dummies.
    pub fn get_svg(&self) -> (r: Option<String>)
        ensures
            match r {
                Some(file) => chart_of(self@) == Some(file@),
                None => chart_of(self@).is_none(),
            },
    {
        let project: &Project = self.project();
        let planning: &Vec<u32> = self.planning();
        let times: &Vec<i32> = self.times();
        let ghost s = self@;
        let n: usize = planning.len();
        let total: u64 = total_units(&project.resources);
        proof {
            lemma_total_nonneg(s.project.resources);
        }
        if n == 0 || times.len() != n || times[n - 1] < 0 || total > 21474830 {
            return None;
        }
        let end: u64 = times[n - 1] as u64;
        if end > 42949666 {
            return None;
        }
        assert(frame_fits(s));
        let height: u64 = total * 100 + 600;
        let base: u64 = height - 500;
        let mut bars = String::new();
        let mut done: Vec<Bar> = Vec::new();
        let mut x: u64 = 500;
        let mut y: u64 = base;
        let mut i: usize = 0;
        assert(bars@ =~= Seq::empty());
        while i < n
            invariant
                i <= n,
                s == self@,
                n == s.planning.len(),
                n == s.times.len(),
                planning@ == s.planning,
                times@ == s.times,
                project@ == s.project,
                frame_fits(s),
                total == total_capacity(s.project.resources),
                base == total * 100 + 100,
                base <= LIMIT,
                x <= LIMIT,
                y <= LIMIT,
                drawn(s, base as int, i as int) == Some(
                    Drawing { text: bars@, x: x as int, y: y as int, done: done@ },
                ),
            decreases n - i,
        {
            match draw_step(project, planning, times, base, i, &mut bars, &mut done, x, y, Ghost(s)) {
                Some(corner) => {
                    x = corner.0;
                    y = corner.1;
                },
                None => {
                    proof {
                        lemma_drawn_fails(s, base as int, i + 1, n as int);
                    }
                    return None;
                },
            }
            i += 1;
        }
        if x + 100 > LIMIT {
            return None;
        }
        let mut file = String::from_str("<svg version='1.1' width='");
        push_decimal(&mut file, x + 100);
        file.append("' height='");
        push_decimal(&mut file, height);
        file.append("' xmlns='http://www.w3.org/2000/svg'>\n");
        push_frame(&mut file, end, total);
        file.append(bars.as_str());
        file.append("</svg>");
        assert(chart_of(s) == Some(file@)) by {
            assert(file@ =~= "<svg version='1.1' width='"@ + decimal((x + 100) as nat)
                + "' height='"@ + decimal(height as nat)
                + "' xmlns='http://www.w3.org/2000/svg'>\n"@ + frame_text(
                end as int,
                total as int,
            ) + bars@ + "</svg>"@);
        }
        Some(file)
    }
}

} // verus!
