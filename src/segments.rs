//! Splitting a display line into segments of uniform style, for drawing.
use vstd::prelude::*;
use crate::document::BlockType;
use crate::style::{copy_opt, opt_view, TextStyle};
use crate::text::{chars_of, string_of};

verus! {

/// A piece of a line drawn in one style.
pub struct StyledSegment {
    pub text: String,
    pub bold: bool,
    pub italic: bool,
    pub underline: bool,
    pub strikethrough: bool,
    pub color: String,
    pub background: Option<String>,
}

/// The first style boundary after `cur` and before `bound` among the styles,
/// or `bound`.
pub open spec fn next_cut(styles: Seq<TextStyle>, cur: int, bound: int) -> int
    decreases styles.len(),
{
    if styles.len() == 0 {
        bound
    } else {
        let m = next_cut(styles.drop_last(), cur, bound);
        let s = styles.last();
        let m1 = if cur < s.start && s.start < m {
            s.start as int
        } else {
            m
        };
        if cur < s.end && s.end < m1 {
            s.end as int
        } else {
            m1
        }
    }
}

/// Whether some style covering `[a, b)` has flag `which` (0 bold, 1 italic,
/// 2 underline, 3 strikethrough).
pub open spec fn any_flag(styles: Seq<TextStyle>, a: int, b: int, which: int) -> bool
    decreases styles.len(),
{
    if styles.len() == 0 {
        false
    } else {
        let s = styles.last();
        any_flag(styles.drop_last(), a, b, which) || (s.start <= a && s.end >= b && if which == 0 {
            s.bold
        } else if which == 1 {
            s.italic
        } else if which == 2 {
            s.underline
        } else {
            s.strikethrough
        })
    }
}

/// The color of the first style covering `[a, b)` that has one.
pub open spec fn first_color(styles: Seq<TextStyle>, a: int, b: int) -> Option<Seq<char>>
    decreases styles.len(),
{
    if styles.len() == 0 {
        None
    } else {
        let prev = first_color(styles.drop_last(), a, b);
        let s = styles.last();
        if prev.is_some() {
            prev
        } else if s.start <= a && s.end >= b && s.color.is_some() {
            opt_view(s.color)
        } else {
            None
        }
    }
}

/// The background of the first style covering `[a, b)` that has one.
pub open spec fn first_background(styles: Seq<TextStyle>, a: int, b: int) -> Option<Seq<char>>
    decreases styles.len(),
{
    if styles.len() == 0 {
        None
    } else {
        let prev = first_background(styles.drop_last(), a, b);
        let s = styles.last();
        if prev.is_some() {
            prev
        } else if s.start <= a && s.end >= b && s.background.is_some() {
            opt_view(s.background)
        } else {
            None
        }
    }
}

/// `seg` is the segment `[a, b)` of a line that starts at `line_start` and
/// holds `text`.
pub open spec fn segment_is(
    seg: StyledSegment,
    styles: Seq<TextStyle>,
    text: Seq<char>,
    line_start: int,
    a: int,
    b: int,
    default_color: Seq<char>,
) -> bool {
    let hi = if b - line_start < text.len() {
        b - line_start
    } else {
        text.len() as int
    };
    &&& seg.text@ == text.subrange(a - line_start, hi)
    &&& seg.bold == any_flag(styles, a, b, 0)
    &&& seg.italic == any_flag(styles, a, b, 1)
    &&& seg.underline == any_flag(styles, a, b, 2)
    &&& seg.strikethrough == any_flag(styles, a, b, 3)
    &&& seg.color@ == match first_color(styles, a, b) {
        Some(c) => c,
        None => default_color,
    }
    &&& opt_view(seg.background) == first_background(styles, a, b)
}

/// The segments of the line from position `cur` on: one for each stretch
/// between style boundaries that holds some text.
pub open spec fn segment_bounds(
    styles: Seq<TextStyle>,
    text: Seq<char>,
    line_start: int,
    line_end: int,
    cur: int,
) -> Seq<(int, int)>
    decreases line_end - cur,
{
    if cur >= line_end {
        Seq::empty()
    } else {
        let next = next_cut(styles, cur, line_end);
        if next <= cur || next > line_end {
            Seq::empty()
        } else {
            let rest = segment_bounds(styles, text, line_start, line_end, next);
            if cur - line_start < text.len() && cur < next {
                seq![(cur, next)].add(rest)
            } else {
                rest
            }
        }
    }
}

proof fn lemma_next_cut_bounds(styles: Seq<TextStyle>, cur: int, bound: int)
    requires
        cur < bound,
    ensures
        cur < next_cut(styles, cur, bound) <= bound,
    decreases styles.len(),
{
    if styles.len() > 0 {
        lemma_next_cut_bounds(styles.drop_last(), cur, bound);
    }
}

fn cut_after(styles: &Vec<TextStyle>, cur: usize, bound: usize) -> (r: usize)
    requires
        cur < bound,
    ensures
        r == next_cut(styles@, cur as int, bound as int),
        cur < r <= bound,
{
    let mut next = bound;
    let mut k: usize = 0;
    while k < styles.len()
        invariant
            0 <= k <= styles@.len(),
            cur < bound,
            next == next_cut(styles@.subrange(0, k as int), cur as int, bound as int),
        decreases styles@.len() - k,
    {
        assert(styles@.subrange(0, k + 1).drop_last() =~= styles@.subrange(0, k as int));
        let s = &styles[k];
        if cur < s.start && s.start < next {
            next = s.start;
        }
        if cur < s.end && s.end < next {
            next = s.end;
        }
        k = k + 1;
    }
    assert(styles@.subrange(0, styles@.len() as int) =~= styles@);
    proof {
        lemma_next_cut_bounds(styles@, cur as int, bound as int);
    }
    next
}

fn merged_segment(styles: &Vec<TextStyle>, text: &Vec<char>, line_start: usize, a: usize, b: usize, default_color: &str) -> (r:
    StyledSegment)
    requires
        line_start <= a < b,
        a - line_start < text@.len(),
    ensures
        segment_is(r, styles@, text@, line_start as int, a as int, b as int, default_color@),
{
    let mut bold = false;
    let mut italic = false;
    let mut underline = false;
    let mut strikethrough = false;
    let mut color: Option<String> = None;
    let mut background: Option<String> = None;
    let mut k: usize = 0;
    while k < styles.len()
        invariant
            0 <= k <= styles@.len(),
            bold == any_flag(styles@.subrange(0, k as int), a as int, b as int, 0),
            italic == any_flag(styles@.subrange(0, k as int), a as int, b as int, 1),
            underline == any_flag(styles@.subrange(0, k as int), a as int, b as int, 2),
            strikethrough == any_flag(styles@.subrange(0, k as int), a as int, b as int, 3),
            opt_view(color) == first_color(styles@.subrange(0, k as int), a as int, b as int),
            opt_view(background) == first_background(styles@.subrange(0, k as int), a as int, b as int),
        decreases styles@.len() - k,
    {
        assert(styles@.subrange(0, k + 1).drop_last() =~= styles@.subrange(0, k as int));
        let s = &styles[k];
        if s.start <= a && s.end >= b {
            bold = bold || s.bold;
            italic = italic || s.italic;
            underline = underline || s.underline;
            strikethrough = strikethrough || s.strikethrough;
            if color.is_none() && s.color.is_some() {
                color = copy_opt(&s.color);
            }
            if background.is_none() && s.background.is_some() {
                background = copy_opt(&s.background);
            }
        }
        k = k + 1;
    }
    assert(styles@.subrange(0, styles@.len() as int) =~= styles@);
    let lo = a - line_start;
    let hi = if b - line_start < text.len() {
        b - line_start
    } else {
        text.len()
    };
    let color = match color {
        Some(c) => c,
        None => String::from_str(default_color),
    };
    StyledSegment {
        text: string_of(&text.as_slice()[lo..hi]),
        bold,
        italic,
        underline,
        strikethrough,
        color,
        background,
    }
}

/// Splits the text of a line covering `[line_start, line_end)` at every
/// style boundary inside it; each segment takes the flags of every style
/// that covers it, and the color and background of the first that has one
/// (else `default_color` and none). An empty line has no segments; a line
/// whose range gives none is one unstyled segment.
pub fn get_styled_segments(
    line_text: &str,
    line_start: usize,
    line_end: usize,
    styles: &Vec<TextStyle>,
    default_color: &str,
    _block_type: BlockType,
) -> (r: Vec<StyledSegment>)
    ensures
        line_text@.len() == 0 ==> r@.len() == 0,
        line_text@.len() > 0 && segment_bounds(styles@, line_text@, line_start as int, line_end as int, line_start as int).len() > 0
            ==> {
            let bs = segment_bounds(styles@, line_text@, line_start as int, line_end as int, line_start as int);
            &&& r@.len() == bs.len()
            &&& forall|k: int|
                0 <= k < r@.len() ==> segment_is(
                    #[trigger] r@[k],
                    styles@,
                    line_text@,
                    line_start as int,
                    bs[k].0,
                    bs[k].1,
                    default_color@,
                )
        },
        line_text@.len() > 0 && segment_bounds(styles@, line_text@, line_start as int, line_end as int, line_start as int).len() == 0
            ==> r@.len() == 1 && r@[0].text@ == line_text@ && !r@[0].bold && !r@[0].italic && !r@[0].underline
            && !r@[0].strikethrough && r@[0].color@ == default_color@ && r@[0].background.is_none(),
{
    let text = chars_of(line_text);
    let mut out: Vec<StyledSegment> = Vec::new();
    if text.len() == 0 {
        return out;
    }
    let ghost all = segment_bounds(styles@, text@, line_start as int, line_end as int, line_start as int);
    let mut cur = line_start;
    while cur < line_end
        invariant
            text@ == line_text@,
            line_start <= cur,
            all == segment_bounds(styles@, text@, line_start as int, line_end as int, line_start as int),
            out@.len() + segment_bounds(styles@, text@, line_start as int, line_end as int, cur as int).len() == all.len(),
            forall|k: int|
                0 <= k < out@.len() ==> segment_is(
                    #[trigger] out@[k],
                    styles@,
                    text@,
                    line_start as int,
                    all[k].0,
                    all[k].1,
                    default_color@,
                ),
            forall|k: int|
                0 <= k < segment_bounds(styles@, text@, line_start as int, line_end as int, cur as int).len() ==> #[trigger] segment_bounds(
                    styles@,
                    text@,
                    line_start as int,
                    line_end as int,
                    cur as int,
                )[k] == all[out@.len() + k],
        decreases line_end - cur,
    {
        let next = cut_after(styles, cur, line_end);
        let ghost here = segment_bounds(styles@, text@, line_start as int, line_end as int, cur as int);
        let ghost rest = segment_bounds(styles@, text@, line_start as int, line_end as int, next as int);
        if cur - line_start < text.len() {
            assert(here == seq![(cur as int, next as int)].add(rest));
            assert(here[0] == all[out@.len() as int]);
            let seg = merged_segment(styles, &text, line_start, cur, next, default_color);
            out.push(seg);
            assert forall|k: int| 0 <= k < rest.len() implies #[trigger] rest[k] == all[out@.len() + k] by {
                assert(here[k + 1] == rest[k]);
            }
        } else {
            assert(here == rest);
        }
        cur = next;
    }
    assert(segment_bounds(styles@, text@, line_start as int, line_end as int, cur as int).len() == 0);
    if out.len() == 0 {
        out.push(StyledSegment {
            text: String::from_str(line_text),
            bold: false,
            italic: false,
            underline: false,
            strikethrough: false,
            color: String::from_str(default_color),
            background: None,
        });
    }
    out
}

} // verus!
