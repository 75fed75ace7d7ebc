//! Character-range formatting of a paragraph.
//!
//! A paragraph's formatting is a list of runs. A well-formed list is in
//! canonical form: sorted, non-overlapping, every run non-empty and carrying
//! some formatting, and no two touching runs with identical attributes.
//! Unformatted text is the absence of a run. The meaning of such a list is the
//! function `attrs_at` from a character position to the attributes there.
use vstd::prelude::*;

verus! {

/// The view of an optional string.
pub open spec fn opt_view(o: Option<String>) -> Option<Seq<char>> {
    match o {
        Some(s) => Some(s@),
        None => None,
    }
}

/// Copies an optional string.
pub fn copy_opt(o: &Option<String>) -> (r: Option<String>)
    ensures
        r == *o,
{
    match o {
        Some(s) => Some(s.clone()),
        None => None,
    }
}

/// Compares two optional strings by their characters.
pub fn same_opt(a: &Option<String>, b: &Option<String>) -> (r: bool)
    ensures
        r == (opt_view(*a) == opt_view(*b)),
{
    match (a, b) {
        (Some(x), Some(y)) => x.eq(y),
        (None, None) => true,
        _ => false,
    }
}

/// The formatting attributes of a run, as plain values.
pub struct Attrs {
    pub bold: bool,
    pub italic: bool,
    pub underline: bool,
    pub strikethrough: bool,
    pub color: Option<Seq<char>>,
    pub background: Option<Seq<char>>,
}

impl Attrs {
    /// No formatting at all: what a position outside every run has.
    pub open spec fn plain() -> Attrs {
        Attrs {
            bold: false,
            italic: false,
            underline: false,
            strikethrough: false,
            color: None,
            background: None,
        }
    }

    pub open spec fn formatted(self) -> bool {
        self.bold || self.italic || self.underline || self.strikethrough || self.color.is_some()
            || self.background.is_some()
    }
}

/// Inline text style for the half-open character range `[start, end)`.
pub struct TextStyle {
    pub start: usize,
    pub end: usize,
    pub bold: bool,
    pub italic: bool,
    pub underline: bool,
    pub strikethrough: bool,
    /// Text color (CSS color string)
    pub color: Option<String>,
    /// Background/highlight color (CSS color string)
    pub background: Option<String>,
}

impl Clone for TextStyle {
    fn clone(&self) -> (r: Self)
        ensures
            r == *self,
    {
        TextStyle {
            start: self.start,
            end: self.end,
            bold: self.bold,
            italic: self.italic,
            underline: self.underline,
            strikethrough: self.strikethrough,
            color: copy_opt(&self.color),
            background: copy_opt(&self.background),
        }
    }
}

impl TextStyle {
    pub open spec fn attrs(self) -> Attrs {
        Attrs {
            bold: self.bold,
            italic: self.italic,
            underline: self.underline,
            strikethrough: self.strikethrough,
            color: opt_view(self.color),
            background: opt_view(self.background),
        }
    }

    pub open spec fn covers(self, p: int) -> bool {
        self.start <= p < self.end
    }

    pub open spec fn meets(self, start: int, end: int) -> bool {
        self.start < end && self.end > start
    }

    /// An unformatted style over `[start, end)`.
    pub fn new(start: usize, end: usize) -> (r: Self)
        ensures
            r.start == start,
            r.end == end,
            r.attrs() == Attrs::plain(),
    {
        TextStyle {
            start,
            end,
            bold: false,
            italic: false,
            underline: false,
            strikethrough: false,
            color: None,
            background: None,
        }
    }

    /// Whether this style has any formatting applied.
    pub fn has_formatting(&self) -> (r: bool)
        ensures
            r == self.attrs().formatted(),
    {
        self.bold || self.italic || self.underline || self.strikethrough || self.color.is_some()
            || self.background.is_some()
    }

    /// Whether this style overlaps the range `[start, end)`.
    pub fn overlaps(&self, start: usize, end: usize) -> (r: bool)
        ensures
            r == self.meets(start as int, end as int),
    {
        self.start < end && self.end > start
    }

    /// Whether this style contains the range `[start, end)`.
    pub fn contains(&self, start: usize, end: usize) -> (r: bool)
        ensures
            r == (self.start <= start && self.end >= end),
    {
        self.start <= start && self.end >= end
    }

    /// Whether the two styles carry byte-identical attributes.
    pub fn same_attrs(&self, o: &TextStyle) -> (r: bool)
        ensures
            r == (self.attrs() == o.attrs()),
    {
        self.bold == o.bold && self.italic == o.italic && self.underline == o.underline
            && self.strikethrough == o.strikethrough && same_opt(&self.color, &o.color)
            && same_opt(&self.background, &o.background)
    }
}

/// A set of field-level overrides; a field left `None` is kept as it is.
pub struct StyleChange {
    pub bold: Option<bool>,
    pub italic: Option<bool>,
    pub underline: Option<bool>,
    pub strikethrough: Option<bool>,
    /// `Some(None)` removes the color, `Some(Some(c))` sets it.
    pub color: Option<Option<String>>,
    pub background: Option<Option<String>>,
}

pub open spec fn set_flag(c: Option<bool>, v: bool) -> bool {
    match c {
        Some(b) => b,
        None => v,
    }
}

pub open spec fn set_opt(c: Option<Option<String>>, v: Option<Seq<char>>) -> Option<Seq<char>> {
    match c {
        Some(o) => opt_view(o),
        None => v,
    }
}

impl StyleChange {
    /// A change that overrides nothing.
    pub fn new() -> (r: Self)
        ensures
            forall|a: Attrs| r.apply_to(a) == a,
            r.bold.is_none() && r.italic.is_none() && r.underline.is_none() && r.strikethrough.is_none(),
            r.color.is_none() && r.background.is_none(),
    {
        StyleChange {
            bold: None,
            italic: None,
            underline: None,
            strikethrough: None,
            color: None,
            background: None,
        }
    }

    pub open spec fn apply_to(self, a: Attrs) -> Attrs {
        Attrs {
            bold: set_flag(self.bold, a.bold),
            italic: set_flag(self.italic, a.italic),
            underline: set_flag(self.underline, a.underline),
            strikethrough: set_flag(self.strikethrough, a.strikethrough),
            color: set_opt(self.color, a.color),
            background: set_opt(self.background, a.background),
        }
    }

    /// Applies the overrides to `s`, keeping its range.
    pub fn apply(&self, s: &mut TextStyle)
        ensures
            final(s).start == old(s).start,
            final(s).end == old(s).end,
            final(s).attrs() == self.apply_to(old(s).attrs()),
    {
        if let Some(b) = self.bold {
            s.bold = b;
        }
        if let Some(b) = self.italic {
            s.italic = b;
        }
        if let Some(b) = self.underline {
            s.underline = b;
        }
        if let Some(b) = self.strikethrough {
            s.strikethrough = b;
        }
        if let Some(c) = &self.color {
            s.color = copy_opt(c);
        }
        if let Some(c) = &self.background {
            s.background = copy_opt(c);
        }
    }
}

/// A run list in canonical form.
#[verifier::opaque]
pub open spec fn runs_wf(runs: Seq<TextStyle>) -> bool {
    &&& forall|i: int|
        0 <= i < runs.len() ==> #[trigger] runs[i].start < runs[i].end
            && runs[i].attrs().formatted()
    &&& forall|i: int, j: int|
        #![trigger runs[i], runs[j]]
        0 <= i < j < runs.len() ==> runs[i].end <= runs[j].start
    &&& forall|i: int|
        0 <= i < runs.len() - 1 && #[trigger] runs[i].end == runs[i + 1].start ==> runs[i].attrs()
            != runs[i + 1].attrs()
}

/// The attributes at position `p`, or `None` where no run covers it.
pub open spec fn attrs_at(runs: Seq<TextStyle>, p: int) -> Option<Attrs>
    decreases runs.len(),
{
    if runs.len() == 0 {
        None
    } else if runs.last().covers(p) {
        Some(runs.last().attrs())
    } else {
        attrs_at(runs.drop_last(), p)
    }
}

/// Attributes as they are stored: `None` for unformatted.
pub open spec fn stored(a: Attrs) -> Option<Attrs> {
    if a.formatted() {
        Some(a)
    } else {
        None
    }
}

/// What `apply_style(start, end, c)` makes of position `p`.
pub open spec fn restyled_at(runs: Seq<TextStyle>, start: int, end: int, c: StyleChange, p: int) -> Option<
    Attrs,
> {
    if start <= p < end {
        stored(
            c.apply_to(
                match attrs_at(runs, p) {
                    Some(a) => a,
                    None => Attrs::plain(),
                },
            ),
        )
    } else {
        attrs_at(runs, p)
    }
}

/// In a well-formed list, the run that covers `p` gives the attributes at `p`.
pub proof fn lemma_attrs_at_run(runs: Seq<TextStyle>, i: int, p: int)
    requires
        runs_wf(runs),
        0 <= i < runs.len(),
        runs[i].covers(p),
    ensures
        attrs_at(runs, p) == Some(runs[i].attrs()),
    decreases runs.len(),
{
    reveal(runs_wf);
    if i < runs.len() - 1 {
        assert(runs[i].end <= runs[runs.len() - 1].start);
        let d = runs.drop_last();
        assert(runs_wf(d)) by {
            assert forall|k: int| 0 <= k < d.len() - 1 && #[trigger] d[k].end == d[k + 1].start implies d[k].attrs()
                != d[k + 1].attrs() by {
                assert(d[k] == runs[k] && d[k + 1] == runs[k + 1]);
            }
        }
        assert(d[i] == runs[i]);
        lemma_attrs_at_run(d, i, p);
    }
}

/// Where no run covers `p`, there are no attributes.
pub proof fn lemma_attrs_at_gap(runs: Seq<TextStyle>, p: int)
    requires
        forall|i: int| 0 <= i < runs.len() ==> !(#[trigger] runs[i]).covers(p),
    ensures
        attrs_at(runs, p) == None::<Attrs>,
    decreases runs.len(),
{
    if runs.len() > 0 {
        let d = runs.drop_last();
        assert forall|i: int| 0 <= i < d.len() implies !(#[trigger] d[i]).covers(p) by {
            assert(d[i] == runs[i]);
        }
        assert(!runs[runs.len() - 1].covers(p));
        lemma_attrs_at_gap(d, p);
    }
}

/// Beyond the end of the last run there are no attributes.
pub proof fn lemma_attrs_at_beyond(runs: Seq<TextStyle>, p: int)
    requires
        runs_wf(runs),
        runs.len() > 0 ==> runs.last().end <= p,
    ensures
        attrs_at(runs, p) == None::<Attrs>,
{
    reveal(runs_wf);
    assert forall|i: int| 0 <= i < runs.len() implies !(#[trigger] runs[i]).covers(p) by {
        if i < runs.len() - 1 {
            assert(runs[i].end <= runs[runs.len() - 1].start);
        }
    }
    lemma_attrs_at_gap(runs, p);
}

/// Appends a run at the end, merging it into the last run where the two
/// touch and carry the same attributes.
fn push_run(out: &mut Vec<TextStyle>, run: TextStyle)
    requires
        runs_wf(old(out)@),
        run.start < run.end,
        run.attrs().formatted(),
        old(out)@.len() > 0 ==> old(out)@.last().end <= run.start,
    ensures
        runs_wf(final(out)@),
        final(out)@.len() > 0,
        final(out)@.last().end == run.end,
        forall|p: int|
            #[trigger] attrs_at(final(out)@, p) == if run.covers(p) {
                Some(run.attrs())
            } else {
                attrs_at(old(out)@, p)
            },
{
    reveal(runs_wf);
    let n = out.len();
    if n > 0 && out[n - 1].end == run.start && out[n - 1].same_attrs(&run) {
        let ghost o = out@;
        let mut last = out.pop().unwrap();
        assert(out@ == o.drop_last());
        last.end = run.end;
        out.push(last);
        assert(out@.drop_last() == o.drop_last());
        assert forall|p: int| #[trigger]
            attrs_at(out@, p) == if run.covers(p) {
                Some(run.attrs())
            } else {
                attrs_at(o, p)
            } by {
            assert(out@.last() == last);
        }
        assert(runs_wf(out@)) by {
            assert forall|i: int, j: int|
                #![trigger out@[i], out@[j]]
                0 <= i < j < out@.len() implies out@[i].end <= out@[j].start by {
                if j < out@.len() - 1 {
                    assert(out@[i] == o[i] && out@[j] == o[j]);
                } else {
                    assert(out@[i] == o[i]);
                    assert(o[i].end <= o[j].start);
                }
            }
            assert forall|i: int| 0 <= i < out@.len() - 1 && #[trigger] out@[i].end == out@[i + 1].start implies out@[i].attrs()
                != out@[i + 1].attrs() by {
                assert(out@[i] == o[i]);
                if i + 1 < out@.len() - 1 {
                    assert(out@[i + 1] == o[i + 1]);
                } else {
                    assert(out@[i + 1].attrs() == o[i + 1].attrs());
                    assert(out@[i + 1].start == o[i + 1].start);
                }
            }
            assert forall|i: int| 0 <= i < out@.len() implies #[trigger] out@[i].start < out@[i].end
                && out@[i].attrs().formatted() by {
                if i < out@.len() - 1 {
                    assert(out@[i] == o[i]);
                }
            }
        }
    } else {
        let ghost o = out@;
        out.push(run);
        assert(out@.drop_last() == o);
        assert(runs_wf(out@)) by {
            assert forall|i: int, j: int|
                #![trigger out@[i], out@[j]]
                0 <= i < j < out@.len() implies out@[i].end <= out@[j].start by {
                assert(out@[i] == o[i]);
                if j < out@.len() - 1 {
                    assert(out@[j] == o[j]);
                } else if i < o.len() - 1 {
                    assert(o[i].end <= o[o.len() - 1].start);
                }
            }
            assert forall|i: int| 0 <= i < out@.len() - 1 && #[trigger] out@[i].end == out@[i + 1].start implies out@[i].attrs()
                != out@[i + 1].attrs() by {
                assert(out@[i] == o[i]);
                if i + 1 < out@.len() - 1 {
                    assert(out@[i + 1] == o[i + 1]);
                }
            }
            assert forall|i: int| 0 <= i < out@.len() implies #[trigger] out@[i].start < out@[i].end
                && out@[i].attrs().formatted() by {
                if i < out@.len() - 1 {
                    assert(out@[i] == o[i]);
                }
            }
        }
    }
}

/// Pushes `run` when it is non-empty and carries formatting; otherwise leaves
/// `out` as it is.
fn push_if_formatted(out: &mut Vec<TextStyle>, run: TextStyle)
    requires
        runs_wf(old(out)@),
        run.start <= run.end,
        old(out)@.len() > 0 ==> old(out)@.last().end <= run.start,
    ensures
        runs_wf(final(out)@),
        final(out)@.len() > 0 ==> final(out)@.last().end <= run.end,
        old(out)@.len() > 0 ==> final(out)@.len() > 0,
        forall|p: int|
            #[trigger] attrs_at(final(out)@, p) == if run.covers(p) {
                stored(run.attrs())
            } else {
                attrs_at(old(out)@, p)
            },
{
    reveal(runs_wf);
    if run.start < run.end && run.has_formatting() {
        push_run(out, run);
    } else {
        assert forall|p: int| #[trigger]
            attrs_at(out@, p) == if run.covers(p) {
                stored(run.attrs())
            } else {
                attrs_at(out@, p)
            } by {
            if run.covers(p) {
                assert(run.start < run.end);
                assert(!run.attrs().formatted());
                if out@.len() > 0 {
                    assert(out@.last().end <= p);
                }
                lemma_attrs_at_beyond(out@, p);
            }
        }
    }
}

/// `out` holds exactly what the restyled list holds below `b`, and nothing
/// from `b` on.
#[verifier::opaque]
pub open spec fn agrees_below(
    out: Seq<TextStyle>,
    runs: Seq<TextStyle>,
    start: int,
    end: int,
    c: StyleChange,
    b: int,
) -> bool {
    forall|p: int| #[trigger]
        attrs_at(out, p) == if p < b {
            restyled_at(runs, start, end, c, p)
        } else {
            None
        }
}

/// The restyled list has nothing in `[a, b)`.
pub open spec fn restyled_empty_between(
    runs: Seq<TextStyle>,
    start: int,
    end: int,
    c: StyleChange,
    a: int,
    b: int,
) -> bool {
    forall|p: int| a <= p < b ==> #[trigger] restyled_at(runs, start, end, c, p) == None::<Attrs>
}

/// Between the end of run `i - 1` and the start of run `i` no run covers `p`.
pub proof fn lemma_attrs_at_between(runs: Seq<TextStyle>, i: int, p: int)
    requires
        runs_wf(runs),
        0 <= i <= runs.len(),
        i > 0 ==> runs[i - 1].end <= p,
        i < runs.len() ==> p < runs[i].start,
    ensures
        attrs_at(runs, p) == None::<Attrs>,
{
    reveal(runs_wf);
    assert forall|j: int| 0 <= j < runs.len() implies !(#[trigger] runs[j]).covers(p) by {
        if j < i - 1 {
            assert(runs[j].end <= runs[i - 1].start);
        } else if j > i {
            assert(runs[i].end <= runs[j].start);
        }
    }
    lemma_attrs_at_gap(runs, p);
}

/// Emits the unstyled gap `[from, to)` inside the range, restyled.
fn emit_gap(
    out: &mut Vec<TextStyle>,
    from: usize,
    to: usize,
    c: &StyleChange,
    Ghost(runs): Ghost<Seq<TextStyle>>,
    Ghost(start): Ghost<int>,
    Ghost(end): Ghost<int>,
    Ghost(b): Ghost<int>,
)
    requires
        runs_wf(old(out)@),
        agrees_below(old(out)@, runs, start, end, *c, b),
        old(out)@.len() > 0 ==> old(out)@.last().end <= b,
        b <= from < to,
        start <= from,
        to <= end,
        restyled_empty_between(runs, start, end, *c, b, from as int),
        forall|p: int| from <= p < to ==> #[trigger] attrs_at(runs, p) == None::<Attrs>,
    ensures
        runs_wf(final(out)@),
        agrees_below(final(out)@, runs, start, end, *c, to as int),
        final(out)@.len() > 0 ==> final(out)@.last().end <= to,
{
    reveal(agrees_below);
    let ghost o = out@;
    let mut g = TextStyle::new(from, to);
    c.apply(&mut g);
    proof {
        if o.len() > 0 {
            assert(o.last().end <= from);
        }
    }
    push_if_formatted(out, g);
    assert forall|p: int| #[trigger]
        attrs_at(out@, p) == if p < to {
            restyled_at(runs, start, end, *c, p)
        } else {
            None
        } by {
        if from <= p < to {
            assert(attrs_at(runs, p) == None::<Attrs>);
        } else if b <= p < from {
            assert(restyled_at(runs, start, end, *c, p) == None::<Attrs>);
        }
    }
}

/// Emits run `s` of the old list: the parts outside the range as they are,
/// the part inside restyled.
fn emit_run(
    out: &mut Vec<TextStyle>,
    s: &TextStyle,
    start: usize,
    end: usize,
    c: &StyleChange,
    Ghost(runs): Ghost<Seq<TextStyle>>,
    Ghost(b): Ghost<int>,
)
    requires
        start < end,
        runs_wf(old(out)@),
        agrees_below(old(out)@, runs, start as int, end as int, *c, b),
        old(out)@.len() > 0 ==> old(out)@.last().end <= b,
        b <= s.start,
        s.start < s.end,
        s.attrs().formatted(),
        restyled_empty_between(runs, start as int, end as int, *c, b, s.start as int),
        forall|p: int| #[trigger] s.covers(p) ==> attrs_at(runs, p) == Some(s.attrs()),
    ensures
        runs_wf(final(out)@),
        agrees_below(final(out)@, runs, start as int, end as int, *c, s.end as int),
        final(out)@.len() > 0 ==> final(out)@.last().end <= s.end,
{
    reveal(agrees_below);
    let ghost o = out@;
    if !s.overlaps(start, end) {
        let t = s.clone();
        push_run(out, t);
        assert forall|p: int| #[trigger]
            attrs_at(out@, p) == if p < s.end {
                restyled_at(runs, start as int, end as int, *c, p)
            } else {
                None
            } by {
            if s.covers(p) {
                assert(attrs_at(runs, p) == Some(s.attrs()));
            } else if b <= p < s.start {
                assert(restyled_at(runs, start as int, end as int, *c, p) == None::<Attrs>);
            }
        }
    } else {
        if s.start < start {
            let mut pre = s.clone();
            pre.end = start;
            push_run(out, pre);
        }
        let ghost o1 = out@;
        let lo = if s.start > start {
            s.start
        } else {
            start
        };
        let hi = if s.end < end {
            s.end
        } else {
            end
        };
        let mut mid = s.clone();
        mid.start = lo;
        mid.end = hi;
        c.apply(&mut mid);
        push_if_formatted(out, mid);
        let ghost o2 = out@;
        if s.end > end {
            let mut post = s.clone();
            post.start = end;
            push_run(out, post);
        }
        assert forall|p: int| #[trigger]
            attrs_at(out@, p) == if p < s.end {
                restyled_at(runs, start as int, end as int, *c, p)
            } else {
                None
            } by {
            if s.covers(p) {
                assert(attrs_at(runs, p) == Some(s.attrs()));
            } else if b <= p < s.start {
                assert(restyled_at(runs, start as int, end as int, *c, p) == None::<Attrs>);
            }
        }
    }
}

/// Emits run `i` of `rs` together with the gap in front of it.
fn restyle_step(
    out: &mut Vec<TextStyle>,
    s: &TextStyle,
    pe: usize,
    start: usize,
    end: usize,
    c: &StyleChange,
    Ghost(rs): Ghost<Seq<TextStyle>>,
    Ghost(i): Ghost<int>,
)
    requires
        runs_wf(rs),
        start < end,
        0 <= i < rs.len(),
        *s == rs[i],
        pe == if i == 0 {
            0
        } else {
            rs[i - 1].end as int
        },
        runs_wf(old(out)@),
        agrees_below(old(out)@, rs, start as int, end as int, *c, pe as int),
        old(out)@.len() > 0 ==> old(out)@.last().end <= pe,
    ensures
        runs_wf(final(out)@),
        agrees_below(final(out)@, rs, start as int, end as int, *c, s.end as int),
        final(out)@.len() > 0 ==> final(out)@.last().end <= s.end,
{
    reveal(runs_wf);
    proof {
        if i > 0 {
            assert(rs[i - 1].end <= rs[i].start);
        }
    }
    let from = if start > pe {
        start
    } else {
        pe
    };
    let to = if s.start < end {
        s.start
    } else {
        end
    };
    let ghost mut b = pe as int;
    if from < to {
        assert forall|p: int| from <= p < to implies #[trigger] attrs_at(rs, p) == None::<Attrs> by {
            lemma_attrs_at_between(rs, i, p);
        }
        assert forall|p: int| pe <= p < from implies #[trigger] restyled_at(
            rs,
            start as int,
            end as int,
            *c,
            p,
        ) == None::<Attrs> by {
            lemma_attrs_at_between(rs, i, p);
        }
        emit_gap(out, from, to, c, Ghost(rs), Ghost(start as int), Ghost(end as int), Ghost(pe as int));
        proof {
            b = to as int;
        }
    }
    assert forall|p: int| b <= p < s.start implies #[trigger] restyled_at(
        rs,
        start as int,
        end as int,
        *c,
        p,
    ) == None::<Attrs> by {
        lemma_attrs_at_between(rs, i, p);
    }
    assert forall|p: int| #[trigger] s.covers(p) implies attrs_at(rs, p) == Some(s.attrs()) by {
        lemma_attrs_at_run(rs, i, p);
    }
    emit_run(out, s, start, end, c, Ghost(rs), Ghost(b));
}

/// Emits the gap after the last run, and closes the list.
fn restyle_finish(
    out: &mut Vec<TextStyle>,
    pe: usize,
    start: usize,
    end: usize,
    c: &StyleChange,
    Ghost(rs): Ghost<Seq<TextStyle>>,
)
    requires
        runs_wf(rs),
        start < end,
        pe == if rs.len() == 0 {
            0
        } else {
            rs.last().end as int
        },
        runs_wf(old(out)@),
        agrees_below(old(out)@, rs, start as int, end as int, *c, pe as int),
        old(out)@.len() > 0 ==> old(out)@.last().end <= pe,
    ensures
        runs_wf(final(out)@),
        forall|p: int| #[trigger]
            attrs_at(final(out)@, p) == restyled_at(rs, start as int, end as int, *c, p),
{
    reveal(agrees_below);
    let ghost n = rs.len();
    let from = if start > pe {
        start
    } else {
        pe
    };
    if from < end {
        assert forall|p: int| from <= p < end implies #[trigger] attrs_at(rs, p) == None::<Attrs> by {
            lemma_attrs_at_between(rs, n as int, p);
        }
        assert forall|p: int| pe <= p < from implies #[trigger] restyled_at(
            rs,
            start as int,
            end as int,
            *c,
            p,
        ) == None::<Attrs> by {
            lemma_attrs_at_between(rs, n as int, p);
        }
        emit_gap(out, from, end, c, Ghost(rs), Ghost(start as int), Ghost(end as int), Ghost(pe as int));
        assert forall|p: int| #[trigger]
            attrs_at(out@, p) == restyled_at(rs, start as int, end as int, *c, p) by {
            if p >= end {
                lemma_attrs_at_between(rs, n as int, p);
            }
        }
    } else {
        assert forall|p: int| #[trigger]
            attrs_at(out@, p) == restyled_at(rs, start as int, end as int, *c, p) by {
            if p >= pe {
                lemma_attrs_at_between(rs, n as int, p);
            }
        }
    }
}

/// The runs of `runs` with `c` applied over `[start, end)`.
pub fn restyle_runs(runs: &Vec<TextStyle>, start: usize, end: usize, c: &StyleChange) -> (r: Vec<
    TextStyle,
>)
    requires
        runs_wf(runs@),
        start < end,
    ensures
        runs_wf(r@),
        forall|p: int| #[trigger]
            attrs_at(r@, p) == restyled_at(runs@, start as int, end as int, *c, p),
{
    let ghost rs = runs@;
    let mut out: Vec<TextStyle> = Vec::new();
    assert(agrees_below(out@, rs, start as int, end as int, *c, 0)) by {
        reveal(agrees_below);
        assert forall|p: int| p < 0 implies #[trigger] attrs_at(rs, p) == None::<Attrs> by {
            lemma_attrs_at_between(rs, 0, p);
        }
    }
    assert(runs_wf(out@)) by {
        reveal(runs_wf);
    }
    let mut pe: usize = 0;
    let n = runs.len();
    let mut i: usize = 0;
    while i < n
        invariant
            n == rs.len(),
            rs == runs@,
            runs_wf(rs),
            start < end,
            0 <= i <= n,
            pe == if i == 0 {
                0
            } else {
                rs[i - 1].end as int
            },
            runs_wf(out@),
            agrees_below(out@, rs, start as int, end as int, *c, pe as int),
            out@.len() > 0 ==> out@.last().end <= pe,
        decreases n - i,
    {
        restyle_step(&mut out, &runs[i], pe, start, end, c, Ghost(rs), Ghost(i as int));
        pe = runs[i].end;
        i = i + 1;
    }
    restyle_finish(&mut out, pe, start, end, c, Ghost(rs));
    out
}

/// Two run lists with the same ranges and attributes, run by run.
pub open spec fn same_runs(a: Seq<TextStyle>, b: Seq<TextStyle>) -> bool {
    &&& a.len() == b.len()
    &&& forall|i: int|
        0 <= i < a.len() ==> (#[trigger] a[i]).start == b[i].start && a[i].end == b[i].end
            && a[i].attrs() == b[i].attrs()
}

proof fn lemma_wf_drop_last(runs: Seq<TextStyle>)
    requires
        runs_wf(runs),
        runs.len() > 0,
    ensures
        runs_wf(runs.drop_last()),
{
    reveal(runs_wf);
    let d = runs.drop_last();
    assert forall|k: int| 0 <= k < d.len() - 1 && #[trigger] d[k].end == d[k + 1].start implies d[k].attrs()
        != d[k + 1].attrs() by {
        assert(d[k] == runs[k] && d[k + 1] == runs[k + 1]);
    }
    assert forall|i: int| 0 <= i < d.len() implies #[trigger] d[i].start < d[i].end
        && d[i].attrs().formatted() by {
        assert(d[i] == runs[i]);
    }
    assert forall|i: int, j: int|
        #![trigger d[i], d[j]]
        0 <= i < j < d.len() implies d[i].end <= d[j].start by {
        assert(d[i] == runs[i] && d[j] == runs[j]);
    }
}

/// Just before the start of the last run, a well-formed list has something
/// other than the last run's attributes.
proof fn lemma_before_last(runs: Seq<TextStyle>)
    requires
        runs_wf(runs),
        runs.len() > 0,
    ensures
        attrs_at(runs, runs.last().start - 1) != Some(runs.last().attrs()),
{
    reveal(runs_wf);
    let n = runs.len() as int;
    let q = runs.last().start - 1;
    let d = runs.drop_last();
    lemma_wf_drop_last(runs);
    if n > 1 {
        let prev = runs[n - 2];
        assert(d.last() == prev);
        if prev.end == runs.last().start {
            assert(prev.attrs() != runs.last().attrs());
            assert(d.len() - 1 == n - 2);
            lemma_attrs_at_run(d, n - 2, q);
        } else {
            lemma_attrs_at_beyond(d, q);
        }
    } else {
        lemma_attrs_at_beyond(d, q);
    }
}

/// A well-formed list is determined by the attributes it gives each
/// position.
pub proof fn lemma_canonical_unique(a: Seq<TextStyle>, b: Seq<TextStyle>)
    requires
        runs_wf(a),
        runs_wf(b),
        forall|p: int| #[trigger] attrs_at(a, p) == attrs_at(b, p),
    ensures
        same_runs(a, b),
    decreases a.len() + b.len(),
{
    reveal(runs_wf);
    if a.len() == 0 || b.len() == 0 {
        if a.len() > 0 {
            assert(attrs_at(a, a.last().start as int) == Some(a.last().attrs()));
            lemma_attrs_at_beyond(b, a.last().start as int);
        }
        if b.len() > 0 {
            assert(attrs_at(b, b.last().start as int) == Some(b.last().attrs()));
            lemma_attrs_at_beyond(a, b.last().start as int);
        }
    } else {
        let la = a.last();
        let lb = b.last();
        if la.end < lb.end {
            assert(attrs_at(b, lb.end - 1) == Some(lb.attrs()));
            lemma_attrs_at_beyond(a, lb.end - 1);
        }
        if lb.end < la.end {
            assert(attrs_at(a, la.end - 1) == Some(la.attrs()));
            lemma_attrs_at_beyond(b, la.end - 1);
        }
        assert(la.end == lb.end);
        assert(attrs_at(a, la.end - 1) == Some(la.attrs()));
        assert(attrs_at(b, lb.end - 1) == Some(lb.attrs()));
        assert(la.attrs() == lb.attrs());
        if la.start < lb.start {
            lemma_before_last(b);
            assert(attrs_at(a, lb.start - 1) == Some(la.attrs()));
        }
        if lb.start < la.start {
            lemma_before_last(a);
            assert(attrs_at(b, la.start - 1) == Some(lb.attrs()));
        }
        assert(la.start == lb.start);
        let da = a.drop_last();
        let db = b.drop_last();
        lemma_wf_drop_last(a);
        lemma_wf_drop_last(b);
        assert forall|p: int| #[trigger] attrs_at(da, p) == attrs_at(db, p) by {
            if p >= la.start {
                lemma_attrs_at_beyond(da, p);
                lemma_attrs_at_beyond(db, p);
            } else {
                assert(attrs_at(a, p) == attrs_at(da, p));
                assert(attrs_at(b, p) == attrs_at(db, p));
            }
        }
        lemma_canonical_unique(da, db);
        assert forall|i: int| 0 <= i < a.len() implies (#[trigger] a[i]).start == b[i].start
            && a[i].end == b[i].end && a[i].attrs() == b[i].attrs() by {
            if i < a.len() - 1 {
                assert(a[i] == da[i] && b[i] == db[i]);
            }
        }
    }
}

/// Applying the same change twice over the same range gives the runs that
/// applying it once gives.
pub proof fn law_restyle_idempotent(
    runs: Seq<TextStyle>,
    start: int,
    end: int,
    c: StyleChange,
    once: Seq<TextStyle>,
    twice: Seq<TextStyle>,
)
    requires
        runs_wf(once),
        runs_wf(twice),
        forall|p: int| #[trigger] attrs_at(once, p) == restyled_at(runs, start, end, c, p),
        forall|p: int| #[trigger] attrs_at(twice, p) == restyled_at(once, start, end, c, p),
    ensures
        same_runs(once, twice),
{
    assert forall|p: int| #[trigger] attrs_at(once, p) == attrs_at(twice, p) by {
        assert(attrs_at(once, p) == restyled_at(runs, start, end, c, p));
        assert(attrs_at(twice, p) == restyled_at(once, start, end, c, p));
    }
    lemma_canonical_unique(once, twice);
}

/// The runs that meet `[start, end)`, in order.
pub open spec fn overlapping(runs: Seq<TextStyle>, start: int, end: int) -> Seq<TextStyle>
    decreases runs.len(),
{
    if runs.len() == 0 {
        Seq::empty()
    } else {
        let prev = overlapping(runs.drop_last(), start, end);
        if runs.last().meets(start, end) {
            prev.push(runs.last())
        } else {
            prev
        }
    }
}

/// The first run that covers `pos`, if any.
pub fn first_style_at(runs: &Vec<TextStyle>, pos: usize) -> (r: Option<&TextStyle>)
    ensures
        match r {
            Some(s) => exists|i: int|
                0 <= i < runs@.len() && runs@[i] == *s && s.covers(pos as int) && forall|j: int|
                    0 <= j < i ==> !(#[trigger] runs@[j]).covers(pos as int),
            None => forall|i: int| 0 <= i < runs@.len() ==> !(#[trigger] runs@[i]).covers(pos as int),
        },
{
    let mut i: usize = 0;
    while i < runs.len()
        invariant
            0 <= i <= runs@.len(),
            forall|j: int| 0 <= j < i ==> !(#[trigger] runs@[j]).covers(pos as int),
        decreases runs@.len() - i,
    {
        if runs[i].start <= pos && runs[i].end > pos {
            return Some(&runs[i]);
        }
        i = i + 1;
    }
    None
}

/// The runs that overlap `[start, end)`, in order.
pub fn overlapping_styles(runs: &Vec<TextStyle>, start: usize, end: usize) -> (r: Vec<&TextStyle>)
    ensures
        r@.len() == overlapping(runs@, start as int, end as int).len(),
        forall|i: int|
            0 <= i < r@.len() ==> *(#[trigger] r@[i]) == overlapping(runs@, start as int, end as int)[i],
{
    let mut out: Vec<&TextStyle> = Vec::new();
    let mut i: usize = 0;
    while i < runs.len()
        invariant
            0 <= i <= runs@.len(),
            out@.len() == overlapping(runs@.subrange(0, i as int), start as int, end as int).len(),
            forall|k: int|
                0 <= k < out@.len() ==> *(#[trigger] out@[k]) == overlapping(
                    runs@.subrange(0, i as int),
                    start as int,
                    end as int,
                )[k],
        decreases runs@.len() - i,
    {
        let ghost pre = runs@.subrange(0, i as int);
        assert(runs@.subrange(0, i + 1).drop_last() == pre);
        if runs[i].overlaps(start, end) {
            out.push(&runs[i]);
        }
        i = i + 1;
    }
    assert(runs@.subrange(0, runs@.len() as int) == runs@);
    out
}

/// In a well-formed list, the runs that meet `[p, p + 1)` are the one run
/// that covers `p`, or none.
proof fn lemma_overlapping_unit(runs: Seq<TextStyle>, p: int)
    requires
        runs_wf(runs),
    ensures
        forall|i: int|
            0 <= i < runs.len() && (#[trigger] runs[i]).covers(p) ==> overlapping(runs, p, p + 1)
                == seq![runs[i]],
        (forall|i: int| 0 <= i < runs.len() ==> !(#[trigger] runs[i]).covers(p)) ==> overlapping(
            runs,
            p,
            p + 1,
        ) == Seq::<TextStyle>::empty(),
    decreases runs.len(),
{
    if runs.len() > 0 {
        reveal(runs_wf);
        let d = runs.drop_last();
        lemma_wf_drop_last(runs);
        lemma_overlapping_unit(d, p);
        let n = runs.len() as int;
        if runs[n - 1].covers(p) {
            assert forall|i: int| 0 <= i < d.len() implies !(#[trigger] d[i]).covers(p) by {
                assert(d[i] == runs[i]);
                assert(runs[i].end <= runs[n - 1].start);
            }
        } else {
            assert forall|i: int| 0 <= i < d.len() && (#[trigger] d[i]).covers(p) implies overlapping(runs, p, p + 1)
                == seq![d[i]] by {
                assert(d[i] == runs[i]);
            }
            assert forall|i: int| 0 <= i < n - 1 && (#[trigger] runs[i]).covers(p) implies d[i].covers(p) by {
                assert(d[i] == runs[i]);
            }
        }
    }
}

/// In a well-formed list, the style at `p` is found exactly when the styles
/// in `[p, p + 1)` are not empty, and then they are that style alone.
pub proof fn law_style_at_agrees_with_range(runs: Seq<TextStyle>, p: int, found: Option<TextStyle>)
    requires
        runs_wf(runs),
        match found {
            Some(s) => exists|i: int|
                0 <= i < runs.len() && runs[i] == s && s.covers(p) && forall|j: int|
                    0 <= j < i ==> !(#[trigger] runs[j]).covers(p),
            None => forall|i: int| 0 <= i < runs.len() ==> !(#[trigger] runs[i]).covers(p),
        },
    ensures
        found.is_some() <==> overlapping(runs, p, p + 1).len() > 0,
        found.is_some() ==> overlapping(runs, p, p + 1) == seq![found.unwrap()],
{
    lemma_overlapping_unit(runs, p);
    if let Some(s) = found {
        let i = choose|i: int|
            0 <= i < runs.len() && runs[i] == s && s.covers(p) && forall|j: int|
                0 <= j < i ==> !(#[trigger] runs[j]).covers(p);
        assert(runs[i].covers(p));
    }
}

/// In a well-formed list, the first run that covers `p` holds the
/// attributes at `p`.
pub proof fn lemma_first_style_is_attrs(runs: Seq<TextStyle>, p: int, found: Option<TextStyle>)
    requires
        runs_wf(runs),
        match found {
            Some(s) => exists|i: int| 0 <= i < runs.len() && runs[i] == s && s.covers(p),
            None => forall|i: int| 0 <= i < runs.len() ==> !(#[trigger] runs[i]).covers(p),
        },
    ensures
        attrs_at(runs, p) == match found {
            Some(s) => Some(s.attrs()),
            None => None,
        },
{
    if let Some(s) = found {
        let i = choose|i: int| 0 <= i < runs.len() && runs[i] == s && s.covers(p);
        lemma_attrs_at_run(runs, i, p);
    } else {
        lemma_attrs_at_gap(runs, p);
    }
}

/// A list without runs is well formed.
pub proof fn lemma_no_runs_wf()
    ensures
        runs_wf(Seq::<TextStyle>::empty()),
{
    reveal(runs_wf);
}

/// Whether `runs` is a well-formed run list.
pub fn styles_well_formed(runs: &Vec<TextStyle>) -> (r: bool)
    ensures
        r == runs_wf(runs@),
{
    reveal(runs_wf);
    let n = runs.len();
    let mut i: usize = 0;
    while i < n
        invariant
            n == runs@.len(),
            0 <= i <= n,
            runs_wf(runs@.subrange(0, i as int)),
        decreases n - i,
    {
        proof {
            reveal(runs_wf);
        }
        let ghost pre = runs@.subrange(0, i as int);
        let ghost next = runs@.subrange(0, i + 1);
        let s = &runs[i];
        if !(s.start < s.end && s.has_formatting()) {
            assert(!runs_wf(runs@)) by {
                assert(!(runs@[i as int].start < runs@[i as int].end && runs@[i as int].attrs().formatted()));
            }
            return false;
        }
        if i > 0 {
            let p = &runs[i - 1];
            if p.end > s.start || (p.end == s.start && p.same_attrs(s)) {
                assert(!runs_wf(runs@)) by {
                    if p.end > s.start {
                        assert(runs@[i - 1].end > runs@[i as int].start);
                    } else {
                        assert(runs@[i - 1].end == runs@[i - 1 + 1].start);
                    }
                }
                return false;
            }
        }
        assert(runs_wf(next)) by {
            assert forall|a: int, b: int|
                #![trigger next[a], next[b]]
                0 <= a < b < next.len() implies next[a].end <= next[b].start by {
                if b < i {
                    assert(pre[a] == next[a] && pre[b] == next[b]);
                } else if a < i - 1 {
                    assert(pre[a] == next[a] && pre[i - 1] == next[i - 1]);
                    assert(pre[a].end <= pre[i - 1].start);
                }
            }
            assert forall|a: int| 0 <= a < next.len() - 1 && #[trigger] next[a].end == next[a + 1].start implies next[a].attrs()
                != next[a + 1].attrs() by {
                if a + 1 < i {
                    assert(pre[a] == next[a] && pre[a + 1] == next[a + 1]);
                }
            }
            assert forall|a: int| 0 <= a < next.len() implies #[trigger] next[a].start < next[a].end
                && next[a].attrs().formatted() by {
                if a < i {
                    assert(pre[a] == next[a]);
                }
            }
        }
        i = i + 1;
    }
    assert(runs@.subrange(0, n as int) == runs@);
    true
}

/// The runs are sorted and do not overlap.
pub open spec fn runs_sorted(runs: Seq<TextStyle>) -> bool {
    &&& forall|i: int| 0 <= i < runs.len() ==> #[trigger] runs[i].start < runs[i].end
    &&& forall|i: int, j: int|
        #![trigger runs[i], runs[j]]
        0 <= i < j < runs.len() ==> runs[i].end <= runs[j].start
}

/// What a well-formed list says of the order of its runs.
pub proof fn reveal_runs_wf(runs: Seq<TextStyle>)
    requires
        runs_wf(runs),
    ensures
        runs_sorted(runs),
{
    reveal(runs_wf);
}

} // verus!
