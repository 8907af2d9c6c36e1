//! The token vocabulary exchanged between producers and the rendering engine,
//! together with the specification-level width and well-formedness functions
//! that the engine's contracts are stated over.
use vstd::prelude::*;

verus! {

/// Target line width used when no explicit configuration is given.
pub const DEFAULT_MARGIN: usize = 89;

/// Indent increment per nesting level used by the builders.
pub const DEFAULT_INDENT: usize = 4;

/// Minimum number of usable columns guaranteed per line, however deep the
/// nesting gets.
pub const DEFAULT_MIN_LINE: usize = 60;

/// Upper bound on configurable column counts, so that all width arithmetic
/// stays far away from the integer limits.
pub const MAX_MARGIN: usize = 0x1000_0000;

/// How a group breaks once its content does not fit on the current line.
#[derive(Clone, Copy, PartialEq, Eq, Structural, Debug)]
pub enum GroupMode {
    /// Either no break in the group breaks, or all of them do.
    Consistent,
    /// Breaks are taken one by one, only where the next chunk would overflow.
    Inconsistent,
}

/// The inline (unbroken) form of a break, and whether it may stay inline.
#[derive(Clone, Copy, PartialEq, Eq, Structural, Debug)]
pub enum BreakKind {
    /// One space when not broken.
    Space,
    /// Nothing when not broken.
    Empty,
    /// Always a newline: its width is treated as larger than any margin, which
    /// forces every enclosing group to break.
    Hard,
}

/// One element of the document stream handed to the engine.
pub enum Token {
    /// Literal text, appended to the current line.
    Text(String),
    /// A potential line break; the offset (in columns, possibly negative) is
    /// added to the owning group's indent when the break is taken.
    Break(BreakKind, i32),
    /// Opens a group; the offset is added to the enclosing indent for lines
    /// broken inside this group.
    Begin(GroupMode, u32),
    /// Closes the innermost open group.
    End,
    /// Punctuation whose final text depends on the owning group's break
    /// status: the first string is used if the group broke, the second if not.
    Deferred(String, String),
    /// An invisible marker as wide as a whole line: it prints nothing, but
    /// its width forces the groups around it to break.  Producers use it for
    /// shapes that should never stay on one line past a chosen width.
    Overflow,
}

/// The error raised for a token stream whose groups do not nest properly,
/// or that places a break or deferred token outside every group.  This is a
/// producer bug; the render aborts with no partial output.
#[derive(Clone, Copy, PartialEq, Eq, Structural, Debug)]
pub struct StructuralError;

/// Column-count parameters of a render.
#[derive(Clone, Copy, Debug)]
pub struct Config {
    /// Target maximum rendered line width.
    pub margin: usize,
    /// Indent increment the producers are expected to use per nesting level.
    pub indent_step: usize,
    /// Minimum usable columns per line, kept even under maximal nesting.
    pub min_line_budget: usize,
}

impl Config {
    /// All counts are small positive integers and the per-line budget never
    /// exceeds the margin.
    pub open spec fn wf(self) -> bool {
        &&& 1 <= self.min_line_budget <= self.margin <= MAX_MARGIN
        &&& 1 <= self.indent_step <= self.margin
    }

    /// Indentation is clamped to this value, which leaves `min_line_budget`
    /// columns on every line.
    pub open spec fn spec_max_indent(self) -> nat {
        (self.margin - self.min_line_budget) as nat
    }

    /// The largest indentation the printer will ever emit.
    pub fn max_indent(&self) -> (r: usize)
        requires
            self.wf(),
        ensures
            r == self.spec_max_indent(),
    {
        self.margin - self.min_line_budget
    }

    /// Builds a configuration, clamping each count into its admissible range.
    pub fn new(margin: usize, indent_step: usize, min_line_budget: usize) -> (c: Config)
        ensures
            c.wf(),
            c.margin == clamp_count(margin as int, 1, MAX_MARGIN as int),
            c.indent_step == clamp_count(indent_step as int, 1, c.margin as int),
            c.min_line_budget == clamp_count(min_line_budget as int, 1, c.margin as int),
    {
        let m: usize = if margin < 1 {
            1
        } else if margin > MAX_MARGIN {
            MAX_MARGIN
        } else {
            margin
        };
        let step: usize = if indent_step < 1 {
            1
        } else if indent_step > m {
            m
        } else {
            indent_step
        };
        let budget: usize = if min_line_budget < 1 {
            1
        } else if min_line_budget > m {
            m
        } else {
            min_line_budget
        };
        Config { margin: m, indent_step: step, min_line_budget: budget }
    }
}

impl Default for Config {
    /// The configuration the high-level helpers render with.
    fn default() -> (c: Config)
        ensures
            c.wf(),
            c.margin == DEFAULT_MARGIN,
            c.indent_step == DEFAULT_INDENT,
            c.min_line_budget == DEFAULT_MIN_LINE,
    {
        Config {
            margin: DEFAULT_MARGIN,
            indent_step: DEFAULT_INDENT,
            min_line_budget: DEFAULT_MIN_LINE,
        }
    }
}

/// `x` clamped into `[lo, hi]`.
pub open spec fn clamp_count(x: int, lo: int, hi: int) -> int {
    if x < lo {
        lo
    } else if x > hi {
        hi
    } else {
        x
    }
}

/// Widths are capped at one more than the margin: beyond that, the exact size
/// can no longer change any layout decision (the overflow sentinel).
pub open spec fn cap_width(w: nat, margin: nat) -> nat {
    if w > margin {
        margin + 1
    } else {
        w
    }
}

/// The inline width of a break: what it occupies when rendered unbroken.  A
/// hard break is given an overflowing width so that it can never fit.
pub open spec fn blank_width(k: BreakKind, margin: nat) -> nat {
    match k {
        BreakKind::Space => 1,
        BreakKind::Empty => 0,
        BreakKind::Hard => margin + 1,
    }
}

/// The number of spaces a break contributes to the line when left unbroken.
pub open spec fn blank_text(k: BreakKind) -> nat {
    match k {
        BreakKind::Space => 1,
        BreakKind::Empty => 0,
        BreakKind::Hard => 1,
    }
}

/// The columns one token occupies when rendered without any line breaks.
/// Group delimiters are invisible; a deferred token counts as its unbroken
/// form.  Widths are measured in characters (codepoints).
pub open spec fn token_width(t: Token, margin: nat) -> nat {
    match t {
        Token::Text(s) => s@.len(),
        Token::Break(k, _) => blank_width(k, margin),
        Token::Begin(_, _) => 0,
        Token::End => 0,
        Token::Deferred(_, u) => u@.len(),
        Token::Overflow => margin + 1,
    }
}

/// `t` is literal text reading `v`.
pub open spec fn is_text_tok(t: Token, v: Seq<char>) -> bool {
    t is Text && t->Text_0@ == v
}

/// `t` is deferred punctuation with broken candidate `b` and unbroken
/// candidate `u`.
pub open spec fn is_deferred_tok(t: Token, b: Seq<char>, u: Seq<char>) -> bool {
    t is Deferred && t->Deferred_0@ == b && t->Deferred_1@ == u
}

/// Total unbroken width of the tokens at positions `from..to`.
pub open spec fn sum_width(s: Seq<Token>, from: int, to: int, margin: nat) -> nat
    decreases to - from,
{
    if from >= to {
        0
    } else {
        token_width(s[from], margin) + sum_width(s, from + 1, to, margin)
    }
}

/// Structural well-formedness of the suffix starting at `i`, with `d` groups
/// currently open: groups nest properly and close by the end of the stream,
/// and breaks and deferred tokens occur only inside a group.
pub open spec fn wf_from(s: Seq<Token>, i: int, d: nat) -> bool
    decreases s.len() - i,
{
    if i >= s.len() {
        d == 0
    } else {
        match s[i] {
            Token::Begin(_, _) => wf_from(s, i + 1, d + 1),
            Token::End => d > 0 && wf_from(s, i + 1, (d - 1) as nat),
            Token::Break(_, _) => d > 0 && wf_from(s, i + 1, d),
            Token::Deferred(_, _) => d > 0 && wf_from(s, i + 1, d),
            _ => wf_from(s, i + 1, d),
        }
    }
}

/// A well-formed stream: what producers are required to hand the engine.
pub open spec fn stream_wf(s: Seq<Token>) -> bool {
    wf_from(s, 0, 0)
}

/// Walking from `i` with `d` pending nested groups still to close, the
/// position of the next break at the current level, or of the token that ends
/// the current group, whichever comes first.
pub open spec fn seg_end(s: Seq<Token>, i: int, d: nat) -> int
    decreases s.len() - i,
{
    if i >= s.len() {
        s.len() as int
    } else {
        match s[i] {
            Token::Begin(_, _) => seg_end(s, i + 1, d + 1),
            Token::End => if d == 0 {
                i
            } else {
                seg_end(s, i + 1, (d - 1) as nat)
            },
            Token::Break(_, _) => if d == 0 {
                i
            } else {
                seg_end(s, i + 1, d)
            },
            _ => seg_end(s, i + 1, d),
        }
    }
}

/// Walking from `i` with `d` pending nested groups still to close, the
/// position of the token that ends the current group.
pub open spec fn group_end(s: Seq<Token>, i: int, d: nat) -> int
    decreases s.len() - i,
{
    if i >= s.len() {
        s.len() as int
    } else {
        match s[i] {
            Token::Begin(_, _) => group_end(s, i + 1, d + 1),
            Token::End => if d == 0 {
                i
            } else {
                group_end(s, i + 1, (d - 1) as nat)
            },
            _ => group_end(s, i + 1, d),
        }
    }
}

/// The resolved width of the token at `p`: for a group opening, the unbroken
/// width of its whole content; for a break, its own inline width plus the
/// unbroken width of the segment up to the next break at the same level (or
/// the group's end).  Both are capped at the overflow sentinel.
pub open spec fn width_at(s: Seq<Token>, p: int, margin: nat) -> nat {
    match s[p] {
        Token::Begin(_, _) => cap_width(sum_width(s, p + 1, group_end(s, p + 1, 0), margin), margin),
        Token::Break(k, _) => cap_width(
            blank_width(k, margin) + sum_width(s, p + 1, seg_end(s, p + 1, 0), margin),
            margin,
        ),
        _ => 0,
    }
}

/// Appending one token extends a width sum by that token's width.
pub proof fn lemma_sum_snoc(s: Seq<Token>, from: int, to: int, margin: nat)
    requires
        0 <= from <= to < s.len(),
    ensures
        sum_width(s, from, to + 1, margin) == sum_width(s, from, to, margin) + token_width(
            s[to],
            margin,
        ),
    decreases to - from,
{
    if from < to {
        lemma_sum_snoc(s, from + 1, to, margin);
    } else {
        assert(sum_width(s, to + 1, to + 1, margin) == 0);
    }
}

/// Width sums grow with the interval.
pub proof fn lemma_sum_mono(s: Seq<Token>, from: int, to: int, to2: int, margin: nat)
    requires
        from <= to <= to2,
    ensures
        sum_width(s, from, to, margin) <= sum_width(s, from, to2, margin),
    decreases to - from,
{
    if from < to {
        lemma_sum_mono(s, from + 1, to, to2, margin);
    } else {
        lemma_sum_nonneg(s, from, to2, margin);
    }
}

/// Width sums are never negative (they are naturals; this makes the bound
/// available where an empty interval is compared against a longer one).
pub proof fn lemma_sum_nonneg(s: Seq<Token>, from: int, to: int, margin: nat)
    ensures
        sum_width(s, from, to, margin) >= 0,
{
}

/// The segment scan never stops before its starting point.
pub proof fn lemma_seg_end_bounds(s: Seq<Token>, i: int, d: nat)
    requires
        0 <= i <= s.len(),
    ensures
        i <= seg_end(s, i, d) <= s.len(),
    decreases s.len() - i,
{
    if i < s.len() {
        match s[i] {
            Token::Begin(_, _) => lemma_seg_end_bounds(s, i + 1, d + 1),
            Token::End => if d > 0 {
                lemma_seg_end_bounds(s, i + 1, (d - 1) as nat)
            },
            Token::Break(_, _) => if d > 0 {
                lemma_seg_end_bounds(s, i + 1, d)
            },
            _ => lemma_seg_end_bounds(s, i + 1, d),
        }
    }
}

/// The group scan never stops before its starting point.
pub proof fn lemma_group_end_bounds(s: Seq<Token>, i: int, d: nat)
    requires
        0 <= i <= s.len(),
    ensures
        i <= group_end(s, i, d) <= s.len(),
    decreases s.len() - i,
{
    if i < s.len() {
        match s[i] {
            Token::Begin(_, _) => lemma_group_end_bounds(s, i + 1, d + 1),
            Token::End => if d > 0 {
                lemma_group_end_bounds(s, i + 1, (d - 1) as nat)
            },
            _ => lemma_group_end_bounds(s, i + 1, d),
        }
    }
}

} // verus!
