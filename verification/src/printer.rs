//! The printer: a state machine that consumes scanner-resolved tokens in
//! order and emits the final text.  Each group's break status is decided once,
//! the moment its opening token is printed, from the current column and the
//! group's resolved width; it never changes afterwards, which is what lets
//! deferred punctuation resolve synchronously.
//!
//! The executable state machine is pinned, step by step, to the specification
//! transition [`spec_step`], so the whole rendered output is a function of the
//! token stream, the resolved widths and the configuration alone.
use crate::token::{blank_text, cap_width, width_at, BreakKind, Config, GroupMode, Token,
    MAX_MARGIN};
use vstd::prelude::*;
use vstd::string::StrSliceExecFns;
use vstd::string::StringExecFns;

verus! {

/// One open group while printing: the indent lines broken inside it return
/// to, its breaking mode, and whether it broke.
#[derive(Clone, Copy, Debug)]
pub struct Frame {
    pub indent: usize,
    pub mode: GroupMode,
    pub broken: bool,
}

/// Specification image of a [`Frame`].
pub struct FrameV {
    pub indent: nat,
    pub mode: GroupMode,
    pub broken: bool,
}

impl View for Frame {
    type V = FrameV;

    open spec fn view(&self) -> FrameV {
        FrameV { indent: self.indent as nat, mode: self.mode, broken: self.broken }
    }
}

/// Specification image of the whole printer state.
pub struct PrintView {
    /// Text emitted so far.
    pub out: Seq<char>,
    /// Open-group stack, innermost last.
    pub frames: Seq<FrameV>,
    /// Width of the current line, counting queued blanks.
    pub col: nat,
    /// Blanks queued but not yet emitted; they are flushed before the next
    /// visible text and dropped at a newline, so no line carries trailing
    /// whitespace.
    pub pending: nat,
}

/// The indent that newly opened groups inherit.
pub open spec fn cur_indent(frames: Seq<FrameV>) -> nat {
    if frames.len() == 0 {
        0
    } else {
        frames.last().indent
    }
}

/// `n` spaces.
pub open spec fn spaces(n: nat) -> Seq<char> {
    Seq::new(n, |i: int| ' ')
}

/// An indent target clamped into `[0, max]`.
pub open spec fn clamp_indent(x: int, max: nat) -> nat {
    if x < 0 {
        0
    } else if x > max {
        max as nat
    } else {
        x as nat
    }
}

/// Emitting literal text: queued blanks are flushed first, and the column
/// advances by the text's length, saturating at the overflow sentinel.
/// Empty text leaves the state untouched.
pub open spec fn step_text(st: PrintView, text: Seq<char>, margin: nat) -> PrintView {
    if text.len() == 0 {
        st
    } else {
        PrintView {
            out: st.out + spaces(st.pending) + text,
            frames: st.frames,
            col: cap_width(st.col + text.len(), margin),
            pending: 0,
        }
    }
}

/// Whether a break prints as a newline: never in a group that fits; always in
/// a broken consistent group; in a broken inconsistent group exactly when the
/// segment up to the next break would overflow the line.
pub open spec fn break_taken(st: PrintView, w: nat, margin: nat) -> bool {
    &&& st.frames.len() > 0
    &&& st.frames.last().broken
    &&& (st.frames.last().mode == GroupMode::Consistent || st.col + w > margin)
}

/// The specification transition of the printer for one token, given the
/// token's resolved width `w`.
pub open spec fn spec_step(st: PrintView, t: Token, w: nat, cfg: Config) -> PrintView {
    let margin = cfg.margin as nat;
    match t {
        Token::Text(s) => step_text(st, s@, margin),
        Token::Deferred(b, u) => {
            let chosen = if st.frames.len() > 0 && st.frames.last().broken {
                b@
            } else {
                u@
            };
            step_text(st, chosen, margin)
        },
        Token::Begin(mode, off) => {
            let broken = st.col + w > margin;
            let base = cur_indent(st.frames);
            let ind = if broken {
                clamp_indent(base + off, cfg.spec_max_indent())
            } else {
                base
            };
            PrintView {
                out: st.out,
                frames: st.frames.push(FrameV { indent: ind, mode, broken }),
                col: st.col,
                pending: st.pending,
            }
        },
        Token::End => PrintView {
            out: st.out,
            frames: if st.frames.len() > 0 {
                st.frames.drop_last()
            } else {
                st.frames
            },
            col: st.col,
            pending: st.pending,
        },
        Token::Overflow => st,
        Token::Break(k, off) => {
            if break_taken(st, w, margin) {
                let ind = clamp_indent(st.frames.last().indent + off, cfg.spec_max_indent());
                PrintView {
                    out: st.out + seq!['\n'],
                    frames: st.frames,
                    col: ind,
                    pending: ind,
                }
            } else {
                let b = blank_text(k);
                PrintView {
                    out: st.out,
                    frames: st.frames,
                    col: cap_width(st.col + b, margin),
                    pending: cap_width(st.pending + b, margin),
                }
            }
        },
    }
}

/// The empty printer state.
pub open spec fn init_print() -> PrintView {
    PrintView { out: Seq::empty(), frames: Seq::empty(), col: 0, pending: 0 }
}

/// The printer state after the first `m` tokens of `s`, each fed with its
/// resolved width.
pub open spec fn print_prefix(s: Seq<Token>, m: int, cfg: Config) -> PrintView
    decreases m,
{
    if m <= 0 {
        init_print()
    } else {
        spec_step(print_prefix(s, m - 1, cfg), s[m - 1], width_at(s, m - 1, cfg.margin as nat), cfg)
    }
}

/// Everything a well-formed render produces: the text of the whole stream.
pub open spec fn spec_render(s: Seq<Token>, cfg: Config) -> Seq<char> {
    print_prefix(s, s.len() as int, cfg).out
}

/// The executable printer state.
pub struct Printer {
    out: String,
    frames: Vec<Frame>,
    col: usize,
    pending: usize,
}

impl View for Printer {
    type V = PrintView;

    closed spec fn view(&self) -> PrintView {
        PrintView {
            out: self.out@,
            frames: self.frames@.map_values(|f: Frame| f@),
            col: self.col as nat,
            pending: self.pending as nat,
        }
    }
}

impl Printer {
    /// Bounds that every reachable printer state satisfies.
    pub closed spec fn inv(self, cfg: Config) -> bool {
        &&& self.col <= cfg.margin + 1
        &&& self.pending <= cfg.margin + 1
        &&& forall|j: int|
            0 <= j < self.frames@.len() ==> #[trigger] self.frames@[j].indent
                <= cfg.spec_max_indent()
    }

    /// A fresh printer with nothing emitted.
    pub fn new() -> (r: Printer)
        ensures
            r@ == init_print(),
            forall|cfg: Config| r.inv(cfg),
    {
        let r = Printer { out: String::new(), frames: Vec::new(), col: 0, pending: 0 };
        proof {
            assert(r@.out =~= init_print().out);
            assert(r@.frames =~= init_print().frames);
        }
        r
    }

    /// Hands the finished text out, consuming the printer.
    pub fn into_output(self) -> (r: String)
        ensures
            r@ == self@.out,
    {
        self.out
    }

    /// Flushes the queued blanks, then appends `text`.
    fn push_text(&mut self, text: &str, cfg: &Config)
        requires
            cfg.wf(),
            old(self).inv(*cfg),
        ensures
            final(self).inv(*cfg),
            final(self)@ == step_text(old(self)@, text@, cfg.margin as nat),
    {
        let n = text.unicode_len();
        if n == 0 {
            return ;
        }
        let ghost start = self.out@;
        let mut j: usize = 0;
        while j < self.pending
            invariant
                j <= self.pending,
                self.out@ == start + spaces(j as nat),
                self.pending == old(self).pending,
                self.frames == old(self).frames,
                self.col == old(self).col,
            decreases self.pending - j,
        {
            self.out.append(" ");
            proof {
                reveal_strlit(" ");
                assert(start + spaces(j as nat) + " "@ =~= start + spaces((j + 1) as nat));
            }
            j = j + 1;
        }
        self.out.append(text);
        self.col = cap_add(self.col, n, cfg.margin);
        self.pending = 0;
    }

    /// Processes one token whose resolved width is `w`, exactly as the
    /// specification transition does.
    pub fn step(&mut self, t: &Token, w: usize, cfg: &Config)
        requires
            cfg.wf(),
            old(self).inv(*cfg),
            w <= cfg.margin + 1,
        ensures
            final(self).inv(*cfg),
            final(self)@ == spec_step(old(self)@, *t, w as nat, *cfg),
    {
        match t {
            Token::Text(s) => {
                self.push_text(s.as_str(), cfg);
            },
            Token::Deferred(b, u) => {
                let broken = if self.frames.len() > 0 {
                    self.frames[self.frames.len() - 1].broken
                } else {
                    false
                };
                if broken {
                    self.push_text(b.as_str(), cfg);
                } else {
                    self.push_text(u.as_str(), cfg);
                }
            },
            Token::Begin(mode, off) => {
                let broken = w > cfg.margin || self.col + w > cfg.margin;
                let base: usize = if self.frames.len() > 0 {
                    self.frames[self.frames.len() - 1].indent
                } else {
                    0
                };
                let ind: usize = if broken {
                    let target: u64 = base as u64 + *off as u64;
                    let max = cfg.max_indent();
                    if target > max as u64 {
                        max
                    } else {
                        target as usize
                    }
                } else {
                    base
                };
                self.frames.push(Frame { indent: ind, mode: *mode, broken });
                proof {
                    assert(self@.frames =~= old(self)@.frames.push(
                        FrameV { indent: ind as nat, mode: *mode, broken },
                    ));
                }
            },
            Token::Overflow => {},
            Token::End => {
                if self.frames.len() > 0 {
                    self.frames.pop();
                }
                proof {
                    if old(self)@.frames.len() > 0 {
                        assert(self@.frames =~= old(self)@.frames.drop_last());
                    }
                }
            },
            Token::Break(k, off) => {
                let taken = if self.frames.len() > 0 {
                    let top = self.frames[self.frames.len() - 1];
                    top.broken && (match top.mode {
                        GroupMode::Consistent => true,
                        GroupMode::Inconsistent => w > cfg.margin || self.col + w > cfg.margin,
                    })
                } else {
                    false
                };
                if taken {
                    let top_indent = self.frames[self.frames.len() - 1].indent;
                    let target: i64 = top_indent as i64 + *off as i64;
                    let max = cfg.max_indent();
                    let ind: usize = if target < 0 {
                        0
                    } else if target > max as i64 {
                        max
                    } else {
                        target as usize
                    };
                    self.out.append("\n");
                    proof {
                        reveal_strlit("\n");
                        assert(old(self)@.out + "\n"@ =~= old(self)@.out + seq!['\n']);
                    }
                    self.col = ind;
                    self.pending = ind;
                } else {
                    let b: usize = match k {
                        BreakKind::Space => 1,
                        BreakKind::Empty => 0,
                        BreakKind::Hard => 1,
                    };
                    self.col = cap_add(self.col, b, cfg.margin);
                    self.pending = cap_add(self.pending, b, cfg.margin);
                }
            },
        }
    }
}

/// `a + b` saturated at one past the margin, matching [`cap_width`].
pub fn cap_add(a: usize, b: usize, margin: usize) -> (r: usize)
    requires
        a <= margin + 1,
        margin <= MAX_MARGIN,
    ensures
        r == cap_width((a + b) as nat, margin as nat),
{
    if b > margin || a + b > margin {
        margin + 1
    } else {
        a + b
    }
}

} // verus!
