//! The engine's guarantees, stated as theorems over the specification-level
//! printer transition.  Together with the contract of [`crate::render::render`]
//! — which pins the rendered text to [`crate::printer::spec_render`] — these
//! are what the library promises about layout decisions.
use crate::printer::{break_taken, print_prefix, spec_render, spec_step, step_text, PrintView};
use crate::token::{Config, GroupMode, Token};
use vstd::prelude::*;

verus! {

/// Rendering is a function of the token stream and the configuration alone:
/// two renders of the same stream under the same configuration yield
/// byte-identical output.  This follows from the contract of `render`, whose
/// result is pinned to `spec_render`.
pub proof fn lemma_render_deterministic(
    out1: Seq<char>,
    out2: Seq<char>,
    s: Seq<Token>,
    cfg: Config,
)
    requires
        out1 == spec_render(s, cfg),
        out2 == spec_render(s, cfg),
    ensures
        out1 == out2,
{
}

/// All or nothing: a break printed while the innermost group is broken and
/// consistent always renders as a newline — one newline exactly, whatever the
/// break's own width says.  No mix of broken and unbroken breaks can occur in
/// such a group.
pub proof fn lemma_consistent_group_all_breaks(
    st: PrintView,
    k: crate::token::BreakKind,
    off: i32,
    w: nat,
    cfg: Config,
)
    requires
        st.frames.len() > 0,
        st.frames.last().broken,
        st.frames.last().mode == GroupMode::Consistent,
    ensures
        spec_step(st, Token::Break(k, off), w, cfg).out == st.out + seq!['\n'],
        spec_step(st, Token::Break(k, off), w, cfg).frames == st.frames,
{
}

/// Greediness: a break printed while the innermost group is broken and
/// inconsistent renders as a newline exactly when the segment up to the next
/// break — measured by the break's resolved width `w` — would overflow the
/// margin from the current column; otherwise the line is packed further and
/// no newline is emitted.
pub proof fn lemma_inconsistent_group_greedy(
    st: PrintView,
    k: crate::token::BreakKind,
    off: i32,
    w: nat,
    cfg: Config,
)
    requires
        st.frames.len() > 0,
        st.frames.last().broken,
        st.frames.last().mode == GroupMode::Inconsistent,
    ensures
        st.col + w > cfg.margin ==> spec_step(st, Token::Break(k, off), w, cfg).out == st.out
            + seq!['\n'],
        st.col + w <= cfg.margin ==> spec_step(st, Token::Break(k, off), w, cfg).out == st.out,
{
}

/// A group that fits stays on its line: while the innermost group is not
/// broken, no break inside it emits a newline.
pub proof fn lemma_unbroken_group_keeps_line(
    st: PrintView,
    k: crate::token::BreakKind,
    off: i32,
    w: nat,
    cfg: Config,
)
    requires
        st.frames.len() > 0,
        !st.frames.last().broken,
    ensures
        !break_taken(st, w, cfg.margin as nat),
        spec_step(st, Token::Break(k, off), w, cfg).out == st.out,
{
}

/// Deferred punctuation resolves with its owning group, exactly once, at the
/// moment the token is printed: the text chosen is the broken candidate
/// exactly when the innermost group's break status — fixed once and for all
/// when the group opened — says broken, and the unbroken candidate otherwise.
pub proof fn lemma_deferred_matches_break_status(
    st: PrintView,
    if_broken: String,
    if_unbroken: String,
    w: nat,
    cfg: Config,
)
    requires
        st.frames.len() > 0,
    ensures
        spec_step(st, Token::Deferred(if_broken, if_unbroken), w, cfg) == step_text(
            st,
            if st.frames.last().broken {
                if_broken@
            } else {
                if_unbroken@
            },
            cfg.margin as nat,
        ),
{
}

/// The all-or-nothing law over a whole render: at any point of the stream
/// where a break is printed while the innermost group's frame is broken and
/// consistent, the rendered text grows by exactly one newline.
pub proof fn lemma_render_consistent_break(s: Seq<Token>, cfg: Config, m: int)
    requires
        0 <= m < s.len(),
        s[m] is Break,
        print_prefix(s, m, cfg).frames.len() > 0,
        print_prefix(s, m, cfg).frames.last().broken,
        print_prefix(s, m, cfg).frames.last().mode == GroupMode::Consistent,
    ensures
        print_prefix(s, m + 1, cfg).out == print_prefix(s, m, cfg).out + seq!['\n'],
{
    let st = print_prefix(s, m, cfg);
    match s[m] {
        Token::Break(k, off) => {
            lemma_consistent_group_all_breaks(
                st,
                k,
                off,
                crate::token::width_at(s, m, cfg.margin as nat),
                cfg,
            );
        },
        _ => {},
    }
}

/// The greediness law over a whole render: a break printed while the
/// innermost group's frame is broken and inconsistent emits a newline
/// exactly when its resolved segment would overflow the margin from the
/// current column.
pub proof fn lemma_render_inconsistent_break(s: Seq<Token>, cfg: Config, m: int)
    requires
        0 <= m < s.len(),
        s[m] is Break,
        print_prefix(s, m, cfg).frames.len() > 0,
        print_prefix(s, m, cfg).frames.last().broken,
        print_prefix(s, m, cfg).frames.last().mode == GroupMode::Inconsistent,
    ensures
        ({
            let st = print_prefix(s, m, cfg);
            let w = crate::token::width_at(s, m, cfg.margin as nat);
            if st.col + w > cfg.margin {
                print_prefix(s, m + 1, cfg).out == st.out + seq!['\n']
            } else {
                print_prefix(s, m + 1, cfg).out == st.out
            }
        }),
{
}

/// The deferred-resolution law over a whole render: each deferred token is
/// resolved at the single step that prints it, and the text chosen is
/// exactly the candidate matching the innermost group's break status at that
/// moment — a status fixed once, when the group opened.
pub proof fn lemma_render_deferred(s: Seq<Token>, cfg: Config, m: int)
    requires
        0 <= m < s.len(),
        s[m] is Deferred,
        print_prefix(s, m, cfg).frames.len() > 0,
    ensures
        print_prefix(s, m + 1, cfg) == step_text(
            print_prefix(s, m, cfg),
            if print_prefix(s, m, cfg).frames.last().broken {
                s[m]->Deferred_0@
            } else {
                s[m]->Deferred_1@
            },
            cfg.margin as nat,
        ),
{
}

} // verus!
