//! The driving loop: one pass over the token stream that advances the scanner
//! and the printer as two cooperating state machines.  Each token enters the
//! scanner's ring buffer; as soon as buffered tokens have resolved widths they
//! retire, in order, into the printer.  The rendered text of a well-formed
//! stream is pinned to [`spec_render`], a function of the stream and the
//! configuration alone.
use crate::printer::{print_prefix, spec_render, spec_step, Printer};
use crate::scanner::Scanner;
use crate::token::{stream_wf, wf_from, width_at, Config, StructuralError, Token};
use vstd::prelude::*;

verus! {

/// Checks the producer contract: groups nest properly and all close, and
/// breaks and deferred punctuation stand inside a group.
pub fn validate(tokens: &Vec<Token>) -> (r: bool)
    ensures
        r == stream_wf(tokens@),
{
    let ghost s = tokens@;
    let n = tokens.len();
    let mut depth: usize = 0;
    let mut i: usize = 0;
    while i < n
        invariant
            n == s.len(),
            s == tokens@,
            i <= n,
            depth <= i,
            stream_wf(s) == wf_from(s, i as int, depth as nat),
        decreases n - i,
    {
        match &tokens[i] {
            Token::Begin(_, _) => {
                depth = depth + 1;
            },
            Token::End => {
                if depth == 0 {
                    return false;
                }
                depth = depth - 1;
            },
            Token::Break(_, _) => {
                if depth == 0 {
                    return false;
                }
            },
            Token::Deferred(_, _) => {
                if depth == 0 {
                    return false;
                }
            },
            Token::Text(_) => {},
            Token::Overflow => {},
        }
        i = i + 1;
    }
    depth == 0
}

/// Renders a token stream against a configuration.  A well-formed stream
/// always renders, to exactly the text [`spec_render`] describes; a stream
/// with unbalanced groups, or with a break or deferred token outside every
/// group, is rejected whole, with no partial output.
pub fn render(tokens: &Vec<Token>, cfg: &Config) -> (r: Result<String, StructuralError>)
    requires
        cfg.wf(),
    ensures
        match r {
            Ok(out) => stream_wf(tokens@) && out@ == spec_render(tokens@, *cfg),
            Err(_) => !stream_wf(tokens@),
        },
{
    if !validate(tokens) {
        return Err(StructuralError);
    }
    let ghost s = tokens@;
    let mut sc = Scanner::new(Ghost(s), cfg);
    let mut pr = Printer::new();
    let n = tokens.len();
    let mut i: usize = 0;
    while i < n
        invariant
            n == s.len(),
            s == tokens@,
            cfg.wf(),
            stream_wf(s),
            i <= n,
            sc.inv(s, i as int, *cfg),
            0 <= sc.head() <= i,
            sc.buffered() == 0 || sc.front_pending(),
            pr.inv(*cfg),
            pr@ == print_prefix(s, sc.head(), *cfg),
        decreases n - i,
    {
        sc.scan(tokens, i, cfg);
        drain(&mut sc, &mut pr, tokens, Ghost(i + 1), cfg);
        i = i + 1;
    }
    proof {
        sc.lemma_complete(s, *cfg);
        sc.lemma_cursors(s, n as int, *cfg);
        assert(sc.buffered() == 0);
        assert(sc.head() == n);
    }
    Ok(pr.into_output())
}

/// Retires every resolved token at the buffer's head into the printer.
fn drain(
    sc: &mut Scanner,
    pr: &mut Printer,
    tokens: &Vec<Token>,
    Ghost(i): Ghost<int>,
    cfg: &Config,
)
    requires
        cfg.wf(),
        old(sc).inv(tokens@, i, *cfg),
        0 <= old(sc).head(),
        i <= tokens@.len(),
        old(pr).inv(*cfg),
        old(pr)@ == print_prefix(tokens@, old(sc).head(), *cfg),
    ensures
        final(sc).inv(tokens@, i, *cfg),
        0 <= final(sc).head() <= i,
        final(pr).inv(*cfg),
        final(pr)@ == print_prefix(tokens@, final(sc).head(), *cfg),
        final(sc).buffered() == 0 || final(sc).front_pending(),
{
    let ghost s = tokens@;
    proof {
        sc.lemma_cursors(s, i, *cfg);
    }
    loop
        invariant
            cfg.wf(),
            s == tokens@,
            i <= s.len(),
            sc.inv(s, i, *cfg),
            sc.head() + sc.buffered() == i,
            0 <= sc.head(),
            0 <= sc.buffered(),
            pr.inv(*cfg),
            pr@ == print_prefix(s, sc.head(), *cfg),
        ensures
            sc.inv(s, i, *cfg),
            0 <= sc.head() <= i,
            pr.inv(*cfg),
            pr@ == print_prefix(s, sc.head(), *cfg),
            sc.buffered() == 0 || sc.front_pending(),
        decreases sc.buffered(),
    {
        proof {
            sc.lemma_cursors(s, i, *cfg);
        }
        let h = sc.head_exec();
        match sc.take_front(Ghost(s), Ghost(i), cfg) {
            Some(w) => {
                proof {
                    assert(print_prefix(s, h + 1, *cfg) == spec_step(
                        print_prefix(s, h as int, *cfg),
                        s[h as int],
                        width_at(s, h as int, cfg.margin as nat),
                        *cfg,
                    ));
                }
                pr.step(&tokens[h], w, cfg);
            },
            None => {
                break ;
            },
        }
    }
}

} // verus!
