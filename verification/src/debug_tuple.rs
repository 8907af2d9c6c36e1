//! A helper designed to assist with creation of [`DebugPls`] implementations
//! for tuples: output in the shape `(a, b)`, with the trailing comma kept for
//! one-element tuples even on a single line.
use crate::formatter::{process, wrote, DebugPls, Formatter};
use crate::fragment::{appended_with_sep, Fragment, GroupBody};
use crate::token::{is_deferred_tok, is_text_tok, BreakKind, GroupMode, Token, DEFAULT_INDENT};
use vstd::prelude::*;

verus! {

/// The token stream a finished, non-empty tuple writes: one consistent group
/// holding `(`, a leading break, the accumulated fields, the deferred
/// trailing comma — kept inline for a one-element tuple — and the closing
/// break and parenthesis.
pub open spec fn tuple_tokens(body: Seq<Token>, single: bool, out: Seq<Token>) -> bool {
    let n = body.len() as int;
    &&& out.len() == body.len() + 7
    &&& out[0] == Token::Begin(GroupMode::Consistent, DEFAULT_INDENT as u32)
    &&& is_text_tok(out[1], "("@)
    &&& out[2] == Token::Break(BreakKind::Empty, 0)
    &&& out.subrange(3, 3 + n) == body
    &&& is_deferred_tok(
        out[3 + n],
        ","@,
        if single {
            ","@
        } else {
            ""@
        },
    )
    &&& out[4 + n] == Token::Break(BreakKind::Empty, -4i32)
    &&& is_text_tok(out[5 + n], ")"@)
    &&& out[6 + n] == Token::End
}

/// Builder for tuple-shaped debug output.
pub struct DebugTuple {
    formatter: Formatter,
    body: GroupBody,
    count: usize,
}

impl DebugTuple {
    /// The accumulated interior is a valid group body.
    pub closed spec fn wf(self) -> bool {
        self.body.wf()
    }

    /// The tokens of the fields accumulated so far.
    pub closed spec fn body_view(self) -> Seq<Token> {
        self.body@
    }

    /// How many fields were added.
    pub closed spec fn count_spec(self) -> int {
        self.count as int
    }

    pub(crate) fn new(formatter: Formatter) -> (r: DebugTuple)
        ensures
            r.wf(),
            r.body_view() == Seq::<Token>::empty(),
            r.count_spec() == 0,
    {
        DebugTuple { formatter, body: GroupBody::new(), count: 0 }
    }

    /// Adds the field to the tuple output.
    #[must_use]
    pub fn field<V: DebugPls>(self, value: &V) -> (r: DebugTuple)
        requires
            self.wf(),
        ensures
            r.wf(),
            self.count_spec() < usize::MAX ==> r.count_spec() == self.count_spec() + 1,
            exists|v: Seq<Token>|
                #[trigger] wrote(*value, v) && appended_with_sep(
                    self.body_view(),
                    self.count_spec() > 0,
                    ","@,
                    Token::Break(BreakKind::Space, 0),
                    v,
                    r.body_view(),
                ),
    {
        let frag = process(value);
        let ghost v = frag@;
        let r = self.field_fragment(frag);
        proof {
            assert(wrote(*value, v) && appended_with_sep(
                self.body_view(),
                self.count_spec() > 0,
                ","@,
                Token::Break(BreakKind::Space, 0),
                v,
                r.body_view(),
            ));
        }
        r
    }

    /// Adds a field whose fragment is already rendered.
    #[must_use]
    pub fn field_fragment(self, value: Fragment) -> (r: DebugTuple)
        requires
            self.wf(),
            value.wf(),
        ensures
            r.wf(),
            self.count_spec() < usize::MAX ==> r.count_spec() == self.count_spec() + 1,
            appended_with_sep(
                self.body_view(),
                self.count_spec() > 0,
                ","@,
                Token::Break(BreakKind::Space, 0),
                value@,
                r.body_view(),
            ),
    {
        let ghost pre = self.body@;
        let ghost had = self.count > 0;
        let mut b = self.body;
        if self.count > 0 {
            b.push_text(",");
            b.push_break(BreakKind::Space, 0);
        }
        b.push_fragment(value);
        proof {
            let n = pre.len() as int;
            let sep: int = if had {
                2
            } else {
                0
            };
            assert(b@.subrange(0, n) =~= pre);
            assert(b@.subrange(n + sep, b@.len() as int) =~= value@);
        }
        let c = if self.count < usize::MAX {
            self.count + 1
        } else {
            self.count
        };
        DebugTuple { formatter: self.formatter, body: b, count: c }
    }

    /// Closes off the tuple: a bare `()` when no field was added, else the
    /// [`tuple_tokens`] group around the accumulated fields.
    pub fn finish(self) -> (r: Formatter)
        requires
            self.wf(),
        ensures
            r.wf(),
            self.count_spec() == 0 ==> r.output().len() == 1 && is_text_tok(
                r.output()[0],
                "()"@,
            ),
            self.count_spec() > 0 ==> tuple_tokens(
                self.body_view(),
                self.count_spec() == 1,
                r.output(),
            ),
    {
        let ghost bdy = self.body@;
        let ghost single = self.count == 1;
        if self.count == 0 {
            self.formatter.write_expr(Fragment::text("()"))
        } else {
            let mut inner = GroupBody::new();
            inner.push_text("(");
            inner.push_break(BreakKind::Empty, 0);
            let ghost lead = inner@;
            inner.push_body(self.body);
            if self.count == 1 {
                inner.push_deferred(",", ",");
            } else {
                inner.push_deferred(",", "");
            }
            inner.push_break(BreakKind::Empty, -4);
            inner.push_text(")");
            let ghost innerf = inner@;
            let r = self.formatter.write_expr(
                Fragment::group(GroupMode::Consistent, DEFAULT_INDENT as u32, inner),
            );
            proof {
                let n = bdy.len() as int;
                let out = r.output();
                let inb = out.subrange(1, out.len() - 1);
                assert(inb == innerf);
                assert forall|q: int| 0 <= q < n implies out[3 + q] == bdy[q] by {
                    assert(inb[2 + q] == out[3 + q]);
                    assert((lead + bdy)[2 + q] == bdy[q]);
                }
                assert(out.subrange(3, 3 + n) =~= bdy);
                assert(inb[0] == out[1]);
                assert(inb[1] == out[2]);
                assert(inb[2 + n] == out[3 + n]);
                assert(inb[3 + n] == out[4 + n]);
                assert(inb[4 + n] == out[5 + n]);
                assert(tuple_tokens(bdy, single, out));
            }
            r
        }
    }
}

} // verus!
