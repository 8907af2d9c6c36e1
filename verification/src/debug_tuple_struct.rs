//! A helper designed to assist with creation of [`DebugPls`] implementations
//! for tuple structs: output in the shape `Name(a, b)`, one line when it fits
//! and one field per line otherwise.
use crate::formatter::{process, wrote, DebugPls, Formatter};
use crate::fragment::{appended_with_sep, Fragment, GroupBody};
use crate::token::{is_deferred_tok, is_text_tok, BreakKind, GroupMode, Token, DEFAULT_INDENT};
use vstd::prelude::*;
use vstd::string::StringExecFns;

verus! {

/// The token stream a finished, non-empty tuple struct writes: one
/// consistent group holding `Name(`, a leading break, the accumulated
/// fields, the deferred trailing comma, and the closing break and
/// parenthesis.
pub open spec fn tuple_struct_tokens(name: Seq<char>, body: Seq<Token>, out: Seq<Token>) -> bool {
    let n = body.len() as int;
    &&& out.len() == body.len() + 7
    &&& out[0] == Token::Begin(GroupMode::Consistent, DEFAULT_INDENT as u32)
    &&& is_text_tok(out[1], name + "("@)
    &&& out[2] == Token::Break(BreakKind::Empty, 0)
    &&& out.subrange(3, 3 + n) == body
    &&& is_deferred_tok(out[3 + n], ","@, ""@)
    &&& out[4 + n] == Token::Break(BreakKind::Empty, -4i32)
    &&& is_text_tok(out[5 + n], ")"@)
    &&& out[6 + n] == Token::End
}

/// Builder for tuple-struct-shaped debug output.
pub struct DebugTupleStruct {
    formatter: Formatter,
    name: String,
    body: GroupBody,
    has_fields: bool,
}

impl DebugTupleStruct {
    /// The accumulated interior is a valid group body.
    pub closed spec fn wf(self) -> bool {
        self.body.wf()
    }

    /// The tokens of the fields accumulated so far.
    pub closed spec fn body_view(self) -> Seq<Token> {
        self.body@
    }

    /// The tuple struct's name.
    pub closed spec fn name_view(self) -> Seq<char> {
        self.name@
    }

    /// At least one field was added.
    pub closed spec fn has_fields_spec(self) -> bool {
        self.has_fields
    }

    pub(crate) fn new(formatter: Formatter, name: &str) -> (r: DebugTupleStruct)
        ensures
            r.wf(),
            r.name_view() == name@,
            r.body_view() == Seq::<Token>::empty(),
            !r.has_fields_spec(),
    {
        DebugTupleStruct {
            formatter,
            name: String::from_str(name),
            body: GroupBody::new(),
            has_fields: false,
        }
    }

    /// Adds the field to the tuple struct output.
    #[must_use]
    pub fn field<V: DebugPls>(self, value: &V) -> (r: DebugTupleStruct)
        requires
            self.wf(),
        ensures
            r.wf(),
            r.has_fields_spec(),
            r.name_view() == self.name_view(),
            exists|v: Seq<Token>|
                #[trigger] wrote(*value, v) && appended_with_sep(
                    self.body_view(),
                    self.has_fields_spec(),
                    ","@,
                    Token::Break(BreakKind::Space, 0),
                    v,
                    r.body_view(),
                ),
    {
        let frag = process(value);
        let ghost v = frag@;
        let r = self.field_fragment(frag);
        proof {
            assert(wrote(*value, v) && appended_with_sep(
                self.body_view(),
                self.has_fields_spec(),
                ","@,
                Token::Break(BreakKind::Space, 0),
                v,
                r.body_view(),
            ));
        }
        r
    }

    /// Adds a field whose fragment is already rendered.
    #[must_use]
    pub fn field_fragment(self, value: Fragment) -> (r: DebugTupleStruct)
        requires
            self.wf(),
            value.wf(),
        ensures
            r.wf(),
            r.has_fields_spec(),
            r.name_view() == self.name_view(),
            appended_with_sep(
                self.body_view(),
                self.has_fields_spec(),
                ","@,
                Token::Break(BreakKind::Space, 0),
                value@,
                r.body_view(),
            ),
    {
        let ghost pre = self.body@;
        let ghost had = self.has_fields;
        let mut b = self.body;
        if self.has_fields {
            b.push_text(",");
            b.push_break(BreakKind::Space, 0);
        }
        b.push_fragment(value);
        proof {
            let n = pre.len() as int;
            let sep: int = if had {
                2
            } else {
                0
            };
            assert(b@.subrange(0, n) =~= pre);
            assert(b@.subrange(n + sep, b@.len() as int) =~= value@);
        }
        DebugTupleStruct { formatter: self.formatter, name: self.name, body: b, has_fields: true }
    }

    /// Closes off the tuple struct: name-and-parens text when no field was
    /// added, else the [`tuple_struct_tokens`] group around the accumulated
    /// fields.
    pub fn finish(self) -> (r: Formatter)
        requires
            self.wf(),
        ensures
            r.wf(),
            !self.has_fields_spec() ==> r.output().len() == 1 && is_text_tok(
                r.output()[0],
                self.name_view() + "()"@,
            ),
            self.has_fields_spec() ==> tuple_struct_tokens(
                self.name_view(),
                self.body_view(),
                r.output(),
            ),
    {
        let ghost nm = self.name@;
        let ghost bdy = self.body@;
        if !self.has_fields {
            let mut t = self.name;
            t.append("()");
            self.formatter.write_expr(Fragment::text_owned(t))
        } else {
            let mut inner = GroupBody::new();
            let mut header = self.name;
            header.append("(");
            inner.push_text_owned(header);
            inner.push_break(BreakKind::Empty, 0);
            let ghost lead = inner@;
            inner.push_body(self.body);
            inner.push_deferred(",", "");
            inner.push_break(BreakKind::Empty, -4);
            inner.push_text(")");
            let ghost innerf = inner@;
            let r = self.formatter.write_expr(
                Fragment::group(GroupMode::Consistent, DEFAULT_INDENT as u32, inner),
            );
            proof {
                let n = bdy.len() as int;
                let out = r.output();
                let inb = out.subrange(1, out.len() - 1);
                assert(inb == innerf);
                assert forall|q: int| 0 <= q < n implies out[3 + q] == bdy[q] by {
                    assert(inb[2 + q] == out[3 + q]);
                    assert((lead + bdy)[2 + q] == bdy[q]);
                }
                assert(out.subrange(3, 3 + n) =~= bdy);
                assert(inb[0] == out[1]);
                assert(inb[1] == out[2]);
                assert(inb[2 + n] == out[3 + n]);
                assert(inb[3 + n] == out[4 + n]);
                assert(inb[4 + n] == out[5 + n]);
                assert(tuple_struct_tokens(nm, bdy, out));
            }
            r
        }
    }
}

} // verus!
