//! A helper designed to assist with creation of [`DebugPls`] implementations
//! for structs: output in the shape `Name { field: value, .. }`, one line
//! when it fits within the margin and one field per line otherwise, with the
//! trailing comma appearing exactly when the struct breaks.
use crate::formatter::{process, process_with, wrote, wrote_with, DebugPls, DebugWith, Formatter};
use crate::fragment::{measure_sum, Fragment, GroupBody};
use crate::token::{is_deferred_tok, is_text_tok, BreakKind, GroupMode, Token, DEFAULT_INDENT};
use vstd::prelude::*;
use vstd::string::StringExecFns;

verus! {

/// A struct wider than this many columns breaks onto several lines even
/// where the margin would still have room: short struct literals read well
/// inline, long ones do not.
pub const STRUCT_WIDTH_LIMIT: usize = 34;

/// `post` is `pre` plus one labelled field: a comma-and-space separator when
/// `had`, the field label, then the value fragment `v`.
pub open spec fn field_appended(
    pre: Seq<Token>,
    had: bool,
    label: Seq<char>,
    v: Seq<Token>,
    post: Seq<Token>,
) -> bool {
    let n = pre.len() as int;
    let sep: int = if had {
        2
    } else {
        0
    };
    &&& post.len() == pre.len() + sep + 1 + v.len()
    &&& post.subrange(0, n) == pre
    &&& (had ==> is_text_tok(post[n], ","@) && post[n + 1] == Token::Break(BreakKind::Space, 0))
    &&& is_text_tok(post[n + sep], label)
    &&& post.subrange(n + sep + 1, post.len() as int) == v
}

/// The accumulated struct is too wide to stay on one line, measured over the
/// header, the separators and the field contents (everything but the closing
/// brace).
pub open spec fn struct_wraps(name: Seq<char>, body: Seq<Token>) -> bool {
    name.len() + 4 + measure_sum(body, 0, body.len() as int, (STRUCT_WIDTH_LIMIT + 1) as nat)
        > STRUCT_WIDTH_LIMIT
}

/// The same measurement for the non-exhaustive shape, whose interior also
/// carries `, .. `.
pub open spec fn struct_wraps_non_exhaustive(name: Seq<char>, body: Seq<Token>) -> bool {
    name.len() + 8 + measure_sum(body, 0, body.len() as int, (STRUCT_WIDTH_LIMIT + 1) as nat)
        > STRUCT_WIDTH_LIMIT
}

/// The token stream a finished struct writes: one consistent group holding
/// `Name {`, a leading break, the accumulated fields, the deferred trailing
/// comma, the closing break and brace — with the overflow marker exactly
/// when the struct is too wide to stay inline.
pub open spec fn struct_tokens(
    name: Seq<char>,
    body: Seq<Token>,
    wraps: bool,
    out: Seq<Token>,
) -> bool {
    let n = body.len() as int;
    let ov: int = if wraps {
        1
    } else {
        0
    };
    &&& out.len() == body.len() + 7 + ov
    &&& out[0] == Token::Begin(GroupMode::Consistent, DEFAULT_INDENT as u32)
    &&& is_text_tok(out[1], name + " {"@)
    &&& out[2] == Token::Break(BreakKind::Space, 0)
    &&& out.subrange(3, 3 + n) == body
    &&& is_deferred_tok(out[3 + n], ","@, ""@)
    &&& out[4 + n] == Token::Break(BreakKind::Space, -4i32)
    &&& (wraps ==> out[5 + n] == Token::Overflow)
    &&& is_text_tok(out[5 + n + ov], "}"@)
    &&& out[6 + n + ov] == Token::End
}

/// The token stream of the non-exhaustive shape: the fields are followed by
/// a comma, a break, and `..` before the close.
pub open spec fn struct_tokens_non_exhaustive(
    name: Seq<char>,
    body: Seq<Token>,
    wraps: bool,
    out: Seq<Token>,
) -> bool {
    let n = body.len() as int;
    let ov: int = if wraps {
        1
    } else {
        0
    };
    &&& out.len() == body.len() + 9 + ov
    &&& out[0] == Token::Begin(GroupMode::Consistent, DEFAULT_INDENT as u32)
    &&& is_text_tok(out[1], name + " {"@)
    &&& out[2] == Token::Break(BreakKind::Space, 0)
    &&& out.subrange(3, 3 + n) == body
    &&& is_text_tok(out[3 + n], ","@)
    &&& out[4 + n] == Token::Break(BreakKind::Space, 0)
    &&& is_text_tok(out[5 + n], ".."@)
    &&& out[6 + n] == Token::Break(BreakKind::Space, -4i32)
    &&& (wraps ==> out[7 + n] == Token::Overflow)
    &&& is_text_tok(out[7 + n + ov], "}"@)
    &&& out[8 + n + ov] == Token::End
}

/// Builder for struct-shaped debug output.
pub struct DebugStruct {
    formatter: Formatter,
    name: String,
    body: GroupBody,
    has_fields: bool,
}

impl DebugStruct {
    /// The accumulated interior is a valid group body.
    pub closed spec fn wf(self) -> bool {
        self.body.wf()
    }

    /// The tokens of the fields accumulated so far.
    pub closed spec fn body_view(self) -> Seq<Token> {
        self.body@
    }

    /// The struct's name.
    pub closed spec fn name_view(self) -> Seq<char> {
        self.name@
    }

    /// At least one field was added.
    pub closed spec fn has_fields_spec(self) -> bool {
        self.has_fields
    }

    pub(crate) fn new(formatter: Formatter, name: &str) -> (r: DebugStruct)
        ensures
            r.wf(),
            r.name_view() == name@,
            r.body_view() == Seq::<Token>::empty(),
            !r.has_fields_spec(),
    {
        DebugStruct {
            formatter,
            name: String::from_str(name),
            body: GroupBody::new(),
            has_fields: false,
        }
    }

    /// Adds the field to the struct output: the label and whatever the
    /// value's [`DebugPls`] implementation writes.
    #[must_use]
    pub fn field<V: DebugPls>(self, name: &str, value: &V) -> (r: DebugStruct)
        requires
            self.wf(),
        ensures
            r.wf(),
            r.has_fields_spec(),
            r.name_view() == self.name_view(),
            exists|v: Seq<Token>|
                #[trigger] wrote(*value, v) && field_appended(
                    self.body_view(),
                    self.has_fields_spec(),
                    name@ + ": "@,
                    v,
                    r.body_view(),
                ),
    {
        let frag = process(value);
        let ghost v = frag@;
        let r = self.field_fragment(name, frag);
        proof {
            assert(wrote(*value, v) && field_appended(
                self.body_view(),
                self.has_fields_spec(),
                name@ + ": "@,
                v,
                r.body_view(),
            ));
        }
        r
    }

    /// Adds the field, formatted against a context value.
    #[must_use]
    pub fn field_with<W, V: DebugWith<W>>(self, name: &str, value: &V, with: &W) -> (r:
        DebugStruct)
        requires
            self.wf(),
        ensures
            r.wf(),
            r.has_fields_spec(),
            r.name_view() == self.name_view(),
            exists|v: Seq<Token>|
                #[trigger] wrote_with(*value, *with, v) && field_appended(
                    self.body_view(),
                    self.has_fields_spec(),
                    name@ + ": "@,
                    v,
                    r.body_view(),
                ),
    {
        let frag = process_with(value, with);
        let ghost v = frag@;
        let r = self.field_fragment(name, frag);
        proof {
            assert(wrote_with(*value, *with, v) && field_appended(
                self.body_view(),
                self.has_fields_spec(),
                name@ + ": "@,
                v,
                r.body_view(),
            ));
        }
        r
    }

    /// Adds a field whose value fragment is already rendered.
    #[must_use]
    pub fn field_fragment(self, name: &str, value: Fragment) -> (r: DebugStruct)
        requires
            self.wf(),
            value.wf(),
        ensures
            r.wf(),
            r.has_fields_spec(),
            r.name_view() == self.name_view(),
            field_appended(
                self.body_view(),
                self.has_fields_spec(),
                name@ + ": "@,
                value@,
                r.body_view(),
            ),
    {
        let ghost pre = self.body@;
        let ghost had = self.has_fields;
        let mut b = self.body;
        if self.has_fields {
            b.push_text(",");
            b.push_break(BreakKind::Space, 0);
        }
        let ghost b2 = b@;
        let mut label = String::from_str(name);
        label.append(": ");
        b.push_text_owned(label);
        let ghost b3 = b@;
        b.push_fragment(value);
        proof {
            let n = pre.len() as int;
            let sep: int = if had {
                2
            } else {
                0
            };
            assert(b@.subrange(0, n) =~= pre);
            assert(b@.subrange(n + sep + 1, b@.len() as int) =~= value@);
            assert(is_text_tok(b@[n + sep], name@ + ": "@));
        }
        DebugStruct { formatter: self.formatter, name: self.name, body: b, has_fields: true }
    }

    /// Closes off the struct: a name-and-braces text when no field was
    /// added, else the [`struct_tokens`] group around the accumulated
    /// fields, wrapped exactly when too wide for one line.
    pub fn finish(self) -> (r: Formatter)
        requires
            self.wf(),
        ensures
            r.wf(),
            !self.has_fields_spec() ==> r.output().len() == 1 && is_text_tok(
                r.output()[0],
                self.name_view() + " {}"@,
            ),
            self.has_fields_spec() ==> struct_tokens(
                self.name_view(),
                self.body_view(),
                struct_wraps(self.name_view(), self.body_view()),
                r.output(),
            ),
    {
        let ghost nm = self.name@;
        let ghost bdy = self.body@;
        if !self.has_fields {
            let mut t = self.name;
            t.append(" {}");
            self.formatter.write_expr(Fragment::text_owned(t))
        } else {
            let ghost cap = (STRUCT_WIDTH_LIMIT + 1) as nat;
            let mut inner = GroupBody::new();
            let mut header = self.name;
            header.append(" {");
            inner.push_text_owned(header);
            inner.push_break(BreakKind::Space, 0);
            let ghost lead = inner@;
            inner.push_body(self.body);
            inner.push_deferred(",", "");
            inner.push_break(BreakKind::Space, -4);
            let ghost measured = inner@;
            let ghost tail = measured.subrange(
                lead.len() + bdy.len() as int,
                measured.len() as int,
            );
            let wide = inner.unbroken_width(STRUCT_WIDTH_LIMIT + 1) > STRUCT_WIDTH_LIMIT;
            proof {
                reveal_strlit(" {");
                reveal_strlit("");
                assert(measured =~= lead + (bdy + tail));
                crate::fragment::lemma_measure_concat(lead, bdy + tail, cap);
                crate::fragment::lemma_measure_concat(bdy, tail, cap);
                assert(measure_sum(lead, 2, 2, cap) == 0);
                assert(measure_sum(lead, 1, 2, cap) == 1);
                assert(measure_sum(lead, 0, 2, cap) == nm.len() + 3);
                assert(measure_sum(tail, 2, 2, cap) == 0);
                assert(measure_sum(tail, 1, 2, cap) == 1);
                assert(measure_sum(tail, 0, 2, cap) == 1);
                assert(wide == struct_wraps(nm, bdy));
            }
            if wide {
                inner.push_overflow();
            }
            inner.push_text("}");
            let ghost innerf = inner@;
            let r = self.formatter.write_expr(
                Fragment::group(GroupMode::Consistent, DEFAULT_INDENT as u32, inner),
            );
            proof {
                let n = bdy.len() as int;
                let out = r.output();
                let inb = out.subrange(1, out.len() - 1);
                assert(inb == innerf);
                assert forall|q: int| 0 <= q < n implies out[3 + q] == bdy[q] by {
                    assert(inb[2 + q] == out[3 + q]);
                    assert(measured[2 + q] == (lead + (bdy + tail))[2 + q]);
                    assert((bdy + tail)[q] == bdy[q]);
                }
                assert(out.subrange(3, 3 + n) =~= bdy);
                assert(inb[0] == out[1]);
                assert(inb[1] == out[2]);
                assert(inb[2 + n] == out[3 + n]);
                assert(inb[3 + n] == out[4 + n]);
                assert(inb[4 + n] == out[5 + n]);
                assert(measured[2 + n] == (lead + (bdy + tail))[2 + n]);
                assert((bdy + tail)[n] == tail[0]);
                assert(measured[3 + n] == (lead + (bdy + tail))[3 + n]);
                assert((bdy + tail)[n + 1] == tail[1]);
                if wide {
                    assert(inb[5 + n] == out[6 + n]);
                }
                assert(struct_tokens(nm, bdy, struct_wraps(nm, bdy), out));
            }
            r
        }
    }

    /// Closes off the struct with `..`, marking fields left unlisted.
    pub fn finish_non_exhaustive(self) -> (r: Formatter)
        requires
            self.wf(),
        ensures
            r.wf(),
            !self.has_fields_spec() ==> r.output().len() == 1 && is_text_tok(
                r.output()[0],
                self.name_view() + " { .. }"@,
            ),
            self.has_fields_spec() ==> struct_tokens_non_exhaustive(
                self.name_view(),
                self.body_view(),
                struct_wraps_non_exhaustive(self.name_view(), self.body_view()),
                r.output(),
            ),
    {
        let ghost nm = self.name@;
        let ghost bdy = self.body@;
        if !self.has_fields {
            let mut t = self.name;
            t.append(" { .. }");
            self.formatter.write_expr(Fragment::text_owned(t))
        } else {
            let ghost cap = (STRUCT_WIDTH_LIMIT + 1) as nat;
            let mut inner = GroupBody::new();
            let mut header = self.name;
            header.append(" {");
            inner.push_text_owned(header);
            inner.push_break(BreakKind::Space, 0);
            let ghost lead = inner@;
            inner.push_body(self.body);
            inner.push_text(",");
            inner.push_break(BreakKind::Space, 0);
            inner.push_text("..");
            inner.push_break(BreakKind::Space, -4);
            let ghost measured = inner@;
            let ghost tail = measured.subrange(
                lead.len() + bdy.len() as int,
                measured.len() as int,
            );
            let wide = inner.unbroken_width(STRUCT_WIDTH_LIMIT + 1) > STRUCT_WIDTH_LIMIT;
            proof {
                reveal_strlit(" {");
                reveal_strlit(",");
                reveal_strlit("..");
                assert(measured =~= lead + (bdy + tail));
                crate::fragment::lemma_measure_concat(lead, bdy + tail, cap);
                crate::fragment::lemma_measure_concat(bdy, tail, cap);
                assert(measure_sum(lead, 2, 2, cap) == 0);
                assert(measure_sum(lead, 1, 2, cap) == 1);
                assert(measure_sum(lead, 0, 2, cap) == nm.len() + 3);
                assert(measure_sum(tail, 4, 4, cap) == 0);
                assert(measure_sum(tail, 3, 4, cap) == 1);
                assert(measure_sum(tail, 2, 4, cap) == 3);
                assert(measure_sum(tail, 1, 4, cap) == 4);
                assert(measure_sum(tail, 0, 4, cap) == 5);
                assert(wide == struct_wraps_non_exhaustive(nm, bdy));
            }
            if wide {
                inner.push_overflow();
            }
            inner.push_text("}");
            let ghost innerf = inner@;
            let r = self.formatter.write_expr(
                Fragment::group(GroupMode::Consistent, DEFAULT_INDENT as u32, inner),
            );
            proof {
                let n = bdy.len() as int;
                let out = r.output();
                let inb = out.subrange(1, out.len() - 1);
                assert(inb == innerf);
                assert forall|q: int| 0 <= q < n implies out[3 + q] == bdy[q] by {
                    assert(inb[2 + q] == out[3 + q]);
                    assert(measured[2 + q] == (lead + (bdy + tail))[2 + q]);
                    assert((bdy + tail)[q] == bdy[q]);
                }
                assert(out.subrange(3, 3 + n) =~= bdy);
                assert(inb[0] == out[1]);
                assert(inb[1] == out[2]);
                assert(inb[2 + n] == out[3 + n]);
                assert(inb[3 + n] == out[4 + n]);
                assert(inb[4 + n] == out[5 + n]);
                assert(inb[5 + n] == out[6 + n]);
                assert forall|q: int| 0 <= q < 4 implies measured[2 + n + q] == tail[q] by {
                    assert(measured[2 + n + q] == (lead + (bdy + tail))[2 + n + q]);
                    assert((bdy + tail)[n + q] == tail[q]);
                }
                if wide {
                    assert(inb[6 + n] == out[7 + n]);
                }
                assert(struct_tokens_non_exhaustive(
                    nm,
                    bdy,
                    struct_wraps_non_exhaustive(nm, bdy),
                    out,
                ));
            }
            r
        }
    }
}

} // verus!
