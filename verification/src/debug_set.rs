//! A helper designed to assist with creation of [`DebugPls`] implementations
//! for sets: output in the shape `{ a; b }`, always one entry per line, with
//! semicolons between entries and none after the last.
use crate::formatter::{process, process_with, wrote, wrote_with, DebugPls, DebugWith, Formatter};
use crate::fragment::{appended_with_sep, entries_appended, lemma_entries_appended_grow, Fragment,
    GroupBody};
use crate::token::{is_text_tok, BreakKind, GroupMode, Token, DEFAULT_INDENT};
use vstd::prelude::*;

verus! {

/// The token stream a finished, non-empty set or map writes: one consistent
/// group holding `{`, a hard break, the accumulated entries, and the closing
/// hard break and brace — always one entry per line.
pub open spec fn braced_block_tokens(body: Seq<Token>, out: Seq<Token>) -> bool {
    let n = body.len() as int;
    &&& out.len() == body.len() + 6
    &&& out[0] == Token::Begin(GroupMode::Consistent, DEFAULT_INDENT as u32)
    &&& is_text_tok(out[1], "{"@)
    &&& out[2] == Token::Break(BreakKind::Hard, 0)
    &&& out.subrange(3, 3 + n) == body
    &&& out[3 + n] == Token::Break(BreakKind::Hard, -4i32)
    &&& is_text_tok(out[4 + n], "}"@)
    &&& out[5 + n] == Token::End
}

/// Builder for set-shaped debug output.
pub struct DebugSet {
    formatter: Formatter,
    body: GroupBody,
    has_entries: bool,
}

impl DebugSet {
    /// The accumulated interior is a valid group body.
    pub closed spec fn wf(self) -> bool {
        self.body.wf()
    }

    /// The tokens of the entries accumulated so far.
    pub closed spec fn body_view(self) -> Seq<Token> {
        self.body@
    }

    /// At least one entry was added.
    pub closed spec fn has_entries_spec(self) -> bool {
        self.has_entries
    }

    pub(crate) fn new(formatter: Formatter) -> (r: DebugSet)
        ensures
            r.wf(),
            r.body_view() == Seq::<Token>::empty(),
            !r.has_entries_spec(),
    {
        DebugSet { formatter, body: GroupBody::new(), has_entries: false }
    }

    /// Adds the entry to the set output: whatever the value's [`DebugPls`]
    /// implementation writes, behind a semicolon and line break when entries
    /// came before it.
    #[must_use]
    pub fn entry<V: DebugPls>(self, value: &V) -> (r: DebugSet)
        requires
            self.wf(),
        ensures
            r.wf(),
            r.has_entries_spec(),
            exists|v: Seq<Token>|
                #[trigger] wrote(*value, v) && appended_with_sep(
                    self.body_view(),
                    self.has_entries_spec(),
                    ";"@,
                    Token::Break(BreakKind::Hard, 0),
                    v,
                    r.body_view(),
                ),
    {
        let frag = process(value);
        let ghost v = frag@;
        let r = self.entry_fragment(frag);
        proof {
            assert(wrote(*value, v) && appended_with_sep(
                self.body_view(),
                self.has_entries_spec(),
                ";"@,
                Token::Break(BreakKind::Hard, 0),
                v,
                r.body_view(),
            ));
        }
        r
    }

    /// Adds the entry, formatted against a context value.
    #[must_use]
    pub fn entry_with<W, V: DebugWith<W>>(self, value: &V, with: &W) -> (r: DebugSet)
        requires
            self.wf(),
        ensures
            r.wf(),
            r.has_entries_spec(),
            exists|v: Seq<Token>|
                #[trigger] wrote_with(*value, *with, v) && appended_with_sep(
                    self.body_view(),
                    self.has_entries_spec(),
                    ";"@,
                    Token::Break(BreakKind::Hard, 0),
                    v,
                    r.body_view(),
                ),
    {
        let frag = process_with(value, with);
        let ghost v = frag@;
        let r = self.entry_fragment(frag);
        proof {
            assert(wrote_with(*value, *with, v) && appended_with_sep(
                self.body_view(),
                self.has_entries_spec(),
                ";"@,
                Token::Break(BreakKind::Hard, 0),
                v,
                r.body_view(),
            ));
        }
        r
    }

    /// Adds an entry whose fragment is already rendered.
    #[must_use]
    pub fn entry_fragment(self, value: Fragment) -> (r: DebugSet)
        requires
            self.wf(),
            value.wf(),
        ensures
            r.wf(),
            r.has_entries_spec(),
            appended_with_sep(
                self.body_view(),
                self.has_entries_spec(),
                ";"@,
                Token::Break(BreakKind::Hard, 0),
                value@,
                r.body_view(),
            ),
    {
        let ghost pre = self.body@;
        let ghost had = self.has_entries;
        let mut b = self.body;
        if self.has_entries {
            b.push_text(";");
            b.push_break(BreakKind::Hard, 0);
        }
        b.push_fragment(value);
        proof {
            let n = pre.len() as int;
            let sep: int = if had {
                2
            } else {
                0
            };
            assert(b@.subrange(0, n) =~= pre);
            assert(b@.subrange(n + sep, b@.len() as int) =~= value@);
        }
        DebugSet { formatter: self.formatter, body: b, has_entries: true }
    }

    /// Adds all the entries to the set output, in order.
    #[must_use]
    pub fn entries<V: DebugPls>(self, entries: &Vec<V>) -> (r: DebugSet)
        requires
            self.wf(),
        ensures
            r.wf(),
            r.has_entries_spec() == (self.has_entries_spec() || entries@.len() > 0),
            exists|frags: Seq<Seq<Token>>|
                #![auto]
                {
                    &&& frags.len() == entries@.len()
                    &&& forall|k: int| 0 <= k < frags.len() ==> wrote(entries@[k], frags[k])
                    &&& entries_appended(
                        self.body_view(),
                        self.has_entries_spec(),
                        ";"@,
                        Token::Break(BreakKind::Hard, 0),
                        frags,
                        r.body_view(),
                    )
                },
    {
        let ghost pre = self.body_view();
        let ghost had0 = self.has_entries_spec();
        let mut me = self;
        let ghost mut frags: Seq<Seq<Token>> = Seq::empty();
        let mut i: usize = 0;
        let n = entries.len();
        while i < n
            invariant
                me.wf(),
                n == entries@.len(),
                i <= n,
                frags.len() == i as int,
                forall|k: int| 0 <= k < i ==> wrote(entries@[k], #[trigger] frags[k]),
                entries_appended(
                    pre,
                    had0,
                    ";"@,
                    Token::Break(BreakKind::Hard, 0),
                    frags,
                    me.body_view(),
                ),
                me.has_entries_spec() == (had0 || i > 0),
            decreases n - i,
        {
            let ghost mid = me.body_view();
            let ghost hadi = me.has_entries_spec();
            me = me.entry(&entries[i]);
            proof {
                let v = choose|v: Seq<Token>|
                    #[trigger] wrote(entries@[i as int], v) && appended_with_sep(
                        mid,
                        hadi,
                        ";"@,
                        Token::Break(BreakKind::Hard, 0),
                        v,
                        me.body_view(),
                    );
                lemma_entries_appended_grow(
                    pre,
                    had0,
                    ";"@,
                    Token::Break(BreakKind::Hard, 0),
                    frags,
                    mid,
                    v,
                    me.body_view(),
                );
                frags = frags.push(v);
            }
            i = i + 1;
        }
        me
    }

    /// Adds all the entries, each formatted against a context value.
    #[must_use]
    pub fn entries_with<W, V: DebugWith<W>>(self, entries: &Vec<V>, with: &W) -> (r: DebugSet)
        requires
            self.wf(),
        ensures
            r.wf(),
            r.has_entries_spec() == (self.has_entries_spec() || entries@.len() > 0),
            exists|frags: Seq<Seq<Token>>|
                #![auto]
                {
                    &&& frags.len() == entries@.len()
                    &&& forall|k: int|
                        0 <= k < frags.len() ==> wrote_with(entries@[k], *with, frags[k])
                    &&& entries_appended(
                        self.body_view(),
                        self.has_entries_spec(),
                        ";"@,
                        Token::Break(BreakKind::Hard, 0),
                        frags,
                        r.body_view(),
                    )
                },
    {
        let ghost pre = self.body_view();
        let ghost had0 = self.has_entries_spec();
        let mut me = self;
        let ghost mut frags: Seq<Seq<Token>> = Seq::empty();
        let mut i: usize = 0;
        let n = entries.len();
        while i < n
            invariant
                me.wf(),
                n == entries@.len(),
                i <= n,
                frags.len() == i as int,
                forall|k: int| 0 <= k < i ==> wrote_with(entries@[k], *with, #[trigger] frags[k]),
                entries_appended(
                    pre,
                    had0,
                    ";"@,
                    Token::Break(BreakKind::Hard, 0),
                    frags,
                    me.body_view(),
                ),
                me.has_entries_spec() == (had0 || i > 0),
            decreases n - i,
        {
            let ghost mid = me.body_view();
            let ghost hadi = me.has_entries_spec();
            me = me.entry_with(&entries[i], with);
            proof {
                let v = choose|v: Seq<Token>|
                    #[trigger] wrote_with(entries@[i as int], *with, v) && appended_with_sep(
                        mid,
                        hadi,
                        ";"@,
                        Token::Break(BreakKind::Hard, 0),
                        v,
                        me.body_view(),
                    );
                lemma_entries_appended_grow(
                    pre,
                    had0,
                    ";"@,
                    Token::Break(BreakKind::Hard, 0),
                    frags,
                    mid,
                    v,
                    me.body_view(),
                );
                frags = frags.push(v);
            }
            i = i + 1;
        }
        me
    }

    /// Closes off the set: a bare `{}` when no entry was added, else the
    /// [`braced_block_tokens`] group around the accumulated entries.
    pub fn finish(self) -> (r: Formatter)
        requires
            self.wf(),
        ensures
            r.wf(),
            !self.has_entries_spec() ==> r.output().len() == 1 && is_text_tok(
                r.output()[0],
                "{}"@,
            ),
            self.has_entries_spec() ==> braced_block_tokens(self.body_view(), r.output()),
    {
        let ghost bdy = self.body@;
        if !self.has_entries {
            self.formatter.write_expr(Fragment::text("{}"))
        } else {
            let mut inner = GroupBody::new();
            inner.push_text("{");
            inner.push_break(BreakKind::Hard, 0);
            let ghost lead = inner@;
            inner.push_body(self.body);
            inner.push_break(BreakKind::Hard, -4);
            inner.push_text("}");
            let ghost innerf = inner@;
            let r = self.formatter.write_expr(
                Fragment::group(GroupMode::Consistent, DEFAULT_INDENT as u32, inner),
            );
            proof {
                let n = bdy.len() as int;
                let out = r.output();
                let inb = out.subrange(1, out.len() - 1);
                assert(inb == innerf);
                assert forall|q: int| 0 <= q < n implies out[3 + q] == bdy[q] by {
                    assert(inb[2 + q] == out[3 + q]);
                    assert((lead + bdy)[2 + q] == bdy[q]);
                }
                assert(out.subrange(3, 3 + n) =~= bdy);
                assert(inb[0] == out[1]);
                assert(inb[1] == out[2]);
                assert(inb[2 + n] == out[3 + n]);
                assert(inb[3 + n] == out[4 + n]);
                assert(braced_block_tokens(bdy, out));
            }
            r
        }
    }
}

} // verus!
