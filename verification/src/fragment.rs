//! Balanced pieces of a token stream.  A [`Fragment`] is a self-contained
//! span — every group closed, every break inside a group — so fragments can
//! be rendered on their own or spliced into a larger document.  A
//! [`GroupBody`] is the looser interior of one group: breaks and deferred
//! punctuation may stand at its top level, because the enclosing group
//! supplies their home once the body is wrapped.
use crate::token::{is_text_tok, stream_wf, wf_from, BreakKind, Config, GroupMode, Token};
use vstd::prelude::*;
use vstd::string::StrSliceExecFns;
use vstd::string::StringExecFns;

verus! {

/// Like [`wf_from`], but breaks and deferred tokens are welcome at depth
/// zero: the well-formedness of one group's interior.
pub open spec fn body_from(s: Seq<Token>, i: int, d: nat) -> bool
    decreases s.len() - i,
{
    if i >= s.len() {
        d == 0
    } else {
        match s[i] {
            Token::Begin(_, _) => body_from(s, i + 1, d + 1),
            Token::End => d > 0 && body_from(s, i + 1, (d - 1) as nat),
            _ => body_from(s, i + 1, d),
        }
    }
}

/// A well-formed group interior.
pub open spec fn body_wf(s: Seq<Token>) -> bool {
    body_from(s, 0, 0)
}

/// A self-contained stream is in particular a valid group interior.
pub proof fn lemma_wf_implies_body(s: Seq<Token>, i: int, d: nat)
    requires
        wf_from(s, i, d),
    ensures
        body_from(s, i, d),
    decreases s.len() - i,
{
    if i < s.len() {
        match s[i] {
            Token::Begin(_, _) => lemma_wf_implies_body(s, i + 1, d + 1),
            Token::End => lemma_wf_implies_body(s, i + 1, (d - 1) as nat),
            _ => lemma_wf_implies_body(s, i + 1, d),
        }
    }
}

/// Appending a valid interior after position `a.len() + j` keeps an interior
/// valid: the suffix of the concatenation mirrors the suffix of `b`.
pub proof fn lemma_body_shift(a: Seq<Token>, b: Seq<Token>, j: int, d: nat)
    requires
        0 <= j <= b.len(),
        body_from(b, j, d),
    ensures
        body_from(a + b, a.len() + j, d),
    decreases b.len() - j,
{
    if j < b.len() {
        assert((a + b)[a.len() + j] == b[j]);
        match b[j] {
            Token::Begin(_, _) => lemma_body_shift(a, b, j + 1, d + 1),
            Token::End => lemma_body_shift(a, b, j + 1, (d - 1) as nat),
            _ => lemma_body_shift(a, b, j + 1, d),
        }
    }
}

/// Two valid interiors concatenate to a valid interior.
pub proof fn lemma_body_concat(a: Seq<Token>, b: Seq<Token>, i: int, d: nat)
    requires
        0 <= i <= a.len(),
        body_from(a, i, d),
        body_wf(b),
    ensures
        body_from(a + b, i, d),
    decreases a.len() - i,
{
    if i < a.len() {
        assert((a + b)[i] == a[i]);
        match a[i] {
            Token::Begin(_, _) => lemma_body_concat(a, b, i + 1, d + 1),
            Token::End => lemma_body_concat(a, b, i + 1, (d - 1) as nat),
            _ => lemma_body_concat(a, b, i + 1, d),
        }
    } else {
        lemma_body_shift(a, b, 0, 0);
    }
}

/// The same for self-contained streams: a break-free top level stays so.
pub proof fn lemma_wf_shift(a: Seq<Token>, b: Seq<Token>, j: int, d: nat)
    requires
        0 <= j <= b.len(),
        wf_from(b, j, d),
    ensures
        wf_from(a + b, a.len() + j, d),
    decreases b.len() - j,
{
    if j < b.len() {
        assert((a + b)[a.len() + j] == b[j]);
        match b[j] {
            Token::Begin(_, _) => lemma_wf_shift(a, b, j + 1, d + 1),
            Token::End => lemma_wf_shift(a, b, j + 1, (d - 1) as nat),
            _ => lemma_wf_shift(a, b, j + 1, d),
        }
    }
}

/// Two self-contained streams concatenate to a self-contained stream.
pub proof fn lemma_wf_concat(a: Seq<Token>, b: Seq<Token>, i: int, d: nat)
    requires
        0 <= i <= a.len(),
        wf_from(a, i, d),
        stream_wf(b),
    ensures
        wf_from(a + b, i, d),
    decreases a.len() - i,
{
    if i < a.len() {
        assert((a + b)[i] == a[i]);
        match a[i] {
            Token::Begin(_, _) => lemma_wf_concat(a, b, i + 1, d + 1),
            Token::End => lemma_wf_concat(a, b, i + 1, (d - 1) as nat),
            _ => lemma_wf_concat(a, b, i + 1, d),
        }
    } else {
        lemma_wf_shift(a, b, 0, 0);
    }
}

/// Wrapping a valid interior in one group yields a self-contained stream:
/// the group gives every top-level break of the body its home.
pub proof fn lemma_wrap_body(w: Seq<Token>, b: Seq<Token>, j: int, d: nat)
    requires
        0 <= j <= b.len(),
        body_from(b, j, d),
        w.len() == b.len() + 2,
        w[0] is Begin,
        w.last() is End,
        forall|q: int| 0 <= q < b.len() ==> w[q + 1] == b[q],
    ensures
        wf_from(w, 1 + j, d + 1),
    decreases b.len() - j,
{
    if j < b.len() {
        assert(w[1 + j] == b[j]);
        match b[j] {
            Token::Begin(_, _) => lemma_wrap_body(w, b, j + 1, d + 1),
            Token::End => lemma_wrap_body(w, b, j + 1, (d - 1) as nat),
            _ => lemma_wrap_body(w, b, j + 1, d),
        }
    } else {
        assert(w[1 + j] == w.last());
        assert(d == 0);
        assert(wf_from(w, w.len() as int, 0));
        assert(wf_from(w, 1 + j, 1));
    }
}

/// A balanced, self-contained span of the document: what one value renders
/// to, and what the engine accepts whole.
pub struct Fragment {
    toks: Vec<Token>,
}

impl View for Fragment {
    type V = Seq<Token>;

    closed spec fn view(&self) -> Seq<Token> {
        self.toks@
    }
}

impl Fragment {
    /// A fragment never trips the renderer's structural check.
    pub open spec fn wf(self) -> bool {
        stream_wf(self@)
    }

    /// The empty fragment.
    pub fn new() -> (r: Fragment)
        ensures
            r@ == Seq::<Token>::empty(),
            r.wf(),
    {
        let r = Fragment { toks: Vec::new() };
        proof {
            assert(r@ =~= Seq::<Token>::empty());
        }
        r
    }

    /// A fragment of literal text.
    pub fn text(s: &str) -> (r: Fragment)
        ensures
            r@.len() == 1,
            r@[0] is Text,
            r@[0]->Text_0@ == s@,
            r.wf(),
    {
        Fragment::text_owned(String::from_str(s))
    }

    /// A fragment of literal text, taking ownership.
    pub fn text_owned(s: String) -> (r: Fragment)
        ensures
            r@.len() == 1,
            r@[0] is Text,
            r@[0]->Text_0@ == s@,
            r.wf(),
    {
        let mut toks: Vec<Token> = Vec::new();
        toks.push(Token::Text(s));
        let r = Fragment { toks };
        proof {
            assert(wf_from(r@, 1, 0));
        }
        r
    }

    /// The two fragments, one after the other.
    pub fn concat(self, other: Fragment) -> (r: Fragment)
        requires
            self.wf(),
            other.wf(),
        ensures
            r@ == self@ + other@,
            r.wf(),
    {
        let mut toks = self.toks;
        let mut tail = other.toks;
        proof {
            lemma_wf_concat(toks@, tail@, 0, 0);
        }
        toks.append(&mut tail);
        Fragment { toks }
    }

    /// Renders the fragment under a configuration.  A fragment is always
    /// structurally sound, so rendering cannot fail.
    pub fn render(&self, cfg: &Config) -> (r: String)
        requires
            self.wf(),
            cfg.wf(),
        ensures
            r@ == crate::printer::spec_render(self@, *cfg),
    {
        match crate::render::render(&self.toks, cfg) {
            Ok(s) => s,
            Err(_) => {
                proof {
                    assert(false);
                }
                String::new()
            },
        }
    }

    /// A group around an interior: rendered on one line if it fits within
    /// the margin, and broken at its breaks otherwise, all together or
    /// greedily according to `mode`.
    pub fn group(mode: GroupMode, indent: u32, body: GroupBody) -> (r: Fragment)
        requires
            body.wf(),
        ensures
            r@.len() == body@.len() + 2,
            r@[0] == Token::Begin(mode, indent),
            r@.last() == Token::End,
            r@.subrange(1, r@.len() - 1) == body@,
            r.wf(),
    {
        let mut toks: Vec<Token> = Vec::new();
        toks.push(Token::Begin(mode, indent));
        let mut inner = body.toks;
        let ghost binner = inner@;
        toks.append(&mut inner);
        toks.push(Token::End);
        let r = Fragment { toks };
        proof {
            lemma_wrap_body(r@, binner, 0, 0);
            assert(r@.subrange(1, r@.len() - 1) =~= binner);
        }
        r
    }
}

/// The interior of one group while it is being assembled: a token sequence
/// whose own groups are balanced, with breaks allowed at the top level.
pub struct GroupBody {
    toks: Vec<Token>,
}

impl View for GroupBody {
    type V = Seq<Token>;

    closed spec fn view(&self) -> Seq<Token> {
        self.toks@
    }
}

impl GroupBody {
    /// The interior stays well formed under every constructor here.
    pub open spec fn wf(self) -> bool {
        body_wf(self@)
    }

    /// An empty interior.
    pub fn new() -> (r: GroupBody)
        ensures
            r@ == Seq::<Token>::empty(),
            r.wf(),
    {
        let r = GroupBody { toks: Vec::new() };
        proof {
            assert(r@ =~= Seq::<Token>::empty());
        }
        r
    }

    /// Appends literal text.
    pub fn push_text(&mut self, s: &str)
        requires
            old(self).wf(),
        ensures
            final(self).wf(),
            final(self)@ == old(self)@.push(final(self)@.last()),
            final(self)@.last() is Text,
            final(self)@.last()->Text_0@ == s@,
    {
        self.push_token(Token::Text(String::from_str(s)));
    }

    /// Appends literal text, taking ownership.
    pub fn push_text_owned(&mut self, s: String)
        requires
            old(self).wf(),
        ensures
            final(self).wf(),
            final(self)@ == old(self)@.push(final(self)@.last()),
            final(self)@.last() is Text,
            final(self)@.last()->Text_0@ == s@,
    {
        self.push_token(Token::Text(s));
    }

    /// Appends a potential line break.
    pub fn push_break(&mut self, kind: BreakKind, offset: i32)
        requires
            old(self).wf(),
        ensures
            final(self).wf(),
            final(self)@ == old(self)@.push(Token::Break(kind, offset)),
    {
        self.push_token(Token::Break(kind, offset));
    }

    /// Appends punctuation resolved by the owning group's break status.
    pub fn push_deferred(&mut self, if_broken: &str, if_unbroken: &str)
        requires
            old(self).wf(),
        ensures
            final(self).wf(),
            final(self)@ == old(self)@.push(final(self)@.last()),
            final(self)@.last() is Deferred,
            final(self)@.last()->Deferred_0@ == if_broken@,
            final(self)@.last()->Deferred_1@ == if_unbroken@,
    {
        self.push_token(Token::Deferred(String::from_str(if_broken), String::from_str(if_unbroken)));
    }

    /// Splices a finished fragment into the interior.
    pub fn push_fragment(&mut self, f: Fragment)
        requires
            old(self).wf(),
            f.wf(),
        ensures
            final(self).wf(),
            final(self)@ == old(self)@ + f@,
    {
        proof {
            lemma_wf_implies_body(f@, 0, 0);
            lemma_body_concat(self@, f@, 0, 0);
        }
        let mut tail = f.toks;
        self.toks.append(&mut tail);
    }

    /// Appends an invisible overflow marker, committing the enclosing groups
    /// to break.
    pub fn push_overflow(&mut self)
        requires
            old(self).wf(),
        ensures
            final(self).wf(),
            final(self)@ == old(self)@.push(Token::Overflow),
    {
        self.push_token(Token::Overflow);
    }

    /// The columns this interior would occupy rendered without line breaks,
    /// saturated at `cap`; hard breaks and overflow markers count as `cap`.
    pub fn unbroken_width(&self, cap: usize) -> (r: usize)
        ensures
            r as nat == saturated_measure(self@, cap as nat),
            r <= cap,
    {
        let ghost m = cap as nat;
        let mut total: usize = 0;
        let n = self.toks.len();
        let mut i: usize = 0;
        while i < n
            invariant
                total <= cap,
                n == self.toks@.len(),
                i <= n,
                m == cap as nat,
                total as nat == (if measure_sum(self@, 0, i as int, m) > m {
                    m
                } else {
                    measure_sum(self@, 0, i as int, m)
                }),
            decreases n - i,
        {
            proof {
                lemma_measure_snoc(self@, 0, i as int, m);
            }
            let w: usize = match &self.toks[i] {
                Token::Text(s) => {
                    let l = s.as_str().unicode_len();
                    if l > cap {
                        cap
                    } else {
                        l
                    }
                },
                Token::Break(k, _) => match k {
                    BreakKind::Space => 1,
                    BreakKind::Empty => 0,
                    BreakKind::Hard => cap,
                },
                Token::Begin(_, _) => 0,
                Token::End => 0,
                Token::Deferred(_, u) => {
                    let l = u.as_str().unicode_len();
                    if l > cap {
                        cap
                    } else {
                        l
                    }
                },
                Token::Overflow => cap,
            };
            let w = if w > cap {
                cap
            } else {
                w
            };
            proof {
                assert(w as nat == (if token_measure(self@[i as int], m) > m {
                    m
                } else {
                    token_measure(self@[i as int], m)
                }));
            }
            total = if w > cap - total {
                cap
            } else {
                total + w
            };
            i = i + 1;
        }
        total
    }

    /// Splices another finished interior onto this one.
    pub fn push_body(&mut self, other: GroupBody)
        requires
            old(self).wf(),
            other.wf(),
        ensures
            final(self).wf(),
            final(self)@ == old(self)@ + other@,
    {
        proof {
            lemma_body_concat(self@, other@, 0, 0);
        }
        let mut tail = other.toks;
        self.toks.append(&mut tail);
    }

    /// Appends one non-grouping token; every push keeps the interior valid
    /// because none of these tokens opens or closes a group.
    fn push_token(&mut self, t: Token)
        requires
            old(self).wf(),
            !(t is Begin),
            !(t is End),
        ensures
            final(self).wf(),
            final(self)@ == old(self)@.push(t),
    {
        proof {
            let ghost single = seq![t];
            assert(body_from(single, 1, 0));
            assert(body_wf(single));
            lemma_body_concat(self@, single, 0, 0);
            assert(self@ + single =~= self@.push(t));
        }
        self.toks.push(t);
    }
}

/// A measured sum, saturated at the cap itself.
pub open spec fn saturated_measure(s: Seq<Token>, cap: nat) -> nat {
    if measure_sum(s, 0, s.len() as int, cap) > cap {
        cap
    } else {
        measure_sum(s, 0, s.len() as int, cap)
    }
}

/// The columns one token contributes when measuring an interior against a
/// width cap: hard breaks and overflow markers count as the whole cap, since
/// either alone commits the surrounding groups to break.
pub open spec fn token_measure(t: Token, cap: nat) -> nat {
    match t {
        Token::Text(s) => s@.len(),
        Token::Break(k, _) => match k {
            BreakKind::Space => 1,
            BreakKind::Empty => 0,
            BreakKind::Hard => cap,
        },
        Token::Begin(_, _) => 0,
        Token::End => 0,
        Token::Deferred(_, u) => u@.len(),
        Token::Overflow => cap,
    }
}

/// Total measured width of the tokens at positions `from..to`.
pub open spec fn measure_sum(s: Seq<Token>, from: int, to: int, cap: nat) -> nat
    decreases to - from,
{
    if from >= to {
        0
    } else {
        token_measure(s[from], cap) + measure_sum(s, from + 1, to, cap)
    }
}

/// Appending one token extends a measured sum by that token's measure.
pub proof fn lemma_measure_snoc(s: Seq<Token>, from: int, to: int, cap: nat)
    requires
        0 <= from <= to < s.len(),
    ensures
        measure_sum(s, from, to + 1, cap) == measure_sum(s, from, to, cap) + token_measure(
            s[to],
            cap,
        ),
    decreases to - from,
{
    if from < to {
        lemma_measure_snoc(s, from + 1, to, cap);
    } else {
        assert(measure_sum(s, to + 1, to + 1, cap) == 0);
    }
}

/// A measured sum splits over concatenation.
pub proof fn lemma_measure_concat(a: Seq<Token>, b: Seq<Token>, cap: nat)
    ensures
        measure_sum(a + b, 0, (a + b).len() as int, cap) == measure_sum(a, 0, a.len() as int, cap)
            + measure_sum(b, 0, b.len() as int, cap),
    decreases a.len(),
{
    if a.len() == 0 {
        assert(a + b =~= b);
    } else {
        lemma_measure_concat(a.drop_first(), b, cap);
        assert((a + b).drop_first() =~= a.drop_first() + b);
        assert(measure_sum(a + b, 0, (a + b).len() as int, cap) == token_measure((a + b)[0], cap)
            + measure_sum(a + b, 1, (a + b).len() as int, cap));
        lemma_measure_shift(a + b, cap);
        lemma_measure_shift(a, cap);
    }
}

/// Dropping a sequence's first token drops its measure from the sum.
pub proof fn lemma_measure_shift(s: Seq<Token>, cap: nat)
    requires
        s.len() > 0,
    ensures
        measure_sum(s, 1, s.len() as int, cap) == measure_sum(
            s.drop_first(),
            0,
            s.drop_first().len() as int,
            cap,
        ),
    decreases s.len(),
{
    lemma_measure_shift_from(s, 1, cap);
}

/// The offset form of the shift: summing `s` from `j` equals summing the
/// first-dropped sequence from `j - 1`.
proof fn lemma_measure_shift_from(s: Seq<Token>, j: int, cap: nat)
    requires
        s.len() > 0,
        1 <= j <= s.len(),
    ensures
        measure_sum(s, j, s.len() as int, cap) == measure_sum(
            s.drop_first(),
            j - 1,
            s.drop_first().len() as int,
            cap,
        ),
    decreases s.len() - j,
{
    if j < s.len() {
        lemma_measure_shift_from(s, j + 1, cap);
        assert(s.drop_first()[j - 1] == s[j]);
    }
}

/// `post` is `pre`, then — when `had` — a separator of `sep_text` and
/// `sep_break`, then `tail`: the relation each entry-appending builder
/// method ensures.
pub open spec fn appended_with_sep(
    pre: Seq<Token>,
    had: bool,
    sep_text: Seq<char>,
    sep_break: Token,
    tail: Seq<Token>,
    post: Seq<Token>,
) -> bool {
    let n = pre.len() as int;
    let sep: int = if had {
        2
    } else {
        0
    };
    &&& post.len() == pre.len() + sep + tail.len()
    &&& post.subrange(0, n) == pre
    &&& (had ==> is_text_tok(post[n], sep_text) && post[n + 1] == sep_break)
    &&& post.subrange(n + sep, post.len() as int) == tail
}

/// `post` is `pre` extended by the entries of `frags` in order, each behind
/// its separator as [`appended_with_sep`] describes.  The state before the
/// last entry is determined by the lengths, so the relation peels entries
/// off the back.
pub open spec fn entries_appended(
    pre: Seq<Token>,
    had: bool,
    sep_text: Seq<char>,
    sep_break: Token,
    frags: Seq<Seq<Token>>,
    post: Seq<Token>,
) -> bool
    decreases frags.len(),
{
    if frags.len() == 0 {
        post == pre
    } else {
        let tail = frags.last();
        let sep: int = if had || frags.len() > 1 {
            2
        } else {
            0
        };
        let mid = post.subrange(0, post.len() - sep - tail.len());
        &&& post.len() >= sep + tail.len() + pre.len()
        &&& appended_with_sep(mid, had || frags.len() > 1, sep_text, sep_break, tail, post)
        &&& entries_appended(pre, had, sep_text, sep_break, frags.drop_last(), mid)
    }
}

/// Extending an entry run by one more entry at the back.
pub proof fn lemma_entries_appended_grow(
    pre: Seq<Token>,
    had: bool,
    sep_text: Seq<char>,
    sep_break: Token,
    frags: Seq<Seq<Token>>,
    mid: Seq<Token>,
    tail: Seq<Token>,
    post: Seq<Token>,
)
    requires
        entries_appended(pre, had, sep_text, sep_break, frags, mid),
        appended_with_sep(mid, had || frags.len() > 0, sep_text, sep_break, tail, post),
    ensures
        entries_appended(pre, had, sep_text, sep_break, frags.push(tail), post),
{
    let grown = frags.push(tail);
    assert(grown.drop_last() =~= frags);
    assert(grown.last() == tail);
    assert(entries_appended(pre, had, sep_text, sep_break, grown.drop_last(), mid));
    assert(appended_with_sep(mid, had || grown.len() > 1, sep_text, sep_break, grown.last(), post));
    assert(entries_appended(pre, had, sep_text, sep_break, grown, post));
}

} // verus!
