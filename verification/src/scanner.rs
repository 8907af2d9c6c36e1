//! The scanner: it assigns each group opening and each break its resolved
//! width — the columns the content would occupy rendered without line breaks,
//! frozen at an overflow sentinel once it provably exceeds the margin — and
//! retires tokens out of a bounded ring buffer as soon as their width is
//! known, so the buffer's occupancy is bounded by the margin and never grows
//! with nesting depth or stream length.
//!
//! The buffer is an explicit queue with two monotone logical cursors: tokens
//! enter at the tail (one slot per token, in document order) and leave at the
//! head once resolved.  A stack of open size accumulators — one per open
//! group, plus at most one per group for its latest open break — tracks the
//! running widths; every accumulator is pinned by the invariant to the
//! specification-level width sums of [`crate::token`].
use crate::token::{blank_width, cap_width, group_end, lemma_sum_mono, lemma_sum_snoc, seg_end,
    sum_width, token_width, wf_from, width_at, BreakKind, Config, Token};
use crate::printer::cap_add;
use vstd::prelude::*;
use vstd::string::StrSliceExecFns;

verus! {

/// The size accumulator of the latest break of an open group whose segment is
/// still growing.
#[derive(Clone, Copy, Debug)]
pub struct BreakAcc {
    /// Position of the break token in the stream.
    pub idx: usize,
    /// Its running width, capped at one past the margin.
    pub total: usize,
}

/// The open accumulators of one currently open group.
#[derive(Clone, Copy, Debug)]
pub struct OpenGroup {
    /// Position of the group's opening token in the stream.
    pub begin_idx: usize,
    /// Running width of the group, capped at one past the margin.
    pub begin_total: usize,
    /// The group's latest break, while its segment is still open.
    pub brk: Option<BreakAcc>,
}

/// One ring-buffer slot: a token whose width is still unknown, or a resolved
/// width ready to hand to the printer.
#[derive(Clone, Copy, PartialEq, Eq, Structural, Debug)]
pub enum Slot {
    Pending,
    Res(usize),
}

/// The scanner state.
pub struct Scanner {
    buf: Vec<Slot>,
    retired: usize,
    opens: Vec<OpenGroup>,
}

/// Within one group, the opening precedes the open break.
pub open spec fn group_sorted(g: OpenGroup) -> bool {
    match g.brk {
        Some(b) => g.begin_idx < b.idx,
        None => true,
    }
}

/// An outer group's accumulators all precede an inner group's opening.
pub open spec fn group_before(g1: OpenGroup, g2: OpenGroup) -> bool {
    &&& g1.begin_idx < g2.begin_idx
    &&& match g1.brk {
        Some(b) => b.idx < g2.begin_idx,
        None => true,
    }
}

/// Group `g` has a live accumulator watching position `p`.
pub open spec fn covers(g: OpenGroup, cfg: Config, p: int) -> bool {
    ||| (g.begin_idx == p && g.begin_total <= cfg.margin)
    ||| (match g.brk {
        Some(b) => b.idx == p && b.total <= cfg.margin,
        None => false,
    })
}

/// The inline width a break contributes to enclosing accumulators.
pub open spec fn break_base(t: Token, m: nat) -> nat {
    match t {
        Token::Break(k, _) => blank_width(k, m),
        _ => 0,
    }
}

impl Scanner {
    /// Number of tokens already handed to the printer (the head cursor).
    pub closed spec fn head(self) -> int {
        self.retired as int
    }

    /// Number of buffered slots.
    pub closed spec fn buffered(self) -> int {
        self.buf@.len() as int
    }

    /// The oldest buffered token still waits for its width.
    pub closed spec fn front_pending(self) -> bool {
        self.buf@.len() > 0 && self.buf@[0] is Pending
    }

    /// The head cursor, for callers that need the position of the token the
    /// next retired width belongs to.
    pub fn head_exec(&self) -> (r: usize)
        ensures
            r as int == self.head(),
    {
        self.retired
    }

    /// The width claims of the accumulators of group `j`, with sums taken up
    /// to horizon `h` and the forward scans started from `h` at this group's
    /// depth below the innermost one.
    pub closed spec fn group_ok(self, s: Seq<Token>, h: int, cfg: Config, j: int) -> bool {
        let m = cfg.margin as nat;
        let k = self.opens@.len() as int;
        let g = self.opens@[j];
        let d = (k - 1 - j) as nat;
        &&& 0 <= g.begin_idx < h
        &&& s[g.begin_idx as int] is Begin
        &&& g.begin_total == cap_width(sum_width(s, g.begin_idx + 1, h, m), m)
        &&& (g.begin_total <= m ==> self.retired <= g.begin_idx && self.buf@[g.begin_idx
            - self.retired] is Pending)
        &&& (g.begin_total > m ==> g.begin_total == m + 1 && (g.begin_idx < self.retired
            || self.buf@[g.begin_idx - self.retired] == Slot::Res((cfg.margin + 1) as usize)))
        &&& group_end(s, g.begin_idx + 1, 0) == group_end(s, h, d)
        &&& match g.brk {
            Some(b) => {
                &&& g.begin_idx < b.idx < h
                &&& s[b.idx as int] is Break
                &&& b.total == cap_width(
                    break_base(s[b.idx as int], m) + sum_width(s, b.idx + 1, h, m),
                    m,
                )
                &&& (b.total <= m ==> self.retired <= b.idx && self.buf@[b.idx
                    - self.retired] is Pending)
                &&& (b.total > m ==> b.total == m + 1 && (b.idx < self.retired || self.buf@[b.idx
                    - self.retired] == Slot::Res((cfg.margin + 1) as usize)))
                &&& seg_end(s, b.idx + 1, 0) == seg_end(s, h, d)
            },
            None => true,
        }
    }

    /// Every pair of accumulators watches a distinct stream position, in
    /// stack order.
    pub closed spec fn ordered(self) -> bool {
        &&& forall|j: int| 0 <= j < self.opens@.len() ==> group_sorted(#[trigger] self.opens@[j])
        &&& forall|j1: int, j2: int|
            0 <= j1 < j2 < self.opens@.len() ==> group_before(
                #[trigger] self.opens@[j1],
                #[trigger] self.opens@[j2],
            )
    }

    /// Position `p` is watched by a live (not yet frozen) accumulator.
    pub closed spec fn covered(self, cfg: Config, p: int) -> bool {
        exists|j: int| 0 <= j < self.opens@.len() && covers(#[trigger] self.opens@[j], cfg, p)
    }

    /// Every pending slot below `hc` is watched by a live accumulator.
    pub closed spec fn covered_upto(self, cfg: Config, hc: int) -> bool {
        forall|p: int|
            self.retired <= p < hc && (#[trigger] self.buf@[p - self.retired]) is Pending
                ==> self.covered(cfg, p)
    }

    /// A resolved slot holds exactly the specification width of its token.
    pub closed spec fn res_ok(self, s: Seq<Token>, cfg: Config, p: int) -> bool {
        match self.buf@[p - self.retired] {
            Slot::Res(w) => w == width_at(s, p, cfg.margin as nat) && w <= cfg.margin + 1,
            Slot::Pending => true,
        }
    }

    /// The scanner invariant, with `n_pushed` tokens consumed from the stream
    /// and all width claims taken at horizon `h` (mid-token states use
    /// `h == n_pushed - 1`).
    pub closed spec fn inv_core(self, s: Seq<Token>, n_pushed: int, h: int, cfg: Config) -> bool {
        &&& cfg.wf()
        &&& 0 <= h <= n_pushed <= s.len()
        &&& n_pushed <= usize::MAX
        &&& self.retired + self.buf@.len() == n_pushed
        &&& wf_from(s, h, self.opens@.len() as nat)
        &&& self.ordered()
        &&& forall|j: int| 0 <= j < self.opens@.len() ==> self.group_ok(s, h, cfg, j)
        &&& forall|p: int| self.retired <= p < h ==> self.res_ok(s, cfg, p)
    }

    /// The invariant between tokens.
    pub closed spec fn inv(self, s: Seq<Token>, i: int, cfg: Config) -> bool {
        &&& self.inv_core(s, i, i, cfg)
        &&& self.covered_upto(cfg, i)
    }

    /// A fresh scanner for stream `s`.
    pub fn new(Ghost(s): Ghost<Seq<Token>>, cfg: &Config) -> (r: Scanner)
        requires
            cfg.wf(),
            crate::token::stream_wf(s),
        ensures
            r.inv(s, 0, *cfg),
            r.head() == 0,
            r.buffered() == 0,
    {
        Scanner { buf: Vec::new(), retired: 0, opens: Vec::new() }
    }

    /// Adds one token's width to every open accumulator, freezing at the
    /// overflow sentinel any accumulator that crosses the margin and marking
    /// its buffer slot resolved on the spot.
    #[verifier::loop_isolation(false)]
    #[verifier::rlimit(100)]
    fn bump(&mut self, w: usize, Ghost(s): Ghost<Seq<Token>>, Ghost(i): Ghost<int>, cfg: &Config)
        requires
            old(self).inv_core(s, i + 1, i, *cfg),
            0 <= i < s.len(),
            w == token_width(s[i], cfg.margin as nat),
            s[i] is Text || s[i] is Deferred || s[i] is Break || s[i] is Overflow,
            s[i] is Break ==> old(self).opens@.len() > 0 && old(self).opens@[old(
                self,
            ).opens@.len() - 1].brk is None,
            old(self).res_ok(s, *cfg, i),
        ensures
            final(self).inv_core(s, i + 1, i + 1, *cfg),
            old(self).covered_upto(*cfg, i) ==> final(self).covered_upto(*cfg, i),
            final(self).head() == old(self).head(),
            final(self).opens@.len() == old(self).opens@.len(),
            forall|j: int|
                0 <= j < final(self).opens@.len() ==> (#[trigger] final(self).opens@[j]).begin_idx
                    == old(self).opens@[j].begin_idx && ((final(self).opens@[j].brk is Some) <==> (
                old(self).opens@[j].brk is Some)),
            final(self).buf@[i - final(self).head()] == old(self).buf@[i - old(self).head()],
    {
        let ghost m = cfg.margin as nat;
        let k = self.opens.len();
        let mut j: usize = 0;
        while j < k
            invariant
                j <= k,
                self.opens@.len() == k,
                self.retired == old(self).retired,
                self.buf@.len() == old(self).buf@.len(),
                forall|j2: int|
                    0 <= j2 < k ==> (#[trigger] self.opens@[j2]).begin_idx == old(
                        self,
                    ).opens@[j2].begin_idx,
                forall|j2: int|
                    0 <= j2 < k ==> match (#[trigger] self.opens@[j2]).brk {
                        Some(b) => old(self).opens@[j2].brk matches Some(b0) && b.idx == b0.idx,
                        None => old(self).opens@[j2].brk is None,
                    },
                forall|j2: int| j <= j2 < k ==> #[trigger] self.opens@[j2] == old(self).opens@[j2],
                forall|j2: int| j <= j2 < k ==> #[trigger] self.group_ok(s, i, *cfg, j2),
                forall|j2: int| 0 <= j2 < j ==> #[trigger] self.group_ok(s, i + 1, *cfg, j2),
                forall|p: int|
                    self.retired <= p < i + 1 ==> (#[trigger] self.buf@[p - self.retired] == old(
                        self,
                    ).buf@[p - self.retired] || (self.buf@[p - self.retired] == Slot::Res(
                        (cfg.margin + 1) as usize,
                    ) && old(self).buf@[p - self.retired] is Pending && width_at(s, p, m) == m
                        + 1)),
                self.buf@[i - self.retired] == old(self).buf@[i - old(self).retired],
            decreases k - j,
        {
            let ghost mid = *self;
            let g = self.opens[j];
            let ghost d = (k - 1 - j) as nat;
            proof {
                assert(mid.group_ok(s, i, *cfg, j as int));
                assert(group_end(s, i, d) == group_end(s, i + 1, d));
                lemma_sum_snoc(s, g.begin_idx + 1, i, m);
                match g.brk {
                    Some(b) => {
                        assert(d > 0 || !(s[i] is Break)) by {
                            if s[i] is Break && d == 0 {
                                assert(old(self).opens@[k - 1].brk is None);
                            }
                        }
                        assert(seg_end(s, i, d) == seg_end(s, i + 1, d));
                        lemma_sum_snoc(s, b.idx + 1, i, m);
                    },
                    None => {},
                }
            }
            let new_begin_total = cap_add(g.begin_total, w, cfg.margin);
            if g.begin_total <= cfg.margin && new_begin_total == cfg.margin + 1 {
                proof {
                    lemma_group_end_ge(s, i + 1, d);
                    lemma_sum_mono(s, g.begin_idx + 1, i + 1, group_end(s, i + 1, d), m);
                    assert(width_at(s, g.begin_idx as int, m) == m + 1);
                }
                self.buf.set(g.begin_idx - self.retired, Slot::Res(cfg.margin + 1));
            }
            let new_brk: Option<BreakAcc> = match g.brk {
                Some(b) => {
                    let t2 = cap_add(b.total, w, cfg.margin);
                    if b.total <= cfg.margin && t2 == cfg.margin + 1 {
                        proof {
                            lemma_seg_end_ge(s, i + 1, d);
                            lemma_sum_mono(s, b.idx + 1, i + 1, seg_end(s, i + 1, d), m);
                            assert(width_at(s, b.idx as int, m) == m + 1);
                        }
                        self.buf.set(b.idx - self.retired, Slot::Res(cfg.margin + 1));
                    }
                    Some(BreakAcc { idx: b.idx, total: t2 })
                },
                None => None,
            };
            self.opens.set(
                j,
                OpenGroup { begin_idx: g.begin_idx, begin_total: new_begin_total, brk: new_brk },
            );
            proof {
                let ghost wrote1 = g.begin_idx as int;
                let ghost wrote2 = match g.brk {
                    Some(b) => b.idx as int,
                    None => wrote1,
                };
                assert forall|p: int|
                    self.retired <= p < i + 1 && p != wrote1 && p != wrote2 implies #[trigger] self.buf@[p
                    - self.retired] == mid.buf@[p - self.retired] by {}
                assert(self.group_ok(s, i + 1, *cfg, j as int));
                assert forall|j2: int| 0 <= j2 < j implies #[trigger] self.group_ok(
                    s,
                    i + 1,
                    *cfg,
                    j2,
                ) by {
                    assert(mid.group_ok(s, i + 1, *cfg, j2));
                    assert(old(self).ordered());
                    assert(group_before(old(self).opens@[j2], old(self).opens@[j as int]));
                    assert(group_sorted(old(self).opens@[j2]));
                }
                assert forall|j2: int| j + 1 <= j2 < k implies #[trigger] self.group_ok(
                    s,
                    i,
                    *cfg,
                    j2,
                ) by {
                    assert(mid.group_ok(s, i, *cfg, j2));
                    assert(old(self).ordered());
                    assert(group_before(old(self).opens@[j as int], old(self).opens@[j2]));
                    assert(group_sorted(old(self).opens@[j2]));
                }
            }
            j = j + 1;
        }
        proof {
            assert(wf_from(s, i + 1, k as nat));
            assert(final(self).ordered());
            assert forall|p: int| self.retired <= p < i + 1 implies self.res_ok(s, *cfg, p) by {
                if p < i {
                    assert(old(self).res_ok(s, *cfg, p));
                }
            }
            assert forall|p: int|
                old(self).covered_upto(*cfg, i) && self.retired <= p < i && (#[trigger] self.buf@[p
                    - self.retired]) is Pending implies self.covered(*cfg, p) by {
                assert(old(self).buf@[p - old(self).retired] is Pending);
                assert(old(self).covered(*cfg, p));
                let j0 = choose|j0: int|
                        0 <= j0 < old(self).opens@.len() && covers(#[trigger] old(self).opens@[j0], *cfg, p);
                assert(self.group_ok(s, i + 1, *cfg, j0));
                let gc = self.opens@[j0];
                if gc.begin_idx == p && old(self).opens@[j0].begin_total <= cfg.margin {
                    assert(gc.begin_total <= cfg.margin);
                } else {
                    let b = gc.brk->Some_0;
                    assert(b.total <= cfg.margin);
                }
            }
        }
    }

    /// Consumes the token at position `i` of the stream: pushes its slot,
    /// finalizes the accumulators this token resolves, and grows the rest.
    pub fn scan(&mut self, tokens: &Vec<Token>, i: usize, cfg: &Config)
        requires
            old(self).inv(tokens@, i as int, *cfg),
            i < tokens@.len(),
            tokens@.len() <= usize::MAX,
        ensures
            final(self).inv(tokens@, i + 1, *cfg),
            final(self).head() == old(self).head(),
    {
        let ghost s = tokens@;
        match &tokens[i] {
            Token::Text(t) => {
                let w = t.as_str().unicode_len();
                self.scan_flat(w, i, cfg, Ghost(s));
            },
            Token::Deferred(_, u) => {
                let w = u.as_str().unicode_len();
                self.scan_flat(w, i, cfg, Ghost(s));
            },
            Token::Begin(_, _) => {
                self.scan_begin(i, cfg, Ghost(s));
            },
            Token::End => {
                self.scan_end(i, cfg, Ghost(s));
            },
            Token::Break(kind, _) => {
                let kc = *kind;
                self.scan_break(kc, i, cfg, Ghost(s));
            },
            Token::Overflow => {
                self.scan_flat(cfg.margin + 1, i, cfg, Ghost(s));
            },
        }
    }

    /// A token with no matching accumulator: its width is final at once, so
    /// its slot resolves immediately and the open accumulators just grow.
    fn scan_flat(&mut self, w: usize, i: usize, cfg: &Config, Ghost(s): Ghost<Seq<Token>>)
        requires
            old(self).inv(s, i as int, *cfg),
            i < s.len(),
            s.len() <= usize::MAX,
            s[i as int] is Text || s[i as int] is Deferred || s[i as int] is Overflow,
            w == token_width(s[i as int], cfg.margin as nat),
        ensures
            final(self).inv(s, i + 1, *cfg),
            final(self).head() == old(self).head(),
    {
        self.buf.push(Slot::Res(0));
        proof {
            let ghost pre = *old(self);
            assert forall|j: int|
                0 <= j < self.opens@.len() implies #[trigger] self.group_ok(
                s,
                i as int,
                *cfg,
                j,
            ) by {
                assert(pre.group_ok(s, i as int, *cfg, j));
            }
            assert forall|p: int| self.retired <= p < i implies self.res_ok(s, *cfg, p) by {
                assert(pre.res_ok(s, *cfg, p));
            }
            assert(width_at(s, i as int, cfg.margin as nat) == 0);
            assert(self.res_ok(s, *cfg, i as int));
            assert(self.inv_core(s, i + 1, i as int, *cfg));
            assert forall|p: int|
                self.retired <= p < i && (#[trigger] self.buf@[p
                    - self.retired]) is Pending implies self.covered(*cfg, p) by {
                assert(pre.buf@[p - pre.retired] is Pending);
                assert(pre.covered(*cfg, p));
            }
            assert(self.covered_upto(*cfg, i as int));
        }
        self.bump(w, Ghost(s), Ghost(i as int), cfg);
        proof {
            assert forall|p: int|
                self.retired <= p < i + 1 && (#[trigger] self.buf@[p
                    - self.retired]) is Pending implies self.covered(*cfg, p) by {
                assert(p < i);
            }
        }
    }

    /// A group opening: a new accumulator starts at zero, and the stack and
    /// the forward scans of every open accumulator deepen by one level.
    fn scan_begin(&mut self, i: usize, cfg: &Config, Ghost(s): Ghost<Seq<Token>>)
        requires
            old(self).inv(s, i as int, *cfg),
            i < s.len(),
            s.len() <= usize::MAX,
            s[i as int] is Begin,
        ensures
            final(self).inv(s, i + 1, *cfg),
            final(self).head() == old(self).head(),
    {
        let ghost m = cfg.margin as nat;
        let ghost k = self.opens@.len() as int;
        self.buf.push(Slot::Pending);
        self.opens.push(OpenGroup { begin_idx: i, begin_total: 0, brk: None });
        proof {
            assert forall|j: int| 0 <= j < k + 1 implies #[trigger] self.group_ok(s, i + 1, *cfg, j) by {
                if j < k {
                    assert(old(self).group_ok(s, i as int, *cfg, j));
                    let g = self.opens@[j];
                    let d = (k - 1 - j) as nat;
                    lemma_sum_snoc(s, g.begin_idx + 1, i as int, m);
                    assert(group_end(s, i as int, d) == group_end(s, i + 1, d + 1));
                    match g.brk {
                        Some(b) => {
                            lemma_sum_snoc(s, b.idx + 1, i as int, m);
                            assert(seg_end(s, i as int, d) == seg_end(s, i + 1, d + 1));
                        },
                        None => {},
                    }
                } else {
                    assert(sum_width(s, i + 1, i + 1, m) == 0);
                }
            }
            assert(self.ordered()) by {
                assert forall|j1: int, j2: int| 0 <= j1 < j2 < k + 1 implies group_before(
                    #[trigger] self.opens@[j1],
                    #[trigger] self.opens@[j2],
                ) by {
                    if j2 < k {
                        assert(old(self).ordered());
                        assert(group_before(old(self).opens@[j1], old(self).opens@[j2]));
                    } else {
                        assert(old(self).group_ok(s, i as int, *cfg, j1));
                    }
                }
            }
            assert forall|p: int|
                self.retired <= p < i + 1 && (#[trigger] self.buf@[p
                    - self.retired]) is Pending implies self.covered(*cfg, p) by {
                if p < i {
                    assert(old(self).covered(*cfg, p));
                    let j0 = choose|j0: int|
                        0 <= j0 < old(self).opens@.len() && covers(#[trigger] old(self).opens@[j0], *cfg, p);
                    assert(self.opens@[j0] == old(self).opens@[j0]);
                } else {
                    assert(self.opens@[k].begin_idx == p && self.opens@[k].begin_total
                        <= cfg.margin);
                }
            }
            assert forall|p: int| self.retired <= p < i + 1 implies self.res_ok(s, *cfg, p) by {
                if p < i {
                    assert(old(self).res_ok(s, *cfg, p));
                }
            }
            assert(wf_from(s, i + 1, (k + 1) as nat));
            assert(self.inv(s, i + 1, *cfg));
        }
    }

    /// A group closing: the group's last open break and then the group itself
    /// resolve to the widths accumulated so far, and the group leaves the
    /// stack; the remaining forward scans shallow by one level.
    #[verifier::rlimit(100)]
    fn scan_end(&mut self, i: usize, cfg: &Config, Ghost(s): Ghost<Seq<Token>>)
        requires
            old(self).inv(s, i as int, *cfg),
            i < s.len(),
            s.len() <= usize::MAX,
            s[i as int] is End,
        ensures
            final(self).inv(s, i + 1, *cfg),
            final(self).head() == old(self).head(),
    {
        let ghost m = cfg.margin as nat;
        proof {
            assert(self.opens@.len() > 0);
        }
        let kk = self.opens.len();
        let g = self.opens[kk - 1];
        proof {
            assert(old(self).group_ok(s, i as int, *cfg, kk - 1));
            assert(group_sorted(g)) by {
                assert(old(self).ordered());
            }
        }
        match g.brk {
            Some(b) => {
                if b.total <= cfg.margin {
                    proof {
                        assert(seg_end(s, b.idx + 1, 0) == i);
                        assert(width_at(s, b.idx as int, m) == b.total);
                    }
                    self.buf.set(b.idx - self.retired, Slot::Res(b.total));
                }
            },
            None => {},
        }
        let ghost mid1 = *self;
        if g.begin_total <= cfg.margin {
            proof {
                assert(group_end(s, g.begin_idx + 1, 0) == i);
                assert(width_at(s, g.begin_idx as int, m) == g.begin_total);
            }
            self.buf.set(g.begin_idx - self.retired, Slot::Res(g.begin_total));
        }
        self.opens.pop();
        self.buf.push(Slot::Res(0));
        proof {
            let ghost pre = *old(self);
            assert forall|j: int| 0 <= j < kk - 1 implies #[trigger] self.group_ok(s, i + 1, *cfg, j) by {
                assert(pre.group_ok(s, i as int, *cfg, j));
                assert(pre.ordered());
                assert(group_before(pre.opens@[j], pre.opens@[kk - 1]));
                assert(group_sorted(pre.opens@[j]));
                let gj = self.opens@[j];
                let d = (kk - 1 - j) as nat;
                lemma_sum_snoc(s, gj.begin_idx + 1, i as int, m);
                assert(group_end(s, i as int, d) == group_end(s, i + 1, (d - 1) as nat));
                match gj.brk {
                    Some(b) => {
                        lemma_sum_snoc(s, b.idx + 1, i as int, m);
                        assert(seg_end(s, i as int, d) == seg_end(s, i + 1, (d - 1) as nat));
                    },
                    None => {},
                }
            }
            assert(self.ordered()) by {
                assert(pre.ordered());
                assert(forall|j: int|
                    0 <= j < kk - 1 ==> #[trigger] self.opens@[j] == pre.opens@[j]);
            }
            assert forall|p: int| self.retired <= p < i + 1 implies self.res_ok(s, *cfg, p) by {
                if p < i {
                    assert(pre.res_ok(s, *cfg, p));
                } else {
                    assert(width_at(s, p, m) == 0);
                }
            }
            assert forall|p: int|
                self.retired <= p < i + 1 && (#[trigger] self.buf@[p
                    - self.retired]) is Pending implies self.covered(*cfg, p) by {
                assert(p < i);
                assert(pre.buf@[p - pre.retired] is Pending);
                assert(pre.covered(*cfg, p));
                let j0 = choose|j0: int|
                        0 <= j0 < pre.opens@.len() && covers(#[trigger] pre.opens@[j0], *cfg, p);
                assert(j0 < kk - 1) by {
                    if j0 == kk - 1 {
                        assert(!(self.buf@[p - self.retired] is Pending));
                    }
                }
                assert(self.opens@[j0] == pre.opens@[j0]);
            }
            assert(self.inv(s, i + 1, *cfg));
        }
    }

    /// A break: it finalizes the previous break of the innermost group (the
    /// segment between them is complete), grows every other accumulator by
    /// its inline width, and opens its own accumulator.
    #[verifier::rlimit(100)]
    fn scan_break(&mut self, kc: BreakKind, i: usize, cfg: &Config, Ghost(s): Ghost<Seq<Token>>)
        requires
            old(self).inv(s, i as int, *cfg),
            i < s.len(),
            s.len() <= usize::MAX,
            s[i as int] is Break,
            s[i as int]->Break_0 == kc,
        ensures
            final(self).inv(s, i + 1, *cfg),
            final(self).head() == old(self).head(),
    {
        let ghost m = cfg.margin as nat;
        proof {
            assert(self.opens@.len() > 0);
        }
        let kk = self.opens.len();
        let g = self.opens[kk - 1];
        proof {
            assert(old(self).group_ok(s, i as int, *cfg, kk - 1));
            assert(group_sorted(g)) by {
                assert(old(self).ordered());
            }
        }
        match g.brk {
            Some(b) => {
                if b.total <= cfg.margin {
                    proof {
                        assert(seg_end(s, b.idx + 1, 0) == i);
                        assert(width_at(s, b.idx as int, m) == b.total);
                    }
                    self.buf.set(b.idx - self.retired, Slot::Res(b.total));
                }
                self.opens.set(
                    kk - 1,
                    OpenGroup { begin_idx: g.begin_idx, begin_total: g.begin_total, brk: None },
                );
            },
            None => {},
        }
        self.buf.push(Slot::Pending);
        proof {
            let ghost pre = *old(self);
            assert forall|j: int| 0 <= j < kk implies #[trigger] self.group_ok(s, i as int, *cfg, j) by {
                assert(pre.group_ok(s, i as int, *cfg, j));
                if j < kk - 1 {
                    assert(pre.ordered());
                    assert(group_before(pre.opens@[j], pre.opens@[kk - 1]));
                    assert(group_sorted(pre.opens@[j]));
                }
            }
            assert(self.ordered()) by {
                assert(pre.ordered());
                assert(forall|j: int|
                    0 <= j < kk - 1 ==> #[trigger] self.opens@[j] == pre.opens@[j]);
                assert(forall|j: int|
                    0 <= j < kk - 1 ==> group_before(#[trigger] pre.opens@[j], pre.opens@[kk - 1]));
            }
            assert forall|p: int| self.retired <= p < i implies self.res_ok(s, *cfg, p) by {
                assert(pre.res_ok(s, *cfg, p));
            }
            assert(self.res_ok(s, *cfg, i as int));
            assert(self.inv_core(s, i + 1, i as int, *cfg));
            assert forall|p: int|
                self.retired <= p < i && (#[trigger] self.buf@[p
                    - self.retired]) is Pending implies self.covered(*cfg, p) by {
                assert(pre.buf@[p - pre.retired] is Pending);
                assert(pre.covered(*cfg, p));
                let j0 = choose|j0: int|
                        0 <= j0 < pre.opens@.len() && covers(#[trigger] pre.opens@[j0], *cfg, p);
                if j0 == kk - 1 {
                    if pre.opens@[j0].begin_idx == p && pre.opens@[j0].begin_total <= cfg.margin {
                        assert(self.opens@[j0].begin_idx == p && self.opens@[j0].begin_total
                            <= cfg.margin);
                    } else {
                        assert(!(self.buf@[p - self.retired] is Pending));
                    }
                } else {
                    assert(self.opens@[j0] == pre.opens@[j0]);
                }
            }
        }
        let w: usize = match kc {
            BreakKind::Space => 1,
            BreakKind::Empty => 0,
            BreakKind::Hard => cfg.margin + 1,
        };
        proof {
            assert(w == token_width(s[i as int], m));
        }
        self.bump(w, Ghost(s), Ghost(i as int), cfg);
        let ghost mid = *self;
        let t0: usize = if w > cfg.margin {
            cfg.margin + 1
        } else {
            w
        };
        let g2 = self.opens[kk - 1];
        self.opens.set(
            kk - 1,
            OpenGroup {
                begin_idx: g2.begin_idx,
                begin_total: g2.begin_total,
                brk: Some(BreakAcc { idx: i, total: t0 }),
            },
        );
        if t0 > cfg.margin {
            proof {
                lemma_seg_end_ge(s, i + 1, 0);
                crate::token::lemma_sum_nonneg(s, i + 1, seg_end(s, i + 1, 0), m);
                assert(width_at(s, i as int, m) == m + 1);
            }
            self.buf.set(i - self.retired, Slot::Res(cfg.margin + 1));
        }
        proof {
            assert(mid.group_ok(s, i + 1, *cfg, kk - 1));
            assert forall|j: int| 0 <= j < kk implies #[trigger] self.group_ok(s, i + 1, *cfg, j) by {
                assert(mid.group_ok(s, i + 1, *cfg, j));
                if j < kk - 1 {
                    assert(mid.ordered());
                    assert(group_before(mid.opens@[j], mid.opens@[kk - 1]));
                    assert(group_sorted(mid.opens@[j]));
                } else {
                    assert(sum_width(s, i + 1, i + 1, m) == 0);
                }
            }
            assert(self.ordered()) by {
                assert(mid.ordered());
                assert(forall|j: int|
                    0 <= j < kk - 1 ==> #[trigger] self.opens@[j] == mid.opens@[j]);
                assert(forall|j: int|
                    0 <= j < kk - 1 ==> group_before(#[trigger] mid.opens@[j], mid.opens@[kk - 1]));
            }
            assert forall|p: int| self.retired <= p < i + 1 implies self.res_ok(s, *cfg, p) by {
                assert(mid.res_ok(s, *cfg, p));
            }
            assert forall|p: int|
                self.retired <= p < i + 1 && (#[trigger] self.buf@[p
                    - self.retired]) is Pending implies self.covered(*cfg, p) by {
                if p < i {
                    assert(mid.buf@[p - mid.retired] is Pending);
                    assert(mid.covered(*cfg, p));
                    let j0 = choose|j0: int|
                        0 <= j0 < mid.opens@.len() && covers(#[trigger] mid.opens@[j0], *cfg, p);
                    if j0 == kk - 1 {
                        assert(self.opens@[j0].begin_idx == p && self.opens@[j0].begin_total
                            <= cfg.margin);
                    } else {
                        assert(self.opens@[j0] == mid.opens@[j0]);
                    }
                } else {
                    assert(self.opens@[kk - 1].brk matches Some(b) && b.idx == p && b.total
                        <= cfg.margin);
                }
            }
            assert(self.inv(s, i + 1, *cfg));
        }
    }

    /// Retires the front slot if its width is resolved, handing the width
    /// back; the printer consumes the corresponding token.
    pub fn take_front(
        &mut self,
        Ghost(s): Ghost<Seq<Token>>,
        Ghost(i): Ghost<int>,
        cfg: &Config,
    ) -> (r: Option<usize>)
        requires
            old(self).inv(s, i, *cfg),
        ensures
            final(self).inv(s, i, *cfg),
            match r {
                Some(w) => {
                    &&& final(self).head() == old(self).head() + 1
                    &&& old(self).head() < i
                    &&& w == width_at(s, old(self).head(), cfg.margin as nat)
                    &&& w <= cfg.margin + 1
                    &&& final(self).buffered() == old(self).buffered() - 1
                },
                None => *final(self) == *old(self) && (final(self).buffered() == 0
                    || final(self).front_pending()),
            },
    {
        if self.buf.len() == 0 {
            return None;
        }
        let front = self.buf[0];
        match front {
            Slot::Res(w) => {
                proof {
                    assert(old(self).res_ok(s, *cfg, old(self).retired as int));
                }
                let ghost pre = *self;
                self.buf.remove(0);
                self.retired = self.retired + 1;
                proof {
                    assert forall|j: int| 0 <= j < self.opens@.len() implies self.group_ok(
                        s,
                        i,
                        *cfg,
                        j,
                    ) by {
                        assert(pre.group_ok(s, i, *cfg, j));
                        let g = self.opens@[j];
                        if g.begin_total <= cfg.margin {
                            assert(pre.buf@[g.begin_idx - pre.retired] is Pending);
                            assert(g.begin_idx != pre.retired);
                        }
                        match g.brk {
                            Some(b) => {
                                if b.total <= cfg.margin {
                                    assert(pre.buf@[b.idx - pre.retired] is Pending);
                                    assert(b.idx != pre.retired);
                                }
                            },
                            None => {},
                        }
                    }
                    assert forall|p: int| self.retired <= p < i implies self.res_ok(
                        s,
                        *cfg,
                        p,
                    ) by {
                        assert(pre.res_ok(s, *cfg, p));
                        assert(self.buf@[p - self.retired] == pre.buf@[p - pre.retired]);
                    }
                    assert forall|p: int|
                        self.retired <= p < i && (#[trigger] self.buf@[p
                            - self.retired]) is Pending implies self.covered(*cfg, p) by {
                        assert(pre.buf@[p - pre.retired] is Pending);
                        assert(pre.covered(*cfg, p));
                        let j0 = choose|j0: int|
                        0 <= j0 < pre.opens@.len() && covers(#[trigger] pre.opens@[j0], *cfg, p);
                        assert(self.opens@[j0] == pre.opens@[j0]);
                    }
                    assert(self.inv(s, i, *cfg));
                }
                Some(w)
            },
            Slot::Pending => None,
        }
    }

    /// The two logical cursors tile the consumed prefix: what was retired
    /// plus what is still buffered is exactly what was scanned.
    pub proof fn lemma_cursors(self, s: Seq<Token>, i: int, cfg: Config)
        requires
            self.inv(s, i, cfg),
        ensures
            self.head() + self.buffered() == i,
            0 <= self.head(),
            0 <= self.buffered(),
    {
    }

    /// Bounded memory: whenever the buffer's head still waits for a width,
    /// everything buffered behind it sums to at most one margin of unbroken
    /// width.  The head waits precisely because an accumulator opened at its
    /// position is still live, and a live accumulator has seen every later
    /// token without crossing the margin — so the buffer never holds more
    /// than roughly one margin's worth of pending material, however long the
    /// stream and however deep the nesting.
    pub proof fn lemma_bounded_buffer(self, s: Seq<Token>, i: int, cfg: Config)
        requires
            self.inv(s, i, cfg),
            self.front_pending(),
        ensures
            sum_width(s, self.head() + 1, i, cfg.margin as nat) <= cfg.margin,
    {
        let p = self.retired as int;
        assert(self.buf@[p - self.retired] is Pending);
        assert(self.covered(cfg, p));
        let j0 = choose|j0: int|
            0 <= j0 < self.opens@.len() && covers(#[trigger] self.opens@[j0], cfg, p);
        assert(self.group_ok(s, i, cfg, j0));
        let g = self.opens@[j0];
        if g.begin_idx == p && g.begin_total <= cfg.margin {
            assert(cap_width(sum_width(s, p + 1, i, cfg.margin as nat), cfg.margin as nat)
                <= cfg.margin);
        } else {
            let b = g.brk->Some_0;
            assert(b.idx == p && b.total <= cfg.margin);
        }
    }

    /// Once the whole stream has been consumed, nothing can still wait for a
    /// width: every group has closed, so no accumulator is open.
    pub proof fn lemma_complete(self, s: Seq<Token>, cfg: Config)
        requires
            self.inv(s, s.len() as int, cfg),
        ensures
            !self.front_pending(),
    {
        if self.front_pending() {
            assert(self.opens@.len() == 0);
            let p = self.retired as int;
            assert(self.buf@[p - self.retired] is Pending);
            assert(p < s.len());
            assert(self.covered(cfg, p));
            assert(false);
        }
    }
}

/// The group scan never moves backwards.
pub proof fn lemma_group_end_ge(s: Seq<Token>, i: int, d: nat)
    requires
        0 <= i <= s.len(),
    ensures
        group_end(s, i, d) >= i,
{
    crate::token::lemma_group_end_bounds(s, i, d);
}

/// The segment scan never moves backwards.
pub proof fn lemma_seg_end_ge(s: Seq<Token>, i: int, d: nat)
    requires
        0 <= i <= s.len(),
    ensures
        seg_end(s, i, d) >= i,
{
    crate::token::lemma_seg_end_bounds(s, i, d);
}

} // verus!
