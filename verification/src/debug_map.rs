//! A helper designed to assist with creation of [`DebugPls`] implementations
//! for maps: output in the shape `{ [k] = v; .. }`, always one entry per
//! line.  The key is rendered as a one-element list so that an oversized key
//! wraps on its own lines.
use crate::debug_list::list_group_tokens;
use crate::debug_set::braced_block_tokens;
use crate::formatter::{process, wrote, DebugPls, Formatter};
use crate::fragment::{Fragment, GroupBody};
use crate::token::{is_text_tok, BreakKind, GroupMode, Token, DEFAULT_INDENT};
use vstd::prelude::*;

verus! {

/// `post` is `pre` plus one map entry: a line break when entries came
/// before, the key as a bracketed one-element list, ` = `, the value
/// fragment, and the closing semicolon.
pub open spec fn map_entry_appended(
    pre: Seq<Token>,
    had: bool,
    key: Seq<Token>,
    v: Seq<Token>,
    post: Seq<Token>,
) -> bool {
    let n = pre.len() as int;
    let sep: int = if had {
        1
    } else {
        0
    };
    let kl = key.len() as int + 7;
    &&& post.len() == pre.len() + sep + kl + 1 + v.len() + 1
    &&& post.subrange(0, n) == pre
    &&& (had ==> post[n] == Token::Break(BreakKind::Hard, 0))
    &&& list_group_tokens(key, post.subrange(n + sep, n + sep + kl))
    &&& is_text_tok(post[n + sep + kl], " = "@)
    &&& post.subrange(n + sep + kl + 1, n + sep + kl + 1 + v.len()) == v
    &&& is_text_tok(post[post.len() - 1], ";"@)
}

/// `post` is `pre` extended by the keyed entries in order, each as
/// [`map_entry_appended`] describes; the state before the last entry is
/// determined by the lengths.
pub open spec fn map_entries_appended(
    pre: Seq<Token>,
    had: bool,
    keys: Seq<Seq<Token>>,
    vals: Seq<Seq<Token>>,
    post: Seq<Token>,
) -> bool
    decreases keys.len(),
{
    if keys.len() == 0 {
        post == pre
    } else {
        let sep: int = if had || keys.len() > 1 {
            1
        } else {
            0
        };
        let entry_len = sep + keys.last().len() + 7 + 1 + vals.last().len() + 1;
        let mid = post.subrange(0, post.len() - entry_len);
        &&& vals.len() == keys.len()
        &&& post.len() >= entry_len + pre.len()
        &&& map_entry_appended(mid, had || keys.len() > 1, keys.last(), vals.last(), post)
        &&& map_entries_appended(pre, had, keys.drop_last(), vals.drop_last(), mid)
    }
}

/// Extending a keyed entry run by one more entry at the back.
pub proof fn lemma_map_entries_appended_grow(
    pre: Seq<Token>,
    had: bool,
    keys: Seq<Seq<Token>>,
    vals: Seq<Seq<Token>>,
    mid: Seq<Token>,
    key: Seq<Token>,
    v: Seq<Token>,
    post: Seq<Token>,
)
    requires
        keys.len() == vals.len(),
        map_entries_appended(pre, had, keys, vals, mid),
        map_entry_appended(mid, had || keys.len() > 0, key, v, post),
    ensures
        map_entries_appended(pre, had, keys.push(key), vals.push(v), post),
{
    let gk = keys.push(key);
    let gv = vals.push(v);
    assert(gk.drop_last() =~= keys);
    assert(gv.drop_last() =~= vals);
    assert(gk.last() == key);
    assert(gv.last() == v);
    assert(map_entries_appended(pre, had, gk.drop_last(), gv.drop_last(), mid));
    assert(map_entry_appended(mid, had || gk.len() > 1, gk.last(), gv.last(), post));
    assert(map_entries_appended(pre, had, gk, gv, post));
}

/// Builder for map-shaped debug output.
pub struct DebugMap {
    formatter: Formatter,
    body: GroupBody,
    key: Option<Fragment>,
    has_entries: bool,
}

impl DebugMap {
    /// The accumulated interior is a valid group body, and so is a pending
    /// key, if one is held.
    pub closed spec fn wf(self) -> bool {
        &&& self.body.wf()
        &&& match self.key {
            Some(k) => k.wf(),
            None => true,
        }
    }

    /// The tokens of the entries accumulated so far.
    pub closed spec fn body_view(self) -> Seq<Token> {
        self.body@
    }

    /// At least one entry was completed.
    pub closed spec fn has_entries_spec(self) -> bool {
        self.has_entries
    }

    /// A key was written and still waits for its value.
    pub closed spec fn has_pending_key(self) -> bool {
        self.key is Some
    }

    /// The tokens of the pending key.
    pub closed spec fn pending_key_view(self) -> Seq<Token> {
        match self.key {
            Some(k) => k@,
            None => Seq::empty(),
        }
    }

    pub(crate) fn new(formatter: Formatter) -> (r: DebugMap)
        ensures
            r.wf(),
            r.body_view() == Seq::<Token>::empty(),
            !r.has_pending_key(),
            !r.has_entries_spec(),
    {
        DebugMap { formatter, body: GroupBody::new(), key: None, has_entries: false }
    }

    /// Adds the key part to the map output.  Each key must be followed by a
    /// value before the next key starts.
    #[must_use]
    pub fn key<V: DebugPls>(self, key: &V) -> (r: DebugMap)
        requires
            self.wf(),
            !self.has_pending_key(),
        ensures
            r.wf(),
            r.has_pending_key(),
            wrote(*key, r.pending_key_view()),
            r.body_view() == self.body_view(),
            r.has_entries_spec() == self.has_entries_spec(),
    {
        let frag = process(key);
        DebugMap {
            formatter: self.formatter,
            body: self.body,
            key: Some(frag),
            has_entries: self.has_entries,
        }
    }

    /// Adds the value part to the map output, completing the entry opened by
    /// the preceding `key`.
    #[must_use]
    pub fn value<V: DebugPls>(self, value: &V) -> (r: DebugMap)
        requires
            self.wf(),
            self.has_pending_key(),
        ensures
            r.wf(),
            !r.has_pending_key(),
            r.has_entries_spec(),
            exists|v: Seq<Token>|
                #[trigger] wrote(*value, v) && map_entry_appended(
                    self.body_view(),
                    self.has_entries_spec(),
                    self.pending_key_view(),
                    v,
                    r.body_view(),
                ),
    {
        let frag = process(value);
        let ghost vv = frag@;
        let ghost pre = self.body@;
        let ghost had = self.has_entries;
        let key = match self.key {
            Some(k) => k,
            None => Fragment::new(),
        };
        let ghost kv = key@;
        let mut key_list = GroupBody::new();
        key_list.push_text("[");
        key_list.push_break(BreakKind::Empty, 0);
        let ghost lead = key_list@;
        key_list.push_fragment(key);
        key_list.push_deferred(",", "");
        key_list.push_break(BreakKind::Empty, -4);
        key_list.push_text("]");
        let kg = Fragment::group(GroupMode::Consistent, DEFAULT_INDENT as u32, key_list);
        proof {
            let n = kv.len() as int;
            let out = kg@;
            let inb = out.subrange(1, out.len() - 1);
            assert forall|q: int| 0 <= q < n implies out[3 + q] == kv[q] by {
                assert(inb[2 + q] == out[3 + q]);
                assert((lead + kv)[2 + q] == kv[q]);
            }
            assert(out.subrange(3, 3 + n) =~= kv);
            assert(inb[0] == out[1]);
            assert(inb[1] == out[2]);
            assert(inb[2 + n] == out[3 + n]);
            assert(inb[3 + n] == out[4 + n]);
            assert(inb[4 + n] == out[5 + n]);
            assert(list_group_tokens(kv, kg@));
        }
        let mut b = self.body;
        if self.has_entries {
            b.push_break(BreakKind::Hard, 0);
        }
        let ghost b1 = b@;
        b.push_fragment(kg);
        b.push_text(" = ");
        let ghost b3 = b@;
        b.push_fragment(frag);
        b.push_text(";");
        proof {
            let n = pre.len() as int;
            let sep: int = if had {
                1
            } else {
                0
            };
            let kl = kv.len() as int + 7;
            assert(b@.subrange(0, n) =~= pre);
            assert(b@.subrange(n + sep, n + sep + kl) =~= kg@);
            assert(list_group_tokens(kv, b@.subrange(n + sep, n + sep + kl)));
            assert(is_text_tok(b@[n + sep + kl], " = "@));
            assert(b@.subrange(n + sep + kl + 1, n + sep + kl + 1 + vv.len() as int) =~= vv);
            assert(is_text_tok(b@[b@.len() - 1], ";"@));
            assert(map_entry_appended(pre, had, kv, vv, b@));
        }
        DebugMap { formatter: self.formatter, body: b, key: None, has_entries: true }
    }

    /// Adds the entry to the map output.
    #[must_use]
    pub fn entry<K: DebugPls, V: DebugPls>(self, key: &K, value: &V) -> (r: DebugMap)
        requires
            self.wf(),
            !self.has_pending_key(),
        ensures
            r.wf(),
            !r.has_pending_key(),
            r.has_entries_spec(),
            exists|kv: Seq<Token>, vv: Seq<Token>|
                {
                    &&& #[trigger] wrote(*key, kv)
                    &&& #[trigger] wrote(*value, vv)
                    &&& map_entry_appended(
                        self.body_view(),
                        self.has_entries_spec(),
                        kv,
                        vv,
                        r.body_view(),
                    )
                },
    {
        let keyed = self.key(key);
        let ghost kv = keyed.pending_key_view();
        let r = keyed.value(value);
        proof {
            let vv = choose|vv: Seq<Token>|
                #[trigger] wrote(*value, vv) && map_entry_appended(
                    keyed.body_view(),
                    keyed.has_entries_spec(),
                    kv,
                    vv,
                    r.body_view(),
                );
            assert(wrote(*key, kv) && wrote(*value, vv) && map_entry_appended(
                self.body_view(),
                self.has_entries_spec(),
                kv,
                vv,
                r.body_view(),
            ));
        }
        r
    }

    /// Adds all the entries to the map output, in order.
    #[must_use]
    pub fn entries<K: DebugPls, V: DebugPls>(self, entries: &Vec<(K, V)>) -> (r: DebugMap)
        requires
            self.wf(),
            !self.has_pending_key(),
        ensures
            r.wf(),
            !r.has_pending_key(),
            r.has_entries_spec() == (self.has_entries_spec() || entries@.len() > 0),
            exists|keys: Seq<Seq<Token>>, vals: Seq<Seq<Token>>|
                #![auto]
                {
                    &&& keys.len() == entries@.len()
                    &&& vals.len() == entries@.len()
                    &&& forall|k: int| 0 <= k < keys.len() ==> wrote(entries@[k].0, keys[k])
                    &&& forall|k: int| 0 <= k < vals.len() ==> wrote(entries@[k].1, vals[k])
                    &&& map_entries_appended(
                        self.body_view(),
                        self.has_entries_spec(),
                        keys,
                        vals,
                        r.body_view(),
                    )
                },
    {
        let ghost pre = self.body_view();
        let ghost had0 = self.has_entries_spec();
        let mut me = self;
        let ghost mut keys: Seq<Seq<Token>> = Seq::empty();
        let ghost mut vals: Seq<Seq<Token>> = Seq::empty();
        let mut i: usize = 0;
        let n = entries.len();
        while i < n
            invariant
                me.wf(),
                !me.has_pending_key(),
                n == entries@.len(),
                i <= n,
                keys.len() == i as int,
                vals.len() == i as int,
                forall|k: int| 0 <= k < i ==> wrote(entries@[k].0, #[trigger] keys[k]),
                forall|k: int| 0 <= k < i ==> wrote(entries@[k].1, #[trigger] vals[k]),
                map_entries_appended(pre, had0, keys, vals, me.body_view()),
                me.has_entries_spec() == (had0 || i > 0),
            decreases n - i,
        {
            let ghost mid = me.body_view();
            let ghost hadi = me.has_entries_spec();
            me = me.entry(&entries[i].0, &entries[i].1);
            proof {
                let (kv, vv) = choose|kv: Seq<Token>, vv: Seq<Token>|
                    {
                        &&& #[trigger] wrote(entries@[i as int].0, kv)
                        &&& #[trigger] wrote(entries@[i as int].1, vv)
                        &&& map_entry_appended(mid, hadi, kv, vv, me.body_view())
                    };
                lemma_map_entries_appended_grow(
                    pre,
                    had0,
                    keys,
                    vals,
                    mid,
                    kv,
                    vv,
                    me.body_view(),
                );
                keys = keys.push(kv);
                vals = vals.push(vv);
            }
            i = i + 1;
        }
        me
    }

    /// Closes off the map: a bare `{}` when no entry was completed, else the
    /// [`braced_block_tokens`] group around the accumulated entries.  A key
    /// still waiting for its value is not rendered.
    pub fn finish(self) -> (r: Formatter)
        requires
            self.wf(),
        ensures
            r.wf(),
            !self.has_entries_spec() ==> r.output().len() == 1 && is_text_tok(
                r.output()[0],
                "{}"@,
            ),
            self.has_entries_spec() ==> braced_block_tokens(self.body_view(), r.output()),
    {
        let ghost bdy = self.body@;
        if !self.has_entries {
            self.formatter.write_expr(Fragment::text("{}"))
        } else {
            let mut inner = GroupBody::new();
            inner.push_text("{");
            inner.push_break(BreakKind::Hard, 0);
            let ghost lead = inner@;
            inner.push_body(self.body);
            inner.push_break(BreakKind::Hard, -4);
            inner.push_text("}");
            let ghost innerf = inner@;
            let r = self.formatter.write_expr(
                Fragment::group(GroupMode::Consistent, DEFAULT_INDENT as u32, inner),
            );
            proof {
                let n = bdy.len() as int;
                let out = r.output();
                let inb = out.subrange(1, out.len() - 1);
                assert(inb == innerf);
                assert forall|q: int| 0 <= q < n implies out[3 + q] == bdy[q] by {
                    assert(inb[2 + q] == out[3 + q]);
                    assert((lead + bdy)[2 + q] == bdy[q]);
                }
                assert(out.subrange(3, 3 + n) =~= bdy);
                assert(inb[0] == out[1]);
                assert(inb[1] == out[2]);
                assert(inb[2 + n] == out[3 + n]);
                assert(inb[3 + n] == out[4 + n]);
                assert(braced_block_tokens(bdy, out));
            }
            r
        }
    }
}

} // verus!
