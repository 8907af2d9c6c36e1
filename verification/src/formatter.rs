//! The formatting front door: the trait that debug implementations provide,
//! and the formatter handle they receive, through which the builders for
//! structs, tuples, lists, maps and sets are reached.
use crate::debug_list::DebugList;
use crate::debug_map::DebugMap;
use crate::debug_set::DebugSet;
use crate::debug_struct::DebugStruct;
use crate::debug_tuple::DebugTuple;
use crate::debug_tuple_struct::DebugTupleStruct;
use crate::fragment::Fragment;
use crate::token::{Config, Token};
use vstd::prelude::*;

verus! {

/// The handle a [`DebugPls`] implementation fills in: it carries the
/// expression fragment written so far.
pub struct Formatter {
    expr: Fragment,
}

impl Formatter {
    /// The tokens written into this formatter.
    pub closed spec fn output(self) -> Seq<Token> {
        self.expr@
    }

    /// Whatever was written is a balanced, self-contained fragment.
    pub closed spec fn wf(self) -> bool {
        self.expr.wf()
    }

    /// A fresh formatter with nothing written.
    pub fn new() -> (r: Formatter)
        ensures
            r.wf(),
            r.output() == Seq::<Token>::empty(),
    {
        Formatter { expr: Fragment::new() }
    }

    /// Writes a whole expression fragment into the formatter, replacing
    /// anything written before.  This is the escape hatch for expression
    /// shapes the builders do not cover.
    pub fn write_expr(self, expr: Fragment) -> (r: Formatter)
        requires
            expr.wf(),
        ensures
            r.wf(),
            r.output() == expr@,
    {
        Formatter { expr }
    }

    /// Writes a bare identifier: the rendering of a unit struct or variant.
    pub fn debug_ident(self, name: &str) -> (r: Formatter)
        ensures
            r.wf(),
            r.output().len() == 1,
            r.output()[0] is Text,
            r.output()[0]->Text_0@ == name@,
    {
        Formatter { expr: Fragment::text(name) }
    }

    /// A builder for struct-shaped output: `Name { field: value, .. }`.
    /// The builder starts with the given name and no fields.
    pub fn debug_struct(self, name: &str) -> (r: DebugStruct)
        ensures
            r.wf(),
            r.name_view() == name@,
            r.body_view() == Seq::<Token>::empty(),
            !r.has_fields_spec(),
    {
        DebugStruct::new(self, name)
    }

    /// A builder for tuple-shaped output: `(a, b)`, starting empty.
    pub fn debug_tuple(self) -> (r: DebugTuple)
        ensures
            r.wf(),
            r.body_view() == Seq::<Token>::empty(),
            r.count_spec() == 0,
    {
        DebugTuple::new(self)
    }

    /// A builder for tuple-struct-shaped output: `Name(a, b)`.  The builder
    /// starts with the given name and no fields.
    pub fn debug_tuple_struct(self, name: &str) -> (r: DebugTupleStruct)
        ensures
            r.wf(),
            r.name_view() == name@,
            r.body_view() == Seq::<Token>::empty(),
            !r.has_fields_spec(),
    {
        DebugTupleStruct::new(self, name)
    }

    /// A builder for list-shaped output: `[a, b]`, starting empty.
    pub fn debug_list(self) -> (r: DebugList)
        ensures
            r.wf(),
            r.body_view() == Seq::<Token>::empty(),
            !r.has_entries_spec(),
    {
        DebugList::new(self)
    }

    /// A builder for map-shaped output: `{ [k] = v; .. }`, starting empty,
    /// with no key pending.
    pub fn debug_map(self) -> (r: DebugMap)
        ensures
            r.wf(),
            r.body_view() == Seq::<Token>::empty(),
            !r.has_pending_key(),
            !r.has_entries_spec(),
    {
        DebugMap::new(self)
    }

    /// A builder for set-shaped output: `{ a; b }`, starting empty.
    pub fn debug_set(self) -> (r: DebugSet)
        ensures
            r.wf(),
            r.body_view() == Seq::<Token>::empty(),
            !r.has_entries_spec(),
    {
        DebugSet::new(self)
    }

    /// Takes the written fragment out.
    pub fn into_fragment(self) -> (r: Fragment)
        ensures
            r@ == self.output(),
            self.wf() ==> r.wf(),
    {
        self.expr
    }
}

/// Debug formatting in the shape of Rust values.  Implementations describe
/// their value through the formatter's builders and must hand back a
/// well-formed formatter; everything else — layout, line breaks, indentation
/// — is the engine's business.
pub trait DebugPls {
    /// Formats the value using the given formatter.
    fn fmt(&self, f: Formatter) -> (r: Formatter)
        ensures
            r.wf(),
    ;
}

/// Debug formatting that needs a context value alongside the formatted one.
pub trait DebugWith<W> {
    /// Formats the value, consulting the context `with`.
    fn fmt(&self, with: &W, f: Formatter) -> (r: Formatter)
        ensures
            r.wf(),
    ;
}

/// A carrier for text that is already code-shaped — a stringified
/// expression, say — written into the output verbatim.  The quick debugging
/// helpers print one of these next to the rendered value.
pub struct Str<'a>(pub &'a str);

impl<'a> DebugPls for Str<'a> {
    fn fmt(&self, f: Formatter) -> (r: Formatter) {
        f.write_expr(Fragment::text(self.0))
    }
}

/// The same carrier on the colored printing path: the library renders the
/// plain text, and a downstream coloring layer, where one is attached, may
/// re-tokenize it independently.
pub struct ColorStr<'a>(pub &'a str);

impl<'a> DebugPls for ColorStr<'a> {
    fn fmt(&self, f: Formatter) -> (r: Formatter) {
        f.write_expr(Fragment::text(self.0))
    }
}

/// Runs a value's [`DebugPls`] implementation and takes the fragment: the
/// result is exactly what the value's `fmt` wrote into a fresh formatter.
pub fn process<V: DebugPls>(value: &V) -> (r: Fragment)
    ensures
        r.wf(),
        wrote(*value, r@),
{
    let f0 = Formatter::new();
    let f1 = value.fmt(f0);
    let r = f1.into_fragment();
    proof {
        assert(call_ensures(V::fmt, (value, f0), f1));
        assert(wrote(*value, r@));
    }
    r
}

/// The token stream `toks` is one that `value`'s [`DebugPls::fmt`] can write
/// into a fresh (empty, well-formed) formatter.
pub open spec fn wrote<V: DebugPls>(value: V, toks: Seq<Token>) -> bool {
    exists|f0: Formatter, f1: Formatter|
        {
            &&& f0.wf()
            &&& f0.output() == Seq::<Token>::empty()
            &&& #[trigger] call_ensures(V::fmt, (&value, f0), f1)
            &&& toks == f1.output()
        }
}

/// Runs a value's [`DebugWith`] implementation and takes the fragment: the
/// result is exactly what the value's `fmt` wrote into a fresh formatter.
pub fn process_with<W, V: DebugWith<W>>(value: &V, with: &W) -> (r: Fragment)
    ensures
        r.wf(),
        wrote_with(*value, *with, r@),
{
    let f0 = Formatter::new();
    let f1 = value.fmt(with, f0);
    let r = f1.into_fragment();
    proof {
        assert(call_ensures(V::fmt, (value, with, f0), f1));
        assert(wrote_with(*value, *with, r@));
    }
    r
}

/// The token stream `toks` is one that `value`'s [`DebugWith::fmt`] can
/// write into a fresh formatter, against the context `with`.
pub open spec fn wrote_with<W, V: DebugWith<W>>(value: V, with: W, toks: Seq<Token>) -> bool {
    exists|f0: Formatter, f1: Formatter|
        {
            &&& f0.wf()
            &&& f0.output() == Seq::<Token>::empty()
            &&& #[trigger] call_ensures(V::fmt, (&value, &with, f0), f1)
            &&& toks == f1.output()
        }
}

/// Renders a value as pretty, code-shaped text: exactly the render, under
/// the default configuration, of the token stream the value's [`DebugPls`]
/// implementation wrote into a fresh formatter.
pub fn pretty<V: DebugPls>(value: &V) -> (r: String)
    ensures
        exists|toks: Seq<Token>|
            {
                &&& #[trigger] wrote(*value, toks)
                &&& crate::token::stream_wf(toks)
                &&& r@ == crate::printer::spec_render(toks, default_config())
            },
{
    let frag = process(value);
    let cfg = Config::default();
    let r = frag.render(&cfg);
    proof {
        assert(wrote(*value, frag@) && crate::token::stream_wf(frag@) && r@
            == crate::printer::spec_render(frag@, default_config()));
    }
    r
}

/// The configuration the high-level helpers render under.
pub open spec fn default_config() -> Config {
    Config {
        margin: crate::token::DEFAULT_MARGIN,
        indent_step: crate::token::DEFAULT_INDENT,
        min_line_budget: crate::token::DEFAULT_MIN_LINE,
    }
}

} // verus!
