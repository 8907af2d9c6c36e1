//! [`DebugPls`] for the standard range types: `a..b`, `a..`, `..b`, `..`,
//! `a..=b` and `..=b`, each rendered as the matching range expression.
//!
//! vstd specifies `Range` (with visible fields) and `RangeInclusive` (behind
//! a view); the other three bounded shapes carry no vstd specification, so
//! they are declared to Verus here — their fields are public in std.
use crate::formatter::{process, wrote, DebugPls, Formatter};
use crate::fragment::Fragment;
use crate::token::{is_text_tok, Token};
use core::ops::Range;
use core::ops::RangeFrom;
use core::ops::RangeFull;
use core::ops::RangeInclusive;
use core::ops::RangeTo;
use core::ops::RangeToInclusive;
use vstd::prelude::*;

verus! {

/// Declares `RangeFrom` to Verus; std documents its one public field,
/// `start`.
#[verifier::external_type_specification]
#[verifier::reject_recursive_types(Idx)]
pub struct ExRangeFrom<Idx>(RangeFrom<Idx>);

/// Declares `RangeTo` to Verus; std documents its one public field, `end`.
#[verifier::external_type_specification]
#[verifier::reject_recursive_types(Idx)]
pub struct ExRangeTo<Idx>(RangeTo<Idx>);

/// Declares `RangeToInclusive` to Verus; std documents its one public field,
/// `end`.
#[verifier::external_type_specification]
#[verifier::reject_recursive_types(Idx)]
pub struct ExRangeToInclusive<Idx>(RangeToInclusive<Idx>);

/// Declares the field-less `RangeFull` to Verus.
#[verifier::external_type_specification]
pub struct ExRangeFull(RangeFull);

/// Relies on `RangeInclusive::start`: std documents that it returns the
/// lower bound the range was created with, which is the `start` of vstd's
/// view of the type.
pub assume_specification<Idx>[ RangeInclusive::<Idx>::start ](r: &RangeInclusive<Idx>) -> (ret:
    &Idx)
    ensures
        *ret == r@.start,
;

/// Relies on `RangeInclusive::end`: std documents that it returns the upper
/// bound the range was created with, which is the `end` of vstd's view of
/// the type.
pub assume_specification<Idx>[ RangeInclusive::<Idx>::end ](r: &RangeInclusive<Idx>) -> (ret: &Idx)
    ensures
        *ret == r@.end,
;

/// `out` is the fragment `a`, the operator text `mid`, then the fragment
/// `b`: the shape of a range expression.
pub open spec fn infix_tokens(a: Seq<Token>, mid: Seq<char>, b: Seq<Token>, out: Seq<Token>) -> bool {
    let n = a.len() as int;
    &&& out.len() == a.len() + 1 + b.len()
    &&& out.subrange(0, n) == a
    &&& is_text_tok(out[n], mid)
    &&& out.subrange(n + 1, out.len() as int) == b
}

impl<D: DebugPls> DebugPls for Range<D> {
    fn fmt(&self, f: Formatter) -> (r: Formatter)
        ensures
            exists|s: Seq<Token>, e: Seq<Token>|
                #![auto]
                wrote(self.start, s) && wrote(self.end, e) && infix_tokens(
                    s,
                    ".."@,
                    e,
                    r.output(),
                ),
    {
        let start = process(&self.start);
        let end = process(&self.end);
        let ghost sv = start@;
        let ghost ev = end@;
        let r = f.write_expr(start.concat(Fragment::text("..")).concat(end));
        proof {
            assert(r.output().subrange(0, sv.len() as int) =~= sv);
            assert(r.output().subrange(sv.len() as int + 1, r.output().len() as int) =~= ev);
            assert(infix_tokens(sv, ".."@, ev, r.output()));
        }
        r
    }
}

impl<D: DebugPls> DebugPls for RangeFrom<D> {
    fn fmt(&self, f: Formatter) -> (r: Formatter)
        ensures
            exists|s: Seq<Token>|
                #[trigger] wrote(self.start, s) && infix_tokens(
                    s,
                    ".."@,
                    Seq::<Token>::empty(),
                    r.output(),
                ),
    {
        let start = process(&self.start);
        let ghost sv = start@;
        let r = f.write_expr(start.concat(Fragment::text("..")));
        proof {
            assert(r.output().subrange(0, sv.len() as int) =~= sv);
            assert(r.output().subrange(sv.len() as int + 1, r.output().len() as int)
                =~= Seq::<Token>::empty());
            assert(infix_tokens(sv, ".."@, Seq::<Token>::empty(), r.output()));
        }
        r
    }
}

impl<D: DebugPls> DebugPls for RangeTo<D> {
    fn fmt(&self, f: Formatter) -> (r: Formatter)
        ensures
            exists|e: Seq<Token>|
                #[trigger] wrote(self.end, e) && infix_tokens(
                    Seq::<Token>::empty(),
                    ".."@,
                    e,
                    r.output(),
                ),
    {
        let end = process(&self.end);
        let ghost ev = end@;
        let r = f.write_expr(Fragment::text("..").concat(end));
        proof {
            assert(r.output().subrange(0, 0) =~= Seq::<Token>::empty());
            assert(r.output().subrange(1, r.output().len() as int) =~= ev);
            assert(infix_tokens(Seq::<Token>::empty(), ".."@, ev, r.output()));
        }
        r
    }
}

impl DebugPls for RangeFull {
    fn fmt(&self, f: Formatter) -> (r: Formatter)
        ensures
            r.output().len() == 1,
            is_text_tok(r.output()[0], ".."@),
    {
        f.write_expr(Fragment::text(".."))
    }
}

impl<D: DebugPls> DebugPls for RangeInclusive<D> {
    fn fmt(&self, f: Formatter) -> (r: Formatter)
        ensures
            exists|s: Seq<Token>, e: Seq<Token>|
                #![auto]
                wrote(self@.start, s) && wrote(self@.end, e) && infix_tokens(
                    s,
                    "..="@,
                    e,
                    r.output(),
                ),
    {
        let start = process(self.start());
        let end = process(self.end());
        let ghost sv = start@;
        let ghost ev = end@;
        let r = f.write_expr(start.concat(Fragment::text("..=")).concat(end));
        proof {
            assert(r.output().subrange(0, sv.len() as int) =~= sv);
            assert(r.output().subrange(sv.len() as int + 1, r.output().len() as int) =~= ev);
            assert(infix_tokens(sv, "..="@, ev, r.output()));
        }
        r
    }
}

impl<D: DebugPls> DebugPls for RangeToInclusive<D> {
    fn fmt(&self, f: Formatter) -> (r: Formatter)
        ensures
            exists|e: Seq<Token>|
                #[trigger] wrote(self.end, e) && infix_tokens(
                    Seq::<Token>::empty(),
                    "..="@,
                    e,
                    r.output(),
                ),
    {
        let end = process(&self.end);
        let ghost ev = end@;
        let r = f.write_expr(Fragment::text("..=").concat(end));
        proof {
            assert(r.output().subrange(0, 0) =~= Seq::<Token>::empty());
            assert(r.output().subrange(1, r.output().len() as int) =~= ev);
            assert(infix_tokens(Seq::<Token>::empty(), "..="@, ev, r.output()));
        }
        r
    }
}

} // verus!
