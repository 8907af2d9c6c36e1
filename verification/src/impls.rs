//! [`DebugPls`] implementations for plain values: integers, booleans,
//! strings, vectors, options, results and ranges — together with the proved
//! decimal and string-escaping helpers they rest on.
use crate::debug_list::list_group_tokens;
use crate::debug_tuple::tuple_tokens;
use crate::debug_tuple_struct::tuple_struct_tokens;
use crate::formatter::{process, wrote, DebugPls, Formatter};
use crate::fragment::{appended_with_sep, entries_appended, Fragment};
use crate::token::{is_text_tok, BreakKind, Token};
use vstd::prelude::*;
use vstd::string::StrSliceExecFns;
use vstd::string::StringExecFns;

verus! {

/// The decimal digit character for `d`.
pub open spec fn digit_char(d: nat) -> char {
    if d == 0 {
        '0'
    } else if d == 1 {
        '1'
    } else if d == 2 {
        '2'
    } else if d == 3 {
        '3'
    } else if d == 4 {
        '4'
    } else if d == 5 {
        '5'
    } else if d == 6 {
        '6'
    } else if d == 7 {
        '7'
    } else if d == 8 {
        '8'
    } else {
        '9'
    }
}

/// The decimal digits of `n`, most significant first.
pub open spec fn dec_digits(n: nat) -> Seq<char>
    decreases n,
{
    if n < 10 {
        seq![digit_char(n)]
    } else {
        dec_digits(n / 10) + seq![digit_char(n % 10)]
    }
}

/// The decimal rendering of a signed value: a minus sign before the digits
/// of the magnitude.
pub open spec fn int_text(v: int) -> Seq<char> {
    if v < 0 {
        seq!['-'] + dec_digits((-v) as nat)
    } else {
        dec_digits(v as nat)
    }
}

/// One decimal digit as text.
fn digit_str(d: u64) -> (r: &'static str)
    requires
        d < 10,
    ensures
        r@ == seq![digit_char(d as nat)],
{
    proof {
        reveal_strlit("0");
        reveal_strlit("1");
        reveal_strlit("2");
        reveal_strlit("3");
        reveal_strlit("4");
        reveal_strlit("5");
        reveal_strlit("6");
        reveal_strlit("7");
        reveal_strlit("8");
        reveal_strlit("9");
    }
    if d == 0 {
        "0"
    } else if d == 1 {
        "1"
    } else if d == 2 {
        "2"
    } else if d == 3 {
        "3"
    } else if d == 4 {
        "4"
    } else if d == 5 {
        "5"
    } else if d == 6 {
        "6"
    } else if d == 7 {
        "7"
    } else if d == 8 {
        "8"
    } else {
        "9"
    }
}

/// Appends the decimal digits of `n`.
fn push_dec(out: &mut String, n: u64)
    ensures
        final(out)@ == old(out)@ + dec_digits(n as nat),
    decreases n,
{
    if n < 10 {
        out.append(digit_str(n));
    } else {
        push_dec(out, n / 10);
        out.append(digit_str(n % 10));
        proof {
            assert(old(out)@ + dec_digits((n / 10) as nat) + seq![digit_char((n % 10) as nat)]
                =~= old(out)@ + dec_digits(n as nat));
        }
    }
}

/// The decimal text of an unsigned value.
pub fn u64_text(n: u64) -> (r: String)
    ensures
        r@ == dec_digits(n as nat),
{
    let mut out = String::new();
    push_dec(&mut out, n);
    proof {
        assert(Seq::<char>::empty() + dec_digits(n as nat) =~= dec_digits(n as nat));
    }
    out
}

/// The decimal text of a signed value.
pub fn i64_text(n: i64) -> (r: String)
    ensures
        r@ == int_text(n as int),
{
    if n >= 0 {
        u64_text(n as u64)
    } else {
        let mag: u64 = ((-(n as i128)) as u64);
        let mut out = String::from_str("-");
        proof {
            reveal_strlit("-");
        }
        push_dec(&mut out, mag);
        proof {
            assert("-"@ =~= seq!['-']);
            assert(seq!['-'] + dec_digits(mag as nat) =~= int_text(n as int));
        }
        out
    }
}

/// How one character appears inside a double-quoted literal.
pub open spec fn escaped_char(c: char) -> Seq<char> {
    if c == '"' {
        seq!['\\', '"']
    } else if c == '\\' {
        seq!['\\', '\\']
    } else if c == '\n' {
        seq!['\\', 'n']
    } else if c == '\r' {
        seq!['\\', 'r']
    } else if c == '\t' {
        seq!['\\', 't']
    } else {
        seq![c]
    }
}

/// The escaped body of a double-quoted literal.
pub open spec fn escaped(s: Seq<char>) -> Seq<char>
    decreases s.len(),
{
    if s.len() == 0 {
        Seq::empty()
    } else {
        escaped_char(s[0]) + escaped(s.drop_first())
    }
}

/// A string as a double-quoted literal with the common escapes.  Characters
/// beyond quote, backslash and the three whitespace escapes are kept as they
/// are.
pub open spec fn quoted(s: Seq<char>) -> Seq<char> {
    seq!['"'] + escaped(s) + seq!['"']
}

/// `escaped` distributes over splitting off a prefix.
proof fn lemma_escaped_snoc(s: Seq<char>, i: int)
    requires
        0 <= i < s.len(),
    ensures
        escaped(s.take(i + 1)) == escaped(s.take(i)) + escaped_char(s[i]),
    decreases i,
{
    if i == 0 {
        assert(s.take(1).drop_first() =~= s.take(0));
        assert(escaped(s.take(0)) =~= Seq::<char>::empty());
        assert(escaped(s.take(1)) =~= escaped_char(s[0]));
        assert(escaped(s.take(0)) + escaped_char(s[0]) =~= escaped_char(s[0]));
    } else {
        lemma_escaped_snoc(s.drop_first(), i - 1);
        assert(s.take(i + 1).drop_first() =~= s.drop_first().take(i));
        assert(s.take(i).drop_first() =~= s.drop_first().take(i - 1));
        assert(s.drop_first()[i - 1] == s[i]);
        assert(escaped(s.take(i + 1)) == escaped_char(s[0]) + escaped(s.drop_first().take(i)));
        assert(escaped(s.take(i)) == escaped_char(s[0]) + escaped(s.drop_first().take(i - 1)));
        assert(escaped_char(s[0]) + (escaped(s.drop_first().take(i - 1)) + escaped_char(s[i]))
            =~= (escaped_char(s[0]) + escaped(s.drop_first().take(i - 1))) + escaped_char(s[i]));
    }
}

/// The escape sequence for a character that needs one, or empty text for a
/// character that stands for itself.
fn escaped_char_str(c: char) -> (r: &'static str)
    ensures
        (c == '"' || c == '\\' || c == '\n' || c == '\r' || c == '\t') ==> r@ == escaped_char(
            c,
        ),
        !(c == '"' || c == '\\' || c == '\n' || c == '\r' || c == '\t') ==> r@
            == Seq::<char>::empty(),
{
    proof {
        reveal_strlit("\\\"");
        reveal_strlit("\\\\");
        reveal_strlit("\\n");
        reveal_strlit("\\r");
        reveal_strlit("\\t");
        reveal_strlit("");
    }
    if c == '"' {
        "\\\""
    } else {
        if c == '\\' {
            "\\\\"
        } else {
            if c == '\n' {
                "\\n"
            } else {
                if c == '\r' {
                    "\\r"
                } else {
                    if c == '\t' {
                        "\\t"
                    } else {
                        ""
                    }
                }
            }
        }
    }
}

/// Renders a string as a double-quoted literal.
pub fn quote_str(s: &str) -> (r: String)
    ensures
        r@ == quoted(s@),
{
    proof {
        reveal_strlit("\"");
    }
    let mut out = String::from_str("\"");
    proof {
        assert(out@ =~= seq!['"']);
    }
    let n = s.unicode_len();
    let mut i: usize = 0;
    while i < n
        invariant
            n == s@.len(),
            i <= n,
            out@ == seq!['"'] + escaped(s@.take(i as int)),
        decreases n - i,
    {
        let c = s.get_char(i);
        let piece = escaped_char_str(c);
        proof {
            lemma_escaped_snoc(s@, i as int);
        }
        if piece.unicode_len() > 0 {
            out.append(piece);
        } else {
            let one = s.substring_char(i, i + 1);
            proof {
                assert(one@ =~= escaped_char(c));
            }
            out.append(one);
        }
        proof {
            assert(seq!['"'] + escaped(s@.take(i as int)) + escaped_char(s@[i as int]) =~= seq!['"']
                + escaped(s@.take(i + 1)));
        }
        i = i + 1;
    }
    proof {
        assert(s@.take(n as int) =~= s@);
    }
    out.append("\"");
    proof {
        assert(seq!['"'] + escaped(s@) + "\""@ =~= quoted(s@));
    }
    out
}

impl<'a, D: DebugPls> DebugPls for &'a D {
    fn fmt(&self, f: Formatter) -> (r: Formatter) {
        D::fmt(*self, f)
    }
}

impl<D: DebugPls> DebugPls for Box<D> {
    fn fmt(&self, f: Formatter) -> (r: Formatter) {
        D::fmt(&**self, f)
    }
}

impl DebugPls for bool {
    fn fmt(&self, f: Formatter) -> (r: Formatter)
        ensures
            r.output().len() == 1,
            is_text_tok(
                r.output()[0],
                if *self {
                    "true"@
                } else {
                    "false"@
                },
            ),
    {
        if *self {
            f.debug_ident("true")
        } else {
            f.debug_ident("false")
        }
    }
}

/// How one character appears inside a single-quoted literal: the quote
/// itself and the common control characters are escaped, everything else —
/// the double quote included — stands for itself.
pub open spec fn char_escaped(c: char) -> Seq<char> {
    if c == '\'' {
        seq!['\\', '\'']
    } else if c == '\\' {
        seq!['\\', '\\']
    } else if c == '\n' {
        seq!['\\', 'n']
    } else if c == '\r' {
        seq!['\\', 'r']
    } else if c == '\t' {
        seq!['\\', 't']
    } else {
        seq![c]
    }
}

/// A character as a single-quoted literal.
pub open spec fn char_quoted(c: char) -> Seq<char> {
    seq!['\''] + char_escaped(c) + seq!['\'']
}

/// Relies on `String::push`: std documents that it appends the given
/// character to the end of the string.
pub assume_specification [ String::push ](s: &mut String, ch: char)
    ensures
        final(s)@ == old(s)@.push(ch),
;

/// Renders a character as a single-quoted literal.
pub fn quote_char(c: char) -> (r: String)
    ensures
        r@ == char_quoted(c),
{
    proof {
        reveal_strlit("'");
        reveal_strlit("\\'");
        reveal_strlit("\\\\");
        reveal_strlit("\\n");
        reveal_strlit("\\r");
        reveal_strlit("\\t");
    }
    let mut out = String::from_str("'");
    if c == '\'' {
        out.append("\\'");
    } else if c == '\\' {
        out.append("\\\\");
    } else if c == '\n' {
        out.append("\\n");
    } else if c == '\r' {
        out.append("\\r");
    } else if c == '\t' {
        out.append("\\t");
    } else {
        out.push(c);
    }
    out.append("'");
    proof {
        assert(out@ =~= char_quoted(c));
    }
    out
}

impl DebugPls for char {
    fn fmt(&self, f: Formatter) -> (r: Formatter)
        ensures
            r.output().len() == 1,
            is_text_tok(r.output()[0], char_quoted(*self)),
    {
        f.write_expr(Fragment::text_owned(quote_char(*self)))
    }
}

impl DebugPls for u8 {
    fn fmt(&self, f: Formatter) -> (r: Formatter)
        ensures
            r.output().len() == 1,
            is_text_tok(r.output()[0], dec_digits(*self as nat)),
    {
        f.write_expr(Fragment::text_owned(u64_text(*self as u64)))
    }
}

impl DebugPls for u16 {
    fn fmt(&self, f: Formatter) -> (r: Formatter)
        ensures
            r.output().len() == 1,
            is_text_tok(r.output()[0], dec_digits(*self as nat)),
    {
        f.write_expr(Fragment::text_owned(u64_text(*self as u64)))
    }
}

impl DebugPls for u32 {
    fn fmt(&self, f: Formatter) -> (r: Formatter)
        ensures
            r.output().len() == 1,
            is_text_tok(r.output()[0], dec_digits(*self as nat)),
    {
        f.write_expr(Fragment::text_owned(u64_text(*self as u64)))
    }
}

impl DebugPls for u64 {
    fn fmt(&self, f: Formatter) -> (r: Formatter)
        ensures
            r.output().len() == 1,
            is_text_tok(r.output()[0], dec_digits(*self as nat)),
    {
        f.write_expr(Fragment::text_owned(u64_text(*self)))
    }
}

impl DebugPls for usize {
    fn fmt(&self, f: Formatter) -> (r: Formatter)
        ensures
            r.output().len() == 1,
            is_text_tok(r.output()[0], dec_digits(*self as nat)),
    {
        f.write_expr(Fragment::text_owned(u64_text(*self as u64)))
    }
}

impl DebugPls for i8 {
    fn fmt(&self, f: Formatter) -> (r: Formatter)
        ensures
            r.output().len() == 1,
            is_text_tok(r.output()[0], int_text(*self as int)),
    {
        f.write_expr(Fragment::text_owned(i64_text(*self as i64)))
    }
}

impl DebugPls for i16 {
    fn fmt(&self, f: Formatter) -> (r: Formatter)
        ensures
            r.output().len() == 1,
            is_text_tok(r.output()[0], int_text(*self as int)),
    {
        f.write_expr(Fragment::text_owned(i64_text(*self as i64)))
    }
}

impl DebugPls for i32 {
    fn fmt(&self, f: Formatter) -> (r: Formatter)
        ensures
            r.output().len() == 1,
            is_text_tok(r.output()[0], int_text(*self as int)),
    {
        f.write_expr(Fragment::text_owned(i64_text(*self as i64)))
    }
}

impl DebugPls for i64 {
    fn fmt(&self, f: Formatter) -> (r: Formatter)
        ensures
            r.output().len() == 1,
            is_text_tok(r.output()[0], int_text(*self as int)),
    {
        f.write_expr(Fragment::text_owned(i64_text(*self)))
    }
}

impl DebugPls for isize {
    fn fmt(&self, f: Formatter) -> (r: Formatter)
        ensures
            r.output().len() == 1,
            is_text_tok(r.output()[0], int_text(*self as int)),
    {
        f.write_expr(Fragment::text_owned(i64_text(*self as i64)))
    }
}

impl<'a> DebugPls for &'a str {
    fn fmt(&self, f: Formatter) -> (r: Formatter)
        ensures
            r.output().len() == 1,
            is_text_tok(r.output()[0], quoted((*self)@)),
    {
        f.write_expr(Fragment::text_owned(quote_str(*self)))
    }
}

impl DebugPls for String {
    fn fmt(&self, f: Formatter) -> (r: Formatter)
        ensures
            r.output().len() == 1,
            is_text_tok(r.output()[0], quoted(self@)),
    {
        f.write_expr(Fragment::text_owned(quote_str(self.as_str())))
    }
}

impl<D: DebugPls> DebugPls for Vec<D> {
    fn fmt(&self, f: Formatter) -> (r: Formatter)
        ensures
            self@.len() == 0 ==> r.output().len() == 1 && is_text_tok(r.output()[0], "[]"@),
            self@.len() > 0 ==> exists|frags: Seq<Seq<Token>>, body: Seq<Token>|
                #![auto]
                {
                    &&& frags.len() == self@.len()
                    &&& forall|k: int| 0 <= k < frags.len() ==> wrote(self@[k], frags[k])
                    &&& entries_appended(
                        Seq::<Token>::empty(),
                        false,
                        ","@,
                        Token::Break(BreakKind::Space, 0),
                        frags,
                        body,
                    )
                    &&& list_group_tokens(body, r.output())
                },
    {
        f.debug_list().entries(self).finish()
    }
}

impl<A: DebugPls> DebugPls for (A,) {
    fn fmt(&self, f: Formatter) -> (r: Formatter)
        ensures
            exists|v: Seq<Token>|
                #[trigger] wrote(self.0, v) && tuple_tokens(v, true, r.output()),
    {
        let tb0 = f.debug_tuple();
        let ghost pre = tb0.body_view();
        let tb1 = tb0.field(&self.0);
        proof {
            let v = choose|v: Seq<Token>|
                #[trigger] wrote(self.0, v) && appended_with_sep(
                    pre,
                    false,
                    ","@,
                    Token::Break(BreakKind::Space, 0),
                    v,
                    tb1.body_view(),
                );
            assert(tb1.body_view() =~= v);
        }
        tb1.finish()
    }
}

impl<A: DebugPls, B: DebugPls> DebugPls for (A, B) {
    fn fmt(&self, f: Formatter) -> (r: Formatter)
        ensures
            exists|v1: Seq<Token>, v2: Seq<Token>, body: Seq<Token>|
                #![auto]
                {
                    &&& wrote(self.0, v1)
                    &&& wrote(self.1, v2)
                    &&& appended_with_sep(
                        v1,
                        true,
                        ","@,
                        Token::Break(BreakKind::Space, 0),
                        v2,
                        body,
                    )
                    &&& tuple_tokens(body, false, r.output())
                },
    {
        let tb0 = f.debug_tuple();
        let ghost pre = tb0.body_view();
        let tb1 = tb0.field(&self.0);
        proof {
            let v1 = choose|v1: Seq<Token>|
                #[trigger] wrote(self.0, v1) && appended_with_sep(
                    pre,
                    false,
                    ","@,
                    Token::Break(BreakKind::Space, 0),
                    v1,
                    tb1.body_view(),
                );
            assert(tb1.body_view() =~= v1);
        }
        let tb2 = tb1.field(&self.1);
        tb2.finish()
    }
}

impl<A: DebugPls, B: DebugPls, C: DebugPls> DebugPls for (A, B, C) {
    fn fmt(&self, f: Formatter) -> (r: Formatter)
        ensures
            exists|v1: Seq<Token>, v2: Seq<Token>, v3: Seq<Token>, b2: Seq<Token>, body: Seq<
                Token,
            >|
                #![auto]
                {
                    &&& wrote(self.0, v1)
                    &&& wrote(self.1, v2)
                    &&& wrote(self.2, v3)
                    &&& appended_with_sep(v1, true, ","@, Token::Break(BreakKind::Space, 0), v2, b2)
                    &&& appended_with_sep(
                        b2,
                        true,
                        ","@,
                        Token::Break(BreakKind::Space, 0),
                        v3,
                        body,
                    )
                    &&& tuple_tokens(body, false, r.output())
                },
    {
        let tb0 = f.debug_tuple();
        let ghost pre = tb0.body_view();
        let tb1 = tb0.field(&self.0);
        proof {
            let v1 = choose|v1: Seq<Token>|
                #[trigger] wrote(self.0, v1) && appended_with_sep(
                    pre,
                    false,
                    ","@,
                    Token::Break(BreakKind::Space, 0),
                    v1,
                    tb1.body_view(),
                );
            assert(tb1.body_view() =~= v1);
        }
        let tb2 = tb1.field(&self.1);
        let tb3 = tb2.field(&self.2);
        tb3.finish()
    }
}

impl<T: DebugPls> DebugPls for Option<T> {
    fn fmt(&self, f: Formatter) -> (r: Formatter)
        ensures
            self is Some ==> exists|v: Seq<Token>|
                #[trigger] wrote(self->0, v) && tuple_struct_tokens("Some"@, v, r.output()),
            self is None ==> r.output().len() == 1 && is_text_tok(r.output()[0], "None"@),
    {
        match self {
            Some(t) => {
                let ts0 = f.debug_tuple_struct("Some");
                let ghost pre = ts0.body_view();
                let ts1 = ts0.field(t);
                proof {
                    let v = choose|v: Seq<Token>|
                        #[trigger] wrote(*t, v) && appended_with_sep(
                            pre,
                            false,
                            ","@,
                            Token::Break(BreakKind::Space, 0),
                            v,
                            ts1.body_view(),
                        );
                    assert(ts1.body_view() =~= v);
                }
                ts1.finish()
            },
            None => f.debug_ident("None"),
        }
    }
}

impl<T: DebugPls, E: DebugPls> DebugPls for Result<T, E> {
    fn fmt(&self, f: Formatter) -> (r: Formatter)
        ensures
            self is Ok ==> exists|v: Seq<Token>|
                #[trigger] wrote(self->Ok_0, v) && tuple_struct_tokens("Ok"@, v, r.output()),
            self is Err ==> exists|v: Seq<Token>|
                #[trigger] wrote(self->Err_0, v) && tuple_struct_tokens("Err"@, v, r.output()),
    {
        match self {
            Ok(t) => {
                let ts0 = f.debug_tuple_struct("Ok");
                let ghost pre = ts0.body_view();
                let ts1 = ts0.field(t);
                proof {
                    let v = choose|v: Seq<Token>|
                        #[trigger] wrote(*t, v) && appended_with_sep(
                            pre,
                            false,
                            ","@,
                            Token::Break(BreakKind::Space, 0),
                            v,
                            ts1.body_view(),
                        );
                    assert(ts1.body_view() =~= v);
                }
                ts1.finish()
            },
            Err(e) => {
                let ts0 = f.debug_tuple_struct("Err");
                let ghost pre = ts0.body_view();
                let ts1 = ts0.field(e);
                proof {
                    let v = choose|v: Seq<Token>|
                        #[trigger] wrote(*e, v) && appended_with_sep(
                            pre,
                            false,
                            ","@,
                            Token::Break(BreakKind::Space, 0),
                            v,
                            ts1.body_view(),
                        );
                    assert(ts1.body_view() =~= v);
                }
                ts1.finish()
            },
        }
    }
}

} // verus!
