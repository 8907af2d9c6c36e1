use dbg_pls::{
    pretty, BreakKind, Config, DebugPls, Formatter, Fragment, GroupBody, GroupMode, Token,
};

fn cfg(margin: usize, step: usize, budget: usize) -> Config {
    Config::new(margin, step, budget)
}

#[test]
fn config_clamps_to_positive_counts() {
    let c = Config::new(0, 0, 0);
    assert_eq!(c.margin, 1);
    assert_eq!(c.indent_step, 1);
    assert_eq!(c.min_line_budget, 1);
    let d = Config::default();
    assert_eq!(d.margin, 89);
    assert_eq!(d.indent_step, 4);
    assert_eq!(d.min_line_budget, 60);
}

#[test]
fn render_rejects_unbalanced_streams() {
    let c = Config::default();
    assert!(dbg_pls::render(&vec![Token::End], &c).is_err());
    assert!(dbg_pls::render(&vec![Token::Begin(GroupMode::Consistent, 4)], &c).is_err());
    assert!(dbg_pls::render(&vec![Token::Break(BreakKind::Space, 0)], &c).is_err());
    assert!(
        dbg_pls::render(
            &vec![Token::Deferred(String::from("a"), String::from("b"))],
            &c
        )
        .is_err()
    );
    let ok = vec![
        Token::Begin(GroupMode::Consistent, 4),
        Token::Text(String::from("x")),
        Token::End,
    ];
    assert_eq!(dbg_pls::render(&ok, &c).unwrap(), "x");
}

#[test]
fn rendering_twice_is_identical() {
    let mut body = GroupBody::new();
    body.push_text("alpha");
    body.push_break(BreakKind::Space, 0);
    body.push_text("beta");
    let frag = Fragment::group(GroupMode::Consistent, 4, body);
    let c = cfg(7, 4, 3);
    let first = frag.render(&c);
    let second = frag.render(&c);
    assert_eq!(first, second);
    assert_eq!(first, "alpha\n    beta");
}

#[test]
fn consistent_group_breaks_all_or_nothing() {
    // The same group, under two margins: wide enough means no break at all,
    // too narrow means every break becomes a newline.
    let build = || {
        let mut body = GroupBody::new();
        body.push_text("aa");
        body.push_break(BreakKind::Space, 0);
        body.push_text("bb");
        body.push_break(BreakKind::Space, 0);
        body.push_text("cc");
        Fragment::group(GroupMode::Consistent, 2, body)
    };
    assert_eq!(build().render(&cfg(8, 2, 2)), "aa bb cc");
    assert_eq!(build().render(&cfg(4, 2, 2)), "aa\n  bb\n  cc");
}

#[test]
fn inconsistent_group_packs_greedily() {
    let mut body = GroupBody::new();
    body.push_text("aa");
    body.push_break(BreakKind::Space, 0);
    body.push_text("bb");
    body.push_break(BreakKind::Space, 0);
    body.push_text("cc");
    let frag = Fragment::group(GroupMode::Inconsistent, 2, body);
    // Margin 5 holds "aa bb" on the first line; only the last chunk wraps.
    assert_eq!(frag.render(&cfg(5, 2, 2)), "aa bb\n  cc");
}

#[test]
fn deferred_follows_group_break_status() {
    let unbroken = {
        let mut body = GroupBody::new();
        body.push_text("x");
        body.push_deferred("B", "U");
        Fragment::group(GroupMode::Consistent, 2, body)
    };
    assert_eq!(unbroken.render(&cfg(10, 2, 2)), "xU");
    let broken = {
        let mut body = GroupBody::new();
        body.push_text("x");
        body.push_break(BreakKind::Hard, 0);
        body.push_deferred("B", "U");
        Fragment::group(GroupMode::Consistent, 0, body)
    };
    assert_eq!(broken.render(&cfg(10, 2, 2)), "x\nB");
}

#[test]
fn scenario_small_struct_fits_margin_thirty() {
    let frag = Formatter::new()
        .debug_struct("Demo")
        .field("foo", &5i32)
        .field("bar", &"hi")
        .finish()
        .into_fragment();
    let out = frag.render(&cfg(30, 4, 10));
    assert_eq!(out, "Demo { foo: 5, bar: \"hi\" }");
    assert_eq!(out.len(), 26);
}

#[test]
fn scenario_wide_field_forces_break() {
    let long = "cccccccccccccccccccccccccccccccccccccccc"; // 40 characters
    assert_eq!(long.len(), 40);
    let frag = Formatter::new()
        .debug_struct("Demo")
        .field("foo", &5i32)
        .field("bar", &long)
        .finish()
        .into_fragment();
    let out = frag.render(&cfg(30, 4, 10));
    let expected = format!("Demo {{\n    foo: 5,\n    bar: \"{}\",\n}}", long);
    assert_eq!(out, expected);
}

#[test]
fn scenario_inconsistent_list_breaks_only_oversized_entry() {
    let big = {
        let mut body = GroupBody::new();
        body.push_text("Big {");
        body.push_break(BreakKind::Space, 0);
        body.push_text("x: 123456789012345");
        body.push_deferred(",", "");
        body.push_break(BreakKind::Space, -4);
        body.push_text("}");
        Fragment::group(GroupMode::Consistent, 4, body)
    };
    let mut list = GroupBody::new();
    list.push_text("[");
    list.push_break(BreakKind::Empty, 0);
    let shorts_before = ["a0", "a1", "a2", "a3", "a4"];
    for s in shorts_before {
        list.push_text(s);
        list.push_text(",");
        list.push_break(BreakKind::Space, 0);
    }
    list.push_fragment(big);
    list.push_text(",");
    list.push_break(BreakKind::Space, 0);
    let shorts_after = ["a5", "a6", "a7"];
    for s in shorts_after {
        list.push_text(s);
        list.push_text(",");
        list.push_break(BreakKind::Space, 0);
    }
    list.push_text("a8");
    list.push_break(BreakKind::Empty, -4);
    list.push_text("]");
    let frag = Fragment::group(GroupMode::Inconsistent, 4, list);
    let out = frag.render(&cfg(20, 4, 4));
    let expected = "\
[a0, a1, a2, a3, a4,
    Big {
        x: 123456789012345,
    }, a5, a6, a7,
    a8]";
    assert_eq!(out, expected);
    // only the oversized entry's sub-group broke: the nine short entries
    // share lines, and every line fits the margin except the one holding
    // the single token that is wider than the margin on its own.
    for line in out.lines() {
        assert!(line.len() <= 20 || line.contains("123456789012345"));
    }
}

#[test]
fn scenario_margin_one_terminates_on_deep_nesting() {
    let mut frag = Fragment::text("x");
    let mut i = 0;
    while i < 50 {
        let mut body = GroupBody::new();
        body.push_text("a");
        body.push_break(BreakKind::Space, 0);
        body.push_fragment(frag);
        frag = Fragment::group(GroupMode::Consistent, 1, body);
        i += 1;
    }
    let out = frag.render(&cfg(1, 1, 1));
    let expected = format!("{}x", "a\n".repeat(50));
    assert_eq!(out, expected);
}

#[test]
fn integers_render_exactly() {
    assert_eq!(pretty(&0u64), "0");
    assert_eq!(pretty(&10usize), "10");
    assert_eq!(pretty(&u64::MAX), "18446744073709551615");
    assert_eq!(pretty(&-1i32), "-1");
    assert_eq!(pretty(&i64::MIN), "-9223372036854775808");
    assert_eq!(pretty(&true), "true");
    assert_eq!(pretty(&false), "false");
}

#[test]
fn strings_render_with_escapes() {
    assert_eq!(pretty(&"hello"), "\"hello\"");
    assert_eq!(pretty(&"a\"b\\c\nd\te\rf"), "\"a\\\"b\\\\c\\nd\\te\\rf\"");
    assert_eq!(pretty(&String::from("owned")), "\"owned\"");
}

#[test]
fn options_results_and_vectors_render() {
    assert_eq!(pretty(&Some(3i32)), "Some(3)");
    assert_eq!(pretty(&Option::<i32>::None), "None");
    assert_eq!(pretty(&Result::<i32, &str>::Ok(1)), "Ok(1)");
    assert_eq!(pretty(&Result::<i32, &str>::Err("x")), "Err(\"x\")");
    assert_eq!(pretty(&vec![10i32, 11]), "[10, 11]");
    assert_eq!(pretty(&Vec::<i32>::new()), "[]");
}

#[test]
fn tuples_render_with_single_element_comma() {
    let two = Formatter::new()
        .debug_tuple()
        .field(&10i32)
        .field(&"Hello")
        .finish()
        .into_fragment();
    assert_eq!(two.render(&Config::default()), "(10, \"Hello\")");
    let one = Formatter::new()
        .debug_tuple()
        .field(&10i32)
        .finish()
        .into_fragment();
    assert_eq!(one.render(&Config::default()), "(10,)");
    let zero = Formatter::new().debug_tuple().finish().into_fragment();
    assert_eq!(zero.render(&Config::default()), "()");
}

#[test]
fn empty_builders_render_compactly() {
    let s = Formatter::new()
        .debug_struct("Demo")
        .finish()
        .into_fragment();
    assert_eq!(s.render(&Config::default()), "Demo {}");
    let ts = Formatter::new()
        .debug_tuple_struct("Foo")
        .finish()
        .into_fragment();
    assert_eq!(ts.render(&Config::default()), "Foo()");
    let l = Formatter::new().debug_list().finish().into_fragment();
    assert_eq!(l.render(&Config::default()), "[]");
    let m = Formatter::new().debug_map().finish().into_fragment();
    assert_eq!(m.render(&Config::default()), "{}");
    let set = Formatter::new().debug_set().finish().into_fragment();
    assert_eq!(set.render(&Config::default()), "{}");
}

#[test]
fn non_exhaustive_struct_keeps_ellipsis() {
    let frag = Formatter::new()
        .debug_struct("Demo")
        .field("foo", &5i32)
        .finish_non_exhaustive()
        .into_fragment();
    assert_eq!(frag.render(&Config::default()), "Demo { foo: 5, .. }");
}

#[test]
fn tuple_struct_renders_fields() {
    let frag = Formatter::new()
        .debug_tuple_struct("Foo")
        .field(&10i32)
        .field(&"Hello")
        .finish()
        .into_fragment();
    assert_eq!(frag.render(&Config::default()), "Foo(10, \"Hello\")");
}

#[test]
fn boxes_chars_and_small_tuples_render() {
    assert_eq!(pretty(&Box::new(7i32)), "7");
    assert_eq!(pretty(&'x'), "'x'");
    assert_eq!(pretty(&'\''), "'\\''");
    assert_eq!(pretty(&'\n'), "'\\n'");
    assert_eq!(pretty(&'"'), "'\"'");
    assert_eq!(pretty(&(10i32,)), "(10,)");
    assert_eq!(pretty(&(10i32, "Hello")), "(10, \"Hello\")");
    assert_eq!(pretty(&(1i32, true, "a")), "(1, true, \"a\")");
}

#[test]
fn verbatim_carriers_render_unquoted() {
    assert_eq!(pretty(&dbg_pls::Str("a + b")), "a + b");
    assert_eq!(pretty(&dbg_pls::ColorStr("x * 2")), "x * 2");
}

#[test]
fn overflow_marker_forces_surrounding_break() {
    let with_marker = {
        let mut body = GroupBody::new();
        body.push_text("ab");
        body.push_break(BreakKind::Space, 0);
        body.push_text("cd");
        body.push_overflow();
        Fragment::group(GroupMode::Consistent, 2, body)
    };
    // the content easily fits the margin; the marker alone breaks it
    assert_eq!(with_marker.render(&cfg(40, 2, 2)), "ab\n  cd");
    let without = {
        let mut body = GroupBody::new();
        body.push_text("ab");
        body.push_break(BreakKind::Space, 0);
        body.push_text("cd");
        Fragment::group(GroupMode::Consistent, 2, body)
    };
    assert_eq!(without.render(&cfg(40, 2, 2)), "ab cd");
}

#[test]
fn write_expr_composes_fragments() {
    let frag = Fragment::text("left")
        .concat(Fragment::text(" <> "))
        .concat(Fragment::text("right"));
    let f = Formatter::new().write_expr(frag);
    assert_eq!(f.into_fragment().render(&Config::default()), "left <> right");
}

struct Chain {
    depth: u32,
}

impl DebugPls for Chain {
    fn fmt(&self, f: Formatter) -> Formatter {
        if self.depth == 0 {
            f.debug_ident("End")
        } else {
            f.debug_tuple_struct("Next")
                .field(&Chain {
                    depth: self.depth - 1,
                })
                .finish()
        }
    }
}

#[test]
fn deep_right_nesting_renders_and_terminates() {
    let out = pretty(&Chain { depth: 200 });
    assert!(out.starts_with("Next("));
    assert_eq!(out.matches("Next(").count(), 200);
    assert!(out.contains("End"));
    // rendering again gives the same text
    assert_eq!(pretty(&Chain { depth: 200 }), out);
}
