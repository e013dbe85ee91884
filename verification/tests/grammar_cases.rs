use survey_module::{
    comment, parse_grid, parse_loop, parse_loop_grid, parse_module, parse_question,
    parse_question_loop_grid, parse_tag, parse_whitespace_or_comment,
    take_until_next_module_item, ErrorKind, ModuleItem, ParseError, Question, Tag,
};

fn err(kind: ErrorKind, position: usize) -> ParseError {
    ParseError { kind, position }
}

#[test]
fn rescanning_the_remainder_stops_at_once() {
    let inputs = [
        "This is the first question without the header [1] hi [Q2] this is the second question",
        "¿Cuántas comidas comiste hoy? <loop> [L1] boo",
        "// [Q0] hidden\ntext <grid> a [Q1] b",
        "no boundary at all",
        "",
    ];
    for input in inputs {
        let (rest, _) = take_until_next_module_item(input);
        assert_eq!(take_until_next_module_item(rest), (rest, ""));
    }
}

#[test]
fn prefix_and_remainder_make_up_the_input() {
    let input = "intro // [X] no\n more [y] <b> <loop> tail";
    let (rest, prefix) = take_until_next_module_item(input);
    assert_eq!(prefix, "intro // [X] no\n more [y] <b> ");
    assert_eq!(rest, "<loop> tail");
    assert_eq!(format!("{}{}", prefix, rest), input);
}

#[test]
fn short_and_odd_inputs_have_no_boundary() {
    for input in ["", "<", "[", "<loo", "<gri", "[q1]", "[1]", "<Loop>", "<loé>", "/", "//"] {
        assert_eq!(take_until_next_module_item(input), ("", input));
    }
    assert_eq!(take_until_next_module_item("<loop"), ("<loop", ""));
    assert_eq!(take_until_next_module_item("<grid"), ("<grid", ""));
    assert_eq!(take_until_next_module_item("[Q"), ("[Q", ""));
}

#[test]
fn uppercase_is_the_unicode_property() {
    assert_eq!(
        take_until_next_module_item("a [École] b"),
        ("[École] b", "a ")
    );
    assert_eq!(take_until_next_module_item("a [école] b"), ("", "a [école] b"));
    assert_eq!(take_until_next_module_item("a [Ω] b"), ("[Ω] b", "a "));
}

#[test]
fn a_comment_hides_boundaries_to_the_end_of_its_line_only() {
    assert_eq!(take_until_next_module_item("// [Q1] <loop>"), ("", "// [Q1] <loop>"));
    assert_eq!(
        take_until_next_module_item("a // [Q1]\n// <grid>\nb [Q2]"),
        ("[Q2]", "a // [Q1]\n// <grid>\nb ")
    );
    assert_eq!(take_until_next_module_item("a / [Q1]"), ("[Q1]", "a / "));
    assert_eq!(take_until_next_module_item("/// [Q1]\n[Q2]"), ("[Q2]", "/// [Q1]\n"));
}

#[test]
fn separators_are_blanks_and_whole_comments() {
    assert_eq!(
        parse_whitespace_or_comment("  // a\n\t\r\n// b\n  [Q1]"),
        ("[Q1]", "")
    );
    assert_eq!(parse_whitespace_or_comment("// no line feed"), ("", ""));
    assert_eq!(parse_whitespace_or_comment("x // c"), ("x // c", ""));
    assert_eq!(parse_whitespace_or_comment(""), ("", ""));
    assert_eq!(parse_whitespace_or_comment("\u{a0}[Q1]"), ("\u{a0}[Q1]", ""));
    assert_eq!(parse_whitespace_or_comment(" / [Q1]"), ("/ [Q1]", ""));
}

#[test]
fn a_comment_is_read_with_its_line_feed() {
    assert_eq!(comment("// hi\nrest"), Ok(("rest", " hi")));
    assert_eq!(comment("//x"), Ok(("", "x")));
    assert_eq!(comment("//"), Ok(("", "")));
    assert_eq!(comment("//\n\n"), Ok(("\n", "")));
    assert_eq!(comment("/ x"), Err(err(ErrorKind::NoMatch, 0)));
    assert_eq!(comment(""), Err(err(ErrorKind::NoMatch, 0)));
}

#[test]
fn question_errors() {
    assert_eq!(parse_question("abc"), Err(err(ErrorKind::NoMatch, 0)));
    assert_eq!(parse_question(""), Err(err(ErrorKind::NoMatch, 0)));
    assert_eq!(
        parse_question("[Q1 never closed"),
        Err(err(ErrorKind::UnterminatedHeader, 1))
    );
    assert_eq!(parse_question("["), Err(err(ErrorKind::UnterminatedHeader, 1)));
}

#[test]
fn a_question_takes_any_header_and_stops_at_the_next_boundary() {
    assert_eq!(
        parse_question("[1] lower case header [Q2] x"),
        Ok(("[Q2] x", ModuleItem::new_question("1", "lower case header")))
    );
    assert_eq!(
        parse_question("[]"),
        Ok(("", ModuleItem::new_question("", "")))
    );
    assert_eq!(
        parse_question("[Q1 //]body [Q2]x"),
        Ok(("[Q2]x", ModuleItem::new_question("Q1 //", "body")))
    );
    assert_eq!(
        parse_question("[ Q1 displayif=a ]\n text // [Q9]\n more <grid>"),
        Ok((
            "<grid>",
            ModuleItem::new_question("Q1 displayif=a", "text // [Q9]\n more")
        ))
    );
}

#[test]
fn tag_errors() {
    assert_eq!(parse_tag("grid>"), Err(err(ErrorKind::NoMatch, 0)));
    assert_eq!(parse_tag(""), Err(err(ErrorKind::NoMatch, 0)));
    assert_eq!(parse_tag("<fail>"), Err(err(ErrorKind::UnknownTag, 1)));
    assert_eq!(parse_tag("<"), Err(err(ErrorKind::UnknownTag, 1)));
    assert_eq!(parse_tag("< \t fail>"), Err(err(ErrorKind::UnknownTag, 2)));
    assert_eq!(parse_tag("<   fail>"), Err(err(ErrorKind::UnknownTag, 4)));
    assert_eq!(parse_tag("<\tgrid>"), Err(err(ErrorKind::UnknownTag, 1)));
    assert_eq!(
        parse_tag("< \tloop id=\"a\" >x"),
        Err(err(ErrorKind::UnknownTag, 2))
    );
    assert_eq!(parse_tag("<Grid>"), Err(err(ErrorKind::UnknownTag, 1)));
    assert_eq!(parse_tag("<\ngrid>"), Err(err(ErrorKind::UnknownTag, 1)));
    assert_eq!(
        parse_tag("<grid id=1"),
        Err(err(ErrorKind::UnterminatedTagAttributes, 5))
    );
    assert_eq!(
        parse_tag("<  loop"),
        Err(err(ErrorKind::UnterminatedTagAttributes, 7))
    );
}

#[test]
fn a_tag_may_have_spaces_before_its_name_and_text_after_it() {
    assert_eq!(
        parse_tag("<   loop id=\"a\" >x"),
        Ok(("x", Tag::new("loop", "id=\"a\"")))
    );
    assert_eq!(parse_tag("<gridlock>x"), Ok(("x", Tag::new("grid", "lock"))));
    assert_eq!(parse_tag("<loop>"), Ok(("", Tag::new("loop", ""))));
}

#[test]
fn group_errors() {
    assert_eq!(parse_grid("abc"), Err(err(ErrorKind::UnterminatedGroup, 0)));
    assert_eq!(parse_grid("abc</loop>"), Err(err(ErrorKind::UnterminatedGroup, 0)));
    assert_eq!(parse_loop("abc</grid>"), Err(err(ErrorKind::UnterminatedGroup, 0)));
    assert_eq!(
        parse_loop_grid("<grid>abc"),
        Err(err(ErrorKind::UnterminatedGroup, 6))
    );
    assert_eq!(
        parse_loop_grid("<loop id=1>abc</grid>"),
        Err(err(ErrorKind::UnterminatedGroup, 11))
    );
    assert_eq!(parse_loop_grid("[Q1]"), Err(err(ErrorKind::NoMatch, 0)));
    assert_eq!(parse_loop_grid("<b>"), Err(err(ErrorKind::UnknownTag, 1)));
    assert_eq!(
        parse_loop_grid("<loop"),
        Err(err(ErrorKind::UnterminatedTagAttributes, 5))
    );
}

#[test]
fn group_bodies_are_handed_back_untrimmed() {
    assert_eq!(parse_grid(" a [Q1] \n</grid> rest"), Ok((" rest", " a [Q1] \n")));
    assert_eq!(parse_grid("</grid>"), Ok(("", "")));
    assert_eq!(
        parse_loop("\n[Q1]lala\n dropped </loop>tail"),
        Ok(("tail", ("\n[Q1]lala\n dropped ", vec![ModuleItem::new_question("Q1", "lala\n dropped")])))
    );
    assert_eq!(
        parse_loop(" text first [Q1] x</loop>"),
        Ok(("", (" text first [Q1] x", vec![])))
    );
}

#[test]
fn a_failure_inside_a_loop_fails_the_loop() {
    assert_eq!(
        parse_loop_grid("<loop>[Q1 </loop>"),
        Err(err(ErrorKind::UnterminatedHeader, 7))
    );
    assert_eq!(
        parse_loop("[Q1] a <grid> never closed</loop>"),
        Err(err(ErrorKind::UnterminatedGroup, 13))
    );
    assert_eq!(parse_module("intro [Q0] x <loop>\n [Q1] a <grid id=1 </loop>").unwrap_err(), err(ErrorKind::UnterminatedTagAttributes, 33));
}

#[test]
fn a_loop_body_ends_at_the_first_closing_tag() {
    // The first `</loop>` closes the outer loop, so the inner one, read
    // inside the body, is left without its closing tag.
    assert_eq!(
        parse_loop_grid("<loop id=\"out\">[A1] a <loop id=\"in\">[B1] b</loop>"),
        Err(err(ErrorKind::UnterminatedGroup, 36))
    );
    assert_eq!(
        parse_loop_grid("<loop id=\"out\">[A1] a <loop id=\"in\">[B1] b</loop></loop>"),
        Err(err(ErrorKind::UnterminatedGroup, 36))
    );
}

#[test]
fn groups_inside_a_loop_are_items_of_the_loop() {
    assert_eq!(
        parse_loop_grid("<loop>[A1] a <grid id=\"in\">[B1] b</grid> [A2] c</loop>"),
        Ok((
            "",
            ModuleItem::new_loop(
                Tag::new("loop", ""),
                "[A1] a <grid id=\"in\">[B1] b</grid> [A2] c",
                vec![
                    ModuleItem::new_question("A1", "a"),
                    ModuleItem::new_grid(Tag::new("grid", "id=\"in\""), "[B1] b"),
                    ModuleItem::new_question("A2", "c"),
                ]
            )
        ))
    );
    assert_eq!(
        parse_loop_grid("<grid>[A1] a <loop id=\"in\">[B1] b</loop></grid>"),
        Ok((
            "",
            ModuleItem::new_grid(Tag::new("grid", ""), "[A1] a <loop id=\"in\">[B1] b</loop>")
        ))
    );
}

#[test]
fn an_item_comes_after_separators_and_shortens_the_input() {
    assert_eq!(
        parse_question_loop_grid(" // c [X]\n\t[Q1] a"),
        Ok(("", ModuleItem::new_question("Q1", "a")))
    );
    assert_eq!(
        parse_question_loop_grid("  text"),
        Err(err(ErrorKind::NoMatch, 2))
    );
    assert_eq!(parse_question_loop_grid(""), Err(err(ErrorKind::NoMatch, 0)));
    assert_eq!(
        parse_question_loop_grid("\n<i>"),
        Err(err(ErrorKind::UnknownTag, 2))
    );
    assert_eq!(
        parse_question_loop_grid(" \n[Q1"),
        Err(err(ErrorKind::UnterminatedHeader, 3))
    );
    for input in ["[Q1]", " [a]b[C]", "<grid></grid>x", "//c\n<loop></loop>"] {
        let (rest, _) = parse_question_loop_grid(input).unwrap();
        assert!(rest.chars().count() < input.chars().count());
    }
}

#[test]
fn module_failures_come_from_items_that_have_begun() {
    assert_eq!(parse_module("[Q1] a\n[Q2 never closed").unwrap_err(), err(ErrorKind::UnterminatedHeader, 8));
    assert_eq!(parse_module("¿é [Q1").unwrap_err(), err(ErrorKind::UnterminatedHeader, 4));
    assert_eq!(parse_module("p <grid a").unwrap_err(), err(ErrorKind::UnterminatedTagAttributes, 7));
    assert_eq!(parse_module("p <loop>[Q1] a").unwrap_err(), err(ErrorKind::UnterminatedGroup, 8));
}

#[test]
fn a_module_ends_where_no_item_begins() {
    let (rest, module) = parse_module("<grid>x</grid>\n<b>bold</b> [Q1] late").unwrap();
    assert_eq!(rest, "\n<b>bold</b> [Q1] late");
    assert_eq!(module.preamble, "");
    assert_eq!(
        module.items,
        vec![ModuleItem::new_grid(Tag::new("grid", ""), "x")]
    );

    let (rest, module) = parse_module("<loop></loop> trailing words").unwrap();
    assert_eq!(rest, " trailing words");
    assert_eq!(
        module.items,
        vec![ModuleItem::new_loop(Tag::new("loop", ""), "", vec![])]
    );

    let (rest, module) = parse_module("only a preamble // [Q1]").unwrap();
    assert_eq!(rest, "");
    assert_eq!(module.preamble, "only a preamble // [Q1]");
    assert!(module.items.is_empty());

    let (rest, module) = parse_module("").unwrap();
    assert_eq!(rest, "");
    assert_eq!(module.preamble, "");
    assert!(module.items.is_empty());
}

#[test]
fn module_with_preamble_questions_grid_loop_and_trailing_question() {
    let text = "Welcome to the survey.\n[Q1] first [1] a [2] b\n[Q2] second\n<grid id=\"g\">\n[G1] not an item\n[G2] nor this\n</grid>\n<loop id=\"bobo\">\n[L1] one\n[L2] two\n</loop>\n[Q3] last\n";
    let (rest, module) = parse_module(text).unwrap();
    assert_eq!(rest, "");
    assert_eq!(module.preamble, "Welcome to the survey.\n");
    assert_eq!(
        module.items,
        vec![
            ModuleItem::new_question("Q1", "first [1] a [2] b"),
            ModuleItem::new_question("Q2", "second"),
            ModuleItem::new_grid(Tag::new("grid", "id=\"g\""), "[G1] not an item\n[G2] nor this"),
            ModuleItem::new_loop(
                Tag::new("loop", "id=\"bobo\""),
                "[L1] one\n[L2] two",
                vec![
                    ModuleItem::new_question("L1", "one"),
                    ModuleItem::new_question("L2", "two"),
                ]
            ),
            ModuleItem::new_question("Q3", "last"),
        ]
    );
}

#[test]
fn stored_texts_are_trimmed_of_unicode_whitespace() {
    let q = Question::new("\u{a0} Q1\u{3000}\n", "\t\u{2003}hi  there \r\n");
    assert_eq!(q.header, "Q1");
    assert_eq!(q.markdown, "hi  there");
    assert_eq!(q.render_markdown(), "hi  there");
    let blank = Question::new(" \n\t", "");
    assert_eq!(blank.header, "");
    assert_eq!(blank.markdown, "");
    assert_eq!(Tag::new(" grid ", " a b "), Tag::new("grid", "a b"));
    assert_eq!(
        parse_question("[\u{a0}Q1\u{a0}]\u{2003}x\u{2003}"),
        Ok(("", ModuleItem::new_question("Q1", "x")))
    );
}

#[test]
fn the_preamble_is_kept_untrimmed() {
    let (_, module) = parse_module("  lead \n [Q1] x").unwrap();
    assert_eq!(module.preamble, "  lead \n ");
}
