use survey_module::{
    comment, parse_grid, parse_loop, parse_loop_grid, parse_module, parse_question,
    parse_question_loop_grid, parse_tag, parse_whitespace_or_comment,
    take_until_next_module_item, ErrorKind, Module, ModuleItem, ParseError, Question, Tag,
};

#[test]
fn test_take_until_next_module_item() {
    println!("=== we have a question followed by a question....");
    let input =
        "This is the first question without the header [1] hi [Q2] this is the second question";
    let (input, current) = take_until_next_module_item(input);
    assert_eq!(input, "[Q2] this is the second question");
    assert_eq!(
        current,
        "This is the first question without the header [1] hi "
    );

    println!("=== we have a question followed by a loop....");
    let input = "¿Cuántas comidas comiste hoy? <loop> [L1] boo";
    let (input, current) = take_until_next_module_item(input);
    assert_eq!(input, "<loop> [L1] boo");
    assert_eq!(current, "¿Cuántas comidas comiste hoy? ");

    println!("=== we have a question followed by a grid....");
    let input = "¿Cuántas comidas comiste hoy? <grid> [L1] boo";
    let (input, current) = take_until_next_module_item(input);
    assert_eq!(input, "<grid> [L1] boo");
    assert_eq!(current, "¿Cuántas comidas comiste hoy? ");

    println!("=== last question....");
    let input = "¿Cuántas comidas comiste hoy?";
    let (input, current) = take_until_next_module_item(input);
    println!("output: {} new input: {}", current, input);
    assert_eq!(input, "");
    assert_eq!(current, "¿Cuántas comidas comiste hoy?");
}

#[test]
fn test_parse_tag() {
    let r = parse_tag("<fail>[Q1]lala\n[Q2]lili</fail>");
    assert!(r.is_err());

    let input = r#"<grid id="gridid"> [GID lasdf]"#;
    let (input, tag) = parse_tag(input).unwrap();
    assert_eq!(input, " [GID lasdf]");
    assert_eq!(tag, Tag::new("grid", r#"id="gridid""#));
}

#[test]
fn test_create_mi() {
    let q = Question::new("Q1 displayif=q=1", "hi there");
    assert_eq!(q.markdown, "hi there");
    let qmi = ModuleItem::Question(q);
    assert_eq!(
        qmi,
        ModuleItem::Question(Question::new("Q1 displayif=q=1", "hi there"))
    );
    match &qmi {
        ModuleItem::Question(q) => println!("QUESTION: {:?}", q),
        ModuleItem::Grid(g) => println!("{:?}", g),
        ModuleItem::Loop(l) => println!("{:?}", l),
    };
    println!("{:?}", qmi);
}

#[test]
fn test_loop() {
    assert_eq!(
        parse_loop_grid("<loop>[Q1]lala\n[Q2]lili</loop>"),
        Ok((
            "",
            ModuleItem::new_loop(
                Tag::new("loop", ""),
                "[Q1]lala\n[Q2]lili",
                vec![
                    ModuleItem::new_question("Q1", "lala\n"),
                    ModuleItem::new_question("Q2", "lili")
                ]
            )
        ))
    );
}

#[test]
fn test_grid() {
    assert_eq!(
        parse_loop_grid("<grid>[Q1]lala\n[Q2]lili</grid>"),
        Ok((
            "",
            ModuleItem::new_grid(Tag::new("grid", ""), "[Q1]lala\n[Q2]lili")
        ))
    );
}

#[test]
fn test_parse_item() {
    let markdown = "[Q1] this is a test [Q2] end!!";
    let mi = ModuleItem::new_question("Q1", "this is a test");
    assert_eq!(parse_question_loop_grid(markdown), Ok(("[Q2] end!!", mi)));

    let markdown = "<loop>\n[A1]this is a test [Q2] end!!</loop>";
    let mi = ModuleItem::new_loop(
        Tag::new("loop", ""),
        "[A1]this is a test [Q2] end!!",
        vec![
            ModuleItem::new_question("A1", "this is a test"),
            ModuleItem::new_question("Q2", "end!!"),
        ],
    );
    assert_eq!(parse_question_loop_grid(markdown), Ok(("", mi)));

    let markdown = "<loop id=\"loopid\">\n[A1]this is a test [Q2] end!!</loop>";
    let mi = ModuleItem::new_loop(
        Tag::new("loop", r#"id="loopid""#),
        "[A1]this is a test [Q2] end!!",
        vec![
            ModuleItem::new_question("A1", "this is a test"),
            ModuleItem::new_question("Q2", "end!!"),
        ],
    );
    println!("{:?}", parse_question_loop_grid(markdown));
    assert_eq!(parse_question_loop_grid(markdown), Ok(("", mi)));

    let markdown = "<grid>\n[A1]this is a test [Q2] end!!\n</grid>";
    let mi = ModuleItem::new_grid(Tag::new("grid", ""), "[A1]this is a test [Q2] end!!");
    assert_eq!(parse_question_loop_grid(markdown), Ok(("", mi)));
}

const FULL_MODULE: &str = r#"
[Q1] This is a question
[12] A
[13] B
[Q2] This is another question
[12] A
[13] B
<grid>
[G1]this is a grid question
[G2]so is this
</grid>
<loop id="bobo">
[L1] this is loop question 1
[L2] this is loop question 2
</loop>
[Q3] One last question.
(1) bing bong
(2) hi there?

        "#;

#[test]
fn test_parse_module() {
    let markdown = FULL_MODULE;
    let input = markdown;
    let (input, module) = parse_module(input).unwrap();
    for (indx, item) in module.items.iter().enumerate() {
        println!("{}: {:?}", indx, item)
    }
    println!("remaining input:\n {}", input);
}

#[test]
fn test_comment_in_preamble() {
    let input = "// this is a comment with a question header [Q1]\n[Q1] ding dong";
    let (input, preamble) = take_until_next_module_item(input);
    assert_eq!(
        preamble,
        "// this is a comment with a question header [Q1]\n"
    );
    assert_eq!(input, "[Q1] ding dong");

    let input = "[Q1] ding dong";
    let (input, preamble) = take_until_next_module_item(input);
    assert_eq!(input, "[Q1] ding dong");
    assert_eq!(preamble, "");

    let input = "[Q1] ding dong";
    let (input, preamble) = take_until_next_module_item(input);
    assert_eq!(input, "[Q1] ding dong");
    assert_eq!(preamble, "");
}

#[test]
fn test_parse_whitespace_or_comment() {
    let input = "// this is a comment with a question header [Q1]\n[Q1] ding dong";
    let (input, _) = parse_whitespace_or_comment(input);
    println!("{}", input);
    assert_eq!(input, "[Q1] ding dong");
}

fn items_of(module: &Module) -> &Vec<ModuleItem> {
    &module.items
}

#[test]
fn full_module_has_five_items_in_document_order() {
    let (rest, module) = parse_module(FULL_MODULE).unwrap();
    assert_eq!(rest, "");
    assert_eq!(module.preamble, "\n");
    let items = items_of(&module);
    assert_eq!(items.len(), 5);
    assert_eq!(
        items[0],
        ModuleItem::new_question("Q1", "This is a question\n[12] A\n[13] B")
    );
    assert_eq!(
        items[1],
        ModuleItem::new_question("Q2", "This is another question\n[12] A\n[13] B")
    );
    assert_eq!(
        items[2],
        ModuleItem::new_grid(
            Tag::new("grid", ""),
            "[G1]this is a grid question\n[G2]so is this"
        )
    );
    assert_eq!(
        items[3],
        ModuleItem::new_loop(
            Tag::new("loop", "id=\"bobo\""),
            "[L1] this is loop question 1\n[L2] this is loop question 2",
            vec![
                ModuleItem::new_question("L1", "this is loop question 1"),
                ModuleItem::new_question("L2", "this is loop question 2"),
            ]
        )
    );
    assert_eq!(
        items[4],
        ModuleItem::new_question("Q3", "One last question.\n(1) bing bong\n(2) hi there?")
    );
}
