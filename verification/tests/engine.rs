use rustuck::Instruction;
use rustuck::Instruction::Add;
use rustuck::Instruction::Back;
use rustuck::Instruction::Block;
use rustuck::Instruction::Cancel;
use rustuck::Instruction::Delete;
use rustuck::Instruction::Else;
use rustuck::Instruction::Goto;
use rustuck::Instruction::If;
use rustuck::Instruction::Label;
use rustuck::Instruction::Next;
use rustuck::Instruction::Skip;
use rustuck::Instruction::Wrap;
use rustuck::LexError;
use rustuck::Lexer;
use rustuck::ParseError;
use rustuck::ParseToken;
use rustuck::Parser;
use rustuck::Routine;
use rustuck::Rule;
use rustuck::lex_and_parse;
use rustuck::to_parse_tokens;
use rustuck::to_tokens;

fn s(x: &str) -> String {
    x.to_string()
}

fn tag_frags(tag: &str, frags: &[&str]) -> Instruction {
    let mut instrs: Vec<Instruction> = Vec::new();
    for f in frags {
        instrs.push(If(s(f)));
        instrs.push(Add(s(tag)));
    }
    Block(instrs)
}

fn number_lexer() -> Lexer {
    let digits = Routine {
        name: s("digits"),
        instrs: vec![
            tag_frags("digit", &["0", "1", "2", "3", "4", "5", "6", "7", "8", "9"]),
            tag_frags("nonzero", &["1", "2", "3", "4", "5", "6", "7", "8", "9"]),
        ],
    };
    let ints = Routine {
        name: s("ints"),
        instrs: vec![
            If(s("nonzero")),
            Skip,
            Else,
            Cancel,
            Label(s("Test")),
            Next,
            If(s("digit")),
            Goto(s("Test")),
            Block(vec![Wrap, Back, Add(s("int")), Add(s("posInt"))]),
        ],
    };
    let zero_ints = Routine {
        name: s("zeroInts"),
        instrs: vec![If(s("0")), Block(vec![Add(s("int")), Add(s("posInt"))])],
    };
    let negatives = Routine {
        name: s("negatives"),
        instrs: vec![
            If(s("-")),
            Next,
            Else,
            Cancel,
            If(s("posInt")),
            Block(vec![Next, Wrap, Back, Add(s("int")), Add(s("negInt"))]),
        ],
    };
    let decimal = Routine {
        name: s("decimal"),
        instrs: vec![
            If(s("int")),
            Next,
            Else,
            Cancel,
            If(s(".")),
            Next,
            Else,
            Cancel,
            If(s("posInt")),
            Next,
            Else,
            Cancel,
            Wrap,
            Back,
            Add(s("decimal")),
        ],
    };
    let no_ws = Routine {
        name: s("noWs"),
        instrs: vec![If(s("ws")), Delete],
    };
    Lexer { rules: vec![digits, ints, zero_ints, negatives, decimal, no_ws] }
}

fn pair_parser() -> Parser {
    Parser {
        rules: vec![Rule {
            matches: vec![s("int"), s("int")],
            tags: vec![s("pair")],
            repeat: None,
            add_all: false,
        }],
    }
}

const INPUT_TEXT: &str = "
    0 1 2 3 4 5 6 -7 8 9 10 11 12
    100 -1000 5000 67.89
    01 0001 -05 0.0
    -0.34 6.-98 -9.04
    ";

fn leaf(content: &str, tags: &[&str]) -> ParseToken {
    ParseToken {
        content: s(content),
        tags: tags.iter().map(|t| s(t)).collect(),
        children: Vec::new(),
        line: 0,
        char: 0,
        file: s("input"),
    }
}

fn has_tag(tags: &[String], tag: &str) -> bool {
    tags.iter().any(|t| t == tag)
}

#[test]
fn simple_lexer() {
    let result = lex_and_parse(&number_lexer(), &pair_parser(), INPUT_TEXT, false);
    assert!(result.is_ok());
}

#[test]
fn lexes_zero() {
    let lexer = number_lexer();
    let mut toks = to_tokens("0", "input");
    lexer.lex(&mut toks, false).unwrap();
    assert_eq!(toks.len(), 1);
    assert_eq!(toks[0].content(), "0");
    assert!(has_tag(&toks[0].tags, "int"));
    assert!(has_tag(&toks[0].tags, "posInt"));
}

#[test]
fn lexes_multi_digit_int() {
    let lexer = number_lexer();
    let mut toks = to_tokens("123", "input");
    lexer.lex(&mut toks, false).unwrap();
    assert_eq!(toks.len(), 1);
    assert_eq!(toks[0].content(), "123");
    assert!(has_tag(&toks[0].tags, "int"));
    assert!(has_tag(&toks[0].tags, "posInt"));
}

#[test]
fn lexes_negative_int() {
    let lexer = number_lexer();
    let mut toks = to_tokens("-7", "input");
    lexer.lex(&mut toks, false).unwrap();
    assert_eq!(toks.len(), 1);
    assert_eq!(toks[0].content(), "-7");
    assert!(has_tag(&toks[0].tags, "int"));
    assert!(has_tag(&toks[0].tags, "negInt"));
}

#[test]
fn lexes_decimal() {
    let lexer = number_lexer();
    let mut toks = to_tokens("67.89", "input");
    lexer.lex(&mut toks, false).unwrap();
    assert_eq!(toks.len(), 1);
    assert_eq!(toks[0].content(), "67.89");
    assert!(has_tag(&toks[0].tags, "decimal"));
}

#[test]
fn combine_rule_builds_pair() {
    let parser = pair_parser();
    let mut nodes = vec![leaf("3", &["int"]), leaf("4", &["int"])];
    parser.parse(&mut nodes, false).unwrap();
    assert_eq!(nodes.len(), 1);
    assert_eq!(nodes[0].content(), "34");
    assert_eq!(nodes[0].tags, vec![s("pair")]);
    assert_eq!(nodes[0].children.len(), 2);
    assert_eq!(nodes[0].children[0].content(), "3");
    assert_eq!(nodes[0].children[1].content(), "4");
}

#[test]
fn trailing_repeat_matches_zero_nodes() {
    // The sole repeat position sits at the end of the pattern; the node
    // sequence ends exactly where the repeat begins, so the window matches
    // zero trailing nodes instead of failing off the end.
    let parser = Parser {
        rules: vec![Rule {
            matches: vec![s("int"), s("int")],
            tags: vec![s("run")],
            repeat: Some(1),
            add_all: false,
        }],
    };
    let mut nodes = vec![leaf("3", &["int"])];
    parser.parse(&mut nodes, false).unwrap();
    assert_eq!(nodes.len(), 1);
    assert_eq!(nodes[0].tags, vec![s("run")]);
    assert_eq!(nodes[0].children.len(), 1);
    assert_eq!(nodes[0].children[0].content(), "3");
}

#[test]
fn repeat_consumes_a_run() {
    let parser = Parser {
        rules: vec![Rule {
            matches: vec![s("a"), s("b")],
            tags: vec![s("run")],
            repeat: Some(1),
            add_all: false,
        }],
    };
    let mut nodes = vec![
        leaf("x", &["a"]),
        leaf("y", &["b"]),
        leaf("z", &["b"]),
        leaf("w", &["stop"]),
    ];
    parser.parse(&mut nodes, false).unwrap();
    assert_eq!(nodes.len(), 2);
    assert_eq!(nodes[0].content(), "xyz");
    assert_eq!(nodes[0].children.len(), 3);
    assert_eq!(nodes[1].content(), "w");
}

#[test]
fn annotate_rule_only_adds_tags() {
    let parser = Parser {
        rules: vec![Rule {
            matches: vec![s("a")],
            tags: vec![s("b")],
            repeat: None,
            add_all: true,
        }],
    };
    let mut nodes = vec![leaf("x", &["a"]), leaf("y", &["c"])];
    parser.parse(&mut nodes, false).unwrap();
    assert_eq!(nodes.len(), 2);
    assert!(nodes[0].children.is_empty());
    assert!(nodes[1].children.is_empty());
    assert_eq!(nodes[0].tags, vec![s("a"), s("b")]);
    assert_eq!(nodes[1].tags, vec![s("c")]);

    // A second run finds every tag already present and changes nothing.
    let before: Vec<String> = nodes[0].tags.clone();
    parser.parse(&mut nodes, false).unwrap();
    assert_eq!(nodes.len(), 2);
    assert_eq!(nodes[0].tags, before);
    assert_eq!(nodes[1].tags, vec![s("c")]);
}

#[test]
fn parser_fixpoint_is_idempotent() {
    let parser = pair_parser();
    let mut nodes = vec![
        leaf("1", &["int"]),
        leaf("2", &["int"]),
        leaf("3", &["int"]),
    ];
    parser.parse(&mut nodes, false).unwrap();
    let count = nodes.len();
    let contents: Vec<String> = nodes.iter().map(|n| n.content().to_string()).collect();
    // Running the fixpoint again on its own output performs zero matches.
    parser.parse(&mut nodes, false).unwrap();
    assert_eq!(nodes.len(), count);
    let contents2: Vec<String> = nodes.iter().map(|n| n.content().to_string()).collect();
    assert_eq!(contents, contents2);
}

#[test]
fn oscillating_rules_hit_depth_ceiling() {
    // Tag x becomes y, tag y becomes x: no fixpoint exists, so the parser
    // must stop at its depth ceiling instead of looping forever.
    let parser = Parser {
        rules: vec![
            Rule {
                matches: vec![s("x")],
                tags: vec![s("y")],
                repeat: None,
                add_all: false,
            },
            Rule {
                matches: vec![s("y")],
                tags: vec![s("x")],
                repeat: None,
                add_all: false,
            },
        ],
    };
    let mut nodes = vec![leaf("q", &["x"])];
    let r = parser.parse(&mut nodes, false);
    assert_eq!(r, Err(ParseError::DepthLimitExceeded));
}

#[test]
fn goto_undefined_label_is_fatal() {
    let lexer = Lexer {
        rules: vec![Routine {
            name: s("broken"),
            instrs: vec![Goto(s("nowhere"))],
        }],
    };
    let mut toks = to_tokens("a", "input");
    let r = lexer.lex(&mut toks, false);
    assert_eq!(r, Err(LexError::UndefinedLabel(s("nowhere"))));
}

#[test]
fn looping_routine_hits_step_limit() {
    // A label followed by a jump back to it makes no progress; the sweep's
    // step budget turns that authoring defect into the fatal condition.
    let lexer = Lexer {
        rules: vec![Routine {
            name: s("spin"),
            instrs: vec![Label(s("here")), Goto(s("here"))],
        }],
    };
    let mut toks = to_tokens("a", "input");
    let r = lexer.lex(&mut toks, false);
    assert_eq!(r, Err(LexError::StepLimitExceeded));
}

#[test]
fn if_without_guarded_instruction_is_fatal() {
    let lexer = Lexer {
        rules: vec![Routine {
            name: s("dangling"),
            instrs: vec![If(s("a"))],
        }],
    };
    let mut toks = to_tokens("a", "input");
    let r = lexer.lex(&mut toks, false);
    assert_eq!(r, Err(LexError::MalformedConditional));
}

#[test]
fn stray_else_is_fatal() {
    let lexer = Lexer {
        rules: vec![Routine {
            name: s("stray"),
            instrs: vec![Skip, Else, Cancel],
        }],
    };
    let mut toks = to_tokens("a", "input");
    let r = lexer.lex(&mut toks, false);
    assert_eq!(r, Err(LexError::MalformedConditional));
}

#[test]
fn else_without_guarded_body_is_fatal() {
    let lexer = Lexer {
        rules: vec![Routine {
            name: s("short"),
            instrs: vec![If(s("a")), Skip, Else],
        }],
    };
    let mut toks = to_tokens("a", "input");
    let r = lexer.lex(&mut toks, false);
    assert_eq!(r, Err(LexError::MalformedConditional));
}

#[test]
fn malformed_block_body_is_fatal() {
    let lexer = Lexer {
        rules: vec![Routine {
            name: s("nested"),
            instrs: vec![Block(vec![Else])],
        }],
    };
    let mut toks = to_tokens("a", "input");
    let r = lexer.lex(&mut toks, false);
    assert_eq!(r, Err(LexError::MalformedConditional));
}

#[test]
fn wrap_merges_window_and_clears_tags() {
    let lexer = Lexer {
        rules: vec![Routine {
            name: s("pairup"),
            instrs: vec![Next, Next, Wrap, Cancel],
        }],
    };
    let mut toks = to_tokens("ab", "input");
    lexer.lex(&mut toks, false).unwrap();
    // The first attempt merges the two characters; the merged token keeps the
    // anchor's position and loses its tags.
    assert_eq!(toks[0].content(), "ab");
    assert!(toks[0].tags.is_empty());
}

#[test]
fn delete_removes_tokens() {
    let lexer = Lexer {
        rules: vec![Routine {
            name: s("noWs"),
            instrs: vec![If(s("ws")), Delete],
        }],
    };
    let mut toks = to_tokens("a b", "input");
    lexer.lex(&mut toks, false).unwrap();
    assert_eq!(toks.len(), 2);
    assert_eq!(toks[0].content(), "a");
    assert_eq!(toks[1].content(), "b");
}

#[test]
fn empty_rule_list_is_a_fixpoint() {
    let parser = Parser { rules: Vec::new() };
    let mut nodes = vec![leaf("x", &["a"])];
    parser.parse(&mut nodes, false).unwrap();
    assert_eq!(nodes.len(), 1);
    assert_eq!(nodes[0].content(), "x");
}

#[test]
fn lex_and_parse_builds_pairs() {
    let r = lex_and_parse(&number_lexer(), &pair_parser(), "3 4", false).unwrap();
    assert_eq!(r.len(), 1);
    assert_eq!(r[0].content(), "34");
    assert_eq!(r[0].tags, vec![s("pair")]);
    assert_eq!(r[0].children.len(), 2);
}

#[test]
fn lift_preserves_content_and_tags() {
    let toks = to_tokens("ab", "input");
    let nodes = to_parse_tokens(toks);
    assert_eq!(nodes.len(), 3);
    assert_eq!(nodes[0].content(), "a");
    assert_eq!(nodes[1].content(), "b");
    assert_eq!(nodes[2].content(), "");
    assert!(nodes.iter().all(|n| n.children.is_empty()));
    assert!(has_tag(&nodes[0].tags, "a"));
    assert!(has_tag(&nodes[2].tags, "ws"));
}

#[test]
fn lex_and_parse_reports_lexer_faults() {
    let broken = Lexer {
        rules: vec![Routine {
            name: s("broken"),
            instrs: vec![Goto(s("missing"))],
        }],
    };
    let r = lex_and_parse(&broken, &pair_parser(), "x", false);
    assert_eq!(
        r.err(),
        Some(rustuck::RunError::Lex(LexError::UndefinedLabel(s("missing"))))
    );
}

#[test]
fn tokenizer_handles_wide_characters() {
    let toks = to_tokens("déjà", "input");
    assert_eq!(toks.len(), 5);
    assert_eq!(toks[1].content(), "é");
    assert_eq!(toks[3].content(), "à");
}

#[test]
fn deep_parse_depth_is_rejected() {
    let parser = pair_parser();
    let mut nodes = vec![leaf("3", &["int"])];
    let r = parser.parse_depth(&mut nodes, false, 10001);
    assert_eq!(r, Err(ParseError::DepthLimitExceeded));
    assert_eq!(nodes.len(), 1);
}
