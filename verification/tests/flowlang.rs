use fileflow::flowlang::{parse, ASTNode, FlowLangParser, ParseError, Sym, Token};

const EXAMPLE: &str = r#"pipeline "CullWedding" {
    let keep = hyperquery("ISO > 6400 and tag=keep")
    for file in keep {
      denoise(file, model="v2") -> tiff(file)
    }
  }"#;

#[test]
fn parses_the_language_example() {
    let ast = parse(EXAMPLE).unwrap();
    match ast {
        ASTNode::Pipeline { name, body } => {
            assert_eq!(name, "CullWedding");
            assert_eq!(body.len(), 2);
            match &body[0] {
                ASTNode::Let { name, value } => {
                    assert_eq!(name, "keep");
                    match value.as_ref() {
                        ASTNode::Call { name, args } => {
                            assert_eq!(name, "hyperquery");
                            assert_eq!(args.len(), 1);
                            assert!(args[0].0.is_none());
                            assert!(matches!(&args[0].1, ASTNode::String(s) if s == "ISO > 6400 and tag=keep"));
                        }
                        _ => panic!("expected a call"),
                    }
                }
                _ => panic!("expected let"),
            }
            match &body[1] {
                ASTNode::For { var, iterable, body } => {
                    assert_eq!(var, "file");
                    assert!(matches!(iterable.as_ref(), ASTNode::Ident(s) if s == "keep"));
                    assert_eq!(body.len(), 1);
                    match &body[0] {
                        ASTNode::Pipe { nodes } => {
                            assert_eq!(nodes.len(), 2);
                            match &nodes[0] {
                                ASTNode::Call { name, args } => {
                                    assert_eq!(name, "denoise");
                                    assert_eq!(args.len(), 2);
                                    assert!(matches!(&args[0], (None, ASTNode::Ident(s)) if s == "file"));
                                    assert!(matches!(&args[1], (Some(k), ASTNode::String(v)) if k == "model" && v == "v2"));
                                }
                                _ => panic!("expected a call"),
                            }
                            assert!(matches!(&nodes[1], ASTNode::Call { name, .. } if name == "tiff"));
                        }
                        _ => panic!("expected a pipe"),
                    }
                }
                _ => panic!("expected for"),
            }
        }
        _ => panic!("expected a pipeline"),
    }
}

#[test]
fn single_call_statement_is_a_call() {
    let ast = parse("pipeline \"p\" { rename(prefix=\"x\", 3) }").unwrap();
    match ast {
        ASTNode::Pipeline { body, .. } => {
            assert_eq!(body.len(), 1);
            match &body[0] {
                ASTNode::Call { name, args } => {
                    assert_eq!(name, "rename");
                    assert!(matches!(&args[1], (None, ASTNode::Number(3))));
                }
                _ => panic!("expected a call"),
            }
        }
        _ => panic!("expected a pipeline"),
    }
}

#[test]
fn empty_pipeline_and_empty_args() {
    assert!(matches!(parse("pipeline \"e\" {}"), Ok(ASTNode::Pipeline { body, .. }) if body.is_empty()));
    let ast = parse("pipeline \"e\" { go() }").unwrap();
    assert!(matches!(ast, ASTNode::Pipeline { body, .. } if matches!(&body[0], ASTNode::Call { args, .. } if args.is_empty())));
}

#[test]
fn number_limits() {
    let ast = parse("pipeline \"n\" { let a = -9223372036854775808 let b = 9223372036854775807 }").unwrap();
    match ast {
        ASTNode::Pipeline { body, .. } => {
            assert!(matches!(&body[0], ASTNode::Let { value, .. } if matches!(value.as_ref(), ASTNode::Number(i64::MIN))));
            assert!(matches!(&body[1], ASTNode::Let { value, .. } if matches!(value.as_ref(), ASTNode::Number(i64::MAX))));
        }
        _ => panic!("expected a pipeline"),
    }
    assert_eq!(parse("pipeline \"n\" { let a = 9223372036854775808 }").unwrap_err(), ParseError::NumberOutOfRange);
    assert_eq!(parse("pipeline \"n\" { let a = -9223372036854775809 }").unwrap_err(), ParseError::NumberOutOfRange);
}

#[test]
fn lexical_errors() {
    assert_eq!(parse("pipeline \"p\" { a(#) }").unwrap_err(), ParseError::Lexical);
    assert_eq!(parse("pipeline \"p { }").unwrap_err(), ParseError::Lexical);
}

#[test]
fn syntax_errors() {
    assert_eq!(parse("").unwrap_err(), ParseError::Syntax);
    assert_eq!(parse("pipeline \"p\" {").unwrap_err(), ParseError::Syntax);
    assert_eq!(parse("pipeline \"p\" { } extra").unwrap_err(), ParseError::Syntax);
    assert_eq!(parse("pipeline p { }").unwrap_err(), ParseError::Syntax);
    assert_eq!(parse("pipeline \"p\" { a() -> }").unwrap_err(), ParseError::Syntax);
    assert_eq!(parse("pipeline \"p\" { let x }").unwrap_err(), ParseError::Syntax);
    assert_eq!(parse("pipeline \"p\" { a(b,) }").unwrap_err(), ParseError::Syntax);
}

#[test]
fn tokens_of_a_line() {
    let toks = FlowLangParser::tokenize("a(x=-5) -> b").unwrap();
    assert_eq!(toks.len(), 8);
    assert!(matches!(&toks[0], Token::Ident(s) if s == "a"));
    assert!(matches!(&toks[1], Token::Sym(Sym::LParen)));
    assert!(matches!(&toks[3], Token::Sym(Sym::Assign)));
    assert!(matches!(&toks[4], Token::Num(-5)));
    assert!(matches!(&toks[6], Token::Sym(Sym::Arrow)));
    assert!(matches!(&toks[7], Token::Ident(s) if s == "b"));
}

#[test]
fn written_text_reads_back() {
    // Tokens written one after another, each followed by a space.
    let text = "pipeline \"demo\" { let n = -42 for f in files ( ) { a ( x = 1 , \"s\" ) -> b ( f ) } c ( ) } ";
    let ast = parse(text).unwrap();
    match ast {
        ASTNode::Pipeline { name, body } => {
            assert_eq!(name, "demo");
            assert_eq!(body.len(), 3);
            assert!(matches!(&body[0], ASTNode::Let { name, value } if name == "n" && matches!(value.as_ref(), ASTNode::Number(-42))));
            match &body[1] {
                ASTNode::For { var, iterable, body } => {
                    assert_eq!(var, "f");
                    assert!(matches!(iterable.as_ref(), ASTNode::Call { name, args } if name == "files" && args.is_empty()));
                    assert!(matches!(&body[0], ASTNode::Pipe { nodes } if nodes.len() == 2));
                }
                _ => panic!("expected for"),
            }
            assert!(matches!(&body[2], ASTNode::Call { name, .. } if name == "c"));
        }
        _ => panic!("expected a pipeline"),
    }
}

#[test]
fn keywords_as_call_names() {
    let ast = parse("pipeline \"k\" { let(x) for(y) }").unwrap();
    match ast {
        ASTNode::Pipeline { body, .. } => {
            assert!(matches!(&body[0], ASTNode::Call { name, .. } if name == "let"));
            assert!(matches!(&body[1], ASTNode::Call { name, .. } if name == "for"));
        }
        _ => panic!("expected a pipeline"),
    }
}
