use shortcode_parser::code::Code;
use shortcode_parser::parser::Parser;
use shortcode_parser::renderer::build_codes;
use shortcode_parser::token::Token;

fn codes_of(input: &str) -> Vec<Code> {
    let tokens = Parser::new(input).parse();
    build_codes(&tokens)
}

#[test]
fn tokenizer_test_parsing_only_text() {
    let codes = codes_of("Demo random something");

    assert_eq!(1, codes.len());

    match codes.get(0).unwrap() {
        Code::Inline(Token::Text(content)) => {
            assert_eq!("Demo random something", *content)
        }
        _ => panic!("test_parsing_only_text"),
    }
}

#[test]
fn tokenizer_test_parsing_inline_empty_attributes_shortcode() {
    let codes = codes_of("[test]");

    assert_eq!(1, codes.len());

    match codes.get(0).unwrap() {
        Code::Inline(Token::SelfClose(tag)) => {
            assert_eq!("test", tag)
        }
        _ => panic!("Test failed: test_parsing_inline_empty_attributes_shortcode"),
    }
}

#[test]
fn tokenizer_test_parsing_inline_empty_attributes_shortcode_with_texts() {
    let codes = codes_of("[test] hello");

    assert_eq!(2, codes.len());

    for code in codes {
        match code {
            Code::Inline(Token::Text(content)) => {
                assert_eq!(" hello", content)
            }
            Code::Inline(Token::SelfClose(tag)) => {
                assert_eq!("test", tag)
            }
            _ => {
                panic!("Test failed: test_parsing_inline_empty_attributes_shortcode_with_texts");
            }
        }
    }
}

#[test]
fn tokenizer_test_parsing_inline_tag_with_attribute() {
    let codes = codes_of("[test color=\"red\"]");

    assert_eq!(1, codes.len());

    for code in codes {
        match code {
            Code::Inline(Token::SelfCloseAttr(tag, attrs)) => {
                assert_eq!("test", tag);
                assert_eq!(1, attrs.len());

                assert_eq!("red", attrs[0].1.clone().unwrap());
                assert_eq!("color", attrs[0].0);
            }
            _ => {
                panic!("Test failed: test_parsing_inline_tag_with_attribute");
            }
        }
    }
}

#[test]
fn tokenizer_test_parsing_nested_attribute_tags() {
    let codes = codes_of("[style color=\"red\"] [hello] [/style]");

    assert_eq!(1, codes.len());

    for code in codes {
        match code {
            Code::Nested(Token::SelfCloseAttr(tag, attrs), children) => {
                assert_eq!("style", tag);
                assert_eq!(1, attrs.len());

                assert_eq!("red", attrs[0].1.clone().unwrap());
                assert_eq!("color", attrs[0].0);

                assert_eq!(3, children.len());
            }
            _ => {
                panic!("Test failed: test_parsing_en_closing_tag");
            }
        }
    }
}

#[test]
fn tokenizer_test_parsing_multiple_nested_attribute_tags() {
    let codes = codes_of("[style color=\"red\"][row][text][/row][/style]");

    assert_eq!(1, codes.len());

    for code in codes {
        match code {
            Code::Nested(Token::SelfCloseAttr(tag, attrs), children) => {
                assert_eq!("style", tag);
                assert_eq!(1, attrs.len());

                assert_eq!("red", attrs[0].1.clone().unwrap());
                assert_eq!("color", attrs[0].0);

                assert_eq!(1, children.len());

                for child in children {
                    match child {
                        Code::Nested(Token::SelfClose(tag), children) => {
                            assert_eq!("row", tag);
                            assert_eq!(1, children.len());
                        }
                        _ => panic!(
                            "Test failed: test_parsing_multiple_nested_attribute_tags > child"
                        ),
                    }
                }
            }
            _ => {
                panic!("Test failed: test_parsing_multiple_nested_attribute_tags");
            }
        }
    }
}

#[test]
fn mod_test_parsing_only_text() {
    let codes = codes_of("Demo random something");

    assert_eq!(1, codes.len());

    match codes.get(0).unwrap() {
        Code::Inline(Token::Text(content)) => {
            assert_eq!("Demo random something", *content)
        }
        _ => panic!("test_parsing_only_text"),
    }
}

#[test]
fn mod_test_parsing_inline_empty_attributes_shortcode() {
    let codes = codes_of("[test]");

    assert_eq!(1, codes.len());

    match codes.get(0).unwrap() {
        Code::Inline(Token::SelfClose(tag)) => {
            assert_eq!("test", tag)
        }
        _ => panic!("Test failed: test_parsing_inline_empty_attributes_shortcode"),
    }
}

#[test]
fn mod_test_parsing_inline_empty_attributes_shortcode_with_texts() {
    let codes = codes_of("[test] hello");

    assert_eq!(2, codes.len());

    for code in codes {
        match code {
            Code::Inline(Token::Text(content)) => {
                assert_eq!(" hello", content)
            }
            Code::Inline(Token::SelfClose(tag)) => {
                assert_eq!("test", tag)
            }
            _ => {
                panic!("Test failed: test_parsing_inline_empty_attributes_shortcode_with_texts");
            }
        }
    }
}

#[test]
fn mod_test_parsing_inline_tag_with_attribute() {
    let codes = codes_of("[test need-color]");

    assert_eq!(1, codes.len());

    for code in codes {
        match code {
            Code::Inline(Token::SelfCloseAttr(tag, attrs)) => {
                assert_eq!("test", tag);
                assert_eq!(1, attrs.len());

                assert_eq!(true, attrs[0].1.is_none());
                assert_eq!("need-color", attrs[0].0);
            }
            _ => {
                panic!("Test failed: test_parsing_inline_tag_with_attribute");
            }
        }
    }
}

#[test]
fn test_parsing_inline_multiple_attributes() {
    let codes = codes_of("[test a b c='value']");

    assert_eq!(1, codes.len());

    for code in codes {
        match code {
            Code::Inline(Token::SelfCloseAttr(tag, attrs)) => {
                assert_eq!("test", tag);
                assert_eq!(3, attrs.len());

                assert_eq!(("a".to_string(), None), attrs[0]);
                assert_eq!(("b".to_string(), None), attrs[1]);
                assert_eq!(("c".to_string(), Some("value".to_string())), attrs[2]);
            }
            _ => {
                panic!("Test failed: test_parsing_inline_multiple_attributes");
            }
        }
    }
}

#[test]
fn test_parsing_inline_attribute() {
    let codes = codes_of("[test color=\"red\"]");

    assert_eq!(1, codes.len());

    for code in codes {
        match code {
            Code::Inline(Token::SelfCloseAttr(tag, attrs)) => {
                assert_eq!("test", tag);
                assert_eq!(1, attrs.len());

                assert_eq!("red", attrs[0].1.clone().unwrap());
                assert_eq!("color", attrs[0].0);
            }
            _ => {
                panic!("Test failed: test_parsing_inline_tag_with_attribute");
            }
        }
    }
}

#[test]
fn test_parsing_inline_tag_attribute_with_single_quote() {
    let codes = codes_of("[test color='single quote']");

    assert_eq!(1, codes.len());

    for code in codes {
        match code {
            Code::Inline(Token::SelfCloseAttr(tag, attrs)) => {
                assert_eq!("test", tag);
                assert_eq!(1, attrs.len());

                assert_eq!("single quote", attrs[0].1.clone().unwrap());
                assert_eq!("color", attrs[0].0);
            }
            _ => {
                panic!("Test failed: test_parsing_inline_tag_attribute_with_single_quote");
            }
        }
    }
}

#[test]
fn mod_test_parsing_nested_attribute_tags() {
    let codes = codes_of("[style color=\"red\"] [hello] [/style]");

    assert_eq!(1, codes.len());

    for code in codes {
        match code {
            Code::Nested(Token::SelfCloseAttr(tag, attrs), children) => {
                assert_eq!("style", tag);
                assert_eq!(1, attrs.len());

                assert_eq!("red", attrs[0].1.clone().unwrap());
                assert_eq!("color", attrs[0].0);

                assert_eq!(3, children.len());
            }
            _ => {
                panic!("Test failed: test_parsing_en_closing_tag");
            }
        }
    }
}

#[test]
fn mod_test_parsing_multiple_nested_attribute_tags() {
    let codes = codes_of("[style color=\"red\"][row][text][/row][/style]");

    assert_eq!(1, codes.len());

    for code in codes {
        match code {
            Code::Nested(Token::SelfCloseAttr(tag, attrs), children) => {
                assert_eq!("style", tag);
                assert_eq!(1, attrs.len());

                assert_eq!("red", attrs[0].1.clone().unwrap());
                assert_eq!("color", attrs[0].0);

                assert_eq!(1, children.len());

                for child in children {
                    match child {
                        Code::Nested(Token::SelfClose(tag), children) => {
                            assert_eq!("row", tag);
                            assert_eq!(1, children.len());
                        }
                        _ => panic!(
                            "Test failed: test_parsing_multiple_nested_attribute_tags > child"
                        ),
                    }
                }
            }
            _ => {
                panic!("Test failed: test_parsing_multiple_nested_attribute_tags");
            }
        }
    }
}
