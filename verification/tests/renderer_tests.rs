use shortcode_parser::renderer::Renderer;
use shortcode_parser::shortcode::{Handler, Shortcode};
use shortcode_parser::token::{AttrMap, Token};

struct Silent;

impl Handler for Silent {
    fn call(&self, _content: Option<&str>, _attrs: &AttrMap) -> String {
        String::new()
    }
}

#[test]
fn test_render_empty_content() {
    let tokens = vec![Token::Text("Hello world".to_string())];

    let renderer = Renderer::new(&tokens);

    assert_eq!(renderer.render(&Shortcode::<Silent>::new()), "Hello world");
}
