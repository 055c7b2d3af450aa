use shortcode_parser::{Handler, Shortcode};
use shortcode_parser::token::AttrMap;

enum TagHandler {
    Home,
    Planet,
    AttrR,
    U,
    Repeat,
    Html,
    Video,
}

impl Handler for TagHandler {
    fn call(&self, _content: Option<&str>, attrs: &AttrMap) -> String {
        match self {
            TagHandler::Home => "home shortcode".to_string(),
            TagHandler::Planet => "planet".to_string(),
            TagHandler::AttrR => attrs.get("r").unwrap().clone().unwrap(),
            TagHandler::U => "U".to_string(),
            TagHandler::Repeat => {
                let n: usize = attrs.get("repeat").unwrap().clone().unwrap().parse().unwrap();
                "U".repeat(n)
            }
            TagHandler::Html => attrs.get("code").unwrap().clone().unwrap(),
            TagHandler::Video => {
                let src = match attrs.get("src") {
                    Some(src) => src.clone().unwrap(),
                    None => "default.mp4".to_string(),
                };
                let loop_value = match attrs.get("loop") {
                    Some(..) => " loop",
                    None => "",
                };
                format!("<video src=\"{}\"{}></video>", src, loop_value)
            }
        }
    }
}

#[test]
fn it_can_register_a_shortcode() {
    let mut s = Shortcode::new();

    s.add("home", TagHandler::Home);

    assert_eq!(true, s.has("home"));
    assert_eq!(false, s.has("nothing"));
}

#[test]
fn it_can_render_plain_text() {
    let s: Shortcode<TagHandler> = Shortcode::new();

    let content = s.render("plain text");

    assert_eq!("plain text", content);
}

#[test]
fn it_can_render_inline_tag() {
    let mut s = Shortcode::new();

    s.add("world", TagHandler::Planet);

    let content = s.render("hello [world]");

    assert_eq!("hello planet", content);
}

#[test]
fn it_can_render_inline_attribute_tag() {
    let mut s = Shortcode::new();

    s.add("world", TagHandler::AttrR);

    let content = s.render("hello [world r=\"sun\"]");

    assert_eq!("hello sun", content);
}

#[test]
fn it_can_render_unknown_inline_attribute_tag() {
    let s: Shortcode<TagHandler> = Shortcode::new();

    let content = s.render("hello [world r=\"sun\"]");

    assert_eq!("hello [world r=\"sun\"]", content);
}

#[test]
fn it_can_render_nested_inline_tag() {
    let mut s = Shortcode::new();

    s.add("u", TagHandler::U);

    let content = s.render("hello [r][u][/r]");

    assert_eq!("hello [r]U[/r]", content);
}

#[test]
fn it_can_render_nested_attributes_tag() {
    let mut s = Shortcode::new();

    s.add("u", TagHandler::Repeat);

    let content = s.render("hello [r f=\"true\"][u repeat=\"6\"][/r]");

    assert_eq!("hello [r f=\"true\"]UUUUUU[/r]", content);
}

#[test]
fn it_can_accept_html_code_as_attribute() {
    let mut s = Shortcode::new();

    s.add("html", TagHandler::Html);

    let content = s.render("hello [html code='<div class=\"something\"></div>']");

    assert_eq!("hello <div class=\"something\"></div>", content);
}

#[test]
fn it_can_handle_inline_attr() {
    let mut s = Shortcode::new();

    s.add("video", TagHandler::Video);

    let content = s.render("hello [video loop] [video src='custom.mp4']");

    assert_eq!("hello <video src=\"default.mp4\" loop></video> <video src=\"default.mp4\"></video>", content);
}
