use vstd::prelude::*;
use crate::token::{Token, AttrV, AttrMap, string_eq_str};
use crate::parser::{Parser, spec_tokenize};
use crate::renderer::{Renderer, spec_render, render_codes_v, render_code_v, build_v, build_step};
use crate::code::CodeV;
use crate::token::TokenV;

verus! {

/// View of an optional borrowed string.
pub open spec fn opt_str_view(o: Option<&str>) -> Option<Seq<char>> {
    match o {
        Some(s) => Some(s@),
        None => None,
    }
}

/// A tag handler, implemented by the host application and registered under a
/// tag name.
///
/// `on_call` is the handler's mathematical meaning: what string it produces
/// for given content and attributes. `call` computes it: rendering relies on
/// each handler returning exactly what its own `on_call` describes, which is
/// the implementor's promise and is not checked here.
pub trait Handler {
    /// The string the handler produces for the given content and attributes.
    /// The default stands for a handler that replaces its tag with nothing;
    /// an implementor whose output matters overrides it.
    open spec fn on_call(&self, content: Option<Seq<char>>, attrs: Seq<AttrV>) -> Seq<char> {
        Seq::empty()
    }

    /// Produces the replacement for one tag. `content` is the rendered text
    /// between the tag and its matched closing tag, or `None` for a tag
    /// without one; `attrs` holds the tag's attributes in source order.
    fn call(&self, content: Option<&str>, attrs: &AttrMap) -> (r: String)
        ensures
            r@ == self.on_call(opt_str_view(content), attrs@),
    ;
}

/// The handler registered under a name: the latest registration wins, as in
/// a map where a later insert replaces an earlier one.
pub open spec fn reg_lookup<H: Handler>(reg: Seq<(Seq<char>, H)>, name: Seq<char>) -> Option<H>
    decreases reg.len(),
{
    if reg.len() == 0 {
        None
    } else if reg.last().0 == name {
        Some(reg.last().1)
    } else {
        reg_lookup(reg.drop_last(), name)
    }
}

/// The registry of shortcode handlers, and the library's entry point: it
/// maps tag names to handlers and renders texts against them.
pub struct Shortcode<H: Handler> {
    items: Vec<(String, H)>,
}

impl<H: Handler> View for Shortcode<H> {
    type V = Seq<(Seq<char>, H)>;

    /// A registry is seen as its registrations in order.
    closed spec fn view(&self) -> Seq<(Seq<char>, H)> {
        self.items@.map_values(|p: (String, H)| (p.0@, p.1))
    }
}

impl<H: Handler> Shortcode<H> {
    /// An empty registry: every tag renders raw.
    pub fn new() -> (r: Shortcode<H>)
        ensures
            r@ == Seq::<(Seq<char>, H)>::empty(),
    {
        let r = Shortcode { items: Vec::new() };
        proof {
            assert(r@ =~= Seq::<(Seq<char>, H)>::empty());
        }
        r
    }

    /// Registers `handler` under `name`, replacing any earlier registration
    /// of that name.
    pub fn add(&mut self, name: &str, handler: H)
        ensures
            final(self)@ == old(self)@.push((name@, handler)),
    {
        let owned: String = name.to_owned();
        self.items.push((owned, handler));
        proof {
            assert(self@ =~= old(self)@.push((name@, handler)));
        }
    }

    /// Whether a handler is registered under `name`.
    pub fn has(&self, name: &str) -> (r: bool)
        ensures
            r == (reg_lookup(self@, name@) is Some),
    {
        self.get(name).is_some()
    }

    /// The handler registered under `name`, if any; the latest registration
    /// wins.
    pub fn get(&self, name: &str) -> (r: Option<&H>)
        ensures
            match r {
                Some(h) => reg_lookup(self@, name@) == Some(*h),
                None => reg_lookup(self@, name@) is None,
            },
    {
        let n = self.items.len();
        proof {
            assert(self@.take(n as int) =~= self@);
        }
        let mut i: usize = n;
        while i > 0
            invariant
                0 <= i <= n,
                n == self.items.len(),
                reg_lookup(self@, name@) == reg_lookup(self@.take(i as int), name@),
            decreases i,
        {
            i = i - 1;
            proof {
                assert(self@.take(i + 1).last() == self@[i as int]);
                assert(self@.take(i + 1).drop_last() =~= self@.take(i as int));
            }
            if string_eq_str(&self.items[i].0, name) {
                return Some(&self.items[i].1);
            }
        }
        proof {
            assert(self@.take(0) =~= Seq::<(Seq<char>, H)>::empty());
        }
        None
    }

    /// Parses `content` and renders it: every tag whose name is registered
    /// is replaced by its handler's output, every other tag is re-emitted in
    /// its original bracket syntax, and plain text passes through unchanged.
    pub fn render(&self, content: &str) -> (r: String)
        ensures
            r@ == spec_render(content@, self@),
    {
        let tokens = Parser::new(content).parse();
        if tokens.len() == 1 {
            match &tokens[0] {
                Token::Text(t) => {
                    if string_eq_str(t, content) {
                        proof {
                            assert(spec_tokenize(content@) =~= seq![TokenV::Text(t@)]);
                            lemma_render_single_text(t@, self@);
                        }
                        return t.clone();
                    }
                }
                _ => {}
            }
        }
        let renderer = Renderer::new(&tokens);
        renderer.render(self)
    }
}

/// A text that tokenizes to a single literal run renders as that run,
/// whatever the registry holds.
pub proof fn lemma_render_single_text<H: Handler>(t: Seq<char>, reg: Seq<(Seq<char>, H)>)
    ensures
        render_codes_v(build_v(seq![TokenV::Text(t)]), reg) == t,
{
    let ts = seq![TokenV::Text(t)];
    assert(ts.drop_last() =~= Seq::<TokenV>::empty());
    assert(ts.last() == TokenV::Text(t));
    assert(build_v(ts) == build_step(build_v(ts.drop_last()), TokenV::Text(t)));
    assert(build_v(Seq::<TokenV>::empty()) == Seq::<CodeV>::empty());
    let cs = Seq::<CodeV>::empty().push(CodeV::Inline(TokenV::Text(t)));
    assert(build_v(ts) == cs);
    assert(cs.drop_last() =~= Seq::<CodeV>::empty());
    assert(cs.last() == CodeV::Inline(TokenV::Text(t)));
    assert(render_codes_v(Seq::<CodeV>::empty(), reg) == Seq::<char>::empty());
    assert(render_code_v(cs.last(), reg) == t);
    assert(render_codes_v(cs, reg) =~= t);
}

} // verus!
