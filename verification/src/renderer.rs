use vstd::prelude::*;
use vstd::string::StringExecFns;
use crate::token::{Token, TokenV, tokens_view, token_raw};
use crate::code::{Code, CodeV, codes_view, close_name_of, lemma_codes_view_index, lemma_codes_view_push};
use crate::parser::spec_tokenize;
use crate::shortcode::{Handler, Shortcode, reg_lookup, opt_str_view};

verus! {

/// Whether a node is a still-open opening tag named `name`: an inline leaf
/// whose token is an opening tag of that name. Only such a node can absorb
/// a closing tag; nodes already folded into `Nested` stay closed.
pub open spec fn is_inline_opener(c: CodeV, name: Seq<char>) -> bool {
    &&& c is Inline
    &&& c.token().is_opener()
    &&& c.token().tag_name() == Some(name)
}

/// The position a closing tag named `name` resolves to: the most recent
/// still-open same-named opening tag, scanning backward.
pub open spec fn find_opener(cs: Seq<CodeV>, name: Seq<char>) -> Option<int>
    decreases cs.len(),
{
    if cs.len() == 0 {
        None
    } else if is_inline_opener(cs.last(), name) {
        Some(cs.len() - 1)
    } else {
        find_opener(cs.drop_last(), name)
    }
}

/// One step of tree building. Text and opening tags are appended as leaves.
/// A closing tag folds everything after its resolved opener into one
/// `Nested` node; with no matching opener it stays as an inline leaf, so no
/// content is lost.
pub open spec fn build_step(cs: Seq<CodeV>, t: TokenV) -> Seq<CodeV> {
    match t {
        TokenV::CloseTag(name) => match find_opener(cs, name) {
            Some(i) => cs.take(i) + seq![CodeV::Nested(cs[i].token(), cs.skip(i + 1))],
            None => cs.push(CodeV::Inline(t)),
        },
        _ => cs.push(CodeV::Inline(t)),
    }
}

/// The parse tree of a token sequence, built left to right.
pub open spec fn build_v(ts: Seq<TokenV>) -> Seq<CodeV>
    decreases ts.len(),
{
    if ts.len() == 0 {
        Seq::empty()
    } else {
        build_step(build_v(ts.drop_last()), ts.last())
    }
}

/// What rendering one node produces. A text leaf is itself. An opening tag
/// with a registered handler becomes `handler(None, attrs)`; without one it
/// is re-emitted raw. An unmatched closing tag is re-emitted raw. A nested
/// node renders its children first, left to right; a registered handler
/// then receives that text as its content, while an unregistered tag wraps
/// it in its raw opening tag and a synthesized closing tag.
pub open spec fn render_code_v<H: Handler>(c: CodeV, reg: Seq<(Seq<char>, H)>) -> Seq<char>
    decreases c,
{
    match c {
        CodeV::Inline(t) => match t {
            TokenV::Text(s) => s,
            TokenV::SelfClose(n) => match reg_lookup(reg, n) {
                Some(h) => h.on_call(None, Seq::empty()),
                None => token_raw(t),
            },
            TokenV::SelfCloseAttr(n, a) => match reg_lookup(reg, n) {
                Some(h) => h.on_call(None, a),
                None => token_raw(t),
            },
            TokenV::CloseTag(_) => token_raw(t),
        },
        CodeV::Nested(t, children) => match reg_lookup(reg, CodeV::Nested(t, children).close_name()) {
            Some(h) => h.on_call(Some(render_codes_v(children, reg)), t.attrs()),
            None => token_raw(t) + render_codes_v(children, reg) + token_raw(
                TokenV::CloseTag(CodeV::Nested(t, children).close_name()),
            ),
        },
    }
}

/// What rendering a node sequence produces: the nodes' renderings, in
/// order, concatenated.
pub open spec fn render_codes_v<H: Handler>(cs: Seq<CodeV>, reg: Seq<(Seq<char>, H)>) -> Seq<char>
    decreases cs,
{
    if cs.len() == 0 {
        Seq::empty()
    } else {
        render_codes_v(cs.drop_last(), reg) + render_code_v(cs.last(), reg)
    }
}

/// Appending a node appends its rendering.
pub proof fn lemma_render_codes_v_push<H: Handler>(cs: Seq<CodeV>, c: CodeV, reg: Seq<(Seq<char>, H)>)
    ensures
        render_codes_v(cs.push(c), reg) == render_codes_v(cs, reg) + render_code_v(c, reg),
{
    assert(cs.push(c).drop_last() =~= cs);
    assert(cs.push(c).last() == c);
}

/// What the whole pipeline produces for an input text: tokenize, build the
/// tree, render against the registry.
pub open spec fn spec_render<H: Handler>(s: Seq<char>, reg: Seq<(Seq<char>, H)>) -> Seq<char> {
    render_codes_v(build_v(spec_tokenize(s)), reg)
}

/// Whether a node is a still-open opening tag named `name`.
fn code_is_opener(c: &Code, name: &String) -> (r: bool)
    ensures
        r == is_inline_opener(c@, name@),
{
    match c {
        Code::Inline(t) => match t {
            Token::SelfClose(m) => *m == *name,
            Token::SelfCloseAttr(m, _) => *m == *name,
            _ => false,
        },
        Code::Nested(_, _) => false,
    }
}

/// Folds a token sequence into the parse tree, resolving each closing tag
/// against the most recent still-open same-named opening tag. Everything
/// scanned over by an unmatched closing tag is kept, and the closing tag
/// itself stays as a leaf.
pub fn build_codes(tokens: &Vec<Token>) -> (r: Vec<Code>)
    ensures
        codes_view(r@) == build_v(tokens_view(tokens@)),
{
    let ghost all = tokens_view(tokens@);
    let mut items: Vec<Code> = Vec::new();
    let n = tokens.len();
    proof {
        assert(codes_view(items@) =~= Seq::<CodeV>::empty());
        assert(all.take(0) =~= Seq::<TokenV>::empty());
    }
    let mut j: usize = 0;
    while j < n
        invariant
            0 <= j <= n,
            n == tokens.len(),
            all == tokens_view(tokens@),
            all.len() == n,
            codes_view(items@) == build_v(all.take(j as int)),
        decreases n - j,
    {
        let ghost cs = codes_view(items@);
        match &tokens[j] {
            Token::CloseTag(name) => {
                proof {
                    lemma_codes_view_index(items@);
                    assert(cs.take(cs.len() as int) =~= cs);
                    assert(all[j as int] == tokens@[j as int]@);
                    assert(all[j as int] == TokenV::CloseTag(name@));
                }
                let mut k = items.len();
                let mut matched = false;
                while k > 0 && !matched
                    invariant
                        0 <= k <= items.len(),
                        cs == codes_view(items@),
                        cs.len() == items.len(),
                        forall|m: int| 0 <= m < cs.len() ==> #[trigger] cs[m] == items@[m]@,
                        !matched ==> find_opener(cs, name@) == find_opener(cs.take(k as int), name@),
                        matched ==> 0 < k <= cs.len() && is_inline_opener(cs[k as int - 1], name@)
                            && find_opener(cs, name@) == Some(k as int - 1),
                    decreases k + (if matched { 0int } else { 1int }),
                {
                    proof {
                        assert(cs.take(k as int).last() == cs[k as int - 1]);
                        assert(cs.take(k as int).drop_last() =~= cs.take(k as int - 1));
                    }
                    if code_is_opener(&items[k - 1], name) {
                        matched = true;
                    } else {
                        k = k - 1;
                    }
                }
                if matched {
                    let children = items.split_off(k);
                    let opener = items.pop().unwrap();
                    let tok = match opener {
                        Code::Inline(t) => t,
                        Code::Nested(t, _) => t,
                    };
                    proof {
                        lemma_codes_view_index(children@);
                        lemma_codes_view_index(items@);
                        assert(codes_view(items@) =~= cs.take(k as int - 1));
                        assert(codes_view(children@) =~= cs.skip(k as int));
                        assert(tok@ == cs[k as int - 1].token());
                    }
                    let ghost chv = codes_view(children@);
                    let ghost base = items@;
                    let ghost tokv = tok@;
                    items.push(Code::Nested(tok, children));
                    proof {
                        lemma_codes_view_push(base, items@.last());
                        assert(items@.last()@ == CodeV::Nested(tokv, chv));
                        assert(codes_view(items@) == codes_view(base).push(
                            CodeV::Nested(tokv, chv),
                        ));
                        assert(codes_view(items@) =~= cs.take(k as int - 1) + seq![
                            CodeV::Nested(cs[k as int - 1].token(), cs.skip(k as int)),
                        ]);
                        assert(codes_view(items@) == build_step(cs, all[j as int]));
                    }
                } else {
                    proof {
                        assert(cs.take(0) =~= Seq::<CodeV>::empty());
                        assert(find_opener(cs, name@) is None);
                    }
                    let ghost base = items@;
                    let leaf = Code::Inline(Token::CloseTag(name.clone()));
                    items.push(leaf);
                    proof {
                        lemma_codes_view_push(base, items@.last());
                        assert(codes_view(items@) == build_step(cs, all[j as int]));
                    }
                }
            }
            _ => {
                let ghost base = items@;
                let leaf = Code::Inline(tokens[j].clone());
                items.push(leaf);
                proof {
                    assert(all[j as int] == tokens@[j as int]@);
                    lemma_codes_view_push(base, items@.last());
                    assert(codes_view(items@) =~= build_step(cs, all[j as int]));
                }
            }
        }
        proof {
            assert(all.take(j + 1).drop_last() =~= all.take(j as int));
            assert(all.take(j + 1).last() == all[j as int]);
        }
        j = j + 1;
    }
    proof {
        assert(all.take(n as int) =~= all);
    }
    items
}

/// Renders one node against the registry, as `render_code_v` describes.
#[verifier::loop_isolation(false)]
pub(crate) fn render_code<H: Handler>(c: &Code, reg: &Shortcode<H>) -> (r: String)
    ensures
        r@ == render_code_v(c@, reg@),
    decreases c,
{
    match c {
        Code::Inline(t) => match t {
            Token::Text(_) => t.render_raw(),
            Token::CloseTag(_) => t.render_raw(),
            Token::SelfClose(name) => match reg.get(name.as_str()) {
                Some(h) => t.render(h),
                None => t.render_raw(),
            },
            Token::SelfCloseAttr(name, _) => match reg.get(name.as_str()) {
                Some(h) => t.render(h),
                None => t.render_raw(),
            },
        },
        Code::Nested(t, children) => {
            proof {
                assert(*children == (*c)->Nested_1);
                assert(decreases_to!(*c => (*c)->Nested_1));
            }
            let inner = render_children(children, reg);
            let name = close_name_of(t);
            match reg.get(name.as_str()) {
                Some(h) => {
                    let am = t.get_attr_map();
                    h.call(Some(inner.as_str()), &am)
                }
                None => {
                    let mut out = t.render_raw();
                    out.append(inner.as_str());
                    let close = Token::CloseTag(name).render_raw();
                    out.append(close.as_str());
                    proof {
                        assert(out@ =~= render_code_v(c@, reg@));
                    }
                    out
                }
            }
        }
    }
}

/// Renders a node sequence left to right and concatenates the results.
#[verifier::loop_isolation(false)]
pub(crate) fn render_children<H: Handler>(children: &Vec<Code>, reg: &Shortcode<H>) -> (r: String)
    ensures
        r@ == render_codes_v(codes_view(children@), reg@),
    decreases children,
{
    let mut out = String::new();
    let n = children.len();
    proof {
        lemma_codes_view_index(children@);
        assert(codes_view(children@).take(0) =~= Seq::<CodeV>::empty());
    }
    let mut i: usize = 0;
    while i < n
        invariant
            0 <= i <= n,
            out@ == render_codes_v(codes_view(children@).take(i as int), reg@),
        decreases n - i,
    {
        proof {
            assert(decreases_to!(*children => children@));
            assert(decreases_to!(children@ => children@[i as int]));
        }
        let piece = render_code(&children[i], reg);
        out.append(piece.as_str());
        proof {
            lemma_render_codes_v_push(
                codes_view(children@).take(i as int),
                children@[i as int]@,
                reg@,
            );
            assert(codes_view(children@).take(i as int).push(children@[i as int]@)
                =~= codes_view(children@).take(i + 1));
            assert(out@ =~= render_codes_v(codes_view(children@).take(i + 1), reg@));
        }
        i = i + 1;
    }
    proof {
        assert(codes_view(children@).take(n as int) =~= codes_view(children@));
    }
    out
}

/// The render engine: it owns the parse tree of one input and renders it
/// against a registry.
pub struct Renderer {
    items: Vec<Code>,
}

impl View for Renderer {
    type V = Seq<CodeV>;

    /// A renderer is seen as the parse tree it holds.
    closed spec fn view(&self) -> Seq<CodeV> {
        codes_view(self.items@)
    }
}

impl Renderer {
    /// Builds the parse tree of a token sequence.
    pub fn new(tokens: &Vec<Token>) -> (r: Renderer)
        ensures
            r@ == build_v(tokens_view(tokens@)),
    {
        Renderer { items: build_codes(tokens) }
    }

    /// Renders the tree against the registry.
    pub fn render<H: Handler>(&self, reg: &Shortcode<H>) -> (r: String)
        ensures
            r@ == render_codes_v(self@, reg@),
    {
        render_children(&self.items, reg)
    }
}

} // verus!
