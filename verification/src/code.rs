use vstd::prelude::*;
use vstd::string::StringExecFns;
use crate::token::{Token, TokenV, token_raw, attrs_raw};

verus! {

/// Mathematical model of a parse-tree node.
pub ghost enum CodeV {
    /// A leaf: literal text, an opening tag with no matched closing tag, or
    /// an unmatched closing tag.
    Inline(TokenV),
    /// An opening tag together with everything between it and its resolved
    /// closing tag, in source order. The opening token is never a closing
    /// tag.
    Nested(TokenV, Seq<CodeV>),
}

impl CodeV {
    /// The opening or literal token of the node.
    pub open spec fn token(self) -> TokenV {
        match self {
            CodeV::Inline(t) => t,
            CodeV::Nested(t, _) => t,
        }
    }

    /// The tag name of the node, or `None` for literal text.
    pub open spec fn tag_name(self) -> Option<Seq<char>> {
        self.token().tag_name()
    }

    /// The name a synthesized closing tag carries: the node's tag name, or
    /// the empty name for a text node (which never becomes `Nested`).
    pub open spec fn close_name(self) -> Seq<char> {
        match self.tag_name() {
            Some(n) => n,
            None => Seq::empty(),
        }
    }
}

/// The raw textual form of a node: a leaf re-emits its token; a nested node
/// re-emits its opening tag, its children and a synthesized `[/name]`.
pub open spec fn code_raw(c: CodeV) -> Seq<char>
    decreases c,
{
    match c {
        CodeV::Inline(t) => token_raw(t),
        CodeV::Nested(t, children) => token_raw(t) + codes_raw(children) + token_raw(
            TokenV::CloseTag(CodeV::Nested(t, children).close_name()),
        ),
    }
}

/// The raw textual form of a node sequence: the nodes' raw forms, concatenated.
pub open spec fn codes_raw(cs: Seq<CodeV>) -> Seq<char>
    decreases cs,
{
    if cs.len() == 0 {
        Seq::empty()
    } else {
        codes_raw(cs.drop_last()) + code_raw(cs.last())
    }
}

/// A parse-tree node over owned tokens.
#[derive(Debug, PartialEq)]
pub enum Code {
    Inline(Token),
    Nested(Token, Vec<Code>),
}

/// View of a node, deep through the children.
pub open spec fn code_view(c: Code) -> CodeV
    decreases c,
{
    match c {
        Code::Inline(t) => CodeV::Inline(t@),
        Code::Nested(t, children) => CodeV::Nested(t@, codes_view_rec(children@)),
    }
}

/// View of a node sequence.
pub open spec fn codes_view_rec(cs: Seq<Code>) -> Seq<CodeV>
    decreases cs,
{
    if cs.len() == 0 {
        Seq::empty()
    } else {
        codes_view_rec(cs.drop_last()).push(code_view(cs.last()))
    }
}

impl View for Code {
    type V = CodeV;

    open spec fn view(&self) -> CodeV {
        code_view(*self)
    }
}

/// View of an executable node sequence.
pub open spec fn codes_view(cs: Seq<Code>) -> Seq<CodeV> {
    codes_view_rec(cs)
}

/// The view of a node sequence is the sequence of the views.
pub proof fn lemma_codes_view_index(cs: Seq<Code>)
    ensures
        codes_view(cs).len() == cs.len(),
        forall|i: int| 0 <= i < cs.len() ==> #[trigger] codes_view(cs)[i] == cs[i]@,
    decreases cs,
{
    if cs.len() > 0 {
        lemma_codes_view_index(cs.drop_last());
        assert forall|i: int| 0 <= i < cs.len() implies #[trigger] codes_view(cs)[i] == cs[i]@ by {
            if i < cs.len() - 1 {
                assert(cs.drop_last()[i] == cs[i]);
                assert(codes_view(cs.drop_last())[i] == cs.drop_last()[i]@);
            }
        }
    }
}

/// Appending a node appends its view.
pub proof fn lemma_codes_view_push(cs: Seq<Code>, c: Code)
    ensures
        codes_view(cs.push(c)) == codes_view(cs).push(c@),
{
    assert(cs.push(c).drop_last() =~= cs);
    assert(cs.push(c).last() == c);
}

impl Code {
    /// The tag name of the node, or `None` for literal text.
    pub fn tag_name(&self) -> (r: Option<&String>)
        ensures
            match r {
                Some(n) => self@.tag_name() == Some(n@),
                None => self@.tag_name() is None,
            },
    {
        match self {
            Code::Inline(t) => t.tag_name(),
            Code::Nested(t, _) => t.tag_name(),
        }
    }

    /// Re-emits the node in its original bracket syntax: leaves as their raw
    /// token, nested nodes as opening tag, raw children and closing tag.
    #[verifier::loop_isolation(false)]
    pub fn render_raw(&self) -> (r: String)
        ensures
            r@ == code_raw(self@),
        decreases self,
    {
        match self {
            Code::Inline(t) => t.render_raw(),
            Code::Nested(t, children) => {
                let mut out = t.render_raw();
                let n = children.len();
                proof {
                    lemma_codes_view_index(children@);
                    assert(codes_view(children@).take(0) =~= Seq::<CodeV>::empty());
                }
                let mut i: usize = 0;
                while i < n
                    invariant
                        0 <= i <= n,
                        n == children.len(),
                        codes_view(children@).len() == n,
                        forall|j: int| 0 <= j < n ==> #[trigger] codes_view(children@)[j] == children@[j]@,
                        out@ == token_raw(t@) + codes_raw(codes_view(children@).take(i as int)),
                    decreases n - i,
                {
                    proof {
                        assert(*children == (*self)->Nested_1);
                        assert(decreases_to!(*self => (*self)->Nested_1));
                        assert(decreases_to!((*self)->Nested_1 => (*self)->Nested_1@));
                        assert(decreases_to!((*self)->Nested_1@ => (*self)->Nested_1@[i as int]));
                        assert(decreases_to!(*self => children@[i as int]));
                    }
                    let piece = children[i].render_raw();
                    out.append(piece.as_str());
                    proof {
                        lemma_codes_raw_push(codes_view(children@).take(i as int), children@[i as int]@);
                        assert(codes_view(children@).take(i as int).push(children@[i as int]@)
                            =~= codes_view(children@).take(i + 1));
                        assert(out@ =~= token_raw(t@) + codes_raw(codes_view(children@).take(i + 1)));
                    }
                    i = i + 1;
                }
                let close = Token::CloseTag(close_name_of(t)).render_raw();
                out.append(close.as_str());
                proof {
                    assert(codes_view(children@).take(n as int) =~= codes_view(children@));
                    assert(out@ =~= code_raw(self@));
                }
                out
            }
        }
    }
}

/// Copies a token's tag name for a synthesized closing tag; text yields the
/// empty name.
pub(crate) fn close_name_of(t: &Token) -> (r: String)
    ensures
        r@ == CodeV::Inline(t@).close_name(),
{
    match t.tag_name() {
        Some(n) => n.clone(),
        None => {
            let r = String::new();
            proof {
                assert(r@ =~= Seq::<char>::empty());
            }
            r
        }
    }
}

/// Appending a node appends its raw form.
pub proof fn lemma_codes_raw_push(cs: Seq<CodeV>, c: CodeV)
    ensures
        codes_raw(cs.push(c)) == codes_raw(cs) + code_raw(c),
{
    assert(cs.push(c).drop_last() =~= cs);
    assert(cs.push(c).last() == c);
}

/// Concatenating node sequences concatenates their raw forms.
pub proof fn lemma_codes_raw_concat(a: Seq<CodeV>, b: Seq<CodeV>)
    ensures
        codes_raw(a + b) == codes_raw(a) + codes_raw(b),
    decreases b,
{
    if b.len() == 0 {
        assert(a + b =~= a);
        assert(codes_raw(a + b) =~= codes_raw(a) + codes_raw(b));
    } else {
        assert((a + b).drop_last() =~= a + b.drop_last());
        assert((a + b).last() == b.last());
        lemma_codes_raw_concat(a, b.drop_last());
        assert(codes_raw(a + b) =~= codes_raw(a) + codes_raw(b));
    }
}

} // verus!
