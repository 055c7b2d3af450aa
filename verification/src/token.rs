use vstd::prelude::*;
use vstd::string::StringExecFns;

verus! {

/// Mathematical model of one attribute: a name and an optional quoted value.
/// A name with no value stands for a boolean attribute such as `loop` in
/// `[video loop]`.
pub type AttrV = (Seq<char>, Option<Seq<char>>);

/// Mathematical model of a token: the atomic lexical unit of the markup.
pub ghost enum TokenV {
    /// A run of literal characters between tags.
    Text(Seq<char>),
    /// `[name]`: an opening tag without attributes.
    SelfClose(Seq<char>),
    /// `[name a="v" flag]`: an opening tag with its attributes in source order.
    /// Duplicate names are kept; a lookup resolves to the last occurrence.
    SelfCloseAttr(Seq<char>, Seq<AttrV>),
    /// `[/name]`: a closing tag.
    CloseTag(Seq<char>),
}

impl TokenV {
    /// The tag name, or `None` for literal text.
    pub open spec fn tag_name(self) -> Option<Seq<char>> {
        match self {
            TokenV::Text(_) => None,
            TokenV::SelfClose(n) => Some(n),
            TokenV::SelfCloseAttr(n, _) => Some(n),
            TokenV::CloseTag(n) => Some(n),
        }
    }

    /// True for the two opening-tag shapes, the only ones a closing tag can match.
    pub open spec fn is_opener(self) -> bool {
        self is SelfClose || self is SelfCloseAttr
    }

    /// The attribute sequence of the token (empty unless it carries attributes).
    pub open spec fn attrs(self) -> Seq<AttrV> {
        match self {
            TokenV::SelfCloseAttr(_, a) => a,
            _ => Seq::empty(),
        }
    }
}

/// The canonical textual form of one attribute: `name="value"` or a bare `name`.
pub open spec fn attr_raw(a: AttrV) -> Seq<char> {
    match a.1 {
        Some(v) => a.0 + seq!['=', '"'] + v + seq!['"'],
        None => a.0,
    }
}

/// The canonical textual form of an attribute sequence: entries joined by
/// single spaces, in source order.
pub open spec fn attrs_raw(attrs: Seq<AttrV>) -> Seq<char>
    decreases attrs.len(),
{
    if attrs.len() == 0 {
        Seq::empty()
    } else if attrs.len() == 1 {
        attr_raw(attrs[0])
    } else {
        attr_raw(attrs[0]) + seq![' '] + attrs_raw(attrs.drop_first())
    }
}

/// The canonical bracket syntax of a token, used whenever a tag is re-emitted
/// because no handler is registered for it.
pub open spec fn token_raw(t: TokenV) -> Seq<char> {
    match t {
        TokenV::Text(c) => c,
        TokenV::SelfClose(n) => seq!['['] + n + seq![']'],
        TokenV::SelfCloseAttr(n, attrs) => seq!['['] + n + seq![' '] + attrs_raw(attrs) + seq![']'],
        TokenV::CloseTag(n) => seq!['[', '/'] + n + seq![']'],
    }
}

/// The raw textual form of a token sequence: the tokens' raw forms,
/// concatenated in order.
pub open spec fn tokens_raw(ts: Seq<TokenV>) -> Seq<char>
    decreases ts,
{
    if ts.len() == 0 {
        Seq::empty()
    } else {
        tokens_raw(ts.drop_last()) + token_raw(ts.last())
    }
}

/// View of an optional owned string.
pub open spec fn opt_view(o: Option<String>) -> Option<Seq<char>> {
    match o {
        Some(s) => Some(s@),
        None => None,
    }
}

/// View of one executable attribute pair.
pub open spec fn attr_view(a: (String, Option<String>)) -> AttrV {
    (a.0@, opt_view(a.1))
}

/// View of an executable attribute sequence.
pub open spec fn attrs_view(attrs: Seq<(String, Option<String>)>) -> Seq<AttrV> {
    attrs.map_values(|a: (String, Option<String>)| attr_view(a))
}

/// A token of the markup language. Attributes are an ordered sequence of
/// `(name, optional value)` pairs, preserving source order and duplicates.
#[derive(Debug, PartialEq)]
pub enum Token {
    Text(String),
    SelfClose(String),
    SelfCloseAttr(String, Vec<(String, Option<String>)>),
    CloseTag(String),
}

impl View for Token {
    type V = TokenV;

    open spec fn view(&self) -> TokenV {
        match self {
            Token::Text(c) => TokenV::Text(c@),
            Token::SelfClose(n) => TokenV::SelfClose(n@),
            Token::SelfCloseAttr(n, attrs) => TokenV::SelfCloseAttr(n@, attrs_view(attrs@)),
            Token::CloseTag(n) => TokenV::CloseTag(n@),
        }
    }
}

/// View of an executable token sequence.
pub open spec fn tokens_view(ts: Seq<Token>) -> Seq<TokenV> {
    ts.map_values(|t: Token| t@)
}

/// What one token renders to through a given handler: an opening tag
/// becomes the handler's output for absent content and the tag's
/// attributes; literal text and a closing tag do not consult it.
pub open spec fn token_render_v<H: crate::shortcode::Handler>(t: TokenV, h: H) -> Seq<char> {
    match t {
        TokenV::Text(s) => s,
        TokenV::CloseTag(_) => token_raw(t),
        TokenV::SelfClose(_) => h.on_call(None, Seq::empty()),
        TokenV::SelfCloseAttr(_, a) => h.on_call(None, a),
    }
}

/// The name lookup a handler sees: the value of the last attribute with the
/// given name, if any. `Some(None)` means the attribute is present as a bare
/// boolean flag.
pub open spec fn attr_lookup(attrs: Seq<AttrV>, name: Seq<char>) -> Option<Option<Seq<char>>>
    decreases attrs.len(),
{
    if attrs.len() == 0 {
        None
    } else if attrs.last().0 == name {
        Some(attrs.last().1)
    } else {
        attr_lookup(attrs.drop_last(), name)
    }
}

/// The attribute mapping handed to a handler: the attributes of one opening
/// tag, in source order, with name lookup resolving to the last occurrence.
pub struct AttrMap {
    pairs: Vec<(String, Option<String>)>,
}

impl View for AttrMap {
    type V = Seq<AttrV>;

    closed spec fn view(&self) -> Seq<AttrV> {
        attrs_view(self.pairs@)
    }
}

impl AttrMap {
    /// An empty mapping, handed to handlers of tags without attributes.
    pub fn new() -> (r: AttrMap)
        ensures
            r@ == Seq::<AttrV>::empty(),
    {
        let r = AttrMap { pairs: Vec::new() };
        proof {
            assert(r@ =~= Seq::<AttrV>::empty());
        }
        r
    }

    /// How many attributes the tag carried, duplicates included.
    pub fn len(&self) -> (r: usize)
        ensures
            r == self@.len(),
    {
        self.pairs.len()
    }

    /// The attribute pairs in source order.
    pub fn pairs(&self) -> (r: &Vec<(String, Option<String>)>)
        ensures
            attrs_view(r@) == self@,
    {
        &self.pairs
    }

    /// Looks a name up; the last occurrence wins, as in a map filled in source
    /// order.
    pub fn get(&self, name: &str) -> (r: Option<&Option<String>>)
        ensures
            match r {
                Some(v) => attr_lookup(self@, name@) == Some(opt_view(*v)),
                None => attr_lookup(self@, name@) is None,
            },
    {
        let n = self.pairs.len();
        proof {
            assert(self@.take(n as int) =~= self@);
        }
        let mut i: usize = n;
        while i > 0
            invariant
                0 <= i <= n,
                n == self.pairs.len(),
                attr_lookup(self@, name@) == attr_lookup(self@.take(i as int), name@),
            decreases i,
        {
            i = i - 1;
            proof {
                assert(self@.take(i + 1).last() == self@[i as int]);
                assert(self@.take(i + 1).drop_last() =~= self@.take(i as int));
            }
            if string_eq_str(&self.pairs[i].0, name) {
                return Some(&self.pairs[i].1);
            }
        }
        proof {
            assert(self@.take(0) =~= Seq::<AttrV>::empty());
        }
        None
    }
}

/// Compares an owned string with a borrowed one.
/// Relies on `str::to_owned` (specified by vstd) and `String` equality.
pub(crate) fn string_eq_str(a: &String, b: &str) -> (r: bool)
    ensures
        r == (a@ == b@),
{
    let owned: String = b.to_owned();
    *a == owned
}

impl Token {
    /// The tag name, or `None` for literal text.
    pub fn tag_name(&self) -> (r: Option<&String>)
        ensures
            match r {
                Some(n) => self@.tag_name() == Some(n@),
                None => self@.tag_name() is None,
            },
    {
        match self {
            Token::Text(_) => None,
            Token::SelfClose(n) => Some(n),
            Token::SelfCloseAttr(n, _) => Some(n),
            Token::CloseTag(n) => Some(n),
        }
    }

    /// Joins attributes into their canonical textual form, space separated.
    pub fn attrs_to_string(attrs: &Vec<(String, Option<String>)>) -> (r: String)
        ensures
            r@ == attrs_raw(attrs_view(attrs@)),
    {
        let mut out = String::new();
        let n = attrs.len();
        proof {
            assert(attrs_view(attrs@).take(0) =~= Seq::<AttrV>::empty());
        }
        let mut i: usize = 0;
        while i < n
            invariant
                0 <= i <= n,
                n == attrs.len(),
                out@ == attrs_raw(attrs_view(attrs@).take(i as int)),
            decreases n - i,
        {
            if i > 0 {
                out.append(" ");
            }
            out.append(attrs[i].0.as_str());
            match &attrs[i].1 {
                Some(v) => {
                    out.append("=\"");
                    out.append(v.as_str());
                    out.append("\"");
                }
                None => {}
            }
            proof {
                reveal_strlit(" ");
                reveal_strlit("=\"");
                reveal_strlit("\"");
                let ghost avs = attrs_view(attrs@);
                lemma_attrs_raw_push(avs.take(i as int), avs[i as int]);
                assert(avs.take(i as int).push(avs[i as int]) =~= avs.take(i + 1));
                assert(out@ =~= attrs_raw(avs.take(i + 1)));
            }
            i = i + 1;
        }
        proof {
            assert(attrs_view(attrs@).take(n as int) =~= attrs_view(attrs@));
        }
        out
    }

    /// Rebuilds the token's original bracket syntax, with attributes in source
    /// order, `name="value"` for valued attributes and bare names for flags.
    pub fn render_raw(&self) -> (r: String)
        ensures
            r@ == token_raw(self@),
    {
        match self {
            Token::Text(c) => c.clone(),
            Token::SelfClose(n) => {
                let mut out = String::new();
                out.append("[");
                out.append(n.as_str());
                out.append("]");
                proof {
                    reveal_strlit("[");
                    reveal_strlit("]");
                    assert(out@ =~= token_raw(self@));
                }
                out
            }
            Token::SelfCloseAttr(n, attrs) => {
                let mut out = String::new();
                out.append("[");
                out.append(n.as_str());
                out.append(" ");
                let a = Token::attrs_to_string(attrs);
                out.append(a.as_str());
                out.append("]");
                proof {
                    reveal_strlit("[");
                    reveal_strlit(" ");
                    reveal_strlit("]");
                    assert(out@ =~= token_raw(self@));
                }
                out
            }
            Token::CloseTag(n) => {
                let mut out = String::new();
                out.append("[/");
                out.append(n.as_str());
                out.append("]");
                proof {
                    reveal_strlit("[/");
                    reveal_strlit("]");
                    assert(out@ =~= token_raw(self@));
                }
                out
            }
        }
    }

    /// Renders this one token through the given handler, as if its tag name
    /// were registered to it: an opening tag becomes the handler's output
    /// for absent content; literal text and a closing tag pass through
    /// untouched by it.
    pub fn render<H: crate::shortcode::Handler>(&self, handler: &H) -> (r: String)
        ensures
            r@ == token_render_v(self@, *handler),
    {
        match self {
            Token::Text(c) => c.clone(),
            Token::CloseTag(_) => self.render_raw(),
            Token::SelfClose(_) => {
                let am = self.get_attr_map();
                handler.call(None, &am)
            }
            Token::SelfCloseAttr(_, _) => {
                let am = self.get_attr_map();
                handler.call(None, &am)
            }
        }
    }

    /// The token's attributes as the mapping a handler receives; empty for
    /// tokens without attributes.
    pub fn get_attr_map(&self) -> (r: AttrMap)
        ensures
            r@ == self@.attrs(),
    {
        match self {
            Token::SelfCloseAttr(_, attrs) => {
                let pairs = clone_attrs(attrs);
                let r = AttrMap { pairs };
                proof {
                    assert(r@ =~= self@.attrs());
                }
                r
            }
            _ => {
                let r = AttrMap { pairs: Vec::new() };
                proof {
                    assert(r@ =~= self@.attrs());
                }
                r
            }
        }
    }
}

impl Clone for Token {
    /// The copy has the same view as the original.
    fn clone(&self) -> (r: Token)
        ensures
            r@ == self@,
    {
        match self {
            Token::Text(c) => Token::Text(c.clone()),
            Token::SelfClose(n) => Token::SelfClose(n.clone()),
            Token::SelfCloseAttr(n, attrs) => Token::SelfCloseAttr(n.clone(), clone_attrs(attrs)),
            Token::CloseTag(n) => Token::CloseTag(n.clone()),
        }
    }
}

/// Copies an attribute sequence pair by pair.
pub(crate) fn clone_attrs(attrs: &Vec<(String, Option<String>)>) -> (r: Vec<(String, Option<String>)>)
    ensures
        r@ == attrs@,
{
    let mut r: Vec<(String, Option<String>)> = Vec::new();
    let n = attrs.len();
    proof {
        assert(r@ =~= attrs@.take(0));
    }
    let mut i: usize = 0;
    while i < n
        invariant
            0 <= i <= n,
            n == attrs.len(),
            r@ == attrs@.take(i as int),
        decreases n - i,
    {
        let name = attrs[i].0.clone();
        let value = match &attrs[i].1 {
            Some(v) => Some(v.clone()),
            None => None,
        };
        r.push((name, value));
        proof {
            assert(r@ =~= attrs@.take(i + 1));
        }
        i = i + 1;
    }
    proof {
        assert(attrs@.take(n as int) =~= attrs@);
    }
    r
}

/// Appending one attribute to a sequence appends its textual form, after a
/// separating space when the sequence was not empty.
pub proof fn lemma_attrs_raw_push(attrs: Seq<AttrV>, a: AttrV)
    ensures
        attrs_raw(attrs.push(a)) == if attrs.len() == 0 {
            attr_raw(a)
        } else {
            attrs_raw(attrs) + seq![' '] + attr_raw(a)
        },
    decreases attrs.len(),
{
    if attrs.len() == 0 {
        assert(attrs.push(a)[0] == a);
    } else {
        assert(attrs.push(a).drop_first() =~= attrs.drop_first().push(a));
        lemma_attrs_raw_push(attrs.drop_first(), a);
        if attrs.len() == 1 {
            assert(attrs_raw(attrs) == attr_raw(attrs[0]));
        }
    }
}

} // verus!
