use vstd::prelude::*;
use vstd::string::StrSliceExecFns;
use crate::token::{Token, TokenV, AttrV, attrs_view, tokens_view, attr_view, clone_attrs};

verus! {

/// Appends one character to the string.
/// Relies on `String::push`, which appends the given character at the end.
pub assume_specification[ String::push ](s: &mut String, ch: char)
    ensures
        final(s)@ == old(s)@.push(ch),
;

/// The five states of the tokenizer: scanning literal text, a tag name, an
/// attribute name, the opening quote of an attribute value, or the value
/// itself up to its closing quote.
pub ghost enum LexMode {
    Text,
    TagStart,
    AttrKey,
    AttrValueStart,
    AttrValueEnd,
}

/// The complete state of the tokenizer between two characters.
pub ghost struct LexState {
    /// Current mode.
    pub mode: LexMode,
    /// Tokens emitted so far.
    pub tokens: Seq<TokenV>,
    /// Pending literal text, flushed at the next `[` or at end of input.
    pub text: Seq<char>,
    /// Pending tag name.
    pub tag: Seq<char>,
    /// Whether the pending tag started with `/`.
    pub closing: bool,
    /// Attributes committed for the pending tag, in source order.
    pub attrs: Seq<AttrV>,
    /// Pending attribute name.
    pub key: Seq<char>,
    /// Pending attribute value.
    pub val: Seq<char>,
    /// The quote character that opened the pending attribute value.
    pub quote: char,
}

/// The state the tokenizer starts in.
pub open spec fn lex_init() -> LexState {
    LexState {
        mode: LexMode::Text,
        tokens: Seq::empty(),
        text: Seq::empty(),
        tag: Seq::empty(),
        closing: false,
        attrs: Seq::empty(),
        key: Seq::empty(),
        val: Seq::empty(),
        quote: '"',
    }
}

/// One step of the tokenizer: how a state changes on one input character.
///
/// In `Text`, a `[` flushes non-empty pending text and opens a tag. In
/// `TagStart`, a space moves to attributes, `/` marks the tag closing, `]`
/// emits the tag, and any other character extends the name. In `AttrKey`,
/// `=` expects a value, a space commits a non-empty pending name as a
/// boolean attribute, `]` commits any pending boolean attribute and emits
/// the tag. In `AttrValueStart`,
/// anything but a quote is skipped. In `AttrValueEnd`, the matching quote
/// commits the pair; every other character, the other quote included,
/// belongs to the value.
///
/// A pending attribute name is consumed only where a commit clears it: a
/// name left pending when a tag is emitted carries into the next tag's
/// attribute scan, so a later value can be committed under the
/// concatenation of both names.
pub open spec fn lex_step(st: LexState, c: char) -> LexState {
    match st.mode {
        LexMode::Text => {
            if c == '[' {
                LexState {
                    mode: LexMode::TagStart,
                    tokens: if st.text.len() == 0 {
                        st.tokens
                    } else {
                        st.tokens.push(TokenV::Text(st.text))
                    },
                    text: Seq::empty(),
                    ..st
                }
            } else {
                LexState { text: st.text.push(c), ..st }
            }
        }
        LexMode::TagStart => {
            if c == ' ' {
                LexState { mode: LexMode::AttrKey, ..st }
            } else if c == '/' {
                LexState { closing: true, ..st }
            } else if c == ']' {
                LexState {
                    mode: LexMode::Text,
                    tokens: st.tokens.push(
                        if st.closing {
                            TokenV::CloseTag(st.tag)
                        } else {
                            TokenV::SelfClose(st.tag)
                        },
                    ),
                    tag: Seq::empty(),
                    closing: false,
                    ..st
                }
            } else {
                LexState { tag: st.tag.push(c), ..st }
            }
        }
        LexMode::AttrKey => {
            if c == '=' {
                LexState { mode: LexMode::AttrValueStart, ..st }
            } else if c == ' ' {
                if st.key.len() == 0 {
                    st
                } else {
                    LexState { attrs: st.attrs.push((st.key, None)), key: Seq::empty(), ..st }
                }
            } else if c == ']' {
                LexState {
                    mode: LexMode::Text,
                    tokens: st.tokens.push(
                        TokenV::SelfCloseAttr(
                            st.tag,
                            if st.key.len() == 0 {
                                st.attrs
                            } else {
                                st.attrs.push((st.key, None))
                            },
                        ),
                    ),
                    tag: Seq::empty(),
                    closing: false,
                    attrs: Seq::empty(),
                    ..st
                }
            } else {
                LexState { key: st.key.push(c), ..st }
            }
        }
        LexMode::AttrValueStart => {
            if c == '"' || c == '\'' {
                LexState { mode: LexMode::AttrValueEnd, quote: c, ..st }
            } else {
                st
            }
        }
        LexMode::AttrValueEnd => {
            if c == st.quote {
                LexState {
                    mode: LexMode::AttrKey,
                    attrs: st.attrs.push((st.key, Some(st.val))),
                    key: Seq::empty(),
                    val: Seq::empty(),
                    ..st
                }
            } else {
                LexState { val: st.val.push(c), ..st }
            }
        }
    }
}

/// Runs the tokenizer over a character sequence, left to right.
pub open spec fn lex_run(st: LexState, s: Seq<char>) -> LexState
    decreases s.len(),
{
    if s.len() == 0 {
        st
    } else {
        lex_run(lex_step(st, s.first()), s.drop_first())
    }
}

/// End of input: trailing pending text is flushed; an unterminated tag or
/// attribute value never reached `]` and emits nothing.
pub open spec fn lex_finish(st: LexState) -> Seq<TokenV> {
    if st.text.len() == 0 {
        st.tokens
    } else {
        st.tokens.push(TokenV::Text(st.text))
    }
}

/// The token sequence of an input text: the whole input run through the
/// state machine, with trailing text flushed.
pub open spec fn spec_tokenize(s: Seq<char>) -> Seq<TokenV> {
    lex_finish(lex_run(lex_init(), s))
}

/// Running the tokenizer over one more character steps the final state once.
pub proof fn lemma_lex_run_snoc(st: LexState, s: Seq<char>, c: char)
    ensures
        lex_run(st, s.push(c)) == lex_step(lex_run(st, s), c),
    decreases s.len(),
{
    if s.len() == 0 {
        assert(s.push(c).first() == c);
        assert(s.push(c).drop_first() =~= Seq::<char>::empty());
        assert(lex_run(lex_step(st, c), Seq::<char>::empty()) == lex_step(st, c));
        assert(lex_run(st, s) == st);
    } else {
        assert(s.push(c).first() == s.first());
        assert(s.push(c).drop_first() =~= s.drop_first().push(c));
        lemma_lex_run_snoc(lex_step(st, s.first()), s.drop_first(), c);
    }
}

/// Running the tokenizer over a concatenation runs it over both parts in turn.
pub proof fn lemma_lex_run_concat(st: LexState, a: Seq<char>, b: Seq<char>)
    ensures
        lex_run(st, a + b) == lex_run(lex_run(st, a), b),
    decreases b.len(),
{
    if b.len() == 0 {
        assert(a + b =~= a);
        assert(lex_run(lex_run(st, a), b) == lex_run(st, a));
    } else {
        lemma_lex_run_concat(st, a, b.drop_last());
        assert(a + b =~= (a + b.drop_last()).push(b.last()));
        assert(b.drop_last().push(b.last()) =~= b);
        lemma_lex_run_snoc(st, a + b.drop_last(), b.last());
        lemma_lex_run_snoc(lex_run(st, a), b.drop_last(), b.last());
    }
}

/// The tokenizer's private state names: which of the five modes it is in.
#[derive(Clone, Copy)]
enum State {
    Text,
    TagStart,
    AttrKey,
    AttrValueStart,
    AttrValueEnd,
}

/// The tokenizer. It scans the input once, left to right, and produces the
/// flat token sequence that `spec_tokenize` describes: text runs, opening
/// tags with their attributes in source order, and closing tags.
pub struct Parser {
    content: Vec<char>,
    tokens: Vec<Token>,
    state: State,
    text: String,
    tag: String,
    is_tag_end: bool,
    attrs: Vec<(String, Option<String>)>,
    attr_key: String,
    attr_value: String,
    attr_quote: char,
}

impl View for Parser {
    type V = Seq<char>;

    /// A parser is seen from outside as the input text it was built over.
    closed spec fn view(&self) -> Seq<char> {
        self.content@
    }
}

impl Parser {
    /// The tokenizer state, as the mathematical machine sees it.
    pub closed spec fn lex(self) -> LexState {
        LexState {
            mode: match self.state {
                State::Text => LexMode::Text,
                State::TagStart => LexMode::TagStart,
                State::AttrKey => LexMode::AttrKey,
                State::AttrValueStart => LexMode::AttrValueStart,
                State::AttrValueEnd => LexMode::AttrValueEnd,
            },
            tokens: tokens_view(self.tokens@),
            text: self.text@,
            tag: self.tag@,
            closing: self.is_tag_end,
            attrs: attrs_view(self.attrs@),
            key: self.attr_key@,
            val: self.attr_value@,
            quote: self.attr_quote,
        }
    }

    /// A fresh tokenizer over the given input.
    pub fn new(content: &str) -> (r: Parser)
        ensures
            r@ == content@,
            r.lex() == lex_init(),
    {
        let chars = str_to_chars(content);
        let r = Parser {
            content: chars,
            tokens: Vec::new(),
            state: State::Text,
            text: String::new(),
            tag: String::new(),
            is_tag_end: false,
            attrs: Vec::new(),
            attr_key: String::new(),
            attr_value: String::new(),
            attr_quote: '"',
        };
        proof {
            assert(tokens_view(r.tokens@) =~= Seq::<TokenV>::empty());
            assert(attrs_view(r.attrs@) =~= Seq::<AttrV>::empty());
        }
        r
    }

    /// Handles one character of literal text: `[` flushes the pending run
    /// and opens a tag, anything else extends the run.
    fn parse_text(&mut self, c: char)
        requires
            old(self).lex().mode is Text,
        ensures
            final(self).lex() == lex_step(old(self).lex(), c),
            final(self).content == old(self).content,
    {
        if c == '[' {
            if !self.text.as_str().is_empty() {
                let t = self.text.clone();
                self.tokens.push(Token::Text(t));
            }
            self.text = String::new();
            self.state = State::TagStart;
            proof {
                assert(tokens_view(self.tokens@) =~= lex_step(old(self).lex(), c).tokens);
            }
        } else {
            self.text.push(c);
        }
    }

    /// Handles one character of a tag name: space moves to attributes, `/`
    /// marks the tag as closing, `]` emits the tag, anything else extends
    /// the name.
    fn parse_tag_start(&mut self, c: char)
        requires
            old(self).lex().mode is TagStart,
        ensures
            final(self).lex() == lex_step(old(self).lex(), c),
            final(self).content == old(self).content,
    {
        if c == ' ' {
            self.state = State::AttrKey;
        } else if c == '/' {
            self.is_tag_end = true;
        } else if c == ']' {
            let name = self.tag.clone();
            if self.is_tag_end {
                self.tokens.push(Token::CloseTag(name));
            } else {
                self.tokens.push(Token::SelfClose(name));
            }
            self.tag = String::new();
            self.is_tag_end = false;
            self.state = State::Text;
            proof {
                assert(tokens_view(self.tokens@) =~= lex_step(old(self).lex(), c).tokens);
            }
        } else {
            self.tag.push(c);
        }
    }

    /// Handles one character of an attribute name: `=` expects a value, a
    /// space commits a boolean attribute, `]` commits any pending boolean
    /// attribute and emits the tag, anything else extends the name.
    fn parse_attr_key(&mut self, c: char)
        requires
            old(self).lex().mode is AttrKey,
        ensures
            final(self).lex() == lex_step(old(self).lex(), c),
            final(self).content == old(self).content,
    {
        if c == '=' {
            self.state = State::AttrValueStart;
        } else if c == ' ' {
            if !self.attr_key.as_str().is_empty() {
                let key = self.attr_key.clone();
                self.attrs.push((key, None));
                self.attr_key = String::new();
                proof {
                    assert(attrs_view(self.attrs@) =~= lex_step(old(self).lex(), c).attrs);
                }
            }
        } else if c == ']' {
            if !self.attr_key.as_str().is_empty() {
                let key = self.attr_key.clone();
                self.attrs.push((key, None));
            }
            proof {
                assert(attrs_view(self.attrs@) =~= (if old(self).lex().key.len() == 0 {
                    old(self).lex().attrs
                } else {
                    old(self).lex().attrs.push((old(self).lex().key, None))
                }));
            }
            let name = self.tag.clone();
            let attrs = clone_attrs(&self.attrs);
            self.tokens.push(Token::SelfCloseAttr(name, attrs));
            self.tag = String::new();
            self.is_tag_end = false;
            self.attrs = Vec::new();
            self.state = State::Text;
            proof {
                assert(tokens_view(self.tokens@) =~~= lex_step(old(self).lex(), c).tokens);
                assert(attrs_view(self.attrs@) =~= Seq::<AttrV>::empty());
            }
        } else {
            self.attr_key.push(c);
        }
    }

    /// Waits for the quote that opens an attribute value; any other
    /// character is tolerated and skipped.
    fn parse_attr_value_start(&mut self, c: char)
        requires
            old(self).lex().mode is AttrValueStart,
        ensures
            final(self).lex() == lex_step(old(self).lex(), c),
            final(self).content == old(self).content,
    {
        if c == '"' || c == '\'' {
            self.state = State::AttrValueEnd;
            self.attr_quote = c;
        }
    }

    /// Accumulates an attribute value until the quote that opened it
    /// reappears and commits the pair; the other quote character is inert
    /// inside the value.
    fn parse_attr_value_end(&mut self, c: char)
        requires
            old(self).lex().mode is AttrValueEnd,
        ensures
            final(self).lex() == lex_step(old(self).lex(), c),
            final(self).content == old(self).content,
    {
        if c == self.attr_quote {
            let key = self.attr_key.clone();
            let val = self.attr_value.clone();
            self.attrs.push((key, Some(val)));
            self.attr_key = String::new();
            self.attr_value = String::new();
            self.state = State::AttrKey;
            proof {
                assert(attrs_view(self.attrs@) =~= lex_step(old(self).lex(), c).attrs);
            }
        } else {
            self.attr_value.push(c);
        }
    }

    /// Scans the whole input and returns its token sequence: an ordered
    /// cover of the input, with literal runs kept verbatim, tags carrying
    /// their attributes in source order, and unterminated markup at end of
    /// input dropped.
    pub fn parse(self) -> (r: Vec<Token>)
        requires
            self.lex() == lex_init(),
        ensures
            tokens_view(r@) == spec_tokenize(self@),
    {
        let mut p = self;
        let ghost input = p.content@;
        let n = p.content.len();
        let mut i: usize = 0;
        proof {
            assert(input.take(0) =~= Seq::<char>::empty());
        }
        while i < n
            invariant
                0 <= i <= n,
                n == p.content.len(),
                p.content@ == input,
                p.lex() == lex_run(lex_init(), input.take(i as int)),
            decreases n - i,
        {
            let c = p.content[i];
            match p.state {
                State::Text => p.parse_text(c),
                State::TagStart => p.parse_tag_start(c),
                State::AttrKey => p.parse_attr_key(c),
                State::AttrValueStart => p.parse_attr_value_start(c),
                State::AttrValueEnd => p.parse_attr_value_end(c),
            }
            proof {
                lemma_lex_run_snoc(lex_init(), input.take(i as int), input[i as int]);
                assert(input.take(i as int).push(input[i as int]) =~= input.take(i + 1));
            }
            i = i + 1;
        }
        proof {
            assert(input.take(n as int) =~= input);
        }
        if !p.text.as_str().is_empty() {
            let t = p.text.clone();
            p.tokens.push(Token::Text(t));
            proof {
                assert(tokens_view(p.tokens@) =~= spec_tokenize(input));
            }
        }
        p.tokens
    }
}

/// Collects the characters of a borrowed string slice.
fn str_to_chars(s: &str) -> (r: Vec<char>)
    ensures
        r@ == s@,
{
    let n: usize = s.unicode_len();
    let mut r: Vec<char> = Vec::new();
    let mut i: usize = 0;
    while i < n
        invariant
            0 <= i <= n,
            n == s@.len(),
            r@ == s@.take(i as int),
        decreases n - i,
    {
        let c = s.get_char(i);
        r.push(c);
        proof {
            assert(r@ =~= s@.take(i + 1));
        }
        i = i + 1;
    }
    proof {
        assert(s@.take(n as int) =~= s@);
    }
    r
}

} // verus!
