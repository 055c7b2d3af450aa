use vstd::prelude::*;
use crate::token::{TokenV, AttrV, token_raw, tokens_raw, attr_raw, attrs_raw};
use crate::code::{CodeV, code_raw, codes_raw, lemma_codes_raw_push, lemma_codes_raw_concat};
use crate::parser::{LexState, LexMode, lex_init, lex_step, lex_run, lex_finish, spec_tokenize,
    lemma_lex_run_concat};
use crate::renderer::{is_inline_opener, find_opener, build_step, build_v, render_code_v,
    render_codes_v, spec_render};
use crate::shortcode::{Handler, reg_lookup};

verus! {

/// With no handler registered, every node renders as its raw form.
pub proof fn lemma_render_code_empty<H: Handler>(c: CodeV, reg: Seq<(Seq<char>, H)>)
    requires
        reg.len() == 0,
    ensures
        render_code_v(c, reg) == code_raw(c),
    decreases c,
{
    match c {
        CodeV::Inline(_) => {
        }
        CodeV::Nested(_, children) => {
            lemma_render_codes_empty(children, reg);
        }
    }
}

/// With no handler registered, every node sequence renders as its raw form.
pub proof fn lemma_render_codes_empty<H: Handler>(cs: Seq<CodeV>, reg: Seq<(Seq<char>, H)>)
    requires
        reg.len() == 0,
    ensures
        render_codes_v(cs, reg) == codes_raw(cs),
    decreases cs,
{
    if cs.len() > 0 {
        lemma_render_codes_empty(cs.drop_last(), reg);
        lemma_render_code_empty(cs.last(), reg);
    }
}

/// A closing tag resolves innermost first: the backward scan yields the
/// most recent still-open same-named opening tag — nothing after it is
/// one — and yields nothing only when no such opener exists at all.
pub proof fn lemma_find_opener_some(cs: Seq<CodeV>, name: Seq<char>)
    ensures
        match find_opener(cs, name) {
            Some(i) => 0 <= i < cs.len() && is_inline_opener(cs[i], name) && (forall|m: int|
                i < m < cs.len() ==> !is_inline_opener(#[trigger] cs[m], name)),
            None => forall|m: int| 0 <= m < cs.len() ==> !is_inline_opener(#[trigger] cs[m], name),
        },
    decreases cs.len(),
{
    if cs.len() > 0 && !is_inline_opener(cs.last(), name) {
        lemma_find_opener_some(cs.drop_last(), name);
        assert forall|m: int| 0 <= m < cs.len() - 1 implies cs.drop_last()[m] == cs[m] by {
        }
        match find_opener(cs.drop_last(), name) {
            Some(i) => {
                assert(cs.drop_last()[i] == cs[i]);
            }
            None => {
            }
        }
    }
}

/// One step of tree building preserves the raw text: the new sequence's raw
/// form is the old one's followed by the token's.
pub proof fn lemma_build_step_raw(cs: Seq<CodeV>, t: TokenV)
    ensures
        codes_raw(build_step(cs, t)) == codes_raw(cs) + token_raw(t),
{
    match t {
        TokenV::CloseTag(name) => {
            lemma_find_opener_some(cs, name);
            match find_opener(cs, name) {
                Some(i) => {
                    let opener = cs[i].token();
                    let nested = CodeV::Nested(opener, cs.skip(i + 1));
                    lemma_codes_raw_concat(cs.take(i), seq![nested]);
                    assert(codes_raw(Seq::<CodeV>::empty()) == Seq::<char>::empty());
                    assert(seq![nested].drop_last() =~= Seq::<CodeV>::empty());
                    assert(seq![nested].last() == nested);
                    assert(codes_raw(seq![nested]) =~= code_raw(nested));
                    assert(nested.close_name() == name);
                    assert(code_raw(nested) == token_raw(opener) + codes_raw(cs.skip(i + 1))
                        + token_raw(TokenV::CloseTag(name)));
                    lemma_codes_raw_concat(cs.take(i), seq![cs[i]]);
                    lemma_codes_raw_concat(cs.take(i) + seq![cs[i]], cs.skip(i + 1));
                    assert(cs.take(i) + seq![cs[i]] + cs.skip(i + 1) =~= cs);
                    assert(seq![cs[i]].drop_last() =~= Seq::<CodeV>::empty());
                    assert(codes_raw(seq![cs[i]]) =~= code_raw(cs[i]));
                    assert(code_raw(cs[i]) == token_raw(opener));
                    assert(codes_raw(build_step(cs, t)) =~= codes_raw(cs) + token_raw(t));
                }
                None => {
                    lemma_codes_raw_push(cs, CodeV::Inline(t));
                }
            }
        }
        _ => {
            lemma_codes_raw_push(cs, CodeV::Inline(t));
        }
    }
}

/// Tree building preserves the raw text: nothing the builder folds or
/// leaves behind is lost or reordered.
pub proof fn lemma_build_raw(ts: Seq<TokenV>)
    ensures
        codes_raw(build_v(ts)) == tokens_raw(ts),
    decreases ts.len(),
{
    if ts.len() > 0 {
        lemma_build_raw(ts.drop_last());
        lemma_build_step_raw(build_v(ts.drop_last()), ts.last());
    }
}

/// Rendering with an empty registry re-emits every token of the input in
/// its raw bracket syntax: nothing is substituted, and no content is lost
/// between tokenizing and tree building.
pub proof fn theorem_empty_registry_raw<H: Handler>(s: Seq<char>, reg: Seq<(Seq<char>, H)>)
    requires
        reg.len() == 0,
    ensures
        spec_render(s, reg) == tokens_raw(spec_tokenize(s)),
{
    lemma_build_raw(spec_tokenize(s));
    lemma_render_codes_empty(build_v(spec_tokenize(s)), reg);
}

/// Characters other than `[` only accumulate into the pending text run.
pub proof fn lemma_lex_text_run(st: LexState, s: Seq<char>)
    requires
        (st.mode is Text),
        forall|i: int| 0 <= i < s.len() ==> s[i] != '[',
    ensures
        lex_run(st, s) == (LexState { text: st.text + s, ..st }),
    decreases s.len(),
{
    if s.len() == 0 {
        assert(st.text + s =~= st.text);
    } else {
        let st1 = lex_step(st, s.first());
        assert(st1 == LexState { text: st.text.push(s.first()), ..st });
        lemma_lex_text_run(st1, s.drop_first());
        assert(st.text.push(s.first()) + s.drop_first() =~= st.text + s);
    }
}

/// A text without `[` tokenizes to at most one literal run: itself.
pub proof fn lemma_tokenize_no_bracket(s: Seq<char>)
    requires
        forall|i: int| 0 <= i < s.len() ==> s[i] != '[',
    ensures
        s.len() == 0 ==> spec_tokenize(s) == Seq::<TokenV>::empty(),
        s.len() > 0 ==> spec_tokenize(s) == seq![TokenV::Text(s)],
{
    lemma_lex_text_run(lex_init(), s);
    assert(Seq::<char>::empty() + s =~= s);
    if s.len() > 0 {
        assert(spec_tokenize(s) =~= seq![TokenV::Text(s)]);
    }
}

/// A text that contains no `[` renders as itself, whatever the registry
/// holds: no tag is recognized in it and no handler is consulted.
pub proof fn theorem_no_bracket_identity<H: Handler>(s: Seq<char>, reg: Seq<(Seq<char>, H)>)
    requires
        forall|i: int| 0 <= i < s.len() ==> s[i] != '[',
    ensures
        spec_render(s, reg) == s,
{
    lemma_tokenize_no_bracket(s);
    if s.len() == 0 {
        assert(build_v(spec_tokenize(s)) == Seq::<CodeV>::empty());
        assert(spec_render(s, reg) =~= s);
    } else {
        crate::shortcode::lemma_render_single_text(s, reg);
    }
}

/// Tag and attribute names never contain the characters that end them: a
/// space, a closing bracket, or the slash that marks a closing tag.
pub open spec fn name_ok(n: Seq<char>) -> bool {
    forall|i: int| 0 <= i < n.len() ==> n[i] != ' ' && n[i] != ']' && n[i] != '/'
}

/// Attribute names never contain a space, `=` or `]`.
pub open spec fn key_ok(k: Seq<char>) -> bool {
    forall|i: int| 0 <= i < k.len() ==> k[i] != ' ' && k[i] != '=' && k[i] != ']'
}

/// Attribute values are re-emitted between double quotes, so a canonical
/// value contains none.
pub open spec fn val_ok(v: Seq<char>) -> bool {
    forall|i: int| 0 <= i < v.len() ==> v[i] != '"'
}

/// A canonical attribute: a clean name with a clean value, or a non-empty
/// clean name standing alone as a boolean flag.
pub open spec fn attr_ok(a: AttrV) -> bool {
    match a.1 {
        Some(v) => key_ok(a.0) && val_ok(v),
        None => key_ok(a.0) && a.0.len() > 0,
    }
}

/// A canonical token: one whose raw form reads back as exactly itself.
/// Text is non-empty and free of `[`; names and attributes are clean; and
/// an attribute list, unless empty, ends in a valued attribute, since a
/// trailing boolean flag would stay pending when the tag is emitted and
/// leak into the next tag's attribute scan.
pub open spec fn wf_token(t: TokenV) -> bool {
    match t {
        TokenV::Text(s) => s.len() > 0 && (forall|i: int| 0 <= i < s.len() ==> s[i] != '['),
        TokenV::SelfClose(n) => name_ok(n),
        TokenV::CloseTag(n) => name_ok(n),
        TokenV::SelfCloseAttr(n, attrs) => name_ok(n) && (forall|i: int|
            0 <= i < attrs.len() ==> attr_ok(#[trigger] attrs[i])) && (attrs.len() == 0
            || attrs.last().1 is Some),
    }
}

/// A canonical token sequence: canonical tokens, with no two adjacent
/// literal runs, which a single scan would merge.
pub open spec fn wf_tokens(ts: Seq<TokenV>) -> bool {
    &&& forall|i: int| 0 <= i < ts.len() ==> wf_token(#[trigger] ts[i])
    &&& forall|i: int| 0 <= i < ts.len() - 1 ==> !((#[trigger] ts[i]) is Text && ts[i + 1] is Text)
}

/// A state between tokens: scanning text, with nothing pending but
/// possibly the text run itself.
pub open spec fn between_tokens(st: LexState) -> bool {
    &&& st.mode is Text
    &&& st.tag.len() == 0
    &&& !st.closing
    &&& st.attrs.len() == 0
    &&& st.key.len() == 0
    &&& st.val.len() == 0
}

/// The tokens a pending text run turns into when it is flushed.
pub open spec fn flush_text(text: Seq<char>) -> Seq<TokenV> {
    if text.len() == 0 {
        Seq::<TokenV>::empty()
    } else {
        seq![TokenV::Text(text)]
    }
}

/// Running the tokenizer over a single character is one step.
pub proof fn lemma_lex_run_one(st: LexState, c: char)
    ensures
        lex_run(st, seq![c]) == lex_step(st, c),
{
    assert(seq![c].first() == c);
    assert(seq![c].drop_first() =~= Seq::<char>::empty());
    assert(lex_run(lex_step(st, c), Seq::<char>::empty()) == lex_step(st, c));
}

/// Characters of a tag name only accumulate into the pending name.
pub proof fn lemma_lex_tag_run(st: LexState, s: Seq<char>)
    requires
        (st.mode is TagStart),
        name_ok(s),
    ensures
        lex_run(st, s) == (LexState { tag: st.tag + s, ..st }),
    decreases s.len(),
{
    if s.len() == 0 {
        assert(st.tag + s =~= st.tag);
    } else {
        assert(name_ok(s.drop_first())) by {
            assert forall|i: int| 0 <= i < s.drop_first().len() implies s.drop_first()[i] != ' '
                && s.drop_first()[i] != ']' && s.drop_first()[i] != '/' by {
                assert(s.drop_first()[i] == s[i + 1]);
            }
        }
        let st1 = lex_step(st, s.first());
        assert(st1 == (LexState { tag: st.tag.push(s.first()), ..st }));
        lemma_lex_tag_run(st1, s.drop_first());
        assert(st.tag.push(s.first()) + s.drop_first() =~= st.tag + s);
    }
}

/// Characters of an attribute name only accumulate into the pending name.
pub proof fn lemma_lex_key_run(st: LexState, s: Seq<char>)
    requires
        (st.mode is AttrKey),
        key_ok(s),
    ensures
        lex_run(st, s) == (LexState { key: st.key + s, ..st }),
    decreases s.len(),
{
    if s.len() == 0 {
        assert(st.key + s =~= st.key);
    } else {
        assert(key_ok(s.drop_first())) by {
            assert forall|i: int| 0 <= i < s.drop_first().len() implies s.drop_first()[i] != ' '
                && s.drop_first()[i] != '=' && s.drop_first()[i] != ']' by {
                assert(s.drop_first()[i] == s[i + 1]);
            }
        }
        let st1 = lex_step(st, s.first());
        assert(st1 == (LexState { key: st.key.push(s.first()), ..st }));
        lemma_lex_key_run(st1, s.drop_first());
        assert(st.key.push(s.first()) + s.drop_first() =~= st.key + s);
    }
}

/// Characters of an attribute value only accumulate into the pending value
/// while the double quote that opened it is the active one.
pub proof fn lemma_lex_val_run(st: LexState, s: Seq<char>)
    requires
        (st.mode is AttrValueEnd),
        st.quote == '"',
        val_ok(s),
    ensures
        lex_run(st, s) == (LexState { val: st.val + s, ..st }),
    decreases s.len(),
{
    if s.len() == 0 {
        assert(st.val + s =~= st.val);
    } else {
        assert(val_ok(s.drop_first())) by {
            assert forall|i: int| 0 <= i < s.drop_first().len() implies s.drop_first()[i] != '"' by {
                assert(s.drop_first()[i] == s[i + 1]);
            }
        }
        let st1 = lex_step(st, s.first());
        assert(st1 == (LexState { val: st.val.push(s.first()), ..st }));
        lemma_lex_val_run(st1, s.drop_first());
        assert(st.val.push(s.first()) + s.drop_first() =~= st.val + s);
    }
}

/// Reading back the canonical form of one valued attribute commits exactly
/// that attribute and leaves the scan ready for the next name.
pub proof fn lemma_attr_run_valued(st: LexState, a: AttrV)
    requires
        (st.mode is AttrKey),
        st.key.len() == 0,
        st.val.len() == 0,
        attr_ok(a),
        (a.1 is Some),
    ensures
        lex_run(st, attr_raw(a)) == (LexState { attrs: st.attrs.push(a), quote: '"', ..st }),
{
    let v = a.1->0;
    let part1 = a.0 + seq!['=', '"'];
    let part2 = v + seq!['"'];
    assert(attr_raw(a) == part1 + part2);
    lemma_lex_run_concat(st, part1, part2);
    lemma_lex_run_concat(st, a.0, seq!['=', '"']);
    lemma_lex_key_run(st, a.0);
    let st1 = lex_run(st, a.0);
    assert(st1 == (LexState { key: st.key + a.0, ..st }));
    assert(st.key + a.0 =~= a.0);
    assert(seq!['=', '"'].first() == '=');
    assert(seq!['=', '"'].drop_first() =~= seq!['"']);
    let st2 = lex_step(st1, '=');
    assert(st2 == (LexState { mode: LexMode::AttrValueStart, ..st1 }));
    assert(lex_run(st1, seq!['=', '"']) == lex_run(st2, seq!['"']));
    lemma_lex_run_one(st2, '"');
    let st3 = lex_step(st2, '"');
    assert(st3 == (LexState { mode: LexMode::AttrValueEnd, quote: '"', ..st2 }));
    lemma_lex_run_concat(st3, v, seq!['"']);
    lemma_lex_val_run(st3, v);
    let st4 = lex_run(st3, v);
    assert(st4 == (LexState { val: st3.val + v, ..st3 }));
    assert(st3.val + v =~= v);
    lemma_lex_run_one(st4, '"');
    let st5 = lex_step(st4, '"');
    assert(st5 == (LexState {
        mode: LexMode::AttrKey,
        attrs: st4.attrs.push((st4.key, Some(st4.val))),
        key: Seq::empty(),
        val: Seq::empty(),
        ..st4
    }));
    assert(st.key =~= Seq::<char>::empty());
    assert(st.val =~= Seq::<char>::empty());
    assert(st4.key == a.0);
    assert(Some(st4.val) == a.1);
    assert((st4.key, Some(st4.val)) == a);
    assert(lex_run(st, attr_raw(a)) == st5);
    assert(st5 == (LexState { attrs: st.attrs.push(a), quote: '"', ..st }));
}

/// Reading back a canonical attribute list, space separated and ending in
/// a valued attribute, commits exactly those attributes in order.
pub proof fn lemma_attrs_run(st: LexState, attrs: Seq<AttrV>)
    requires
        (st.mode is AttrKey),
        st.key.len() == 0,
        st.val.len() == 0,
        forall|i: int| 0 <= i < attrs.len() ==> attr_ok(#[trigger] attrs[i]),
        attrs.len() == 0 || (attrs.last().1 is Some),
    ensures
        attrs.len() == 0 ==> lex_run(st, attrs_raw(attrs)) == st,
        attrs.len() > 0 ==> lex_run(st, attrs_raw(attrs)) == (LexState {
            attrs: st.attrs + attrs,
            quote: '"',
            ..st
        }),
    decreases attrs.len(),
{
    assert(st.key =~= Seq::<char>::empty());
    assert(st.val =~= Seq::<char>::empty());
    if attrs.len() == 0 {
        assert(lex_run(st, attrs_raw(attrs)) == st);
    } else if attrs.len() == 1 {
        assert(attrs.last() == attrs[0]);
        lemma_attr_run_valued(st, attrs[0]);
        assert(st.attrs.push(attrs[0]) =~= st.attrs + attrs);
    } else {
        let a = attrs[0];
        let rest = attrs.drop_first();
        assert(attrs_raw(attrs) == attr_raw(a) + seq![' '] + attrs_raw(rest));
        assert(forall|i: int| 0 <= i < rest.len() ==> attr_ok(#[trigger] rest[i])) by {
            assert forall|i: int| 0 <= i < rest.len() implies attr_ok(#[trigger] rest[i]) by {
                assert(rest[i] == attrs[i + 1]);
            }
        }
        assert(rest.last() == attrs.last());
        lemma_lex_run_concat(st, attr_raw(a) + seq![' '], attrs_raw(rest));
        lemma_lex_run_concat(st, attr_raw(a), seq![' ']);
        assert(attr_raw(a) + seq![' '] + attrs_raw(rest) == (attr_raw(a) + seq![' ']) + attrs_raw(
            rest,
        ));
        if a.1 is Some {
            lemma_attr_run_valued(st, a);
            let st1 = lex_run(st, attr_raw(a));
            assert(st1 == (LexState { attrs: st.attrs.push(a), quote: '"', ..st }));
            lemma_lex_run_one(st1, ' ');
            let st2 = lex_step(st1, ' ');
            assert(st2 == st1);
            lemma_attrs_run(st2, rest);
            assert(st.attrs.push(a) + rest =~= st.attrs + attrs);
        } else {
            lemma_lex_key_run(st, a.0);
            let st1 = lex_run(st, a.0);
            assert(st1 == (LexState { key: st.key + a.0, ..st }));
            assert(st.key + a.0 =~= a.0);
            lemma_lex_run_one(st1, ' ');
            let st2 = lex_step(st1, ' ');
            assert(st2 == (LexState { attrs: st1.attrs.push((a.0, None)), key: Seq::empty(), ..st1 }));
            assert((a.0, None::<Seq<char>>) == a);
            lemma_attrs_run(st2, rest);
            assert(st.attrs.push(a) + rest =~= st.attrs + attrs);
        }
    }
}

/// Reading back the raw form of one canonical tag token, from a state
/// scanning text, flushes the pending run and emits exactly that token,
/// leaving the scan between tokens with no pending text.
pub proof fn lemma_tag_token_run(st: LexState, t: TokenV)
    requires
        between_tokens(st),
        wf_token(t),
        !(t is Text),
    ensures
        between_tokens(lex_run(st, token_raw(t))),
        lex_run(st, token_raw(t)).text.len() == 0,
        lex_run(st, token_raw(t)).tokens == st.tokens + flush_text(st.text) + seq![t],
{
    let flushed = st.tokens + flush_text(st.text);
    let st1 = lex_step(st, '[');
    assert(st1 == (LexState { mode: LexMode::TagStart, tokens: flushed, text: Seq::empty(), ..st }))
        by {
        if st.text.len() == 0 {
            assert(st.tokens + flush_text(st.text) =~= st.tokens);
        } else {
            assert(st.tokens + flush_text(st.text) =~= st.tokens.push(TokenV::Text(st.text)));
        }
    }
    match t {
        TokenV::SelfClose(n) => {
            assert(token_raw(t) == seq!['['] + n + seq![']']);
            lemma_lex_run_concat(st, seq!['['] + n, seq![']']);
            lemma_lex_run_concat(st, seq!['['], n);
            lemma_lex_run_one(st, '[');
            assert(seq!['['] + n + seq![']'] == (seq!['['] + n) + seq![']']);
            assert(seq!['['][0] == '[');
            lemma_lex_tag_run(st1, n);
            let st2 = lex_run(st1, n);
            assert(st2 == (LexState { tag: st1.tag + n, ..st1 }));
            assert(st1.tag + n =~= n);
            lemma_lex_run_one(st2, ']');
            let st3 = lex_step(st2, ']');
            assert(st3.tokens =~= flushed + seq![t]);
            assert(lex_run(st, token_raw(t)) == st3);
        }
        TokenV::CloseTag(n) => {
            assert(token_raw(t) == seq!['[', '/'] + n + seq![']']);
            lemma_lex_run_concat(st, seq!['[', '/'] + n, seq![']']);
            lemma_lex_run_concat(st, seq!['[', '/'], n);
            assert(seq!['[', '/'] + n + seq![']'] == (seq!['[', '/'] + n) + seq![']']);
            assert(seq!['[', '/'].first() == '[');
            assert(seq!['[', '/'].drop_first() =~= seq!['/']);
            assert(lex_run(st, seq!['[', '/']) == lex_run(st1, seq!['/']));
            lemma_lex_run_one(st1, '/');
            let st2 = lex_step(st1, '/');
            assert(st2 == (LexState { closing: true, ..st1 }));
            lemma_lex_tag_run(st2, n);
            let st3 = lex_run(st2, n);
            assert(st3 == (LexState { tag: st2.tag + n, ..st2 }));
            assert(st2.tag + n =~= n);
            lemma_lex_run_one(st3, ']');
            let st4 = lex_step(st3, ']');
            assert(st4.tokens =~= flushed + seq![t]);
            assert(lex_run(st, token_raw(t)) == st4);
        }
        TokenV::SelfCloseAttr(n, attrs) => {
            assert(token_raw(t) == seq!['['] + n + seq![' '] + attrs_raw(attrs) + seq![']']);
            let p1 = seq!['['] + n + seq![' '];
            lemma_lex_run_concat(st, p1 + attrs_raw(attrs), seq![']']);
            lemma_lex_run_concat(st, p1, attrs_raw(attrs));
            lemma_lex_run_concat(st, seq!['['] + n, seq![' ']);
            lemma_lex_run_concat(st, seq!['['], n);
            assert(seq!['['] + n + seq![' '] + attrs_raw(attrs) + seq![']'] == (p1 + attrs_raw(
                attrs,
            )) + seq![']']);
            assert(p1 == (seq!['['] + n) + seq![' ']);
            lemma_lex_run_one(st, '[');
            assert(seq!['['][0] == '[');
            lemma_lex_tag_run(st1, n);
            let st2 = lex_run(st1, n);
            assert(st2 == (LexState { tag: st1.tag + n, ..st1 }));
            assert(st1.tag + n =~= n);
            lemma_lex_run_one(st2, ' ');
            let st3 = lex_step(st2, ' ');
            assert(st3 == (LexState { mode: LexMode::AttrKey, ..st2 }));
            lemma_attrs_run(st3, attrs);
            let st4 = lex_run(st3, attrs_raw(attrs));
            assert(st4.attrs =~= attrs) by {
                if attrs.len() > 0 {
                    assert(st4.attrs == st3.attrs + attrs);
                    assert(st3.attrs + attrs =~= attrs);
                }
            }
            lemma_lex_run_one(st4, ']');
            let st5 = lex_step(st4, ']');
            assert(st5.tokens =~= flushed + seq![t]);
            assert(lex_run(st, token_raw(t)) == st5);
        }
        TokenV::Text(_) => {
        }
    }
}

/// The raw form of a token sequence starts with its first token's raw form.
pub proof fn lemma_tokens_raw_first(ts: Seq<TokenV>)
    requires
        ts.len() > 0,
    ensures
        tokens_raw(ts) == token_raw(ts.first()) + tokens_raw(ts.drop_first()),
    decreases ts.len(),
{
    if ts.len() == 1 {
        assert(ts.drop_last() =~= Seq::<TokenV>::empty());
        assert(ts.drop_first() =~= Seq::<TokenV>::empty());
        assert(ts.last() == ts.first());
        assert(tokens_raw(ts) =~= token_raw(ts.first()) + tokens_raw(ts.drop_first()));
    } else {
        lemma_tokens_raw_first(ts.drop_last());
        assert(ts.drop_last().first() == ts.first());
        assert(ts.drop_last().drop_first() =~= ts.drop_first().drop_last());
        assert(ts.drop_first().last() == ts.last());
        assert(tokens_raw(ts) == tokens_raw(ts.drop_last()) + token_raw(ts.last()));
        assert(tokens_raw(ts.drop_first()) == tokens_raw(ts.drop_first().drop_last()) + token_raw(
            ts.drop_first().last(),
        ));
        assert(tokens_raw(ts) =~= token_raw(ts.first()) + tokens_raw(ts.drop_first()));
    }
}

/// Reading back the raw form of a canonical token sequence, from a state
/// between tokens, appends exactly those tokens after the flushed pending
/// run.
pub proof fn lemma_tokens_run(st: LexState, ts: Seq<TokenV>)
    requires
        between_tokens(st),
        wf_tokens(ts),
        st.text.len() > 0 ==> (ts.len() == 0 || !(ts.first() is Text)),
    ensures
        lex_finish(lex_run(st, tokens_raw(ts))) == st.tokens + flush_text(st.text) + ts,
    decreases ts.len(),
{
    if ts.len() == 0 {
        assert(lex_run(st, tokens_raw(ts)) == st);
        assert(lex_finish(st) =~= st.tokens + flush_text(st.text) + ts);
    } else {
        let head = ts.first();
        let rest = ts.drop_first();
        assert(wf_token(head)) by {
            assert(ts[0] == head);
        }
        assert(wf_tokens(rest)) by {
            assert forall|i: int| 0 <= i < rest.len() implies wf_token(#[trigger] rest[i]) by {
                assert(rest[i] == ts[i + 1]);
            }
            assert forall|i: int| 0 <= i < rest.len() - 1 implies !((#[trigger] rest[i]) is Text
                && rest[i + 1] is Text) by {
                assert(rest[i] == ts[i + 1]);
                assert(rest[i + 1] == ts[i + 2]);
            }
        }
        lemma_tokens_raw_first(ts);
        lemma_lex_run_concat(st, token_raw(head), tokens_raw(rest));
        match head {
            TokenV::Text(s) => {
                assert(st.text.len() == 0);
                lemma_lex_text_run(st, s);
                let st1 = lex_run(st, token_raw(head));
                assert(st1 == (LexState { text: st.text + s, ..st }));
                assert(st.text + s =~= s);
                assert(rest.len() > 0 ==> !(rest.first() is Text)) by {
                    if rest.len() > 0 {
                        assert(ts[0] is Text);
                        assert(rest.first() == ts[1]);
                    }
                }
                lemma_tokens_run(st1, rest);
                assert(st.tokens + flush_text(s) + rest =~= st.tokens + flush_text(st.text) + ts);
            }
            _ => {
                lemma_tag_token_run(st, head);
                let st1 = lex_run(st, token_raw(head));
                lemma_tokens_run(st1, rest);
                assert((st.tokens + flush_text(st.text) + seq![head]) + flush_text(st1.text) + rest
                    =~= st.tokens + flush_text(st.text) + ts);
            }
        }
    }
}

/// Reading a canonical token sequence's raw text back through the
/// tokenizer yields exactly that sequence.
pub proof fn theorem_retokenize(ts: Seq<TokenV>)
    requires
        wf_tokens(ts),
    ensures
        spec_tokenize(tokens_raw(ts)) == ts,
{
    lemma_tokens_run(lex_init(), ts);
    assert(lex_init().tokens + flush_text(lex_init().text) + ts =~= ts);
}

/// Round trip: a text in canonical form — the raw form of any canonical
/// token sequence — renders unchanged under an empty registry.
pub proof fn theorem_render_round_trip<H: Handler>(ts: Seq<TokenV>, reg: Seq<(Seq<char>, H)>)
    requires
        wf_tokens(ts),
        reg.len() == 0,
    ensures
        spec_render(tokens_raw(ts), reg) == tokens_raw(ts),
{
    theorem_retokenize(ts);
    theorem_empty_registry_raw(tokens_raw(ts), reg);
}

/// Rendering with an empty registry is idempotent on every input whose
/// token sequence is canonical: rendering the rendered text changes
/// nothing further.
pub proof fn theorem_render_idempotent<H: Handler>(s: Seq<char>, reg: Seq<(Seq<char>, H)>)
    requires
        reg.len() == 0,
        forall|i: int| 0 <= i < spec_tokenize(s).len() ==> content_ok_token(
            #[trigger] spec_tokenize(s)[i],
        ),
    ensures
        spec_render(spec_render(s, reg), reg) == spec_render(s, reg),
{
    lemma_tokenize_struct(s);
    assert forall|i: int| 0 <= i < spec_tokenize(s).len() implies wf_token(
        #[trigger] spec_tokenize(s)[i],
    ) by {
        lemma_struct_content_wf(spec_tokenize(s)[i]);
    }
    theorem_empty_registry_raw(s, reg);
    theorem_render_round_trip(spec_tokenize(s), reg);
}


/// Attribute order reaches the handler: rendering the written form of an
/// attribute tag whose name is registered calls the handler with exactly
/// the attributes spelled in the input, in source order, duplicates and
/// boolean flags included.
pub proof fn theorem_attr_order<H: Handler>(
    name: Seq<char>,
    attrs: Seq<AttrV>,
    h: H,
    reg: Seq<(Seq<char>, H)>,
)
    requires
        wf_token(TokenV::SelfCloseAttr(name, attrs)),
        reg_lookup(reg, name) == Some(h),
    ensures
        spec_render(token_raw(TokenV::SelfCloseAttr(name, attrs)), reg) == h.on_call(None, attrs),
{
    let t = TokenV::SelfCloseAttr(name, attrs);
    let ts = seq![t];
    assert(wf_tokens(ts));
    theorem_retokenize(ts);
    assert(ts.drop_last() =~= Seq::<TokenV>::empty());
    assert(ts.last() == t);
    assert(tokens_raw(Seq::<TokenV>::empty()) == Seq::<char>::empty());
    assert(tokens_raw(ts) =~= token_raw(t));
    assert(spec_tokenize(token_raw(t)) == ts);
    assert(build_v(Seq::<TokenV>::empty()) == Seq::<CodeV>::empty());
    assert(build_v(ts) == build_step(Seq::<CodeV>::empty(), t));
    let cs = Seq::<CodeV>::empty().push(CodeV::Inline(t));
    assert(build_v(ts) == cs);
    assert(cs.drop_last() =~= Seq::<CodeV>::empty());
    assert(cs.last() == CodeV::Inline(t));
    assert(render_codes_v(Seq::<CodeV>::empty(), reg) == Seq::<char>::empty());
    assert(render_code_v(cs.last(), reg) == h.on_call(None, attrs));
    assert(render_codes_v(cs, reg) =~= h.on_call(None, attrs));
}


/// The structural half of a canonical attribute, which the tokenizer
/// guarantees by itself: a clean name, non-empty when the attribute is a
/// boolean flag.
pub open spec fn struct_ok_attr(a: AttrV) -> bool {
    key_ok(a.0) && ((a.1 is None) ==> a.0.len() > 0)
}

/// The structural half of a canonical token, which the tokenizer
/// guarantees by itself: non-empty bracket-free text, clean names, and
/// structurally clean attributes.
pub open spec fn struct_ok_token(t: TokenV) -> bool {
    match t {
        TokenV::Text(s) => s.len() > 0 && (forall|i: int| 0 <= i < s.len() ==> s[i] != '['),
        TokenV::SelfClose(n) => name_ok(n),
        TokenV::CloseTag(n) => name_ok(n),
        TokenV::SelfCloseAttr(n, attrs) => name_ok(n) && (forall|i: int|
            0 <= i < attrs.len() ==> struct_ok_attr(#[trigger] attrs[i])),
    }
}

/// The half of canonicity that only the input decides: every attribute
/// value avoids the double quote it will be re-emitted between, and an
/// attribute list, unless empty, ends in a valued attribute.
pub open spec fn content_ok_token(t: TokenV) -> bool {
    match t {
        TokenV::SelfCloseAttr(_, attrs) => (forall|i: int|
            0 <= i < attrs.len() ==> (((#[trigger] attrs[i]).1 is Some) ==> val_ok(attrs[i].1->0)))
            && (attrs.len() == 0 || (attrs.last().1 is Some)),
        _ => true,
    }
}

/// Structure and content together are exactly canonicity.
pub proof fn lemma_struct_content_wf(t: TokenV)
    requires
        struct_ok_token(t),
        content_ok_token(t),
    ensures
        wf_token(t),
{
}

/// The tokenizer's running invariant: everything emitted is structurally
/// canonical with no two adjacent literal runs, every pending piece is
/// clean, and pending text exists only while scanning text, never right
/// after a literal run was emitted.
pub open spec fn lex_inv(st: LexState) -> bool {
    &&& forall|i: int| 0 <= i < st.tokens.len() ==> struct_ok_token(#[trigger] st.tokens[i])
    &&& forall|i: int| 0 <= i < st.tokens.len() - 1 ==> !((#[trigger] st.tokens[i]) is Text
        && st.tokens[i + 1] is Text)
    &&& ((st.mode is Text) ==> st.tokens.len() == 0 || !(st.tokens.last() is Text))
    &&& (st.text.len() > 0 ==> (st.mode is Text))
    &&& forall|i: int| 0 <= i < st.text.len() ==> st.text[i] != '['
    &&& name_ok(st.tag)
    &&& key_ok(st.key)
    &&& forall|i: int| 0 <= i < st.attrs.len() ==> struct_ok_attr(#[trigger] st.attrs[i])
}

/// The tokenizer's invariant holds of its starting state.
pub proof fn lemma_lex_inv_init()
    ensures
        lex_inv(lex_init()),
{
}

/// One step of the tokenizer preserves its invariant.
pub proof fn lemma_lex_step_inv(st: LexState, c: char)
    requires
        lex_inv(st),
    ensures
        lex_inv(lex_step(st, c)),
{
    let r = lex_step(st, c);
    match st.mode {
        LexMode::Text => {
            if c == '[' {
                if st.text.len() > 0 {
                    assert(struct_ok_token(TokenV::Text(st.text)));
                    assert forall|i: int| 0 <= i < r.tokens.len() - 1 implies !((
                    #[trigger] r.tokens[i]) is Text && r.tokens[i + 1] is Text) by {
                        if i < r.tokens.len() - 2 {
                            assert(r.tokens[i] == st.tokens[i]);
                            assert(r.tokens[i + 1] == st.tokens[i + 1]);
                        } else {
                            assert(r.tokens[i] == st.tokens.last());
                        }
                    }
                }
            }
        }
        LexMode::TagStart => {
            if c == ']' {
                assert(r.tokens.last() == if st.closing {
                    TokenV::CloseTag(st.tag)
                } else {
                    TokenV::SelfClose(st.tag)
                });
            } else if c != ' ' && c != '/' {
                assert(name_ok(st.tag.push(c))) by {
                    assert forall|i: int| 0 <= i < st.tag.push(c).len() implies st.tag.push(c)[i]
                        != ' ' && st.tag.push(c)[i] != ']' && st.tag.push(c)[i] != '/' by {
                        if i < st.tag.len() {
                            assert(st.tag.push(c)[i] == st.tag[i]);
                        }
                    }
                }
            }
        }
        LexMode::AttrKey => {
            if c == '=' {
            } else if c == ' ' {
                if st.key.len() > 0 {
                    assert(struct_ok_attr((st.key, None)));
                }
            } else if c == ']' {
                let committed = if st.key.len() == 0 {
                    st.attrs
                } else {
                    st.attrs.push((st.key, None))
                };
                assert(forall|i: int| 0 <= i < committed.len() ==> struct_ok_attr(
                    #[trigger] committed[i],
                ));
                assert(struct_ok_token(TokenV::SelfCloseAttr(st.tag, committed)));
            } else {
                assert(key_ok(st.key.push(c))) by {
                    assert forall|i: int| 0 <= i < st.key.push(c).len() implies st.key.push(c)[i]
                        != ' ' && st.key.push(c)[i] != '=' && st.key.push(c)[i] != ']' by {
                        if i < st.key.len() {
                            assert(st.key.push(c)[i] == st.key[i]);
                        }
                    }
                }
            }
        }
        LexMode::AttrValueStart => {
        }
        LexMode::AttrValueEnd => {
            if c == st.quote {
                assert(struct_ok_attr((st.key, Some(st.val))));
            }
        }
    }
}

/// Running the tokenizer preserves its invariant.
pub proof fn lemma_lex_run_inv(st: LexState, s: Seq<char>)
    requires
        lex_inv(st),
    ensures
        lex_inv(lex_run(st, s)),
    decreases s.len(),
{
    if s.len() > 0 {
        lemma_lex_step_inv(st, s.first());
        lemma_lex_run_inv(lex_step(st, s.first()), s.drop_first());
    }
}

/// Every token the tokenizer emits is structurally canonical, and no two
/// literal runs stand next to each other.
pub proof fn lemma_tokenize_struct(s: Seq<char>)
    ensures
        forall|i: int| 0 <= i < spec_tokenize(s).len() ==> struct_ok_token(
            #[trigger] spec_tokenize(s)[i],
        ),
        forall|i: int| 0 <= i < spec_tokenize(s).len() - 1 ==> !((#[trigger] spec_tokenize(
            s,
        )[i]) is Text && spec_tokenize(s)[i + 1] is Text),
{
    lemma_lex_inv_init();
    lemma_lex_run_inv(lex_init(), s);
    let st = lex_run(lex_init(), s);
    if st.text.len() > 0 {
        assert(struct_ok_token(TokenV::Text(st.text)));
        assert forall|i: int| 0 <= i < spec_tokenize(s).len() - 1 implies !((#[trigger]
        spec_tokenize(s)[i]) is Text && spec_tokenize(s)[i + 1] is Text) by {
            if i < spec_tokenize(s).len() - 2 {
                assert(spec_tokenize(s)[i] == st.tokens[i]);
                assert(spec_tokenize(s)[i + 1] == st.tokens[i + 1]);
            } else {
                assert(spec_tokenize(s)[i] == st.tokens.last());
            }
        }
    }
}

} // verus!
