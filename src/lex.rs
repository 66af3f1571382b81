use vstd::prelude::*;

verus! {

/// Failure of the tokenizer.
#[derive(Debug, PartialEq, Eq, Structural)]
pub enum LexerError {
    /// The input ended inside an unterminated tag.
    MalformedHTML,
}

/// One lexical unit of the markup stream.
#[derive(Debug, Clone, PartialEq, Eq)]
pub enum Token {
    /// An opening tag: its name and its raw attribute text.
    Open(String, String),
    /// A closing tag: its name.
    Close(String),
    /// A tag with no body: its name and its raw attribute text.
    SelfClose(String, String),
    /// A run of text outside any tag.
    Inner(String),
}

/// The mathematical value of a [`Token`].
pub enum TokenView {
    Open(Seq<char>, Seq<char>),
    Close(Seq<char>),
    SelfClose(Seq<char>, Seq<char>),
    Inner(Seq<char>),
}

impl View for Token {
    type V = TokenView;

    open spec fn view(&self) -> TokenView {
        match self {
            Token::Open(n, a) => TokenView::Open(n@, a@),
            Token::Close(n) => TokenView::Close(n@),
            Token::SelfClose(n, a) => TokenView::SelfClose(n@, a@),
            Token::Inner(t) => TokenView::Inner(t@),
        }
    }
}

/// The views of a sequence of tokens.
pub open spec fn tokens_view(v: Seq<Token>) -> Seq<TokenView> {
    v.map_values(|t: Token| t@)
}

/// Unicode white space, as `char::is_whitespace` classifies it.
pub open spec fn is_ws(c: char) -> bool {
    let u = c as u32;
    (9 <= u <= 13) || u == 32 || u == 0x85 || u == 0xA0 || u == 0x1680 || (0x2000 <= u
        <= 0x200A) || u == 0x2028 || u == 0x2029 || u == 0x202F || u == 0x205F || u == 0x3000
}

/// `s` without its leading white space.
pub open spec fn trim_start(s: Seq<char>) -> Seq<char>
    decreases s.len(),
{
    if s.len() > 0 && is_ws(s[0]) {
        trim_start(s.drop_first())
    } else {
        s
    }
}

/// `s` without its trailing white space.
pub open spec fn trim_end(s: Seq<char>) -> Seq<char>
    decreases s.len(),
{
    if s.len() > 0 && is_ws(s.last()) {
        trim_end(s.drop_last())
    } else {
        s
    }
}

/// `s` without white space at either end.
pub open spec fn trim(s: Seq<char>) -> Seq<char> {
    trim_end(trim_start(s))
}

/// Index of the first white space in `s`, or its length if it has none.
pub open spec fn ws_pos(s: Seq<char>) -> int
    decreases s.len(),
{
    if s.len() == 0 || is_ws(s[0]) {
        0
    } else {
        1 + ws_pos(s.drop_first())
    }
}

/// The first white-space-delimited word of `s`.
pub open spec fn head_word(s: Seq<char>) -> Seq<char> {
    s.take(ws_pos(s))
}

/// What follows the first word of `s` and the one white space after it.
pub open spec fn after_word(s: Seq<char>) -> Seq<char> {
    if ws_pos(s) < s.len() {
        s.skip(ws_pos(s) + 1)
    } else {
        Seq::empty()
    }
}

/// The token that the text between `<` and `>` stands for.
pub open spec fn classify(b: Seq<char>) -> TokenView {
    if b.len() > 0 && b.last() == '/' {
        let t = trim(b.drop_last());
        TokenView::SelfClose(head_word(t), after_word(t))
    } else if b.len() > 0 && b[0] == '/' {
        TokenView::Close(trim(b.drop_first()))
    } else {
        let t = trim(b);
        TokenView::Open(head_word(t), after_word(t))
    }
}

/// The scanner's state: tokens so far, the pending tag and text buffers, and
/// whether it stands inside a tag.
pub struct LexState {
    pub tokens: Seq<TokenView>,
    pub tag: Seq<char>,
    pub text: Seq<char>,
    pub inside: bool,
}

/// The scanner's state after one more character.
pub open spec fn lex_step(st: LexState, c: char) -> LexState {
    if c == '<' {
        if st.text.len() > 0 {
            LexState {
                tokens: st.tokens.push(TokenView::Inner(st.text)),
                text: Seq::empty(),
                inside: true,
                ..st
            }
        } else {
            LexState { inside: true, ..st }
        }
    } else if c == '>' {
        LexState {
            tokens: st.tokens.push(classify(st.tag)),
            tag: Seq::empty(),
            inside: false,
            ..st
        }
    } else if st.inside {
        LexState { tag: st.tag.push(c), ..st }
    } else {
        LexState { text: st.text.push(c), ..st }
    }
}

/// The scanner's state after all of `cs`.
pub open spec fn lex_run(cs: Seq<char>) -> LexState
    decreases cs.len(),
{
    if cs.len() == 0 {
        LexState { tokens: Seq::empty(), tag: Seq::empty(), text: Seq::empty(), inside: false }
    } else {
        lex_step(lex_run(cs.drop_last()), cs.last())
    }
}

/// The tokens of a document: its trimmed text run through the scanner, which
/// must not end inside a tag. Text after the last tag belongs to no token.
pub open spec fn lex_spec(html: Seq<char>) -> Option<Seq<TokenView>> {
    let st = lex_run(trim(html));
    if st.inside {
        None
    } else {
        Some(st.tokens)
    }
}

/// Relies on `String::push`: appends one character.
#[verifier::external_body]
pub(crate) fn push_char(s: &mut String, c: char)
    ensures
        final(s)@ == old(s)@.push(c),
{
    s.push(c);
}

/// Whether `c` is white space.
pub fn is_whitespace(c: char) -> (r: bool)
    ensures
        r == is_ws(c),
{
    let u = c as u32;
    (9 <= u && u <= 13) || u == 32 || u == 0x85 || u == 0xA0 || u == 0x1680 || (0x2000 <= u && u
        <= 0x200A) || u == 0x2028 || u == 0x2029 || u == 0x202F || u == 0x205F || u == 0x3000
}

/// The characters `v[lo..hi]` as a string.
fn string_of(v: &Vec<char>, lo: usize, hi: usize) -> (r: String)
    requires
        lo <= hi <= v@.len(),
    ensures
        r@ == v@.subrange(lo as int, hi as int),
{
    let mut r = String::new();
    let mut i: usize = lo;
    while i < hi
        invariant
            lo <= i <= hi <= v@.len(),
            r@ == v@.subrange(lo as int, i as int),
        decreases hi - i,
    {
        push_char(&mut r, v[i]);
        assert(v@.subrange(lo as int, i + 1) =~= v@.subrange(lo as int, i as int).push(v@[i as int]));
        i = i + 1;
    }
    r
}

/// The bounds of `v[a..b]` without white space at either end.
fn trim_bounds(v: &Vec<char>, a: usize, b: usize) -> (r: (usize, usize))
    requires
        a <= b <= v@.len(),
    ensures
        a <= r.0 <= r.1 <= b,
        v@.subrange(r.0 as int, r.1 as int) == trim(v@.subrange(a as int, b as int)),
{
    let mut lo: usize = a;
    while lo < b && is_whitespace(v[lo])
        invariant
            a <= lo <= b <= v@.len(),
            trim_start(v@.subrange(a as int, b as int)) == trim_start(v@.subrange(lo as int, b as int)),
        decreases b - lo,
    {
        assert(v@.subrange(lo as int, b as int).drop_first() =~= v@.subrange(lo + 1, b as int));
        lo = lo + 1;
    }
    let mut hi: usize = b;
    while hi > lo && is_whitespace(v[hi - 1])
        invariant
            a <= lo <= hi <= b <= v@.len(),
            trim_start(v@.subrange(a as int, b as int)) == v@.subrange(lo as int, b as int),
            trim_end(v@.subrange(lo as int, b as int)) == trim_end(v@.subrange(lo as int, hi as int)),
        decreases hi - lo,
    {
        assert(v@.subrange(lo as int, hi as int).drop_last() =~= v@.subrange(lo as int, hi - 1));
        hi = hi - 1;
    }
    (lo, hi)
}

/// The name and the rest of the tag text `v[lo..hi]`, split at its first
/// white space.
fn split_word(v: &Vec<char>, lo: usize, hi: usize) -> (r: (String, String))
    requires
        lo <= hi <= v@.len(),
    ensures
        r.0@ == head_word(v@.subrange(lo as int, hi as int)),
        r.1@ == after_word(v@.subrange(lo as int, hi as int)),
{
    let ghost t = v@.subrange(lo as int, hi as int);
    let mut p: usize = lo;
    while p < hi && !is_whitespace(v[p])
        invariant
            lo <= p <= hi <= v@.len(),
            t == v@.subrange(lo as int, hi as int),
            ws_pos(t) == (p - lo) + ws_pos(v@.subrange(p as int, hi as int)),
        decreases hi - p,
    {
        assert(v@.subrange(p as int, hi as int).drop_first() =~= v@.subrange(p + 1, hi as int));
        p = p + 1;
    }
    assert(ws_pos(t) == p - lo);
    assert(t.take(p - lo) =~= v@.subrange(lo as int, p as int));
    let name = string_of(v, lo, p);
    if p < hi {
        assert(t.skip(p - lo + 1) =~= v@.subrange(p + 1, hi as int));
        (name, string_of(v, p + 1, hi))
    } else {
        (name, String::new())
    }
}

/// The token for the tag text `b` found between `<` and `>`.
fn make_token(b: &Vec<char>) -> (t: Token)
    ensures
        t@ == classify(b@),
{
    let n = b.len();
    if n > 0 && b[n - 1] == '/' {
        let (lo, hi) = trim_bounds(b, 0, n - 1);
        assert(b@.subrange(0, n - 1) =~= b@.drop_last());
        let (name, rest) = split_word(b, lo, hi);
        Token::SelfClose(name, rest)
    } else if n > 0 && b[0] == '/' {
        let (lo, hi) = trim_bounds(b, 1, n);
        assert(b@.subrange(1, n as int) =~= b@.drop_first());
        Token::Close(string_of(b, lo, hi))
    } else {
        let (lo, hi) = trim_bounds(b, 0, n);
        assert(b@.subrange(0, n as int) =~= b@);
        let (name, rest) = split_word(b, lo, hi);
        Token::Open(name, rest)
    }
}

/// The characters of `html` without white space at either end.
fn sanitize(html: &str) -> (r: Vec<char>)
    ensures
        r@ == trim(html@),
{
    let mut cs: Vec<char> = Vec::new();
    for c in it: html.chars()
        invariant
            cs@ == it.seq().take(it.index() as int),
    {
        cs.push(c);
    }
    assert(cs@ =~= html@);
    let (lo, hi) = trim_bounds(&cs, 0, cs.len());
    assert(cs@.subrange(0, cs@.len() as int) =~= cs@);
    let mut r: Vec<char> = Vec::new();
    let mut i: usize = lo;
    while i < hi
        invariant
            lo <= i <= hi <= cs@.len(),
            r@ == cs@.subrange(lo as int, i as int),
        decreases hi - i,
    {
        r.push(cs[i]);
        assert(cs@.subrange(lo as int, i + 1) =~= cs@.subrange(lo as int, i as int).push(cs@[i as int]));
        i = i + 1;
    }
    r
}

/// The view of a tokenizer result: the tokens, or none on failure.
pub open spec fn lex_result(r: Result<Vec<Token>, LexerError>) -> Option<Seq<TokenView>> {
    match r {
        Ok(v) => Some(tokens_view(v@)),
        Err(_) => None,
    }
}

/// Splits a document into tokens; fails only where the text ends inside a
/// tag.
pub fn lex(html: &str) -> (r: Result<Vec<Token>, LexerError>)
    ensures
        lex_result(r) == lex_spec(html@),
        r matches Err(e) ==> e == LexerError::MalformedHTML,
{
    let cs = sanitize(html);
    let mut tokens: Vec<Token> = Vec::new();
    let mut tag: Vec<char> = Vec::new();
    let mut text = String::new();
    let mut inside = false;
    let mut i: usize = 0;
    assert(tokens_view(tokens@) =~= Seq::<TokenView>::empty());
    assert(tag@ =~= Seq::<char>::empty());
    while i < cs.len()
        invariant
            i <= cs@.len(),
            cs@ == trim(html@),
            lex_run(cs@.take(i as int)) == (LexState {
                tokens: tokens_view(tokens@),
                tag: tag@,
                text: text@,
                inside,
            }),
        decreases cs@.len() - i,
    {
        let c = cs[i];
        assert(cs@.take(i + 1).drop_last() =~= cs@.take(i as int));
        if c == '<' {
            inside = true;
            if !text.as_str().is_empty() {
                tokens.push(Token::Inner(text));
                text = String::new();
            }
        } else if c == '>' {
            tokens.push(make_token(&tag));
            tag = Vec::new();
            inside = false;
        } else if inside {
            tag.push(c);
        } else {
            push_char(&mut text, c);
        }
        assert(tokens_view(tokens@) =~= lex_step(lex_run(cs@.take(i as int)), c).tokens);
        i = i + 1;
    }
    assert(cs@.take(cs@.len() as int) =~= cs@);
    if inside {
        Err(LexerError::MalformedHTML)
    } else {
        Ok(tokens)
    }
}

/// Tokenizing is a function of the text alone: two results that the
/// tokenizer may give for the same text hold the same tokens.
pub proof fn lemma_lex_deterministic(
    html: Seq<char>,
    a: Result<Vec<Token>, LexerError>,
    b: Result<Vec<Token>, LexerError>,
)
    requires
        lex_result(a) == lex_spec(html),
        lex_result(b) == lex_spec(html),
    ensures
        lex_result(a) == lex_result(b),
{
}

proof fn lemma_trim_blank(s: Seq<char>)
    requires
        forall|i: int| 0 <= i < s.len() ==> is_ws(#[trigger] s[i]),
    ensures
        trim_start(s) == Seq::<char>::empty(),
    decreases s.len(),
{
    if s.len() > 0 {
        assert forall|i: int| 0 <= i < s.drop_first().len() implies is_ws(
            #[trigger] s.drop_first()[i],
        ) by {
            assert(s.drop_first()[i] == s[i + 1]);
        }
        lemma_trim_blank(s.drop_first());
    } else {
        assert(s =~= Seq::<char>::empty());
    }
}

/// A text of white space alone, the empty text too, has no tokens.
pub proof fn lemma_blank_has_no_tokens(html: Seq<char>)
    requires
        forall|i: int| 0 <= i < html.len() ==> is_ws(#[trigger] html[i]),
    ensures
        lex_spec(html) == Some(Seq::<TokenView>::empty()),
{
    lemma_trim_blank(html);
    assert(trim_end(Seq::<char>::empty()) == Seq::<char>::empty());
    assert(lex_run(Seq::<char>::empty()).tokens == Seq::<TokenView>::empty());
}

} // verus!
