use vstd::prelude::*;

verus! {

/// One token produced by an analyzer: character offsets into the analyzed
/// text, the token's position in the token sequence, its text, and how many
/// positions it spans.
pub struct Token {
    pub offset_from: usize,
    pub offset_to: usize,
    pub position: usize,
    pub text: String,
    pub position_length: usize,
}

impl Default for Token {
    /// A placeholder token: empty text, position not yet assigned.
    fn default() -> (t: Token)
        ensures
            t.offset_from == 0,
            t.offset_to == 0,
            t.position == usize::MAX,
            t.text@ == Seq::<char>::empty(),
            t.position_length == 1,
    {
        Token {
            offset_from: 0,
            offset_to: 0,
            position: usize::MAX,
            text: String::new(),
            position_length: 1,
        }
    }
}

impl Clone for Token {
    fn clone(&self) -> (t: Self)
        ensures
            t == *self,
    {
        Token {
            offset_from: self.offset_from,
            offset_to: self.offset_to,
            position: self.position,
            text: self.text.clone(),
            position_length: self.position_length,
        }
    }
}

/// Characters that belong to a token; the analyzer breaks text at blanks,
/// tabs and line ends.
pub open spec fn is_token_char(c: char) -> bool {
    !(c == ' ' || c == '\t' || c == '\n' || c == '\r')
}

fn is_token_char_exec(c: char) -> (b: bool)
    ensures
        b == is_token_char(c),
{
    !(c == ' ' || c == '\t' || c == '\n' || c == '\r')
}

/// The first position at or after `i` holding a token character, or the end.
pub open spec fn next_token_start(s: Seq<char>, i: int) -> int
    recommends
        0 <= i <= s.len(),
    decreases s.len() - i,
    when 0 <= i <= s.len()
{
    if i >= s.len() || is_token_char(s[i]) {
        i
    } else {
        next_token_start(s, i + 1)
    }
}

/// The first position at or after `i` holding a separator, or the end.
pub open spec fn next_break(s: Seq<char>, i: int) -> int
    recommends
        0 <= i <= s.len(),
    decreases s.len() - i,
    when 0 <= i <= s.len()
{
    if i >= s.len() || !is_token_char(s[i]) {
        i
    } else {
        next_break(s, i + 1)
    }
}

proof fn lemma_next_token_start_bounds(s: Seq<char>, i: int)
    requires
        0 <= i <= s.len(),
    ensures
        i <= next_token_start(s, i) <= s.len(),
        next_token_start(s, i) < s.len() ==> is_token_char(s[next_token_start(s, i)]),
    decreases s.len() - i,
{
    if i < s.len() && !is_token_char(s[i]) {
        lemma_next_token_start_bounds(s, i + 1);
    }
}

proof fn lemma_next_break_bounds(s: Seq<char>, i: int)
    requires
        0 <= i <= s.len(),
    ensures
        i <= next_break(s, i) <= s.len(),
        next_break(s, i) < s.len() ==> !is_token_char(s[next_break(s, i)]),
    decreases s.len() - i,
{
    if i < s.len() && is_token_char(s[i]) {
        lemma_next_break_bounds(s, i + 1);
    }
}

/// The maximal runs of token characters at or after position `i`, each as a
/// half-open character range.
pub open spec fn token_bounds_from(s: Seq<char>, i: int) -> Seq<(int, int)>
    recommends
        0 <= i <= s.len(),
    decreases s.len() - i,
    when 0 <= i <= s.len()
    via token_bounds_from_decreases
{
    let a = next_token_start(s, i);
    if a >= s.len() {
        Seq::empty()
    } else {
        seq![(a, next_break(s, a))] + token_bounds_from(s, next_break(s, a))
    }
}

#[via_fn]
proof fn token_bounds_from_decreases(s: Seq<char>, i: int) {
    lemma_next_token_start_bounds(s, i);
    let a = next_token_start(s, i);
    if a < s.len() {
        lemma_next_break_bounds(s, a + 1);
        assert(next_break(s, a) == next_break(s, a + 1));
    }
}

/// The token ranges of a whole text: its maximal runs of token characters.
pub open spec fn token_bounds(s: Seq<char>) -> Seq<(int, int)> {
    token_bounds_from(s, 0)
}

/// The tokens carry exactly the given ranges of the text, in order, with
/// sequential positions and unit position length.
pub open spec fn tokens_match(tokens: Seq<Token>, bounds: Seq<(int, int)>, text: Seq<char>) -> bool {
    &&& tokens.len() == bounds.len()
    &&& forall|k: int|
        0 <= k < tokens.len() ==> {
            let t = #[trigger] tokens[k];
            &&& t.offset_from as int == bounds[k].0
            &&& t.offset_to as int == bounds[k].1
            &&& t.text@ == text.subrange(bounds[k].0, bounds[k].1)
            &&& t.position as int == k
            &&& t.position_length == 1
        }
}

/// Scans forward from `from` to the first token character.
fn find_token_start(text: &str, from: usize, n: usize) -> (a: usize)
    requires
        n == text@.len(),
        from <= n,
    ensures
        a == next_token_start(text@, from as int),
{
    let mut j = from;
    while j < n
        invariant
            from <= j <= n,
            n == text@.len(),
            next_token_start(text@, from as int) == next_token_start(text@, j as int),
        decreases n - j,
    {
        let c = text.get_char(j);
        if is_token_char_exec(c) {
            return j;
        }
        j = j + 1;
    }
    j
}

/// Scans forward from a token character to the end of its run.
fn find_break(text: &str, from: usize, n: usize) -> (b: usize)
    requires
        n == text@.len(),
        from <= n,
    ensures
        b == next_break(text@, from as int),
{
    let mut j = from;
    while j < n
        invariant
            from <= j <= n,
            n == text@.len(),
            next_break(text@, from as int) == next_break(text@, j as int),
        decreases n - j,
    {
        let c = text.get_char(j);
        if !is_token_char_exec(c) {
            return j;
        }
        j = j + 1;
    }
    j
}

/// Splits `text` into its maximal runs of token characters, producing one
/// token per run with character offsets and sequential positions.
pub fn tokenize_whitespace(text: &str) -> (tokens: Vec<Token>)
    ensures
        tokens_match(tokens@, token_bounds(text@), text@),
{
    let n = text.unicode_len();
    let mut tokens: Vec<Token> = Vec::new();
    let mut a = find_token_start(text, 0, n);
    proof {
        lemma_next_token_start_bounds(text@, 0);
    }
    while a < n
        invariant
            a <= n,
            n == text@.len(),
            a as int == next_token_start(text@, a as int),
            token_bounds(text@) == tokens@.map_values(
                |t: Token| (t.offset_from as int, t.offset_to as int),
            ) + token_bounds_from(text@, a as int),
            tokens_match(
                tokens@,
                tokens@.map_values(|t: Token| (t.offset_from as int, t.offset_to as int)),
                text@,
            ),
        decreases n - a,
    {
        proof {
            lemma_next_token_start_bounds(text@, a as int);
        }
        let b = find_break(text, a, n);
        proof {
            lemma_next_break_bounds(text@, a as int + 1);
            assert(next_break(text@, a as int) == next_break(text@, a as int + 1));
        }
        let sub: &str = text.substring_char(a, b);
        let token = Token {
            offset_from: a,
            offset_to: b,
            position: tokens.len(),
            text: sub.to_owned(),
            position_length: 1,
        };
        tokens.push(token);
        let a_next = find_token_start(text, b, n);
        proof {
            lemma_next_token_start_bounds(text@, b as int);
            assert(token_bounds_from(text@, a_next as int) == token_bounds_from(
                text@,
                b as int,
            ));
            assert(tokens@.map_values(|t: Token| (t.offset_from as int, t.offset_to as int))
                =~= old_bounds_plus(tokens@, a as int, b as int));
        }
        a = a_next;
    }
    proof {
        assert(token_bounds_from(text@, a as int) =~= Seq::<(int, int)>::empty());
    }
    tokens
}

/// The bounds of all but the last token, extended by one range; names the
/// shape a push gives to the recorded bounds.
spec fn old_bounds_plus(tokens: Seq<Token>, a: int, b: int) -> Seq<(int, int)> {
    tokens.drop_last().map_values(|t: Token| (t.offset_from as int, t.offset_to as int)).push(
        (a, b),
    )
}

/// A stream of tokens read one token at a time; the cursor starts before
/// the first token and each `advance` moves it one token forward.
pub trait TokenStream: Sized {
    /// All tokens this stream yields.
    spec fn tokens_spec(&self) -> Seq<Token>;

    /// How many tokens have been consumed.
    spec fn cursor_spec(&self) -> int;

    /// Moves to the next token; reports whether one was there.
    fn advance(&mut self) -> (more: bool)
        ensures
            final(self).tokens_spec() == old(self).tokens_spec(),
            more == (old(self).cursor_spec() < old(self).tokens_spec().len()),
            more ==> final(self).cursor_spec() == old(self).cursor_spec() + 1
                && final(self).cursor_spec() >= 1,
            !more ==> final(self).cursor_spec() == old(self).cursor_spec(),
    ;

    /// The token the cursor stands on; only meaningful after an `advance`
    /// that returned true.
    fn token(&self) -> (t: &Token)
        requires
            1 <= self.cursor_spec(),
        ensures
            t == self.tokens_spec()[self.cursor_spec() - 1],
    ;

    /// Advances and hands out the next token, if one is left.
    fn next(&mut self) -> (r: Option<Token>)
        ensures
            final(self).tokens_spec() == old(self).tokens_spec(),
            old(self).cursor_spec() < old(self).tokens_spec().len() ==> (r matches Some(t) && t
                == old(self).tokens_spec()[old(self).cursor_spec()] && final(self).cursor_spec()
                == old(self).cursor_spec() + 1),
            old(self).cursor_spec() >= old(self).tokens_spec().len() ==> r is None
                && final(self).cursor_spec() == old(self).cursor_spec(),
    {
        if self.advance() {
            Some(self.token().clone())
        } else {
            None
        }
    }
}

/// The finished token stream the built-in analyzer hands out: all tokens
/// are materialized up front and consumed through the `TokenStream` cursor.
pub struct BoxTokenStream {
    tokens: Vec<Token>,
    cursor: usize,
}

impl BoxTokenStream {
    #[verifier::type_invariant]
    spec fn wf(self) -> bool {
        self.cursor <= self.tokens@.len()
    }

    pub fn new(tokens: Vec<Token>) -> (s: BoxTokenStream)
        ensures
            s.tokens_spec() == tokens@,
            s.cursor_spec() == 0,
    {
        BoxTokenStream { tokens, cursor: 0 }
    }
}

impl TokenStream for BoxTokenStream {
    closed spec fn tokens_spec(&self) -> Seq<Token> {
        self.tokens@
    }

    closed spec fn cursor_spec(&self) -> int {
        self.cursor as int
    }

    fn advance(&mut self) -> (more: bool) {
        proof {
            use_type_invariant(&*self);
        }
        if self.cursor < self.tokens.len() {
            self.cursor = self.cursor + 1;
            true
        } else {
            false
        }
    }

    fn token(&self) -> (t: &Token) {
        proof {
            use_type_invariant(&*self);
        }
        &self.tokens[self.cursor - 1]
    }
}

/// Capability to turn text into a stream of tokens; the spec-level ranges
/// say exactly which parts of the text become tokens.
pub trait Tokenizer: Sized {
    /// The token ranges this tokenizer yields on `text`.
    spec fn bounds_of(&self, text: Seq<char>) -> Seq<(int, int)>;

    fn token_stream(&self, text: &str) -> (stream: BoxTokenStream)
        ensures
            stream.cursor_spec() == 0,
            tokens_match(stream.tokens_spec(), self.bounds_of(text@), text@),
    ;
}

/// The built-in analyzer: breaks text at whitespace.
#[derive(Clone, Copy)]
pub struct SimpleTokenizer;

impl Tokenizer for SimpleTokenizer {
    open spec fn bounds_of(&self, text: Seq<char>) -> Seq<(int, int)> {
        token_bounds(text)
    }

    fn token_stream(&self, text: &str) -> (stream: BoxTokenStream) {
        BoxTokenStream::new(tokenize_whitespace(text))
    }
}

/// A tokenizer ready for use by the indexing layers.
#[derive(Clone, Copy)]
pub struct TextAnalyzer {
    tokenizer: SimpleTokenizer,
}

impl TextAnalyzer {
    pub fn new(tokenizer: SimpleTokenizer) -> TextAnalyzer {
        TextAnalyzer { tokenizer }
    }

    /// Tokenizes `text`, returning a stream positioned before the first
    /// token.
    pub fn token_stream(&self, text: &str) -> (stream: BoxTokenStream)
        ensures
            stream.cursor_spec() == 0,
            tokens_match(stream.tokens_spec(), token_bounds(text@), text@),
    {
        self.tokenizer.token_stream(text)
    }
}

impl From<SimpleTokenizer> for TextAnalyzer {
    fn from(tokenizer: SimpleTokenizer) -> (a: TextAnalyzer) {
        TextAnalyzer::new(tokenizer)
    }
}

impl vstd::std_specs::convert::FromSpecImpl<SimpleTokenizer> for TextAnalyzer {
    open spec fn obeys_from_spec() -> bool {
        true
    }

    closed spec fn from_spec(tokenizer: SimpleTokenizer) -> Self {
        TextAnalyzer { tokenizer }
    }
}

/// A registry of analyzers looked up by name; one whitespace-based analyzer
/// comes registered under the name `default`.
pub struct TokenizerManager {
    tokenizers: Vec<(String, TextAnalyzer)>,
}

impl TokenizerManager {
    /// The registered names, in registration order.
    pub closed spec fn names(&self) -> Seq<Seq<char>> {
        self.tokenizers@.map_values(|pr: (String, TextAnalyzer)| pr.0@)
    }

    /// Whether an analyzer is registered under `name`.
    pub open spec fn registered(&self, name: Seq<char>) -> bool {
        self.names().contains(name)
    }

    /// Registers `analyzer` under `tokenizer_name`, replacing any analyzer
    /// previously registered under that name.
    pub fn register(&mut self, tokenizer_name: &str, analyzer: TextAnalyzer)
        ensures
            forall|q: Seq<char>| final(self).registered(q) <==> (old(self).registered(q) || q
                == tokenizer_name@),
    {
        let needle: String = tokenizer_name.to_owned();
        let n = self.tokenizers.len();
        let mut i: usize = 0;
        while i < n
            invariant
                i <= n,
                n == self.tokenizers@.len(),
                needle@ == tokenizer_name@,
                self.tokenizers@ == old(self).tokenizers@,
                forall|j: int| 0 <= j < i ==> self.names()[j] != tokenizer_name@,
            decreases n - i,
        {
            if self.tokenizers[i].0 == needle {
                let entry = vstd::std_specs::vec::vec_index_mut(&mut self.tokenizers, i);
                entry.1 = analyzer;
                proof {
                    assert(self.names() =~= old(self).names());
                    assert(old(self).names()[i as int] == tokenizer_name@);
                }
                return ;
            }
            i = i + 1;
        }
        self.tokenizers.push((needle, analyzer));
        proof {
            assert(self.names() =~= old(self).names().push(tokenizer_name@));
            assert forall|q: Seq<char>|
                final(self).registered(q) <==> (old(self).registered(q) || q
                    == tokenizer_name@) by {
                if old(self).registered(q) {
                    let j = choose|j: int|
                        0 <= j < old(self).names().len() && old(self).names()[j] == q;
                    assert(self.names()[j] == q);
                }
                if q == tokenizer_name@ {
                    assert(self.names()[old(self).names().len() as int] == q);
                }
                if self.registered(q) {
                    let j = choose|j: int| 0 <= j < self.names().len() && self.names()[j] == q;
                    if j < old(self).names().len() {
                        assert(old(self).names()[j] == q);
                    }
                }
            }
        }
    }

    /// Looks up the analyzer registered under `tokenizer_name`.
    pub fn get(&self, tokenizer_name: &str) -> (r: Option<TextAnalyzer>)
        ensures
            r is Some <==> self.registered(tokenizer_name@),
    {
        let needle: String = tokenizer_name.to_owned();
        let n = self.tokenizers.len();
        let mut i: usize = 0;
        while i < n
            invariant
                i <= n,
                n == self.tokenizers@.len(),
                needle@ == tokenizer_name@,
                forall|j: int| 0 <= j < i ==> self.names()[j] != tokenizer_name@,
            decreases n - i,
        {
            if self.tokenizers[i].0 == needle {
                proof {
                    assert(self.names()[i as int] == tokenizer_name@);
                }
                return Some(self.tokenizers[i].1);
            }
            i = i + 1;
        }
        proof {
            if self.registered(tokenizer_name@) {
                let j = choose|j: int|
                    0 <= j < self.names().len() && self.names()[j] == tokenizer_name@;
                assert(self.names()[j] != tokenizer_name@);
            }
        }
        None
    }
}

impl Default for TokenizerManager {
    /// A registry holding only the built-in whitespace analyzer, under the
    /// name `default`.
    fn default() -> (m: TokenizerManager)
        ensures
            m.registered("default"@),
            forall|q: Seq<char>| m.registered(q) ==> q == "default"@,
    {
        let mut m = TokenizerManager { tokenizers: Vec::new() };
        proof {
            assert(m.names() =~= Seq::<Seq<char>>::empty());
            assert forall|q: Seq<char>| !m.registered(q) by {
                if m.registered(q) {
                    let j = choose|j: int| 0 <= j < m.names().len() && m.names()[j] == q;
                }
            }
        }
        m.register("default", TextAnalyzer::from(SimpleTokenizer));
        m
    }
}

} // verus!
