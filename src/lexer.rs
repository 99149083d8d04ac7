use vstd::prelude::*;

verus! {

/// A lexical token of one input line.
#[derive(Clone, Debug, PartialEq, Eq)]
pub enum Token {
    LParen,
    RParen,
    Int(usize),
    Id(String),
}

/// The mathematical model of a token: an identifier is its characters.
pub enum TokenView {
    LParen,
    RParen,
    Int(nat),
    Id(Seq<char>),
}

impl View for Token {
    type V = TokenView;

    open spec fn view(&self) -> TokenView {
        match self {
            Token::LParen => TokenView::LParen,
            Token::RParen => TokenView::RParen,
            Token::Int(n) => TokenView::Int(*n as nat),
            Token::Id(s) => TokenView::Id(s@),
        }
    }
}

/// Why a line could not be split into tokens.
#[derive(Clone, Copy, Debug, PartialEq, Eq, Structural)]
pub enum LexError {
    /// A fragment made only of decimal digits names a number above `usize::MAX`.
    InvalidNumber,
}

/// The characters that separate fragments: those with the Unicode
/// White_Space property, which `char::is_whitespace` accepts. They are tab,
/// line feed, vertical tab, form feed, carriage return and space among
/// ASCII; next line and no-break space; and the Ogham space mark, the
/// spaces from en quad to hair space, the line and paragraph separators,
/// narrow no-break space, medium mathematical space and ideographic space.
pub open spec fn separator(c: char) -> bool {
    let u = c as u32;
    ||| 0x09 <= u <= 0x0D
    ||| u == 0x20
    ||| u == 0x85
    ||| u == 0xA0
    ||| u == 0x1680
    ||| 0x2000 <= u <= 0x200A
    ||| u == 0x2028
    ||| u == 0x2029
    ||| u == 0x202F
    ||| u == 0x205F
    ||| u == 0x3000
}

/// Whether `c` separates fragments.
fn is_separator(c: char) -> (r: bool)
    ensures
        r == separator(c),
{
    let u = c as u32;
    (0x09 <= u && u <= 0x0D) || u == 0x20 || u == 0x85 || u == 0xA0 || u == 0x1680 || (0x2000 <= u
        && u <= 0x200A) || u == 0x2028 || u == 0x2029 || u == 0x202F || u == 0x205F || u == 0x3000
}

/// Relies on `String::push`: appends one character.
#[verifier::external_body]
fn push_char(s: &mut String, c: char)
    ensures
        final(s)@ == old(s)@.push(c),
{
    s.push(c)
}

pub open spec fn is_paren(c: char) -> bool {
    c == '(' || c == ')'
}

pub open spec fn is_digit(c: char) -> bool {
    '0' <= c <= '9'
}

pub open spec fn all_digits(f: Seq<char>) -> bool {
    forall|i: int| 0 <= i < f.len() ==> is_digit(#[trigger] f[i])
}

pub open spec fn digit_value(c: char) -> nat {
    (c as u32 - '0' as u32) as nat
}

/// The number that a string of decimal digits writes, most significant first.
pub open spec fn digits_value(f: Seq<char>) -> nat
    decreases f.len(),
{
    if f.len() == 0 {
        0
    } else {
        digits_value(f.drop_last()) * 10 + digit_value(f.last())
    }
}

/// The fragment `cur`, if it is not empty.
pub open spec fn flush(cur: Seq<char>) -> Seq<Seq<char>> {
    if cur.len() == 0 {
        seq![]
    } else {
        seq![cur]
    }
}

/// The fragments of `s`, where `cur` is a fragment begun just before `s`:
/// each parenthesis stands alone, and whitespace separates the rest.
pub open spec fn fragments_from(cur: Seq<char>, s: Seq<char>) -> Seq<Seq<char>>
    decreases s.len(),
{
    if s.len() == 0 {
        flush(cur)
    } else if is_paren(s[0]) {
        flush(cur) + seq![seq![s[0]]] + fragments_from(seq![], s.drop_first())
    } else if separator(s[0]) {
        flush(cur) + fragments_from(seq![], s.drop_first())
    } else {
        fragments_from(cur.push(s[0]), s.drop_first())
    }
}

pub open spec fn fragments(s: Seq<char>) -> Seq<Seq<char>> {
    fragments_from(seq![], s)
}

/// The token a fragment stands for: a parenthesis, then a number, then an
/// identifier; `None` for a number that does not fit in `usize`.
pub open spec fn classify(f: Seq<char>) -> Option<TokenView> {
    if f == seq!['('] {
        Some(TokenView::LParen)
    } else if f == seq![')'] {
        Some(TokenView::RParen)
    } else if all_digits(f) {
        if digits_value(f) <= usize::MAX {
            Some(TokenView::Int(digits_value(f)))
        } else {
            None
        }
    } else {
        Some(TokenView::Id(f))
    }
}

/// The tokens of a line, or the error that `tokenize` reports for it.
pub open spec fn lex(s: Seq<char>) -> Result<Seq<TokenView>, LexError> {
    let frags = fragments(s);
    if forall|k: int| 0 <= k < frags.len() ==> (#[trigger] classify(frags[k])) is Some {
        Ok(frag_tokens(frags))
    } else {
        Err(LexError::InvalidNumber)
    }
}

pub open spec fn tokens_view(ts: Seq<Token>) -> Seq<TokenView> {
    ts.map_values(|t: Token| t@)
}

pub open spec fn lexed(r: Result<Vec<Token>, LexError>) -> Result<Seq<TokenView>, LexError> {
    match r {
        Ok(ts) => Ok(tokens_view(ts@)),
        Err(e) => Err(e),
    }
}

/// The tokens of fragments that all classify.
pub open spec fn frag_tokens(frags: Seq<Seq<char>>) -> Seq<TokenView> {
    frags.map_values(|f: Seq<char>| classify(f)->0)
}

proof fn lemma_views_push(ts: Seq<Token>, t: Token, frags: Seq<Seq<char>>, f: Seq<char>)
    requires
        tokens_view(ts) == frag_tokens(frags),
        t@ == classify(f)->0,
    ensures
        tokens_view(ts.push(t)) == frag_tokens(frags.push(f)),
{
    assert(tokens_view(ts).len() == ts.len());
    assert(frag_tokens(frags).len() == frags.len());
    assert forall|i: int| 0 <= i < ts.len() implies tokens_view(ts.push(t))[i] == frag_tokens(
        frags.push(f),
    )[i] by {
        assert(ts.push(t)[i] == ts[i]);
        assert(frags.push(f)[i] == frags[i]);
        assert(tokens_view(ts)[i] == frag_tokens(frags)[i]);
        assert(tokens_view(ts.push(t))[i] == ts.push(t)[i]@);
        assert(frag_tokens(frags.push(f))[i] == classify(frags.push(f)[i])->0);
        assert(frag_tokens(frags)[i] == classify(frags[i])->0);
    }
    assert(tokens_view(ts.push(t)) =~= frag_tokens(frags.push(f)));
}

proof fn lemma_all_digits_push(f: Seq<char>, c: char)
    ensures
        all_digits(f.push(c)) <==> all_digits(f) && is_digit(c),
{
    if all_digits(f.push(c)) {
        assert(f.push(c)[f.len() as int] == c);
        assert forall|i: int| 0 <= i < f.len() implies is_digit(#[trigger] f[i]) by {
            assert(f.push(c)[i] == f[i]);
        }
    }
    if all_digits(f) && is_digit(c) {
        assert forall|i: int| 0 <= i < f.len() + 1 implies is_digit(#[trigger] f.push(c)[i]) by {
            if i < f.len() {
                assert(f.push(c)[i] == f[i]);
            }
        }
    }
}

proof fn lemma_digits_value_prefix(f: Seq<char>, i: int)
    requires
        0 <= i <= f.len(),
    ensures
        digits_value(f.take(i)) <= digits_value(f),
    decreases f.len(),
{
    if i < f.len() {
        assert(f.drop_last().take(i) =~= f.take(i));
        lemma_digits_value_prefix(f.drop_last(), i);
    } else {
        assert(f.take(i) =~= f);
    }
}

/// The value of a fragment of decimal digits, or `None` where it exceeds `usize::MAX`.
fn parse_number(frag: &Vec<char>) -> (r: Option<usize>)
    requires
        all_digits(frag@),
    ensures
        r matches Some(v) ==> v as nat == digits_value(frag@),
        r is None <==> digits_value(frag@) > usize::MAX,
{
    let mut acc: usize = 0;
    let mut i: usize = 0;
    while i < frag.len()
        invariant
            i <= frag.len(),
            all_digits(frag@),
            acc as nat == digits_value(frag@.take(i as int)),
        decreases frag.len() - i,
    {
        let c = frag[i];
        assert(is_digit(frag@[i as int]));
        let d = (c as u32 - '0' as u32) as usize;
        assert(frag@.take(i + 1).drop_last() =~= frag@.take(i as int));
        proof {
            lemma_digits_value_prefix(frag@, i + 1);
        }
        match acc.checked_mul(10) {
            Some(m) => match m.checked_add(d) {
                Some(v) => {
                    acc = v;
                },
                None => {
                    return None;
                },
            },
            None => {
                return None;
            },
        }
        i = i + 1;
    }
    assert(frag@.take(i as int) =~= frag@);
    Some(acc)
}

/// The token that a non-empty fragment stands for.
fn classify_fragment(frag: &Vec<char>) -> (r: Result<Token, LexError>)
    ensures
        match classify(frag@) {
            Some(t) => r matches Ok(tok) && tok@ == t,
            None => r == Err::<Token, LexError>(LexError::InvalidNumber),
        },
{
    if frag.len() == 1 && frag[0] == '(' {
        assert(frag@ =~= seq!['(']);
        return Ok(Token::LParen);
    }
    if frag.len() == 1 && frag[0] == ')' {
        assert(frag@ =~= seq![')']);
        return Ok(Token::RParen);
    }
    assert(frag@ != seq!['(']) by {
        if frag@ == seq!['('] {
            assert(frag@[0] == '(');
        }
    }
    assert(frag@ != seq![')']) by {
        if frag@ == seq![')'] {
            assert(frag@[0] == ')');
        }
    }
    let mut numeric = true;
    let mut i: usize = 0;
    while i < frag.len()
        invariant
            i <= frag.len(),
            numeric <==> all_digits(frag@.take(i as int)),
        decreases frag.len() - i,
    {
        let c = frag[i];
        if !('0' <= c && c <= '9') {
            numeric = false;
        }
        assert(frag@.take(i + 1) =~= frag@.take(i as int).push(c));
        proof {
            lemma_all_digits_push(frag@.take(i as int), c);
        }
        i = i + 1;
    }
    assert(frag@.take(i as int) =~= frag@);
    if numeric {
        match parse_number(frag) {
            Some(v) => Ok(Token::Int(v)),
            None => Err(LexError::InvalidNumber),
        }
    } else {
        let mut s = String::new();
        let mut j: usize = 0;
        while j < frag.len()
            invariant
                j <= frag.len(),
                s@ == frag@.take(j as int),
            decreases frag.len() - j,
        {
            push_char(&mut s, frag[j]);
            assert(frag@.take(j + 1) =~= frag@.take(j as int).push(frag@[j as int]));
            j = j + 1;
        }
        assert(frag@.take(j as int) =~= frag@);
        Ok(Token::Id(s))
    }
}

proof fn lemma_classify_paren(c: char)
    requires
        is_paren(c),
    ensures
        classify(seq![c]) == Some(if c == '(' {
            TokenView::LParen
        } else {
            TokenView::RParen
        }),
{
    if c == ')' {
        assert(seq![c] != seq!['(']) by {
            assert(seq![c][0] != seq!['('][0]);
        }
    }
}

/// Splits a line into tokens. Each parenthesis is a token of its own;
/// whitespace separates the other fragments, and each of those is a number
/// where it is all decimal digits, else an identifier. Fails exactly where a
/// number does not fit in `usize`.
pub fn tokenize(text: &str) -> (r: Result<Vec<Token>, LexError>)
    ensures
        lexed(r) == lex(text@),
{
    let mut tokens: Vec<Token> = Vec::new();
    let mut cur: Vec<char> = Vec::new();
    let ghost mut done: Seq<Seq<char>> = seq![];
    broadcast use vstd::string::group_string_axioms;
    assert(text@.skip(0) =~= text@);
    assert(done + fragments_from(cur@, text@) =~= fragments(text@));
    for c in it: text.chars()
        invariant
            it.seq() == text@,
            fragments(text@) == done + fragments_from(cur@, text@.skip(it.index() as int)),
            forall|k: int| 0 <= k < done.len() ==> (#[trigger] classify(done[k])) is Some,
            tokens_view(tokens@) == frag_tokens(done),
    {
        let ghost rest = text@.skip(it.index() as int);
        assert(rest.len() > 0 && rest[0] == c);
        assert(rest.drop_first() =~= text@.skip(it.index() + 1));
        let paren = c == '(' || c == ')';
        let space = if paren {
            false
        } else {
            is_separator(c)
        };
        let ghost done_before = done;
        let ghost cur_before = cur@;
        if paren || space {
            if cur.len() > 0 {
                let ghost before = tokens@;
                match classify_fragment(&cur) {
                    Ok(t) => {
                        assert(classify(cur@) is Some);
                        assert(t@ == classify(cur@)->0);
                        tokens.push(t);
                    },
                    Err(e) => {
                        assert(fragments(text@)[done.len() as int] == cur@);
                        return Err(e);
                    },
                }
                assert(tokens@ == before.push(tokens@.last()));
                proof {
                    lemma_views_push(before, tokens@.last(), done, cur@);
                    done = done.push(cur@);
                }
                assert(tokens_view(tokens@) =~= frag_tokens(done));
            }
            assert(done =~= done_before + flush(cur_before));
            cur = Vec::new();
            if paren {
                let t = if c == '(' {
                    Token::LParen
                } else {
                    Token::RParen
                };
                let ghost before = tokens@;
                tokens.push(t);
                proof {
                    lemma_classify_paren(c);
                    lemma_views_push(before, t, done, seq![c]);
                    done = done.push(seq![c]);
                }
                assert(tokens_view(tokens@) =~= frag_tokens(done));
                assert(done_before + fragments_from(cur_before, rest) =~= done + fragments_from(
                    cur@,
                    rest.drop_first(),
                ));
            } else {
                assert(done_before + fragments_from(cur_before, rest) =~= done + fragments_from(
                    cur@,
                    rest.drop_first(),
                ));
            }
        } else {
            cur.push(c);
        }
    }
    assert(text@.skip(text@.len() as int) =~= Seq::<char>::empty());
    if cur.len() > 0 {
        let ghost before = tokens@;
        match classify_fragment(&cur) {
            Ok(t) => {
                assert(classify(cur@) is Some);
                assert(t@ == classify(cur@)->0);
                tokens.push(t);
            },
            Err(e) => {
                assert(fragments(text@)[done.len() as int] == cur@);
                return Err(e);
            },
        }
        assert(tokens@ == before.push(tokens@.last()));
        proof {
            lemma_views_push(before, tokens@.last(), done, cur@);
            done = done.push(cur@);
        }
        assert(tokens_view(tokens@) =~= frag_tokens(done));
    }
    assert(fragments(text@) =~= done);
    Ok(tokens)
}

/// No character of `f` is a parenthesis or whitespace.
pub open spec fn plain_text(f: Seq<char>) -> bool {
    forall|i: int| 0 <= i < f.len() ==> !is_paren(#[trigger] f[i]) && !separator(f[i])
}

/// The fragments that stand for identifiers: non-empty, free of
/// parentheses and whitespace, and not made only of digits.
pub open spec fn identifier_text(f: Seq<char>) -> bool {
    f.len() > 0 && plain_text(f) && !all_digits(f)
}

/// A token that `tokenize` can yield.
pub open spec fn lexable(t: TokenView) -> bool {
    match t {
        TokenView::Int(n) => n <= usize::MAX,
        TokenView::Id(s) => identifier_text(s),
        _ => true,
    }
}

pub open spec fn digit_char(d: nat) -> char {
    seq!['0', '1', '2', '3', '4', '5', '6', '7', '8', '9'][d as int]
}

/// The decimal digits of `n`, most significant first, without leading zeros.
pub open spec fn decimal(n: nat) -> Seq<char>
    decreases n,
{
    if n < 10 {
        seq![digit_char(n)]
    } else {
        decimal(n / 10).push(digit_char(n % 10))
    }
}

/// The text of a token.
pub open spec fn token_text(t: TokenView) -> Seq<char> {
    match t {
        TokenView::LParen => seq!['('],
        TokenView::RParen => seq![')'],
        TokenView::Int(n) => decimal(n),
        TokenView::Id(s) => s,
    }
}

/// The texts of the tokens, separated by single spaces.
pub open spec fn render(ts: Seq<TokenView>) -> Seq<char>
    decreases ts.len(),
{
    if ts.len() == 0 {
        seq![]
    } else if ts.len() == 1 {
        token_text(ts[0])
    } else {
        token_text(ts[0]) + seq![' '] + render(ts.drop_first())
    }
}

fn digit_of(d: usize) -> (c: char)
    requires
        d < 10,
    ensures
        c == digit_char(d as nat),
{
    if d == 0 {
        '0'
    } else if d == 1 {
        '1'
    } else if d == 2 {
        '2'
    } else if d == 3 {
        '3'
    } else if d == 4 {
        '4'
    } else if d == 5 {
        '5'
    } else if d == 6 {
        '6'
    } else if d == 7 {
        '7'
    } else if d == 8 {
        '8'
    } else {
        '9'
    }
}

fn push_decimal(out: &mut String, n: usize)
    ensures
        final(out)@ == old(out)@ + decimal(n as nat),
    decreases n,
{
    if n >= 10 {
        push_decimal(out, n / 10);
    }
    push_char(out, digit_of(n % 10));
    if n >= 10 {
        assert(old(out)@ + decimal(n as nat) =~= old(out)@ + decimal((n / 10) as nat) + seq![
            digit_char((n % 10) as nat),
        ]);
    }
}

fn push_token_text(out: &mut String, t: &Token)
    ensures
        final(out)@ == old(out)@ + token_text(t@),
{
    match t {
        Token::LParen => push_char(out, '('),
        Token::RParen => push_char(out, ')'),
        Token::Int(n) => push_decimal(out, *n),
        Token::Id(id) => {
            let mut i: usize = 0;
            let text = id.as_str();
            let n = text.unicode_len();
            let ghost start = out@;
            while i < n
                invariant
                    i <= n,
                    n == text@.len(),
                    text@ == id@,
                    out@ == start + text@.take(i as int),
                decreases n - i,
            {
                push_char(out, text.get_char(i));
                assert(text@.take(i + 1) =~= text@.take(i as int).push(text@[i as int]));
                i = i + 1;
            }
            assert(text@.take(n as int) =~= text@);
        },
    }
}

/// The texts of the tokens, separated by single spaces.
pub fn render_tokens(tokens: &Vec<Token>) -> (r: String)
    ensures
        r@ == render(tokens_view(tokens@)),
{
    let ghost ts = tokens_view(tokens@);
    let mut out = String::new();
    let n = tokens.len();
    let mut i: usize = 0;
    assert(ts.skip(0) =~= ts);
    while i < n
        invariant
            i <= n,
            n == tokens.len(),
            ts == tokens_view(tokens@),
            render(ts) == out@ + render(ts.skip(i as int)),
        decreases n - i,
    {
        let ghost rest = ts.skip(i as int);
        assert(rest[0] == tokens@[i as int]@);
        assert(rest.drop_first() =~= ts.skip(i + 1));
        let ghost before = out@;
        push_token_text(&mut out, &tokens[i]);
        if i + 1 < n {
            push_char(&mut out, ' ');
            assert(before + render(rest) =~= out@ + render(ts.skip(i + 1)));
        } else {
            assert(ts.skip(i + 1).len() == 0);
            assert(before + render(rest) =~= out@ + render(ts.skip(i + 1)));
        }
        i = i + 1;
    }
    assert(ts.skip(n as int).len() == 0);
    assert(out@ + render(ts.skip(n as int)) =~= out@);
    out
}

/// Tokenizing fails exactly where a fragment made only of digits names a
/// number above `usize::MAX`; on any other text it succeeds.
pub proof fn lemma_lex_fails_only_on_overflow(s: Seq<char>)
    ensures
        lex(s) is Err <==> exists|k: int|
            0 <= k < fragments(s).len() && all_digits(#[trigger] fragments(s)[k])
                && digits_value(fragments(s)[k]) > usize::MAX,
{
    let frags = fragments(s);
    if lex(s) is Err {
        let k = choose|k: int| 0 <= k < frags.len() && !(classify(frags[k]) is Some);
        assert(all_digits(frags[k]) && digits_value(frags[k]) > usize::MAX);
    }
    if exists|k: int| 0 <= k < frags.len() && all_digits(#[trigger] frags[k]) && digits_value(
        frags[k],
    ) > usize::MAX {
        let k = choose|k: int|
            0 <= k < frags.len() && all_digits(#[trigger] frags[k]) && digits_value(frags[k])
                > usize::MAX;
        if frags[k] == seq!['('] {
            assert(is_digit(frags[k][0]));
        }
        if frags[k] == seq![')'] {
            assert(is_digit(frags[k][0]));
        }
        assert(classify(frags[k]) is None);
    }
}

/// A fragment is a lone parenthesis, or non-empty plain text.
pub open spec fn fragment_shape(f: Seq<char>) -> bool {
    (f.len() == 1 && is_paren(f[0])) || (f.len() > 0 && plain_text(f))
}

proof fn lemma_fragments_shape(cur: Seq<char>, s: Seq<char>)
    requires
        plain_text(cur),
    ensures
        forall|k: int|
            0 <= k < fragments_from(cur, s).len() ==> fragment_shape(
                #[trigger] fragments_from(cur, s)[k],
            ),
    decreases s.len(),
{
    let r = fragments_from(cur, s);
    if s.len() == 0 {
        assert forall|k: int| 0 <= k < r.len() implies fragment_shape(#[trigger] r[k]) by {
            assert(r[k] == cur);
        }
    } else {
        let c = s[0];
        if is_paren(c) || separator(c) {
            lemma_fragments_shape(seq![], s.drop_first());
            let rest = fragments_from(seq![], s.drop_first());
            let pre = if is_paren(c) {
                flush(cur) + seq![seq![c]]
            } else {
                flush(cur)
            };
            assert(r == pre + rest);
            assert forall|k: int| 0 <= k < r.len() implies fragment_shape(#[trigger] r[k]) by {
                if k < pre.len() {
                    if k < flush(cur).len() {
                        assert(pre[k] == cur);
                    } else {
                        assert(pre[k] == seq![c]);
                    }
                } else {
                    assert(r[k] == rest[k - pre.len()]);
                }
            }
        } else {
            assert forall|i: int| 0 <= i < cur.push(c).len() implies !is_paren(
                #[trigger] cur.push(c)[i],
            ) && !separator(cur.push(c)[i]) by {
                if i < cur.len() {
                    assert(cur.push(c)[i] == cur[i]);
                }
            }
            lemma_fragments_shape(cur.push(c), s.drop_first());
            assert(r == fragments_from(cur.push(c), s.drop_first()));
        }
    }
}

proof fn lemma_classify_plain(f: Seq<char>)
    requires
        f.len() > 0,
        plain_text(f),
    ensures
        f != seq!['('],
        f != seq![')'],
{
    assert(!is_paren(f[0]));
}

/// Every token that `tokenize` yields is one it can yield again from its text.
proof fn lemma_lexed_lexable(s: Seq<char>)
    ensures
        lex(s) matches Ok(ts) ==> forall|i: int| 0 <= i < ts.len() ==> lexable(#[trigger] ts[i]),
{
    let frags = fragments(s);
    lemma_fragments_shape(seq![], s);
    if let Ok(ts) = lex(s) {
        assert forall|i: int| 0 <= i < ts.len() implies lexable(#[trigger] ts[i]) by {
            let f = frags[i];
            assert(ts[i] == classify(f)->0);
            assert(fragment_shape(f));
            assert(classify(f) is Some);
            if f.len() == 1 && is_paren(f[0]) {
                assert(f =~= seq![f[0]]);
            } else {
                lemma_classify_plain(f);
            }
        }
    }
}

proof fn lemma_digit_char(d: nat)
    requires
        d < 10,
    ensures
        is_digit(digit_char(d)),
        digit_value(digit_char(d)) == d,
{
    if d == 0 {
    } else if d == 1 {
    } else if d == 2 {
    } else if d == 3 {
    } else if d == 4 {
    } else if d == 5 {
    } else if d == 6 {
    } else if d == 7 {
    } else if d == 8 {
    } else {
        assert(d == 9);
    }
}

proof fn lemma_decimal(n: nat)
    ensures
        decimal(n).len() > 0,
        all_digits(decimal(n)),
        digits_value(decimal(n)) == n,
    decreases n,
{
    if n < 10 {
        lemma_digit_char(n);
        assert(decimal(n).drop_last() =~= Seq::<char>::empty());
        assert(decimal(n).last() == digit_char(n));
        assert(digits_value(decimal(n)) == digits_value(Seq::<char>::empty()) * 10 + digit_value(
            digit_char(n),
        ));
    } else {
        lemma_decimal(n / 10);
        lemma_digit_char(n % 10);
        let d = decimal(n);
        assert(d.drop_last() =~= decimal(n / 10));
        assert(d.last() == digit_char(n % 10));
        assert(digits_value(d) == digits_value(decimal(n / 10)) * 10 + digit_value(
            digit_char(n % 10),
        ));
        assert((n / 10) * 10 + n % 10 == n);
        assert forall|i: int| 0 <= i < d.len() implies is_digit(#[trigger] d[i]) by {
            if i < d.len() - 1 {
                assert(d[i] == decimal(n / 10)[i]);
            }
        }
    }
}

/// Fragments continue across plain text.
proof fn lemma_fragments_plain(cur: Seq<char>, w: Seq<char>, s: Seq<char>)
    requires
        plain_text(w),
    ensures
        fragments_from(cur, w + s) == fragments_from(cur + w, s),
    decreases w.len(),
{
    if w.len() == 0 {
        assert(w + s =~= s);
        assert(cur + w =~= cur);
    } else {
        assert((w + s)[0] == w[0]);
        assert((w + s).drop_first() =~= w.drop_first() + s);
        assert(cur.push(w[0]) + w.drop_first() =~= cur + w);
        lemma_fragments_plain(cur.push(w[0]), w.drop_first(), s);
    }
}

proof fn lemma_token_text(t: TokenView)
    requires
        lexable(t),
    ensures
        fragment_shape(token_text(t)),
        classify(token_text(t)) == Some(t),
{
    match t {
        TokenView::LParen => {
            lemma_classify_paren('(');
        },
        TokenView::RParen => {
            lemma_classify_paren(')');
        },
        TokenView::Int(n) => {
            lemma_decimal(n);
            let d = decimal(n);
            assert(is_digit(d[0]));
            assert forall|i: int| 0 <= i < d.len() implies !is_paren(#[trigger] d[i]) && !separator(
                d[i],
            ) by {
                assert(is_digit(d[i]));
            }
            lemma_classify_plain(d);
        },
        TokenView::Id(s) => {
            lemma_classify_plain(s);
        },
    }
}

/// The rendering of a text's tokens splits into the texts of those tokens.
proof fn lemma_render_fragments(ts: Seq<TokenView>)
    requires
        forall|i: int| 0 <= i < ts.len() ==> lexable(#[trigger] ts[i]),
    ensures
        fragments(render(ts)) == ts.map_values(|t: TokenView| token_text(t)),
    decreases ts.len(),
{
    if ts.len() > 0 {
        let w = token_text(ts[0]);
        lemma_token_text(ts[0]);
        let tail: Seq<char> = if ts.len() == 1 {
            seq![]
        } else {
            seq![' '] + render(ts.drop_first())
        };
        if ts.len() == 1 {
            assert(render(ts) =~= w + tail);
        } else {
            assert(render(ts) =~= w + tail);
        }
        let rest_frags: Seq<Seq<char>> = if ts.len() == 1 {
            seq![]
        } else {
            fragments(render(ts.drop_first()))
        };
        if ts.len() > 1 {
            assert forall|i: int| 0 <= i < ts.drop_first().len() implies lexable(
                #[trigger] ts.drop_first()[i],
            ) by {
                assert(ts.drop_first()[i] == ts[i + 1]);
            }
            lemma_render_fragments(ts.drop_first());
            assert(tail.drop_first() =~= render(ts.drop_first()));
        }
        if is_paren(w[0]) && w.len() == 1 {
            assert((w + tail).drop_first() =~= tail);
            assert(fragments(w + tail) =~= seq![w] + fragments_from(seq![], tail));
        } else {
            lemma_fragments_plain(seq![], w, tail);
            assert(seq![] + w =~= w);
        }
        assert(fragments_from(w, tail) == seq![w] + rest_frags);
        assert(fragments(render(ts)) =~= ts.map_values(|t: TokenView| token_text(t)));
    }
}

/// Tokenizing the rendering of a text's tokens, each followed by one space
/// but the last, gives the same tokens again.
pub proof fn lemma_relex_rendering(s: Seq<char>)
    ensures
        lex(s) matches Ok(ts) ==> lex(render(ts)) == Ok::<Seq<TokenView>, LexError>(ts),
{
    lemma_lexed_lexable(s);
    if let Ok(ts) = lex(s) {
        lemma_render_fragments(ts);
        let frags = fragments(render(ts));
        assert forall|k: int| 0 <= k < frags.len() implies (#[trigger] classify(frags[k])) is Some by {
            lemma_token_text(ts[k]);
        }
        assert forall|k: int| 0 <= k < ts.len() implies frag_tokens(frags)[k] == ts[k] by {
            lemma_token_text(ts[k]);
        }
        assert(frag_tokens(frags) =~= ts);
    }
}

} // verus!
