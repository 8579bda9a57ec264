//! The lexical scanner: it segments an input string into tokens, and the
//! resolution step that replaces each numeric lexeme by the scalar code the
//! caller parsed it into.
//!
//! Digits and the two decimal separators accumulate into a lexeme buffer; any
//! other character flushes the buffer as a number token, and the recognised
//! operator and parenthesis symbols additionally emit their own token. Every
//! remaining character, whitespace included, is skipped.

use vstd::prelude::*;

use crate::token::{lex_views, Error, LexToken, Operator, Parenthesis, RawToken, Token};

verus! {

/// Characters that accumulate into a numeric lexeme: the decimal digits and
/// the two decimal separators.
pub open spec fn is_lexeme_char(c: char) -> bool {
    ('0' <= c && c <= '9') || c == '.' || c == ','
}

/// The token, if any, that a single recognised symbol denotes.
pub open spec fn symbol_token(c: char) -> Option<LexToken> {
    if c == '+' {
        Some(LexToken::Operator(Operator::Add))
    } else if c == '-' {
        Some(LexToken::Operator(Operator::Subtract))
    } else if c == '*' {
        Some(LexToken::Operator(Operator::Multiply))
    } else if c == '/' || c == ':' {
        Some(LexToken::Operator(Operator::Divide))
    } else if c == '^' {
        Some(LexToken::Operator(Operator::Power))
    } else if c == '(' {
        Some(LexToken::Parenthesis(Parenthesis::Left))
    } else if c == ')' {
        Some(LexToken::Parenthesis(Parenthesis::Right))
    } else {
        None
    }
}

/// Append the buffered lexeme to the output as a number token, if the buffer
/// is non-empty.
pub open spec fn flush(out: Seq<LexToken>, buf: Seq<char>) -> Seq<LexToken> {
    if buf.len() == 0 {
        out
    } else {
        out.push(LexToken::Number(buf))
    }
}

/// One scanner step: the output and buffer after reading the character `c` in
/// the state `(out, buf)`.
pub open spec fn scan_step(out: Seq<LexToken>, buf: Seq<char>, c: char) -> (Seq<LexToken>, Seq<
    char,
>) {
    if is_lexeme_char(c) {
        (out, buf.push(c))
    } else {
        match symbol_token(c) {
            Some(t) => (flush(out, buf).push(t), Seq::empty()),
            None => (flush(out, buf), Seq::empty()),
        }
    }
}

/// The scanner state after reading all of `s`, starting from `(out, buf)`.
pub open spec fn scan_chars(s: Seq<char>, out: Seq<LexToken>, buf: Seq<char>) -> (Seq<LexToken>, Seq<
    char,
>)
    decreases s.len(),
{
    if s.len() == 0 {
        (out, buf)
    } else {
        let stepped = scan_step(out, buf, s[0]);
        scan_chars(s.skip(1), stepped.0, stepped.1)
    }
}

/// The token sequence the scanner yields for `s`: read every character, then
/// flush whatever lexeme is still buffered.
pub open spec fn scan_spec(s: Seq<char>) -> Seq<LexToken> {
    let end = scan_chars(s, Seq::empty(), Seq::empty());
    flush(end.0, end.1)
}

/// Reading a concatenation is reading the first part, then the second from
/// the state the first part left behind.
pub proof fn lemma_scan_chars_concat(s1: Seq<char>, s2: Seq<char>, out: Seq<LexToken>, buf: Seq<
    char,
>)
    ensures
        scan_chars(s1 + s2, out, buf) == {
            let mid = scan_chars(s1, out, buf);
            scan_chars(s2, mid.0, mid.1)
        },
    decreases s1.len(),
{
    if s1.len() == 0 {
        assert(s1 + s2 =~= s2);
    } else {
        assert((s1 + s2)[0] == s1[0]);
        assert((s1 + s2).skip(1) =~= s1.skip(1) + s2);
        let stepped = scan_step(out, buf, s1[0]);
        lemma_scan_chars_concat(s1.skip(1), s2, stepped.0, stepped.1);
    }
}

/// Reading one more character applies one scanner step to the state reached
/// so far.
pub proof fn lemma_scan_chars_snoc(s: Seq<char>, c: char, out: Seq<LexToken>, buf: Seq<char>)
    ensures
        scan_chars(s.push(c), out, buf) == {
            let mid = scan_chars(s, out, buf);
            scan_step(mid.0, mid.1, c)
        },
{
    lemma_scan_chars_concat(s, seq![c], out, buf);
    let mid = scan_chars(s, out, buf);
    let stepped = scan_step(mid.0, mid.1, c);
    assert(s.push(c) =~= s + seq![c]);
    assert(seq![c].skip(1) =~= Seq::<char>::empty());
    assert(scan_chars(Seq::<char>::empty(), stepped.0, stepped.1) == stepped);
    assert(scan_chars(seq![c], mid.0, mid.1) == stepped);
}

/// Reading a single character is one scanner step.
pub proof fn lemma_scan_char(c: char, out: Seq<LexToken>, buf: Seq<char>)
    ensures
        scan_chars(seq![c], out, buf) == scan_step(out, buf, c),
{
    let stepped = scan_step(out, buf, c);
    assert(seq![c].skip(1) =~= Seq::<char>::empty());
    assert(scan_chars(Seq::<char>::empty(), stepped.0, stepped.1) == stepped);
}

/// A non-empty run of digits and decimal separators, as a whole numeric
/// literal is.
pub open spec fn is_numeral(s: Seq<char>) -> bool {
    s.len() > 0 && forall|i: int| 0 <= i < s.len() ==> is_lexeme_char(#[trigger] s[i])
}

/// A run of lexeme characters only lengthens the buffer.
pub proof fn lemma_scan_numeral_run(s: Seq<char>, out: Seq<LexToken>, buf: Seq<char>)
    requires
        forall|i: int| 0 <= i < s.len() ==> is_lexeme_char(#[trigger] s[i]),
    ensures
        scan_chars(s, out, buf) == (out, buf + s),
    decreases s.len(),
{
    if s.len() == 0 {
        assert(buf + s =~= buf);
    } else {
        lemma_scan_numeral_run(s.skip(1), out, buf.push(s[0]));
        assert(buf.push(s[0]) + s.skip(1) =~= buf + s);
    }
}

/// Mapping the view over a token vector commutes with appending one token.
pub proof fn lemma_lex_views_push(ts: Seq<RawToken>, t: RawToken)
    ensures
        lex_views(ts.push(t)) == lex_views(ts).push(t@),
{
    assert(lex_views(ts.push(t)) =~= lex_views(ts).push(t@));
}

/// Flush the lexeme buffer: a non-empty buffer becomes a number token holding
/// exactly the buffered characters, and the buffer is emptied.
pub fn empty_number_buffer(tokens: &mut Vec<RawToken>, buffer: &mut Vec<char>)
    ensures
        lex_views(final(tokens)@) == flush(lex_views(old(tokens)@), old(buffer)@),
        final(buffer)@ == Seq::<char>::empty(),
{
    if !buffer.is_empty() {
        let lexeme = buffer.split_off(0);
        let ghost before = tokens@;
        tokens.push(RawToken::Number(lexeme));
        proof {
            assert(old(buffer)@.subrange(0, old(buffer)@.len() as int) =~= old(buffer)@);
            assert(final(buffer)@ =~= Seq::<char>::empty());
            lemma_lex_views_push(before, RawToken::Number(lexeme));
        }
    } else {
        assert(buffer@ =~= Seq::<char>::empty());
    }
}

/// Flush the buffered lexeme, then append the given operator or parenthesis
/// token, mirroring one scanner step on a recognised symbol.
pub fn push_non_number(tokens: &mut Vec<RawToken>, buffer: &mut Vec<char>, token: RawToken)
    requires
        !(token@ is Number),
    ensures
        lex_views(final(tokens)@) == flush(lex_views(old(tokens)@), old(buffer)@).push(token@),
        final(buffer)@ == Seq::<char>::empty(),
{
    empty_number_buffer(tokens, buffer);
    let ghost mid = tokens@;
    tokens.push(token);
    proof {
        lemma_lex_views_push(mid, token);
    }
}

/// Scan the input string into tokens. Numbers are left as lexemes; every
/// recognised symbol becomes its operator or parenthesis token; all other
/// characters only end the current lexeme.
pub fn tokenise(input: &str) -> (r: Vec<RawToken>)
    ensures
        lex_views(r@) == scan_spec(input@),
{
    let mut tokens: Vec<RawToken> = Vec::new();
    let mut buffer: Vec<char> = Vec::new();
    let length = input.unicode_len();
    let mut i: usize = 0;
    while i < length
        invariant
            length == input@.len(),
            i <= length,
            (lex_views(tokens@), buffer@) == scan_chars(
                input@.take(i as int),
                Seq::empty(),
                Seq::empty(),
            ),
        decreases length - i,
    {
        let c = input.get_char(i);
        proof {
            assert(input@.take(i as int + 1) =~= input@.take(i as int).push(c));
            lemma_scan_chars_snoc(input@.take(i as int), c, Seq::empty(), Seq::empty());
        }
        match c {
            '0'..='9' | '.' | ',' => {
                buffer.push(c);
            },
            '+' => push_non_number(&mut tokens, &mut buffer, RawToken::Operator(Operator::Add)),
            '-' => push_non_number(
                &mut tokens,
                &mut buffer,
                RawToken::Operator(Operator::Subtract),
            ),
            '*' => push_non_number(
                &mut tokens,
                &mut buffer,
                RawToken::Operator(Operator::Multiply),
            ),
            '/' | ':' => push_non_number(
                &mut tokens,
                &mut buffer,
                RawToken::Operator(Operator::Divide),
            ),
            '^' => push_non_number(&mut tokens, &mut buffer, RawToken::Operator(Operator::Power)),
            '(' => push_non_number(
                &mut tokens,
                &mut buffer,
                RawToken::Parenthesis(Parenthesis::Left),
            ),
            ')' => push_non_number(
                &mut tokens,
                &mut buffer,
                RawToken::Parenthesis(Parenthesis::Right),
            ),
            _ => {
                empty_number_buffer(&mut tokens, &mut buffer);
            },
        }
        i += 1;
    }
    proof {
        assert(input@.take(length as int) =~= input@);
    }
    empty_number_buffer(&mut tokens, &mut buffer);
    tokens
}

/// Every numeric lexeme in `ts` has a parse outcome in `vals` (entry for
/// entry), and that outcome is a value, not a parse failure.
pub open spec fn resolvable(ts: Seq<LexToken>, vals: Seq<Option<u32>>) -> bool {
    forall|i: int| 0 <= i < ts.len() && (#[trigger] ts[i]) is Number ==> vals[i] is Some
}

/// The pipeline token a scanned token resolves to, once its parse outcome is
/// known.
pub open spec fn resolved_token(t: LexToken, v: Option<u32>) -> Token {
    match t {
        LexToken::Number(_) => Token::Number(v->0),
        LexToken::Operator(o) => Token::Operator(o),
        LexToken::Parenthesis(p) => Token::Parenthesis(p),
    }
}

/// Replace each numeric lexeme by its parse outcome; a single failed parse
/// rejects the whole sequence.
pub open spec fn resolve_spec(ts: Seq<LexToken>, vals: Seq<Option<u32>>) -> Result<
    Seq<Token>,
    Error,
> {
    if resolvable(ts, vals) {
        Ok(Seq::new(ts.len(), |i: int| resolved_token(ts[i], vals[i])))
    } else {
        Err(Error::InvalidNumber)
    }
}

/// Attach the caller's parse outcomes to the scanned tokens: `values[i]` is
/// the outcome of parsing the lexeme of `tokens[i]`, where that token is a
/// number; other entries are ignored. Fails exactly when some numeric lexeme
/// failed to parse.
pub fn resolve_numbers(tokens: &Vec<RawToken>, values: &Vec<Option<u32>>) -> (r: Result<
    Vec<Token>,
    Error,
>)
    requires
        values@.len() == tokens@.len(),
    ensures
        match r {
            Ok(out) => resolve_spec(lex_views(tokens@), values@) == Ok::<Seq<Token>, Error>(out@),
            Err(e) => resolve_spec(lex_views(tokens@), values@) == Err::<Seq<Token>, Error>(e),
        },
{
    let ghost lexed = lex_views(tokens@);
    let mut out: Vec<Token> = Vec::new();
    let mut i: usize = 0;
    while i < tokens.len()
        invariant
            values@.len() == tokens@.len(),
            lexed == lex_views(tokens@),
            i <= tokens@.len(),
            out@.len() == i,
            forall|j: int|
                0 <= j < i ==> #[trigger] out@[j] == resolved_token(lexed[j], values@[j]),
            forall|j: int| 0 <= j < i && (#[trigger] lexed[j]) is Number ==> values@[j] is Some,
        decreases tokens@.len() - i,
    {
        let next: Token = match &tokens[i] {
            RawToken::Number(_) => {
                match values[i] {
                    Some(v) => Token::Number(v),
                    None => {
                        proof {
                            assert(lexed[i as int] is Number && values@[i as int] is None);
                        }
                        return Err(Error::InvalidNumber);
                    },
                }
            },
            RawToken::Operator(o) => Token::Operator(*o),
            RawToken::Parenthesis(p) => Token::Parenthesis(*p),
        };
        out.push(next);
        i += 1;
    }
    proof {
        assert(out@ =~= Seq::new(lexed.len(), |j: int| resolved_token(lexed[j], values@[j])));
    }
    Ok(out)
}

} // verus!
