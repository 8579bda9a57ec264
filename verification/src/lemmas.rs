//! Proved properties of the pipeline as a whole: determinism, the divisor
//! alias, tolerance of skipped characters, and the grouping that precedence
//! and associativity impose on unparenthesised input.

use vstd::prelude::*;

use crate::scan::{
    flush, is_lexeme_char, is_numeral, lemma_scan_char, lemma_scan_chars_concat,
    lemma_scan_chars_snoc, lemma_scan_numeral_run, resolve_spec, resolvable, resolved_token,
    scan_chars, scan_spec, scan_step, symbol_token,
};
use crate::token::{Error, LexToken, Operator, Parenthesis, Token};
use crate::yard::{
    drain, lemma_yard_run_concat, lemma_yard_success_iff_balanced, parens_balanced, pop_ops,
    pop_to_left, pops_before, shunting_yard_spec, yard_run,
};

verus! {

/// The symbolic pipeline from a string to its postfix token sequence: scan,
/// resolve each numeric lexeme with the given parse outcomes, and reorder.
pub open spec fn rpn_pipeline(s: Seq<char>, vals: Seq<Option<u32>>) -> Result<Seq<Token>, Error> {
    match resolve_spec(scan_spec(s), vals) {
        Ok(ts) => shunting_yard_spec(ts),
        Err(e) => Err(e),
    }
}

/// Determinism: the postfix sequence an input reaches is a function of the
/// input string and of the numeric parse outcomes alone, so two runs over
/// equal inputs agree.
pub proof fn lemma_pipeline_deterministic(
    s1: Seq<char>,
    vals1: Seq<Option<u32>>,
    s2: Seq<char>,
    vals2: Seq<Option<u32>>,
)
    requires
        s1 == s2,
        vals1 == vals2,
    ensures
        rpn_pipeline(s1, vals1) == rpn_pipeline(s2, vals2),
{
}

/// When the pipeline owes a postfix sequence: every numeric lexeme parsed,
/// and the parentheses balanced.
pub proof fn lemma_pipeline_success(s: Seq<char>, vals: Seq<Option<u32>>)
    ensures
        rpn_pipeline(s, vals) is Ok <==> (resolvable(scan_spec(s), vals) && parens_balanced(
            resolve_spec(scan_spec(s), vals)->Ok_0,
        )),
{
    if resolvable(scan_spec(s), vals) {
        lemma_yard_success_iff_balanced(resolve_spec(scan_spec(s), vals)->Ok_0);
    }
}

/// The string with every `/` written as its alias `:`.
pub open spec fn spell_divide_with_colon(s: Seq<char>) -> Seq<char> {
    s.map_values(|c: char| if c == '/' { ':' } else { c })
}

proof fn lemma_scan_chars_divide_alias(s: Seq<char>, out: Seq<LexToken>, buf: Seq<char>)
    ensures
        scan_chars(spell_divide_with_colon(s), out, buf) == scan_chars(s, out, buf),
    decreases s.len(),
{
    let t = spell_divide_with_colon(s);
    if s.len() == 0 {
        assert(t =~= s);
    } else {
        assert(t[0] == (if s[0] == '/' { ':' } else { s[0] }));
        assert(scan_step(out, buf, t[0]) == scan_step(out, buf, s[0]));
        assert(t.skip(1) =~= spell_divide_with_colon(s.skip(1)));
        let stepped = scan_step(out, buf, s[0]);
        lemma_scan_chars_divide_alias(s.skip(1), stepped.0, stepped.1);
    }
}

/// Divisor alias: writing every `/` as `:` leaves the scanned tokens, and so
/// the whole pipeline's outcome, unchanged.
pub proof fn lemma_divide_alias(s: Seq<char>, vals: Seq<Option<u32>>)
    ensures
        scan_spec(spell_divide_with_colon(s)) == scan_spec(s),
        rpn_pipeline(spell_divide_with_colon(s), vals) == rpn_pipeline(s, vals),
{
    lemma_scan_chars_divide_alias(s, Seq::empty(), Seq::empty());
}

/// Skipped-character tolerance: inserting a character the scanner does not
/// recognise — whitespace, say — anywhere but strictly inside a numeric
/// lexeme leaves the scanned tokens, and so the whole pipeline's outcome,
/// unchanged.
pub proof fn lemma_skipped_char_insertion(s: Seq<char>, i: int, c: char, vals: Seq<Option<u32>>)
    requires
        0 <= i <= s.len(),
        !is_lexeme_char(c),
        symbol_token(c) is None,
        !(0 < i < s.len() && is_lexeme_char(s[i - 1]) && is_lexeme_char(s[i])),
    ensures
        scan_spec(s.take(i) + seq![c] + s.skip(i)) == scan_spec(s),
        rpn_pipeline(s.take(i) + seq![c] + s.skip(i), vals) == rpn_pipeline(s, vals),
{
    let front = s.take(i);
    let back = s.skip(i);
    let mid = scan_chars(front, Seq::empty(), Seq::empty());
    let stepped = scan_step(mid.0, mid.1, c);

    // The state after the inserted character, and the state it interrupts.
    lemma_scan_chars_concat(front + seq![c], back, Seq::empty(), Seq::empty());
    lemma_scan_chars_concat(front, seq![c], Seq::empty(), Seq::empty());
    lemma_scan_chars_snoc(front, c, Seq::empty(), Seq::empty());
    assert((front + seq![c]) =~= front.push(c));
    lemma_scan_chars_concat(front, back, Seq::empty(), Seq::empty());
    assert(front + back =~= s);

    // The buffer is non-empty only when the preceding character extends it.
    if i > 0 {
        assert(front =~= s.take(i - 1).push(s[i - 1]));
        lemma_scan_chars_snoc(s.take(i - 1), s[i - 1], Seq::empty(), Seq::empty());
    }

    if back.len() == 0 {
        // The insertion is at the end: the early flush is the final flush.
        assert(scan_spec(front + seq![c] + back) == scan_spec(s));
    } else if is_lexeme_char(back[0]) {
        // A lexeme character follows; by assumption the buffer is empty, so
        // the flush the inserted character forces has nothing to do.
        assert(mid.1 =~= Seq::<char>::empty());
        assert(stepped == mid);
        assert(scan_spec(front + seq![c] + back) == scan_spec(s));
    } else {
        // A non-lexeme character follows; it flushes the buffer either way,
        // and the states agree from there on.
        assert(scan_step(stepped.0, stepped.1, back[0]) == scan_step(mid.0, mid.1, back[0]));
        let after = scan_step(mid.0, mid.1, back[0]);
        lemma_scan_chars_concat(seq![back[0]], back.skip(1), stepped.0, stepped.1);
        lemma_scan_chars_concat(seq![back[0]], back.skip(1), mid.0, mid.1);
        assert(seq![back[0]] + back.skip(1) =~= back);
        assert(seq![back[0]].skip(1) =~= Seq::<char>::empty());
        assert(scan_chars(back, stepped.0, stepped.1) == scan_chars(back.skip(1), after.0, after.1));
        assert(scan_chars(back, mid.0, mid.1) == scan_chars(back.skip(1), after.0, after.1));
        assert(scan_spec(front + seq![c] + back) == scan_spec(s));
    }
}

/// How `a ∘ b ⋄ c` scans: three numbers with a symbol between each pair.
proof fn lemma_scan_plain(a: Seq<char>, b: Seq<char>, c: Seq<char>, o1: char, o2: char)
    requires
        is_numeral(a),
        is_numeral(b),
        is_numeral(c),
        symbol_token(o1) is Some,
        symbol_token(o2) is Some,
    ensures
        scan_spec(a + seq![o1] + b + seq![o2] + c) == seq![
            LexToken::Number(a),
            symbol_token(o1)->0,
            LexToken::Number(b),
            symbol_token(o2)->0,
            LexToken::Number(c),
        ],
{
    let e = Seq::<char>::empty();
    let t1 = symbol_token(o1)->0;
    let t2 = symbol_token(o2)->0;
    let p1 = a;
    let p2 = p1 + seq![o1];
    let p3 = p2 + b;
    let p4 = p3 + seq![o2];
    let out2 = seq![LexToken::Number(a), t1];
    let out4 = seq![LexToken::Number(a), t1, LexToken::Number(b), t2];

    lemma_scan_numeral_run(a, Seq::empty(), e);
    assert(e + a =~= a);
    lemma_scan_chars_concat(p1, seq![o1], Seq::empty(), e);
    lemma_scan_char(o1, Seq::empty(), a);
    assert(Seq::<LexToken>::empty().push(LexToken::Number(a)).push(t1) =~= out2);
    assert(scan_chars(p2, Seq::empty(), e) == (out2, e));
    lemma_scan_chars_concat(p2, b, Seq::empty(), e);
    lemma_scan_numeral_run(b, out2, e);
    assert(e + b =~= b);
    lemma_scan_chars_concat(p3, seq![o2], Seq::empty(), e);
    lemma_scan_char(o2, out2, b);
    assert(out2.push(LexToken::Number(b)).push(t2) =~= out4);
    assert(scan_chars(p4, Seq::empty(), e) == (out4, e));
    lemma_scan_chars_concat(p4, c, Seq::empty(), e);
    lemma_scan_numeral_run(c, out4, e);
    assert(e + c =~= c);
    assert(out4.push(LexToken::Number(c)) =~= seq![
        LexToken::Number(a),
        t1,
        LexToken::Number(b),
        t2,
        LexToken::Number(c),
    ]);
}

/// How `a ∘ ( b ⋄ c )` scans.
proof fn lemma_scan_grouped_right(a: Seq<char>, b: Seq<char>, c: Seq<char>, o1: char, o2: char)
    requires
        is_numeral(a),
        is_numeral(b),
        is_numeral(c),
        symbol_token(o1) is Some,
        symbol_token(o2) is Some,
    ensures
        scan_spec(a + seq![o1, '('] + b + seq![o2] + c + seq![')']) == seq![
            LexToken::Number(a),
            symbol_token(o1)->0,
            LexToken::Parenthesis(Parenthesis::Left),
            LexToken::Number(b),
            symbol_token(o2)->0,
            LexToken::Number(c),
            LexToken::Parenthesis(Parenthesis::Right),
        ],
{
    let e = Seq::<char>::empty();
    let t1 = symbol_token(o1)->0;
    let t2 = symbol_token(o2)->0;
    let lp = LexToken::Parenthesis(Parenthesis::Left);
    let rp = LexToken::Parenthesis(Parenthesis::Right);
    let p1 = a;
    let p2 = p1 + seq![o1, '('];
    let p3 = p2 + b;
    let p4 = p3 + seq![o2];
    let p5 = p4 + c;
    let s = p5 + seq![')'];
    let out2 = seq![LexToken::Number(a), t1, lp];
    let out4 = seq![LexToken::Number(a), t1, lp, LexToken::Number(b), t2];
    let out5 = seq![LexToken::Number(a), t1, lp, LexToken::Number(b), t2, LexToken::Number(c)];

    lemma_scan_numeral_run(a, Seq::empty(), e);
    assert(e + a =~= a);
    lemma_scan_chars_concat(p1, seq![o1, '('], Seq::empty(), e);
    assert(seq![o1, '('] =~= seq![o1] + seq!['(']);
    lemma_scan_chars_concat(seq![o1], seq!['('], Seq::empty(), a);
    lemma_scan_char(o1, Seq::empty(), a);
    lemma_scan_char('(', Seq::<LexToken>::empty().push(LexToken::Number(a)).push(t1), e);
    assert(Seq::<LexToken>::empty().push(LexToken::Number(a)).push(t1).push(lp) =~= out2);
    assert(scan_chars(p2, Seq::empty(), e) == (out2, e));
    lemma_scan_chars_concat(p2, b, Seq::empty(), e);
    lemma_scan_numeral_run(b, out2, e);
    assert(e + b =~= b);
    lemma_scan_chars_concat(p3, seq![o2], Seq::empty(), e);
    lemma_scan_char(o2, out2, b);
    assert(out2.push(LexToken::Number(b)).push(t2) =~= out4);
    assert(scan_chars(p4, Seq::empty(), e) == (out4, e));
    lemma_scan_chars_concat(p4, c, Seq::empty(), e);
    lemma_scan_numeral_run(c, out4, e);
    assert(e + c =~= c);
    lemma_scan_chars_concat(p5, seq![')'], Seq::empty(), e);
    lemma_scan_char(')', out4, c);
    assert(out4.push(LexToken::Number(c)) =~= out5);
    assert(scan_chars(s, Seq::empty(), e) == (out5.push(rp), e));
    assert(out5.push(rp) =~= seq![
        LexToken::Number(a),
        t1,
        lp,
        LexToken::Number(b),
        t2,
        LexToken::Number(c),
        rp,
    ]);
}

/// How `( a ∘ b ) ⋄ c` scans.
proof fn lemma_scan_grouped_left(a: Seq<char>, b: Seq<char>, c: Seq<char>, o1: char, o2: char)
    requires
        is_numeral(a),
        is_numeral(b),
        is_numeral(c),
        symbol_token(o1) is Some,
        symbol_token(o2) is Some,
    ensures
        scan_spec(seq!['('] + a + seq![o1] + b + seq![')', o2] + c) == seq![
            LexToken::Parenthesis(Parenthesis::Left),
            LexToken::Number(a),
            symbol_token(o1)->0,
            LexToken::Number(b),
            LexToken::Parenthesis(Parenthesis::Right),
            symbol_token(o2)->0,
            LexToken::Number(c),
        ],
{
    let e = Seq::<char>::empty();
    let t1 = symbol_token(o1)->0;
    let t2 = symbol_token(o2)->0;
    let lp = LexToken::Parenthesis(Parenthesis::Left);
    let rp = LexToken::Parenthesis(Parenthesis::Right);
    let p1 = seq!['('];
    let p2 = p1 + a;
    let p3 = p2 + seq![o1];
    let p4 = p3 + b;
    let p5 = p4 + seq![')', o2];
    let out1 = seq![lp];
    let out3 = seq![lp, LexToken::Number(a), t1];
    let out5 = seq![lp, LexToken::Number(a), t1, LexToken::Number(b), rp, t2];

    lemma_scan_char('(', Seq::empty(), e);
    assert(Seq::<LexToken>::empty().push(lp) =~= out1);
    lemma_scan_chars_concat(p1, a, Seq::empty(), e);
    lemma_scan_numeral_run(a, out1, e);
    assert(e + a =~= a);
    lemma_scan_chars_concat(p2, seq![o1], Seq::empty(), e);
    lemma_scan_char(o1, out1, a);
    assert(out1.push(LexToken::Number(a)).push(t1) =~= out3);
    assert(scan_chars(p3, Seq::empty(), e) == (out3, e));
    lemma_scan_chars_concat(p3, b, Seq::empty(), e);
    lemma_scan_numeral_run(b, out3, e);
    assert(e + b =~= b);
    lemma_scan_chars_concat(p4, seq![')', o2], Seq::empty(), e);
    assert(seq![')', o2] =~= seq![')'] + seq![o2]);
    lemma_scan_chars_concat(seq![')'], seq![o2], out3, b);
    lemma_scan_char(')', out3, b);
    lemma_scan_char(o2, out3.push(LexToken::Number(b)).push(rp), e);
    assert(out3.push(LexToken::Number(b)).push(rp).push(t2) =~= out5);
    assert(scan_chars(p5, Seq::empty(), e) == (out5, e));
    lemma_scan_chars_concat(p5, c, Seq::empty(), e);
    lemma_scan_numeral_run(c, out5, e);
    assert(e + c =~= c);
    assert(out5.push(LexToken::Number(c)) =~= seq![
        lp,
        LexToken::Number(a),
        t1,
        LexToken::Number(b),
        rp,
        t2,
        LexToken::Number(c),
    ]);
}

/// The postfix order of `x ∘ y ⋄ z` when `⋄` does not send `∘` to the output:
/// the second operator binds into the right operand of the first.
proof fn lemma_yard_plain_right(x: u32, y: u32, z: u32, o1: Operator, o2: Operator)
    requires
        !pops_before(o2, Token::Operator(o1)),
    ensures
        shunting_yard_spec(
            seq![
                Token::Number(x),
                Token::Operator(o1),
                Token::Number(y),
                Token::Operator(o2),
                Token::Number(z),
            ],
        ) == Ok::<Seq<Token>, Error>(
            seq![
                Token::Number(x),
                Token::Number(y),
                Token::Number(z),
                Token::Operator(o2),
                Token::Operator(o1),
            ],
        ),
{
    reveal_with_fuel(yard_run, 7);
    reveal_with_fuel(pop_ops, 4);
    reveal_with_fuel(drain, 4);
    let ts = seq![
        Token::Number(x),
        Token::Operator(o1),
        Token::Number(y),
        Token::Operator(o2),
        Token::Number(z),
    ];
    let target = seq![
        Token::Number(x),
        Token::Number(y),
        Token::Number(z),
        Token::Operator(o2),
        Token::Operator(o1),
    ];
    assert(shunting_yard_spec(ts) matches Ok(out) && out =~= target);
}

/// The postfix order of `x ∘ y ⋄ z` when `⋄` sends `∘` to the output: the
/// first operator is complete before the second applies.
proof fn lemma_yard_plain_left(x: u32, y: u32, z: u32, o1: Operator, o2: Operator)
    requires
        pops_before(o2, Token::Operator(o1)),
    ensures
        shunting_yard_spec(
            seq![
                Token::Number(x),
                Token::Operator(o1),
                Token::Number(y),
                Token::Operator(o2),
                Token::Number(z),
            ],
        ) == Ok::<Seq<Token>, Error>(
            seq![
                Token::Number(x),
                Token::Number(y),
                Token::Operator(o1),
                Token::Number(z),
                Token::Operator(o2),
            ],
        ),
{
    reveal_with_fuel(yard_run, 7);
    reveal_with_fuel(pop_ops, 4);
    reveal_with_fuel(drain, 4);
    let ts = seq![
        Token::Number(x),
        Token::Operator(o1),
        Token::Number(y),
        Token::Operator(o2),
        Token::Number(z),
    ];
    let target = seq![
        Token::Number(x),
        Token::Number(y),
        Token::Operator(o1),
        Token::Number(z),
        Token::Operator(o2),
    ];
    assert(shunting_yard_spec(ts) matches Ok(out) && out =~= target);
}

/// The postfix order of `x ∘ ( y ⋄ z )`: the parentheses force the second
/// operator to complete first, whatever the table says.
proof fn lemma_yard_grouped_right(x: u32, y: u32, z: u32, o1: Operator, o2: Operator)
    ensures
        shunting_yard_spec(
            seq![
                Token::Number(x),
                Token::Operator(o1),
                Token::Parenthesis(Parenthesis::Left),
                Token::Number(y),
                Token::Operator(o2),
                Token::Number(z),
                Token::Parenthesis(Parenthesis::Right),
            ],
        ) == Ok::<Seq<Token>, Error>(
            seq![
                Token::Number(x),
                Token::Number(y),
                Token::Number(z),
                Token::Operator(o2),
                Token::Operator(o1),
            ],
        ),
{
    reveal_with_fuel(yard_run, 9);
    reveal_with_fuel(pop_ops, 4);
    reveal_with_fuel(pop_to_left, 4);
    reveal_with_fuel(drain, 4);
    let ts = seq![
        Token::Number(x),
        Token::Operator(o1),
        Token::Parenthesis(Parenthesis::Left),
        Token::Number(y),
        Token::Operator(o2),
        Token::Number(z),
        Token::Parenthesis(Parenthesis::Right),
    ];
    let target = seq![
        Token::Number(x),
        Token::Number(y),
        Token::Number(z),
        Token::Operator(o2),
        Token::Operator(o1),
    ];
    assert(shunting_yard_spec(ts) matches Ok(out) && out =~= target);
}

/// The postfix order of `( x ∘ y ) ⋄ z`: the parentheses force the first
/// operator to complete first, whatever the table says.
proof fn lemma_yard_grouped_left(x: u32, y: u32, z: u32, o1: Operator, o2: Operator)
    ensures
        shunting_yard_spec(
            seq![
                Token::Parenthesis(Parenthesis::Left),
                Token::Number(x),
                Token::Operator(o1),
                Token::Number(y),
                Token::Parenthesis(Parenthesis::Right),
                Token::Operator(o2),
                Token::Number(z),
            ],
        ) == Ok::<Seq<Token>, Error>(
            seq![
                Token::Number(x),
                Token::Number(y),
                Token::Operator(o1),
                Token::Number(z),
                Token::Operator(o2),
            ],
        ),
{
    reveal_with_fuel(yard_run, 9);
    reveal_with_fuel(pop_ops, 4);
    reveal_with_fuel(pop_to_left, 4);
    reveal_with_fuel(drain, 4);
    let ts = seq![
        Token::Parenthesis(Parenthesis::Left),
        Token::Number(x),
        Token::Operator(o1),
        Token::Number(y),
        Token::Parenthesis(Parenthesis::Right),
        Token::Operator(o2),
        Token::Number(z),
    ];
    let target = seq![
        Token::Number(x),
        Token::Number(y),
        Token::Operator(o1),
        Token::Number(z),
        Token::Operator(o2),
    ];
    assert(shunting_yard_spec(ts) matches Ok(out) && out =~= target);
}

/// Resolving succeeds outright when the parse outcomes line up with the
/// numbers: a value for every number, nothing for anything else.
proof fn lemma_resolve_aligned(lexed: Seq<LexToken>, vals: Seq<Option<u32>>)
    requires
        forall|i: int|
            0 <= i < lexed.len() ==> (((#[trigger] lexed[i]) is Number) <==> vals[i] is Some),
    ensures
        resolve_spec(lexed, vals) == Ok::<Seq<Token>, Error>(
            Seq::new(lexed.len(), |i: int| resolved_token(lexed[i], vals[i])),
        ),
{
    assert(resolvable(lexed, vals));
}

/// Precedence: when `⋄` binds tighter than `∘`, the numerals `a ∘ b ⋄ c`
/// reach the very postfix sequence that `a ∘ ( b ⋄ c )` reaches, so every
/// later stage — the reducer and the caller's arithmetic — treats the two
/// inputs identically.
pub proof fn lemma_precedence(
    a: Seq<char>,
    b: Seq<char>,
    c: Seq<char>,
    va: u32,
    vb: u32,
    vc: u32,
    c1: char,
    c2: char,
    o1: Operator,
    o2: Operator,
)
    requires
        is_numeral(a),
        is_numeral(b),
        is_numeral(c),
        symbol_token(c1) == Some(LexToken::Operator(o1)),
        symbol_token(c2) == Some(LexToken::Operator(o2)),
        o1.precedence_spec() < o2.precedence_spec(),
    ensures
        rpn_pipeline(
            a + seq![c1] + b + seq![c2] + c,
            seq![Some(va), None, Some(vb), None, Some(vc)],
        ) == Ok::<Seq<Token>, Error>(
            seq![
                Token::Number(va),
                Token::Number(vb),
                Token::Number(vc),
                Token::Operator(o2),
                Token::Operator(o1),
            ],
        ),
        rpn_pipeline(
            a + seq![c1, '('] + b + seq![c2] + c + seq![')'],
            seq![Some(va), None, None, Some(vb), None, Some(vc), None],
        ) == Ok::<Seq<Token>, Error>(
            seq![
                Token::Number(va),
                Token::Number(vb),
                Token::Number(vc),
                Token::Operator(o2),
                Token::Operator(o1),
            ],
        ),
{
    lemma_scan_plain(a, b, c, c1, c2);
    let lexed1 = seq![
        LexToken::Number(a),
        LexToken::Operator(o1),
        LexToken::Number(b),
        LexToken::Operator(o2),
        LexToken::Number(c),
    ];
    let vals1 = seq![Some(va), None, Some(vb), None, Some(vc)];
    lemma_resolve_aligned(lexed1, vals1);
    assert(Seq::new(lexed1.len(), |i: int| resolved_token(lexed1[i], vals1[i])) =~= seq![
        Token::Number(va),
        Token::Operator(o1),
        Token::Number(vb),
        Token::Operator(o2),
        Token::Number(vc),
    ]);
    lemma_yard_plain_right(va, vb, vc, o1, o2);

    lemma_scan_grouped_right(a, b, c, c1, c2);
    let lexed2 = seq![
        LexToken::Number(a),
        LexToken::Operator(o1),
        LexToken::Parenthesis(Parenthesis::Left),
        LexToken::Number(b),
        LexToken::Operator(o2),
        LexToken::Number(c),
        LexToken::Parenthesis(Parenthesis::Right),
    ];
    let vals2 = seq![Some(va), None, None, Some(vb), None, Some(vc), None];
    lemma_resolve_aligned(lexed2, vals2);
    assert(Seq::new(lexed2.len(), |i: int| resolved_token(lexed2[i], vals2[i])) =~= seq![
        Token::Number(va),
        Token::Operator(o1),
        Token::Parenthesis(Parenthesis::Left),
        Token::Number(vb),
        Token::Operator(o2),
        Token::Number(vc),
        Token::Parenthesis(Parenthesis::Right),
    ]);
    lemma_yard_grouped_right(va, vb, vc, o1, o2);
}

/// Left associativity: for a left-grouping operator `∘`, the numerals
/// `a ∘ b ∘ c` reach the very postfix sequence that `( a ∘ b ) ∘ c` reaches.
pub proof fn lemma_left_associativity(
    a: Seq<char>,
    b: Seq<char>,
    c: Seq<char>,
    va: u32,
    vb: u32,
    vc: u32,
    ch: char,
    o: Operator,
)
    requires
        is_numeral(a),
        is_numeral(b),
        is_numeral(c),
        symbol_token(ch) == Some(LexToken::Operator(o)),
        o.associativity_spec() is Left,
    ensures
        rpn_pipeline(
            a + seq![ch] + b + seq![ch] + c,
            seq![Some(va), None, Some(vb), None, Some(vc)],
        ) == Ok::<Seq<Token>, Error>(
            seq![
                Token::Number(va),
                Token::Number(vb),
                Token::Operator(o),
                Token::Number(vc),
                Token::Operator(o),
            ],
        ),
        rpn_pipeline(
            seq!['('] + a + seq![ch] + b + seq![')', ch] + c,
            seq![None, Some(va), None, Some(vb), None, None, Some(vc)],
        ) == Ok::<Seq<Token>, Error>(
            seq![
                Token::Number(va),
                Token::Number(vb),
                Token::Operator(o),
                Token::Number(vc),
                Token::Operator(o),
            ],
        ),
{
    lemma_scan_plain(a, b, c, ch, ch);
    let lexed1 = seq![
        LexToken::Number(a),
        LexToken::Operator(o),
        LexToken::Number(b),
        LexToken::Operator(o),
        LexToken::Number(c),
    ];
    let vals1 = seq![Some(va), None, Some(vb), None, Some(vc)];
    lemma_resolve_aligned(lexed1, vals1);
    assert(Seq::new(lexed1.len(), |i: int| resolved_token(lexed1[i], vals1[i])) =~= seq![
        Token::Number(va),
        Token::Operator(o),
        Token::Number(vb),
        Token::Operator(o),
        Token::Number(vc),
    ]);
    lemma_yard_plain_left(va, vb, vc, o, o);

    lemma_scan_grouped_left(a, b, c, ch, ch);
    let lexed2 = seq![
        LexToken::Parenthesis(Parenthesis::Left),
        LexToken::Number(a),
        LexToken::Operator(o),
        LexToken::Number(b),
        LexToken::Parenthesis(Parenthesis::Right),
        LexToken::Operator(o),
        LexToken::Number(c),
    ];
    let vals2 = seq![None, Some(va), None, Some(vb), None, None, Some(vc)];
    lemma_resolve_aligned(lexed2, vals2);
    assert(Seq::new(lexed2.len(), |i: int| resolved_token(lexed2[i], vals2[i])) =~= seq![
        Token::Parenthesis(Parenthesis::Left),
        Token::Number(va),
        Token::Operator(o),
        Token::Number(vb),
        Token::Parenthesis(Parenthesis::Right),
        Token::Operator(o),
        Token::Number(vc),
    ]);
    lemma_yard_grouped_left(va, vb, vc, o, o);
}

/// Right associativity: for a right-grouping operator `∘`, the numerals
/// `a ∘ b ∘ c` reach the very postfix sequence that `a ∘ ( b ∘ c )` reaches.
pub proof fn lemma_right_associativity(
    a: Seq<char>,
    b: Seq<char>,
    c: Seq<char>,
    va: u32,
    vb: u32,
    vc: u32,
    ch: char,
    o: Operator,
)
    requires
        is_numeral(a),
        is_numeral(b),
        is_numeral(c),
        symbol_token(ch) == Some(LexToken::Operator(o)),
        o.associativity_spec() is Right,
    ensures
        rpn_pipeline(
            a + seq![ch] + b + seq![ch] + c,
            seq![Some(va), None, Some(vb), None, Some(vc)],
        ) == Ok::<Seq<Token>, Error>(
            seq![
                Token::Number(va),
                Token::Number(vb),
                Token::Number(vc),
                Token::Operator(o),
                Token::Operator(o),
            ],
        ),
        rpn_pipeline(
            a + seq![ch, '('] + b + seq![ch] + c + seq![')'],
            seq![Some(va), None, None, Some(vb), None, Some(vc), None],
        ) == Ok::<Seq<Token>, Error>(
            seq![
                Token::Number(va),
                Token::Number(vb),
                Token::Number(vc),
                Token::Operator(o),
                Token::Operator(o),
            ],
        ),
{
    lemma_scan_plain(a, b, c, ch, ch);
    let lexed1 = seq![
        LexToken::Number(a),
        LexToken::Operator(o),
        LexToken::Number(b),
        LexToken::Operator(o),
        LexToken::Number(c),
    ];
    let vals1 = seq![Some(va), None, Some(vb), None, Some(vc)];
    lemma_resolve_aligned(lexed1, vals1);
    assert(Seq::new(lexed1.len(), |i: int| resolved_token(lexed1[i], vals1[i])) =~= seq![
        Token::Number(va),
        Token::Operator(o),
        Token::Number(vb),
        Token::Operator(o),
        Token::Number(vc),
    ]);
    lemma_yard_plain_right(va, vb, vc, o, o);

    lemma_scan_grouped_right(a, b, c, ch, ch);
    let lexed2 = seq![
        LexToken::Number(a),
        LexToken::Operator(o),
        LexToken::Parenthesis(Parenthesis::Left),
        LexToken::Number(b),
        LexToken::Operator(o),
        LexToken::Number(c),
        LexToken::Parenthesis(Parenthesis::Right),
    ];
    let vals2 = seq![Some(va), None, None, Some(vb), None, Some(vc), None];
    lemma_resolve_aligned(lexed2, vals2);
    assert(Seq::new(lexed2.len(), |i: int| resolved_token(lexed2[i], vals2[i])) =~= seq![
        Token::Number(va),
        Token::Operator(o),
        Token::Parenthesis(Parenthesis::Left),
        Token::Number(vb),
        Token::Operator(o),
        Token::Number(vc),
        Token::Parenthesis(Parenthesis::Right),
    ]);
    lemma_yard_grouped_right(va, vb, vc, o, o);
}

/// A left parenthesis at the bottom of the stack is invisible to an incoming
/// operator: it never pops below it.
proof fn lemma_pop_ops_above_left(out: Seq<Token>, stack: Seq<Token>, o: Operator)
    ensures
        pop_ops(out, seq![Token::Parenthesis(Parenthesis::Left)] + stack, o) == {
            let r = pop_ops(out, stack, o);
            (r.0, seq![Token::Parenthesis(Parenthesis::Left)] + r.1)
        },
    decreases stack.len(),
{
    let lp = Token::Parenthesis(Parenthesis::Left);
    let ext = seq![lp] + stack;
    if stack.len() == 0 {
        assert(ext.last() == lp);
        assert(seq![lp] + stack =~= seq![lp]);
    } else {
        assert(ext.last() == stack.last());
        if pops_before(o, stack.last()) {
            assert(ext.drop_last() =~= seq![lp] + stack.drop_last());
            lemma_pop_ops_above_left(out.push(stack.last()), stack.drop_last(), o);
        }
    }
}

/// A left parenthesis below a stack that already closes is never reached by a
/// right parenthesis.
proof fn lemma_pop_to_left_above_left(out: Seq<Token>, stack: Seq<Token>)
    requires
        pop_to_left(out, stack) is Ok,
    ensures
        pop_to_left(out, seq![Token::Parenthesis(Parenthesis::Left)] + stack) == {
            let r = pop_to_left(out, stack)->Ok_0;
            Ok::<(Seq<Token>, Seq<Token>), Error>(
                (r.0, seq![Token::Parenthesis(Parenthesis::Left)] + r.1),
            )
        },
    decreases stack.len(),
{
    let lp = Token::Parenthesis(Parenthesis::Left);
    let ext = seq![lp] + stack;
    assert(stack.len() > 0);
    assert(ext.last() == stack.last());
    assert(ext.drop_last() =~= seq![lp] + stack.drop_last());
    if stack.last() == lp {
    } else {
        lemma_pop_to_left_above_left(out.push(stack.last()), stack.drop_last());
    }
}

/// A run that succeeds from some stack runs just the same with a left
/// parenthesis slid underneath: the parenthesis only marks the floor.
proof fn lemma_yard_run_above_left(ts: Seq<Token>, out: Seq<Token>, stack: Seq<Token>)
    requires
        yard_run(ts, out, stack) is Ok,
    ensures
        yard_run(ts, out, seq![Token::Parenthesis(Parenthesis::Left)] + stack) == {
            let r = yard_run(ts, out, stack)->Ok_0;
            Ok::<(Seq<Token>, Seq<Token>), Error>(
                (r.0, seq![Token::Parenthesis(Parenthesis::Left)] + r.1),
            )
        },
    decreases ts.len(),
{
    let lp = Token::Parenthesis(Parenthesis::Left);
    if ts.len() == 0 {
    } else {
        match ts[0] {
            Token::Number(_) => {
                lemma_yard_run_above_left(ts.skip(1), out.push(ts[0]), stack);
            },
            Token::Operator(o) => {
                lemma_pop_ops_above_left(out, stack, o);
                let r = pop_ops(out, stack, o);
                assert((seq![lp] + r.1).push(ts[0]) =~= seq![lp] + r.1.push(ts[0]));
                lemma_yard_run_above_left(ts.skip(1), r.0, r.1.push(ts[0]));
            },
            Token::Parenthesis(Parenthesis::Left) => {
                assert((seq![lp] + stack).push(ts[0]) =~= seq![lp] + stack.push(ts[0]));
                lemma_yard_run_above_left(ts.skip(1), out, stack.push(ts[0]));
            },
            Token::Parenthesis(Parenthesis::Right) => {
                assert(pop_to_left(out, stack) is Ok);
                lemma_pop_to_left_above_left(out, stack);
                let r = pop_to_left(out, stack)->Ok_0;
                lemma_yard_run_above_left(ts.skip(1), r.0, r.1);
            },
        }
    }
}

/// A stack that drains cleanly is exactly what a right parenthesis pops down
/// to a left one underneath it.
proof fn lemma_drain_as_pop_to_left(out: Seq<Token>, stack: Seq<Token>)
    requires
        drain(out, stack) is Ok,
    ensures
        pop_to_left(out, seq![Token::Parenthesis(Parenthesis::Left)] + stack) == Ok::<
            (Seq<Token>, Seq<Token>),
            Error,
        >((drain(out, stack)->Ok_0, Seq::empty())),
    decreases stack.len(),
{
    let lp = Token::Parenthesis(Parenthesis::Left);
    let ext = seq![lp] + stack;
    if stack.len() == 0 {
        assert(ext.last() == lp);
        assert(ext.drop_last() =~= Seq::<Token>::empty());
    } else {
        assert(ext.last() == stack.last());
        assert(!(stack.last() is Parenthesis));
        assert(ext.drop_last() =~= seq![lp] + stack.drop_last());
        lemma_drain_as_pop_to_left(out.push(stack.last()), stack.drop_last());
    }
}

/// Parenthesis neutrality at the converter: wrapping a token sequence that
/// converts successfully in one pair of parentheses leaves its postfix
/// sequence unchanged.
pub proof fn lemma_outer_parentheses_yard(ts: Seq<Token>, out: Seq<Token>)
    requires
        shunting_yard_spec(ts) == Ok::<Seq<Token>, Error>(out),
    ensures
        shunting_yard_spec(
            seq![Token::Parenthesis(Parenthesis::Left)] + ts + seq![
                Token::Parenthesis(Parenthesis::Right),
            ],
        ) == Ok::<Seq<Token>, Error>(out),
{
    let lp = Token::Parenthesis(Parenthesis::Left);
    let rp = Token::Parenthesis(Parenthesis::Right);
    let e = Seq::<Token>::empty();
    let w = seq![lp] + ts + seq![rp];
    let run = yard_run(ts, e, e);
    assert(run is Ok);
    let mid = run->Ok_0;

    // The opening parenthesis goes onto the empty stack.
    assert(w[0] == lp);
    assert(w.skip(1) =~= ts + seq![rp]);
    assert(yard_run(w, e, e) == yard_run(ts + seq![rp], e, e.push(lp)));

    // The body runs above it untouched.
    lemma_yard_run_concat(ts, seq![rp], e, e.push(lp));
    assert(e.push(lp) =~= seq![lp] + e);
    lemma_yard_run_above_left(ts, e, e);
    assert(yard_run(ts, e, e.push(lp)) == Ok::<(Seq<Token>, Seq<Token>), Error>(
        (mid.0, seq![lp] + mid.1),
    ));

    // The closing parenthesis pops what the final drain would have popped.
    assert(drain(mid.0, mid.1) == Ok::<Seq<Token>, Error>(out));
    lemma_drain_as_pop_to_left(mid.0, mid.1);
    assert(seq![rp][0] == rp);
    assert(seq![rp].skip(1) =~= Seq::<Token>::empty());
    assert(yard_run(Seq::<Token>::empty(), out, e) == Ok::<(Seq<Token>, Seq<Token>), Error>(
        (out, e),
    ));
    assert(yard_run(seq![rp], mid.0, seq![lp] + mid.1) == Ok::<(Seq<Token>, Seq<Token>), Error>(
        (out, e),
    ));
    assert(shunting_yard_spec(w) == drain(out, e));
}

/// The scanner only ever appends to the output it was handed.
proof fn lemma_scan_chars_out_prefix(s: Seq<char>, out: Seq<LexToken>, buf: Seq<char>)
    ensures
        scan_chars(s, out, buf) == {
            let r = scan_chars(s, Seq::<LexToken>::empty(), buf);
            (out + r.0, r.1)
        },
    decreases s.len(),
{
    let e = Seq::<LexToken>::empty();
    if s.len() == 0 {
        assert(out + e =~= out);
    } else {
        let c = s[0];
        let st1 = scan_step(out, buf, c);
        let st2 = scan_step(e, buf, c);
        assert(st1.0 =~= out + st2.0);
        lemma_scan_chars_out_prefix(s.skip(1), st1.0, st1.1);
        lemma_scan_chars_out_prefix(s.skip(1), st2.0, st2.1);
        let r = scan_chars(s.skip(1), e, st1.1);
        assert(out + (st2.0 + r.0) =~= st1.0 + r.0);
    }
}

/// How a parenthesised string scans: the parentheses become their own tokens
/// around the tokens of the body.
pub proof fn lemma_scan_outer_parens(s: Seq<char>)
    ensures
        scan_spec(seq!['('] + s + seq![')']) == seq![
            LexToken::Parenthesis(Parenthesis::Left),
        ] + scan_spec(s) + seq![LexToken::Parenthesis(Parenthesis::Right)],
{
    let lp = LexToken::Parenthesis(Parenthesis::Left);
    let rp = LexToken::Parenthesis(Parenthesis::Right);
    let eb = Seq::<char>::empty();
    let eo = Seq::<LexToken>::empty();
    let w = seq!['('] + s + seq![')'];

    lemma_scan_chars_concat(seq!['('] + s, seq![')'], eo, eb);
    lemma_scan_chars_concat(seq!['('], s, eo, eb);
    lemma_scan_char('(', eo, eb);
    assert(eo.push(lp) =~= seq![lp]);
    lemma_scan_chars_out_prefix(s, seq![lp], eb);
    let r = scan_chars(s, eo, eb);
    let m = scan_chars(seq!['('] + s, eo, eb);
    assert(m == (seq![lp] + r.0, r.1));
    lemma_scan_char(')', m.0, m.1);
    assert(flush(seq![lp] + r.0, r.1) =~= seq![lp] + flush(r.0, r.1));
    assert((seq![lp] + flush(r.0, r.1)).push(rp) =~= seq![lp] + flush(r.0, r.1) + seq![rp]);
}

/// Resolving a parenthesised token sequence: the parentheses need no parse
/// outcome and pass through unchanged.
proof fn lemma_resolve_wrapped(lexed: Seq<LexToken>, vals: Seq<Option<u32>>, resolved: Seq<Token>)
    requires
        vals.len() == lexed.len(),
        resolve_spec(lexed, vals) == Ok::<Seq<Token>, Error>(resolved),
    ensures
        resolve_spec(
            seq![LexToken::Parenthesis(Parenthesis::Left)] + lexed + seq![
                LexToken::Parenthesis(Parenthesis::Right),
            ],
            seq![None] + vals + seq![None],
        ) == Ok::<Seq<Token>, Error>(
            seq![Token::Parenthesis(Parenthesis::Left)] + resolved + seq![
                Token::Parenthesis(Parenthesis::Right),
            ],
        ),
{
    let wl = seq![LexToken::Parenthesis(Parenthesis::Left)] + lexed + seq![
        LexToken::Parenthesis(Parenthesis::Right),
    ];
    let wv = seq![None] + vals + seq![None];
    assert(resolvable(lexed, vals));
    assert forall|i: int|
        0 <= i < wl.len() && (#[trigger] wl[i]) is Number implies wv[i] is Some by {
        if 1 <= i <= lexed.len() {
            assert(wl[i] == lexed[i - 1]);
            assert(wv[i] == vals[i - 1]);
        }
    }
    assert(resolvable(wl, wv));
    assert(Seq::new(wl.len(), |i: int| resolved_token(wl[i], wv[i])) =~= seq![
        Token::Parenthesis(Parenthesis::Left),
    ] + resolved + seq![Token::Parenthesis(Parenthesis::Right)]);
}

/// Parenthesis neutrality, outermost case: an input whose pipeline succeeds
/// reaches the very same postfix sequence when the whole expression is
/// wrapped in one pair of parentheses.
pub proof fn lemma_parenthesis_neutrality(s: Seq<char>, vals: Seq<Option<u32>>, out: Seq<Token>)
    requires
        vals.len() == scan_spec(s).len(),
        rpn_pipeline(s, vals) == Ok::<Seq<Token>, Error>(out),
    ensures
        rpn_pipeline(seq!['('] + s + seq![')'], seq![None] + vals + seq![None]) == Ok::<
            Seq<Token>,
            Error,
        >(out),
{
    lemma_scan_outer_parens(s);
    let lexed = scan_spec(s);
    assert(resolve_spec(lexed, vals) is Ok);
    let resolved = resolve_spec(lexed, vals)->Ok_0;
    lemma_resolve_wrapped(lexed, vals, resolved);
    lemma_outer_parentheses_yard(resolved, out);
}

} // verus!
