//! Printing and reading back: which formulas the parser reads from their
//! own plain text.

use crate::ast::{Formula, Name};
use crate::parse::{
    arguments_at, lex_text, parse1_at, parse2_at, parse3_at, parse_text, token_at, token_of,
    Lexeme, ParseFailure,
};
use crate::pretty::OUTERMOST;
use crate::text::join;
use vstd::prelude::*;

verus! {

/// A name of one character that the lexer reads as a name.
pub open spec fn plain_name(x: Name) -> bool {
    x.len() == 1 && token_of(x[0]) == Some(Lexeme::Var(seq![x[0]]))
}

/// Whether a formula stands in brackets inside an operator of precedence `outer`.
pub open spec fn in_brackets(f: Formula, outer: nat) -> bool {
    !((f.associative() && f.precedence() <= outer) || f.precedence() < outer)
}

/// The tokens of the arguments after the first: a comma and a name for each.
pub open spec fn tail_tokens(names: Seq<Name>) -> Seq<Lexeme>
    decreases names.len(),
{
    if names.len() == 0 {
        Seq::empty()
    } else {
        seq![Lexeme::Comma, Lexeme::Var(names.first())] + tail_tokens(names.drop_first())
    }
}

impl Formula {
    /// Whether the parser reads the formula from its plain text: every
    /// name is one character that is no sign of the syntax, a predicate
    /// has an argument, there is no quantifier, and no conjunction or
    /// disjunction stands unbracketed on the left of another (the left
    /// part of a conjunction is no conjunction, that of a disjunction
    /// neither a conjunction nor a disjunction).
    pub open spec fn readable(self) -> bool
        decreases self,
    {
        match self {
            Formula::Var(x) => plain_name(x),
            Formula::Predicate(p, args) => plain_name(p) && args.len() >= 1 && forall|i: int|
                0 <= i < args.len() ==> plain_name(#[trigger] args[i]),
            Formula::Not(a) => a.readable(),
            Formula::And(a, b) => a.readable() && b.readable() && !(*a is And),
            Formula::Or(a, b) => a.readable() && b.readable() && !(*a is And) && !(*a is Or),
            Formula::Implicate(a, b) | Formula::Biimplicate(a, b) => a.readable() && b.readable(),
            Formula::ForAll(_, _) | Formula::Exists(_, _) => false,
        }
    }

    /// The tokens of the plain text of a readable formula inside an
    /// operator of precedence `outer`.
    pub open spec fn tokens_inside(self, outer: nat) -> Seq<Lexeme>
        decreases self,
    {
        let own = self.precedence();
        let bare = match self {
            Formula::Var(x) => seq![Lexeme::Var(x)],
            Formula::Predicate(p, args) => seq![
                Lexeme::Var(p),
                Lexeme::OpenParen,
                Lexeme::Var(args[0]),
            ] + tail_tokens(args.drop_first()) + seq![Lexeme::CloseParen],
            Formula::Not(a) => seq![Lexeme::Not] + a.tokens_inside(own),
            Formula::And(a, b) => a.tokens_inside(own) + seq![Lexeme::And] + b.tokens_inside(own),
            Formula::Or(a, b) => a.tokens_inside(own) + seq![Lexeme::Or] + b.tokens_inside(own),
            Formula::Implicate(a, b) => a.tokens_inside(own) + seq![Lexeme::Implicate]
                + b.tokens_inside(own),
            Formula::Biimplicate(a, b) => a.tokens_inside(own) + seq![Lexeme::Biimplicate]
                + b.tokens_inside(own),
            Formula::ForAll(_, _) | Formula::Exists(_, _) => Seq::empty(),
        };
        if in_brackets(self, outer) {
            seq![Lexeme::OpenParen] + bare + seq![Lexeme::CloseParen]
        } else {
            bare
        }
    }
}

/// The tokens of a text in two parts are those of the parts.
pub proof fn lemma_lex_concat(a: Seq<char>, b: Seq<char>)
    ensures
        lex_text(a + b) == lex_text(a) + lex_text(b),
    decreases b.len(),
{
    if b.len() == 0 {
        assert(a + b =~= a);
        assert(lex_text(a) + lex_text(b) =~= lex_text(a));
    } else {
        lemma_lex_concat(a, b.drop_last());
        assert((a + b).drop_last() =~= a + b.drop_last());
        assert((a + b).last() == b.last());
        match token_of(b.last()) {
            Some(t) => {
                assert(lex_text(a + b) =~= lex_text(a) + lex_text(b));
            },
            None => {},
        }
    }
}

/// The tokens of a text of one character.
pub proof fn lemma_lex_one(c: char)
    ensures
        lex_text(seq![c]) == match token_of(c) {
            Some(t) => seq![t],
            None => Seq::empty(),
        },
{
    assert(seq![c].drop_last() =~= Seq::<char>::empty());
    assert(seq![c].last() == c);
    assert(lex_text(Seq::<char>::empty()) =~= Seq::<Lexeme>::empty());
    match token_of(c) {
        Some(t) => {
            assert(Seq::<Lexeme>::empty().push(t) =~= seq![t]);
        },
        None => {},
    }
}

/// The tokens of the fixed pieces of a plain text.
pub proof fn lemma_lex_pieces()
    ensures
        lex_text("("@) == seq![Lexeme::OpenParen],
        lex_text(")"@) == seq![Lexeme::CloseParen],
        lex_text(" "@) == Seq::<Lexeme>::empty(),
        lex_text(", "@) == seq![Lexeme::Comma],
        lex_text("¬"@) == seq![Lexeme::Not],
        lex_text("∧"@) == seq![Lexeme::And],
        lex_text("∨"@) == seq![Lexeme::Or],
        lex_text("→"@) == seq![Lexeme::Implicate],
        lex_text("↔"@) == seq![Lexeme::Biimplicate],
{
    reveal_strlit("(");
    reveal_strlit(")");
    reveal_strlit(" ");
    reveal_strlit(", ");
    reveal_strlit("¬");
    reveal_strlit("∧");
    reveal_strlit("∨");
    reveal_strlit("→");
    reveal_strlit("↔");
    assert("("@ =~= seq!['(']);
    assert(")"@ =~= seq![')']);
    assert(" "@ =~= seq![' ']);
    assert(", "@ =~= seq![','] + seq![' ']);
    assert("¬"@ =~= seq!['¬']);
    assert("∧"@ =~= seq!['∧']);
    assert("∨"@ =~= seq!['∨']);
    assert("→"@ =~= seq!['→']);
    assert("↔"@ =~= seq!['↔']);
    lemma_lex_one('(');
    lemma_lex_one(')');
    lemma_lex_one(' ');
    lemma_lex_one(',');
    lemma_lex_one('¬');
    lemma_lex_one('∧');
    lemma_lex_one('∨');
    lemma_lex_one('→');
    lemma_lex_one('↔');
    lemma_lex_concat(seq![','], seq![' ']);
    assert(seq![Lexeme::Comma] + Seq::<Lexeme>::empty() =~= seq![Lexeme::Comma]);
}

/// The token of a plain name.
pub proof fn lemma_lex_name(x: Name)
    requires
        plain_name(x),
    ensures
        lex_text(x) == seq![Lexeme::Var(x)],
{
    assert(x =~= seq![x[0]]);
    lemma_lex_one(x[0]);
}

/// One more name at the end: one more comma and name at the end.
pub proof fn lemma_tail_push(names: Seq<Name>, x: Name)
    ensures
        tail_tokens(names.push(x)) == tail_tokens(names) + seq![Lexeme::Comma, Lexeme::Var(x)],
    decreases names.len(),
{
    if names.len() == 0 {
        assert(names.push(x).drop_first() =~= Seq::<Name>::empty());
        assert(names.push(x).first() == x);
        assert(tail_tokens(Seq::<Name>::empty()) =~= Seq::<Lexeme>::empty());
        assert(tail_tokens(names.push(x)) =~= seq![Lexeme::Comma, Lexeme::Var(x)]);
        assert(tail_tokens(names) + seq![Lexeme::Comma, Lexeme::Var(x)] =~= seq![
            Lexeme::Comma,
            Lexeme::Var(x),
        ]);
    } else {
        lemma_tail_push(names.drop_first(), x);
        assert(names.push(x).drop_first() =~= names.drop_first().push(x));
        assert(names.push(x).first() == names.first());
        assert(tail_tokens(names.push(x)) =~= tail_tokens(names) + seq![
            Lexeme::Comma,
            Lexeme::Var(x),
        ]);
    }
}

/// The tokens of a list of arguments.
pub proof fn lemma_lex_join(args: Seq<Name>)
    requires
        args.len() >= 1,
        forall|i: int| 0 <= i < args.len() ==> plain_name(#[trigger] args[i]),
    ensures
        lex_text(join(args, ", "@)) == seq![Lexeme::Var(args[0])] + tail_tokens(args.drop_first()),
    decreases args.len(),
{
    lemma_lex_pieces();
    if args.len() == 1 {
        lemma_lex_name(args[0]);
        assert(args.drop_first() =~= Seq::<Name>::empty());
        assert(seq![Lexeme::Var(args[0])] + tail_tokens(args.drop_first()) =~= seq![
            Lexeme::Var(args[0]),
        ]);
    } else {
        let init = args.drop_last();
        assert forall|i: int| 0 <= i < init.len() implies plain_name(#[trigger] init[i]) by {
            assert(init[i] == args[i]);
        }
        lemma_lex_join(init);
        lemma_lex_name(args.last());
        lemma_lex_concat(join(init, ", "@), ", "@);
        lemma_lex_concat(join(init, ", "@) + ", "@, args.last());
        lemma_tail_push(init.drop_first(), args.last());
        assert(args.drop_first() =~= init.drop_first().push(args.last()));
        assert(init[0] == args[0]);
        assert(lex_text(join(args, ", "@)) =~= seq![Lexeme::Var(args[0])] + tail_tokens(
            args.drop_first(),
        ));
    }
}

impl Formula {
    /// The lexer reads the plain text of a readable formula as its tokens.
    pub proof fn lemma_lex_pretty(self, outer: nat)
        requires
            self.readable(),
        ensures
            lex_text(self.pretty_inside(outer)) == self.tokens_inside(outer),
        decreases self,
    {
        lemma_lex_pieces();
        let own = self.precedence();
        let none = Seq::<Lexeme>::empty();
        let text: Seq<char> = match self {
            Formula::Not(a) => self.symbol() + a.pretty_inside(own),
            Formula::Predicate(p, args) => p + "("@ + join(args, ", "@) + ")"@,
            Formula::Var(x) => x,
            Formula::And(a, b)
            | Formula::Or(a, b)
            | Formula::Implicate(a, b)
            | Formula::Biimplicate(a, b) => a.pretty_inside(own) + " "@ + self.symbol() + " "@
                + b.pretty_inside(own),
            Formula::ForAll(x, a) | Formula::Exists(x, a) => self.symbol() + x + " "@
                + a.pretty_inside(own),
        };
        let bare: Seq<Lexeme> = match self {
            Formula::Var(x) => seq![Lexeme::Var(x)],
            Formula::Predicate(p, args) => seq![
                Lexeme::Var(p),
                Lexeme::OpenParen,
                Lexeme::Var(args[0]),
            ] + tail_tokens(args.drop_first()) + seq![Lexeme::CloseParen],
            Formula::Not(a) => seq![Lexeme::Not] + a.tokens_inside(own),
            Formula::And(a, b) => a.tokens_inside(own) + seq![Lexeme::And] + b.tokens_inside(own),
            Formula::Or(a, b) => a.tokens_inside(own) + seq![Lexeme::Or] + b.tokens_inside(own),
            Formula::Implicate(a, b) => a.tokens_inside(own) + seq![Lexeme::Implicate]
                + b.tokens_inside(own),
            Formula::Biimplicate(a, b) => a.tokens_inside(own) + seq![Lexeme::Biimplicate]
                + b.tokens_inside(own),
            Formula::ForAll(_, _) | Formula::Exists(_, _) => Seq::empty(),
        };
        match self {
            Formula::Var(x) => {
                lemma_lex_name(x);
            },
            Formula::Predicate(p, args) => {
                lemma_lex_name(p);
                lemma_lex_join(args);
                lemma_lex_concat(p, "("@);
                lemma_lex_concat(p + "("@, join(args, ", "@));
                lemma_lex_concat(p + "("@ + join(args, ", "@), ")"@);
                assert(lex_text(text) =~= bare);
            },
            Formula::Not(a) => {
                a.lemma_lex_pretty(own);
                lemma_lex_concat(self.symbol(), a.pretty_inside(own));
            },
            Formula::And(a, b)
            | Formula::Or(a, b)
            | Formula::Implicate(a, b)
            | Formula::Biimplicate(a, b) => {
                a.lemma_lex_pretty(own);
                b.lemma_lex_pretty(own);
                let left = a.pretty_inside(own);
                let right = b.pretty_inside(own);
                lemma_lex_concat(left, " "@);
                lemma_lex_concat(left + " "@, self.symbol());
                lemma_lex_concat(left + " "@ + self.symbol(), " "@);
                lemma_lex_concat(left + " "@ + self.symbol() + " "@, right);
                assert(lex_text(left + " "@) =~= lex_text(left));
                assert(lex_text(left + " "@ + self.symbol() + " "@) =~= lex_text(
                    left + " "@ + self.symbol(),
                ));
                assert(lex_text(text) =~= bare);
            },
            _ => {},
        }
        assert(lex_text(text) == bare);
        if in_brackets(self, outer) {
            lemma_lex_concat("("@, text);
            lemma_lex_concat("("@ + text, ")"@);
        }
    }
}

/// Whether the tokens of `piece` stand in `tokens` from the place `at` on.
pub open spec fn occurs(tokens: Seq<Lexeme>, at: int, piece: Seq<Lexeme>) -> bool {
    &&& 0 <= at
    &&& at + piece.len() <= tokens.len()
    &&& forall|i: int| 0 <= i < piece.len() ==> tokens[at + i] == #[trigger] piece[i]
}

/// Where a piece in two parts stands, its parts stand.
pub proof fn lemma_occurs_split(tokens: Seq<Lexeme>, at: int, a: Seq<Lexeme>, b: Seq<Lexeme>)
    requires
        occurs(tokens, at, a + b),
    ensures
        occurs(tokens, at, a),
        occurs(tokens, at + a.len(), b),
{
    assert forall|i: int| 0 <= i < a.len() implies tokens[at + i] == #[trigger] a[i] by {
        assert((a + b)[i] == a[i]);
    }
    assert forall|i: int| 0 <= i < b.len() implies tokens[at + a.len() + i] == #[trigger] b[i] by {
        assert((a + b)[a.len() + i] == b[i]);
    }
}

/// Whether the token after a formula of the innermost level lets the
/// parser stop there.
pub open spec fn free1(t: Option<Lexeme>) -> bool {
    t != Some(Lexeme::OpenParen)
}

/// The same for the middle level.
pub open spec fn free2(t: Option<Lexeme>) -> bool {
    free1(t) && t != Some(Lexeme::And) && t != Some(Lexeme::Or)
}

/// The same for the outermost level.
pub open spec fn free3(t: Option<Lexeme>) -> bool {
    free2(t) && t != Some(Lexeme::Implicate) && t != Some(Lexeme::Biimplicate)
}

/// The parser reads the rest of an argument list.
pub proof fn lemma_parse_arguments(tokens: Seq<Lexeme>, at: int, read: Seq<Name>, names: Seq<Name>)
    requires
        occurs(tokens, at, tail_tokens(names) + seq![Lexeme::CloseParen]),
    ensures
        arguments_at(tokens, at, read) == Ok::<(Seq<Name>, int), ParseFailure>(
            (read + names, at + 2 * names.len() + 1),
        ),
        tail_tokens(names).len() == 2 * names.len(),
    decreases names.len(),
{
    let piece = tail_tokens(names) + seq![Lexeme::CloseParen];
    if names.len() == 0 {
        assert(piece[0] == Lexeme::CloseParen);
        assert(tokens[at + 0] == piece[0]);
        assert(read + names =~= read);
    } else {
        let rest = names.drop_first();
        assert(piece =~= seq![Lexeme::Comma, Lexeme::Var(names.first())] + (tail_tokens(rest)
            + seq![Lexeme::CloseParen]));
        lemma_occurs_split(
            tokens,
            at,
            seq![Lexeme::Comma, Lexeme::Var(names.first())],
            tail_tokens(rest) + seq![Lexeme::CloseParen],
        );
        let head = seq![Lexeme::Comma, Lexeme::Var(names.first())];
        assert(tokens[at + 0] == head[0]);
        assert(tokens[at + 1] == head[1]);
        lemma_parse_arguments(tokens, at + 2, read.push(names.first()), rest);
        assert(read.push(names.first()) + rest =~= read + names);
    }
}

/// Whether the parser of a level reads the formula as it stands inside
/// `outer`: in brackets always; else the innermost level reads atomic
/// formulas and negations, the middle level conjunctions and
/// disjunctions too, the outermost level all.
pub open spec fn fits(f: Formula, outer: nat, level: nat) -> bool {
    in_brackets(f, outer) || level >= 3 || (level == 2 && f.precedence() <= 4) || f.precedence()
        <= 2
}

/// Whether the token lets the parser of a level stop.
pub open spec fn free(t: Option<Lexeme>, level: nat) -> bool {
    if level >= 3 {
        free3(t)
    } else if level == 2 {
        free2(t)
    } else {
        free1(t)
    }
}

/// What the parser of a level gives at a place.
pub open spec fn parse_level(tokens: Seq<Lexeme>, at: int, level: nat) -> Result<
    (Formula, int),
    ParseFailure,
> {
    if level >= 3 {
        parse3_at(tokens, at)
    } else if level == 2 {
        parse2_at(tokens, at)
    } else {
        parse1_at(tokens, at)
    }
}

impl Formula {
    /// The tokens of a formula are never none.
    pub proof fn lemma_tokens_some(self, outer: nat)
        requires
            self.readable(),
        ensures
            self.tokens_inside(outer).len() >= 1,
        decreases self,
    {
        match self {
            Formula::Not(a) => {
                a.lemma_tokens_some(self.precedence());
            },
            Formula::And(a, b)
            | Formula::Or(a, b)
            | Formula::Implicate(a, b)
            | Formula::Biimplicate(a, b) => {
                a.lemma_tokens_some(self.precedence());
            },
            _ => {},
        }
    }

    /// The parser reads a readable formula from its tokens, at every
    /// level that fits, wherever the tokens stand, if the token after them
    /// lets it stop.
    pub proof fn lemma_parse_tokens(self, outer: nat, tokens: Seq<Lexeme>, at: int, level: nat)
        requires
            self.readable(),
            1 <= level <= 3,
            occurs(tokens, at, self.tokens_inside(outer)),
            fits(self, outer, level),
            free(token_at(tokens, at + self.tokens_inside(outer).len()), level),
        ensures
            parse_level(tokens, at, level) == Ok::<(Formula, int), ParseFailure>(
                (self, at + self.tokens_inside(outer).len()),
            ),
        decreases self, (if in_brackets(self, outer) {
            1nat
        } else {
            0nat
        }), level,
    {
        let own = self.precedence();
        let piece = self.tokens_inside(outer);
        let end = at + piece.len();
        self.lemma_tokens_some(outer);
        if level == 3 {
            if fits(self, outer, 2) {
                self.lemma_parse_tokens(outer, tokens, at, 2);
            } else {
                let (a, b) = match self {
                    Formula::Implicate(a, b) => (*a, *b),
                    Formula::Biimplicate(a, b) => (*a, *b),
                    _ => (self, self),
                };
                let op = if self is Implicate {
                    Lexeme::Implicate
                } else {
                    Lexeme::Biimplicate
                };
                let left = a.tokens_inside(own);
                let right = b.tokens_inside(own);
                assert(piece == left + seq![op] + right);
                lemma_occurs_split(tokens, at, left + seq![op], right);
                lemma_occurs_split(tokens, at, left, seq![op]);
                assert(tokens[at + left.len() + 0] == seq![op][0]);
                a.lemma_tokens_some(own);
                a.lemma_parse_tokens(own, tokens, at, 2);
                b.lemma_parse_tokens(own, tokens, at + left.len() + 1, 3);
            }
        } else if level == 2 {
            if fits(self, outer, 1) {
                self.lemma_parse_tokens(outer, tokens, at, 1);
            } else {
                let (a, b) = match self {
                    Formula::And(a, b) => (*a, *b),
                    Formula::Or(a, b) => (*a, *b),
                    _ => (self, self),
                };
                let op = if self is And {
                    Lexeme::And
                } else {
                    Lexeme::Or
                };
                let left = a.tokens_inside(own);
                let right = b.tokens_inside(own);
                assert(piece == left + seq![op] + right);
                lemma_occurs_split(tokens, at, left + seq![op], right);
                lemma_occurs_split(tokens, at, left, seq![op]);
                assert(tokens[at + left.len() + 0] == seq![op][0]);
                a.lemma_tokens_some(own);
                a.lemma_parse_tokens(own, tokens, at, 1);
                b.lemma_parse_tokens(own, tokens, at + left.len() + 1, 2);
            }
        } else {
            if in_brackets(self, outer) {
                let bare = self.tokens_inside(OUTERMOST as nat);
                assert(piece == seq![Lexeme::OpenParen] + bare + seq![Lexeme::CloseParen]);
                lemma_occurs_split(tokens, at, seq![Lexeme::OpenParen] + bare, seq![
                    Lexeme::CloseParen,
                ]);
                lemma_occurs_split(tokens, at, seq![Lexeme::OpenParen], bare);
                assert(tokens[at + 0] == seq![Lexeme::OpenParen][0]);
                assert(tokens[at + 1 + bare.len() + 0] == seq![Lexeme::CloseParen][0]);
                self.lemma_parse_tokens(OUTERMOST as nat, tokens, at + 1, 3);
            } else {
                match self {
                    Formula::Var(x) => {
                        assert(tokens[at + 0] == piece[0]);
                            },
                    Formula::Predicate(p, args) => {
                        let head = seq![Lexeme::Var(p), Lexeme::OpenParen, Lexeme::Var(args[0])];
                        let tail = tail_tokens(args.drop_first());
                        assert(piece =~= head + (tail + seq![Lexeme::CloseParen]));
                        lemma_occurs_split(tokens, at, head, tail + seq![Lexeme::CloseParen]);
                        assert(tokens[at + 0] == head[0]);
                        assert(tokens[at + 1] == head[1]);
                        assert(tokens[at + 2] == head[2]);
                        lemma_parse_arguments(tokens, at + 3, seq![args[0]], args.drop_first());
                        assert(seq![args[0]] + args.drop_first() =~= args);
                            },
                    Formula::Not(a) => {
                        let inner = a.tokens_inside(own);
                        assert(piece == seq![Lexeme::Not] + inner);
                        lemma_occurs_split(tokens, at, seq![Lexeme::Not], inner);
                        assert(tokens[at + 0] == seq![Lexeme::Not][0]);
                        a.lemma_parse_tokens(own, tokens, at + 1, 1);
                            },
                    _ => {},
                }
            }
        }
    }

    /// Reading the plain text of a readable formula gives the formula back.
    pub proof fn law_parse_pretty(self)
        requires
            self.readable(),
        ensures
            parse_text(self.pretty()) == Ok::<Formula, ParseFailure>(self),
    {
        let tokens = self.tokens_inside(OUTERMOST as nat);
        self.lemma_lex_pretty(OUTERMOST as nat);
        self.lemma_parse_tokens(OUTERMOST as nat, tokens, 0, 3);
    }
}

} // verus!
