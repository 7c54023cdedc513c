//! Shell command templates with numbered parameter placeholders, and the effects they render to.
use crate::text::{chars_of, str_to_string, string_from_chars, string_push, string_push_str};
use std::collections::BTreeSet;
use vstd::prelude::*;

verus! {

broadcast use vstd::laws_cmp::group_laws_cmp;

/// A concrete effect to be carried out: the rendered, parameter-substituted form of an effect
/// template.
#[derive(Debug)]
pub enum Effect {
    ShellCommand { program: String, is_synchronous: bool },
}

/// A piece of a template: literal text, or the parameter with the given index.
#[derive(Debug)]
enum Token {
    Text(String),
    Parameter(usize),
}

/// A template token as a mathematical value.
pub enum TemplateToken {
    Text(Seq<char>),
    Parameter(nat),
}

/// A piece of a program string: the text between placeholders, or the inside of a placeholder.
pub enum Piece {
    Text(Seq<char>),
    Placeholder(Seq<char>),
}

/// The first brace (`{` or `}`) at or after `from`, or the length of `s` if there is none.
pub open spec fn next_brace(s: Seq<char>, from: int) -> int
    decreases s.len() - from,
{
    if from >= s.len() || from < 0 {
        s.len() as int
    } else if s[from] == '{' || s[from] == '}' {
        from
    } else {
        next_brace(s, from + 1)
    }
}

/// The first brace at or after `from` is not before `from`.
pub proof fn lemma_next_brace_range(s: Seq<char>, from: int)
    requires
        0 <= from <= s.len(),
    ensures
        from <= next_brace(s, from) <= s.len(),
    decreases s.len() - from,
{
    if from < s.len() && !(s[from] == '{' || s[from] == '}') {
        lemma_next_brace_range(s, from + 1);
    }
}

/// Whether a placeholder starts at `p`: a `{`, then no brace, then a `}`.
pub open spec fn placeholder_at(s: Seq<char>, p: int) -> bool {
    0 <= p < s.len() && s[p] == '{' && next_brace(s, p + 1) < s.len() && s[next_brace(s, p + 1)]
        == '}'
}

/// The pieces of `s` from position `p` on, where the current text piece began at `start`.
/// Placeholders are found from left to right and do not overlap; the text pieces between them,
/// and before the first and after the last, are kept even when empty.
pub open spec fn pieces_from(s: Seq<char>, start: int, p: int) -> Seq<Piece>
    decreases s.len() - p,
{
    if p >= s.len() || p < 0 {
        seq![Piece::Text(s.subrange(start, s.len() as int))]
    } else if placeholder_at(s, p) {
        let q = next_brace(s, p + 1);
        proof {
            lemma_next_brace_range(s, p + 1);
        }
        seq![Piece::Text(s.subrange(start, p)), Piece::Placeholder(s.subrange(p + 1, q))]
            + pieces_from(s, q + 1, q + 1)
    } else {
        pieces_from(s, start, p + 1)
    }
}

/// The value of a string of decimal digits.
pub open spec fn digits_value(d: Seq<char>) -> nat
    decreases d.len(),
{
    if d.len() == 0 {
        0
    } else {
        digits_value(d.drop_last()) * 10 + ((d.last() as u32) - ('0' as u32)) as nat
    }
}

/// Whether every character is an ASCII digit.
pub open spec fn all_digits(d: Seq<char>) -> bool {
    forall|i: int| 0 <= i < d.len() ==> '0' <= #[trigger] d[i] && d[i] <= '9'
}

/// The `usize` a string stands for, as `str::parse::<usize>` reads it: an optional `+`, then at
/// least one ASCII digit, with a value that fits in a `usize`.
pub open spec fn parse_usize(t: Seq<char>) -> Option<nat> {
    let d = if t.len() > 0 && t[0] == '+' {
        t.drop_first()
    } else {
        t
    };
    if d.len() > 0 && all_digits(d) && digits_value(d) <= usize::MAX {
        Some(digits_value(d))
    } else {
        None
    }
}

/// The display text of the `ParseIntError` that `str::parse::<usize>` gives for a string it does
/// not read as a `usize`.
pub uninterp spec fn parse_int_error_text(t: Seq<char>) -> Seq<char>;

/// The message for a placeholder whose inside is not a parameter index: the inside, then
/// ` is not a valid parameter index: ` and the text of the parse error.
pub open spec fn index_error_text(t: Seq<char>) -> Seq<char> {
    t + " is not a valid parameter index: "@ + parse_int_error_text(t)
}

/// Calls `str::parse::<usize>` on a placeholder's inside; on error, gives the display text of the
/// `ParseIntError`, which is only named.
#[verifier::external_body]
fn parse_parameter_index(idx_str: &str) -> (r: Result<usize, String>)
    ensures
        r is Ok <==> parse_usize(idx_str@) is Some,
        r matches Ok(n) ==> parse_usize(idx_str@) == Some(n as nat),
        r matches Err(e) ==> e@ == parse_int_error_text(idx_str@),
{
    idx_str.parse::<usize>().map_err(|error| error.to_string())
}

/// The tokens a piece yields: a non-empty text, or a placeholder's parameter index.
pub open spec fn piece_tokens(p: Piece) -> Result<Seq<TemplateToken>, Seq<char>> {
    match p {
        Piece::Text(t) => if t.len() == 0 {
            Ok(Seq::empty())
        } else {
            Ok(seq![TemplateToken::Text(t)])
        },
        Piece::Placeholder(inner) => match parse_usize(inner) {
            Some(n) => Ok(seq![TemplateToken::Parameter(n)]),
            None => Err(index_error_text(inner)),
        },
    }
}

/// The tokens of a sequence of pieces, or the message for the first invalid placeholder.
pub open spec fn tokens_of(ps: Seq<Piece>) -> Result<Seq<TemplateToken>, Seq<char>>
    decreases ps.len(),
{
    if ps.len() == 0 {
        Ok(Seq::empty())
    } else {
        match tokens_of(ps.drop_last()) {
            Err(m) => Err(m),
            Ok(x) => match piece_tokens(ps.last()) {
                Err(m) => Err(m),
                Ok(t) => Ok(x + t),
            },
        }
    }
}

/// What a program string parses to: its tokens, or the error message.
pub open spec fn parse_program(s: Seq<char>) -> Result<Seq<TemplateToken>, Seq<char>> {
    if s.len() == 0 {
        Err("program must not be an empty string"@)
    } else {
        tokens_of(pieces_from(s, 0, 0))
    }
}

/// The program a token sequence renders to with the given parameter values, or `None` when a
/// token's parameter index has no value.
pub open spec fn render_tokens(ts: Seq<TemplateToken>, params: Seq<Seq<char>>) -> Option<Seq<char>>
    decreases ts.len(),
{
    if ts.len() == 0 {
        Some(Seq::empty())
    } else {
        match render_tokens(ts.drop_last(), params) {
            None => None,
            Some(x) => match ts.last() {
                TemplateToken::Text(t) => Some(x + t),
                TemplateToken::Parameter(i) => if i < params.len() {
                    Some(x + params[i as int])
                } else {
                    None
                },
            },
        }
    }
}

/// The parameter indexes of the placeholder tokens, in order.
pub open spec fn token_indexes(ts: Seq<TemplateToken>) -> Seq<nat>
    decreases ts.len(),
{
    if ts.len() == 0 {
        Seq::empty()
    } else {
        match ts.last() {
            TemplateToken::Parameter(n) => token_indexes(ts.drop_last()).push(n),
            TemplateToken::Text(_) => token_indexes(ts.drop_last()),
        }
    }
}

/// The parameter indexes a token sequence uses.
pub open spec fn required_indexes(ts: Seq<TemplateToken>) -> Set<nat> {
    Set::new(|i: nat| exists|j: int| 0 <= j < ts.len() && ts[j] == TemplateToken::Parameter(i))
}

/// A shell command whose program holds numbered parameter placeholders such as `{0}`.
#[derive(Debug)]
pub struct ShellCommandTemplate {
    tokens: Vec<Token>,
    pub is_synchronous: bool,
}

/// Why a template could not be rendered.
#[derive(Debug)]
pub enum ShellCommandRenderError {
    MissingParameter,
}

spec fn token_view(t: Token) -> TemplateToken {
    match t {
        Token::Text(s) => TemplateToken::Text(s@),
        Token::Parameter(i) => TemplateToken::Parameter(i as nat),
    }
}

/// The text between `a` and `b` as a string.
fn string_from_range(chars: &Vec<char>, a: usize, b: usize) -> (r: String)
    requires
        a <= b <= chars.len(),
    ensures
        r@ == chars@.subrange(a as int, b as int),
{
    let mut r = String::new();
    let mut i = a;
    while i < b
        invariant
            a <= i <= b <= chars.len(),
            r@ == chars@.subrange(a as int, i as int),
        decreases b - i,
    {
        string_push(&mut r, chars[i]);
        proof {
            assert(chars@.subrange(a as int, i as int).push(chars@[i as int]) =~= chars@.subrange(
                a as int,
                i + 1,
            ));
        }
        i += 1;
    }
    r
}

impl ShellCommandTemplate {
    /// Whether the executor waits for the program.
    pub closed spec fn synchronous(self) -> bool {
        self.is_synchronous
    }

    /// The template's tokens.
    pub closed spec fn token_seq(self) -> Seq<TemplateToken> {
        self.tokens@.map_values(|t: Token| token_view(t))
    }

    /// Parses a program string into a template.
    ///
    /// # Errors
    ///
    /// Returns an error if the program string is empty or contains a placeholder whose inside is
    /// not a parameter index.
    pub fn new(program: &str) -> (r: Result<ShellCommandTemplate, String>)
        ensures
            match parse_program(program@) {
                Ok(ts) => r matches Ok(t) && t.token_seq() == ts && !t.synchronous(),
                Err(m) => r matches Err(e) && e@ == m,
            },
    {
        let s = chars_of(program);
        if s.len() == 0 {
            return Err(str_to_string("program must not be an empty string"));
        }
        let ghost sv = s@;
        let mut tokens: Vec<Token> = Vec::new();
        let ghost mut done: Seq<Piece> = Seq::empty();
        let mut start: usize = 0;
        let mut p: usize = 0;
        proof {
            assert(tokens@.map_values(|t: Token| token_view(t)) =~= Seq::<TemplateToken>::empty());
            assert(done + pieces_from(sv, 0, 0) =~= pieces_from(sv, 0, 0));
        }
        while p < s.len()
            invariant
                sv == s@,
                sv == program@,
                start <= p <= s.len(),
                pieces_from(sv, 0, 0) == done + pieces_from(sv, start as int, p as int),
                tokens_of(done) == Ok::<Seq<TemplateToken>, Seq<char>>(
                    tokens@.map_values(|t: Token| token_view(t)),
                ),
            decreases s.len() - p,
        {
            let mut q = p + 1;
            if s[p] == '{' {
                while q < s.len() && s[q] != '{' && s[q] != '}'
                    invariant
                        p < q <= s.len(),
                        next_brace(sv, p + 1) == next_brace(sv, q as int),
                        sv == s@,
                    decreases s.len() - q,
                {
                    q += 1;
                }
            }
            if s[p] == '{' && q < s.len() && s[q] == '}' {
                proof {
                    assert(placeholder_at(sv, p as int));
                    assert(pieces_from(sv, start as int, p as int) == seq![
                        Piece::Text(sv.subrange(start as int, p as int)),
                        Piece::Placeholder(sv.subrange(p + 1, q as int)),
                    ] + pieces_from(sv, q + 1, q + 1));
                }
                let text = string_from_range(&s, start, p);
                let inner = string_from_range(&s, p + 1, q);
                let ghost text_piece = Piece::Text(sv.subrange(start as int, p as int));
                let ghost place_piece = Piece::Placeholder(sv.subrange(p + 1, q as int));
                let ghost before = tokens@.map_values(|t: Token| token_view(t));
                let ghost d1 = done.push(text_piece);
                if start < p {
                    tokens.push(Token::Text(text));
                }
                proof {
                    assert(d1.drop_last() =~= done);
                    assert(tokens@.map_values(|t: Token| token_view(t)) =~= before + piece_tokens(
                        text_piece,
                    )->Ok_0);
                    assert(tokens_of(d1) == Ok::<Seq<TemplateToken>, Seq<char>>(
                        tokens@.map_values(|t: Token| token_view(t)),
                    ));
                }
                let ghost d2 = d1.push(place_piece);
                let ghost mid = tokens@.map_values(|t: Token| token_view(t));
                match parse_parameter_index(inner.as_str()) {
                    Ok(idx) => {
                        tokens.push(Token::Parameter(idx));
                        proof {
                            assert(d2.drop_last() =~= d1);
                            assert(tokens@.map_values(|t: Token| token_view(t)) =~= mid
                                + seq![TemplateToken::Parameter(idx as nat)]);
                            assert(done + pieces_from(sv, start as int, p as int) =~= d2
                                + pieces_from(sv, q + 1, q + 1));
                            done = d2;
                        }
                    },
                    Err(error) => {
                        let mut message = inner.clone();
                        string_push_str(&mut message, " is not a valid parameter index: ");
                        string_push_str(&mut message, error.as_str());
                        proof {
                            reveal_strlit(" is not a valid parameter index: ");
                            assert(message@ == index_error_text(inner@));
                            assert(d2.drop_last() =~= d1);
                            assert(tokens_of(d2) == Err::<Seq<TemplateToken>, Seq<char>>(message@));
                            lemma_tokens_of_error_prefix(d2, pieces_from(sv, q + 1, q + 1));
                            assert(done + pieces_from(sv, start as int, p as int) =~= d2
                                + pieces_from(sv, q + 1, q + 1));
                            assert(pieces_from(sv, 0, 0) == d2 + pieces_from(sv, q + 1, q + 1));
                            assert(tokens_of(pieces_from(sv, 0, 0)) == Err::<Seq<TemplateToken>, Seq<char>>(message@));
                            assert(sv == program@);
                            assert(parse_program(program@) == tokens_of(pieces_from(sv, 0, 0)));
                        }
                        return Err(message);
                    },
                }
                start = q + 1;
                p = q + 1;
            } else {
                proof {
                    assert(!placeholder_at(sv, p as int));
                }
                p = p + 1;
            }
        }
        let text = string_from_range(&s, start, s.len());
        let ghost text_piece = Piece::Text(sv.subrange(start as int, sv.len() as int));
        let ghost before = tokens@.map_values(|t: Token| token_view(t));
        if start < s.len() {
            tokens.push(Token::Text(text));
        }
        proof {
            let d1 = done.push(text_piece);
            assert(d1.drop_last() =~= done);
            assert(pieces_from(sv, start as int, p as int) == seq![text_piece]);
            assert(done + seq![text_piece] =~= d1);
            assert(tokens@.map_values(|t: Token| token_view(t)) =~= before + piece_tokens(
                text_piece,
            )->Ok_0);
        }
        Ok(ShellCommandTemplate { tokens, is_synchronous: false })
    }

    /// Sets whether the executor waits for this program to exit successfully before going on.
    pub fn set_synchronous(&mut self, value: bool) -> (r: &mut ShellCommandTemplate)
        ensures
            r.synchronous() == value,
            r.token_seq() == old(self).token_seq(),
            *final(self) == *final(r),
    {
        self.is_synchronous = value;
        self
    }

    /// Renders the program with the given parameter values.
    ///
    /// # Errors
    ///
    /// Returns an error if a parameter index has no value.
    pub fn render(&self, parameters: &[String]) -> (r: Result<Effect, ShellCommandRenderError>)
        ensures
            match render_tokens(self.token_seq(), parameters@.map_values(|p: String| p@)) {
                Some(program) => r matches Ok(Effect::ShellCommand { program: p, is_synchronous })
                    && p@ == program && is_synchronous == self.synchronous(),
                None => r is Err,
            },
    {
        let ghost params = parameters@.map_values(|p: String| p@);
        let mut program = String::new();
        let mut i: usize = 0;
        while i < self.tokens.len()
            invariant
                i <= self.tokens.len(),
                params == parameters@.map_values(|p: String| p@),
                render_tokens(self.token_seq().take(i as int), params) == Some(program@),
            decreases self.tokens.len() - i,
        {
            proof {
                assert(self.token_seq().take(i + 1).drop_last() =~= self.token_seq().take(i as int));
            }
            match &self.tokens[i] {
                Token::Text(t) => {
                    string_push_str(&mut program, t.as_str());
                },
                Token::Parameter(idx) => {
                    if *idx >= parameters.len() {
                        proof {
                            lemma_render_none_prefix(self.token_seq(), (i + 1) as int, params);
                        }
                        return Err(ShellCommandRenderError::MissingParameter);
                    }
                    string_push_str(&mut program, parameters[*idx].as_str());
                },
            }
            i += 1;
        }
        proof {
            assert(self.token_seq().take(i as int) =~= self.token_seq());
        }
        Ok(Effect::ShellCommand { program, is_synchronous: self.is_synchronous })
    }

    /// The parameter index of every placeholder, in program order.
    pub fn parameter_indexes(&self) -> (r: Vec<usize>)
        ensures
            r@.map_values(|x: usize| x as nat) == token_indexes(self.token_seq()),
            forall|j: int| 0 <= j < r@.len() ==> required_indexes(self.token_seq()).contains(
                #[trigger] r@[j] as nat,
            ),
            forall|n: nat| required_indexes(self.token_seq()).contains(n) ==> exists|j: int|
                0 <= j < r@.len() && #[trigger] r@[j] as nat == n,
    {
        let mut r: Vec<usize> = Vec::new();
        let mut i: usize = 0;
        while i < self.tokens.len()
            invariant
                i <= self.tokens.len(),
                r@.map_values(|x: usize| x as nat) == token_indexes(self.token_seq().take(i as int)),
                forall|j: int| 0 <= j < r@.len() ==> required_indexes(self.token_seq()).contains(
                    #[trigger] r@[j] as nat,
                ),
                forall|k: int|
                    0 <= k < i && #[trigger] self.token_seq()[k] is Parameter ==> exists|j: int|
                        0 <= j < r@.len() && #[trigger] r@[j] as nat == self.token_seq()[k]->Parameter_0,
            decreases self.tokens.len() - i,
        {
            proof {
                assert(self.token_seq()[i as int] == token_view(self.tokens@[i as int]));
                assert(self.token_seq().take(i + 1).drop_last() =~= self.token_seq().take(i as int));
                assert(self.token_seq().take(i + 1).last() == self.token_seq()[i as int]);
            }
            let ghost r_old = r@;
            if let Token::Parameter(idx) = &self.tokens[i] {
                r.push(*idx);
                proof {
                    assert(r@[r@.len() - 1] as nat == *idx as nat);
                    assert(r@.map_values(|x: usize| x as nat) =~= r_old.map_values(|x: usize| x as nat).push(*idx as nat));
                }
            }
            proof {
                assert forall|k: int|
                    0 <= k < i + 1 && #[trigger] self.token_seq()[k] is Parameter implies exists|j: int|
                        0 <= j < r@.len() && #[trigger] r@[j] as nat == self.token_seq()[k]->Parameter_0 by {
                    if k < i {
                        let j = choose|j: int|
                            0 <= j < r_old.len() && #[trigger] r_old[j] as nat == self.token_seq()[k]->Parameter_0;
                        assert(r@[j] == r_old[j]);
                    } else {
                        assert(r@[r@.len() - 1] as nat == self.token_seq()[k]->Parameter_0);
                    }
                }
            }
            i += 1;
        }
        proof {
            assert(self.token_seq().take(i as int) =~= self.token_seq());
            assert forall|n: nat| required_indexes(self.token_seq()).contains(n) implies exists|j: int|
                0 <= j < r@.len() && #[trigger] r@[j] as nat == n by {
                let k = choose|k: int|
                    0 <= k < self.token_seq().len() && self.token_seq()[k] == TemplateToken::Parameter(n);
                assert(self.token_seq()[k] is Parameter);
            }
        }
        r
    }

    /// The indexes of the parameters the program uses.
    pub fn get_required_parameters(&self) -> (r: BTreeSet<usize>)
        ensures
            r@.map(|i: usize| i as nat) == required_indexes(self.token_seq()),
            forall|i: usize| r@.contains(i) <==> required_indexes(self.token_seq()).contains(i as nat),
    {
        let mut indexes: BTreeSet<usize> = BTreeSet::new();
        let mut i: usize = 0;
        while i < self.tokens.len()
            invariant
                i <= self.tokens.len(),
                forall|n: usize| #[trigger] indexes@.contains(n) <==> exists|j: int|
                    0 <= j < i && self.token_seq()[j] == TemplateToken::Parameter(n as nat),
            decreases self.tokens.len() - i,
        {
            proof {
                assert(self.token_seq()[i as int] == token_view(self.tokens@[i as int]));
            }
            if let Token::Parameter(idx) = &self.tokens[i] {
                indexes.insert(*idx);
            }
            i += 1;
        }
        proof {
            assert forall|n: nat| #[trigger] required_indexes(self.token_seq()).contains(n) implies n
                <= usize::MAX by {
                let j = choose|j: int|
                    0 <= j < self.token_seq().len() && self.token_seq()[j] == TemplateToken::Parameter(
                        n,
                    );
                assert(self.token_seq()[j] == token_view(self.tokens@[j]));
            }
            assert forall|n: nat| #[trigger] required_indexes(self.token_seq()).contains(n) implies indexes@.map(
                |i: usize| i as nat,
            ).contains(n) by {
                assert(indexes@.contains(n as usize));
            }
            assert(indexes@.map(|i: usize| i as nat) =~= required_indexes(self.token_seq()));
        }
        indexes
    }
}

/// Once the tokens of a prefix fail, so do the tokens of every extension, with the same message.
pub proof fn lemma_tokens_of_error_prefix(a: Seq<Piece>, b: Seq<Piece>)
    requires
        tokens_of(a) is Err,
    ensures
        tokens_of(a + b) == tokens_of(a),
    decreases b.len(),
{
    if b.len() == 0 {
        assert(a + b =~= a);
    } else {
        lemma_tokens_of_error_prefix(a, b.drop_last());
        assert((a + b).drop_last() =~= a + b.drop_last());
    }
}

/// Rendering succeeds when every parameter index the tokens use has a value.
pub proof fn lemma_render_some(ts: Seq<TemplateToken>, params: Seq<Seq<char>>)
    requires
        forall|n: nat| required_indexes(ts).contains(n) ==> n < params.len(),
    ensures
        render_tokens(ts, params) is Some,
    decreases ts.len(),
{
    if ts.len() > 0 {
        let rest = ts.drop_last();
        assert forall|n: nat| required_indexes(rest).contains(n) implies n < params.len() by {
            let j = choose|j: int| 0 <= j < rest.len() && rest[j] == TemplateToken::Parameter(n);
            assert(ts[j] == rest[j]);
            assert(required_indexes(ts).contains(n));
        }
        lemma_render_some(rest, params);
        if let TemplateToken::Parameter(i) = ts.last() {
            assert(ts[ts.len() - 1] == TemplateToken::Parameter(i));
            assert(required_indexes(ts).contains(i));
        }
    }
}

/// Once rendering a prefix of the tokens fails, rendering all of them fails.
pub proof fn lemma_render_none_prefix(ts: Seq<TemplateToken>, n: int, params: Seq<Seq<char>>)
    requires
        0 <= n <= ts.len(),
        render_tokens(ts.take(n), params) is None,
    ensures
        render_tokens(ts, params) is None,
    decreases ts.len() - n,
{
    if n < ts.len() {
        assert(ts.take(n + 1).drop_last() =~= ts.take(n));
        lemma_render_none_prefix(ts, n + 1, params);
    } else {
        assert(ts.take(n) =~= ts);
    }
}

/// A template for an effect that may contain parameter placeholders.
#[derive(Debug)]
pub enum EffectTemplate {
    ShellCommand(ShellCommandTemplate),
}

impl EffectTemplate {
    /// The template's tokens.
    pub open spec fn token_seq(self) -> Seq<TemplateToken> {
        match self {
            EffectTemplate::ShellCommand(t) => t.token_seq(),
        }
    }

    /// Whether the rendered effect runs synchronously.
    pub open spec fn synchronous(self) -> bool {
        match self {
            EffectTemplate::ShellCommand(t) => t.synchronous(),
        }
    }

    /// Renders the template with the given parameter values.
    ///
    /// # Errors
    ///
    /// Returns an error if a required parameter is missing from the provided list.
    pub fn render(&self, parameters: &[String]) -> (r: Result<Effect, ShellCommandRenderError>)
        ensures
            match render_tokens(self.token_seq(), parameters@.map_values(|p: String| p@)) {
                Some(program) => r matches Ok(Effect::ShellCommand { program: p, is_synchronous })
                    && p@ == program && is_synchronous == self.synchronous(),
                None => r is Err,
            },
    {
        match self {
            EffectTemplate::ShellCommand(t) => t.render(parameters),
        }
    }

    /// The parameter index of every placeholder, in program order.
    pub fn parameter_indexes(&self) -> (r: Vec<usize>)
        ensures
            r@.map_values(|x: usize| x as nat) == token_indexes(self.token_seq()),
            forall|j: int| 0 <= j < r@.len() ==> required_indexes(self.token_seq()).contains(
                #[trigger] r@[j] as nat,
            ),
            forall|n: nat| required_indexes(self.token_seq()).contains(n) ==> exists|j: int|
                0 <= j < r@.len() && #[trigger] r@[j] as nat == n,
    {
        match self {
            EffectTemplate::ShellCommand(t) => t.parameter_indexes(),
        }
    }

    /// The indexes of the parameters the template uses.
    pub fn get_required_parameters(&self) -> (r: BTreeSet<usize>)
        ensures
            r@.map(|i: usize| i as nat) == required_indexes(self.token_seq()),
            forall|i: usize| r@.contains(i) <==> required_indexes(self.token_seq()).contains(i as nat),
    {
        match self {
            EffectTemplate::ShellCommand(t) => t.get_required_parameters(),
        }
    }

    /// Sets whether the rendered effect runs synchronously.
    pub fn set_synchronous(&mut self, value: bool)
        ensures
            final(self).synchronous() == value,
            final(self).token_seq() == old(self).token_seq(),
    {
        match self {
            EffectTemplate::ShellCommand(t) => {
                t.set_synchronous(value);
            },
        }
    }
}

/// The program with each placeholder from position `p` on replaced by the value of its parameter,
/// where the current text began at `start`: placeholders are found from left to right in the
/// program itself, so a value put in is never searched for placeholders. `None` when a
/// placeholder is not a parameter index or its parameter has no value.
pub open spec fn substitute_from(s: Seq<char>, params: Seq<Seq<char>>, start: int, p: int) -> Option<
    Seq<char>,
>
    decreases s.len() - p,
{
    if p >= s.len() || p < 0 {
        Some(s.subrange(start, s.len() as int))
    } else if placeholder_at(s, p) {
        let q = next_brace(s, p + 1);
        proof {
            lemma_next_brace_range(s, p + 1);
        }
        match parse_usize(s.subrange(p + 1, q)) {
            Some(n) => if n < params.len() {
                match substitute_from(s, params, q + 1, q + 1) {
                    Some(rest) => Some(s.subrange(start, p) + params[n as int] + rest),
                    None => None,
                }
            } else {
                None
            },
            None => None,
        }
    } else {
        substitute_from(s, params, start, p + 1)
    }
}

/// The tokens of two runs of pieces one after the other are the tokens of each, one after the
/// other; the first error wins.
proof fn lemma_tokens_of_concat(a: Seq<Piece>, b: Seq<Piece>)
    ensures
        tokens_of(a + b) == (match tokens_of(a) {
            Err(m) => Err(m),
            Ok(x) => match tokens_of(b) {
                Err(m) => Err(m),
                Ok(y) => Ok(x + y),
            },
        }),
    decreases b.len(),
{
    if b.len() == 0 {
        assert(a + b =~= a);
        if let Ok(x) = tokens_of(a) {
            assert(x + Seq::<TemplateToken>::empty() =~= x);
        }
    } else {
        lemma_tokens_of_concat(a, b.drop_last());
        assert((a + b).drop_last() =~= a + b.drop_last());
        assert((a + b).last() == b.last());
        if let Ok(x) = tokens_of(a) {
            if let Ok(y) = tokens_of(b.drop_last()) {
                if let Ok(t) = piece_tokens(b.last()) {
                    assert(x + y + t =~= x + (y + t));
                }
            }
        }
    }
}

/// Rendering two token runs one after the other gives the two renderings one after the other.
proof fn lemma_render_concat(x: Seq<TemplateToken>, y: Seq<TemplateToken>, params: Seq<Seq<char>>)
    ensures
        render_tokens(x + y, params) == (match render_tokens(x, params) {
            None => None,
            Some(a) => match render_tokens(y, params) {
                None => None,
                Some(b) => Some(a + b),
            },
        }),
    decreases y.len(),
{
    if y.len() == 0 {
        assert(x + y =~= x);
        if let Some(a) = render_tokens(x, params) {
            assert(a + Seq::<char>::empty() =~= a);
        }
    } else {
        lemma_render_concat(x, y.drop_last(), params);
        assert((x + y).drop_last() =~= x + y.drop_last());
        assert((x + y).last() == y.last());
        if let Some(a) = render_tokens(x, params) {
            if let Some(b) = render_tokens(y.drop_last(), params) {
                match y.last() {
                    TemplateToken::Text(t) => {
                        assert(a + b + t =~= a + (b + t));
                    },
                    TemplateToken::Parameter(i) => {
                        if i < params.len() {
                            assert(a + b + params[i as int] =~= a + (b + params[i as int]));
                        }
                    },
                }
            }
        }
    }
}

/// Rendering the tokens of the pieces from `p` on is substituting the placeholders from `p` on.
proof fn lemma_render_is_substitution(s: Seq<char>, params: Seq<Seq<char>>, start: int, p: int)
    requires
        0 <= start <= p <= s.len(),
        tokens_of(pieces_from(s, start, p)) is Ok,
    ensures
        render_tokens(tokens_of(pieces_from(s, start, p))->Ok_0, params) == substitute_from(
            s,
            params,
            start,
            p,
        ),
    decreases s.len() - p,
{
    if p >= s.len() {
        let sub = s.subrange(start, s.len() as int);
        let ps = seq![Piece::Text(sub)];
        assert(pieces_from(s, start, p) == ps);
        assert(substitute_from(s, params, start, p) == Some(sub));
        assert(ps.drop_last() =~= Seq::<Piece>::empty());
        assert(tokens_of(ps.drop_last()) == Ok::<Seq<TemplateToken>, Seq<char>>(Seq::empty()));
        assert(ps.last() == Piece::Text(sub));
        if sub.len() == 0 {
            assert(Seq::<TemplateToken>::empty() + Seq::<TemplateToken>::empty() =~= Seq::<
                TemplateToken,
            >::empty());
            assert(tokens_of(ps) == Ok::<Seq<TemplateToken>, Seq<char>>(Seq::empty()));
            assert(sub =~= Seq::<char>::empty());
        } else {
            let ts = seq![TemplateToken::Text(sub)];
            assert(Seq::<TemplateToken>::empty() + ts =~= ts);
            assert(tokens_of(ps) == Ok::<Seq<TemplateToken>, Seq<char>>(ts));
            assert(ts.drop_last() =~= Seq::<TemplateToken>::empty());
            assert(render_tokens(ts.drop_last(), params) == Some(Seq::<char>::empty()));
            assert(ts.last() == TemplateToken::Text(sub));
            assert(Seq::<char>::empty() + sub =~= sub);
        }
    } else if placeholder_at(s, p) {
        let q = next_brace(s, p + 1);
        lemma_next_brace_range(s, p + 1);
        let a = s.subrange(start, p);
        let b = s.subrange(p + 1, q);
        let head = seq![Piece::Text(a), Piece::Placeholder(b)];
        let rest = pieces_from(s, q + 1, q + 1);
        assert(pieces_from(s, start, p) == head + rest);
        lemma_tokens_of_concat(head, rest);
        assert(head.drop_last() =~= seq![Piece::Text(a)]);
        assert(seq![Piece::Text(a)].drop_last() =~= Seq::<Piece>::empty());
        let ta: Seq<TemplateToken> = if a.len() == 0 {
            Seq::empty()
        } else {
            seq![TemplateToken::Text(a)]
        };
        let one = seq![Piece::Text(a)];
        assert(one.drop_last() =~= Seq::<Piece>::empty());
        assert(tokens_of(one.drop_last()) == Ok::<Seq<TemplateToken>, Seq<char>>(Seq::empty()));
        assert(one.last() == Piece::Text(a));
        assert(piece_tokens(Piece::Text(a)) == Ok::<Seq<TemplateToken>, Seq<char>>(ta));
        assert(tokens_of(one) == Ok::<Seq<TemplateToken>, Seq<char>>(
            Seq::<TemplateToken>::empty() + ta,
        ));
        assert(Seq::<TemplateToken>::empty() + ta =~= ta);
        match parse_usize(b) {
            Some(n) => {
                let x = ta + seq![TemplateToken::Parameter(n)];
                assert(tokens_of(head) == Ok::<Seq<TemplateToken>, Seq<char>>(x));
                let y = tokens_of(rest)->Ok_0;
                lemma_render_is_substitution(s, params, q + 1, q + 1);
                lemma_render_concat(x, y, params);
                assert(x.drop_last() =~= ta);
                assert(render_tokens(ta, params) == Some(a)) by {
                    if a.len() == 0 {
                        assert(a =~= Seq::<char>::empty());
                    } else {
                        assert(ta.drop_last() =~= Seq::<TemplateToken>::empty());
                        assert(render_tokens(ta.drop_last(), params) == Some(Seq::<char>::empty()));
                        assert(ta.last() == TemplateToken::Text(a));
                        assert(Seq::<char>::empty() + a =~= a);
                    }
                }
                assert(tokens_of(pieces_from(s, start, p)) == Ok::<Seq<TemplateToken>, Seq<char>>(x + y));
                assert(x.last() == TemplateToken::Parameter(n));
                if n < params.len() {
                    assert(render_tokens(x, params) == Some(a + params[n as int]));
                    assert(substitute_from(s, params, start, p) == (match substitute_from(s, params, q + 1, q + 1) {
                        Some(r) => Some(a + params[n as int] + r),
                        None => None,
                    }));
                } else {
                    assert(render_tokens(x, params) is None);
                    assert(substitute_from(s, params, start, p) is None);
                }
            },
            None => {
                assert(tokens_of(head) is Err);
            },
        }
    } else {
        assert(pieces_from(s, start, p) == pieces_from(s, start, p + 1));
        assert(substitute_from(s, params, start, p) == substitute_from(s, params, start, p + 1));
        lemma_render_is_substitution(s, params, start, p + 1);
    }
}

/// Rendering a parsed program substitutes every placeholder, found from left to right in the
/// program, by the value of its parameter, in one pass: a value put in is never searched for
/// placeholders, and rendering fails exactly when a placeholder's parameter has no value.
pub proof fn lemma_render_substitutes_in_one_pass(program: Seq<char>, params: Seq<Seq<char>>)
    requires
        parse_program(program) is Ok,
    ensures
        render_tokens(parse_program(program)->Ok_0, params) == substitute_from(program, params, 0, 0),
{
    lemma_render_is_substitution(program, params, 0, 0);
}

/// Rendering tokens succeeds exactly when every parameter index they use has a value.
pub proof fn lemma_render_succeeds_iff(ts: Seq<TemplateToken>, params: Seq<Seq<char>>)
    ensures
        (render_tokens(ts, params) is Some) <==> (forall|n: nat|
            #[trigger] required_indexes(ts).contains(n) ==> n < params.len()),
    decreases ts.len(),
{
    if ts.len() > 0 {
        let rest = ts.drop_last();
        lemma_render_succeeds_iff(rest, params);
        assert forall|n: nat| #[trigger] required_indexes(ts).contains(n) <==> (required_indexes(
            rest,
        ).contains(n) || ts.last() == TemplateToken::Parameter(n)) by {
            if required_indexes(ts).contains(n) {
                let j = choose|j: int| 0 <= j < ts.len() && ts[j] == TemplateToken::Parameter(n);
                if j < rest.len() {
                    assert(rest[j] == ts[j]);
                }
            }
            if required_indexes(rest).contains(n) {
                let j = choose|j: int| 0 <= j < rest.len() && rest[j] == TemplateToken::Parameter(n);
                assert(ts[j] == rest[j]);
            }
            if ts.last() == TemplateToken::Parameter(n) {
                assert(ts[ts.len() - 1] == TemplateToken::Parameter(n));
            }
        }
        let all_fit = forall|n: nat| #[trigger] required_indexes(ts).contains(n) ==> n < params.len();
        if render_tokens(ts, params) is Some {
            assert(render_tokens(rest, params) is Some);
            assert forall|n: nat| #[trigger] required_indexes(ts).contains(n) implies n < params.len() by {
                if !required_indexes(rest).contains(n) {
                    assert(ts.last() == TemplateToken::Parameter(n));
                }
            }
        }
        if all_fit {
            assert forall|n: nat| #[trigger] required_indexes(rest).contains(n) implies n < params.len() by {
                assert(required_indexes(ts).contains(n));
            }
            assert(render_tokens(rest, params) is Some);
            if let TemplateToken::Parameter(i) = ts.last() {
                assert(required_indexes(ts).contains(i));
            }
        }
    } else {
        assert forall|n: nat| !#[trigger] required_indexes(ts).contains(n) by {
            if required_indexes(ts).contains(n) {
                let j = choose|j: int| 0 <= j < ts.len() && ts[j] == TemplateToken::Parameter(n);
            }
        }
    }
}

/// A shell command template renders exactly when every placeholder's parameter index is below
/// the number of parameter values.
pub proof fn lemma_template_renders_iff(t: ShellCommandTemplate, params: Seq<Seq<char>>)
    ensures
        (render_tokens(t.token_seq(), params) is Some) <==> (forall|n: nat|
            #[trigger] required_indexes(t.token_seq()).contains(n) ==> n < params.len()),
{
    lemma_render_succeeds_iff(t.token_seq(), params);
}

/// An effect template renders exactly when every placeholder's parameter index is below the number
/// of parameter values.
pub proof fn lemma_effect_template_renders_iff(t: EffectTemplate, params: Seq<Seq<char>>)
    ensures
        (render_tokens(t.token_seq(), params) is Some) <==> (forall|n: nat|
            #[trigger] required_indexes(t.token_seq()).contains(n) ==> n < params.len()),
{
    lemma_render_succeeds_iff(t.token_seq(), params);
}

} // verus!
