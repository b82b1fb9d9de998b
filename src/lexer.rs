//! Turns input characters into tokens. Whitespace is dropped, numerals made
//! of subscript or superscript digits become one token holding their value,
//! and the alternative glyphs of negation and of the conclusion indicator
//! are read as one token each.
use vstd::prelude::*;

verus! {

/// One lexical unit of the surface syntax.
#[derive(Debug, Clone, Copy, PartialEq, Eq, Structural)]
pub enum TokenKind {
    Upper(char),
    Lower(char),
    Sub(u64),
    Sup(u64),
    GroupOpen,
    GroupClose,
    SetOpen,
    SetClose,
    Separator,
    Therefore,
    Not,
    And,
    Or,
    Implies,
    Exists,
    ForAll,
}

pub open spec fn is_space(c: char) -> bool {
    c == ' ' || c == '\t' || c == '\n' || c == '\r'
}

/// The value of a subscript digit (`sub`) or of a superscript digit.
pub open spec fn digit_value(c: char, sub: bool) -> Option<u64> {
    let u = c as u32;
    if sub {
        if 0x2080 <= u && u <= 0x2089 { Some((u - 0x2080) as u64) } else { None }
    } else if u == 0x2070 {
        Some(0)
    } else if u == 0xB9 {
        Some(1)
    } else if u == 0xB2 {
        Some(2)
    } else if u == 0xB3 {
        Some(3)
    } else if 0x2074 <= u && u <= 0x2079 {
        Some((u - 0x2070) as u64)
    } else {
        None
    }
}

/// The token that a single character stands for, outside numerals.
pub open spec fn glyph_token(c: char) -> Option<TokenKind> {
    let u = c as u32;
    if 0x41 <= u && u <= 0x5A {
        Some(TokenKind::Upper(c))
    } else if 0x61 <= u && u <= 0x7A {
        Some(TokenKind::Lower(c))
    } else if c == '(' {
        Some(TokenKind::GroupOpen)
    } else if c == ')' {
        Some(TokenKind::GroupClose)
    } else if c == '{' {
        Some(TokenKind::SetOpen)
    } else if c == '}' {
        Some(TokenKind::SetClose)
    } else if c == ',' {
        Some(TokenKind::Separator)
    } else if u == 0x2234 {
        Some(TokenKind::Therefore)
    } else if c == '~' || u == 0xAC {
        Some(TokenKind::Not)
    } else if c == '&' {
        Some(TokenKind::And)
    } else if u == 0x2228 {
        Some(TokenKind::Or)
    } else if u == 0x2283 {
        Some(TokenKind::Implies)
    } else if u == 0x2203 {
        Some(TokenKind::Exists)
    } else if u == 0x2200 {
        Some(TokenKind::ForAll)
    } else {
        None
    }
}

pub open spec fn numeral(value: int, sub: bool) -> TokenKind {
    if sub { TokenKind::Sub(value as u64) } else { TokenKind::Sup(value as u64) }
}

pub open spec fn prepend(p: Seq<TokenKind>, rest: Option<Seq<TokenKind>>) -> Option<Seq<TokenKind>> {
    match rest {
        Some(r) => Some(p + r),
        None => None,
    }
}

pub open spec fn is_therefore_at(s: Seq<char>, i: int) -> bool {
    0 <= i && i + 2 < s.len() && s[i] == '.' && s[i + 1] == ':' && s[i + 2] == '.'
}

/// The tokens of `s` from position `i` on, or `None` where a character fits
/// no token or a numeral exceeds `u64`.
pub open spec fn lex_from(s: Seq<char>, i: int) -> Option<Seq<TokenKind>>
    decreases s.len() - i, 0int,
{
    if i < 0 || i >= s.len() {
        Some(seq![])
    } else if is_space(s[i]) {
        lex_from(s, i + 1)
    } else if digit_value(s[i], true) is Some {
        lex_numeral(s, i + 1, digit_value(s[i], true)->0 as int, true)
    } else if digit_value(s[i], false) is Some {
        lex_numeral(s, i + 1, digit_value(s[i], false)->0 as int, false)
    } else if is_therefore_at(s, i) {
        prepend(seq![TokenKind::Therefore], lex_from(s, i + 3))
    } else {
        match glyph_token(s[i]) {
            Some(t) => prepend(seq![t], lex_from(s, i + 1)),
            None => None,
        }
    }
}

/// The rest of a numeral whose digits before `j` add up to `acc`.
pub open spec fn lex_numeral(s: Seq<char>, j: int, acc: int, sub: bool) -> Option<Seq<TokenKind>>
    decreases s.len() - j, 1int,
{
    if 0 <= j < s.len() && digit_value(s[j], sub) is Some {
        let next = acc * 10 + digit_value(s[j], sub)->0;
        if next > u64::MAX {
            None
        } else {
            lex_numeral(s, j + 1, next, sub)
        }
    } else {
        prepend(seq![numeral(acc, sub)], lex_from(s, j))
    }
}

/// The character range of each token of `s` from position `i` on, where
/// `s` lexes.
pub open spec fn spans_from(s: Seq<char>, i: int) -> Seq<(int, int)>
    decreases s.len() - i, 0int,
{
    if i < 0 || i >= s.len() {
        seq![]
    } else if is_space(s[i]) {
        spans_from(s, i + 1)
    } else if digit_value(s[i], true) is Some {
        spans_numeral(s, i, i + 1, true)
    } else if digit_value(s[i], false) is Some {
        spans_numeral(s, i, i + 1, false)
    } else if is_therefore_at(s, i) {
        seq![(i, i + 3)] + spans_from(s, i + 3)
    } else {
        seq![(i, i + 1)] + spans_from(s, i + 1)
    }
}

/// The ranges from a numeral that starts at `start` and whose digits run on
/// at least to `j`.
pub open spec fn spans_numeral(s: Seq<char>, start: int, j: int, sub: bool) -> Seq<(int, int)>
    decreases s.len() - j, 1int,
{
    if 0 <= j < s.len() && digit_value(s[j], sub) is Some {
        spans_numeral(s, start, j + 1, sub)
    } else {
        seq![(start, j)] + spans_from(s, j)
    }
}

/// Start and end positions paired up.
pub open spec fn pair_spans(starts: Seq<usize>, ends: Seq<usize>) -> Seq<(int, int)> {
    Seq::new(starts.len(), |k: int| (starts[k] as int, ends[k] as int))
}

proof fn lemma_pair_spans_push(starts: Seq<usize>, ends: Seq<usize>, a: usize, b: usize)
    requires
        starts.len() == ends.len(),
    ensures
        pair_spans(starts.push(a), ends.push(b)) == pair_spans(starts, ends) + seq![(a as int, b as int)],
{
    assert(pair_spans(starts.push(a), ends.push(b)) =~= pair_spans(starts, ends) + seq![(a as int, b as int)]);
}

/// The tokens of an input, with the character range that each came from.
pub struct Lexed {
    pub kinds: Vec<TokenKind>,
    pub starts: Vec<usize>,
    pub ends: Vec<usize>,
}

/// Each range is non-empty and ends at `bound` or before.
pub open spec fn spans_below(starts: Seq<usize>, ends: Seq<usize>, bound: int) -> bool {
    &&& starts.len() == ends.len()
    &&& forall|k: int| 0 <= k < starts.len() ==> (#[trigger] starts[k]) < ends[k] && ends[k] <= bound
    &&& forall|k: int, j: int| 0 <= k < j < starts.len() ==> (#[trigger] ends[k]) <= #[trigger] starts[j]
}

#[verifier::spinoff_prover]
proof fn lemma_spans_push(starts: Seq<usize>, ends: Seq<usize>, bound: int, a: usize, b: usize)
    requires
        spans_below(starts, ends, bound),
        bound <= a < b,
    ensures
        spans_below(starts.push(a), ends.push(b), b as int),
{
    assert forall|k: int| 0 <= k < starts.push(a).len() implies (#[trigger] starts.push(a)[k])
        < ends.push(b)[k] && ends.push(b)[k] <= b by {
        if k < starts.len() {
            assert(starts.push(a)[k] == starts[k]);
        }
    }
    assert forall|k: int, j: int| 0 <= k < j < starts.push(a).len() implies (#[trigger] ends.push(
        b,
    )[k]) <= #[trigger] starts.push(a)[j] by {
        assert(ends.push(b)[k] == ends[k]);
        assert(0 <= k < starts.len());
        assert(starts[k] < ends[k] && ends[k] <= bound);
        if j < starts.len() {
            assert(starts.push(a)[j] == starts[j]);
        }
    }
}

proof fn lemma_spans_widen(starts: Seq<usize>, ends: Seq<usize>, bound: int, wider: int)
    requires
        spans_below(starts, ends, bound),
        bound <= wider,
    ensures
        spans_below(starts, ends, wider),
{
}

impl Lexed {
    pub open spec fn spans_within(&self, n: int) -> bool {
        &&& self.starts.len() == self.kinds.len()
        &&& spans_below(self.starts@, self.ends@, n)
    }
}

pub fn digit_of(c: char, sub: bool) -> (r: Option<u64>)
    ensures
        r == digit_value(c, sub),
{
    let u = c as u32;
    if sub {
        if 0x2080 <= u && u <= 0x2089 { Some((u - 0x2080) as u64) } else { None }
    } else if u == 0x2070 {
        Some(0)
    } else if u == 0xB9 {
        Some(1)
    } else if u == 0xB2 {
        Some(2)
    } else if u == 0xB3 {
        Some(3)
    } else if 0x2074 <= u && u <= 0x2079 {
        Some((u - 0x2070) as u64)
    } else {
        None
    }
}

pub fn token_of(c: char) -> (r: Option<TokenKind>)
    ensures
        r == glyph_token(c),
{
    let u = c as u32;
    if 0x41 <= u && u <= 0x5A {
        Some(TokenKind::Upper(c))
    } else if 0x61 <= u && u <= 0x7A {
        Some(TokenKind::Lower(c))
    } else if c == '(' {
        Some(TokenKind::GroupOpen)
    } else if c == ')' {
        Some(TokenKind::GroupClose)
    } else if c == '{' {
        Some(TokenKind::SetOpen)
    } else if c == '}' {
        Some(TokenKind::SetClose)
    } else if c == ',' {
        Some(TokenKind::Separator)
    } else if u == 0x2234 {
        Some(TokenKind::Therefore)
    } else if c == '~' || u == 0xAC {
        Some(TokenKind::Not)
    } else if c == '&' {
        Some(TokenKind::And)
    } else if u == 0x2228 {
        Some(TokenKind::Or)
    } else if u == 0x2283 {
        Some(TokenKind::Implies)
    } else if u == 0x2203 {
        Some(TokenKind::Exists)
    } else if u == 0x2200 {
        Some(TokenKind::ForAll)
    } else {
        None
    }
}

proof fn lemma_prepend_assoc(a: Seq<TokenKind>, b: Seq<TokenKind>, rest: Option<Seq<TokenKind>>)
    ensures
        prepend(a, prepend(b, rest)) == prepend(a + b, rest),
{
    if let Some(r) = rest {
        assert(a + (b + r) =~= (a + b) + r);
    }
}

/// Reads the digits of a numeral from `j` on, given the value `acc` of those
/// before. Returns the value and the position after the last digit, or `None`
/// where the value exceeds `u64`.
fn scan_numeral(s: &Vec<char>, j: usize, acc: u64, sub: bool) -> (r: Option<(u64, usize)>)
    requires
        0 < j <= s.len(),
    ensures
        match r {
            Some((v, e)) => j <= e <= s.len() && lex_numeral(s@, j as int, acc as int, sub) == prepend(
                seq![numeral(v as int, sub)],
                lex_from(s@, e as int),
            ) && forall|st: int| #[trigger] spans_numeral(s@, st, j as int, sub) == seq![(st, e as int)] + spans_from(s@, e as int),
            None => lex_numeral(s@, j as int, acc as int, sub) is None,
        },
    decreases s.len() - j,
{
    if j >= s.len() {
        assert forall|st: int| #[trigger] spans_numeral(s@, st, j as int, sub) == seq![(st, j as int)]
            + spans_from(s@, j as int) by {}
        return Some((acc, j));
    }
    match digit_of(s[j], sub) {
        Some(d) => {
            if acc > (u64::MAX - d) / 10 {
                assert(acc * 10 + d > u64::MAX) by (nonlinear_arith)
                    requires
                        acc > (u64::MAX - d) / 10,
                        d <= 9,
                ;
                return None;
            }
            assert(acc * 10 + d <= u64::MAX) by (nonlinear_arith)
                requires
                    acc <= (u64::MAX - d) / 10,
                    d <= 9,
            ;
            let r = scan_numeral(s, j + 1, acc * 10 + d, sub);
            if let Some((_, e)) = r {
                assert forall|st: int| #[trigger] spans_numeral(s@, st, j as int, sub) == seq![(st, e as int)]
                    + spans_from(s@, e as int) by {
                    assert(spans_numeral(s@, st, j as int, sub) == spans_numeral(s@, st, j + 1, sub));
                }
            }
            r
        },
        None => {
            assert forall|st: int| #[trigger] spans_numeral(s@, st, j as int, sub) == seq![(st, j as int)]
                + spans_from(s@, j as int) by {}
            Some((acc, j))
        },
    }
}

/// Splits `s` into tokens. On failure, returns the position of the character
/// that starts no token, or of the numeral that exceeds `u64`.
pub fn lex(s: &Vec<char>) -> (r: Result<Lexed, usize>)
    ensures
        match r {
            Ok(l) => lex_from(s@, 0) == Some(l.kinds@) && l.spans_within(s.len() as int) && pair_spans(
                l.starts@,
                l.ends@,
            ) == spans_from(s@, 0),
            Err(p) => lex_from(s@, 0) is None && p < s.len(),
        },
{
    let n = s.len();
    let mut kinds: Vec<TokenKind> = Vec::new();
    let mut starts: Vec<usize> = Vec::new();
    let mut ends: Vec<usize> = Vec::new();
    let mut i: usize = 0;
    assert(spans_from(s@, 0) =~= pair_spans(starts@, ends@) + spans_from(s@, 0));
    while i < n
        invariant
            i <= n,
            n == s.len(),
            lex_from(s@, 0) == prepend(kinds@, lex_from(s@, i as int)),
            spans_from(s@, 0) == pair_spans(starts@, ends@) + spans_from(s@, i as int),
            starts.len() == kinds.len(),
            ends.len() == kinds.len(),
            spans_below(starts@, ends@, i as int),
        decreases n - i,
    {
        let c = s[i];
        let sub_digit = digit_of(c, true);
        let sup_digit = digit_of(c, false);
        if c == ' ' || c == '\t' || c == '\n' || c == '\r' {
            assert(lex_from(s@, i as int) == lex_from(s@, i + 1));
            assert(spans_from(s@, i as int) == spans_from(s@, i + 1));
            proof {
                lemma_spans_widen(starts@, ends@, i as int, i + 1);
            }
            i = i + 1;
        } else if sub_digit.is_some() || sup_digit.is_some() {
            let sub = sub_digit.is_some();
            let first = match sub_digit {
                Some(d) => d,
                None => sup_digit.unwrap(),
            };
            assert(lex_from(s@, i as int) == lex_numeral(s@, i + 1, first as int, sub));
            assert(spans_from(s@, i as int) == spans_numeral(s@, i as int, i + 1, sub));
            match scan_numeral(s, i + 1, first, sub) {
                Some((value, j)) => {
                    let t = if sub { TokenKind::Sub(value) } else { TokenKind::Sup(value) };
                    proof {
                        lemma_prepend_assoc(kinds@, seq![t], lex_from(s@, j as int));
                    }
                    proof {
                        lemma_spans_push(starts@, ends@, i as int, i, j);
                lemma_pair_spans_push(starts@, ends@, i, j);
                assert(spans_from(s@, 0) =~= pair_spans(starts@, ends@) + seq![(i as int, (j) as int)] + spans_from(s@, (j) as int));
                    }
                    kinds.push(t);
                    starts.push(i);
                    ends.push(j);
                    i = j;
                },
                None => {
                    return Err(i);
                },
            }
        } else if c == '.' && n - i > 2 && s[i + 1] == ':' && s[i + 2] == '.' {
            proof {
                lemma_prepend_assoc(kinds@, seq![TokenKind::Therefore], lex_from(s@, i + 3));
            }
            proof {
                lemma_spans_push(starts@, ends@, i as int, i, (i + 3) as usize);
                lemma_pair_spans_push(starts@, ends@, i, (i + 3) as usize);
                assert(spans_from(s@, 0) =~= pair_spans(starts@, ends@) + seq![(i as int, ((i + 3) as usize) as int)] + spans_from(s@, ((i + 3) as usize) as int));
            }
            kinds.push(TokenKind::Therefore);
            starts.push(i);
            ends.push(i + 3);
            i = i + 3;
        } else {
            match token_of(c) {
                Some(t) => {
                    proof {
                        lemma_prepend_assoc(kinds@, seq![t], lex_from(s@, i + 1));
                    }
                    proof {
                        lemma_spans_push(starts@, ends@, i as int, i, (i + 1) as usize);
                lemma_pair_spans_push(starts@, ends@, i, (i + 1) as usize);
                assert(spans_from(s@, 0) =~= pair_spans(starts@, ends@) + seq![(i as int, ((i + 1) as usize) as int)] + spans_from(s@, ((i + 1) as usize) as int));
                    }
                    kinds.push(t);
                    starts.push(i);
                    ends.push(i + 1);
                    i = i + 1;
                },
                None => {
                    return Err(i);
                },
            }
        }
    }
    proof {
        assert(kinds@ + seq![] =~= kinds@);
        assert(pair_spans(starts@, ends@) + spans_from(s@, i as int) =~= pair_spans(starts@, ends@));
        assert forall|k: int| 0 <= k < starts.len() implies (#[trigger] starts@[k]) < ends@[k]
            && ends@[k] <= n by {}
        assert(spans_below(starts@, ends@, n as int));
    }
    Ok(Lexed { kinds, starts, ends })
}

/// The subscript (`sub`) or superscript glyph of a decimal digit.
pub open spec fn digit_glyph(d: int, sub: bool) -> char {
    if sub {
        if d == 0 {
            '\u{2080}'
        } else if d == 1 {
            '\u{2081}'
        } else if d == 2 {
            '\u{2082}'
        } else if d == 3 {
            '\u{2083}'
        } else if d == 4 {
            '\u{2084}'
        } else if d == 5 {
            '\u{2085}'
        } else if d == 6 {
            '\u{2086}'
        } else if d == 7 {
            '\u{2087}'
        } else if d == 8 {
            '\u{2088}'
        } else {
            '\u{2089}'
        }
    } else {
        if d == 0 {
            '\u{2070}'
        } else if d == 1 {
            '\u{00B9}'
        } else if d == 2 {
            '\u{00B2}'
        } else if d == 3 {
            '\u{00B3}'
        } else if d == 4 {
            '\u{2074}'
        } else if d == 5 {
            '\u{2075}'
        } else if d == 6 {
            '\u{2076}'
        } else if d == 7 {
            '\u{2077}'
        } else if d == 8 {
            '\u{2078}'
        } else {
            '\u{2079}'
        }
    }
}

/// The decimal digits of `n` as subscript or superscript glyphs.
pub open spec fn numeral_text(n: nat, sub: bool) -> Seq<char>
    decreases n,
{
    if n < 10 {
        seq![digit_glyph(n as int, sub)]
    } else {
        numeral_text(n / 10, sub) + seq![digit_glyph((n % 10) as int, sub)]
    }
}

/// The characters that write a token in canonical text.
pub open spec fn token_text(t: TokenKind) -> Seq<char> {
    match t {
        TokenKind::Upper(c) => seq![c],
        TokenKind::Lower(c) => seq![c],
        TokenKind::Sub(n) => numeral_text(n as nat, true),
        TokenKind::Sup(n) => numeral_text(n as nat, false),
        TokenKind::GroupOpen => seq!['('],
        TokenKind::GroupClose => seq![')'],
        TokenKind::SetOpen => seq!['{'],
        TokenKind::SetClose => seq!['}'],
        TokenKind::Separator => seq![','],
        TokenKind::Therefore => seq!['\u{2234}'],
        TokenKind::Not => seq!['~'],
        TokenKind::And => seq!['&'],
        TokenKind::Or => seq!['\u{2228}'],
        TokenKind::Implies => seq!['\u{2283}'],
        TokenKind::Exists => seq!['\u{2203}'],
        TokenKind::ForAll => seq!['\u{2200}'],
    }
}

/// Canonical text: each token written out and followed by a space.
pub open spec fn tokens_text(ts: Seq<TokenKind>) -> Seq<char>
    decreases ts.len(),
{
    if ts.len() == 0 {
        seq![]
    } else {
        token_text(ts[0]) + seq![' '] + tokens_text(ts.drop_first())
    }
}

/// Letter tokens hold letters of their case.
pub open spec fn token_valid(t: TokenKind) -> bool {
    match t {
        TokenKind::Upper(c) => 0x41 <= c as u32 && c as u32 <= 0x5A,
        TokenKind::Lower(c) => 0x61 <= c as u32 && c as u32 <= 0x7A,
        _ => true,
    }
}

proof fn lemma_numeral_text_lexes(s: Seq<char>, i: int, n: nat, sub: bool)
    requires
        0 <= i,
        i + numeral_text(n, sub).len() <= s.len(),
        s.subrange(i, i + numeral_text(n, sub).len()) == numeral_text(n, sub),
        n <= u64::MAX,
    ensures
        numeral_text(n, sub).len() >= 1,
        lex_from(s, i) == lex_numeral(s, i + numeral_text(n, sub).len(), n as int, sub),
    decreases n,
{
    let w = numeral_text(n, sub);
    assert(s.subrange(i, i + w.len())[0] == w[0]);
    if n < 10 {
        assert(s[i] == digit_glyph(n as int, sub));
        assert(lex_from(s, i) == lex_numeral(s, i + 1, n as int, sub));
    } else {
        let h = numeral_text((n / 10) as nat, sub);
        assert(w == h + seq![digit_glyph((n % 10) as int, sub)]);
        assert(s.subrange(i, i + h.len()) =~= h) by {
            assert forall|k: int| 0 <= k < h.len() implies s.subrange(i, i + h.len())[k] == h[k] by {
                assert(s.subrange(i, i + w.len())[k] == w[k]);
            }
        }
        lemma_numeral_text_lexes(s, i, (n / 10) as nat, sub);
        assert(s.subrange(i, i + w.len())[h.len() as int] == w[h.len() as int]);
        assert(s[i + h.len()] == digit_glyph((n % 10) as int, sub));
        assert((n / 10) * 10 + n % 10 == n);
    }
}

/// Canonical text lexes back to its tokens.
pub proof fn lemma_tokens_text_lexes(s: Seq<char>, i: int, ts: Seq<TokenKind>)
    requires
        0 <= i <= s.len(),
        s.subrange(i, s.len() as int) == tokens_text(ts),
        forall|k: int| 0 <= k < ts.len() ==> #[trigger] token_valid(ts[k]),
    ensures
        lex_from(s, i) == Some(ts),
    decreases ts.len(),
{
    if ts.len() == 0 {
        assert(s.subrange(i, s.len() as int).len() == 0);
    } else {
        let t = ts[0];
        let w = token_text(t);
        let rest = tokens_text(ts.drop_first());
        assert(tokens_text(ts) == w + seq![' '] + rest);
        let j = i + w.len();
        assert(s.subrange(i, j) =~= w) by {
            assert forall|k: int| 0 <= k < w.len() implies s.subrange(i, j)[k] == w[k] by {
                assert(s.subrange(i, s.len() as int)[k] == tokens_text(ts)[k]);
            }
        }
        assert(s[j] == ' ') by {
            assert(s.subrange(i, s.len() as int)[w.len() as int] == tokens_text(ts)[w.len() as int]);
        }
        assert(s.subrange(j + 1, s.len() as int) =~= rest) by {
            assert forall|k: int| 0 <= k < rest.len() implies s.subrange(j + 1, s.len() as int)[k] == rest[k] by {
                assert(s.subrange(i, s.len() as int)[w.len() + 1 + k] == tokens_text(ts)[w.len() + 1 + k]);
            }
        }
        assert forall|k: int| 0 <= k < ts.drop_first().len() implies #[trigger] token_valid(ts.drop_first()[k]) by {
            assert(token_valid(ts[k + 1]));
        }
        lemma_tokens_text_lexes(s, j + 1, ts.drop_first());
        assert(lex_from(s, j) == lex_from(s, j + 1));
        assert(token_valid(ts[0]));
        match t {
            TokenKind::Sub(n) => {
                lemma_numeral_text_lexes(s, i, n as nat, true);
                assert(lex_numeral(s, j, n as int, true) == prepend(seq![t], lex_from(s, j)));
            },
            TokenKind::Sup(n) => {
                lemma_numeral_text_lexes(s, i, n as nat, false);
                assert(lex_numeral(s, j, n as int, false) == prepend(seq![t], lex_from(s, j)));
            },
            _ => {
                assert(s[i] == w[0]);
                assert(lex_from(s, i) == prepend(seq![t], lex_from(s, i + 1)));
            },
        }
        assert(seq![t] + ts.drop_first() =~= ts);
    }
}

} // verus!
