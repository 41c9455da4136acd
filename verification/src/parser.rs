//! Tokens and tokenization.
//!
//! A line of source text is cut into raw token texts (parentheses are always
//! one-character tokens, whitespace separates everything else) and each raw
//! text is classified: the keyword `def`, a parenthesis, an operator, or a
//! value. A value is an integer literal when the text parses as an `i64`,
//! otherwise an identifier.

use vstd::prelude::*;
use vstd::string::*;

verus! {

/// An arithmetic operator token.
#[derive(Debug, PartialEq, Eq, Clone, Copy)]
pub enum Operator {
    Plus,
    Minus,
}

/// A binding keyword.
#[derive(Debug, PartialEq, Eq, Clone, Copy)]
pub enum Keyword {
    Def,
}

/// A runtime value: an integer, an identifier awaiting resolution, or a
/// variable wrapper around an already-produced value (the result of `def`).
#[derive(Debug, PartialEq, Eq)]
pub enum Value {
    Int(i64),
    Identifier(String),
    Variable(Box<Value>),
}

/// A lexical token.
#[derive(Debug, PartialEq, Eq)]
pub enum Token {
    Operator(Operator),
    Value(Value),
    OpenParenthesis,
    CloseParenthesis,
    TokenizationError(String),
    Keyword(Keyword),
}

/// The error of the text-to-token classification functions.
#[derive(Debug, PartialEq, Eq, Clone, Copy)]
pub struct ParseErr;

impl Value {
    /// A structural copy: equal to `self` in every contract.
    pub fn deep_clone(&self) -> (r: Value)
        ensures
            r == *self,
        decreases *self,
    {
        match self {
            Value::Int(n) => Value::Int(*n),
            Value::Identifier(s) => Value::Identifier(s.clone()),
            Value::Variable(v) => Value::Variable(Box::new((&**v).deep_clone())),
        }
    }
}

impl Token {
    /// A structural copy: equal to `self` in every contract.
    pub fn deep_clone(&self) -> (r: Token)
        ensures
            r == *self,
    {
        match self {
            Token::Operator(op) => Token::Operator(*op),
            Token::Value(v) => Token::Value(v.deep_clone()),
            Token::OpenParenthesis => Token::OpenParenthesis,
            Token::CloseParenthesis => Token::CloseParenthesis,
            Token::TokenizationError(s) => Token::TokenizationError(s.clone()),
            Token::Keyword(k) => Token::Keyword(*k),
        }
    }
}

/// A decimal digit.
pub open spec fn is_digit(c: char) -> bool {
    '0' as u32 <= c as u32 && c as u32 <= '9' as u32
}

/// The numeric value of a decimal digit.
pub open spec fn digit_val(c: char) -> int {
    c as u32 - '0' as u32
}

pub open spec fn all_digits(s: Seq<char>) -> bool {
    forall|i: int| 0 <= i < s.len() ==> is_digit(#[trigger] s[i])
}

/// The integer denoted by a sequence of decimal digits, most significant first.
pub open spec fn digits_val(s: Seq<char>) -> int
    decreases s.len(),
{
    if s.len() == 0 {
        0
    } else {
        digits_val(s.drop_last()) * 10 + digit_val(s.last())
    }
}

/// The digit part of an integer literal: the text with an optional single
/// leading sign removed, or `None` when no digits could follow.
pub open spec fn literal_digits(s: Seq<char>) -> Option<Seq<char>> {
    if s.len() == 0 {
        None
    } else if s[0] == '+' || s[0] == '-' {
        if s.len() > 1 {
            Some(s.subrange(1, s.len() as int))
        } else {
            None
        }
    } else {
        Some(s)
    }
}

/// The mathematical value of an integer literal `[+-]?[0-9]+`, without any
/// range restriction; `None` when the text has no such shape.
pub open spec fn literal_value(s: Seq<char>) -> Option<int> {
    match literal_digits(s) {
        Some(d) => if all_digits(d) {
            if s[0] == '-' {
                Some(-digits_val(d))
            } else {
                Some(digits_val(d))
            }
        } else {
            None
        },
        None => None,
    }
}

/// The `i64` denoted by an integer literal, exactly when the text has the
/// shape `[+-]?[0-9]+` and its value fits in an `i64`.
pub open spec fn i64_literal(s: Seq<char>) -> Option<i64> {
    match literal_value(s) {
        Some(v) => if i64::MIN <= v <= i64::MAX {
            Some(v as i64)
        } else {
            None
        },
        None => None,
    }
}

pub open spec fn is_def_text(s: Seq<char>) -> bool {
    s.len() == 3 && s[0] == 'd' && s[1] == 'e' && s[2] == 'f'
}

pub open spec fn is_single(s: Seq<char>, c: char) -> bool {
    s.len() == 1 && s[0] == c
}

/// What value a raw token text denotes: an integer literal when it parses as
/// an `i64`, otherwise an identifier carrying the text itself.
pub open spec fn value_matches(v: Value, s: Seq<char>) -> bool {
    match i64_literal(s) {
        Some(n) => v == Value::Int(n),
        None => v matches Value::Identifier(name) && name@ == s,
    }
}

/// What token a raw token text denotes. Classification tries, in order: the
/// keyword, a parenthesis, an operator, a value.
pub open spec fn token_matches(t: Token, s: Seq<char>) -> bool {
    if is_def_text(s) {
        t == Token::Keyword(Keyword::Def)
    } else if is_single(s, '(') {
        t == Token::OpenParenthesis
    } else if is_single(s, ')') {
        t == Token::CloseParenthesis
    } else if is_single(s, '+') {
        t == Token::Operator(Operator::Plus)
    } else if is_single(s, '-') {
        t == Token::Operator(Operator::Minus)
    } else {
        t matches Token::Value(v) && value_matches(v, s)
    }
}

impl Keyword {
    /// Classifies a raw token text as a keyword.
    pub fn from_str(s: &str) -> (r: Result<Keyword, ParseErr>)
        ensures
            r == if is_def_text(s@) {
                Result::<Keyword, ParseErr>::Ok(Keyword::Def)
            } else {
                Result::<Keyword, ParseErr>::Err(ParseErr)
            },
    {
        if s.unicode_len() == 3 && s.get_char(0) == 'd' && s.get_char(1) == 'e' && s.get_char(2)
            == 'f' {
            Ok(Keyword::Def)
        } else {
            Err(ParseErr)
        }
    }
}

impl Operator {
    /// Classifies a raw token text as an operator.
    pub fn from_str(s: &str) -> (r: Result<Operator, ParseErr>)
        ensures
            r == if is_single(s@, '+') {
                Result::<Operator, ParseErr>::Ok(Operator::Plus)
            } else if is_single(s@, '-') {
                Result::<Operator, ParseErr>::Ok(Operator::Minus)
            } else {
                Result::<Operator, ParseErr>::Err(ParseErr)
            },
    {
        if s.unicode_len() == 1 {
            let c = s.get_char(0);
            if c == '+' {
                return Ok(Operator::Plus);
            }
            if c == '-' {
                return Ok(Operator::Minus);
            }
        }
        Err(ParseErr)
    }
}

proof fn lemma_digits_val_nonneg(s: Seq<char>)
    requires
        all_digits(s),
    ensures
        digits_val(s) >= 0,
    decreases s.len(),
{
    if s.len() > 0 {
        assert(forall|i: int| 0 <= i < s.drop_last().len() ==> is_digit(#[trigger] s.drop_last()[i]));
        lemma_digits_val_nonneg(s.drop_last());
    }
}

/// Extending a digit text on the right can only grow its value.
proof fn lemma_digits_val_grows(s: Seq<char>, a: int, b: int, c: int)
    requires
        0 <= a <= b <= c <= s.len(),
        forall|i: int| a <= i < c ==> is_digit(#[trigger] s[i]),
    ensures
        digits_val(s.subrange(a, b)) <= digits_val(s.subrange(a, c)),
    decreases c - b,
{
    if b < c {
        lemma_digits_val_grows(s, a, b, c - 1);
        let pre = s.subrange(a, c - 1);
        let whole = s.subrange(a, c);
        assert(whole.drop_last() =~= pre);
        assert(forall|i: int| 0 <= i < pre.len() ==> is_digit(#[trigger] pre[i]));
        lemma_digits_val_nonneg(pre);
        assert(digits_val(whole) == digits_val(pre) * 10 + digit_val(s[c - 1]));
    }
}

/// Parses an integer literal `[+-]?[0-9]+` whose value fits in an `i64`.
#[verifier::loop_isolation(false)]
fn parse_i64_text(s: &str) -> (r: Option<i64>)
    ensures
        r == i64_literal(s@),
{
    let cs = chars_of(s);
    let n = cs.len();
    if n == 0 {
        return None;
    }
    let first = cs[0];
    let start: usize = if first == '+' || first == '-' {
        1
    } else {
        0
    };
    let neg = first == '-';
    if start >= n {
        return None;
    }
    proof {
        assert(literal_digits(s@) == Some(s@.subrange(start as int, n as int)));
    }
    let ghost d = s@.subrange(start as int, n as int);
    let mut mag: u128 = 0;
    let mut i: usize = start;
    while i < n
        invariant
            start <= i <= n,
            n == cs@.len(),
            cs@ == s@,
            start < n,
            d == s@.subrange(start as int, n as int),
            forall|j: int| start <= j < i ==> is_digit(#[trigger] s@[j]),
            mag as int == digits_val(s@.subrange(start as int, i as int)),
            mag <= 0x8000_0000_0000_0000u128,
        decreases n - i,
    {
        let c = cs[i];
        let u = c as u32;
        if u < 48 || u > 57 {
            proof {
                assert(d[i - start] == s@[i as int]);
                assert(!all_digits(d));
            }
            return None;
        }
        let dv = (u - 48) as u128;
        let new_mag = mag * 10 + dv;
        proof {
            let pre = s@.subrange(start as int, i as int);
            let ext = s@.subrange(start as int, i + 1);
            assert(ext.drop_last() =~= pre);
            assert(ext.last() == s@[i as int]);
            assert(digits_val(ext) == digits_val(pre) * 10 + digit_val(s@[i as int]));
        }
        if new_mag > 0x8000_0000_0000_0000u128 {
            proof {
                if all_digits(d) {
                    assert forall|j: int| start <= j < n implies is_digit(#[trigger] s@[j]) by {
                        assert(is_digit(d[j - start]));
                    }
                    lemma_digits_val_grows(s@, start as int, i + 1, n as int);
                    assert(digits_val(d) >= new_mag as int);
                }
            }
            return None;
        }
        mag = new_mag;
        i += 1;
    }
    proof {
        assert(s@.subrange(start as int, i as int) =~= d);
        assert(all_digits(d));
        assert(literal_value(s@) == Some(if neg { -digits_val(d) } else { digits_val(d) }));
    }
    if neg {
        if mag == 0x8000_0000_0000_0000u128 {
            Some(i64::MIN)
        } else {
            Some(-(mag as i64))
        }
    } else {
        if mag > 0x7fff_ffff_ffff_ffffu128 {
            None
        } else {
            Some(mag as i64)
        }
    }
}

impl Value {
    /// Classifies a raw token text as a value: an `i64` literal when the text
    /// parses as one, otherwise an identifier. Never fails.
    pub fn from_str(s: &str) -> (r: Result<Value, ParseErr>)
        ensures
            r matches Ok(v) && value_matches(v, s@),
    {
        match parse_i64_text(s) {
            Some(n) => Ok(Value::Int(n)),
            None => Ok(Value::Identifier(s.to_owned())),
        }
    }
}

impl Token {
    /// Classifies a raw token text, trying in order: keyword, parenthesis,
    /// operator, value. Never fails, since any text can be an identifier.
    pub fn from_str(s: &str) -> (r: Result<Token, ParseErr>)
        ensures
            r matches Ok(t) && token_matches(t, s@),
    {
        if let Ok(k) = Keyword::from_str(s) {
            return Ok(Token::Keyword(k));
        }
        if s.unicode_len() == 1 {
            let c = s.get_char(0);
            if c == '(' {
                return Ok(Token::OpenParenthesis);
            }
            if c == ')' {
                return Ok(Token::CloseParenthesis);
            }
        }
        if let Ok(op) = Operator::from_str(s) {
            return Ok(Token::Operator(op));
        }
        match Value::from_str(s) {
            Ok(v) => Ok(Token::Value(v)),
            Err(e) => Err(e),
        }
    }

    /// Classifies a raw token text; a text that fits no token kind would be
    /// kept as a `TokenizationError` marker carrying the text.
    pub fn new(raw_token: &str) -> (t: Token)
        ensures
            token_matches(t, raw_token@),
    {
        match Token::from_str(raw_token) {
            Ok(t) => t,
            Err(_) => Token::TokenizationError(raw_token.to_owned()),
        }
    }
}

/// A token together with its source position (row and column of the token's
/// last character). The position is informational only: nothing in the tree
/// builder or the evaluator reads it.
#[derive(Debug, PartialEq, Eq)]
pub struct TokenData {
    pub token: Token,
    pub row: usize,
    pub position: usize,
}

impl TokenData {
    /// Classifies a raw token text and records where it was found.
    pub fn new(raw_token: &str, row: usize, position: usize) -> (t: TokenData)
        ensures
            token_matches(t.token, raw_token@),
            t.row == row,
            t.position == position,
    {
        TokenData { token: Token::new(raw_token), row, position }
    }
}

/// A Unicode whitespace character, as the `White_Space` property lists
/// them.
pub open spec fn is_space(c: char) -> bool {
    ||| c as u32 == 0x20
    ||| (0x09 <= c as u32 && c as u32 <= 0x0d)
    ||| c as u32 == 0x85
    ||| c as u32 == 0xa0
    ||| c as u32 == 0x1680
    ||| (0x2000 <= c as u32 && c as u32 <= 0x200a)
    ||| c as u32 == 0x2028
    ||| c as u32 == 0x2029
    ||| c as u32 == 0x202f
    ||| c as u32 == 0x205f
    ||| c as u32 == 0x3000
}

fn is_whitespace_char(c: char) -> (r: bool)
    ensures
        r == is_space(c),
{
    let u = c as u32;
    u == 0x20 || (0x09 <= u && u <= 0x0d) || u == 0x85 || u == 0xa0 || u == 0x1680 || (0x2000 <= u
        && u <= 0x200a) || u == 0x2028 || u == 0x2029 || u == 0x202f || u == 0x205f || u == 0x3000
}

/// A character that ends the run of an ordinary (non-parenthesis) token.
pub open spec fn is_boundary(c: char) -> bool {
    is_space(c) || c == '(' || c == ')'
}

/// The position at or after `i` where the current token's run of ordinary
/// characters ends.
pub open spec fn run_end(line: Seq<char>, i: int) -> int
    decreases line.len() - i,
        when 0 <= i
{
    if i >= line.len() {
        line.len() as int
    } else if is_boundary(line[i]) {
        i
    } else {
        run_end(line, i + 1)
    }
}

pub proof fn lemma_run_end_bounds(line: Seq<char>, j: int)
    requires
        0 <= j <= line.len(),
    ensures
        j <= run_end(line, j) <= line.len(),
    decreases line.len() - j,
{
    if j < line.len() && !is_boundary(line[j]) {
        lemma_run_end_bounds(line, j + 1);
    }
}

/// The (start, end) character spans of a line's raw tokens, scanning from
/// position `i`: whitespace separates tokens, and each parenthesis is a
/// token of its own.
pub open spec fn scan_from(line: Seq<char>, i: int) -> Seq<(int, int)>
    decreases line.len() - i,
        when 0 <= i
{
    if i >= line.len() {
        Seq::empty()
    } else if is_space(line[i]) {
        scan_from(line, i + 1)
    } else if line[i] == '(' || line[i] == ')' {
        seq![(i, i + 1)] + scan_from(line, i + 1)
    } else {
        proof {
            lemma_run_end_bounds(line, i + 1);
        }
        seq![(i, run_end(line, i + 1))] + scan_from(line, run_end(line, i + 1))
    }
}

/// Every span that a scan yields lies within the line, is nonempty, and
/// starts no earlier than the scan did.
proof fn lemma_scan_spans(line: Seq<char>, i: int)
    requires
        0 <= i <= line.len(),
    ensures
        forall|t: int|
            0 <= t < scan_from(line, i).len() ==> {
                let (s, e) = #[trigger] scan_from(line, i)[t];
                i <= s && s < e && e <= line.len()
            },
    decreases line.len() - i,
{
    if i < line.len() {
        if is_space(line[i]) {
            lemma_scan_spans(line, i + 1);
        } else if line[i] == '(' || line[i] == ')' {
            lemma_scan_spans(line, i + 1);
            let ps = scan_from(line, i);
            assert forall|t: int| 0 <= t < ps.len() implies {
                let (s, e) = #[trigger] ps[t];
                i <= s && s < e && e <= line.len()
            } by {
                if t > 0 {
                    assert(ps[t] == scan_from(line, i + 1)[t - 1]);
                }
            }
        } else {
            lemma_run_end_bounds(line, i + 1);
            lemma_scan_spans(line, run_end(line, i + 1));
            let ps = scan_from(line, i);
            assert forall|t: int| 0 <= t < ps.len() implies {
                let (s, e) = #[trigger] ps[t];
                i <= s && s < e && e <= line.len()
            } by {
                if t > 0 {
                    assert(ps[t] == scan_from(line, run_end(line, i + 1))[t - 1]);
                }
            }
        }
    }
}

/// Whether the current raw token must end before `right_char`: at
/// whitespace, and on either side of a parenthesis.
fn token_should_end(left_char: char, right_char: char) -> (r: bool)
    ensures
        r == (is_space(right_char) || left_char == '(' || left_char == ')' || right_char == '('
            || right_char == ')'),
{
    is_whitespace_char(right_char) || left_char == '(' || left_char == ')' || right_char == '('
        || right_char == ')'
}

/// A cursor over one line of source text, yielding raw token texts and
/// their end positions one at a time.
pub struct LineToParse<'a> {
    pub line: &'a str,
    pub pos: usize,
}

impl<'a> LineToParse<'a> {
    /// A cursor at the start of the line.
    pub fn new(line: &'a str) -> (r: LineToParse<'a>)
        ensures
            r.line == line,
            r.pos == 0,
    {
        Self { line, pos: 0 }
    }

    /// The next raw token text and the character position just past it, or
    /// `None` when only whitespace is left.
    #[verifier::loop_isolation(false)]
    pub fn next(&mut self) -> (r: Option<(&'a str, usize)>)
        requires
            old(self).pos <= old(self).line@.len(),
        ensures
            final(self).line == old(self).line,
            final(self).pos <= final(self).line@.len(),
            ({
                let ps = scan_from(old(self).line@, old(self).pos as int);
                match r {
                    None => ps.len() == 0 && final(self).pos == old(self).line@.len(),
                    Some((tok, end)) => ps.len() > 0 && ({
                        let (s, e) = ps[0];
                        &&& tok@ == old(self).line@.subrange(s, e)
                        &&& end == e
                        &&& final(self).pos == e
                        &&& scan_from(old(self).line@, e) == ps.drop_first()
                    }),
                }
            }),
    {
        let l = self.line;
        let ghost lv = l@;
        let n = l.unicode_len();
        let mut i = self.pos;
        while i < n && is_whitespace_char(l.get_char(i))
            invariant
                self.pos <= i <= n,
                n == lv.len(),
                scan_from(lv, self.pos as int) == scan_from(lv, i as int),
            decreases n - i,
        {
            proof {
                assert(scan_from(lv, i as int) == scan_from(lv, i + 1));
            }
            i += 1;
        }
        if i >= n {
            self.pos = n;
            return None;
        }
        let c = l.get_char(i);
        if c == '(' || c == ')' {
            self.pos = i + 1;
            let tok = l.substring_char(i, i + 1);
            proof {
                let ps = scan_from(lv, old(self).pos as int);
                assert(ps == seq![(i as int, i + 1)] + scan_from(lv, i + 1));
                assert(ps[0] == (i as int, i + 1));
                assert(scan_from(lv, i + 1) =~= ps.drop_first());
            }
            return Some((tok, i + 1));
        }
        let mut e = i + 1;
        while e < n && !token_should_end(c, l.get_char(e))
            invariant
                i < e <= n,
                n == lv.len(),
                c == lv[i as int],
                !is_boundary(c),
                run_end(lv, i + 1) == run_end(lv, e as int),
            decreases n - e,
        {
            proof {
                assert(!is_boundary(lv[e as int]));
                assert(run_end(lv, e as int) == run_end(lv, e + 1));
            }
            e += 1;
        }
        proof {
            if e < n {
                assert(is_boundary(lv[e as int]));
            }
            assert(run_end(lv, e as int) == e);
            assert(run_end(lv, i + 1) == e);
            lemma_run_end_bounds(lv, i + 1);
            let ps = scan_from(lv, old(self).pos as int);
            assert(ps == seq![(i as int, e as int)] + scan_from(lv, e as int));
            assert(ps[0] == (i as int, e as int));
            assert(scan_from(lv, e as int) =~= ps.drop_first());
        }
        self.pos = e;
        let tok = l.substring_char(i, e);
        Some((tok, e))
    }
}

/// Cuts a line of source text into classified tokens, each carrying the
/// row (starting at 1) and the character position of the token's last
/// character.
#[verifier::loop_isolation(false)]
pub fn tokenize(line: &str, row: usize) -> (r: Vec<TokenData>)
    requires
        row < usize::MAX,
    ensures
        ({
            let ps = scan_from(line@, 0);
            &&& r@.len() == ps.len()
            &&& forall|t: int|
                0 <= t < ps.len() ==> {
                    let (s, e) = #[trigger] ps[t];
                    &&& token_matches(r@[t].token, line@.subrange(s, e))
                    &&& r@[t].row == row + 1
                    &&& r@[t].position == e - 1
                }
        }),
{
    let ghost full = scan_from(line@, 0);
    proof {
        lemma_scan_spans(line@, 0);
    }
    let mut parser = LineToParse::new(line);
    let mut out: Vec<TokenData> = Vec::new();
    let mut done = false;
    while !done
        invariant
            row < usize::MAX,
            parser.line == line,
            parser.pos <= line@.len(),
            full == scan_from(line@, 0),
            out@.len() <= full.len(),
            scan_from(line@, parser.pos as int) == full.skip(out@.len() as int),
            done ==> out@.len() == full.len(),
            forall|t: int|
                0 <= t < out@.len() ==> {
                    let (s, e) = #[trigger] full[t];
                    &&& token_matches(out@[t].token, line@.subrange(s, e))
                    &&& out@[t].row == row + 1
                    &&& out@[t].position == e - 1
                },
        decreases line@.len() - parser.pos + (if done {
            0int
        } else {
            1int
        }),
    {
        let ghost cnt = out@.len() as int;
        let ghost p0 = parser.pos;
        match parser.next() {
            None => {
                proof {
                    assert(full.skip(cnt).len() == 0);
                }
                done = true;
            },
            Some((tok, end)) => {
                proof {
                    lemma_scan_spans(line@, p0 as int);
                    assert(full.skip(cnt)[0] == full[cnt]);
                    assert(full[cnt].1 == end);
                    assert(p0 <= full[cnt].0 < full[cnt].1 && full[cnt].1 <= line@.len());
                    assert(full.skip(cnt).drop_first() =~= full.skip(cnt + 1));
                }
                out.push(TokenData::new(tok, row + 1, end - 1));
            },
        }
    }
    out
}

/// The characters of a string, as a vector.
pub fn chars_of(s: &str) -> (v: Vec<char>)
    ensures
        v@ == s@,
{
    let n = s.unicode_len();
    let mut v: Vec<char> = Vec::new();
    let mut i: usize = 0;
    while i < n
        invariant
            i <= n,
            n == s@.len(),
            v@ == s@.subrange(0, i as int),
        decreases n - i,
    {
        v.push(s.get_char(i));
        i += 1;
        proof {
            assert(v@ =~= s@.subrange(0, i as int));
        }
    }
    proof {
        assert(v@ =~= s@);
    }
    v
}

} // verus!
