//! Lexing of source text into tokens, stated as a spec over its characters.
use vstd::prelude::*;
use crate::naming::{char_string, chars_of, string_of};

verus! {

/// One lexical token of source text.
#[derive(Debug)]
pub enum Token {
    /// An identifier or keyword.
    Ident(String),
    /// A string literal's value.
    Str(String),
    /// A single punctuation character.
    Punct(char),
    /// A number, character literal or lifetime.
    Other,
}

/// A token as plain values.
pub enum TokenView {
    Ident(Seq<char>),
    Str(Seq<char>),
    Punct(char),
    Other,
}

impl View for Token {
    type V = TokenView;

    open spec fn view(&self) -> TokenView {
        match self {
            Token::Ident(s) => TokenView::Ident(s@),
            Token::Str(s) => TokenView::Str(s@),
            Token::Punct(c) => TokenView::Punct(*c),
            Token::Other => TokenView::Other,
        }
    }
}

/// The view of each token of a sequence.
pub open spec fn tviews(ts: Seq<Token>) -> Seq<TokenView> {
    ts.map_values(|t: Token| t@)
}

/// Views of a sequence grown by one token.
pub proof fn lemma_tviews_push(s: Seq<Token>, t: Token)
    ensures
        tviews(s.push(t)) == tviews(s).push(t@),
{
    assert(tviews(s.push(t)) =~= tviews(s).push(t@));
}

/// Why source text could not be read.
#[derive(PartialEq, Eq, Structural, Clone, Copy, Debug)]
pub enum SourceError {
    UnterminatedComment,
    UnterminatedLiteral,
    UnbalancedDelimiter,
    MalformedDeclaration,
}

impl SourceError {
    /// A short description of the error.
    pub fn message(&self) -> (r: String)
        ensures
            r@ == match *self {
                SourceError::UnterminatedComment => "unterminated block comment"@,
                SourceError::UnterminatedLiteral => "unterminated literal"@,
                SourceError::UnbalancedDelimiter => "unbalanced delimiter"@,
                SourceError::MalformedDeclaration => "malformed enum declaration"@,
            },
    {
        match self {
            SourceError::UnterminatedComment => String::from_str("unterminated block comment"),
            SourceError::UnterminatedLiteral => String::from_str("unterminated literal"),
            SourceError::UnbalancedDelimiter => String::from_str("unbalanced delimiter"),
            SourceError::MalformedDeclaration => String::from_str("malformed enum declaration"),
        }
    }
}

/// Whether `c` may start an identifier.
pub open spec fn ident_start(c: char) -> bool {
    c == '_' || (97 <= (c as int) <= 122) || (65 <= (c as int) <= 90) || (c as int) >= 128
}

/// Whether `c` is a decimal digit.
pub open spec fn is_digit(c: char) -> bool {
    48 <= (c as int) <= 57
}

/// Whether `c` may continue an identifier.
pub open spec fn ident_char(c: char) -> bool {
    ident_start(c) || is_digit(c)
}

/// Whether `c` is white space between tokens.
pub open spec fn is_space(c: char) -> bool {
    c == ' ' || c == '\t' || c == '\n' || c == '\r'
}

/// End of the identifier characters from `i`.
pub open spec fn ident_end(cs: Seq<char>, i: int) -> int
    decreases cs.len() - i,
{
    if 0 <= i < cs.len() && ident_char(cs[i]) {
        ident_end(cs, i + 1)
    } else {
        i
    }
}

/// End of the number characters from `i`.
pub open spec fn number_end(cs: Seq<char>, i: int) -> int
    decreases cs.len() - i,
{
    if 0 <= i < cs.len() && (ident_char(cs[i]) || cs[i] == '.') {
        number_end(cs, i + 1)
    } else {
        i
    }
}

/// End of the line from `i`: the next newline, or the end of the text.
pub open spec fn line_end(cs: Seq<char>, i: int) -> int
    decreases cs.len() - i,
{
    if 0 <= i < cs.len() && cs[i] != '\n' {
        line_end(cs, i + 1)
    } else {
        i
    }
}

/// Where a block comment ends, read from `i` with `depth` comments open;
/// `None` when the text ends first.
pub open spec fn comment_end(cs: Seq<char>, i: int, depth: nat) -> Option<int>
    decreases cs.len() - i,
{
    if depth == 0 {
        Some(i)
    } else if i < 0 || i >= cs.len() {
        None
    } else if i + 1 < cs.len() && cs[i] == '/' && cs[i + 1] == '*' {
        comment_end(cs, i + 2, depth + 1)
    } else if i + 1 < cs.len() && cs[i] == '*' && cs[i + 1] == '/' {
        comment_end(cs, i + 2, (depth - 1) as nat)
    } else {
        comment_end(cs, i + 1, depth)
    }
}

/// The character an escape `\c` stands for.
pub open spec fn unescape(c: char) -> char {
    if c == 'n' {
        '\n'
    } else if c == 't' {
        '\t'
    } else if c == 'r' {
        '\r'
    } else if c == '0' {
        '\0'
    } else {
        c
    }
}

/// Reads the rest of a string literal from `i`, with `acc` read so far:
/// the position after the closing quote and the literal's value, or `None`
/// when the text ends first.
pub open spec fn string_scan(cs: Seq<char>, i: int, acc: Seq<char>) -> Option<(int, Seq<char>)>
    decreases cs.len() - i,
{
    if i < 0 || i >= cs.len() {
        None
    } else if cs[i] == '\\' {
        if i + 1 < cs.len() {
            string_scan(cs, i + 2, acc.push(unescape(cs[i + 1])))
        } else {
            None
        }
    } else if cs[i] == '"' {
        Some((i + 1, acc))
    } else {
        string_scan(cs, i + 1, acc.push(cs[i]))
    }
}

/// End of the `#` characters from `i`.
pub open spec fn hashes_end(cs: Seq<char>, i: int) -> int
    decreases cs.len() - i,
{
    if 0 <= i < cs.len() && cs[i] == '#' {
        hashes_end(cs, i + 1)
    } else {
        i
    }
}

/// Number of characters of the prefix of a raw string at `i`: `r` or `br`.
pub open spec fn raw_prefix(cs: Seq<char>, i: int) -> int {
    if 0 <= i < cs.len() && cs[i] == 'r' {
        1
    } else if 0 <= i && i + 1 < cs.len() && cs[i] == 'b' && cs[i + 1] == 'r' {
        2
    } else {
        0
    }
}

/// The opening quote of a raw string starting at `i`, if one starts there.
pub open spec fn raw_open(cs: Seq<char>, i: int) -> Option<int> {
    let p = raw_prefix(cs, i);
    let q = hashes_end(cs, i + p);
    if p > 0 && q < cs.len() && cs[q] == '"' {
        Some(q)
    } else {
        None
    }
}

/// Whether a raw string with `h` hashes closes at `k`.
pub open spec fn raw_close(cs: Seq<char>, k: int, h: int) -> bool {
    0 <= k && k + h < cs.len() && cs[k] == '"' && forall|m: int| k < m <= k + h ==> #[trigger] cs[m] == '#'
}

/// The first place from `k` where a raw string with `h` hashes closes.
pub open spec fn raw_end(cs: Seq<char>, k: int, h: int) -> Option<int>
    decreases cs.len() - k,
{
    if k < 0 || k >= cs.len() {
        None
    } else if raw_close(cs, k, h) {
        Some(k)
    } else {
        raw_end(cs, k + 1, h)
    }
}

/// The first quote `'` from `j`.
pub open spec fn quote_from(cs: Seq<char>, j: int) -> Option<int>
    decreases cs.len() - j,
{
    if j < 0 || j >= cs.len() {
        None
    } else if cs[j] == '\'' {
        Some(j)
    } else {
        quote_from(cs, j + 1)
    }
}

/// One step of lexing at `i`: the position after what is read there, and
/// the token it makes, if any (white space and comments make none).
pub open spec fn lex_step(cs: Seq<char>, i: int) -> Result<(int, Option<TokenView>), SourceError> {
    let c = cs[i];
    let n = cs.len();
    if is_space(c) {
        Ok((i + 1, None))
    } else if c == '/' && i + 1 < n && cs[i + 1] == '/' {
        Ok((line_end(cs, i + 2), None))
    } else if c == '/' && i + 1 < n && cs[i + 1] == '*' {
        match comment_end(cs, i + 2, 1) {
            None => Err(SourceError::UnterminatedComment),
            Some(e) => Ok((e, None)),
        }
    } else if raw_open(cs, i) is Some {
        let q = raw_open(cs, i)->0;
        let h = q - i - raw_prefix(cs, i);
        match raw_end(cs, q + 1, h) {
            None => Err(SourceError::UnterminatedLiteral),
            Some(k) => Ok((k + 1 + h, Some(TokenView::Str(cs.subrange(q + 1, k))))),
        }
    } else if ident_start(c) {
        let e = ident_end(cs, i + 1);
        Ok((e, Some(TokenView::Ident(cs.subrange(i, e)))))
    } else if is_digit(c) {
        Ok((number_end(cs, i + 1), Some(TokenView::Other)))
    } else if c == '"' {
        match string_scan(cs, i + 1, Seq::empty()) {
            None => Err(SourceError::UnterminatedLiteral),
            Some((e, body)) => Ok((e, Some(TokenView::Str(body)))),
        }
    } else if c == '\'' {
        if i + 1 < n && cs[i + 1] == '\\' {
            match quote_from(cs, i + 3) {
                None => Err(SourceError::UnterminatedLiteral),
                Some(e) => Ok((e + 1, Some(TokenView::Other))),
            }
        } else if i + 2 < n && cs[i + 2] == '\'' {
            Ok((i + 3, Some(TokenView::Other)))
        } else {
            Ok((i + 1, Some(TokenView::Other)))
        }
    } else {
        Ok((i + 1, Some(TokenView::Punct(c))))
    }
}

/// Lexes from `i`, with `acc` the tokens read before it.
pub open spec fn lex_from(cs: Seq<char>, i: int, acc: Seq<TokenView>) -> Result<
    Seq<TokenView>,
    SourceError,
>
    decreases cs.len() - i,
    via lex_from_decreases
{
    if i < 0 || i >= cs.len() {
        Ok(acc)
    } else {
        match lex_step(cs, i) {
            Err(e) => Err(e),
            Ok((j, t)) => lex_from(
                cs,
                j,
                match t {
                    Some(t) => acc.push(t),
                    None => acc,
                },
            ),
        }
    }
}

proof fn lemma_ident_end(cs: Seq<char>, i: int)
    ensures
        ident_end(cs, i) >= i,
        0 <= i <= cs.len() ==> ident_end(cs, i) <= cs.len(),
    decreases cs.len() - i,
{
    if 0 <= i < cs.len() && ident_char(cs[i]) {
        lemma_ident_end(cs, i + 1);
    }
}

proof fn lemma_number_end(cs: Seq<char>, i: int)
    ensures
        number_end(cs, i) >= i,
        0 <= i <= cs.len() ==> number_end(cs, i) <= cs.len(),
    decreases cs.len() - i,
{
    if 0 <= i < cs.len() && (ident_char(cs[i]) || cs[i] == '.') {
        lemma_number_end(cs, i + 1);
    }
}

proof fn lemma_line_end(cs: Seq<char>, i: int)
    ensures
        line_end(cs, i) >= i,
        0 <= i <= cs.len() ==> line_end(cs, i) <= cs.len(),
    decreases cs.len() - i,
{
    if 0 <= i < cs.len() && cs[i] != '\n' {
        lemma_line_end(cs, i + 1);
    }
}

proof fn lemma_hashes_end(cs: Seq<char>, i: int)
    ensures
        hashes_end(cs, i) >= i,
        0 <= i <= cs.len() ==> hashes_end(cs, i) <= cs.len(),
    decreases cs.len() - i,
{
    if 0 <= i < cs.len() && cs[i] == '#' {
        lemma_hashes_end(cs, i + 1);
    }
}

proof fn lemma_comment_end(cs: Seq<char>, i: int, depth: nat)
    ensures
        comment_end(cs, i, depth) matches Some(e) ==> e >= i && (i <= cs.len() ==> e <= cs.len()),
    decreases cs.len() - i,
{
    if depth == 0 || i < 0 || i >= cs.len() {
    } else if i + 1 < cs.len() && cs[i] == '/' && cs[i + 1] == '*' {
        lemma_comment_end(cs, i + 2, depth + 1);
    } else if i + 1 < cs.len() && cs[i] == '*' && cs[i + 1] == '/' {
        lemma_comment_end(cs, i + 2, (depth - 1) as nat);
    } else {
        lemma_comment_end(cs, i + 1, depth);
    }
}

proof fn lemma_string_scan(cs: Seq<char>, i: int, acc: Seq<char>)
    ensures
        string_scan(cs, i, acc) matches Some((e, _)) ==> e > i && e <= cs.len(),
    decreases cs.len() - i,
{
    if i < 0 || i >= cs.len() {
    } else if cs[i] == '\\' {
        if i + 1 < cs.len() {
            lemma_string_scan(cs, i + 2, acc.push(unescape(cs[i + 1])));
        }
    } else if cs[i] == '"' {
    } else {
        lemma_string_scan(cs, i + 1, acc.push(cs[i]));
    }
}

proof fn lemma_raw_end(cs: Seq<char>, k: int, h: int)
    ensures
        raw_end(cs, k, h) matches Some(e) ==> e >= k && raw_close(cs, e, h),
    decreases cs.len() - k,
{
    if k < 0 || k >= cs.len() {
    } else if raw_close(cs, k, h) {
    } else {
        lemma_raw_end(cs, k + 1, h);
    }
}

proof fn lemma_quote_from(cs: Seq<char>, j: int)
    ensures
        quote_from(cs, j) matches Some(e) ==> e >= j && e < cs.len(),
    decreases cs.len() - j,
{
    if j < 0 || j >= cs.len() {
    } else if cs[j] == '\'' {
    } else {
        lemma_quote_from(cs, j + 1);
    }
}

/// Every lexing step moves forward.
proof fn lemma_step_advances(cs: Seq<char>, i: int)
    requires
        0 <= i < cs.len(),
    ensures
        lex_step(cs, i) matches Ok((j, _)) ==> i < j <= cs.len(),
{
    lemma_ident_end(cs, i + 1);
    lemma_number_end(cs, i + 1);
    if i + 1 < cs.len() {
        lemma_line_end(cs, i + 2);
    }
    lemma_comment_end(cs, i + 2, 1);
    lemma_string_scan(cs, i + 1, Seq::empty());
    lemma_quote_from(cs, i + 3);
    lemma_hashes_end(cs, i + raw_prefix(cs, i));
    if raw_open(cs, i) is Some {
        let q = raw_open(cs, i)->0;
        lemma_raw_end(cs, q + 1, q - i - raw_prefix(cs, i));
    }
}

#[via_fn]
proof fn lex_from_decreases(cs: Seq<char>, i: int, acc: Seq<TokenView>) {
    if 0 <= i < cs.len() {
        lemma_step_advances(cs, i);
        match lex_step(cs, i) {
            Ok((j, _)) => {
                assert(0 <= cs.len() - j < cs.len() - i);
            },
            Err(_) => {},
        }
    }
}

/// The text lexed: its tokens when every comment and literal ends and every
/// delimiter is matched, else the first error met.
pub open spec fn lexed(text: Seq<char>) -> Result<Seq<TokenView>, SourceError> {
    match lex_from(text, 0, Seq::empty()) {
        Err(e) => Err(e),
        Ok(ts) => if delimiters_balanced(ts) {
            Ok(ts)
        } else {
            Err(SourceError::UnbalancedDelimiter)
        },
    }
}

/// Whether `c` opens a delimited group.
pub open spec fn is_opener(c: char) -> bool {
    c == '(' || c == '[' || c == '{'
}

/// The opener that `c` closes, if `c` is a closing delimiter.
pub open spec fn opener_of(c: char) -> Option<char> {
    if c == ')' {
        Some('(')
    } else if c == ']' {
        Some('[')
    } else if c == '}' {
        Some('{')
    } else {
        None
    }
}

/// The groups left open after the tokens, or `None` when a closer does not
/// match the innermost open group.
pub open spec fn open_groups(ts: Seq<TokenView>) -> Option<Seq<char>>
    decreases ts.len(),
{
    if ts.len() == 0 {
        Some(Seq::empty())
    } else {
        match open_groups(ts.drop_last()) {
            None => None,
            Some(st) => match ts.last() {
                TokenView::Punct(c) => if is_opener(c) {
                    Some(st.push(c))
                } else if opener_of(c) is Some {
                    if st.len() > 0 && Some(st.last()) == opener_of(c) {
                        Some(st.drop_last())
                    } else {
                        None
                    }
                } else {
                    Some(st)
                },
                _ => Some(st),
            },
        }
    }
}

/// Whether every delimiter of the tokens is matched.
pub open spec fn delimiters_balanced(ts: Seq<TokenView>) -> bool {
    open_groups(ts) == Some(Seq::<char>::empty())
}

/// Once a closer fails to match, no later token mends it.
proof fn lemma_unbalanced_stays(ts: Seq<TokenView>, k: int)
    requires
        0 <= k <= ts.len(),
        open_groups(ts.subrange(0, k)) is None,
    ensures
        open_groups(ts) is None,
    decreases ts.len() - k,
{
    if k < ts.len() {
        assert(ts.subrange(0, k + 1).drop_last() =~= ts.subrange(0, k));
        lemma_unbalanced_stays(ts, k + 1);
    } else {
        assert(ts.subrange(0, k) =~= ts);
    }
}

/// Whether the delimiters of the tokens are matched.
pub fn check_delimiters(ts: &Vec<Token>) -> (r: bool)
    ensures
        r == delimiters_balanced(tviews(ts@)),
{
    let ghost tv = tviews(ts@);
    let mut st: Vec<char> = Vec::new();
    let mut i: usize = 0;
    while i < ts.len()
        invariant
            i <= ts.len(),
            tv == tviews(ts@),
            open_groups(tv.subrange(0, i as int)) == Some(st@),
        decreases ts.len() - i,
    {
        let ghost next = tv.subrange(0, i + 1);
        assert(next.drop_last() =~= tv.subrange(0, i as int));
        assert(next.last() == ts@[i as int]@);
        match &ts[i] {
            Token::Punct(c) => {
                let c = *c;
                if c == '(' || c == '[' || c == '{' {
                    st.push(c);
                } else if c == ')' || c == ']' || c == '}' {
                    let want = if c == ')' {
                        '('
                    } else if c == ']' {
                        '['
                    } else {
                        '{'
                    };
                    if st.len() == 0 || st[st.len() - 1] != want {
                        proof {
                            lemma_unbalanced_stays(tv, i as int + 1);
                        }
                        return false;
                    }
                    st.pop();
                }
            },
            _ => {},
        }
        i = i + 1;
    }
    assert(tv.subrange(0, ts.len() as int) =~= tv);
    if st.len() == 0 {
        assert(st@ =~= Seq::<char>::empty());
    }
    st.len() == 0
}

fn is_ident_start(c: char) -> (r: bool)
    ensures
        r == ident_start(c),
{
    c == '_' || ('a' <= c && c <= 'z') || ('A' <= c && c <= 'Z') || (c as u32) >= 128
}

fn is_ident_char(c: char) -> (r: bool)
    ensures
        r == ident_char(c),
{
    is_ident_start(c) || ('0' <= c && c <= '9')
}

fn ident_end_of(cs: &Vec<char>, i: usize) -> (r: usize)
    requires
        i <= cs.len(),
    ensures
        r == ident_end(cs@, i as int),
{
    let mut j = i;
    while j < cs.len() && is_ident_char(cs[j])
        invariant
            i <= j <= cs.len(),
            ident_end(cs@, i as int) == ident_end(cs@, j as int),
        decreases cs.len() - j,
    {
        j = j + 1;
    }
    j
}

fn number_end_of(cs: &Vec<char>, i: usize) -> (r: usize)
    requires
        i <= cs.len(),
    ensures
        r == number_end(cs@, i as int),
{
    let mut j = i;
    while j < cs.len() && (is_ident_char(cs[j]) || cs[j] == '.')
        invariant
            i <= j <= cs.len(),
            number_end(cs@, i as int) == number_end(cs@, j as int),
        decreases cs.len() - j,
    {
        j = j + 1;
    }
    j
}

fn line_end_of(cs: &Vec<char>, i: usize) -> (r: usize)
    requires
        i <= cs.len(),
    ensures
        r == line_end(cs@, i as int),
{
    let mut j = i;
    while j < cs.len() && cs[j] != '\n'
        invariant
            i <= j <= cs.len(),
            line_end(cs@, i as int) == line_end(cs@, j as int),
        decreases cs.len() - j,
    {
        j = j + 1;
    }
    j
}

fn hashes_end_of(cs: &Vec<char>, i: usize) -> (r: usize)
    requires
        i <= cs.len(),
    ensures
        r == hashes_end(cs@, i as int),
{
    let mut j = i;
    while j < cs.len() && cs[j] == '#'
        invariant
            i <= j <= cs.len(),
            hashes_end(cs@, i as int) == hashes_end(cs@, j as int),
        decreases cs.len() - j,
    {
        j = j + 1;
    }
    j
}

fn comment_end_of(cs: &Vec<char>, i: usize) -> (r: Option<usize>)
    requires
        i <= cs.len(),
    ensures
        match r {
            Some(e) => comment_end(cs@, i as int, 1) == Some(e as int),
            None => comment_end(cs@, i as int, 1) is None,
        },
{
    let n = cs.len();
    let mut j = i;
    let mut depth: usize = 1;
    loop
        invariant
            i <= j <= n,
            n == cs.len(),
            depth <= j + 1,
            comment_end(cs@, i as int, 1) == comment_end(cs@, j as int, depth as nat),
        decreases n - j,
    {
        if depth == 0 {
            return Some(j);
        }
        if j >= n {
            return None;
        }
        if j + 1 < n && cs[j] == '/' && cs[j + 1] == '*' {
            depth = depth + 1;
            j = j + 2;
        } else if j + 1 < n && cs[j] == '*' && cs[j + 1] == '/' {
            depth = depth - 1;
            j = j + 2;
        } else {
            j = j + 1;
        }
    }
}

fn string_scan_of(cs: &Vec<char>, i: usize) -> (r: Option<(usize, Vec<char>)>)
    requires
        i <= cs.len(),
    ensures
        match r {
            Some((e, b)) => string_scan(cs@, i as int, Seq::empty()) == Some((e as int, b@)),
            None => string_scan(cs@, i as int, Seq::empty()) is None,
        },
{
    let n = cs.len();
    let mut j = i;
    let mut body: Vec<char> = Vec::new();
    loop
        invariant
            i <= j <= n,
            n == cs.len(),
            string_scan(cs@, i as int, Seq::empty()) == string_scan(cs@, j as int, body@),
        decreases n - j,
    {
        if j >= n {
            return None;
        }
        if cs[j] == '\\' {
            if j + 1 < n {
                let d = cs[j + 1];
                let u = if d == 'n' {
                    '\n'
                } else if d == 't' {
                    '\t'
                } else if d == 'r' {
                    '\r'
                } else if d == '0' {
                    '\0'
                } else {
                    d
                };
                body.push(u);
                j = j + 2;
            } else {
                return None;
            }
        } else if cs[j] == '"' {
            return Some((j + 1, body));
        } else {
            body.push(cs[j]);
            j = j + 1;
        }
    }
}

fn raw_close_at(cs: &Vec<char>, k: usize, h: usize) -> (r: bool)
    ensures
        r == raw_close(cs@, k as int, h as int),
{
    if k >= cs.len() || h >= cs.len() - k || cs[k] != '"' {
        return false;
    }
    let mut m: usize = 1;
    while m <= h
        invariant
            1 <= m <= h + 1,
            k + h < cs.len(),
            forall|q: int| k < q < k + m ==> #[trigger] cs@[q] == '#',
        decreases h + 1 - m,
    {
        if cs[k + m] != '#' {
            return false;
        }
        m = m + 1;
    }
    true
}

fn raw_end_of(cs: &Vec<char>, k: usize, h: usize) -> (r: Option<usize>)
    ensures
        match r {
            Some(e) => raw_end(cs@, k as int, h as int) == Some(e as int),
            None => raw_end(cs@, k as int, h as int) is None,
        },
{
    let mut j = k;
    while j < cs.len()
        invariant
            k <= j,
            raw_end(cs@, k as int, h as int) == raw_end(cs@, j as int, h as int),
        decreases cs.len() - j,
    {
        if raw_close_at(cs, j, h) {
            return Some(j);
        }
        j = j + 1;
    }
    None
}

fn quote_from_of(cs: &Vec<char>, k: usize) -> (r: Option<usize>)
    ensures
        match r {
            Some(e) => quote_from(cs@, k as int) == Some(e as int),
            None => quote_from(cs@, k as int) is None,
        },
{
    let mut j = k;
    while j < cs.len()
        invariant
            k <= j,
            quote_from(cs@, k as int) == quote_from(cs@, j as int),
        decreases cs.len() - j,
    {
        if cs[j] == '\'' {
            return Some(j);
        }
        j = j + 1;
    }
    None
}

fn raw_open_of(cs: &Vec<char>, i: usize) -> (r: Option<(usize, usize)>)
    requires
        i < cs.len(),
    ensures
        match r {
            Some((q, p)) => raw_open(cs@, i as int) == Some(q as int) && p as int == raw_prefix(
                cs@,
                i as int,
            ) && i + p <= q < cs.len(),
            None => raw_open(cs@, i as int) is None,
        },
{
    let p: usize = if cs[i] == 'r' {
        1
    } else if i + 1 < cs.len() && cs[i] == 'b' && cs[i + 1] == 'r' {
        2
    } else {
        0
    };
    if p == 0 {
        return None;
    }
    let q = hashes_end_of(cs, i + p);
    proof {
        lemma_hashes_end(cs@, i + p);
    }
    if q < cs.len() && cs[q] == '"' {
        Some((q, p))
    } else {
        None
    }
}

/// The string of the characters `a..b`.
fn slice_string(cs: &Vec<char>, a: usize, b: usize) -> (r: String)
    requires
        a <= b <= cs.len(),
    ensures
        r@ == cs@.subrange(a as int, b as int),
{
    let mut r = String::new();
    let mut j = a;
    while j < b
        invariant
            a <= j <= b,
            b <= cs.len(),
            r@ == cs@.subrange(a as int, j as int),
        decreases b - j,
    {
        let c = char_string(cs[j]);
        r.append(c.as_str());
        assert(r@ =~= cs@.subrange(a as int, j + 1));
        j = j + 1;
    }
    r
}

/// Splits source text into tokens, dropping white space and comments, and
/// decoding the simple escapes of string literals.
pub fn tokenize(text: &str) -> (r: Result<Vec<Token>, SourceError>)
    ensures
        match r {
            Ok(ts) => lexed(text@) == Ok::<Seq<TokenView>, SourceError>(tviews(ts@)),
            Err(e) => lexed(text@) == Err::<Seq<TokenView>, SourceError>(e),
        },
{
    let cs = chars_of(text);
    let n = cs.len();
    let mut ts: Vec<Token> = Vec::new();
    let mut i: usize = 0;
    assert(tviews(ts@) =~= Seq::empty());
    while i < n
        invariant
            n == cs.len(),
            cs@ == text@,
            i <= n,
            lex_from(cs@, 0, Seq::empty()) == lex_from(cs@, i as int, tviews(ts@)),
        decreases n - i,
    {
        proof {
            lemma_step_advances(cs@, i as int);
        }
        let ghost acc = tviews(ts@);
        let c = cs[i];
        let raw = raw_open_of(&cs, i);
        let mut tok: Option<Token> = None;
        let next: usize;
        if c == ' ' || c == '\t' || c == '\n' || c == '\r' {
            next = i + 1;
        } else if c == '/' && i + 1 < n && cs[i + 1] == '/' {
            next = line_end_of(&cs, i + 2);
        } else if c == '/' && i + 1 < n && cs[i + 1] == '*' {
            match comment_end_of(&cs, i + 2) {
                None => {
                    return Err(SourceError::UnterminatedComment);
                },
                Some(e) => {
                    next = e;
                },
            }
        } else if raw.is_some() {
            let (q, p) = raw.unwrap();
            let h = q - i - p;
            proof {
                lemma_raw_end(cs@, q + 1, h as int);
            }
            match raw_end_of(&cs, q + 1, h) {
                None => {
                    return Err(SourceError::UnterminatedLiteral);
                },
                Some(k) => {
                    tok = Some(Token::Str(slice_string(&cs, q + 1, k)));
                    next = k + 1 + h;
                },
            }
        } else if is_ident_start(c) {
            let e = ident_end_of(&cs, i + 1);
            tok = Some(Token::Ident(slice_string(&cs, i, e)));
            next = e;
        } else if '0' <= c && c <= '9' {
            tok = Some(Token::Other);
            next = number_end_of(&cs, i + 1);
        } else if c == '"' {
            match string_scan_of(&cs, i + 1) {
                None => {
                    return Err(SourceError::UnterminatedLiteral);
                },
                Some((e, body)) => {
                    tok = Some(Token::Str(string_of(&body)));
                    next = e;
                },
            }
        } else if c == '\'' {
            tok = Some(Token::Other);
            if i + 1 < n && cs[i + 1] == '\\' {
                if i + 2 >= n {
                    return Err(SourceError::UnterminatedLiteral);
                }
                match quote_from_of(&cs, i + 3) {
                    None => {
                        return Err(SourceError::UnterminatedLiteral);
                    },
                    Some(e) => {
                        next = e + 1;
                    },
                }
            } else if i + 1 < n && i + 2 < n && cs[i + 2] == '\'' {
                next = i + 3;
            } else {
                next = i + 1;
            }
        } else {
            tok = Some(Token::Punct(c));
            next = i + 1;
        }
        assert(lex_step(cs@, i as int) == Ok::<(int, Option<TokenView>), SourceError>(
            (
                next as int,
                match tok {
                    Some(t) => Some(t@),
                    None => None,
                },
            ),
        ));
        match tok {
            Some(t) => {
                proof {
                    lemma_tviews_push(ts@, t);
                }
                ts.push(t);
            },
            None => {},
        }
        i = next;
    }
    if !check_delimiters(&ts) {
        return Err(SourceError::UnbalancedDelimiter);
    }
    Ok(ts)
}

} // verus!
