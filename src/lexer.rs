use vstd::prelude::*;
use vstd::slice::slice_subrange;

use crate::text::{chars_of, string_of, trim_bounds, trimmed};
use crate::token::{toks_view, Tok, Token, TokenizeError};

verus! {

/// The white space that separates tokens and attributes: space, tab, newline, carriage return.
pub open spec fn is_space(c: char) -> bool {
    c == ' ' || c == '\t' || c == '\n' || c == '\r'
}

fn is_space_char(c: char) -> (r: bool)
    ensures
        r == is_space(c),
{
    c == ' ' || c == '\t' || c == '\n' || c == '\r'
}

/// The first index at or after `i` that holds `c`, or the length of `s` if there is none.
pub open spec fn find_char(s: Seq<char>, i: int, c: char) -> int
    decreases s.len() - i,
{
    if i >= s.len() || s[i] == c {
        i
    } else {
        find_char(s, i + 1, c)
    }
}

/// Where a tag name that starts at `i` ends: at white space, `>`, `/`, or the end of the text.
pub open spec fn name_end(s: Seq<char>, i: int) -> int
    decreases s.len() - i,
{
    if i >= s.len() || is_space(s[i]) || s[i] == '>' || s[i] == '/' {
        i
    } else {
        name_end(s, i + 1)
    }
}

/// `s` with the white space taken out.
pub open spec fn drop_spaces(s: Seq<char>) -> Seq<char>
    decreases s.len(),
{
    if s.len() == 0 {
        s
    } else if is_space(s.last()) {
        drop_spaces(s.drop_last())
    } else {
        drop_spaces(s.drop_last()).push(s.last())
    }
}

/// The outcome of lexing one construct: its tokens and the index just after it.
pub type Lexed = Result<(Seq<Tok>, int), TokenizeError>;

/// An attribute `name="value"` (or with `'`) that starts at `k`.
pub open spec fn lex_attribute(s: Seq<char>, k: int) -> Result<(Tok, int), TokenizeError> {
    let e = find_char(s, k, '=');
    if e + 1 >= s.len() {
        Err(TokenizeError::UnexpectedEndOfInput)
    } else if s[e + 1] != '"' && s[e + 1] != '\'' {
        Err(TokenizeError::MalformedAttribute)
    } else {
        let v = find_char(s, e + 2, s[e + 1]);
        if v >= s.len() {
            Err(TokenizeError::UnexpectedEndOfInput)
        } else {
            Ok((Tok::Attribute(drop_spaces(s.subrange(k, e)), s.subrange(e + 2, v)), v + 1))
        }
    }
}

/// The attribute list of an open tag from `k` on, after the attributes `acc` already read.
pub open spec fn lex_attributes(s: Seq<char>, k: int, name: Seq<char>, acc: Seq<Tok>) -> Lexed
    decreases s.len() - k,
{
    if k < 0 || k >= s.len() {
        Err(TokenizeError::UnexpectedEndOfInput)
    } else if s[k] == '>' {
        Ok((acc.push(Tok::OpenTag(name)), k + 1))
    } else if s[k] == '/' {
        if k + 1 < s.len() && s[k + 1] == '>' {
            Ok((acc.push(Tok::SelfClosingTag(name)), k + 2))
        } else {
            Err(TokenizeError::MalformedTag)
        }
    } else if is_space(s[k]) {
        lex_attributes(s, k + 1, name, acc)
    } else {
        match lex_attribute(s, k) {
            Err(e) => Err(e),
            Ok((t, j)) => if k < j <= s.len() {
                lex_attributes(s, j, name, acc.push(t))
            } else {
                Err(TokenizeError::UnexpectedEndOfInput)
            },
        }
    }
}

/// An open or self-closing tag whose name starts at `i`, just after `<`.
pub open spec fn lex_open_tag(s: Seq<char>, i: int) -> Lexed {
    let j = name_end(s, i);
    let name = s.subrange(i, j);
    if j >= s.len() {
        Err(TokenizeError::UnexpectedEndOfInput)
    } else if is_space(s[j]) {
        lex_attributes(s, j + 1, name, seq![])
    } else if s[j] == '>' {
        Ok((seq![Tok::OpenTag(name)], j + 1))
    } else if j + 1 < s.len() && s[j + 1] == '>' {
        Ok((seq![Tok::SelfClosingTag(name)], j + 2))
    } else {
        Err(TokenizeError::MalformedTag)
    }
}

/// A close tag whose `/` stands at `i`.
pub open spec fn lex_close_tag(s: Seq<char>, i: int) -> Lexed {
    let j = find_char(s, i + 1, '>');
    if j >= s.len() {
        Err(TokenizeError::UnexpectedEndOfInput)
    } else {
        Ok((seq![Tok::CloseTag(s.subrange(i + 1, j))], j + 1))
    }
}

/// The body of a comment from `p` on, after the characters `content`; `last` is the
/// character read just before `p` (a space at the start). It ends at the first `--`
/// that is followed at once by `>`.
pub open spec fn lex_comment_body(s: Seq<char>, p: int, content: Seq<char>, last: char) -> Lexed
    decreases s.len() - p,
{
    if p < 0 || p >= s.len() {
        Err(TokenizeError::UnexpectedEndOfInput)
    } else {
        let read = content.push(s[p]);
        if last == '-' && s[p] == '-' && p + 1 < s.len() && s[p + 1] == '>' {
            Ok((seq![Tok::Comment(trimmed(read.drop_last().drop_last()))], p + 2))
        } else {
            lex_comment_body(s, p + 1, read, s[p])
        }
    }
}

/// A comment whose `!` stands at `i`.
pub open spec fn lex_comment(s: Seq<char>, i: int) -> Lexed {
    if i + 2 < s.len() && s[i + 1] == '-' && s[i + 2] == '-' {
        lex_comment_body(s, i + 3, seq![], ' ')
    } else {
        Err(TokenizeError::MalformedTag)
    }
}

/// The rest of an XML declaration from `p` on, up to the first `?>`.
pub open spec fn lex_declaration(s: Seq<char>, p: int) -> Lexed
    decreases s.len() - p,
{
    if p < 0 || p >= s.len() {
        Err(TokenizeError::UnexpectedEndOfInput)
    } else if s[p] == '?' && p + 1 < s.len() && s[p + 1] == '>' {
        Ok((seq![Tok::XmlDeclaration], p + 2))
    } else {
        lex_declaration(s, p + 1)
    }
}

/// The construct that starts with the `<` at `i`.
pub open spec fn lex_tag(s: Seq<char>, i: int) -> Lexed {
    if i + 1 >= s.len() {
        Err(TokenizeError::UnexpectedEndOfInput)
    } else if s[i + 1] == '/' {
        lex_close_tag(s, i + 1)
    } else if s[i + 1] == '!' {
        lex_comment(s, i + 1)
    } else if s[i + 1] == '?' {
        lex_declaration(s, i + 2)
    } else {
        lex_open_tag(s, i + 1)
    }
}

/// The tokens of `s` from `i` on, after the tokens `acc` already emitted.
pub open spec fn lex_from(s: Seq<char>, i: int, acc: Seq<Tok>) -> Result<Seq<Tok>, TokenizeError>
    decreases s.len() - i,
{
    if i < 0 || i >= s.len() {
        Ok(acc.push(Tok::EndOfFile))
    } else if s[i] == '<' {
        match lex_tag(s, i) {
            Err(e) => Err(e),
            Ok((ts, j)) => if i < j <= s.len() {
                lex_from(s, j, acc + ts)
            } else {
                Err(TokenizeError::UnexpectedEndOfInput)
            },
        }
    } else if is_space(s[i]) {
        lex_from(s, i + 1, acc)
    } else {
        let j = find_char(s, i, '<');
        let t = trimmed(s.subrange(i, j));
        if i < j <= s.len() {
            lex_from(s, j, if t.len() > 0 { acc.push(Tok::Text(t)) } else { acc })
        } else {
            Err(TokenizeError::UnexpectedEndOfInput)
        }
    }
}

/// The token sequence of a whole text, or the error that stops it.
pub open spec fn lex(s: Seq<char>) -> Result<Seq<Tok>, TokenizeError> {
    lex_from(s, 0, seq![])
}

/// The value of what an exec lexing step returns.
pub open spec fn lexed_view(r: Result<(Vec<Token>, usize), TokenizeError>) -> Lexed {
    match r {
        Ok((v, j)) => Ok((toks_view(v@), j as int)),
        Err(e) => Err(e),
    }
}

/// The value of what `tokenize` returns.
pub open spec fn tokens_view(r: Result<Vec<Token>, TokenizeError>) -> Result<
    Seq<Tok>,
    TokenizeError,
> {
    match r {
        Ok(v) => Ok(toks_view(v@)),
        Err(e) => Err(e),
    }
}

proof fn lemma_toks_view_push(v: Seq<Token>, t: Token)
    ensures
        toks_view(v.push(t)) == toks_view(v).push(t@),
{
    assert(toks_view(v.push(t)) =~= toks_view(v).push(t@));
}

fn text_between(chars: &Vec<char>, from: usize, to: usize) -> (r: String)
    requires
        from <= to <= chars@.len(),
    ensures
        r@ == chars@.subrange(from as int, to as int),
{
    string_of(slice_subrange(chars.as_slice(), from, to))
}

/// Index of the first `c` at or after `from`, or the length if there is none.
fn scan_to(chars: &Vec<char>, from: usize, c: char) -> (r: usize)
    requires
        from <= chars@.len(),
    ensures
        r as int == find_char(chars@, from as int, c),
        from <= r <= chars@.len(),
        from < chars@.len() && chars@[from as int] != c ==> from < r,
{
    let mut i: usize = from;
    while i < chars.len() && chars[i] != c
        invariant
            from <= i <= chars@.len(),
            find_char(chars@, from as int, c) == find_char(chars@, i as int, c),
        decreases chars@.len() - i,
    {
        i = i + 1;
    }
    i
}

fn parse_attribute(chars: &Vec<char>, start: usize) -> (r: Result<(Token, usize), TokenizeError>)
    requires
        start < chars@.len(),
    ensures
        match r {
            Ok((t, j)) => lex_attribute(chars@, start as int) == Ok::<(Tok, int), TokenizeError>(
                (t@, j as int),
            ) && start < j <= chars@.len(),
            Err(e) => lex_attribute(chars@, start as int) == Err::<(Tok, int), TokenizeError>(e),
        },
{
    let mut name: Vec<char> = Vec::new();
    let mut i: usize = start;
    while i < chars.len() && chars[i] != '='
        invariant
            start <= i <= chars@.len(),
            find_char(chars@, start as int, '=') == find_char(chars@, i as int, '='),
            name@ == drop_spaces(chars@.subrange(start as int, i as int)),
        decreases chars@.len() - i,
    {
        let ghost before = chars@.subrange(start as int, i as int);
        if !is_space_char(chars[i]) {
            name.push(chars[i]);
        }
        proof {
            let after = chars@.subrange(start as int, i + 1);
            assert(after.drop_last() =~= before);
            assert(after.last() == chars@[i as int]);

        }
        i = i + 1;
    }
    if i >= chars.len() || i + 1 >= chars.len() {
        return Err(TokenizeError::UnexpectedEndOfInput);
    }
    let quote = chars[i + 1];
    if quote != '"' && quote != '\'' {
        return Err(TokenizeError::MalformedAttribute);
    }
    let end = scan_to(chars, i + 2, quote);
    if end >= chars.len() {
        return Err(TokenizeError::UnexpectedEndOfInput);
    }
    let n = string_of(name.as_slice());
    let v = text_between(chars, i + 2, end);
    Ok((Token::Attribute(n, v), end + 1))
}

fn parse_open_tag_with_attributes(chars: &Vec<char>, start: usize) -> (r: Result<
    (Vec<Token>, usize),
    TokenizeError,
>)
    requires
        start <= chars@.len(),
    ensures
        lexed_view(r) == lex_open_tag(chars@, start as int),
        r is Ok ==> start < (r->Ok_0).1 <= chars@.len(),
{
    let mut j: usize = start;
    while j < chars.len() && !is_space_char(chars[j]) && chars[j] != '>' && chars[j] != '/'
        invariant
            start <= j <= chars@.len(),
            name_end(chars@, start as int) == name_end(chars@, j as int),
        decreases chars@.len() - j,
    {
        j = j + 1;
    }
    if j >= chars.len() {
        return Err(TokenizeError::UnexpectedEndOfInput);
    }
    let name = text_between(chars, start, j);
    let mut tokens: Vec<Token> = Vec::new();
    if chars[j] == '>' {
        tokens.push(Token::OpenTag(name));
        proof {
            assert(toks_view(tokens@) =~= seq![Tok::OpenTag(name@)]);
        }
        return Ok((tokens, j + 1));
    }
    if chars[j] == '/' {
        if j + 1 < chars.len() && chars[j + 1] == '>' {
            tokens.push(Token::SelfClosingTag(name));
            proof {
                assert(toks_view(tokens@) =~= seq![Tok::SelfClosingTag(name@)]);
            }
            return Ok((tokens, j + 2));
        }
        return Err(TokenizeError::MalformedTag);
    }
    let ghost s = chars@;
    let ghost whole = lex_attributes(s, j + 1, name@, seq![]);
    assert(lex_open_tag(s, start as int) == whole);
    let mut k: usize = j + 1;
    proof {
        assert(toks_view(tokens@) =~= seq![]);
    }
    while k < chars.len()
        invariant
            start < k <= chars@.len(),
            s == chars@,
            whole == lex_attributes(s, k as int, name@, toks_view(tokens@)),
            lex_open_tag(s, start as int) == whole,
        decreases chars@.len() - k,
    {
        let ch = chars[k];
        if ch == '>' {
            let ghost before = tokens@;
            tokens.push(Token::OpenTag(name));
            proof {
                lemma_toks_view_push(before, Token::OpenTag(name));
            }
            return Ok((tokens, k + 1));
        } else if ch == '/' {
            if k + 1 < chars.len() && chars[k + 1] == '>' {
                let ghost before = tokens@;
                tokens.push(Token::SelfClosingTag(name));
                proof {
                    lemma_toks_view_push(before, Token::SelfClosingTag(name));
                }
                return Ok((tokens, k + 2));
            }
            return Err(TokenizeError::MalformedTag);
        } else if is_space_char(ch) {
            k = k + 1;
        } else {
            match parse_attribute(chars, k) {
                Ok((t, next)) => {
                    let ghost before = tokens@;
                    tokens.push(t);
                    proof {
                        lemma_toks_view_push(before, t);
                    }
                    k = next;
                },
                Err(e) => {
                    return Err(e);
                },
            }
        }
    }
    Err(TokenizeError::UnexpectedEndOfInput)
}

/// The value of a lexing step that yields one token.
pub open spec fn single_view(r: Result<(Token, usize), TokenizeError>) -> Lexed {
    match r {
        Ok((t, j)) => Ok((seq![t@], j as int)),
        Err(e) => Err(e),
    }
}

fn parse_close_tag(chars: &Vec<char>, slash: usize) -> (r: Result<(Token, usize), TokenizeError>)
    requires
        slash < chars@.len(),
    ensures
        single_view(r) == lex_close_tag(chars@, slash as int),
        r is Ok ==> slash < (r->Ok_0).1 <= chars@.len(),
{
    assert(chars@.len() == chars.len());
    let end = scan_to(chars, slash + 1, '>');
    if end >= chars.len() {
        return Err(TokenizeError::UnexpectedEndOfInput);
    }
    let name = text_between(chars, slash + 1, end);
    Ok((Token::CloseTag(name), end + 1))
}

fn parse_comment(chars: &Vec<char>, bang: usize) -> (r: Result<(Token, usize), TokenizeError>)
    requires
        bang < chars@.len(),
    ensures
        single_view(r) == lex_comment(chars@, bang as int),
        r is Ok ==> bang < (r->Ok_0).1 <= chars@.len(),
{
    if !(chars.len() - bang > 2 && chars[bang + 1] == '-' && chars[bang + 2] == '-') {
        return Err(TokenizeError::MalformedTag);
    }
    let ghost s = chars@;
    let ghost whole = lex_comment_body(s, bang + 3, seq![], ' ');
    assert(lex_comment(s, bang as int) == whole);
    let mut comment: Vec<char> = Vec::new();
    let mut last: char = ' ';
    let mut p: usize = bang + 3;
    while p < chars.len()
        invariant
            bang < p <= chars@.len(),
            s == chars@,
            whole == lex_comment_body(s, p as int, comment@, last),
            lex_comment(s, bang as int) == whole,
            comment@.len() > 0 || last == ' ',
        decreases chars@.len() - p,
    {
        let ch = chars[p];
        comment.push(ch);
        let ghost read = comment@;
        if last == '-' && ch == '-' && chars.len() - p > 1 && chars[p + 1] == '>' {
            comment.pop();
            comment.pop();
            assert(comment@ == read.drop_last().drop_last());
            let (a, b) = trim_bounds(&comment, 0, comment.len());
            proof {
                assert(comment@.subrange(0, comment@.len() as int) =~= comment@);
            }
            let content = text_between(&comment, a, b);
            return Ok((Token::Comment(content), p + 2));
        }
        last = ch;
        p = p + 1;
    }
    Err(TokenizeError::UnexpectedEndOfInput)
}

fn parse_xml_declaration(chars: &Vec<char>, start: usize) -> (r: Result<
    (Token, usize),
    TokenizeError,
>)
    requires
        start <= chars@.len(),
    ensures
        single_view(r) == lex_declaration(chars@, start as int),
        r is Ok ==> start < (r->Ok_0).1 <= chars@.len(),
{
    let mut p: usize = start;
    while p < chars.len()
        invariant
            start <= p <= chars@.len(),
            lex_declaration(chars@, start as int) == lex_declaration(chars@, p as int),
        decreases chars@.len() - p,
    {
        if chars[p] == '?' && chars.len() - p > 1 && chars[p + 1] == '>' {
            return Ok((Token::XmlDeclaration, p + 2));
        }
        p = p + 1;
    }
    Err(TokenizeError::UnexpectedEndOfInput)
}

fn one_token(r: Result<(Token, usize), TokenizeError>) -> (out: Result<
    (Vec<Token>, usize),
    TokenizeError,
>)
    ensures
        lexed_view(out) == single_view(r),
        out is Ok ==> r is Ok && (out->Ok_0).1 == (r->Ok_0).1,
{
    match r {
        Ok((t, j)) => {
            let mut v: Vec<Token> = Vec::new();
            v.push(t);
            proof {
                assert(toks_view(v@) =~= seq![t@]);
            }
            Ok((v, j))
        },
        Err(e) => Err(e),
    }
}

fn parse_tag_with_attributes(chars: &Vec<char>, lt: usize) -> (r: Result<
    (Vec<Token>, usize),
    TokenizeError,
>)
    requires
        lt < chars@.len(),
    ensures
        lexed_view(r) == lex_tag(chars@, lt as int),
        r is Ok ==> lt < (r->Ok_0).1 <= chars@.len(),
{
    if chars.len() - lt < 2 {
        return Err(TokenizeError::UnexpectedEndOfInput);
    }
    let next = chars[lt + 1];
    if next == '/' {
        one_token(parse_close_tag(chars, lt + 1))
    } else if next == '!' {
        one_token(parse_comment(chars, lt + 1))
    } else if next == '?' {
        one_token(parse_xml_declaration(chars, lt + 2))
    } else {
        parse_open_tag_with_attributes(chars, lt + 1)
    }
}

/// The text that starts at `start` and runs up to the next `<`, trimmed, and where it ends.
fn parse_text(chars: &Vec<char>, start: usize) -> (r: (String, usize))
    requires
        start <= chars@.len(),
    ensures
        r.1 as int == find_char(chars@, start as int, '<'),
        start <= r.1 <= chars@.len(),
        r.0@ == trimmed(chars@.subrange(start as int, r.1 as int)),
        start < chars@.len() && chars@[start as int] != '<' ==> start < r.1,
{
    let end = scan_to(chars, start, '<');
    let (a, b) = trim_bounds(chars, start, end);
    (text_between(chars, a, b), end)
}

/// Splits a document into tokens, ending with `EndOfFile`, or names the first error.
pub fn tokenize(xml_string: &str) -> (r: Result<Vec<Token>, TokenizeError>)
    ensures
        tokens_view(r) == lex(xml_string@),
{
    let chars = chars_of(xml_string);
    let ghost s = chars@;
    let mut tokens: Vec<Token> = Vec::new();
    let mut i: usize = 0;
    proof {
        assert(toks_view(tokens@) =~= seq![]);
    }
    while i < chars.len()
        invariant
            i <= chars@.len(),
            s == chars@,
            s == xml_string@,
            lex(s) == lex_from(s, i as int, toks_view(tokens@)),
        decreases chars@.len() - i,
    {
        let ch = chars[i];
        if ch == '<' {
            match parse_tag_with_attributes(&chars, i) {
                Ok((ts, j)) => {
                    let mut ts = ts;
                    let ghost before = tokens@;
                    let ghost added = ts@;
                    tokens.append(&mut ts);
                    proof {
                        assert(toks_view(tokens@) =~= toks_view(before) + toks_view(added));
                    }
                    i = j;
                },
                Err(e) => {
                    return Err(e);
                },
            }
        } else if is_space_char(ch) {
            i = i + 1;
        } else {
            let (text, end) = parse_text(&chars, i);
            if !text.as_str().is_empty() {
                let ghost before = tokens@;
                tokens.push(Token::Text(text));
                proof {
                    lemma_toks_view_push(before, Token::Text(text));
                }
            }
            i = end;
        }
    }
    let ghost before = tokens@;
    tokens.push(Token::EndOfFile);
    proof {
        lemma_toks_view_push(before, Token::EndOfFile);
    }
    Ok(tokens)
}

} // verus!
