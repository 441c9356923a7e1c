//! The scanner: turns source text into classified tokens, ending with one
//! end-of-input token.
use vstd::prelude::*;

verus! {

#[derive(Debug, Clone, Copy, PartialEq, Eq, Structural)]
pub enum TokenKind {
    IntNum,
    FloatNum,
    Symbol,
    Keyword,
    Ident,
    NewLine,
    Eof,
}

#[derive(Debug, PartialEq, Eq)]
pub struct Token {
    pub kind: TokenKind,
    pub val: String,
    pub line: u32,
}

#[derive(Debug, PartialEq, Eq)]
pub enum LexError {
    /// A character that starts no token, and its line.
    UnknownCharacter(char, u32),
    /// A `#` directive other than `include`, at this line.
    UnknownDirective(u32),
    /// The text that was required, and the line.
    Expected(String, u32),
}

/// Whether `a` and `b` hold the same characters.
pub fn same_text(a: &str, b: &str) -> (r: bool)
    ensures
        r == (a@ == b@),
{
    let n = a.unicode_len();
    if n != b.unicode_len() {
        return false;
    }
    let mut i: usize = 0;
    while i < n
        invariant
            n == a@.len(),
            n == b@.len(),
            i <= n,
            forall|j: int| 0 <= j < i ==> a@[j] == b@[j],
        decreases n - i,
    {
        if a.get_char(i) != b.get_char(i) {
            return false;
        }
        i += 1;
    }
    assert(a@ =~= b@);
    true
}

impl Token {
    pub fn matches(&self, s: &str) -> (r: bool)
        ensures
            r == (self.val@ == s@),
    {
        same_text(self.val.as_str(), s)
    }

    pub fn is_eof(&self) -> (r: bool)
        ensures
            r == (self.kind == TokenKind::Eof),
    {
        match self.kind {
            TokenKind::Eof => true,
            _ => false,
        }
    }

    pub fn is_ident(&self) -> (r: bool)
        ensures
            r == (self.kind == TokenKind::Ident),
    {
        match self.kind {
            TokenKind::Ident => true,
            _ => false,
        }
    }

    /// A copy of this token.
    pub fn duplicate(&self) -> (r: Token)
        ensures
            r == *self,
    {
        Token { kind: self.kind, val: self.val.clone(), line: self.line }
    }
}

pub open spec fn is_alpha(c: char) -> bool {
    ('a' <= c && c <= 'z') || ('A' <= c && c <= 'Z')
}

pub open spec fn is_digit(c: char) -> bool {
    '0' <= c && c <= '9'
}

pub open spec fn is_symbol_char(c: char) -> bool {
    c == '+' || c == '-' || c == '*' || c == '/' || c == '(' || c == ')' || c == '=' || c == '<'
        || c == '>' || c == '!' || c == '&' || c == ',' || c == ';' || c == '{' || c == '}'
        || c == '[' || c == ']'
}

pub open spec fn is_keyword(s: Seq<char>) -> bool {
    s == seq!['i', 'f'] || s == seq!['e', 'l', 's', 'e'] || s == seq!['f', 'o', 'r'] || s == seq![
        'w',
        'h',
        'i',
        'l',
        'e',
    ]
}

/// The two-character operators.
pub open spec fn is_double_symbol(a: char, b: char) -> bool {
    b == '=' && (a == '=' || a == '!' || a == '<' || a == '>')
}

fn is_alpha_char(c: char) -> (r: bool)
    ensures
        r == is_alpha(c),
{
    ('a' <= c && c <= 'z') || ('A' <= c && c <= 'Z')
}

fn is_digit_char(c: char) -> (r: bool)
    ensures
        r == is_digit(c),
{
    '0' <= c && c <= '9'
}

fn is_symbol(c: char) -> (r: bool)
    ensures
        r == is_symbol_char(c),
{
    c == '+' || c == '-' || c == '*' || c == '/' || c == '(' || c == ')' || c == '=' || c == '<'
        || c == '>' || c == '!' || c == '&' || c == ',' || c == ';' || c == '{' || c == '}'
        || c == '[' || c == ']'
}

pub struct Lexer<'a> {
    pub cur_line: u32,
    pub filepath: String,
    pub input: &'a str,
    /// The characters of `input`.
    pub chars: Vec<char>,
    /// Position of the next character to read.
    pub peek_pos: usize,
}

impl<'a> Lexer<'a> {
    pub open spec fn wf(&self) -> bool {
        &&& self.chars@ == self.input@
        &&& self.peek_pos <= self.chars@.len()
    }

    pub fn new(path: String, input: &'a str) -> (r: Lexer<'a>)
        ensures
            r.wf(),
            r.peek_pos == 0,
            r.cur_line == 0,
            r.filepath == path,
            r.input == input,
    {
        let n = input.unicode_len();
        let mut chars: Vec<char> = Vec::new();
        let mut i: usize = 0;
        while i < n
            invariant
                n == input@.len(),
                i <= n,
                chars@ == input@.subrange(0, i as int),
            decreases n - i,
        {
            chars.push(input.get_char(i));
            i += 1;
            assert(chars@ =~= input@.subrange(0, i as int));
        }
        assert(chars@ =~= input@);
        Lexer { cur_line: 0, filepath: path, input, chars, peek_pos: 0 }
    }

    pub fn get_filepath(&self) -> (r: String)
        ensures
            r == self.filepath,
    {
        self.filepath.clone()
    }

    /// The next character, consumed; `None` at the end of the input.
    pub fn peek_next(&mut self) -> (r: Option<char>)
        requires
            old(self).wf(),
        ensures
            final(self).wf(),
            final(self).chars == old(self).chars,
            final(self).input == old(self).input,
            final(self).cur_line == old(self).cur_line,
            old(self).peek_pos < old(self).chars@.len() ==> r == Some(old(self).chars@[old(self).peek_pos as int])
                && final(self).peek_pos == old(self).peek_pos + 1,
            old(self).peek_pos >= old(self).chars@.len() ==> r is None && final(self).peek_pos
                == old(self).peek_pos,
    {
        if self.peek_pos < self.chars.len() {
            let c = self.chars[self.peek_pos];
            self.peek_pos += 1;
            Some(c)
        } else {
            None
        }
    }

    /// Consumes up to `n` characters.
    pub fn advance_by(&mut self, n: usize)
        requires
            old(self).wf(),
        ensures
            final(self).wf(),
            final(self).chars == old(self).chars,
            final(self).input == old(self).input,
            final(self).cur_line == old(self).cur_line,
            final(self).peek_pos == vstd::math::min(
                old(self).peek_pos + n,
                old(self).chars@.len() as int,
            ),
    {
        let mut i: usize = 0;
        while i < n
            invariant
                self.wf(),
                self.chars == old(self).chars,
                self.input == old(self).input,
                self.cur_line == old(self).cur_line,
                i <= n,
                self.peek_pos == vstd::math::min(old(self).peek_pos + i, self.chars@.len() as int),
            decreases n - i,
        {
            self.peek_next();
            i += 1;
        }
    }

    /// Whether the unread input starts with `s`.
    pub fn starts_with(&self, s: &str) -> (r: bool)
        requires
            self.wf(),
        ensures
            r == (self.peek_pos + s@.len() <= self.chars@.len() && self.chars@.subrange(
                self.peek_pos as int,
                self.peek_pos + s@.len(),
            ) == s@),
    {
        let n = s.unicode_len();
        if n > self.chars.len() - self.peek_pos {
            return false;
        }
        let mut i: usize = 0;
        while i < n
            invariant
                self.wf(),
                n == s@.len(),
                n <= self.chars.len() - self.peek_pos,
                i <= n,
                forall|j: int| 0 <= j < i ==> self.chars@[self.peek_pos + j] == s@[j],
            decreases n - i,
        {
            if self.chars[self.peek_pos + i] != s.get_char(i) {
                return false;
            }
            i += 1;
        }
        assert(self.chars@.subrange(self.peek_pos as int, self.peek_pos + n) =~= s@);
        true
    }

    /// The text of the input between two positions.
    fn text(&self, from: usize, to: usize) -> (r: String)
        requires
            self.wf(),
            from <= to <= self.chars@.len(),
        ensures
            r@ == self.chars@.subrange(from as int, to as int),
    {
        String::from_str(self.input.substring_char(from, to))
    }

    /// Reads a symbol: one of `==`, `!=`, `<=`, `>=`, else one character.
    pub fn read_symbol(&mut self) -> (r: Token)
        requires
            old(self).wf(),
            old(self).peek_pos < old(self).chars@.len(),
        ensures
            final(self).wf(),
            final(self).chars == old(self).chars,
            final(self).input == old(self).input,
            final(self).cur_line == old(self).cur_line,
            r.kind == TokenKind::Symbol,
            r.line == old(self).cur_line,
            ({
                let p = old(self).peek_pos as int;
                let cs = old(self).chars@;
                if p + 1 < cs.len() && is_double_symbol(cs[p], cs[p + 1]) {
                    r.val@ == cs.subrange(p, p + 2) && final(self).peek_pos == p + 2
                } else {
                    r.val@ == seq![cs[p]] && final(self).peek_pos == p + 1
                }
            }),
    {
        let p = self.peek_pos;
        if p < self.chars.len() - 1 && self.chars[p + 1] == '=' {
            let a = self.chars[p];
            if a == '=' || a == '!' || a == '<' || a == '>' {
                self.advance_by(2);
                return Token { kind: TokenKind::Symbol, val: self.text(p, p + 2), line: self.cur_line };
            }
        }
        self.peek_next();
        let val = self.text(p, p + 1);
        assert(val@ =~= seq![self.chars@[p as int]]);
        Token { kind: TokenKind::Symbol, val, line: self.cur_line }
    }

    /// Counts a newline.
    pub fn read_newline(&mut self) -> (r: Token)
        ensures
            final(self).chars == old(self).chars,
            final(self).input == old(self).input,
            final(self).peek_pos == old(self).peek_pos,
            final(self).filepath == old(self).filepath,
            final(self).cur_line == if old(self).cur_line < u32::MAX {
                old(self).cur_line + 1
            } else {
                old(self).cur_line as int
            },
            r.kind == TokenKind::NewLine,
            r.val@.len() == 0,
            r.line == final(self).cur_line,
    {
        if self.cur_line < u32::MAX {
            self.cur_line += 1;
        }
        Token { kind: TokenKind::NewLine, val: String::new(), line: self.cur_line }
    }

    /// Consumes the longest run of characters from the current position
    /// that satisfy `keep`: letters and digits, or digits and dots.
    fn read_run(&mut self, digits_only: bool) -> (r: usize)
        requires
            old(self).wf(),
        ensures
            final(self).wf(),
            final(self).chars == old(self).chars,
            final(self).input == old(self).input,
            final(self).cur_line == old(self).cur_line,
            r == old(self).peek_pos,
            old(self).peek_pos <= final(self).peek_pos,
            forall|j: int|
                old(self).peek_pos <= j < final(self).peek_pos ==> run_char(
                    #[trigger] final(self).chars@[j],
                    digits_only,
                ),
            final(self).peek_pos == final(self).chars@.len() || !run_char(
                final(self).chars@[final(self).peek_pos as int],
                digits_only,
            ),
    {
        let start = self.peek_pos;
        let mut going = true;
        while going && self.peek_pos < self.chars.len()
            invariant
                !going ==> self.peek_pos < self.chars@.len() && !run_char(
                    self.chars@[self.peek_pos as int],
                    digits_only,
                ),
                self.wf(),
                self.chars == old(self).chars,
                self.input == old(self).input,
                self.cur_line == old(self).cur_line,
                start <= self.peek_pos,
                start == old(self).peek_pos,
                forall|j: int| start <= j < self.peek_pos ==> run_char(#[trigger] self.chars@[j], digits_only),
            decreases self.chars.len() - self.peek_pos + if going {
                1int
            } else {
                0int
            },
        {
            let c = self.chars[self.peek_pos];
            let keep = if digits_only {
                is_digit_char(c) || c == '.'
            } else {
                is_alpha_char(c) || is_digit_char(c)
            };
            if keep {
                self.peek_pos += 1;
            } else {
                going = false;
            }
        }
        start
    }

    /// Reads an identifier or keyword: the longest run of letters and digits.
    pub fn read_string_token(&mut self) -> (r: Token)
        requires
            old(self).wf(),
        ensures
            final(self).wf(),
            final(self).chars == old(self).chars,
            final(self).input == old(self).input,
            final(self).cur_line == old(self).cur_line,
            r.val@ == old(self).chars@.subrange(old(self).peek_pos as int, final(self).peek_pos as int),
            forall|j: int| 0 <= j < r.val@.len() ==> run_char(#[trigger] r.val@[j], false),
            final(self).peek_pos == final(self).chars@.len() || !run_char(
                final(self).chars@[final(self).peek_pos as int],
                false,
            ),
            old(self).peek_pos <= final(self).peek_pos,
            old(self).peek_pos < old(self).chars@.len() && run_char(
                old(self).chars@[old(self).peek_pos as int],
                false,
            ) ==> final(self).peek_pos > old(self).peek_pos,
            r.kind == if is_keyword(r.val@) {
                TokenKind::Keyword
            } else {
                TokenKind::Ident
            },
            r.line == old(self).cur_line,
    {
        let start = self.read_run(false);
        let val = self.text(start, self.peek_pos);
        let kind = if same_text(val.as_str(), "if") || same_text(val.as_str(), "else") || same_text(
            val.as_str(),
            "for",
        ) || same_text(val.as_str(), "while") {
            TokenKind::Keyword
        } else {
            TokenKind::Ident
        };
        proof {
            reveal_strlit("if");
            reveal_strlit("else");
            reveal_strlit("for");
            reveal_strlit("while");
            assert("if"@ =~= seq!['i', 'f']);
            assert("else"@ =~= seq!['e', 'l', 's', 'e']);
            assert("for"@ =~= seq!['f', 'o', 'r']);
            assert("while"@ =~= seq!['w', 'h', 'i', 'l', 'e']);
        }
        Token { kind, val, line: self.cur_line }
    }

    /// Reads a number: the longest run of digits and dots; with a dot it is a
    /// floating-point literal.
    pub fn read_num(&mut self) -> (r: Token)
        requires
            old(self).wf(),
        ensures
            final(self).wf(),
            final(self).chars == old(self).chars,
            final(self).input == old(self).input,
            final(self).cur_line == old(self).cur_line,
            r.val@ == old(self).chars@.subrange(old(self).peek_pos as int, final(self).peek_pos as int),
            forall|j: int| 0 <= j < r.val@.len() ==> run_char(#[trigger] r.val@[j], true),
            final(self).peek_pos == final(self).chars@.len() || !run_char(
                final(self).chars@[final(self).peek_pos as int],
                true,
            ),
            old(self).peek_pos <= final(self).peek_pos,
            old(self).peek_pos < old(self).chars@.len() && run_char(
                old(self).chars@[old(self).peek_pos as int],
                true,
            ) ==> final(self).peek_pos > old(self).peek_pos,
            r.kind == if r.val@.contains('.') {
                TokenKind::FloatNum
            } else {
                TokenKind::IntNum
            },
            r.line == old(self).cur_line,
    {
        let start = self.read_run(true);
        let mut is_float = false;
        let mut i = start;
        while i < self.peek_pos
            invariant
                self.wf(),
                start <= i <= self.peek_pos,
                is_float <==> exists|j: int| start <= j < i && self.chars@[j] == '.',
            decreases self.peek_pos - i,
        {
            if self.chars[i] == '.' {
                is_float = true;
            }
            i += 1;
        }
        let val = self.text(start, self.peek_pos);
        proof {
            if is_float {
                let j = choose|j: int| start <= j < self.peek_pos && self.chars@[j] == '.';
                assert(val@[j - start] == '.');
            }
            if val@.contains('.') {
                let k = choose|k: int| 0 <= k < val@.len() && val@[k] == '.';
                assert(self.chars@[start + k] == '.');
            }
        }
        let kind = if is_float {
            TokenKind::FloatNum
        } else {
            TokenKind::IntNum
        };
        Token { kind, val, line: self.cur_line }
    }
}

/// A character that can start a token or be skipped: no `#` directive and no
/// character the scanner does not know. (A dot is read only inside a number.)
pub open spec fn plain_char(c: char) -> bool {
    is_alpha(c) || is_digit(c) || is_symbol_char(c) || c == ' ' || c == '\t' || c == '\r'
        || c == '\n'
}

/// Every character of `cs` from `p` on is plain.
pub open spec fn plain_from(cs: Seq<char>, p: int) -> bool {
    forall|j: int| p <= j < cs.len() ==> plain_char(#[trigger] cs[j])
}

/// The characters that a run of an identifier (or, with `digits_only`, of a
/// number) may hold.
pub open spec fn run_char(c: char, digits_only: bool) -> bool {
    if digits_only {
        is_digit(c) || c == '.'
    } else {
        is_alpha(c) || is_digit(c)
    }
}

impl<'a> Lexer<'a> {
    /// The lexer changed only by reading forward.
    pub open spec fn moved_on(&self, next: &Lexer<'a>) -> bool {
        &&& next.wf()
        &&& next.chars == self.chars
        &&& next.input == self.input
        &&& self.peek_pos <= next.peek_pos
        &&& self.cur_line <= next.cur_line
    }

    /// Reads the next token, skipping blanks, newlines (counting them) and
    /// `#include` directives; at the end of the input, an end-of-input token.
    pub fn read_token(&mut self) -> (r: Result<Token, LexError>)
        requires
            old(self).wf(),
        ensures
            old(self).moved_on(final(self)),
            r matches Ok(t) ==> t.kind != TokenKind::NewLine,
            r matches Ok(t) ==> (t.kind == TokenKind::Eof ==> final(self).peek_pos
                == final(self).chars@.len() && t.val@.len() == 0),
            r matches Ok(t) ==> (t.kind != TokenKind::Eof ==> final(self).peek_pos > old(self).peek_pos
                && t.val@.len() > 0 && t.val@ == final(self).chars@.subrange(
                final(self).peek_pos - t.val@.len(),
                final(self).peek_pos as int,
            )),
            r matches Ok(t) ==> t.line == final(self).cur_line,
            plain_from(old(self).chars@, old(self).peek_pos as int) ==> r is Ok,
            old(self).cur_line <= final(self).cur_line,
            r matches Ok(t) ==> ((t.kind == TokenKind::Ident || t.kind == TokenKind::Keyword) ==> (t.kind
                == TokenKind::Keyword <==> is_keyword(t.val@))),
            r matches Ok(t) ==> (t.kind != TokenKind::Eof ==> {
                let c = t.val@[0];
                &&& (t.kind == TokenKind::Ident || t.kind == TokenKind::Keyword) <==> is_alpha(c)
                &&& (t.kind == TokenKind::IntNum || t.kind == TokenKind::FloatNum) <==> is_digit(c)
                &&& t.kind == TokenKind::Symbol <==> is_symbol_char(c)
            }),
        decreases old(self).chars@.len() - old(self).peek_pos, 0nat,
    {
        loop
            invariant
                old(self).moved_on(self),
                old(self).cur_line <= self.cur_line,
                plain_from(old(self).chars@, old(self).peek_pos as int) ==> plain_from(self.chars@, self.peek_pos as int),
            decreases self.chars@.len() - self.peek_pos,
        {
            if self.peek_pos >= self.chars.len() {
                return Ok(Token { kind: TokenKind::Eof, val: String::new(), line: self.cur_line });
            }
            let c = self.chars[self.peek_pos];
            if is_alpha_char(c) {
                return Ok(self.read_string_token());
            }
            if is_symbol(c) {
                let ghost p = self.peek_pos as int;
                let t = self.read_symbol();
                proof {
                    if self.peek_pos == p + 1 {
                        assert(t.val@ =~= self.chars@.subrange(p, p + 1));
                    }
                }
                return Ok(t);
            }
            if is_digit_char(c) {
                return Ok(self.read_num());
            }
            if c == ' ' || c == '\t' || c == '\r' {
                self.peek_next();
            } else if c == '\n' {
                self.peek_next();
                self.read_newline();
            } else if c == '#' {
                self.peek_next();
                self.read_directive()?;
            } else {
                return Err(LexError::UnknownCharacter(c, self.cur_line));
            }
        }
    }

    /// Reads a token that must be `s`.
    pub fn skip_token(&mut self, s: &str) -> (r: Result<(), LexError>)
        requires
            old(self).wf(),
        ensures
            old(self).moved_on(final(self)),
            r is Ok && s@.len() > 0 ==> final(self).peek_pos > old(self).peek_pos,
        decreases old(self).chars@.len() - old(self).peek_pos, 1nat,
    {
        let t = self.read_token()?;
        if !same_text(t.val.as_str(), s) {
            return Err(LexError::Expected(String::from_str(s), t.line));
        }
        Ok(())
    }

    /// Reads a directive after its `#`; only `include` is known.
    fn read_directive(&mut self) -> (r: Result<(), LexError>)
        requires
            old(self).wf(),
        ensures
            old(self).moved_on(final(self)),
        decreases old(self).chars@.len() - old(self).peek_pos, 1nat,
    {
        let t = self.read_token()?;
        if same_text(t.val.as_str(), "include") {
            proof {
                reveal_strlit("include");
            }
            self.read_include_directive()
        } else {
            Err(LexError::UnknownDirective(t.line))
        }
    }

    /// Reads `<name>` after `#include`; the file is not read.
    fn read_include_directive(&mut self) -> (r: Result<(), LexError>)
        requires
            old(self).wf(),
        ensures
            old(self).moved_on(final(self)),
        decreases old(self).chars@.len() - old(self).peek_pos, 2nat,
    {
        self.skip_token("<")?;
        let ghost s0 = *self;
        while self.peek_pos < self.chars.len() && self.chars[self.peek_pos] != '>'
            invariant
                old(self).moved_on(self),
            decreases self.chars@.len() - self.peek_pos,
        {
            self.peek_pos += 1;
        }
        if self.peek_pos >= self.chars.len() {
            return Err(LexError::Expected(String::from_str(">"), self.cur_line));
        }
        self.skip_token(">")
    }
}

/// Splits source text into tokens; the last one, and only it, marks the end
/// of the input.
pub fn tokenize(filepath: String, content: &str) -> (r: Result<Vec<Token>, LexError>)
    ensures
        plain_from(content@, 0) ==> r is Ok,
        r matches Ok(ts) ==> ts@.len() > 0 && ts@.last().kind == TokenKind::Eof && forall|i: int|
            0 <= i < ts@.len() - 1 ==> (#[trigger] ts@[i]).kind != TokenKind::Eof
                && ts@[i].kind != TokenKind::NewLine && ts@[i].val@.len() > 0,
{
    let mut lexer = Lexer::new(filepath, content);
    let mut tokens: Vec<Token> = Vec::new();
    loop
        invariant
            lexer.wf(),
            plain_from(content@, 0) ==> plain_from(lexer.chars@, lexer.peek_pos as int),
            forall|i: int|
                0 <= i < tokens@.len() ==> (#[trigger] tokens@[i]).kind != TokenKind::Eof
                    && tokens@[i].kind != TokenKind::NewLine && tokens@[i].val@.len() > 0,
        decreases lexer.chars@.len() - lexer.peek_pos,
    {
        let t = lexer.read_token()?;
        if t.is_eof() {
            tokens.push(t);
            return Ok(tokens);
        }
        tokens.push(t);
    }
}

} // verus!
