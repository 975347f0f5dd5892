//! A position-tracked cursor over one line of text: the shared parsing
//! primitive of the config and event-log grammars.

use vstd::prelude::*;
use vstd::string::StrSliceExecFns;
use vstd::string::StringExecFns;

use crate::chars::{
    char_eq_nc, chars_eq_no_case, is_space, is_space_char, push_char,
};
use crate::error::ParseError;

verus! {

pub type ParseResult<'a, T> = Result<(Buffer<'a>, T), ParseError>;

pub type ParseSuccess<'a> = Result<Buffer<'a>, ParseError>;

/// Number of whitespace characters at the front of `t`.
pub open spec fn leading_spaces(t: Seq<char>) -> nat
    decreases t.len(),
{
    if t.len() == 0 {
        0
    } else if !is_space_char(t[0]) {
        0
    } else {
        1 + leading_spaces(t.drop_first())
    }
}

/// Number of whitespace characters at the back of `t`.
pub open spec fn trailing_spaces(t: Seq<char>) -> nat
    decreases t.len(),
{
    if t.len() == 0 {
        0
    } else if !is_space_char(t.last()) {
        0
    } else {
        1 + trailing_spaces(t.drop_last())
    }
}

pub open spec fn trim_left_view(t: Seq<char>) -> Seq<char> {
    t.skip(leading_spaces(t) as int)
}

pub open spec fn trim_right_view(t: Seq<char>) -> Seq<char> {
    t.take((t.len() - trailing_spaces(t)) as int)
}

pub open spec fn trim_view(t: Seq<char>) -> Seq<char> {
    trim_right_view(trim_left_view(t))
}

/// `t` begins with `p`, character for character.
pub open spec fn starts_with_view(t: Seq<char>, p: Seq<char>) -> bool {
    p.len() <= t.len() && t.subrange(0, p.len() as int) == p
}

/// `t` begins with `p` up to ASCII case.
pub open spec fn starts_with_nc_view(t: Seq<char>, p: Seq<char>) -> bool {
    p.len() <= t.len() && forall|i: int| 0 <= i < p.len() ==> char_eq_nc(t[i], p[i])
}

/// Index of the first occurrence of `c` in `t`, or `t.len()` when absent.
pub open spec fn idx_of(t: Seq<char>, c: char) -> int
    decreases t.len(),
{
    if t.len() == 0 {
        0
    } else if t[0] == c {
        0
    } else {
        1 + idx_of(t.drop_first(), c)
    }
}

/// Index of the first token in `toks` that `t` starts with (up to case),
/// or `toks.len()` when none matches.
pub open spec fn first_match_nc(t: Seq<char>, toks: Seq<Seq<char>>) -> int
    decreases toks.len(),
{
    if toks.len() == 0 {
        0
    } else if starts_with_nc_view(t, toks[0]) {
        0
    } else {
        1 + first_match_nc(t, toks.drop_first())
    }
}

/// Like `first_match_nc`, but case-sensitive.
pub open spec fn first_match_exact(t: Seq<char>, toks: Seq<Seq<char>>) -> int
    decreases toks.len(),
{
    if toks.len() == 0 {
        0
    } else if starts_with_view(t, toks[0]) {
        0
    } else {
        1 + first_match_exact(t, toks.drop_first())
    }
}

/// A token rendered inside double quotes, as the error messages print it.
pub open spec fn quoted(s: Seq<char>) -> Seq<char> {
    seq!['"'] + s + seq!['"']
}

/// Quoted tokens joined by a comma and a space.
pub open spec fn quoted_join(toks: Seq<Seq<char>>) -> Seq<char>
    decreases toks.len(),
{
    if toks.len() == 0 {
        Seq::empty()
    } else if toks.len() == 1 {
        quoted(toks[0])
    } else {
        quoted_join(toks.drop_last()) + ", "@ + quoted(toks.last())
    }
}

/// The message reported when none of a list of candidate tokens matches.
pub open spec fn first_token_err_msg(toks: Seq<Seq<char>>) -> Seq<char> {
    if toks.len() == 1 {
        quoted(toks[0])
    } else if toks.len() == 2 {
        "either "@ + quoted(toks[0]) + " or "@ + quoted(toks[1])
    } else {
        "one of "@ + quoted_join(toks.take(toks.len() - 1)) + ", or "@ + quoted(toks.last())
    }
}

proof fn lemma_leading_spaces(t: Seq<char>, n: int)
    requires
        0 <= n <= t.len(),
        forall|j: int| 0 <= j < n ==> is_space_char(t[j]),
        n < t.len() ==> !is_space_char(t[n]),
    ensures
        leading_spaces(t) == n,
    decreases n,
{
    if n == 0 {
    } else {
        assert(is_space_char(t[0]));
        lemma_leading_spaces(t.drop_first(), n - 1);
    }
}

proof fn lemma_trailing_spaces(t: Seq<char>, j: int)
    requires
        0 <= j <= t.len(),
        forall|k: int| j <= k < t.len() ==> is_space_char(t[k]),
        j > 0 ==> !is_space_char(t[j - 1]),
    ensures
        trailing_spaces(t) == t.len() - j,
    decreases t.len(),
{
    if j == t.len() {
        if t.len() > 0 {
            assert(!is_space_char(t.last()));
        }
    } else {
        assert(is_space_char(t.last()));
        lemma_trailing_spaces(t.drop_last(), j);
    }
}

/// What `leading_spaces` counts: a run of whitespace, ended by a
/// non-whitespace character or the end of the text.
pub proof fn lemma_leading_spaces_props(t: Seq<char>)
    ensures
        leading_spaces(t) <= t.len(),
        leading_spaces(t) < t.len() ==> !is_space_char(t[leading_spaces(t) as int]),
        forall|j: int| 0 <= j < leading_spaces(t) ==> is_space_char(t[j]),
    decreases t.len(),
{
    if t.len() > 0 && is_space_char(t[0]) {
        lemma_leading_spaces_props(t.drop_first());
        assert forall|j: int| 0 <= j < leading_spaces(t) implies is_space_char(t[j]) by {
            if j > 0 {
                assert(is_space_char(t.drop_first()[j - 1]));
            }
        }
    }
}

/// Trimming leading whitespace is idempotent.
pub proof fn lemma_trim_left_idempotent(t: Seq<char>)
    ensures
        leading_spaces(trim_left_view(t)) == 0,
        trim_left_view(trim_left_view(t)) == trim_left_view(t),
{
    lemma_leading_spaces_props(t);
    let u = trim_left_view(t);
    if u.len() > 0 {
        assert(u[0] == t[leading_spaces(t) as int]);
        assert(!is_space_char(u[0]));
    }
    assert(trim_left_view(u) =~= u);
}

pub proof fn lemma_idx_of(t: Seq<char>, c: char, i: int)
    requires
        0 <= i <= t.len(),
        forall|j: int| 0 <= j < i ==> t[j] != c,
        i < t.len() ==> t[i] == c,
    ensures
        idx_of(t, c) == i,
    decreases t.len(),
{
    if t.len() == 0 {
    } else if t[0] == c {
        assert(i == 0);
    } else {
        lemma_idx_of(t.drop_first(), c, i - 1);
    }
}

proof fn lemma_first_match_nc(t: Seq<char>, toks: Seq<Seq<char>>, i: int)
    requires
        0 <= i <= toks.len(),
        forall|j: int| 0 <= j < i ==> !starts_with_nc_view(t, #[trigger] toks[j]),
        i < toks.len() ==> starts_with_nc_view(t, toks[i]),
    ensures
        first_match_nc(t, toks) == i,
    decreases toks.len(),
{
    if toks.len() == 0 {
    } else if starts_with_nc_view(t, toks[0]) {
        assert(i == 0);
    } else {
        lemma_first_match_nc(t.subrange(0, t.len() as int), toks.drop_first(), i - 1);
        assert(t.subrange(0, t.len() as int) == t);
    }
}

proof fn lemma_first_match_exact(t: Seq<char>, toks: Seq<Seq<char>>, i: int)
    requires
        0 <= i <= toks.len(),
        forall|j: int| 0 <= j < i ==> !starts_with_view(t, #[trigger] toks[j]),
        i < toks.len() ==> starts_with_view(t, toks[i]),
    ensures
        first_match_exact(t, toks) == i,
    decreases toks.len(),
{
    if toks.len() == 0 {
    } else if starts_with_view(t, toks[0]) {
        assert(i == 0);
    } else {
        lemma_first_match_exact(t, toks.drop_first(), i - 1);
    }
}

/// An immutable view over one line of text, tracking the 1-indexed row the
/// line came from and the 0-indexed column where this view begins.
#[derive(Copy, Clone, Debug, PartialEq)]
pub struct Buffer<'a> {
    pub text: &'a str,
    pub row: usize,
    pub col: usize,
}

impl<'a> Buffer<'a> {
    /// The column number never overflows while walking the line.
    pub open spec fn wf(self) -> bool {
        self.col + self.text@.len() <= usize::MAX
    }

    /// `r` is `self` advanced by `k` characters.
    pub open spec fn is_rest(self, r: Buffer<'a>, k: int) -> bool {
        &&& 0 <= k <= self.text@.len()
        &&& r.text@ == self.text@.skip(k)
        &&& r.row == self.row
        &&& r.col == self.col + k
    }

    /// Step over `offset` characters, clamped to the remaining length.
    pub fn advance(&self, offset: usize) -> (r: Buffer<'a>)
        requires
            self.wf(),
        ensures
            self.is_rest(r, if offset <= self.text@.len() { offset as int } else { self.text@.len() as int }),
            r.wf(),
    {
        let n = self.text.unicode_len();
        let k = if offset <= n {
            offset
        } else {
            n
        };
        let t = self.text.substring_char(k, n);
        assert(t@ == self.text@.skip(k as int));
        Buffer { text: t, row: self.row, col: self.col + k }
    }

    /// The next character, if any.
    pub fn peek(&self) -> (c: Option<char>)
        ensures
            c == (if self.text@.len() == 0 { None::<char> } else { Some(self.text@[0]) }),
    {
        if self.text.unicode_len() > 0 {
            Some(self.text.get_char(0))
        } else {
            None
        }
    }

    /// Drop leading whitespace.
    pub fn trim_left(&self) -> (r: Buffer<'a>)
        requires
            self.wf(),
        ensures
            self.is_rest(r, leading_spaces(self.text@) as int),
            r.text@ == trim_left_view(self.text@),
            r.wf(),
    {
        let n = self.text.unicode_len();
        let mut i: usize = 0;
        while i < n && is_space(self.text.get_char(i))
            invariant
                self.wf(),
                0 <= i <= n,
                n == self.text@.len(),
                forall|j: int| 0 <= j < i ==> is_space_char(self.text@[j]),
            decreases n - i,
        {
            i = i + 1;
        }
        proof {
            lemma_leading_spaces(self.text@, i as int);
        }
        self.advance(i)
    }

    /// Drop trailing whitespace; row and column stay put.
    pub fn trim_right(&self) -> (r: Buffer<'a>)
        requires
            self.wf(),
        ensures
            r.text@ == trim_right_view(self.text@),
            r.row == self.row,
            r.col == self.col,
            r.wf(),
    {
        let n = self.text.unicode_len();
        let mut j: usize = n;
        while j > 0 && is_space(self.text.get_char(j - 1))
            invariant
                0 <= j <= n,
                n == self.text@.len(),
                forall|k: int| j <= k < n ==> is_space_char(self.text@[k]),
            decreases j,
        {
            j = j - 1;
        }
        proof {
            lemma_trailing_spaces(self.text@, j as int);
        }
        let t = self.text.substring_char(0, j);
        assert(t@ == trim_right_view(self.text@));
        Buffer { text: t, row: self.row, col: self.col }
    }

    /// Drop whitespace on both sides.
    pub fn trim(&self) -> (r: Buffer<'a>)
        requires
            self.wf(),
        ensures
            r.text@ == trim_view(self.text@),
            r.row == self.row,
            r.col == self.col + leading_spaces(self.text@),
            r.wf(),
    {
        self.trim_left().trim_right()
    }

    /// Build a parse error pointing at the current position.
    pub fn expected(&self, msg: &str) -> (e: ParseError)
        ensures
            e.msg_view() == msg@,
            e.row_view() == self.row,
            e.span_view() == Some((self.col, self.col)),
    {
        ParseError::expected(msg, self.row, self.col)
    }

    /// Require at least one whitespace character and consume the run.
    pub fn space(&self) -> (r: ParseSuccess<'a>)
        requires
            self.wf(),
        ensures
            match r {
                Ok(b) => {
                    &&& leading_spaces(self.text@) > 0
                    &&& self.is_rest(b, leading_spaces(self.text@) as int)
                    &&& b.text@ == trim_left_view(self.text@)
                    &&& b.wf()
                },
                Err(e) => {
                    &&& leading_spaces(self.text@) == 0
                    &&& e.msg_view() == "whitespace"@
                    &&& e.row_view() == self.row
                    &&& e.span_view() == Some((self.col, self.col))
                },
            },
    {
        let n = self.text.unicode_len();
        if n > 0 && is_space(self.text.get_char(0)) {
            Ok(self.trim_left())
        } else {
            proof {
                assert(leading_spaces(self.text@) == 0);
            }
            Err(self.expected("whitespace"))
        }
    }

    /// Like `space`, but also succeeds (without moving) at the end of the line.
    pub fn space_or_end(&self) -> (r: ParseSuccess<'a>)
        requires
            self.wf(),
        ensures
            match r {
                Ok(b) => {
                    &&& self.text@.len() == 0 || leading_spaces(self.text@) > 0
                    &&& self.is_rest(b, leading_spaces(self.text@) as int)
                    &&& b.wf()
                },
                Err(e) => {
                    &&& self.text@.len() > 0 && leading_spaces(self.text@) == 0
                    &&& e.msg_view() == "whitespace"@
                    &&& e.row_view() == self.row
                    &&& e.span_view() == Some((self.col, self.col))
                },
            },
    {
        if self.text.is_empty() {
            assert(self.text@.skip(0) =~= self.text@);
            Ok(*self)
        } else {
            self.space()
        }
    }

    /// Does the remaining text start with `prefix`, exactly?
    pub fn starts_with(&self, prefix: &str) -> (b: bool)
        ensures
            b == starts_with_view(self.text@, prefix@),
    {
        let n = self.text.unicode_len();
        let m = prefix.unicode_len();
        if m > n {
            return false;
        }
        let mut i: usize = 0;
        while i < m
            invariant
                0 <= i <= m,
                m <= n,
                n == self.text@.len(),
                m == prefix@.len(),
                forall|j: int| 0 <= j < i ==> self.text@[j] == prefix@[j],
            decreases m - i,
        {
            if self.text.get_char(i) != prefix.get_char(i) {
                assert(!starts_with_view(self.text@, prefix@)) by {
                    assert(self.text@.subrange(0, prefix@.len() as int)[i as int] != prefix@[i as int]);
                }
                return false;
            }
            i = i + 1;
        }
        assert(self.text@.subrange(0, prefix@.len() as int) =~= prefix@);
        true
    }

    /// Does the remaining text start with `prefix`, up to ASCII case?
    pub fn starts_with_no_case(&self, prefix: &str) -> (b: bool)
        ensures
            b == starts_with_nc_view(self.text@, prefix@),
    {
        let n = self.text.unicode_len();
        let m = prefix.unicode_len();
        if m > n {
            return false;
        }
        let mut i: usize = 0;
        while i < m
            invariant
                0 <= i <= m,
                m <= n,
                n == self.text@.len(),
                m == prefix@.len(),
                forall|j: int| 0 <= j < i ==> char_eq_nc(self.text@[j], prefix@[j]),
            decreases m - i,
        {
            if !chars_eq_no_case(self.text.get_char(i), prefix.get_char(i)) {
                return false;
            }
            i = i + 1;
        }
        true
    }

    /// Consume an exact token or report it as expected.
    pub fn token(&self, token: &str) -> (r: ParseSuccess<'a>)
        requires
            self.wf(),
        ensures
            match r {
                Ok(b) => {
                    &&& starts_with_view(self.text@, token@)
                    &&& self.is_rest(b, token@.len() as int)
                    &&& b.wf()
                },
                Err(e) => {
                    &&& !starts_with_view(self.text@, token@)
                    &&& e.msg_view() == quoted(token@)
                    &&& e.row_view() == self.row
                    &&& e.span_view() == Some((self.col, self.col))
                },
            },
    {
        if self.starts_with(token) {
            Ok(self.advance(token.unicode_len()))
        } else {
            Err(self.expected_quoted(token))
        }
    }

    /// Consume a token up to ASCII case, or report it as expected.
    pub fn token_no_case(&self, token: &str) -> (r: ParseSuccess<'a>)
        requires
            self.wf(),
        ensures
            match r {
                Ok(b) => {
                    &&& starts_with_nc_view(self.text@, token@)
                    &&& self.is_rest(b, token@.len() as int)
                    &&& b.wf()
                },
                Err(e) => {
                    &&& !starts_with_nc_view(self.text@, token@)
                    &&& e.msg_view() == quoted(token@)
                    &&& e.row_view() == self.row
                    &&& e.span_view() == Some((self.col, self.col))
                },
            },
    {
        if self.starts_with_no_case(token) {
            Ok(self.advance(token.unicode_len()))
        } else {
            Err(self.expected_quoted(token))
        }
    }

    fn expected_quoted(&self, token: &str) -> (e: ParseError)
        ensures
            e.msg_view() == quoted(token@),
            e.row_view() == self.row,
            e.span_view() == Some((self.col, self.col)),
    {
        let mut msg = String::new();
        push_char(&mut msg, '"');
        msg.append(token);
        push_char(&mut msg, '"');
        assert(msg@ =~= quoted(token@));
        ParseError::expected_string(msg, self.row, self.col)
    }

    /// Try each candidate in order, case-sensitively; the first match wins.
    /// Returns the consumed prefix of the text.
    pub fn first_token_of(&self, tokens: &[&str]) -> (r: ParseResult<'a, &'a str>)
        requires
            self.wf(),
        ensures
            ({
                let toks = tokens@.map_values(|x: &str| x@);
                match r {
                    Ok((b, s)) => {
                        if toks.len() == 0 {
                            b == *self && s@ == Seq::<char>::empty()
                        } else {
                            let i = first_match_exact(self.text@, toks);
                            &&& 0 <= i < toks.len()
                            &&& s@ == toks[i]
                            &&& self.is_rest(b, toks[i].len() as int)
                            &&& b.wf()
                        }
                    },
                    Err(e) => {
                        &&& toks.len() > 0
                        &&& first_match_exact(self.text@, toks) == toks.len()
                        &&& e.msg_view() == first_token_err_msg(toks)
                        &&& e.row_view() == self.row
                        &&& e.span_view() == Some((self.col, self.col))
                    },
                }
            }),
    {
        let ghost toks = tokens@.map_values(|x: &str| x@);
        if tokens.len() == 0 {
            let empty = self.text.substring_char(0, 0);
            assert(empty@ =~= Seq::<char>::empty());
            return Ok((*self, empty));
        }
        let mut i: usize = 0;
        while i < tokens.len()
            invariant
                self.wf(),
                0 <= i <= tokens.len(),
                toks == tokens@.map_values(|x: &str| x@),
                forall|j: int| 0 <= j < i ==> !starts_with_view(self.text@, #[trigger] toks[j]),
            decreases tokens.len() - i,
        {
            let tok: &str = tokens[i];
            if self.starts_with(tok) {
                proof {
                    lemma_first_match_exact(self.text@, toks, i as int);
                }
                let m = tok.unicode_len();
                let s = self.text.substring_char(0, m);
                assert(s@ =~= toks[i as int]);
                return Ok((self.advance(m), s));
            }
            i = i + 1;
        }
        proof {
            lemma_first_match_exact(self.text@, toks, toks.len() as int);
        }
        Err(self.first_token_err(tokens))
    }

    /// Try each candidate in order, up to ASCII case; the first match wins.
    /// Returns the matched candidate itself.
    pub fn first_token_of_no_case<'b>(&self, tokens: &[&'b str]) -> (r: ParseResult<'a, &'b str>)
        requires
            self.wf(),
        ensures
            ({
                let toks = tokens@.map_values(|x: &str| x@);
                match r {
                    Ok((b, s)) => {
                        if toks.len() == 0 {
                            b == *self && s@ == Seq::<char>::empty()
                        } else {
                            let i = first_match_nc(self.text@, toks);
                            &&& 0 <= i < toks.len()
                            &&& s@ == toks[i]
                            &&& self.is_rest(b, toks[i].len() as int)
                            &&& b.wf()
                        }
                    },
                    Err(e) => {
                        &&& toks.len() > 0
                        &&& first_match_nc(self.text@, toks) == toks.len()
                        &&& e.msg_view() == first_token_err_msg(toks)
                        &&& e.row_view() == self.row
                        &&& e.span_view() == Some((self.col, self.col))
                    },
                }
            }),
    {
        let ghost toks = tokens@.map_values(|x: &str| x@);
        if tokens.len() == 0 {
            let empty = "";
            proof {
                reveal_strlit("");
                assert(empty@ =~= Seq::<char>::empty());
            }
            return Ok((*self, empty));
        }
        let mut i: usize = 0;
        while i < tokens.len()
            invariant
                self.wf(),
                0 <= i <= tokens.len(),
                toks == tokens@.map_values(|x: &str| x@),
                forall|j: int| 0 <= j < i ==> !starts_with_nc_view(self.text@, #[trigger] toks[j]),
            decreases tokens.len() - i,
        {
            let tok: &'b str = tokens[i];
            if self.starts_with_no_case(tok) {
                proof {
                    lemma_first_match_nc(self.text@, toks, i as int);
                }
                return Ok((self.advance(tok.unicode_len()), tok));
            }
            i = i + 1;
        }
        proof {
            lemma_first_match_nc(self.text@, toks, toks.len() as int);
        }
        Err(self.first_token_err(tokens))
    }

    fn first_token_err(&self, tokens: &[&str]) -> (e: ParseError)
        requires
            tokens@.len() > 0,
        ensures
            e.msg_view() == first_token_err_msg(tokens@.map_values(|x: &str| x@)),
            e.row_view() == self.row,
            e.span_view() == Some((self.col, self.col)),
    {
        let ghost toks = tokens@.map_values(|x: &str| x@);
        if tokens.len() == 1 {
            self.expected_quoted(tokens[0])
        } else if tokens.len() == 2 {
            let mut msg = String::from_str("either ");
            push_char(&mut msg, '"');
            msg.append(tokens[0]);
            push_char(&mut msg, '"');
            msg.append(" or ");
            push_char(&mut msg, '"');
            msg.append(tokens[1]);
            push_char(&mut msg, '"');
            assert(msg@ =~= first_token_err_msg(toks));
            ParseError::expected_string(msg, self.row, self.col)
        } else {
            let mut msg = String::from_str("one of ");
            let mut i: usize = 0;
            while i < tokens.len() - 1
                invariant
                    2 < tokens.len(),
                    0 <= i <= tokens.len() - 1,
                    toks == tokens@.map_values(|x: &str| x@),
                    msg@ == "one of "@ + quoted_join_partial(toks, i as int),
                decreases tokens.len() - 1 - i,
            {
                if i > 0 {
                    msg.append(", ");
                }
                push_char(&mut msg, '"');
                msg.append(tokens[i]);
                push_char(&mut msg, '"');
                proof {
                    lemma_quoted_join_step(toks, i as int);
                    assert(msg@ =~= "one of "@ + quoted_join_partial(toks, i as int + 1));
                }
                i = i + 1;
            }
            msg.append(", or ");
            push_char(&mut msg, '"');
            msg.append(tokens[tokens.len() - 1]);
            push_char(&mut msg, '"');
            proof {
                assert(toks.take(toks.len() - 1).len() == toks.len() - 1);
                assert(msg@ =~= first_token_err_msg(toks));
            }
            ParseError::expected_string(msg, self.row, self.col)
        }
    }

    /// Read the text enclosed between `begin` and `end`; fails when the text
    /// does not start with `begin` or when no closing `end` follows.
    pub fn read_between(&self, begin: char, end: char) -> (r: ParseResult<'a, &'a str>)
        requires
            self.wf(),
        ensures
            ({
                let t = self.text@;
                match r {
                    Ok((b, s)) => {
                        let body = t.skip(1);
                        let k = idx_of(body, end);
                        &&& t.len() > 0 && t[0] == begin
                        &&& k < body.len() && body[k] == end
                        &&& s@ == body.take(k)
                        &&& self.is_rest(b, k + 2)
                        &&& b.wf()
                    },
                    Err(e) => {
                        if t.len() == 0 || t[0] != begin {
                            &&& e.msg_view() == "character '"@ + seq![begin, '\'']
                            &&& e.row_view() == self.row
                            &&& e.span_view() == Some((self.col, self.col))
                        } else {
                            &&& idx_of(t.skip(1), end) == t.skip(1).len()
                            &&& e.msg_view() == "closing '"@ + seq![end, '\'']
                            &&& e.row_view() == self.row
                            &&& e.span_view() == Some((self.col, (self.col + t.len()) as usize))
                        }
                    },
                }
            }),
    {
        let n = self.text.unicode_len();
        if n == 0 || self.text.get_char(0) != begin {
            let mut msg = String::from_str("character '");
            push_char(&mut msg, begin);
            push_char(&mut msg, '\'');
            assert(msg@ =~= "character '"@ + seq![begin, '\'']);
            return Err(ParseError::expected_string(msg, self.row, self.col));
        }
        let input = self.advance(1);
        let ghost body = self.text@.skip(1);
        let m = input.text.unicode_len();
        let mut k: usize = 0;
        while k < m && input.text.get_char(k) != end
            invariant
                input.text@ == body,
                0 <= k <= m,
                m == body.len(),
                forall|j: int| 0 <= j < k ==> body[j] != end,
            decreases m - k,
        {
            k = k + 1;
        }
        proof {
            lemma_idx_of(body, end, k as int);
        }
        if k < m {
            let s = input.text.substring_char(0, k);
            assert(s@ =~= body.take(k as int));
            let b = input.advance(k + 1);
            assert(b.text@ =~= self.text@.skip(k + 2));
            Ok((b, s))
        } else {
            let mut msg = String::from_str("closing '");
            push_char(&mut msg, end);
            push_char(&mut msg, '\'');
            assert(msg@ =~= "closing '"@ + seq![end, '\'']);
            Err(ParseError::expected_string(msg, self.row, (self.col, self.col + n)))
        }
    }
}

/// The first `i` elements of `toks`, quoted and joined; the running value of
/// the message-building loop.
pub open spec fn quoted_join_partial(toks: Seq<Seq<char>>, i: int) -> Seq<char> {
    quoted_join(toks.take(i))
}

proof fn lemma_quoted_join_step(toks: Seq<Seq<char>>, i: int)
    requires
        0 <= i < toks.len(),
    ensures
        i == 0 ==> quoted_join(toks.take(1)) == quoted(toks[0]),
        i > 0 ==> quoted_join(toks.take(i + 1)) == quoted_join(toks.take(i)) + ", "@ + quoted(
            toks[i],
        ),
{
    if i == 0 {
        assert(toks.take(1).len() == 1);
        assert(toks.take(1)[0] == toks[0]);
    } else {
        let s = toks.take(i + 1);
        assert(s.len() == i + 1);
        assert(s.drop_last() =~= toks.take(i));
        assert(s.last() == toks[i]);
    }
}

} // verus!
