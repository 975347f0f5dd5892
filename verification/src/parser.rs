//! The two line-oriented grammars: the subscription config file and the
//! per-subscription event log. Each parser's contract states exactly which
//! texts it accepts, what it builds from them, and which error each rejected
//! text produces, through a spec-level description of the grammar.

use vstd::prelude::*;
use vstd::string::StrSliceExecFns;

use crate::chars::{digit_val, is_digit, is_digit_char, is_space, is_space_char};
use crate::error::{ParseError, ParseErrorV};
use crate::feed::{
    events_view, policies_view, regex_ok, serialize_event, serialize_events_view, FeedEvent,
    FeedEventV, FeedInfo, FeedInfoV, FilterType, UpdateSpec, UpdateSpecV,
};
use crate::parse_util::{
    idx_of, leading_spaces, starts_with_nc_view, starts_with_view, trailing_spaces,
    trim_left_view, trim_view, Buffer, ParseResult,
};
use crate::timedate::{rfc3339_millis, ts_text_ok, Timestamp, Weekday};

verus! {

/// The lines of a text, split on `'\n'`; a trailing newline does not open a
/// final empty line.
pub open spec fn spec_lines(s: Seq<char>) -> Seq<Seq<char>>
    decreases s.len(),
{
    if s.len() == 0 {
        Seq::empty()
    } else {
        let i = idx_of(s, '\n');
        if 0 <= i && i < s.len() {
            seq![s.take(i)] + spec_lines(s.skip(i + 1))
        } else {
            seq![s]
        }
    }
}

proof fn lemma_idx_of_range(t: Seq<char>, c: char)
    ensures
        0 <= idx_of(t, c) <= t.len(),
        idx_of(t, c) < t.len() ==> t[idx_of(t, c)] == c,
        forall|j: int| 0 <= j < idx_of(t, c) ==> t[j] != c,
    decreases t.len(),
{
    if t.len() > 0 && t[0] != c {
        lemma_idx_of_range(t.drop_first(), c);
        assert forall|j: int| 0 <= j < idx_of(t, c) implies t[j] != c by {
            if j > 0 {
                assert(t.drop_first()[j - 1] != c);
            }
        }
    }
}

/// No line contains a newline.
proof fn lemma_lines_no_newline(s: Seq<char>)
    ensures
        forall|k: int, j: int|
            0 <= k < spec_lines(s).len() && 0 <= j < spec_lines(s)[k].len() ==> #[trigger] spec_lines(
                s,
            )[k][j] != '\n',
    decreases s.len(),
{
    if s.len() > 0 {
        lemma_idx_of_range(s, '\n');
        let i = idx_of(s, '\n');
        let ls = spec_lines(s);
        if i < s.len() {
            lemma_lines_no_newline(s.skip(i + 1));
            assert forall|k: int, j: int|
                0 <= k < ls.len() && 0 <= j < ls[k].len() implies #[trigger] ls[k][j] != '\n' by {
                if k == 0 {
                    assert(ls[0] == s.take(i));
                    assert(s.take(i)[j] == s[j]);
                } else {
                    assert(ls[k] == spec_lines(s.skip(i + 1))[k - 1]);
                }
            }
        } else {
            assert(ls == seq![s]);
            assert forall|k: int, j: int|
                0 <= k < ls.len() && 0 <= j < ls[k].len() implies #[trigger] ls[k][j] != '\n' by {
                assert(ls[k] == s);
            }
        }
    }
}

/// The views of a vector of string slices.
pub open spec fn strslices_view(v: Seq<&str>) -> Seq<Seq<char>> {
    v.map_values(|t: &str| t@)
}

/// Split a text into its lines.
pub(crate) fn split_lines<'a>(s: &'a str) -> (r: Vec<&'a str>)
    ensures
        strslices_view(r@) == spec_lines(s@),
{
    let n = s.unicode_len();
    let mut r: Vec<&'a str> = Vec::new();
    let mut pos: usize = 0;
    proof {
        assert(s@.skip(0) =~= s@);
        assert(strslices_view(r@) =~= Seq::<Seq<char>>::empty());
    }
    while pos < n
        invariant
            0 <= pos <= n,
            n == s@.len(),
            spec_lines(s@) == strslices_view(r@) + spec_lines(s@.skip(pos as int)),
        decreases n - pos,
    {
        let ghost rest = s@.skip(pos as int);
        let mut k: usize = pos;
        while k < n && s.get_char(k) != '\n'
            invariant
                pos <= k <= n,
                n == s@.len(),
                forall|j: int| pos <= j < k ==> s@[j] != '\n',
            decreases n - k,
        {
            k = k + 1;
        }
        proof {
            lemma_idx_of_range(rest, '\n');
            assert(forall|j: int| 0 <= j < k - pos ==> rest[j] != '\n');
            if k < n {
                assert(rest[k - pos] == '\n');
            }
            crate::parse_util::lemma_idx_of(rest, '\n', k - pos as int);
        }
        let line = s.substring_char(pos, k);
        proof {
            assert(line@ =~= rest.take(k - pos as int));
        }
        r.push(line);
        let ghost old_pos = pos as int;
        if k < n {
            pos = k + 1;
        } else {
            pos = n;
        }
        proof {
            let i = idx_of(rest, '\n');
            assert(i == k - old_pos);
            if k < n {
                assert(rest.skip(i + 1) =~= s@.skip(pos as int));
                assert(spec_lines(rest) == seq![rest.take(i)] + spec_lines(s@.skip(pos as int)));
            } else {
                assert(i == rest.len());
                assert(spec_lines(rest) == seq![rest]);
                assert(rest.take(i) =~= rest);
                assert(s@.skip(pos as int) =~= Seq::<char>::empty());
            }
            assert(strslices_view(r@).drop_last() =~= strslices_view(r@.drop_last()));
            assert(strslices_view(r@) =~= strslices_view(r@.drop_last()).push(line@));
            assert(strslices_view(r@) + spec_lines(s@.skip(pos as int)) =~= strslices_view(
                r@.drop_last(),
            ) + spec_lines(rest));
        }
    }
    proof {
        assert(s@.skip(n as int) =~= Seq::<char>::empty());
        assert(strslices_view(r@) =~= spec_lines(s@));
    }
    r
}

/// What one line of the event log means: `Ok(None)` for a blank line,
/// `Ok(Some(event))` for an item line (`<url>`, with nothing but whitespace
/// allowed after the bracket) or a checkpoint line (`read <timestamp>`), and
/// the exact error otherwise.
pub open spec fn spec_parse_event_line(t: Seq<char>, row: usize) -> Result<
    Option<FeedEventV>,
    ParseErrorV,
> {
    let c0 = leading_spaces(t) as int;
    let line = trim_view(t);
    if line.len() == 0 {
        Ok(None)
    } else if starts_with_nc_view(line, "read"@) {
        let rest = line.skip("read"@.len() as int);
        let c1 = c0 + "read"@.len();
        if leading_spaces(rest) == 0 {
            Err(ParseErrorV { msg: "whitespace"@, row, span: Some((c1 as usize, c1 as usize)) })
        } else {
            let date = trim_left_view(rest);
            let c2 = c1 + leading_spaces(rest);
            if ts_text_ok(date) && rfc3339_millis(date) is Some {
                Ok(Some(FeedEventV::Read(date, rfc3339_millis(date)->0)))
            } else {
                Err(
                    ParseErrorV {
                        msg: "a valid date"@,
                        row,
                        span: Some((c2 as usize, c2 as usize)),
                    },
                )
            }
        }
    } else if line[0] == '<' {
        let body = line.skip(1);
        let k = idx_of(body, '>');
        if k == body.len() {
            Err(
                ParseErrorV {
                    msg: "closing '"@ + seq!['>', '\''],
                    row,
                    span: Some((c0 as usize, (c0 + line.len()) as usize)),
                },
            )
        } else {
            let url = body.take(k);
            let rest = line.skip(k + 2);
            if rest.len() > 0 && leading_spaces(rest) == 0 {
                Err(
                    ParseErrorV {
                        msg: "whitespace"@,
                        row,
                        span: Some(((c0 + k + 2) as usize, (c0 + k + 2) as usize)),
                    },
                )
            } else if trim_left_view(rest).len() > 0 {
                // only whitespace may follow the closing bracket
                Err(
                    ParseErrorV {
                        msg: "the end of the line"@,
                        row,
                        span: Some(
                            (
                                (c0 + k + 2 + leading_spaces(rest)) as usize,
                                (c0 + k + 2 + leading_spaces(rest)) as usize,
                            ),
                        ),
                    },
                )
            } else {
                Ok(Some(FeedEventV::ComicUrl(url)))
            }
        }
    } else {
        Err(
            ParseErrorV {
                msg: "a feed event. One of:\n - \"<url>\"\n - \"read DATE\""@,
                row,
                span: None,
            },
        )
    }
}

/// The events of the lines from index `i` on, or the first error.
pub open spec fn parse_events_from(lines: Seq<Seq<char>>, i: int) -> Result<
    Seq<FeedEventV>,
    ParseErrorV,
>
    decreases lines.len() - i,
{
    if i < 0 || i >= lines.len() {
        Ok(Seq::empty())
    } else {
        match spec_parse_event_line(lines[i], (i + 1) as usize) {
            Err(e) => Err(e),
            Ok(None) => parse_events_from(lines, i + 1),
            Ok(Some(ev)) => match parse_events_from(lines, i + 1) {
                Ok(rest) => Ok(seq![ev] + rest),
                Err(e) => Err(e),
            },
        }
    }
}

/// What the whole event-log text means: its chronological event sequence, or
/// the first parse error, with its 1-indexed row.
pub open spec fn spec_parse_events(s: Seq<char>) -> Result<Seq<FeedEventV>, ParseErrorV> {
    parse_events_from(spec_lines(s), 0)
}

/// Parse a subscription's log text into its chronological sequence of
/// events. A non-blank line is either `<url>` — trailing whitespace only —
/// or `read <timestamp>`; blank lines are tolerated; anything else fails
/// with a row-exact error.
pub fn parse_events(input: &str) -> (r: Result<Vec<FeedEvent>, ParseError>)
    ensures
        match r {
            Ok(evs) => spec_parse_events(input@) == Ok::<Seq<FeedEventV>, ParseErrorV>(
                events_view(evs@),
            ),
            Err(e) => spec_parse_events(input@) == Err::<Seq<FeedEventV>, ParseErrorV>(e@),
        },
{
    let lines = split_lines(input);
    let ghost ls = spec_lines(input@);
    proof {
        lemma_lines_no_newline(input@);
    }
    let mut result: Vec<FeedEvent> = Vec::new();
    let mut i: usize = 0;
    proof {
        assert(events_view(result@) =~= Seq::<FeedEventV>::empty());
    }
    while i < lines.len()
        invariant
            0 <= i <= lines@.len(),
            ls == spec_lines(input@),
            strslices_view(lines@) == ls,
            lines@.len() == ls.len(),
            forall|k: int, j: int|
                0 <= k < ls.len() && 0 <= j < ls[k].len() ==> #[trigger] ls[k][j] != '\n',
            spec_parse_events(input@) == (match parse_events_from(ls, i as int) {
                Ok(rest) => Ok::<Seq<FeedEventV>, ParseErrorV>(events_view(result@) + rest),
                Err(e) => Err::<Seq<FeedEventV>, ParseErrorV>(e),
            }),
        decreases lines@.len() - i,
    {
        let line_text: &str = lines[i];
        // the call's contract bounds the line's length, which the cursor needs
        let _line_len = line_text.unicode_len();
        proof {
            assert(lines@[i as int]@ == ls[i as int]);
        }
        let buf = Buffer { text: line_text, row: i + 1, col: 0 };
        proof {
            assert(buf.wf());
        }
        let ghost lt = buf.text@;
        let ghost pre_all = events_view(result@);
        let t = buf.trim();
        let ghost line = trim_view(lt);
        if !t.text.is_empty() {
            if t.starts_with_no_case("read") {
                let t2 = match t.token_no_case("read") {
                    Ok(b) => b,
                    Err(e) => {
                        proof {
                            assert(false);
                        }
                        return Err(e);
                    },
                };
                let t3 = match t2.space() {
                    Ok(b) => b,
                    Err(e) => {
                        proof {
                            assert(spec_parse_event_line(lt, (i + 1) as usize) == Err::<
                                Option<FeedEventV>,
                                ParseErrorV,
                            >(e@));
                        }
                        return Err(e);
                    },
                };
                match Timestamp::from_rfc3339(t3.text) {
                    Some(ts) => {
                        let ev = FeedEvent::Read(ts);
                        proof {
                            assert(spec_parse_event_line(lt, (i + 1) as usize) == Ok::<
                                Option<FeedEventV>,
                                ParseErrorV,
                            >(Some(ev@)));
                        }
                        result.push(ev);
                        proof {
                            assert(events_view(result@) =~= pre_all.push(
                                spec_parse_event_line(lt, (i + 1) as usize)->Ok_0->0,
                            ));
                        }
                    },
                    None => {
                        let e = t3.expected("a valid date");
                        proof {
                            assert(spec_parse_event_line(lt, (i + 1) as usize) == Err::<
                                Option<FeedEventV>,
                                ParseErrorV,
                            >(e@));
                        }
                        return Err(e);
                    },
                }
            } else if t.starts_with("<") {
                proof {
                    reveal_strlit("<");
                }
                match t.read_between('<', '>') {
                    Ok((t4, url)) => {
                        match t4.space_or_end() {
                            Ok(t5) => {
                                if !t5.text.is_empty() {
                                    let e = t5.expected("the end of the line");
                                    proof {
                                        assert(spec_parse_event_line(lt, (i + 1) as usize) == Err::<
                                            Option<FeedEventV>,
                                            ParseErrorV,
                                        >(e@));
                                    }
                                    return Err(e);
                                }
                                let ev = FeedEvent::ComicUrl(url.to_owned());
                                proof {
                                    assert(spec_parse_event_line(lt, (i + 1) as usize) == Ok::<
                                        Option<FeedEventV>,
                                        ParseErrorV,
                                    >(Some(ev@)));
                                }
                                result.push(ev);
                                proof {
                                    assert(events_view(result@) =~= pre_all.push(
                                        spec_parse_event_line(lt, (i + 1) as usize)->Ok_0->0,
                                    ));
                                }
                            },
                            Err(e) => {
                                proof {
                                    assert(spec_parse_event_line(lt, (i + 1) as usize) == Err::<
                                        Option<FeedEventV>,
                                        ParseErrorV,
                                    >(e@));
                                }
                                return Err(e);
                            },
                        }
                    },
                    Err(e) => {
                        proof {
                            reveal_strlit("<");
                            assert(line.subrange(0, 1) == "<"@);
                            assert(line[0] == line.subrange(0, 1)[0]);
                            assert(line[0] == '<');
                            assert(spec_parse_event_line(lt, (i + 1) as usize) == Err::<
                                Option<FeedEventV>,
                                ParseErrorV,
                            >(e@));
                        }
                        return Err(e);
                    },
                }
            } else {
                let e = ParseError::expected(
                    "a feed event. One of:\n - \"<url>\"\n - \"read DATE\"",
                    i + 1,
                    None,
                );
                proof {
                    reveal_strlit("<");
                    if line[0] == '<' {
                        assert(line.subrange(0, 1) =~= "<"@);
                        assert(false);
                    }
                    assert(line[0] != '<');
                    assert(spec_parse_event_line(lt, (i + 1) as usize) == Err::<
                        Option<FeedEventV>,
                        ParseErrorV,
                    >(e@));
                }
                return Err(e);
            }
        }
        proof {
            let step = spec_parse_event_line(ls[i as int], (i + 1) as usize);
            match step {
                Ok(Some(ev)) => {
                    assert(events_view(result@) =~= pre_all.push(ev));
                    assert(parse_events_from(ls, i as int) == (match parse_events_from(
                        ls,
                        i + 1,
                    ) {
                        Ok(rest) => Ok::<Seq<FeedEventV>, ParseErrorV>(seq![ev] + rest),
                        Err(e) => Err::<Seq<FeedEventV>, ParseErrorV>(e),
                    }));
                    if parse_events_from(ls, i + 1) is Ok {
                        let rest = parse_events_from(ls, i + 1)->Ok_0;
                        assert(pre_all.push(ev) + rest =~= pre_all + (seq![ev] + rest));
                    }
                },
                Ok(None) => {
                    assert(events_view(result@) == pre_all);
                    assert(parse_events_from(ls, i as int) == parse_events_from(ls, i + 1));
                },
                Err(_) => {
                    assert(false);
                },
            }
        }
        i = i + 1;
    }
    proof {
        assert(parse_events_from(ls, ls.len() as int) == Ok::<Seq<FeedEventV>, ParseErrorV>(
            Seq::empty(),
        ));
        assert(events_view(result@) + Seq::<FeedEventV>::empty() =~= events_view(result@));
    }
    Ok(result)
}

/// The line an event serializes onto, without its trailing newline.
pub open spec fn line_of(e: FeedEventV) -> Seq<char> {
    match e {
        FeedEventV::ComicUrl(u) => seq!['<'] + u + seq!['>'],
        FeedEventV::Read(t, _) => "read "@ + t,
    }
}

proof fn lemma_serialize_head(evs: Seq<FeedEventV>)
    requires
        evs.len() > 0,
    ensures
        serialize_events_view(evs) =~= serialize_event(evs[0]) + serialize_events_view(
            evs.drop_first(),
        ),
    decreases evs.len(),
{
    if evs.len() == 1 {
        assert(evs.drop_last() =~= Seq::<FeedEventV>::empty());
        assert(evs.drop_first() =~= Seq::<FeedEventV>::empty());
        assert(evs.last() == evs[0]);
    } else {
        lemma_serialize_head(evs.drop_last());
        assert(evs.drop_last()[0] == evs[0]);
        assert(evs.drop_last().drop_first() =~= evs.drop_first().drop_last());
        assert(evs.drop_first().last() == evs.last());
        assert(serialize_events_view(evs.drop_first()) == serialize_events_view(
            evs.drop_first().drop_last(),
        ) + serialize_event(evs.drop_first().last()));
    }
}

proof fn lemma_event_line_props(e: FeedEventV)
    requires
        crate::feed::event_wf(e),
    ensures
        serialize_event(e) =~= line_of(e) + seq!['\n'],
        forall|j: int| 0 <= j < line_of(e).len() ==> #[trigger] line_of(e)[j] != '\n',
        line_of(e).len() > 0,
{
    match e {
        FeedEventV::ComicUrl(u) => {
            assert forall|j: int|
                0 <= j < line_of(e).len() implies #[trigger] line_of(e)[j] != '\n' by {
                let l = line_of(e);
                if j == 0 {
                    assert(l[0] == '<');
                } else if j < u.len() + 1 {
                    assert(l[j] == u[j - 1]);
                } else {
                    assert(l[j] == '>');
                }
            }
        },
        FeedEventV::Read(t, m) => {
            reveal_strlit("read ");
            assert(("read "@).len() == 5);
            assert forall|j: int|
                0 <= j < line_of(e).len() implies #[trigger] line_of(e)[j] != '\n' by {
                let l = line_of(e);
                if j < 5 {
                    assert(l[j] == "read "@[j]);
                } else {
                    assert(l[j] == t[j - 5]);
                }
            }
        },
    }
}

proof fn lemma_lines_prepend(body: Seq<char>, rest: Seq<char>)
    requires
        forall|j: int| 0 <= j < body.len() ==> body[j] != '\n',
    ensures
        spec_lines(body + seq!['\n'] + rest) =~= seq![body] + spec_lines(rest),
{
    let s = body + seq!['\n'] + rest;
    assert(s[body.len() as int] == '\n');
    assert(forall|j: int| 0 <= j < body.len() ==> s[j] == body[j]);
    crate::parse_util::lemma_idx_of(s, '\n', body.len() as int);
    assert(s.take(body.len() as int) =~= body);
    assert(s.skip(body.len() as int + 1) =~= rest);
}

proof fn lemma_parse_line_of(e: FeedEventV, row: usize)
    requires
        crate::feed::event_wf(e),
    ensures
        spec_parse_event_line(line_of(e), row) == Ok::<Option<FeedEventV>, ParseErrorV>(Some(e)),
{
    let line = line_of(e);
    lemma_event_line_props(e);
    match e {
        FeedEventV::ComicUrl(u) => {
            assert(line[0] == '<');
            assert(line.last() == '>');
            assert(!is_space_char('<'));
            assert(!is_space_char('>'));
            assert(leading_spaces(line) == 0);
            assert(trailing_spaces(line) == 0);
            assert(trim_left_view(line) =~= line);
            assert(trim_view(line) =~= line);
            reveal_strlit("read");
            assert(!starts_with_nc_view(line, "read"@)) by {
                assert(("read"@).len() == 4);
                if starts_with_nc_view(line, "read"@) {
                    assert(crate::chars::char_eq_nc(line[0], "read"@[0]));
                    assert("read"@[0] == 'r');
                    assert(crate::chars::lower_u32('<' as u32) == 60);
                    assert(crate::chars::lower_u32('r' as u32) == 114);
                    assert(false);
                }
            }
            let body = line.skip(1);
            assert(body =~= u + seq!['>']);
            assert(forall|j: int| 0 <= j < u.len() ==> body[j] == u[j]);
            assert(body[u.len() as int] == '>');
            crate::parse_util::lemma_idx_of(body, '>', u.len() as int);
            assert(body.take(u.len() as int) =~= u);
            assert(line.skip(u.len() as int + 2) =~= Seq::<char>::empty());
        },
        FeedEventV::Read(t, m) => {
            reveal_strlit("read ");
            reveal_strlit("read");
            assert(("read "@).len() == 5);
            assert(("read"@).len() == 4);
            assert(line[0] == "read "@[0]);
            assert("read "@[0] == 'r');
            assert(!is_space_char('r'));
            assert(leading_spaces(line) == 0);
            assert(t.len() > 0);
            assert(line.last() == t.last());
            assert(trailing_spaces(t) == 0);
            assert(!is_space_char(t.last()));
            assert(trailing_spaces(line) == 0);
            assert(trim_left_view(line) =~= line);
            assert(trim_view(line) =~= line);
            assert(starts_with_nc_view(line, "read"@)) by {
                assert forall|j: int|
                    0 <= j < 4 implies crate::chars::char_eq_nc(line[j], "read"@[j]) by {
                    assert(line[j] == "read "@[j]);
                    assert("read "@[j] == "read"@[j]);
                }
            }
            let rest = line.skip(4);
            assert(rest[0] == "read "@[4]);
            assert("read "@[4] == ' ');
            assert(is_space_char(' '));
            assert(rest.drop_first() =~= t);
            assert(leading_spaces(t) == 0);
            assert(leading_spaces(rest) == 1);
            assert(trim_left_view(rest) =~= t);
        },
    }
}

proof fn lemma_parse_all_ok(lines: Seq<Seq<char>>, evs: Seq<FeedEventV>, i: int)
    requires
        lines.len() == evs.len(),
        0 <= i <= lines.len(),
        forall|k: int|
            i <= k < lines.len() ==> spec_parse_event_line(#[trigger] lines[k], (k + 1) as usize)
                == Ok::<Option<FeedEventV>, ParseErrorV>(Some(evs[k])),
    ensures
        parse_events_from(lines, i) == Ok::<Seq<FeedEventV>, ParseErrorV>(evs.skip(i)),
    decreases lines.len() - i,
{
    if i == lines.len() {
        assert(evs.skip(i) =~= Seq::<FeedEventV>::empty());
    } else {
        lemma_parse_all_ok(lines, evs, i + 1);
        assert(seq![evs[i]] + evs.skip(i + 1) =~= evs.skip(i));
    }
}

proof fn lemma_lines_of_serialized(evs: Seq<FeedEventV>)
    requires
        forall|i: int| 0 <= i < evs.len() ==> crate::feed::event_wf(#[trigger] evs[i]),
    ensures
        spec_lines(serialize_events_view(evs)) =~= evs.map_values(|e: FeedEventV| line_of(e)),
    decreases evs.len(),
{
    if evs.len() == 0 {
        assert(serialize_events_view(evs) =~= Seq::<char>::empty());
        assert(evs.map_values(|e: FeedEventV| line_of(e)) =~= Seq::<Seq<char>>::empty());
    } else {
        lemma_serialize_head(evs);
        lemma_event_line_props(evs[0]);
        assert(forall|i: int|
            0 <= i < evs.drop_first().len() ==> crate::feed::event_wf(
                #[trigger] evs.drop_first()[i],
            ));
        lemma_lines_of_serialized(evs.drop_first());
        assert(serialize_events_view(evs) =~= line_of(evs[0]) + seq!['\n']
            + serialize_events_view(evs.drop_first()));
        lemma_lines_prepend(line_of(evs[0]), serialize_events_view(evs.drop_first()));
        assert(spec_lines(serialize_events_view(evs)) =~= seq![line_of(evs[0])] + spec_lines(
            serialize_events_view(evs.drop_first()),
        ));
        assert(evs.map_values(|e: FeedEventV| line_of(e)) =~= seq![line_of(evs[0])]
            + evs.drop_first().map_values(|e: FeedEventV| line_of(e)));
    }
}

/// Round trip: serializing any faithfully representable event sequence and
/// re-parsing the text yields the same sequence.
pub proof fn lemma_events_round_trip(evs: Seq<FeedEventV>)
    requires
        forall|i: int| 0 <= i < evs.len() ==> crate::feed::event_wf(#[trigger] evs[i]),
    ensures
        spec_parse_events(serialize_events_view(evs)) == Ok::<Seq<FeedEventV>, ParseErrorV>(evs),
{
    lemma_lines_of_serialized(evs);
    let lines = evs.map_values(|e: FeedEventV| line_of(e));
    assert forall|k: int|
        0 <= k < lines.len() implies spec_parse_event_line(
        #[trigger] lines[k],
        (k + 1) as usize,
    ) == Ok::<Option<FeedEventV>, ParseErrorV>(Some(evs[k])) by {
        lemma_parse_line_of(evs[k], (k + 1) as usize);
    }
    lemma_parse_all_ok(lines, evs, 0);
    assert(evs.skip(0) =~= evs);
    assert(spec_lines(serialize_events_view(evs)) == lines);
}

/// Number of non-whitespace characters at the front of `t`.
pub open spec fn leading_word(t: Seq<char>) -> nat
    decreases t.len(),
{
    if t.len() == 0 {
        0
    } else if is_space_char(t[0]) {
        0
    } else {
        1 + leading_word(t.drop_first())
    }
}

/// The whitespace-separated words of `t`, in order.
pub open spec fn spec_words(t: Seq<char>) -> Seq<Seq<char>>
    decreases t.len(),
{
    if t.len() == 0 {
        Seq::empty()
    } else if is_space_char(t[0]) {
        spec_words(t.drop_first())
    } else {
        let k = leading_word(t) as int;
        if 0 < k <= t.len() {
            seq![t.take(k)] + spec_words(t.skip(k))
        } else {
            seq![t]
        }
    }
}

proof fn lemma_leading_word(t: Seq<char>, n: int)
    requires
        0 <= n <= t.len(),
        forall|j: int| 0 <= j < n ==> !is_space_char(t[j]),
        n < t.len() ==> is_space_char(t[n]),
    ensures
        leading_word(t) == n,
    decreases n,
{
    if n > 0 {
        lemma_leading_word(t.drop_first(), n - 1);
    }
}

/// Split an open-command string into its whitespace-separated argv words;
/// a string with no word at all is rejected.
pub fn parse_command(input: &str) -> (r: Result<Vec<String>, ParseError>)
    ensures
        match r {
            Ok(words) => {
                &&& spec_words(input@).len() > 0
                &&& crate::feed::strs_view(words@) == spec_words(input@)
            },
            Err(e) => {
                &&& spec_words(input@).len() == 0
                &&& e@ == (ParseErrorV { msg: "a command"@, row: 1, span: None })
            },
        },
{
    let n = input.unicode_len();
    let mut out: Vec<String> = Vec::new();
    let mut pos: usize = 0;
    proof {
        assert(input@.skip(0) =~= input@);
        assert(crate::feed::strs_view(out@) =~= Seq::<Seq<char>>::empty());
    }
    while pos < n
        invariant
            0 <= pos <= n,
            n == input@.len(),
            spec_words(input@) == crate::feed::strs_view(out@) + spec_words(
                input@.skip(pos as int),
            ),
        decreases n - pos,
    {
        let ghost rest = input@.skip(pos as int);
        let ghost pre = crate::feed::strs_view(out@);
        let c = input.get_char(pos);
        if is_space(c) {
            proof {
                assert(rest[0] == input@[pos as int]);
                assert(rest.drop_first() =~= input@.skip(pos + 1));
            }
            pos = pos + 1;
        } else {
            let mut k: usize = pos;
            while k < n && !is_space(input.get_char(k))
                invariant
                    pos <= k <= n,
                    n == input@.len(),
                    forall|j: int| pos <= j < k ==> !is_space_char(input@[j]),
                decreases n - k,
            {
                k = k + 1;
            }
            proof {
                assert(rest[0] == input@[pos as int]);
                assert(forall|j: int| 0 <= j < k - pos ==> !is_space_char(rest[j]));
                if k < n {
                    assert(rest[k - pos] == input@[k as int]);
                }
                lemma_leading_word(rest, k - pos as int);
            }
            let word = input.substring_char(pos, k);
            proof {
                assert(word@ =~= rest.take(k - pos as int));
                assert(rest.skip(k - pos as int) =~= input@.skip(k as int));
            }
            out.push(word.to_owned());
            proof {
                assert(crate::feed::strs_view(out@) =~= pre.push(word@));
                assert(pre.push(word@) + spec_words(input@.skip(k as int)) =~= pre + (seq![word@]
                    + spec_words(input@.skip(k as int))));
            }
            pos = k;
        }
    }
    proof {
        assert(input@.skip(n as int) =~= Seq::<char>::empty());
        assert(crate::feed::strs_view(out@) + Seq::<Seq<char>>::empty() =~= crate::feed::strs_view(
            out@,
        ));
    }
    if out.len() == 0 {
        Err(ParseError::expected("a command", 1, None))
    } else {
        proof {
            assert(spec_words(input@).len() == crate::feed::strs_view(out@).len());
        }
        Ok(out)
    }
}

/// Number of decimal digits at the front of `t`.
pub open spec fn leading_digits(t: Seq<char>) -> nat
    decreases t.len(),
{
    if t.len() == 0 {
        0
    } else if !is_digit_char(t[0]) {
        0
    } else {
        1 + leading_digits(t.drop_first())
    }
}

/// The number a digit string denotes.
pub open spec fn digits_value(t: Seq<char>) -> int
    decreases t.len(),
{
    if t.len() == 0 {
        0
    } else {
        digits_value(t.drop_last()) * 10 + digit_val(t.last())
    }
}

proof fn lemma_leading_digits(t: Seq<char>, n: int)
    requires
        0 <= n <= t.len(),
        forall|j: int| 0 <= j < n ==> is_digit_char(t[j]),
        n < t.len() ==> !is_digit_char(t[n]),
    ensures
        leading_digits(t) == n,
    decreases n,
{
    if n > 0 {
        lemma_leading_digits(t.drop_first(), n - 1);
    }
}

proof fn lemma_digits_value_nonneg(t: Seq<char>)
    requires
        forall|k: int| 0 <= k < t.len() ==> is_digit_char(t[k]),
    ensures
        digits_value(t) >= 0,
    decreases t.len(),
{
    if t.len() > 0 {
        lemma_digits_value_nonneg(t.drop_last());
        assert(digit_val(t.last()) >= 0);
        assert(digits_value(t.drop_last()) * 10 >= 0) by (nonlinear_arith)
            requires
                digits_value(t.drop_last()) >= 0,
        ;
    }
}

/// A digit string's value only grows as digits are appended.
proof fn lemma_digits_value_mono(t: Seq<char>, i: int, j: int)
    requires
        0 <= i <= j <= t.len(),
        forall|k: int| 0 <= k < t.len() ==> is_digit_char(t[k]),
    ensures
        digits_value(t.take(i)) <= digits_value(t.take(j)),
    decreases j - i,
{
    if i < j {
        lemma_digits_value_mono(t, i, j - 1);
        let u = t.take(j);
        assert(u.drop_last() =~= t.take(j - 1));
        assert(forall|k: int| 0 <= k < t.take(j - 1).len() ==> is_digit_char(#[trigger] t.take(j - 1)[k]));
        lemma_digits_value_nonneg(t.take(j - 1));
        assert(digits_value(t.take(j - 1)) * 10 >= digits_value(t.take(j - 1))) by (nonlinear_arith)
            requires
                digits_value(t.take(j - 1)) >= 0,
        ;
        assert(digit_val(u.last()) >= 0);
    }
}

/// What a run of digits at the cursor means: the parsed number and how many
/// characters (leading whitespace included) were consumed; `digit` when no
/// digit is present, and `a smaller number` when the digits exceed what a
/// machine word holds.
pub open spec fn spec_parse_number(t: Seq<char>, row: usize, col: int) -> Result<
    (usize, int),
    ParseErrorV,
> {
    let l = leading_spaces(t) as int;
    let u = trim_left_view(t);
    let d = leading_digits(u) as int;
    if d == 0 {
        Err(
            ParseErrorV {
                msg: "digit"@,
                row,
                span: Some(((col + l) as usize, (col + l) as usize)),
            },
        )
    } else if digits_value(u.take(d)) > usize::MAX {
        Err(
            ParseErrorV {
                msg: "a smaller number"@,
                row,
                span: Some(((col + l) as usize, (col + l + d) as usize)),
            },
        )
    } else {
        Ok((digits_value(u.take(d)) as usize, l + d))
    }
}

/// Consume a decimal number. The number must fit in a machine word.
fn parse_number<'a>(buf: &Buffer<'a>) -> (r: ParseResult<'a, usize>)
    requires
        buf.wf(),
    ensures
        match r {
            Ok((b, n)) => {
                &&& spec_parse_number(buf.text@, buf.row, buf.col as int) == Ok::<
                    (usize, int),
                    ParseErrorV,
                >((n, b.col - buf.col))
                &&& buf.is_rest(b, b.col - buf.col)
                &&& b.wf()
            },
            Err(e) => spec_parse_number(buf.text@, buf.row, buf.col as int) == Err::<
                (usize, int),
                ParseErrorV,
            >(e@),
        },
{
    let t = buf.trim_left();
    let ghost u = trim_left_view(buf.text@);
    let n0 = t.text.unicode_len();
    let mut d: usize = 0;
    while d < n0 && is_digit(t.text.get_char(d))
        invariant
            0 <= d <= n0,
            n0 == u.len(),
            t.text@ == u,
            u == trim_left_view(buf.text@),
            buf.wf(),
            forall|j: int| 0 <= j < d ==> is_digit_char(u[j]),
        decreases n0 - d,
    {
        d = d + 1;
    }
    proof {
        lemma_leading_digits(u, d as int);
    }
    if d == 0 {
        return Err(t.expected("digit"));
    }
    let ghost digits = u.take(d as int);
    let mut value: usize = 0;
    let mut i: usize = 0;
    while i < d
        invariant
            0 <= i <= d,
            d <= n0,
            n0 == u.len(),
            t.text@ == u,
            t.wf(),
            t.row == buf.row,
            t.col == buf.col + leading_spaces(buf.text@),
            digits == u.take(d as int),
            u == trim_left_view(buf.text@),
            buf.wf(),
            forall|j: int| 0 <= j < d ==> is_digit_char(u[j]),
            leading_digits(u) == d,
            value == digits_value(digits.take(i as int)),
        decreases d - i,
    {
        let c = t.text.get_char(i);
        let dv: u128 = (c as u32 - 48) as u128;
        let tmp: u128 = value as u128 * 10 + dv;
        proof {
            assert(digits.take(i + 1).drop_last() =~= digits.take(i as int));
            assert(digits.take(i + 1).last() == u[i as int]);
            assert(forall|k: int| 0 <= k < digits.len() ==> is_digit_char(digits[k]));
        }
        if tmp > usize::MAX as u128 {
            proof {
                assert(digits_value(digits.take(i + 1)) > usize::MAX);
                assert(digits.take(d as int) =~= digits);
                lemma_digits_value_mono(digits, i + 1, d as int);
                assert(digits_value(digits) > usize::MAX);
            }
            let msg_start = t.col;
            let e = ParseError::expected("a smaller number", t.row, (msg_start, msg_start + d));
            proof {
                assert(e@ =~= (ParseErrorV {
                    msg: "a smaller number"@,
                    row: buf.row,
                    span: Some((msg_start, (msg_start + d) as usize)),
                }));
            }
            return Err(e);
        }
        value = tmp as usize;
        i = i + 1;
    }
    proof {
        assert(digits.take(d as int) =~= digits);
        assert(value == digits_value(digits));
        lemma_digits_value_nonneg(digits);
    }
    let b = t.advance(d);
    proof {
        let l = leading_spaces(buf.text@) as int;
        assert(buf.text@.skip(l).skip(d as int) =~= buf.text@.skip(l + d));
        assert(buf.is_rest(b, l + d));
    }
    Ok((b, value))
}

/// The spelled-out weekday names, tried in a fixed order; the consumed
/// length comes with the parsed day.
pub open spec fn spec_parse_weekday(t: Seq<char>) -> Option<(Weekday, int)> {
    if starts_with_nc_view(t, "sunday"@) {
        Some((Weekday::Sun, "sunday"@.len() as int))
    } else if starts_with_nc_view(t, "monday"@) {
        Some((Weekday::Mon, "monday"@.len() as int))
    } else if starts_with_nc_view(t, "tuesday"@) {
        Some((Weekday::Tue, "tuesday"@.len() as int))
    } else if starts_with_nc_view(t, "wednesday"@) {
        Some((Weekday::Wed, "wednesday"@.len() as int))
    } else if starts_with_nc_view(t, "thursday"@) {
        Some((Weekday::Thu, "thursday"@.len() as int))
    } else if starts_with_nc_view(t, "friday"@) {
        Some((Weekday::Fri, "friday"@.len() as int))
    } else if starts_with_nc_view(t, "saturday"@) {
        Some((Weekday::Sat, "saturday"@.len() as int))
    } else {
        None
    }
}

/// The message enumerating the valid policy clause grammars.
pub open spec fn policy_msg() -> Seq<char> {
    "a policy definition. One of:\n - \"@ on WEEKDAY\"\n - \"@ every # day(s)\"\n - \"@ # new comic(s)\"\n - \"@ overlap # comic(s)\"\n - \"@ keep title|url \"REGEX\"\"\n - \"@ ignore title|url \"REGEX\"\""@
}

/// What one `@` clause means, starting at text `t` and column `col`:
/// the parsed policy, the remaining text, and the column it resumes at, or
/// the exact error. The clause kind is chosen by its leading keyword or
/// digit, in a fixed order.
pub open spec fn spec_parse_policy(t: Seq<char>, row: usize, col: int) -> Result<
    (UpdateSpecV, Seq<char>, int),
    ParseErrorV,
> {
    let l0 = leading_spaces(t) as int;
    let t0 = trim_left_view(t);
    let c0 = col + l0;
    if !starts_with_view(t0, "@"@) {
        Err(
            ParseErrorV {
                msg: crate::parse_util::quoted("@"@),
                row,
                span: Some((c0 as usize, c0 as usize)),
            },
        )
    } else {
        let t1 = t0.skip("@"@.len() as int);
        let c1 = c0 + "@"@.len();
        if leading_spaces(t1) == 0 {
            Err(ParseErrorV { msg: "whitespace"@, row, span: Some((c1 as usize, c1 as usize)) })
        } else {
            let t2 = trim_left_view(t1);
            let c2 = c1 + leading_spaces(t1) as int;
            spec_parse_policy_body(t2, row, c2)
        }
    }
}

/// The clause after its `@ ` prefix.
pub open spec fn spec_parse_policy_body(t: Seq<char>, row: usize, col: int) -> Result<
    (UpdateSpecV, Seq<char>, int),
    ParseErrorV,
> {
    if starts_with_nc_view(t, "on"@) {
        spec_parse_on(t, row, col)
    } else if starts_with_nc_view(t, "every"@) {
        spec_parse_count_clause(t, row, col, true)
    } else if starts_with_nc_view(t, "overlap"@) {
        spec_parse_count_clause(t, row, col, false)
    } else if t.len() > 0 && is_digit_char(t[0]) {
        spec_parse_comics(t, row, col)
    } else if starts_with_nc_view(t, "keep"@) {
        spec_parse_filter(t, row, col, true)
    } else if starts_with_nc_view(t, "ignore"@) {
        spec_parse_filter(t, row, col, false)
    } else {
        Err(ParseErrorV { msg: policy_msg(), row, span: Some((col as usize, (col + t.len()) as usize)) })
    }
}

/// The last column (inclusive) of the whitespace-delimited token that
/// starts at column `col` of `t`; the column itself when no token is there.
pub open spec fn token_span_end(t: Seq<char>, col: int) -> int {
    if leading_word(t) > 0 {
        col + leading_word(t) - 1
    } else {
        col
    }
}

/// `on WEEKDAY`.
pub open spec fn spec_parse_on(t: Seq<char>, row: usize, col: int) -> Result<
    (UpdateSpecV, Seq<char>, int),
    ParseErrorV,
> {
    let t1 = t.skip("on"@.len() as int);
    let c1 = col + "on"@.len();
    if leading_spaces(t1) == 0 {
        Err(ParseErrorV { msg: "whitespace"@, row, span: Some((c1 as usize, c1 as usize)) })
    } else {
        let t2 = trim_left_view(t1);
        let c2 = c1 + leading_spaces(t1) as int;
        match spec_parse_weekday(t2) {
            None => Err(
                ParseErrorV {
                    msg: "a weekday"@,
                    row,
                    span: Some((c2 as usize, token_span_end(t2, c2) as usize)),
                },
            ),
            Some((wd, k)) => {
                let t3 = t2.skip(k);
                let c3 = c2 + k;
                if t3.len() > 0 && leading_spaces(t3) == 0 {
                    Err(
                        ParseErrorV {
                            msg: "whitespace"@,
                            row,
                            span: Some((c3 as usize, c3 as usize)),
                        },
                    )
                } else {
                    Ok(
                        (
                            UpdateSpecV::On(wd),
                            trim_left_view(t3),
                            c3 + leading_spaces(t3) as int,
                        ),
                    )
                }
            },
        }
    }
}

/// `every # day(s)` when `every_kind`, else `overlap # comic(s)`.
pub open spec fn spec_parse_count_clause(t: Seq<char>, row: usize, col: int, every_kind: bool) -> Result<
    (UpdateSpecV, Seq<char>, int),
    ParseErrorV,
> {
    let kw = if every_kind {
        "every"@
    } else {
        "overlap"@
    };
    let t1 = t.skip(kw.len() as int);
    let c1 = col + kw.len();
    if leading_spaces(t1) == 0 {
        Err(ParseErrorV { msg: "whitespace"@, row, span: Some((c1 as usize, c1 as usize)) })
    } else {
        let t2 = trim_left_view(t1);
        let c2 = c1 + leading_spaces(t1) as int;
        match spec_parse_number(t2, row, c2) {
            Err(e) => Err(e),
            Ok((n, k)) => {
                let t3 = t2.skip(k);
                let c3 = c2 + k;
                if leading_spaces(t3) == 0 {
                    Err(
                        ParseErrorV {
                            msg: "whitespace"@,
                            row,
                            span: Some((c3 as usize, c3 as usize)),
                        },
                    )
                } else {
                    let t4 = trim_left_view(t3);
                    let c4 = c3 + leading_spaces(t3) as int;
                    let unit_long = if every_kind {
                        "days"@
                    } else {
                        "comics"@
                    };
                    let unit_short = if every_kind {
                        "day"@
                    } else {
                        "comic"@
                    };
                    let either_msg = if every_kind {
                        "either \"days\" or \"day\""@
                    } else {
                        "either \"comics\" or \"comic\""@
                    };
                    let u = if starts_with_nc_view(t4, unit_long) {
                        unit_long.len() as int
                    } else if starts_with_nc_view(t4, unit_short) {
                        unit_short.len() as int
                    } else {
                        -1
                    };
                    if u < 0 {
                        Err(
                            ParseErrorV {
                                msg: either_msg,
                                row,
                                span: Some((c4 as usize, c4 as usize)),
                            },
                        )
                    } else {
                        let t5 = t4.skip(u);
                        let c5 = c4 + u;
                        if t5.len() > 0 && leading_spaces(t5) == 0 {
                            Err(
                                ParseErrorV {
                                    msg: "whitespace"@,
                                    row,
                                    span: Some((c5 as usize, c5 as usize)),
                                },
                            )
                        } else {
                            let p = if every_kind {
                                UpdateSpecV::Every(n)
                            } else {
                                UpdateSpecV::Overlap(n)
                            };
                            Ok((p, trim_left_view(t5), c5 + leading_spaces(t5) as int))
                        }
                    }
                }
            },
        }
    }
}

/// `# new comic(s)`; like every clause, it ends at whitespace or the end
/// of the line.
pub open spec fn spec_parse_comics(t: Seq<char>, row: usize, col: int) -> Result<
    (UpdateSpecV, Seq<char>, int),
    ParseErrorV,
> {
    match spec_parse_number(t, row, col) {
        Err(e) => Err(e),
        Ok((n, k)) => {
            let t1 = t.skip(k);
            let c1 = col + k;
            let t2 = trim_left_view(t1);
            let c2 = c1 + leading_spaces(t1) as int;
            if !starts_with_nc_view(t2, "new"@) {
                Err(
                    ParseErrorV {
                        msg: crate::parse_util::quoted("new"@),
                        row,
                        span: Some((c2 as usize, c2 as usize)),
                    },
                )
            } else {
                let t3 = t2.skip("new"@.len() as int);
                let c3 = c2 + "new"@.len();
                if leading_spaces(t3) == 0 {
                    Err(
                        ParseErrorV {
                            msg: "whitespace"@,
                            row,
                            span: Some((c3 as usize, c3 as usize)),
                        },
                    )
                } else {
                    let t4 = trim_left_view(t3);
                    let c4 = c3 + leading_spaces(t3) as int;
                    let u = if starts_with_nc_view(t4, "comics"@) {
                        "comics"@.len() as int
                    } else if starts_with_nc_view(t4, "comic"@) {
                        "comic"@.len() as int
                    } else {
                        -1
                    };
                    if u < 0 {
                        Err(
                            ParseErrorV {
                                msg: "either \"comics\" or \"comic\""@,
                                row,
                                span: Some((c4 as usize, c4 as usize)),
                            },
                        )
                    } else {
                        let t5 = t4.skip(u);
                        let c5 = c4 + u;
                        if t5.len() > 0 && leading_spaces(t5) == 0 {
                            Err(
                                ParseErrorV {
                                    msg: "whitespace"@,
                                    row,
                                    span: Some((c5 as usize, c5 as usize)),
                                },
                            )
                        } else {
                            Ok(
                                (
                                    UpdateSpecV::Comics(n),
                                    trim_left_view(t5),
                                    c5 + leading_spaces(t5) as int,
                                ),
                            )
                        }
                    }
                }
            }
        },
    }
}

/// `keep title|url "REGEX"` when `keep`, else `ignore title|url "REGEX"`.
/// An invalid regular expression is rejected here, at config-parse time.
pub open spec fn spec_parse_filter(t: Seq<char>, row: usize, col: int, keep: bool) -> Result<
    (UpdateSpecV, Seq<char>, int),
    ParseErrorV,
> {
    let kw = if keep {
        "keep"@
    } else {
        "ignore"@
    };
    let t1 = t.skip(kw.len() as int);
    let c1 = col + kw.len();
    if leading_spaces(t1) == 0 {
        Err(ParseErrorV { msg: "whitespace"@, row, span: Some((c1 as usize, c1 as usize)) })
    } else {
        let t2 = trim_left_view(t1);
        let c2 = c1 + leading_spaces(t1) as int;
        let f = if starts_with_nc_view(t2, "title"@) {
            ("title"@.len() as int, if keep {
                FilterType::KeepTitle
            } else {
                FilterType::IgnoreTitle
            })
        } else if starts_with_nc_view(t2, "url"@) {
            ("url"@.len() as int, if keep {
                FilterType::KeepUrl
            } else {
                FilterType::IgnoreUrl
            })
        } else {
            (-1, FilterType::KeepTitle)
        };
        if f.0 < 0 {
            Err(
                ParseErrorV {
                    msg: "either \"title\" or \"url\""@,
                    row,
                    span: Some((c2 as usize, c2 as usize)),
                },
            )
        } else {
            let t3 = t2.skip(f.0);
            let c3 = c2 + f.0;
            if leading_spaces(t3) == 0 {
                Err(ParseErrorV { msg: "whitespace"@, row, span: Some((c3 as usize, c3 as usize)) })
            } else {
                let t4 = trim_left_view(t3);
                let c4 = c3 + leading_spaces(t3) as int;
                if t4.len() == 0 || t4[0] != '"' {
                    Err(
                        ParseErrorV {
                            msg: "character '"@ + seq!['"', '\''],
                            row,
                            span: Some((c4 as usize, c4 as usize)),
                        },
                    )
                } else {
                    let body = t4.skip(1);
                    let k = idx_of(body, '"');
                    if k == body.len() {
                        Err(
                            ParseErrorV {
                                msg: "closing '"@ + seq!['"', '\''],
                                row,
                                span: Some((c4 as usize, (c4 + t4.len()) as usize)),
                            },
                        )
                    } else {
                        let pat = body.take(k);
                        let t5 = t4.skip(k + 2);
                        let c5 = c4 + k + 2;
                        if !regex_ok(pat) {
                            Err(
                                ParseErrorV {
                                    msg: "a valid regular expression"@,
                                    row,
                                    span: Some((c4 as usize, (c4 + k + 1) as usize)),
                                },
                            )
                        } else if t5.len() > 0 && leading_spaces(t5) == 0 {
                            Err(
                                ParseErrorV {
                                    msg: "whitespace"@,
                                    row,
                                    span: Some((c5 as usize, c5 as usize)),
                                },
                            )
                        } else {
                            Ok(
                                (
                                    UpdateSpecV::Filter(f.1, pat),
                                    trim_left_view(t5),
                                    c5 + leading_spaces(t5) as int,
                                ),
                            )
                        }
                    }
                }
            }
        }
    }
}

/// Zero or more `@` clauses: the parsed policies, the remaining text after
/// them (whitespace-trimmed), and the column it resumes at.
pub open spec fn spec_parse_policies(t: Seq<char>, row: usize, col: int) -> Result<
    (Seq<UpdateSpecV>, Seq<char>, int),
    ParseErrorV,
>
    decreases t.len(),
{
    let l = leading_spaces(t) as int;
    let t0 = trim_left_view(t);
    let c0 = col + l;
    if !starts_with_view(t0, "@"@) {
        Ok((Seq::empty(), t0, c0))
    } else {
        match spec_parse_policy(t0, row, c0) {
            Err(e) => Err(e),
            Ok((p, rem, c)) => {
                // a clause always consumes at least its `@`, so the guard
                // only keeps the recursion visibly well-founded
                if rem.len() < t.len() {
                    match spec_parse_policies(rem, row, c) {
                        Err(e) => Err(e),
                        Ok((ps, rem2, c2)) => Ok((seq![p] + ps, rem2, c2)),
                    }
                } else {
                    Ok((seq![p], rem, c))
                }
            },
        }
    }
}

fn parse_policies<'a>(buf: &Buffer<'a>) -> (r: ParseResult<'a, Vec<UpdateSpec>>)
    requires
        buf.wf(),
    ensures
        match r {
            Ok((b, ps)) => {
                &&& spec_parse_policies(buf.text@, buf.row, buf.col as int) == Ok::<
                    (Seq<UpdateSpecV>, Seq<char>, int),
                    ParseErrorV,
                >((policies_view(ps@), b.text@, b.col as int))
                &&& b.row == buf.row
                &&& b.wf()
            },
            Err(e) => spec_parse_policies(buf.text@, buf.row, buf.col as int) == Err::<
                (Seq<UpdateSpecV>, Seq<char>, int),
                ParseErrorV,
            >(e@),
        },
{
    let mut cur = *buf;
    let mut out: Vec<UpdateSpec> = Vec::new();
    proof {
        assert(policies_view(out@) =~= Seq::<UpdateSpecV>::empty());
    }
    loop
        invariant
            cur.wf(),
            cur.row == buf.row,
            spec_parse_policies(buf.text@, buf.row, buf.col as int) == (match spec_parse_policies(
                cur.text@,
                buf.row,
                cur.col as int,
            ) {
                Ok((ps, rem, c)) => Ok::<(Seq<UpdateSpecV>, Seq<char>, int), ParseErrorV>(
                    (policies_view(out@) + ps, rem, c),
                ),
                Err(e) => Err::<(Seq<UpdateSpecV>, Seq<char>, int), ParseErrorV>(e),
            }),
        decreases cur.text@.len(),
    {
        let t0 = cur.trim_left();
        if !t0.starts_with("@") {
            proof {
                assert(policies_view(out@) + Seq::<UpdateSpecV>::empty() =~= policies_view(out@));
            }
            return Ok((t0, out));
        }
        let ghost pre_out = policies_view(out@);
        let (b, p) = match parse_policy(&t0) {
            Ok(x) => x,
            Err(e) => {
                proof {
                    assert(spec_parse_policy(t0.text@, buf.row, t0.col as int) == spec_parse_policy(
                        trim_left_view(cur.text@),
                        buf.row,
                        cur.col + leading_spaces(cur.text@),
                    ));
                }
                return Err(e);
            },
        };
        proof {
            assert(b.text@.len() < t0.text@.len());
            assert(t0.text@.len() <= cur.text@.len());
        }
        out.push(p);
        proof {
            assert(policies_view(out@) =~= pre_out.push(p@));
            if spec_parse_policies(b.text@, buf.row, b.col as int) is Ok {
                let inner = spec_parse_policies(b.text@, buf.row, b.col as int)->Ok_0;
                assert(pre_out.push(p@) + inner.0 =~= pre_out + (seq![p@] + inner.0));
            }
        }
        cur = b;
    }
}

/// What one subscription line means: the quoted name, whitespace, the
/// angle-bracketed URL, and the `@` clauses; text after the clauses is
/// ignored, as the grammar has always done.
pub open spec fn spec_parse_line(t: Seq<char>, row: usize, col: int) -> Result<
    (Seq<char>, Seq<char>, Seq<UpdateSpecV>),
    ParseErrorV,
> {
    let l0 = leading_spaces(t) as int;
    let t0 = trim_left_view(t);
    let c0 = col + l0;
    if t0.len() == 0 || t0[0] != '"' {
        Err(
            ParseErrorV {
                msg: "character '"@ + seq!['"', '\''],
                row,
                span: Some((c0 as usize, c0 as usize)),
            },
        )
    } else {
        let b1 = t0.skip(1);
        let k1 = idx_of(b1, '"');
        if k1 == b1.len() {
            Err(
                ParseErrorV {
                    msg: "closing '"@ + seq!['"', '\''],
                    row,
                    span: Some((c0 as usize, (c0 + t0.len()) as usize)),
                },
            )
        } else {
            let name = b1.take(k1);
            let t1 = t0.skip(k1 + 2);
            let c1 = c0 + k1 + 2;
            if leading_spaces(t1) == 0 {
                // the grammar puts whitespace between the name and the URL
                Err(
                    ParseErrorV {
                        msg: "whitespace"@,
                        row,
                        span: Some((c1 as usize, c1 as usize)),
                    },
                )
            } else {
                let l1 = leading_spaces(t1) as int;
                let t2 = trim_left_view(t1);
                let c2 = c1 + l1;
                if t2.len() == 0 || t2[0] != '<' {
                    Err(
                        ParseErrorV {
                            msg: "character '"@ + seq!['<', '\''],
                            row,
                            span: Some((c2 as usize, c2 as usize)),
                        },
                    )
                } else {
                    let b2 = t2.skip(1);
                    let k2 = idx_of(b2, '>');
                    if k2 == b2.len() {
                        Err(
                            ParseErrorV {
                                msg: "closing '"@ + seq!['>', '\''],
                                row,
                                span: Some((c2 as usize, (c2 + t2.len()) as usize)),
                            },
                        )
                    } else {
                        let url = b2.take(k2);
                        let t3 = t2.skip(k2 + 2);
                        let c3 = c2 + k2 + 2;
                        match spec_parse_policies(t3, row, c3) {
                            Err(e) => Err(e),
                            Ok((ps, _, _)) => Ok((name, url, ps)),
                        }
                    }
                }
            }
        }
    }
}

/// Consume the double-quoted subscription name.
fn parse_name<'a>(buf: &Buffer<'a>) -> (r: ParseResult<'a, &'a str>)
    requires
        buf.wf(),
    ensures
        ({
            let t0 = trim_left_view(buf.text@);
            let c0 = buf.col + leading_spaces(buf.text@) as int;
            match r {
                Ok((b, s)) => {
                    let body = t0.skip(1);
                    let k = idx_of(body, '"');
                    &&& t0.len() > 0 && t0[0] == '"'
                    &&& 0 <= k < body.len()
                    &&& s@ == body.take(k)
                    &&& b.text@ == t0.skip(k + 2)
                    &&& b.col == c0 + k + 2
                    &&& b.row == buf.row
                    &&& b.wf()
                },
                Err(e) => {
                    if t0.len() == 0 || t0[0] != '"' {
                        e@ == (ParseErrorV {
                            msg: "character '"@ + seq!['"', '\''],
                            row: buf.row,
                            span: Some((c0 as usize, c0 as usize)),
                        })
                    } else {
                        idx_of(t0.skip(1), '"') == t0.skip(1).len() && e@ == (ParseErrorV {
                            msg: "closing '"@ + seq!['"', '\''],
                            row: buf.row,
                            span: Some((c0 as usize, (c0 + t0.len()) as usize)),
                        })
                    }
                },
            }
        }),
{
    let t = buf.trim_left();
    let r = t.read_between('"', '"');
    proof {
        if r is Ok {
            lemma_idx_of_range(t.text@.skip(1), '"');
        }
    }
    r
}

/// Consume the angle-bracketed feed URL.
fn parse_url<'a>(buf: &Buffer<'a>) -> (r: ParseResult<'a, &'a str>)
    requires
        buf.wf(),
    ensures
        ({
            let t0 = trim_left_view(buf.text@);
            let c0 = buf.col + leading_spaces(buf.text@) as int;
            match r {
                Ok((b, s)) => {
                    let body = t0.skip(1);
                    let k = idx_of(body, '>');
                    &&& t0.len() > 0 && t0[0] == '<'
                    &&& 0 <= k < body.len()
                    &&& s@ == body.take(k)
                    &&& b.text@ == t0.skip(k + 2)
                    &&& b.col == c0 + k + 2
                    &&& b.row == buf.row
                    &&& b.wf()
                },
                Err(e) => {
                    if t0.len() == 0 || t0[0] != '<' {
                        e@ == (ParseErrorV {
                            msg: "character '"@ + seq!['<', '\''],
                            row: buf.row,
                            span: Some((c0 as usize, c0 as usize)),
                        })
                    } else {
                        idx_of(t0.skip(1), '>') == t0.skip(1).len() && e@ == (ParseErrorV {
                            msg: "closing '"@ + seq!['>', '\''],
                            row: buf.row,
                            span: Some((c0 as usize, (c0 + t0.len()) as usize)),
                        })
                    }
                },
            }
        }),
{
    let t = buf.trim_left();
    let r = t.read_between('<', '>');
    proof {
        if r is Ok {
            lemma_idx_of_range(t.text@.skip(1), '>');
        }
    }
    r
}

/// Parse one subscription line; the root scope and open command are the
/// caller's to fill in.
fn parse_line<'a>(buf: &Buffer<'a>) -> (r: ParseResult<'a, FeedInfo>)
    requires
        buf.wf(),
    ensures
        match r {
            Ok((b, f)) => {
                &&& spec_parse_line(buf.text@, buf.row, buf.col as int) matches Ok(x) && x.0
                    == f.name@ && x.1 == f.url@ && x.2 == policies_view(f.update_policies@)
                &&& f.root is None
                &&& f.command is None
            },
            Err(e) => spec_parse_line(buf.text@, buf.row, buf.col as int) == Err::<
                (Seq<char>, Seq<char>, Seq<UpdateSpecV>),
                ParseErrorV,
            >(e@),
        },
{
    let (b1, name) = match parse_name(buf) {
        Ok(x) => x,
        Err(e) => {
            return Err(e);
        },
    };
    let b1s = match b1.space() {
        Ok(b) => b,
        Err(e) => {
            return Err(e);
        },
    };
    proof {
        crate::parse_util::lemma_trim_left_idempotent(b1.text@);
    }
    let (b2, url) = match parse_url(&b1s) {
        Ok(x) => x,
        Err(e) => {
            return Err(e);
        },
    };
    let (b3, policies) = match parse_policies(&b2) {
        Ok(x) => x,
        Err(e) => {
            return Err(e);
        },
    };
    Ok(
        (
            b3,
            FeedInfo {
                name: name.to_owned(),
                url: url.to_owned(),
                update_policies: policies,
                root: None,
                command: None,
            },
        ),
    )
}

/// The views of a vector of subscriptions.
pub open spec fn feed_infos_view(v: Seq<FeedInfo>) -> Seq<FeedInfoV> {
    v.map_values(|f: FeedInfo| f@)
}

/// The subscriptions of the lines from index `i` on, under the active root
/// scope, or the first error. A blank or `#` line is skipped; a `root` line
/// changes or clears the scope for the lines after it.
pub open spec fn parse_config_from(
    lines: Seq<Seq<char>>,
    i: int,
    root: Option<Seq<char>>,
) -> Result<Seq<FeedInfoV>, ParseErrorV>
    decreases lines.len() - i,
{
    if i < 0 || i >= lines.len() {
        Ok(Seq::empty())
    } else {
        let t = lines[i];
        let row = (i + 1) as usize;
        let c0 = leading_spaces(t) as int;
        let line = trim_view(t);
        if line.len() == 0 || line[0] == '#' {
            parse_config_from(lines, i + 1, root)
        } else if starts_with_nc_view(line, "root"@) {
            let rest = line.skip("root"@.len() as int);
            let c1 = c0 + "root"@.len();
            if trim_view(rest).len() == 0 {
                parse_config_from(lines, i + 1, None)
            } else if leading_spaces(rest) == 0 {
                Err(
                    ParseErrorV {
                        msg: "whitespace"@,
                        row,
                        span: Some((c1 as usize, c1 as usize)),
                    },
                )
            } else {
                parse_config_from(lines, i + 1, Some(trim_view(rest)))
            }
        } else {
            match spec_parse_line(line, row, c0) {
                Err(e) => Err(e),
                Ok((name, url, ps)) => match parse_config_from(lines, i + 1, root) {
                    Err(e) => Err(e),
                    Ok(feeds) => Ok(
                        seq![
                            FeedInfoV { name, url, update_policies: ps, root, command: None },
                        ] + feeds,
                    ),
                },
            }
        }
    }
}

/// What the whole config text means: its subscriptions in file order, each
/// under the root scope active at its line, or the first error.
pub open spec fn spec_parse_config(s: Seq<char>) -> Result<Seq<FeedInfoV>, ParseErrorV> {
    parse_config_from(spec_lines(s), 0, None)
}

/// Parse the subscription config file. Blank and `#` lines are ignored; a
/// `root <path>` line scopes the subscriptions after it and a bare `root`
/// clears the scope; every other line is a subscription.
#[verifier::rlimit(60)]
pub fn parse_config(input: &str) -> (r: Result<Vec<FeedInfo>, ParseError>)
    ensures
        match r {
            Ok(feeds) => spec_parse_config(input@) == Ok::<Seq<FeedInfoV>, ParseErrorV>(
                feed_infos_view(feeds@),
            ),
            Err(e) => spec_parse_config(input@) == Err::<Seq<FeedInfoV>, ParseErrorV>(e@),
        },
{
    let lines = split_lines(input);
    let ghost ls = spec_lines(input@);
    let mut out: Vec<FeedInfo> = Vec::new();
    let mut root: Option<String> = None;
    let mut i: usize = 0;
    proof {
        assert(feed_infos_view(out@) =~= Seq::<FeedInfoV>::empty());
    }
    while i < lines.len()
        invariant
            0 <= i <= lines@.len(),
            ls == spec_lines(input@),
            strslices_view(lines@) == ls,
            lines@.len() == ls.len(),
            spec_parse_config(input@) == (match parse_config_from(ls, i as int, match &root {
                Some(p) => Some(p@),
                None => None,
            }) {
                Ok(rest) => Ok::<Seq<FeedInfoV>, ParseErrorV>(feed_infos_view(out@) + rest),
                Err(e) => Err::<Seq<FeedInfoV>, ParseErrorV>(e),
            }),
        decreases lines@.len() - i,
    {
        let line_text: &str = lines[i];
        // the call's contract bounds the line's length, which the cursor needs
        let _line_len = line_text.unicode_len();
        proof {
            assert(lines@[i as int]@ == ls[i as int]);
        }
        let buf = Buffer { text: line_text, row: i + 1, col: 0 };
        proof {
            assert(buf.wf());
        }
        let ghost lt = buf.text@;
        let ghost pre_out = feed_infos_view(out@);
        let ghost pre_root: Option<Seq<char>> = match &root {
            Some(p) => Some(p@),
            None => None,
        };
        let t = buf.trim();
        let is_comment = t.starts_with("#");
        proof {
            reveal_strlit("#");
            if t.text@.len() > 0 {
                if t.text@[0] == '#' {
                    assert(t.text@.subrange(0, 1) =~= "#"@);
                } else if starts_with_view(t.text@, "#"@) {
                    assert(t.text@[0] == t.text@.subrange(0, 1)[0]);
                    assert(false);
                }
            }
        }
        if !(t.text.is_empty() || is_comment) {
            if t.starts_with_no_case("root") {
                let t1 = match t.token_no_case("root") {
                    Ok(b) => b,
                    Err(e) => {
                        proof {
                            assert(false);
                        }
                        return Err(e);
                    },
                };
                let tv = t1.trim();
                if tv.text.is_empty() {
                    root = None;
                } else {
                    match t1.space() {
                        Ok(_) => {
                            root = Some(tv.text.to_owned());
                        },
                        Err(e) => {
                            return Err(e);
                        },
                    }
                }
            } else {
                let (_, mut feed) = match parse_line(&t) {
                    Ok(x) => x,
                    Err(e) => {
                        return Err(e);
                    },
                };
                feed.root = match &root {
                    Some(p) => Some(p.clone()),
                    None => None,
                };
                let ghost fv = feed@;
                out.push(feed);
                proof {
                    assert(feed_infos_view(out@) =~= pre_out.push(fv));
                }
            }
        }
        proof {
            let rowu = (i + 1) as usize;
            let line = trim_view(lt);
            let c0 = leading_spaces(lt) as int;
            let cur_root: Option<Seq<char>> = match &root {
                Some(p) => Some(p@),
                None => None,
            };
            if line.len() == 0 || line[0] == '#' {
                assert(parse_config_from(ls, i as int, pre_root) == parse_config_from(
                    ls,
                    i + 1,
                    cur_root,
                ));
            } else if starts_with_nc_view(line, "root"@) {
                let rest = line.skip("root"@.len() as int);
                if trim_view(rest).len() == 0 {
                    assert(cur_root is None);
                    assert(parse_config_from(ls, i as int, pre_root) == parse_config_from(
                        ls,
                        i + 1,
                        cur_root,
                    ));
                } else {
                    assert(cur_root == Some(trim_view(rest)));
                    assert(parse_config_from(ls, i as int, pre_root) == parse_config_from(
                        ls,
                        i + 1,
                        cur_root,
                    ));
                }
            } else {
                let x = spec_parse_line(line, rowu, c0)->Ok_0;
                let fv0 = FeedInfoV {
                    name: x.0,
                    url: x.1,
                    update_policies: x.2,
                    root: pre_root,
                    command: None,
                };
                assert(feed_infos_view(out@).last() == fv0);
                assert(parse_config_from(ls, i as int, pre_root) == (match parse_config_from(
                    ls,
                    i + 1,
                    pre_root,
                ) {
                    Ok(feeds) => Ok::<Seq<FeedInfoV>, ParseErrorV>(seq![fv0] + feeds),
                    Err(e) => Err::<Seq<FeedInfoV>, ParseErrorV>(e),
                }));
                if parse_config_from(ls, i + 1, pre_root) is Ok {
                    let rest = parse_config_from(ls, i + 1, pre_root)->Ok_0;
                    assert(pre_out.push(fv0) + rest =~= pre_out + (seq![fv0] + rest));
                }
            }
        }
        i = i + 1;
    }
    proof {
        assert(parse_config_from(ls, ls.len() as int, match &root {
            Some(p) => Some(p@),
            None => None,
        }) == Ok::<Seq<FeedInfoV>, ParseErrorV>(Seq::empty()));
        assert(feed_infos_view(out@) + Seq::<FeedInfoV>::empty() =~= feed_infos_view(out@));
    }
    Ok(out)
}

/// Consume one `@` clause.
fn parse_policy<'a>(buf: &Buffer<'a>) -> (r: ParseResult<'a, UpdateSpec>)
    requires
        buf.wf(),
    ensures
        match r {
            Ok((b, p)) => {
                &&& spec_parse_policy(buf.text@, buf.row, buf.col as int) matches Ok(pp) && pp.0
                    == p@ && pp.1 == b.text@ && pp.2 == b.col as int
                &&& b.row == buf.row
                &&& b.wf()
                &&& b.text@.len() < buf.text@.len()
            },
            Err(e) => spec_parse_policy(buf.text@, buf.row, buf.col as int) == Err::<
                (UpdateSpecV, Seq<char>, int),
                ParseErrorV,
            >(e@),
        },
{
    let t0 = buf.trim_left();
    let t1 = match t0.token("@") {
        Ok(b) => b,
        Err(e) => {
            return Err(e);
        },
    };
    let t2 = match t1.space() {
        Ok(b) => b,
        Err(e) => {
            return Err(e);
        },
    };
    parse_policy_body(&t2)
}

/// Consume the clause after its `@ ` prefix.
fn parse_policy_body<'a>(buf: &Buffer<'a>) -> (r: ParseResult<'a, UpdateSpec>)
    requires
        buf.wf(),
    ensures
        match r {
            Ok((b, p)) => {
                &&& spec_parse_policy_body(buf.text@, buf.row, buf.col as int) matches Ok(pp)
                    && pp.0 == p@ && pp.1 == b.text@ && pp.2 == b.col as int
                &&& b.row == buf.row
                &&& b.wf()
                &&& b.text@.len() <= buf.text@.len()
            },
            Err(e) => spec_parse_policy_body(buf.text@, buf.row, buf.col as int) == Err::<
                (UpdateSpecV, Seq<char>, int),
                ParseErrorV,
            >(e@),
        },
{
    if buf.starts_with_no_case("on") {
        let t1 = match buf.token_no_case("on") {
            Ok(b) => b,
            Err(e) => {
                proof {
                    assert(false);
                }
                return Err(e);
            },
        };
        let t2 = match t1.space() {
            Ok(b) => b,
            Err(e) => {
                return Err(e);
            },
        };
        let (t3, wd) = match parse_weekday(&t2) {
            Ok(x) => x,
            Err(e) => {
                return Err(e);
            },
        };
        let t4 = match t3.space_or_end() {
            Ok(b) => b,
            Err(e) => {
                return Err(e);
            },
        };
        Ok((t4, UpdateSpec::On(wd)))
    } else if buf.starts_with_no_case("every") {
        parse_count_clause(buf, true)
    } else if buf.starts_with_no_case("overlap") {
        parse_count_clause(buf, false)
    } else {
        let starts_digit = match buf.peek() {
            Some(c) => is_digit(c),
            None => false,
        };
        if starts_digit {
            let (t1, n) = match parse_number(buf) {
                Ok(x) => x,
                Err(e) => {
                    return Err(e);
                },
            };
            let t2 = t1.trim_left();
            proof {
                assert(buf.text@.skip(t1.col - buf.col).skip(leading_spaces(t1.text@) as int)
                    =~= buf.text@.skip(t1.col - buf.col + leading_spaces(t1.text@)));
            }
            let t3 = match t2.token_no_case("new") {
                Ok(b) => b,
                Err(e) => {
                    return Err(e);
                },
            };
            let t4 = match t3.space() {
                Ok(b) => b,
                Err(e) => {
                    return Err(e);
                },
            };
            let b = if t4.starts_with_no_case("comics") {
                t4.advance("comics".unicode_len())
            } else if t4.starts_with_no_case("comic") {
                t4.advance("comic".unicode_len())
            } else {
                return Err(t4.expected("either \"comics\" or \"comic\""));
            };
            match b.space_or_end() {
                Ok(b2) => Ok((b2, UpdateSpec::Comics(n))),
                Err(e) => Err(e),
            }
        } else if buf.starts_with_no_case("keep") {
            parse_filter_clause(buf, true)
        } else if buf.starts_with_no_case("ignore") {
            parse_filter_clause(buf, false)
        } else {
            let n = buf.text.unicode_len();
            Err(
                ParseError::expected(
                    "a policy definition. One of:\n - \"@ on WEEKDAY\"\n - \"@ every # day(s)\"\n - \"@ # new comic(s)\"\n - \"@ overlap # comic(s)\"\n - \"@ keep title|url \"REGEX\"\"\n - \"@ ignore title|url \"REGEX\"\"",
                    buf.row,
                    (buf.col, buf.col + n),
                ),
            )
        }
    }
}

/// Consume `every # day(s)` or `overlap # comic(s)` after its keyword was
/// sighted.
fn parse_count_clause<'a>(buf: &Buffer<'a>, every_kind: bool) -> (r: ParseResult<'a, UpdateSpec>)
    requires
        buf.wf(),
        every_kind ==> starts_with_nc_view(buf.text@, "every"@),
        !every_kind ==> starts_with_nc_view(buf.text@, "overlap"@),
    ensures
        match r {
            Ok((b, p)) => {
                &&& spec_parse_count_clause(buf.text@, buf.row, buf.col as int, every_kind)
                    matches Ok(pp) && pp.0 == p@ && pp.1 == b.text@ && pp.2 == b.col as int
                &&& b.row == buf.row
                &&& b.wf()
                &&& b.text@.len() <= buf.text@.len()
            },
            Err(e) => spec_parse_count_clause(buf.text@, buf.row, buf.col as int, every_kind)
                == Err::<(UpdateSpecV, Seq<char>, int), ParseErrorV>(e@),
        },
{
    let t1 = if every_kind {
        match buf.token_no_case("every") {
            Ok(b) => b,
            Err(e) => {
                proof {
                    assert(false);
                }
                return Err(e);
            },
        }
    } else {
        match buf.token_no_case("overlap") {
            Ok(b) => b,
            Err(e) => {
                proof {
                    assert(false);
                }
                return Err(e);
            },
        }
    };
    let t2 = match t1.space() {
        Ok(b) => b,
        Err(e) => {
            return Err(e);
        },
    };
    let (t3, n) = match parse_number(&t2) {
        Ok(x) => x,
        Err(e) => {
            return Err(e);
        },
    };
    proof {
        assert(t3.text@ =~= t2.text@.skip(t3.col - t2.col));
    }
    let t4 = match t3.space() {
        Ok(b) => b,
        Err(e) => {
            return Err(e);
        },
    };
    let long_tok: &str = if every_kind {
        "days"
    } else {
        "comics"
    };
    let short_tok: &str = if every_kind {
        "day"
    } else {
        "comic"
    };
    let t5 = if t4.starts_with_no_case(long_tok) {
        t4.advance(long_tok.unicode_len())
    } else if t4.starts_with_no_case(short_tok) {
        t4.advance(short_tok.unicode_len())
    } else {
        let e = if every_kind {
            t4.expected("either \"days\" or \"day\"")
        } else {
            t4.expected("either \"comics\" or \"comic\"")
        };
        return Err(e);
    };
    let t6 = match t5.space_or_end() {
        Ok(b) => b,
        Err(e) => {
            return Err(e);
        },
    };
    let p = if every_kind {
        UpdateSpec::Every(n)
    } else {
        UpdateSpec::Overlap(n)
    };
    Ok((t6, p))
}

/// Consume `keep title|url "REGEX"` or `ignore title|url "REGEX"` after its
/// keyword was sighted, validating the pattern.
fn parse_filter_clause<'a>(buf: &Buffer<'a>, keep: bool) -> (r: ParseResult<'a, UpdateSpec>)
    requires
        buf.wf(),
        keep ==> starts_with_nc_view(buf.text@, "keep"@),
        !keep ==> starts_with_nc_view(buf.text@, "ignore"@),
    ensures
        match r {
            Ok((b, p)) => {
                &&& spec_parse_filter(buf.text@, buf.row, buf.col as int, keep) matches Ok(pp)
                    && pp.0 == p@ && pp.1 == b.text@ && pp.2 == b.col as int
                &&& b.row == buf.row
                &&& b.wf()
                &&& b.text@.len() <= buf.text@.len()
            },
            Err(e) => spec_parse_filter(buf.text@, buf.row, buf.col as int, keep) == Err::<
                (UpdateSpecV, Seq<char>, int),
                ParseErrorV,
            >(e@),
        },
{
    let t1 = if keep {
        match buf.token_no_case("keep") {
            Ok(b) => b,
            Err(e) => {
                proof {
                    assert(false);
                }
                return Err(e);
            },
        }
    } else {
        match buf.token_no_case("ignore") {
            Ok(b) => b,
            Err(e) => {
                proof {
                    assert(false);
                }
                return Err(e);
            },
        }
    };
    let t2 = match t1.space() {
        Ok(b) => b,
        Err(e) => {
            return Err(e);
        },
    };
    let (t3, ftype) = if t2.starts_with_no_case("title") {
        (
            t2.advance("title".unicode_len()),
            if keep {
                FilterType::KeepTitle
            } else {
                FilterType::IgnoreTitle
            },
        )
    } else if t2.starts_with_no_case("url") {
        (
            t2.advance("url".unicode_len()),
            if keep {
                FilterType::KeepUrl
            } else {
                FilterType::IgnoreUrl
            },
        )
    } else {
        return Err(t2.expected("either \"title\" or \"url\""));
    };
    let t4 = match t3.space() {
        Ok(b) => b,
        Err(e) => {
            return Err(e);
        },
    };
    match t4.read_between('"', '"') {
        Ok((t5, pat)) => {
            proof {
                let body = t4.text@.skip(1);
                let k = idx_of(body, '"');
                lemma_idx_of_range(body, '"');
                assert(pat@ == body.take(k));
                assert(pat@.len() == k);
                assert(t4.is_rest(t5, k + 2));
            }
            if !crate::feed::regex_is_valid(pat) {
                let plen = pat.unicode_len();
                proof {
                    assert(plen + 2 <= t4.text@.len());
                    assert(t4.col + plen + 1 <= usize::MAX);
                }
                let e = ParseError::expected(
                    "a valid regular expression",
                    t4.row,
                    (t4.col, t4.col + plen + 1),
                );
                return Err(e);
            }
            match t5.space_or_end() {
                Ok(t6) => Ok((t6, UpdateSpec::Filter(ftype, pat.to_owned()))),
                Err(e) => Err(e),
            }
        },
        Err(e) => Err(e),
    }
}

/// Consume a weekday name, case-insensitively.
fn parse_weekday<'a>(buf: &Buffer<'a>) -> (r: ParseResult<'a, Weekday>)
    requires
        buf.wf(),
    ensures
        match r {
            Ok((b, wd)) => {
                &&& spec_parse_weekday(buf.text@) matches Some(p) && p.0 == wd && buf.is_rest(
                    b,
                    p.1,
                )
                &&& b.wf()
            },
            Err(e) => {
                &&& spec_parse_weekday(buf.text@) is None
                &&& e@ == (ParseErrorV {
                    msg: "a weekday"@,
                    row: buf.row,
                    span: Some(
                        (buf.col, token_span_end(buf.text@, buf.col as int) as usize),
                    ),
                })
            },
        },
{
    if buf.starts_with_no_case("sunday") {
        Ok((buf.advance("sunday".unicode_len()), Weekday::Sun))
    } else if buf.starts_with_no_case("monday") {
        Ok((buf.advance("monday".unicode_len()), Weekday::Mon))
    } else if buf.starts_with_no_case("tuesday") {
        Ok((buf.advance("tuesday".unicode_len()), Weekday::Tue))
    } else if buf.starts_with_no_case("wednesday") {
        Ok((buf.advance("wednesday".unicode_len()), Weekday::Wed))
    } else if buf.starts_with_no_case("thursday") {
        Ok((buf.advance("thursday".unicode_len()), Weekday::Thu))
    } else if buf.starts_with_no_case("friday") {
        Ok((buf.advance("friday".unicode_len()), Weekday::Fri))
    } else if buf.starts_with_no_case("saturday") {
        Ok((buf.advance("saturday".unicode_len()), Weekday::Sat))
    } else {
        // the error's span covers the whole offending token
        let n = buf.text.unicode_len();
        let mut k: usize = 0;
        while k < n && !is_space(buf.text.get_char(k))
            invariant
                0 <= k <= n,
                n == buf.text@.len(),
                forall|j: int| 0 <= j < k ==> !is_space_char(buf.text@[j]),
            decreases n - k,
        {
            k = k + 1;
        }
        proof {
            if k < n {
                assert(is_space_char(buf.text@[k as int]));
            }
            lemma_leading_word(buf.text@, k as int);
        }
        let hi = if k > 0 {
            buf.col + k - 1
        } else {
            buf.col
        };
        Err(ParseError::expected("a weekday", buf.row, (buf.col, hi)))
    }
}

} // verus!
