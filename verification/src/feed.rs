//! Subscriptions, update policies, the per-subscription event log, and the
//! scheduling engine that interprets one against the other.

use vstd::prelude::*;
use vstd::string::StrSliceExecFns;
use vstd::string::StringExecFns;

use crate::chars::push_char;
use crate::error::ParseError;
use crate::timedate::{weekday_succ, Timestamp, Weekday};

verus! {

/// Which field a filter policy inspects, and whether a match keeps or
/// discards the candidate.
#[derive(Clone, Copy, Debug, PartialEq, Eq, Structural)]
pub enum FilterType {
    KeepTitle,
    IgnoreTitle,
    KeepUrl,
    IgnoreUrl,
}

/// One scheduling or filtering clause of a subscription.
#[derive(Debug, PartialEq, Eq)]
pub enum UpdateSpec {
    /// Due only once the named weekday has passed since the last checkpoint.
    On(Weekday),
    /// Due only once this many whole days have elapsed since the last checkpoint.
    Every(usize),
    /// Ready only with at least this many unread items.
    Comics(usize),
    /// Re-include this many already-read items at the front of the next batch.
    Overlap(usize),
    /// Keep or discard candidate items by matching a regular expression
    /// against their title or URL.
    Filter(FilterType, String),
}

/// The mathematical value of an `UpdateSpec`.
pub enum UpdateSpecV {
    On(Weekday),
    Every(usize),
    Comics(usize),
    Overlap(usize),
    Filter(FilterType, Seq<char>),
}

impl View for UpdateSpec {
    type V = UpdateSpecV;

    open spec fn view(&self) -> UpdateSpecV {
        match self {
            UpdateSpec::On(d) => UpdateSpecV::On(*d),
            UpdateSpec::Every(n) => UpdateSpecV::Every(*n),
            UpdateSpec::Comics(n) => UpdateSpecV::Comics(*n),
            UpdateSpec::Overlap(n) => UpdateSpecV::Overlap(*n),
            UpdateSpec::Filter(t, p) => UpdateSpecV::Filter(*t, p@),
        }
    }
}

impl Clone for UpdateSpec {
    fn clone(&self) -> (r: Self)
        ensures
            r == *self,
    {
        match self {
            UpdateSpec::On(d) => UpdateSpec::On(*d),
            UpdateSpec::Every(n) => UpdateSpec::Every(*n),
            UpdateSpec::Comics(n) => UpdateSpec::Comics(*n),
            UpdateSpec::Overlap(n) => UpdateSpec::Overlap(*n),
            UpdateSpec::Filter(t, p) => UpdateSpec::Filter(*t, p.clone()),
        }
    }
}

pub open spec fn policies_view(ps: Seq<UpdateSpec>) -> Seq<UpdateSpecV> {
    ps.map_values(|p: UpdateSpec| p@)
}

/// One subscription from the config file.
#[derive(Debug, PartialEq, Eq)]
pub struct FeedInfo {
    /// Display title; also the key the log storage is looked up under.
    pub name: String,
    /// The feed URL to fetch.
    pub url: String,
    /// All policies combine with AND semantics.
    pub update_policies: Vec<UpdateSpec>,
    /// Filesystem scope inherited from the most recent `root` directive.
    pub root: Option<String>,
    /// Optional override argv for opening an item.
    pub command: Option<Vec<String>>,
}

/// The mathematical value of a `FeedInfo`.
pub struct FeedInfoV {
    pub name: Seq<char>,
    pub url: Seq<char>,
    pub update_policies: Seq<UpdateSpecV>,
    pub root: Option<Seq<char>>,
    pub command: Option<Seq<Seq<char>>>,
}

impl View for FeedInfo {
    type V = FeedInfoV;

    open spec fn view(&self) -> FeedInfoV {
        FeedInfoV {
            name: self.name@,
            url: self.url@,
            update_policies: policies_view(self.update_policies@),
            root: match self.root {
                Some(r) => Some(r@),
                None => None,
            },
            command: match self.command {
                Some(c) => Some(c.deep_view()),
                None => None,
            },
        }
    }
}

pub(crate) fn clone_strings(v: &Vec<String>) -> (r: Vec<String>)
    ensures
        r@ == v@,
{
    let mut r: Vec<String> = Vec::new();
    let mut i: usize = 0;
    while i < v.len()
        invariant
            0 <= i <= v@.len(),
            r@ =~= v@.take(i as int),
        decreases v@.len() - i,
    {
        r.push(v[i].clone());
        i = i + 1;
    }
    assert(r@ =~= v@);
    r
}

impl Clone for FeedInfo {
    fn clone(&self) -> (r: Self)
        ensures
            r@ == self@,
            r.name@ == self.name@,
            r.url@ == self.url@,
            r.update_policies@ == self.update_policies@,
    {
        let mut policies: Vec<UpdateSpec> = Vec::new();
        let mut i: usize = 0;
        while i < self.update_policies.len()
            invariant
                0 <= i <= self.update_policies@.len(),
                policies@ =~= self.update_policies@.take(i as int),
            decreases self.update_policies@.len() - i,
        {
            policies.push(self.update_policies[i].clone());
            i = i + 1;
        }
        assert(policies@ =~= self.update_policies@);
        let r = FeedInfo {
            name: self.name.clone(),
            url: self.url.clone(),
            update_policies: policies,
            root: match &self.root {
                Some(p) => Some(p.clone()),
                None => None,
            },
            command: match &self.command {
                Some(c) => Some(clone_strings(c)),
                None => None,
            },
        };
        assert(r@.command == self@.command);
        assert(r@ =~= self@);
        r
    }
}

/// Whether a pattern is a valid regular expression. Named for the result of
/// `regex::Regex::new`, which depends on the pattern alone.
pub uninterp spec fn regex_ok(pat: Seq<char>) -> bool;

/// Whether a pattern matches somewhere in a text. Named for the result of
/// `regex::Regex::is_match`, which depends on the pattern and the text alone.
pub uninterp spec fn regex_match(pat: Seq<char>, text: Seq<char>) -> bool;

/// Relies on `regex::Regex::new`: compiling succeeds exactly on the valid
/// patterns.
#[verifier::external_body]
pub(crate) fn regex_is_valid(pat: &str) -> (r: bool)
    ensures
        r == regex_ok(pat@),
{
    regex::Regex::new(pat).is_ok()
}

/// Relies on `regex::Regex::new` and `regex::Regex::is_match`: for a valid
/// pattern, whether it matches anywhere in `text`; `None` on an invalid
/// pattern.
#[verifier::external_body]
fn regex_match_checked(pat: &str, text: &str) -> (r: Option<bool>)
    ensures
        r == if regex_ok(pat@) {
            Some(regex_match(pat@, text@))
        } else {
            None::<bool>
        },
{
    regex::Regex::new(pat).ok().map(|re| re.is_match(text))
}

/// One filter clause's verdict on a title. Clauses whose pattern is not a
/// valid regular expression constrain nothing; the config parser rejects
/// such patterns up front.
pub open spec fn title_clause_passes(p: UpdateSpecV, title: Seq<char>) -> bool {
    match p {
        UpdateSpecV::Filter(FilterType::KeepTitle, pat) => regex_ok(pat) ==> regex_match(
            pat,
            title,
        ),
        UpdateSpecV::Filter(FilterType::IgnoreTitle, pat) => regex_ok(pat) ==> !regex_match(
            pat,
            title,
        ),
        _ => true,
    }
}

pub open spec fn title_passes(ps: Seq<UpdateSpecV>, title: Seq<char>) -> bool {
    forall|i: int| 0 <= i < ps.len() ==> title_clause_passes(#[trigger] ps[i], title)
}

/// One filter clause's verdict on an item URL.
pub open spec fn url_clause_passes(p: UpdateSpecV, url: Seq<char>) -> bool {
    match p {
        UpdateSpecV::Filter(FilterType::KeepUrl, pat) => regex_ok(pat) ==> regex_match(pat, url),
        UpdateSpecV::Filter(FilterType::IgnoreUrl, pat) => regex_ok(pat) ==> !regex_match(pat, url),
        _ => true,
    }
}

pub open spec fn url_passes(ps: Seq<UpdateSpecV>, url: Seq<char>) -> bool {
    forall|i: int| 0 <= i < ps.len() ==> url_clause_passes(#[trigger] ps[i], url)
}

impl FeedInfo {
    /// Should an item with this title enter the log? Every keep-filter must
    /// match it and no ignore-filter may.
    pub fn filter_title(&self, title: &str) -> (r: bool)
        ensures
            r == title_passes(policies_view(self.update_policies@), title@),
    {
        let ghost ps = policies_view(self.update_policies@);
        let mut i: usize = 0;
        while i < self.update_policies.len()
            invariant
                0 <= i <= ps.len(),
                ps == policies_view(self.update_policies@),
                forall|j: int| 0 <= j < i ==> title_clause_passes(#[trigger] ps[j], title@),
            decreases ps.len() - i,
        {
            match &self.update_policies[i] {
                UpdateSpec::Filter(FilterType::KeepTitle, pat) => {
                    match regex_match_checked(pat.as_str(), title) {
                        Some(true) => (),
                        Some(false) => {
                            assert(!title_clause_passes(ps[i as int], title@));
                            return false;
                        },
                        None => (),
                    }
                },
                UpdateSpec::Filter(FilterType::IgnoreTitle, pat) => {
                    match regex_match_checked(pat.as_str(), title) {
                        Some(true) => {
                            assert(!title_clause_passes(ps[i as int], title@));
                            return false;
                        },
                        Some(false) => (),
                        None => (),
                    }
                },
                _ => (),
            }
            i = i + 1;
        }
        true
    }

    /// Should an item with this URL enter the log?
    pub fn filter_url(&self, url: &str) -> (r: bool)
        ensures
            r == url_passes(policies_view(self.update_policies@), url@),
    {
        let ghost ps = policies_view(self.update_policies@);
        let mut i: usize = 0;
        while i < self.update_policies.len()
            invariant
                0 <= i <= ps.len(),
                ps == policies_view(self.update_policies@),
                forall|j: int| 0 <= j < i ==> url_clause_passes(#[trigger] ps[j], url@),
            decreases ps.len() - i,
        {
            match &self.update_policies[i] {
                UpdateSpec::Filter(FilterType::KeepUrl, pat) => {
                    match regex_match_checked(pat.as_str(), url) {
                        Some(true) => (),
                        Some(false) => {
                            assert(!url_clause_passes(ps[i as int], url@));
                            return false;
                        },
                        None => (),
                    }
                },
                UpdateSpec::Filter(FilterType::IgnoreUrl, pat) => {
                    match regex_match_checked(pat.as_str(), url) {
                        Some(true) => {
                            assert(!url_clause_passes(ps[i as int], url@));
                            return false;
                        },
                        Some(false) => (),
                        None => (),
                    }
                },
                _ => (),
            }
            i = i + 1;
        }
        true
    }
}

impl FeedInfo {
    /// Parse this subscription's full log text and assemble the feed state,
    /// deriving the checkpoint, counter and seen-URL set from the events. A
    /// malformed log fails with the parser's row-exact error and nothing is
    /// built.
    pub fn read_feed(&self, text: &str) -> (r: Result<Feed, ParseError>)
        ensures
            match r {
                Ok(f) => {
                    &&& crate::parser::spec_parse_events(text@) == Ok::<
                        Seq<FeedEventV>,
                        crate::error::ParseErrorV,
                    >(f.history_view())
                    &&& f.wf()
                    &&& f.pending_view() == Seq::<FeedEventV>::empty()
                    &&& f.merged_view() == f.history_view()
                    &&& f.spec_info()@ == self@
                },
                Err(e) => crate::parser::spec_parse_events(text@) == Err::<
                    Seq<FeedEventV>,
                    crate::error::ParseErrorV,
                >(e@),
            },
    {
        match crate::parser::parse_events(text) {
            Ok(events) => Ok(Feed::from_events(self.clone(), events)),
            Err(e) => Err(e),
        }
    }
}

/// One line of a subscription's history.
#[derive(Debug, PartialEq)]
pub enum FeedEvent {
    /// An item with this URL existed at fetch time; the URL is the dedup key.
    ComicUrl(String),
    /// Everything up to here was read at the given time.
    Read(Timestamp),
}

/// The mathematical value of a `FeedEvent`.
pub enum FeedEventV {
    ComicUrl(Seq<char>),
    Read(Seq<char>, i64),
}

impl View for FeedEvent {
    type V = FeedEventV;

    open spec fn view(&self) -> FeedEventV {
        match self {
            FeedEvent::ComicUrl(u) => FeedEventV::ComicUrl(u@),
            FeedEvent::Read(ts) => FeedEventV::Read(ts.text_view(), ts.millis_view()),
        }
    }
}

impl Clone for FeedEvent {
    fn clone(&self) -> (r: Self)
        ensures
            r == *self,
    {
        match self {
            FeedEvent::ComicUrl(u) => FeedEvent::ComicUrl(u.clone()),
            FeedEvent::Read(ts) => FeedEvent::Read(ts.clone()),
        }
    }
}

pub open spec fn events_view(evs: Seq<FeedEvent>) -> Seq<FeedEventV> {
    evs.map_values(|e: FeedEvent| e@)
}

/// An event the log syntax can carry faithfully: an item URL contains no
/// closing bracket and no newline; a checkpoint is a well-formed timestamp.
/// A URL with a `>` or a newline would change meaning when written out and
/// read back.
pub open spec fn event_wf(e: FeedEventV) -> bool {
    match e {
        FeedEventV::ComicUrl(u) => forall|i: int| 0 <= i < u.len() ==> u[i] != '>' && u[i] != '\n',
        FeedEventV::Read(t, m) => crate::timedate::ts_wf(t, m),
    }
}

/// The instant of the latest checkpoint, if any was ever recorded.
pub open spec fn last_read_millis(evs: Seq<FeedEventV>) -> Option<i64>
    decreases evs.len(),
{
    if evs.len() == 0 {
        None
    } else {
        match evs.last() {
            FeedEventV::Read(_, m) => Some(m),
            FeedEventV::ComicUrl(_) => last_read_millis(evs.drop_last()),
        }
    }
}

/// How many items were recorded after the latest checkpoint.
pub open spec fn new_since(evs: Seq<FeedEventV>) -> nat
    decreases evs.len(),
{
    if evs.len() == 0 {
        0
    } else {
        match evs.last() {
            FeedEventV::Read(_, _) => 0,
            FeedEventV::ComicUrl(_) => 1 + new_since(evs.drop_last()),
        }
    }
}

/// Every URL that ever appeared in an item event.
pub open spec fn seen_urls(evs: Seq<FeedEventV>) -> Set<Seq<char>>
    decreases evs.len(),
{
    if evs.len() == 0 {
        Set::empty()
    } else {
        match evs.last() {
            FeedEventV::Read(_, _) => seen_urls(evs.drop_last()),
            FeedEventV::ComicUrl(u) => seen_urls(evs.drop_last()).insert(u),
        }
    }
}

proof fn lemma_new_since_le_len(evs: Seq<FeedEventV>)
    ensures
        new_since(evs) <= evs.len(),
    decreases evs.len(),
{
    if evs.len() > 0 {
        lemma_new_since_le_len(evs.drop_last());
    }
}

/// Whole days between instant `a` and a later (or earlier) instant `b`, in
/// milliseconds since the epoch; truncated toward zero, negative when `b`
/// precedes `a`.
pub open spec fn days_between(a: int, b: int) -> int {
    if b >= a {
        (b - a) / 86400000
    } else {
        -((a - b) / 86400000)
    }
}

/// Compute `days_between` on machine integers.
pub fn days_between_exec(a: i64, b: i64) -> (d: i64)
    ensures
        d == days_between(a as int, b as int),
{
    if b >= a {
        let diff: u128 = (b as i128 - a as i128) as u128;
        let q: u128 = diff / 86400000;
        proof {
            lemma_div_bound(diff as int);
        }
        q as i64
    } else {
        let diff: u128 = (a as i128 - b as i128) as u128;
        let q: u128 = diff / 86400000;
        proof {
            lemma_div_bound(diff as int);
        }
        let qi: i64 = q as i64;
        -qi
    }
}

proof fn lemma_div_bound(diff: int)
    requires
        0 <= diff < 0x20000000000000000,
    ensures
        0 <= diff / 86400000 < 0x8000000000000000,
{
    assert(diff / 86400000 <= diff / 86400000);
    assert(86400000 * (diff / 86400000) + diff % 86400000 == diff) by {
        vstd::arithmetic::div_mod::lemma_fundamental_div_mod(diff, 86400000);
    }
    assert(0 <= diff % 86400000) by {
        vstd::arithmetic::div_mod::lemma_mod_bound(diff, 86400000);
    }
    assert(0 <= diff / 86400000) by {
        vstd::arithmetic::div_mod::lemma_div_pos_is_pos(diff, 86400000);
    }
    if diff / 86400000 >= 0x8000000000000000 {
        assert(86400000 * (diff / 86400000) >= 86400000 * 0x8000000000000000) by {
            vstd::arithmetic::mul::lemma_mul_inequality(
                0x8000000000000000,
                diff / 86400000,
                86400000,
            );
        }
        assert(false);
    }
}

/// `w` advanced `n` single-day steps.
pub open spec fn iter_succ(w: Weekday, n: nat) -> Weekday
    decreases n,
{
    if n == 0 {
        w
    } else {
        weekday_succ(iter_succ(w, (n - 1) as nat))
    }
}

/// Walking forward from `start`, one day at a time for `steps` steps, is
/// `target` ever reached?
pub open spec fn walk_hits(start: Weekday, target: Weekday, steps: nat) -> bool
    decreases steps,
{
    if steps == 0 {
        false
    } else {
        weekday_succ(start) == target || walk_hits(weekday_succ(start), target, (steps - 1) as nat)
    }
}

proof fn lemma_iter_succ_shift(w: Weekday, n: nat)
    ensures
        iter_succ(weekday_succ(w), n) == weekday_succ(iter_succ(w, n)),
    decreases n,
{
    if n > 0 {
        lemma_iter_succ_shift(w, (n - 1) as nat);
    }
}

proof fn lemma_walk_step(s: Weekday, t: Weekday, i: nat)
    ensures
        walk_hits(s, t, i + 1) == (walk_hits(s, t, i) || iter_succ(s, i + 1) == t),
    decreases i,
{
    if i == 0 {
        assert(walk_hits(s, t, 1) == (weekday_succ(s) == t || walk_hits(weekday_succ(s), t, 0)));
        assert(iter_succ(s, 1) == weekday_succ(iter_succ(s, 0)));
    } else {
        lemma_walk_step(weekday_succ(s), t, (i - 1) as nat);
        lemma_iter_succ_shift(s, i);
        lemma_iter_succ_shift(s, (i - 1) as nat);
        assert(walk_hits(s, t, i + 1) == (weekday_succ(s) == t || walk_hits(
            weekday_succ(s),
            t,
            i,
        )));
        assert(walk_hits(s, t, i) == (weekday_succ(s) == t || walk_hits(
            weekday_succ(s),
            t,
            (i - 1) as nat,
        )));
        assert(iter_succ(s, i + 1) == weekday_succ(iter_succ(s, i)));
    }
}

/// Walk the weekday forward from `start` exactly `steps` single-day steps;
/// true when `target` is hit at any step.
pub fn weekday_walk_hits(start: Weekday, target: Weekday, steps: u64) -> (r: bool)
    ensures
        r == walk_hits(start, target, steps as nat),
{
    let mut cur = start;
    let mut hit = false;
    let mut i: u64 = 0;
    while i < steps
        invariant
            0 <= i <= steps,
            cur == iter_succ(start, i as nat),
            hit == walk_hits(start, target, i as nat),
        decreases steps - i,
    {
        proof {
            lemma_walk_step(start, target, i as nat);
        }
        cur = cur.succ();
        if cur == target {
            hit = true;
        }
        i = i + 1;
    }
    hit
}

/// Every `Every(n)` clause allows `elapsed` whole days.
pub open spec fn every_ok(ps: Seq<UpdateSpecV>, elapsed: int) -> bool {
    forall|i: int|
        0 <= i < ps.len() ==> ((#[trigger] ps[i]) matches UpdateSpecV::Every(n) ==> elapsed
            >= n as int)
}

/// Does any `On(day)` clause constrain this subscription?
pub open spec fn day_relevant(ps: Seq<UpdateSpecV>) -> bool {
    exists|i: int| 0 <= i < ps.len() && (#[trigger] ps[i]) matches UpdateSpecV::On(_)
}

/// Does some `On(day)` clause's weekday fall within the walked range?
pub open spec fn day_hit(ps: Seq<UpdateSpecV>, last_wd: Weekday, steps: nat) -> bool {
    exists|i: int|
        0 <= i < ps.len() && ((#[trigger] ps[i]) matches UpdateSpecV::On(d) && walk_hits(
            last_wd,
            d,
            steps,
        ))
}

/// The scheduling verdict, given the policies, the whole days elapsed since
/// the last checkpoint, and that checkpoint's local weekday. `Comics`,
/// `Overlap` and `Filter` clauses play no part here.
pub open spec fn spec_scheduled(ps: Seq<UpdateSpecV>, elapsed: int, last_wd: Weekday) -> bool {
    &&& every_ok(ps, elapsed)
    &&& (!day_relevant(ps) || day_hit(
        ps,
        last_wd,
        if elapsed >= 0 {
            elapsed as nat
        } else {
            0
        },
    ))
}

/// The scheduling verdict from plain values: `elapsed_days` whole days have
/// passed since a checkpoint that fell on `last_weekday`.
pub fn is_scheduled_from(policies: &Vec<UpdateSpec>, elapsed_days: i64, last_weekday: Weekday) -> (r:
    bool)
    ensures
        r == spec_scheduled(policies_view(policies@), elapsed_days as int, last_weekday),
{
    let ghost ps = policies_view(policies@);
    let steps: u64 = if elapsed_days >= 0 {
        elapsed_days as u64
    } else {
        0
    };
    let mut day_relevant_seen = false;
    let mut day_passed = false;
    let mut i: usize = 0;
    while i < policies.len()
        invariant
            0 <= i <= ps.len(),
            ps == policies_view(policies@),
            steps == if elapsed_days >= 0 {
                elapsed_days as int
            } else {
                0
            },
            every_ok(ps.take(i as int), elapsed_days as int),
            day_relevant_seen == day_relevant(ps.take(i as int)),
            day_passed == day_hit(ps.take(i as int), last_weekday, steps as nat),
        decreases ps.len() - i,
    {
        match &policies[i] {
            UpdateSpec::Every(n) => {
                let fails: bool = if elapsed_days < 0 {
                    true
                } else {
                    (elapsed_days as u64 as u128) < (*n as u128)
                };
                if fails {
                    assert(!every_ok(ps, elapsed_days as int)) by {
                        assert(ps[i as int] matches UpdateSpecV::Every(m) && !(elapsed_days as int
                            >= m as int));
                    }
                    return false;
                }
            },
            UpdateSpec::On(d) => {
                day_relevant_seen = true;
                if !day_passed {
                    if weekday_walk_hits(last_weekday, *d, steps) {
                        day_passed = true;
                        assert(ps[i as int] matches UpdateSpecV::On(dd) && walk_hits(
                            last_weekday,
                            dd,
                            steps as nat,
                        ));
                    }
                }
            },
            _ => (),
        }
        proof {
            assert(ps.take(i + 1).drop_last() =~= ps.take(i as int));
            assert(ps.take(i + 1)[i as int] == ps[i as int]);
            if day_hit(ps.take(i + 1), last_weekday, steps as nat) && !day_hit(
                ps.take(i as int),
                last_weekday,
                steps as nat,
            ) && !(ps[i as int] matches UpdateSpecV::On(d) && walk_hits(
                last_weekday,
                d,
                steps as nat,
            )) {
                let j = choose|j: int|
                    0 <= j < ps.take(i + 1).len() && ((#[trigger] ps.take(i + 1)[j]) matches
                        UpdateSpecV::On(d) && walk_hits(last_weekday, d, steps as nat));
                assert(0 <= j < i + 1);
                assert(ps.take(i as int)[j] == ps.take(i + 1)[j] || j == i);
                assert(false);
            }
        }
        i = i + 1;
    }
    proof {
        assert(ps.take(ps.len() as int) =~= ps);
    }
    !day_relevant_seen || day_passed
}

/// How one event serializes: `<url>` for an item, `read <timestamp>` for a
/// checkpoint, each on a line of its own.
pub open spec fn serialize_event(e: FeedEventV) -> Seq<char> {
    match e {
        FeedEventV::ComicUrl(u) => seq!['<'] + u + seq!['>', '\n'],
        FeedEventV::Read(t, _) => "read "@ + t + seq!['\n'],
    }
}

pub open spec fn serialize_events_view(evs: Seq<FeedEventV>) -> Seq<char>
    decreases evs.len(),
{
    if evs.len() == 0 {
        Seq::empty()
    } else {
        serialize_events_view(evs.drop_last()) + serialize_event(evs.last())
    }
}

/// Render a sequence of events in event-log syntax, in order.
pub fn serialize_events(events: &Vec<FeedEvent>) -> (out: String)
    ensures
        out@ == serialize_events_view(events_view(events@)),
{
    let ghost evs = events_view(events@);
    let mut out = String::new();
    let mut i: usize = 0;
    while i < events.len()
        invariant
            0 <= i <= evs.len(),
            evs == events_view(events@),
            out@ == serialize_events_view(evs.take(i as int)),
        decreases evs.len() - i,
    {
        match &events[i] {
            FeedEvent::ComicUrl(u) => {
                push_char(&mut out, '<');
                out.append(u.as_str());
                push_char(&mut out, '>');
                push_char(&mut out, '\n');
            },
            FeedEvent::Read(ts) => {
                out.append("read ");
                out.append(ts.as_rfc3339().as_str());
                push_char(&mut out, '\n');
            },
        }
        proof {
            assert(evs.take(i + 1).drop_last() =~= evs.take(i as int));
            assert(evs.take(i + 1).last() == evs[i as int]);
            assert(out@ =~= serialize_events_view(evs.take(i + 1)));
        }
        i = i + 1;
    }
    proof {
        assert(evs.take(evs.len() as int) =~= evs);
    }
    out
}

/// The set of URLs a vector of strings holds.
pub open spec fn strs_set(v: Seq<String>) -> Set<Seq<char>> {
    v.map_values(|s: String| s@).to_set()
}

proof fn lemma_strs_set_push(v: Seq<String>, u: String)
    ensures
        strs_set(v.push(u)) =~= strs_set(v).insert(u@),
{
    let f = |s: String| s@;
    assert(v.push(u).map_values(f) =~= v.map_values(f).push(u@));
    let s = v.map_values(f);
    assert forall|x: Seq<char>| s.push(u@).contains(x) implies s.contains(x) || x == u@ by {
        let i = choose|i: int| 0 <= i < s.push(u@).len() && s.push(u@)[i] == x;
        if i < s.len() {
            assert(s[i] == x);
        }
    }
    assert forall|x: Seq<char>| s.contains(x) implies s.push(u@).contains(x) by {
        let i = choose|i: int| 0 <= i < s.len() && s[i] == x;
        assert(s.push(u@)[i] == x);
    }
    assert(s.push(u@).contains(u@)) by {
        assert(s.push(u@)[s.len() as int] == u@);
    }
}

/// A subscription together with its parsed history and the events produced
/// this run but not yet flushed. The cached counter, checkpoint and URL set
/// always agree with the merged event sequence.
#[derive(Debug)]
pub struct Feed {
    info: FeedInfo,
    last_read: Option<Timestamp>,
    new_comics: usize,
    seen_comics: Vec<String>,
    new_events: Vec<FeedEvent>,
    events: Vec<FeedEvent>,
}

impl Feed {
    /// The flushed history, as event values.
    pub closed spec fn history_view(self) -> Seq<FeedEventV> {
        events_view(self.events@)
    }

    /// The events produced this run and not yet flushed.
    pub closed spec fn pending_view(self) -> Seq<FeedEventV> {
        events_view(self.new_events@)
    }

    /// The full event sequence: history, then pending, in order.
    pub open spec fn merged_view(self) -> Seq<FeedEventV> {
        self.history_view() + self.pending_view()
    }

    /// The subscription this feed belongs to.
    pub closed spec fn spec_info(self) -> FeedInfo {
        self.info
    }

    pub open spec fn policies(self) -> Seq<UpdateSpecV> {
        policies_view(self.spec_info().update_policies@)
    }

    /// The cached fields agree with the merged event sequence.
    pub closed spec fn wf(self) -> bool {
        &&& self.new_comics == new_since(self.merged_view())
        &&& (match self.last_read {
            None => last_read_millis(self.merged_view()) is None,
            Some(ts) => last_read_millis(self.merged_view()) == Some(ts.millis_view()),
        })
        &&& strs_set(self.seen_comics@) == seen_urls(self.merged_view())
    }

    /// Assemble a feed from a subscription and its parsed history, deriving
    /// the checkpoint, the new-item counter and the seen-URL set from the
    /// events.
    pub fn from_events(info: FeedInfo, events: Vec<FeedEvent>) -> (f: Feed)
        ensures
            f.wf(),
            f.history_view() == events_view(events@),
            f.pending_view() == Seq::<FeedEventV>::empty(),
            f.merged_view() == events_view(events@),
            f.spec_info() == info,
    {
        let ghost evs = events_view(events@);
        let mut last_read: Option<Timestamp> = None;
        let mut new_comics: usize = 0;
        let mut seen_comics: Vec<String> = Vec::new();
        let mut i: usize = 0;
        while i < events.len()
            invariant
                0 <= i <= evs.len(),
                evs == events_view(events@),
                evs.len() == events@.len(),
                new_comics == new_since(evs.take(i as int)),
                match last_read {
                    None => last_read_millis(evs.take(i as int)) is None,
                    Some(ts) => last_read_millis(evs.take(i as int)) == Some(ts.millis_view()),
                },
                strs_set(seen_comics@) == seen_urls(evs.take(i as int)),
            decreases evs.len() - i,
        {
            proof {
                assert(evs.take(i + 1).drop_last() =~= evs.take(i as int));
                assert(evs.take(i + 1).last() == evs[i as int]);
                lemma_new_since_le_len(evs.take(i as int));
            }
            match &events[i] {
                FeedEvent::ComicUrl(u) => {
                    proof {
                        lemma_strs_set_push(seen_comics@, *u);
                    }
                    seen_comics.push(u.clone());
                    new_comics = new_comics + 1;
                    assert(strs_set(seen_comics@) =~= seen_urls(evs.take(i + 1)));
                },
                FeedEvent::Read(ts) => {
                    last_read = Some(ts.clone());
                    new_comics = 0;
                },
            }
            i = i + 1;
        }
        proof {
            assert(evs.take(evs.len() as int) =~= evs);
        }
        let f = Feed {
            info,
            last_read,
            new_comics,
            seen_comics,
            new_events: Vec::new(),
            events,
        };
        assert(f.merged_view() =~= evs);
        f
    }

    /// The subscription this feed was built from.
    pub fn info(&self) -> (r: &FeedInfo)
        ensures
            r == self.spec_info(),
    {
        &self.info
    }

    /// How many events the merged sequence holds, when that fits a machine
    /// word; callers check this before recording more.
    pub fn event_count(&self) -> (r: Option<usize>)
        ensures
            match r {
                Some(n) => n == self.merged_view().len(),
                None => self.merged_view().len() > usize::MAX,
            },
    {
        let a = self.events.len();
        let b = self.new_events.len();
        if a <= usize::MAX - b {
            Some(a + b)
        } else {
            None
        }
    }

    /// How many items arrived after the last checkpoint.
    pub fn new_comics(&self) -> (n: usize)
        requires
            self.wf(),
        ensures
            n == new_since(self.merged_view()),
    {
        self.new_comics
    }

    /// Record freshly fetched items, oldest first. A URL that ever appeared
    /// in the log (history or pending) is skipped; each other URL is appended
    /// once as a pending item event. This is the sole dedup boundary.
    pub fn add_new_comics(&mut self, urls: &Vec<String>)
        requires
            old(self).wf(),
            old(self).merged_view().len() + urls@.len() <= usize::MAX,
        ensures
            final(self).wf(),
            final(self).merged_view() == record_spec(
                old(self).merged_view(),
                urls@.map_values(|u: String| u@),
            ),
            final(self).history_view() == old(self).history_view(),
            final(self).spec_info() == old(self).spec_info(),
    {
        let ghost us = urls@.map_values(|u: String| u@);
        let ghost orig = self.merged_view();
        proof {
            assert(us.skip(0) =~= us);
        }
        let mut i: usize = 0;
        while i < urls.len()
            invariant
                0 <= i <= us.len(),
                us == urls@.map_values(|u: String| u@),
                us.len() == urls@.len(),
                self.wf(),
                record_spec(orig, us) == record_spec(self.merged_view(), us.skip(i as int)),
                self.merged_view().len() + us.len() - i <= usize::MAX,
                self.history_view() == old(self).history_view(),
                self.spec_info() == old(self).spec_info(),
            decreases us.len() - i,
        {
            let ghost pre = self.merged_view();
            let url: &String = &urls[i];
            let seen = contains_string(&self.seen_comics, url);
            proof {
                assert(us.skip(i as int)[0] == us[i as int]);
                assert(us.skip(i as int).drop_first() =~= us.skip(i + 1));
            }
            if !seen {
                proof {
                    lemma_new_since_le_len(pre);
                    lemma_strs_set_push(self.seen_comics@, *url);
                }
                self.new_events.push(FeedEvent::ComicUrl(url.clone()));
                self.seen_comics.push(url.clone());
                self.new_comics = self.new_comics + 1;
                proof {
                    assert(self.merged_view() =~= pre.push(FeedEventV::ComicUrl(us[i as int])));
                    assert(self.merged_view().drop_last() =~= pre);
                    assert(strs_set(self.seen_comics@) =~= seen_urls(self.merged_view()));
                }
            }
            i = i + 1;
        }
        proof {
            assert(us.skip(us.len() as int) =~= Seq::<Seq<char>>::empty());
        }
    }

    /// Append a checkpoint at `now` to the pending events and reset the
    /// new-item counter.
    pub fn read(&mut self, now: &Timestamp)
        requires
            old(self).wf(),
            old(self).merged_view().len() < usize::MAX,
        ensures
            final(self).wf(),
            final(self).merged_view() == old(self).merged_view().push(
                FeedEventV::Read(now.text_view(), now.millis_view()),
            ),
            final(self).history_view() == old(self).history_view(),
            final(self).spec_info() == old(self).spec_info(),
    {
        let ghost pre = self.merged_view();
        self.new_events.push(FeedEvent::Read(now.clone()));
        self.last_read = Some(now.clone());
        self.new_comics = 0;
        proof {
            assert(self.merged_view() =~= pre.push(
                FeedEventV::Read(now.text_view(), now.millis_view()),
            ));
            assert(self.merged_view().drop_last() =~= pre);
        }
    }

    /// The bytes to append to log storage: the pending events, serialized in
    /// production order. Writing them is the caller's affair; on success it
    /// calls `mark_flushed`.
    pub fn flush_bytes(&self) -> (out: String)
        ensures
            out@ == serialize_events_view(self.pending_view()),
    {
        serialize_events(&self.new_events)
    }

    /// After a successful flush the pending events merge into the history;
    /// the merged sequence, and everything derived from it, is unchanged.
    pub fn mark_flushed(&mut self)
        requires
            old(self).wf(),
        ensures
            final(self).wf(),
            final(self).merged_view() == old(self).merged_view(),
            final(self).history_view() == old(self).merged_view(),
            final(self).pending_view() == Seq::<FeedEventV>::empty(),
            final(self).spec_info() == old(self).spec_info(),
    {
        let ghost pre = self.merged_view();
        let mut pending = Vec::new();
        core::mem::swap(&mut pending, &mut self.new_events);
        self.events.append(&mut pending);
        proof {
            assert(self.history_view() =~= pre);
            assert(self.merged_view() =~= pre);
        }
    }

    /// Is this subscription due at `now`? True when no checkpoint was ever
    /// recorded. Otherwise every `Every(n)` clause must allow the elapsed
    /// whole days, and if any `On(day)` clause is present, walking the
    /// weekday forward from the last checkpoint's local weekday for the
    /// elapsed days must hit one of the named days. The local weekday is the
    /// machine's; every other part of the verdict is pinned.
    pub fn is_scheduled(&self, now: &Timestamp) -> (r: bool)
        requires
            self.wf(),
        ensures
            last_read_millis(self.merged_view()) is None ==> r == true,
            last_read_millis(self.merged_view()) matches Some(lm) ==> exists|wd: Weekday|
                r == spec_scheduled(
                    self.policies(),
                    days_between(lm as int, now.millis_view() as int),
                    wd,
                ),
            (last_read_millis(self.merged_view()) matches Some(lm) && !every_ok(
                self.policies(),
                days_between(lm as int, now.millis_view() as int),
            )) ==> r == false,
            (last_read_millis(self.merged_view()) matches Some(lm) && every_ok(
                self.policies(),
                days_between(lm as int, now.millis_view() as int),
            ) && !day_relevant(self.policies())) ==> r == true,
    {
        match &self.last_read {
            None => true,
            Some(ts) => {
                let lm = ts.millis();
                let elapsed = days_between_exec(lm, now.millis());
                let wd = crate::timedate::local_weekday_of_millis(lm);
                let r = is_scheduled_from(&self.info.update_policies, elapsed, wd);
                proof {
                    let lmv = last_read_millis(self.merged_view())->0;
                    assert(r == spec_scheduled(
                        self.policies(),
                        days_between(lmv as int, now.millis_view() as int),
                        wd,
                    ));
                }
                r
            },
        }
    }

    /// Is this subscription ready to present? It must have at least one
    /// unread item, be scheduled at `now`, and satisfy every `Comics(n)`
    /// clause individually. The verdict is `ready_verdict` for the weekday
    /// chrono reports for the last checkpoint in the machine's local time
    /// zone; every weekday-independent part is pinned exactly.
    pub fn is_ready(&self, now: &Timestamp) -> (r: bool)
        requires
            self.wf(),
        ensures
            exists|wd: Weekday|
                r == ready_verdict(
                    self.policies(),
                    self.merged_view(),
                    now.millis_view(),
                    wd,
                ),
            new_since(self.merged_view()) == 0 ==> r == false,
            !comics_ok(self.policies(), new_since(self.merged_view()) as int) ==> r == false,
            (last_read_millis(self.merged_view()) is None && new_since(self.merged_view()) >= 1
                && comics_ok(self.policies(), new_since(self.merged_view()) as int)) ==> r == true,
    {
        let ghost ps = self.policies();
        let ghost m = self.merged_view();
        let sched = self.is_scheduled(now);
        let mut comics_fine = true;
        let mut i: usize = 0;
        while i < self.info.update_policies.len()
            invariant
                0 <= i <= ps.len(),
                ps == self.policies(),
                m == self.merged_view(),
                self.wf(),
                comics_fine == comics_ok(ps.take(i as int), new_since(m) as int),
            decreases ps.len() - i,
        {
            proof {
                assert(ps.take(i + 1).drop_last() =~= ps.take(i as int));
                assert(ps.take(i + 1).last() == ps[i as int]);
            }
            match &self.info.update_policies[i] {
                UpdateSpec::Comics(n) => {
                    if self.new_comics < *n {
                        comics_fine = false;
                        proof {
                            assert(ps[i as int] == self.info.update_policies@[i as int]@);
                            assert(!comics_ok(ps.take(i + 1), new_since(m) as int)) by {
                                assert(ps.take(i + 1)[i as int] matches UpdateSpecV::Comics(k)
                                    && !(new_since(m) as int >= k as int));
                            }
                        }
                    } else {
                        proof {
                            assert(comics_ok(ps.take(i + 1), new_since(m) as int) == comics_ok(
                                ps.take(i as int),
                                new_since(m) as int,
                            )) by {
                                assert(forall|j: int|
                                    0 <= j < i ==> ps.take(i + 1)[j] == #[trigger] ps.take(
                                        i as int,
                                    )[j]);
                            }
                        }
                    }
                },
                _ => {
                    proof {
                        assert(comics_ok(ps.take(i + 1), new_since(m) as int) == comics_ok(
                            ps.take(i as int),
                            new_since(m) as int,
                        )) by {
                            assert(forall|j: int|
                                0 <= j < i ==> ps.take(i + 1)[j] == #[trigger] ps.take(
                                    i as int,
                                )[j]);
                        }
                    }
                },
            }
            i = i + 1;
        }
        proof {
            assert(ps.take(ps.len() as int) =~= ps);
        }
        let has_new = self.new_comics >= 1;
        let r = has_new && comics_fine && sched;
        proof {
            if last_read_millis(m) is None {
                assert(sched);
                assert(r == ready_verdict(
                    self.policies(),
                    self.merged_view(),
                    now.millis_view(),
                    Weekday::Mon,
                ));
            } else {
                let d = days_between(last_read_millis(m)->0 as int, now.millis_view() as int);
                let wd0 = choose|wd: Weekday| sched == spec_scheduled(ps, d, wd);
                assert(sched == spec_scheduled(ps, d, wd0));
                assert(r == ready_verdict(
                    self.policies(),
                    self.merged_view(),
                    now.millis_view(),
                    wd0,
                ));
            }
        }
        r
    }
}

/// The largest `Overlap(n)` among the policies; zero without one.
pub open spec fn max_overlap(ps: Seq<UpdateSpecV>) -> nat
    decreases ps.len(),
{
    if ps.len() == 0 {
        0
    } else {
        let rest = max_overlap(ps.drop_last());
        match ps.last() {
            UpdateSpecV::Overlap(n) => if n as nat > rest {
                n as nat
            } else {
                rest
            },
            _ => rest,
        }
    }
}

/// The reading batch, walking the events newest to oldest: every item before
/// the first checkpoint is unread and collected; after crossing it, up to
/// `budget` further items are collected as replay context; the result is in
/// chronological order. `finishing` records whether a checkpoint was crossed.
pub open spec fn rl_back(evs: Seq<FeedEventV>, finishing: bool, budget: nat) -> Seq<Seq<char>>
    decreases evs.len(),
{
    if evs.len() == 0 {
        Seq::empty()
    } else {
        let rest = evs.drop_last();
        match evs.last() {
            FeedEventV::ComicUrl(u) => if !finishing {
                rl_back(rest, false, budget).push(u)
            } else if budget == 0 {
                Seq::empty()
            } else {
                rl_back(rest, true, (budget - 1) as nat).push(u)
            },
            FeedEventV::Read(_, _) => rl_back(rest, true, budget),
        }
    }
}

/// The reading batch of an event sequence under an overlap allowance.
pub open spec fn reading_list_spec(evs: Seq<FeedEventV>, overlap: nat) -> Seq<Seq<char>> {
    rl_back(evs, false, overlap)
}

/// The readiness verdict from the merged event sequence, assuming the last
/// checkpoint fell on local weekday `wd`: at least one unread item, every
/// `Comics(n)` clause satisfied, and the scheduling verdict.
pub open spec fn ready_verdict(
    ps: Seq<UpdateSpecV>,
    m: Seq<FeedEventV>,
    now_millis: i64,
    wd: Weekday,
) -> bool {
    &&& new_since(m) >= 1
    &&& comics_ok(ps, new_since(m) as int)
    &&& (match last_read_millis(m) {
        None => true,
        Some(lm) => spec_scheduled(ps, days_between(lm as int, now_millis as int), wd),
    })
}


/// The character sequences a vector of strings holds, in order.
pub open spec fn strs_view(v: Seq<String>) -> Seq<Seq<char>> {
    v.map_values(|s: String| s@)
}

fn reverse_strings(v: &Vec<String>) -> (r: Vec<String>)
    ensures
        r@ == v@.reverse(),
{
    let mut r: Vec<String> = Vec::new();
    let mut i: usize = v.len();
    while i > 0
        invariant
            0 <= i <= v@.len(),
            r@.len() == v@.len() - i,
            forall|t: int| 0 <= t < r@.len() ==> #[trigger] r@[t] == v@[v@.len() - 1 - t],
        decreases i,
    {
        r.push(v[i - 1].clone());
        i = i - 1;
    }
    proof {
        assert(r@ =~= v@.reverse());
    }
    r
}

impl Feed {
    /// The next reading batch, in chronological order: every item after the
    /// latest checkpoint, preceded by up to `overlap` already-read items as
    /// replay context (overlap = the largest `Overlap(n)` clause, default 0).
    /// Repeated calls without an intervening mutation return the same batch.
    pub fn get_reading_list(&self) -> (r: Vec<String>)
        requires
            self.wf(),
        ensures
            strs_view(r@) == reading_list_spec(self.merged_view(), max_overlap(self.policies())),
    {
        let ghost ps = self.policies();
        let ghost m = self.merged_view();
        let ghost hist = self.history_view();
        let ghost pend = self.pending_view();
        let mut additional: usize = 0;
        let mut i: usize = 0;
        while i < self.info.update_policies.len()
            invariant
                0 <= i <= ps.len(),
                ps == self.policies(),
                additional == max_overlap(ps.take(i as int)),
            decreases ps.len() - i,
        {
            proof {
                assert(ps.take(i + 1).drop_last() =~= ps.take(i as int));
                assert(ps.take(i + 1).last() == ps[i as int]);
                assert(ps[i as int] == self.info.update_policies@[i as int]@);
            }
            match &self.info.update_policies[i] {
                UpdateSpec::Overlap(n) => {
                    if *n > additional {
                        additional = *n;
                    }
                },
                _ => (),
            }
            i = i + 1;
        }
        proof {
            assert(ps.take(ps.len() as int) =~= ps);
        }
        let ghost overlap = max_overlap(ps);
        let mut out: Vec<String> = Vec::new();
        let mut finishing = false;
        let mut budget: usize = additional;
        let mut j: usize = self.new_events.len();
        proof {
            assert(hist + pend.take(j as int) =~= m);
            assert(strs_view(out@).reverse() =~= Seq::<Seq<char>>::empty());
        }
        while j > 0
            invariant
                0 <= j <= pend.len(),
                self.wf(),
                ps == self.policies(),
                m == self.merged_view(),
                hist == self.history_view(),
                pend == self.pending_view(),
                overlap == max_overlap(ps),
                rl_back(m, false, overlap) =~= rl_back(
                    hist + pend.take(j as int),
                    finishing,
                    budget as nat,
                ) + strs_view(out@).reverse(),
            decreases j,
        {
            let ghost pre = hist + pend.take(j as int);
            proof {
                assert(pre.drop_last() =~= hist + pend.take(j - 1));
                assert(pre.last() == pend[j - 1]);
                assert(pend[j - 1] == self.new_events@[j - 1]@);
            }
            match &self.new_events[j - 1] {
                FeedEvent::ComicUrl(u) => {
                    if finishing {
                        if budget == 0 {
                            proof {
                                assert(rl_back(pre, true, 0) =~= Seq::<Seq<char>>::empty());
                                assert(rl_back(m, false, overlap) =~= strs_view(out@).reverse());
                            }
                            let r = reverse_strings(&out);
                            proof {
                                lemma_strs_view_reverse(out@);
                                assert(strs_view(r@) =~= strs_view(out@).reverse());
                            }
                            return r;
                        }
                        budget = budget - 1;
                    }
                    proof {
                        lemma_collect_push(
                            rl_back(hist + pend.take(j - 1), true, budget as nat),
                            rl_back(hist + pend.take(j - 1), false, budget as nat),
                            out@,
                            *u,
                        );
                    }
                    out.push(u.clone());
                },
                FeedEvent::Read(_) => {
                    finishing = true;
                },
            }
            j = j - 1;
        }
        proof {
            assert(hist + pend.take(0) =~= hist);
            assert(hist.take(hist.len() as int) =~= hist);
        }
        let mut k: usize = self.events.len();
        while k > 0
            invariant
                0 <= k <= hist.len(),
                self.wf(),
                ps == self.policies(),
                m == self.merged_view(),
                hist == self.history_view(),
                overlap == max_overlap(ps),
                rl_back(m, false, overlap) =~= rl_back(
                    hist.take(k as int),
                    finishing,
                    budget as nat,
                ) + strs_view(out@).reverse(),
            decreases k,
        {
            let ghost pre = hist.take(k as int);
            proof {
                assert(pre.drop_last() =~= hist.take(k - 1));
                assert(pre.last() == hist[k - 1]);
                assert(hist[k - 1] == self.events@[k - 1]@);
            }
            match &self.events[k - 1] {
                FeedEvent::ComicUrl(u) => {
                    if finishing {
                        if budget == 0 {
                            proof {
                                assert(rl_back(pre, true, 0) =~= Seq::<Seq<char>>::empty());
                                assert(rl_back(m, false, overlap) =~= strs_view(out@).reverse());
                            }
                            let r = reverse_strings(&out);
                            proof {
                                lemma_strs_view_reverse(out@);
                                assert(strs_view(r@) =~= strs_view(out@).reverse());
                            }
                            return r;
                        }
                        budget = budget - 1;
                    }
                    proof {
                        lemma_collect_push(
                            rl_back(hist.take(k - 1), true, budget as nat),
                            rl_back(hist.take(k - 1), false, budget as nat),
                            out@,
                            *u,
                        );
                    }
                    out.push(u.clone());
                },
                FeedEvent::Read(_) => {
                    finishing = true;
                },
            }
            k = k - 1;
        }
        proof {
            assert(hist.take(0) =~= Seq::<FeedEventV>::empty());
            assert(rl_back(m, false, overlap) =~= strs_view(out@).reverse());
        }
        let r = reverse_strings(&out);
        proof {
            lemma_strs_view_reverse(out@);
            assert(strs_view(r@) =~= strs_view(out@).reverse());
        }
        r
    }
}

/// Reversing the strings reverses their views.
proof fn lemma_strs_view_reverse(v: Seq<String>)
    ensures
        strs_view(v.reverse()) =~= strs_view(v).reverse(),
{
}

/// Appending a newly collected URL to the newest-first scratch vector
/// prepends its view to the chronological tail.
proof fn lemma_collect_push(a: Seq<Seq<char>>, b: Seq<Seq<char>>, outv: Seq<String>, u: String)
    ensures
        a.push(u@) + strs_view(outv).reverse() =~= a + strs_view(outv.push(u)).reverse(),
        b.push(u@) + strs_view(outv).reverse() =~= b + strs_view(outv.push(u)).reverse(),
{
    assert(strs_view(outv.push(u)) =~= strs_view(outv).push(u@));
    assert(strs_view(outv.push(u)).reverse() =~= seq![u@] + strs_view(outv).reverse());
}

/// Every `Comics(n)` clause is satisfied by `count` unread items.
pub open spec fn comics_ok(ps: Seq<UpdateSpecV>, count: int) -> bool {
    forall|i: int|
        0 <= i < ps.len() ==> ((#[trigger] ps[i]) matches UpdateSpecV::Comics(n) ==> count
            >= n as int)
}

/// What recording a candidate list does to the merged event sequence:
/// oldest-to-newest, each URL not yet seen is appended as an item event.
pub open spec fn record_spec(evs: Seq<FeedEventV>, urls: Seq<Seq<char>>) -> Seq<FeedEventV>
    decreases urls.len(),
{
    if urls.len() == 0 {
        evs
    } else {
        let next = if seen_urls(evs).contains(urls[0]) {
            evs
        } else {
            evs.push(FeedEventV::ComicUrl(urls[0]))
        };
        record_spec(next, urls.drop_first())
    }
}

proof fn lemma_record_grows_seen(evs: Seq<FeedEventV>, urls: Seq<Seq<char>>)
    ensures
        forall|u: Seq<char>|
            seen_urls(evs).contains(u) ==> seen_urls(record_spec(evs, urls)).contains(u),
        forall|i: int|
            0 <= i < urls.len() ==> seen_urls(record_spec(evs, urls)).contains(#[trigger] urls[i]),
    decreases urls.len(),
{
    if urls.len() > 0 {
        let next = if seen_urls(evs).contains(urls[0]) {
            evs
        } else {
            evs.push(FeedEventV::ComicUrl(urls[0]))
        };
        assert(seen_urls(next).contains(urls[0])) by {
            if !seen_urls(evs).contains(urls[0]) {
                assert(next.drop_last() =~= evs);
            }
        }
        assert(forall|u: Seq<char>|
            seen_urls(evs).contains(u) ==> seen_urls(next).contains(u)) by {
            if !seen_urls(evs).contains(urls[0]) {
                assert(next.drop_last() =~= evs);
            }
        }
        lemma_record_grows_seen(next, urls.drop_first());
        assert forall|i: int|
            0 <= i < urls.len() implies seen_urls(record_spec(evs, urls)).contains(
            #[trigger] urls[i],
        ) by {
            if i > 0 {
                assert(urls.drop_first()[i - 1] == urls[i]);
            }
        }
    }
}

proof fn lemma_record_noop(evs: Seq<FeedEventV>, urls: Seq<Seq<char>>)
    requires
        forall|i: int| 0 <= i < urls.len() ==> seen_urls(evs).contains(#[trigger] urls[i]),
    ensures
        record_spec(evs, urls) == evs,
    decreases urls.len(),
{
    if urls.len() > 0 {
        assert(seen_urls(evs).contains(urls[0]));
        assert(forall|i: int|
            0 <= i < urls.drop_first().len() ==> seen_urls(evs).contains(
                #[trigger] urls.drop_first()[i],
            ));
        lemma_record_noop(evs, urls.drop_first());
    }
}

/// Recording an identical candidate list twice mutates the log only on the
/// first call: every candidate is in the seen set afterwards, so the second
/// call appends nothing.
pub proof fn lemma_record_idempotent(evs: Seq<FeedEventV>, urls: Seq<Seq<char>>)
    ensures
        record_spec(record_spec(evs, urls), urls) == record_spec(evs, urls),
{
    lemma_record_grows_seen(evs, urls);
    lemma_record_noop(record_spec(evs, urls), urls);
}

/// With no checkpoint ever recorded, a feed is scheduled at any instant
/// under any policy set: `is_scheduled` promises `true` whenever
/// `last_read_millis` is `None`, whatever the policies say.
pub proof fn lemma_no_checkpoint_scheduled(f: Feed, now_millis: i64)
    requires
        last_read_millis(f.merged_view()) is None,
    ensures
        forall|wd: Weekday| ready_verdict(f.policies(), f.merged_view(), now_millis, wd) == (
        new_since(f.merged_view()) >= 1 && comics_ok(
            f.policies(),
            new_since(f.merged_view()) as int,
        )),
{
}

/// An `Every(n)` clause forbids scheduling while fewer than `n` whole days
/// have elapsed. Standing alone, it decides everything: the feed becomes due
/// the moment the elapsed count reaches `n`.
pub proof fn lemma_every_n(ps: Seq<UpdateSpecV>, n: usize, elapsed: int, wd: Weekday)
    ensures
        ((exists|i: int| 0 <= i < ps.len() && ps[i] == UpdateSpecV::Every(n)) && elapsed < n as int)
            ==> !spec_scheduled(ps, elapsed, wd),
        spec_scheduled(seq![UpdateSpecV::Every(n)], elapsed, wd) == (elapsed >= n as int),
{
    if (exists|i: int| 0 <= i < ps.len() && ps[i] == UpdateSpecV::Every(n)) && elapsed < n as int {
        let i = choose|i: int| 0 <= i < ps.len() && ps[i] == UpdateSpecV::Every(n);
        assert(!every_ok(ps, elapsed)) by {
            assert(ps[i] matches UpdateSpecV::Every(m) && !(elapsed >= m as int));
        }
    }
    let single = seq![UpdateSpecV::Every(n)];
    if elapsed >= n as int {
        assert(every_ok(single, elapsed)) by {
            assert(forall|i: int|
                0 <= i < single.len() ==> #[trigger] single[i] == UpdateSpecV::Every(n));
        }
        assert(!day_relevant(single)) by {
            assert(forall|i: int|
                0 <= i < single.len() ==> #[trigger] single[i] == UpdateSpecV::Every(n));
        }
    } else {
        assert(single[0] == UpdateSpecV::Every(n));
        assert(!every_ok(single, elapsed)) by {
            assert(single[0] matches UpdateSpecV::Every(m) && !(elapsed >= m as int));
        }
    }
}

/// Does some element of `v` read `s`?
fn contains_string(v: &Vec<String>, s: &String) -> (r: bool)
    ensures
        r == strs_set(v@).contains(s@),
{
    let ghost set = strs_set(v@);
    let mut i: usize = 0;
    while i < v.len()
        invariant
            0 <= i <= v@.len(),
            set == strs_set(v@),
            forall|j: int| 0 <= j < i ==> (#[trigger] v@[j])@ != s@,
        decreases v@.len() - i,
    {
        if v[i] == *s {
            assert(v@.map_values(|x: String| x@)[i as int] == s@);
            assert(strs_set(v@).contains(s@));
            return true;
        }
        i = i + 1;
    }
    proof {
        if strs_set(v@).contains(s@) {
            let m = v@.map_values(|x: String| x@);
            let j = choose|j: int| 0 <= j < m.len() && m[j] == s@;
            assert(v@[j]@ == m[j]);
            assert(false);
        }
    }
    false
}

} // verus!
