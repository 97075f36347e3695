//! Rule-driven tokenizing: each rule pairs a pattern with a handler, and the
//! longest match wins each stretch of input, the earlier rule on a tie.

use crate::claims::{
    accepted, claims_after, covers, spans_within, first_unclaimed, in_reading_order, kept, lemma_claims_after_consistent,
    lemma_full_coverage, overlap, reading_order, reads_before, resolve,
};
use regex::Regex;
use vstd::prelude::*;
use vstd::string::StringSliceAdditionalSpecFns;
use vstd::utf8::encode_utf8;

verus! {

#[verifier::external_type_specification]
#[verifier::external_body]
pub struct ExRegex(Regex);

/// The pattern is valid syntax for the matching engine and compiles within
/// its default size limit.
pub uninterp spec fn pattern_compiles(pattern: Seq<char>) -> bool;

/// The byte spans `(start, end)` of the successive non-overlapping matches of
/// `pattern` in `text`, left to right.
pub uninterp spec fn match_spans(pattern: Seq<char>, text: Seq<char>) -> Seq<(usize, usize)>;

/// A compiled pattern together with the text it was compiled from.
pub struct Pattern {
    re: Regex,
    source: String,
}

impl Pattern {
    /// The text the pattern was compiled from.
    pub closed spec fn source(&self) -> Seq<char> {
        self.source@
    }
}

/// Relies on `regex::Regex::new`: it returns `Ok` exactly when the pattern
/// compiles; the compiled form is kept with its source text.
#[verifier::external_body]
fn compile(pattern: &str) -> (r: Option<Pattern>)
    ensures
        r is Some <==> pattern_compiles(pattern@),
        r matches Some(p) ==> p.source() == pattern@,
{
    match Regex::new(pattern) {
        Ok(re) => Some(Pattern { re, source: pattern.to_string() }),
        Err(_) => None,
    }
}

/// Relies on `regex::Regex::find_iter` over the regex compiled from
/// `p.source()`: successive non-overlapping matches, left to right, each with
/// byte offsets `start <= end` within the haystack, and `Match::as_str`, the
/// haystack's bytes between them.
#[verifier::external_body]
fn find_all(p: &Pattern, text: &str) -> (r: Vec<RuleMatch>)
    ensures
        r@.len() == match_spans(p.source(), text@).len(),
        forall|k: int|
            0 <= k < r@.len() ==> (#[trigger] r@[k]).start == match_spans(p.source(), text@)[k].0
                && r@[k].end == match_spans(p.source(), text@)[k].1,
        forall|k: int|
            0 <= k < r@.len() ==> #[trigger] r@[k].start <= r@[k].end <= text.spec_bytes().len() as usize,
        forall|k: int|
            0 <= k < r@.len() ==> encode_utf8((#[trigger] r@[k]).text@) == text.spec_bytes().subrange(
                r@[k].start as int,
                r@[k].end as int,
            ),
{
    p.re.find_iter(text).map(
        |m| RuleMatch { start: m.start(), end: m.end(), text: m.as_str().to_string() },
    ).collect()
}

/// One match of a rule's pattern: its byte offsets in the input and the text
/// it spans.
pub struct RuleMatch {
    pub start: usize,
    pub end: usize,
    pub text: String,
}

impl RuleMatch {
    /// The byte offset where the match begins.
    pub fn start(&self) -> (r: usize)
        ensures
            r == self.start,
    {
        self.start
    }

    /// The byte offset just past the match.
    pub fn end(&self) -> (r: usize)
        ensures
            r == self.end,
    {
        self.end
    }

    /// The text the match spans.
    pub fn as_str(&self) -> (r: &str)
        ensures
            r@ == self.text@,
    {
        self.text.as_str()
    }
}

/// What a rule's handler makes of a match.
pub enum LexResult<T> {
    /// The match becomes this token.
    Token(T),
    /// The match produces no token, but its input stays claimed.
    Ignore,
    /// The match is rejected; tokenizing stops with this message.
    Error(String),
}

/// Why tokenizing failed.
#[derive(Debug, Clone, PartialEq, Eq)]
pub enum LexError {
    /// A handler rejected the match it was given.
    HandlerFailure(String),
    /// No rule covers the byte at this offset (the first such offset).
    UnmatchedInput(usize),
}

/// A token made from a match that was taken, with the bytes it spans.
pub struct LexerMatch<T> {
    pub token: T,
    pub start: usize,
    pub len: usize,
}

/// A compiled pattern and the handler for its matches.
pub struct LexerRule<H> {
    pat: Pattern,
    handler: H,
}

/// A tokenizer over an ordered list of rules.
pub struct Lexer<H> {
    rules: Vec<LexerRule<H>>,
}

impl<H> Lexer<H> {
    /// The handlers of the rules, in the order the rules were added.
    pub closed spec fn handlers(&self) -> Seq<H> {
        self.rules@.map_values(|r: LexerRule<H>| r.handler)
    }

    /// The patterns of the rules, in the order the rules were added.
    pub closed spec fn patterns(&self) -> Seq<Seq<char>> {
        self.rules@.map_values(|r: LexerRule<H>| r.pat.source())
    }

    /// A tokenizer with no rules.
    pub fn new() -> (r: Self)
        ensures
            r.handlers() == Seq::<H>::empty(),
            r.patterns() == Seq::<Seq<char>>::empty(),
    {
        let r = Lexer { rules: Vec::new() };
        assert(r.handlers() =~= Seq::<H>::empty());
        assert(r.patterns() =~= Seq::<Seq<char>>::empty());
        r
    }

    /// Add a rule after all earlier ones.
    pub fn add_rule(&mut self, pat: &str, handler: H)
        requires
            pattern_compiles(pat@),
        ensures
            final(self).handlers() == old(self).handlers().push(handler),
            final(self).patterns() == old(self).patterns().push(pat@),
    {
        if let Some(re) = compile(pat) {
            self.rules.push(LexerRule { pat: re, handler });
            assert(self.handlers() =~= old(self).handlers().push(handler));
            assert(self.patterns() =~= old(self).patterns().push(pat@));
        }
    }

    /// Add a rule after all earlier ones if its pattern compiles; the result
    /// says whether it did, and the tokenizer is unchanged when it did not.
    pub fn try_add_rule(&mut self, pat: &str, handler: H) -> (r: bool)
        ensures
            r == pattern_compiles(pat@),
            r ==> final(self).handlers() == old(self).handlers().push(handler),
            r ==> final(self).patterns() == old(self).patterns().push(pat@),
            !r ==> final(self).handlers() == old(self).handlers(),
            !r ==> final(self).patterns() == old(self).patterns(),
    {
        if compile(pat).is_some() {
            self.add_rule(pat, handler);
            true
        } else {
            false
        }
    }
}

/// The input's length in bytes, as `str::len` gives it.
pub open spec fn input_len(s: &str) -> nat {
    s.spec_bytes().len() as usize as nat
}

/// Every match of every pattern in `text`, in the order they are offered:
/// pattern by pattern, each pattern's matches left to right. Each comes with
/// the index of its pattern.
pub open spec fn offered(patterns: Seq<Seq<char>>, text: Seq<char>) -> Seq<(int, (usize, usize))>
    decreases patterns.len(),
{
    if patterns.len() == 0 {
        Seq::empty()
    } else {
        offered(patterns.drop_last(), text) + match_spans(patterns.last(), text).map_values(
            |sp: (usize, usize)| ((patterns.len() - 1) as int, sp),
        )
    }
}

/// The spans of the offered matches, in the order they are offered.
pub open spec fn offered_spans(patterns: Seq<Seq<char>>, text: Seq<char>) -> Seq<(usize, usize)> {
    offered(patterns, text).map_values(|c: (int, (usize, usize))| c.1)
}

/// Span `k` was taken and its handler's outcome is an error.
pub open spec fn fails_at<T>(n: nat, spans: Seq<(usize, usize)>, outs: Seq<LexResult<T>>, k: int) -> bool {
    0 <= k < spans.len() && accepted(n, spans, k) && outs[k] is Error
}

/// No span before `m` was taken with an error outcome.
pub open spec fn clean_before<T>(n: nat, spans: Seq<(usize, usize)>, outs: Seq<LexResult<T>>, m: int) -> bool {
    forall|j: int| 0 <= j < m ==> !#[trigger] fails_at(n, spans, outs, j)
}

/// The tokens, with their spans, of the spans listed in `ord` whose outcome
/// is a token, in the order of `ord`.
pub open spec fn tokens_of<T>(spans: Seq<(usize, usize)>, outs: Seq<LexResult<T>>, ord: Seq<usize>) -> Seq<LexerMatch<T>>
    decreases ord.len(),
{
    if ord.len() == 0 {
        Seq::empty()
    } else {
        let prev = tokens_of(spans, outs, ord.drop_last());
        let k = ord.last() as int;
        if outs[k] is Token {
            prev.push(LexerMatch { token: outs[k]->Token_0, start: spans[k].0, len: (spans[k].1 - spans[k].0) as usize })
        } else {
            prev
        }
    }
}

/// `r` is the outcome of tokenizing an input of `n` bytes whose offered
/// spans are `spans`, where `outs[k]` is what the handler made of span `k`:
/// the first taken span with an error outcome ends it with that error;
/// failing that, the first byte no kept span holds is reported; failing that,
/// the tokens of the kept spans come back in reading order.
pub open spec fn lex_outcome<T>(
    n: nat,
    spans: Seq<(usize, usize)>,
    outs: Seq<LexResult<T>>,
    r: Result<Seq<LexerMatch<T>>, LexError>,
) -> bool {
    let last = claims_after(n, spans, spans.len());
    match r {
        Err(LexError::HandlerFailure(e)) => exists|k: int|
            #[trigger] fails_at(n, spans, outs, k) && clean_before(n, spans, outs, k) && outs[k]
                == LexResult::<T>::Error(e),
        Err(LexError::UnmatchedInput(p)) => {
            &&& clean_before(n, spans, outs, spans.len() as int)
            &&& p < n
            &&& last[p as int] is None
            &&& forall|q: int| 0 <= q < p ==> #[trigger] last[q] is Some
        },
        Ok(v) => {
            &&& clean_before(n, spans, outs, spans.len() as int)
            &&& forall|i: int| 0 <= i < n ==> #[trigger] last[i] is Some
            &&& exists|ord: Seq<usize>| in_reading_order(n, spans, ord) && v == tokens_of(spans, outs, ord)
        },
    }
}

/// The matches `ms` handed to the handlers are the offered ones, with the
/// input's bytes between their offsets, and `outs[k]` is what the handler of
/// match `k`'s rule returned for it, for every match that was taken while no
/// earlier taken match had failed.
pub open spec fn handled<T, H: Fn(&RuleMatch) -> LexResult<T>>(
    handlers: Seq<H>,
    s: &str,
    cands: Seq<(int, (usize, usize))>,
    ms: Seq<RuleMatch>,
    outs: Seq<LexResult<T>>,
) -> bool {
    let n = input_len(s);
    let spans = cands.map_values(|c: (int, (usize, usize))| c.1);
    &&& ms.len() == cands.len()
    &&& outs.len() == cands.len()
    &&& forall|k: int|
        0 <= k < cands.len() ==> (#[trigger] ms[k]).start == cands[k].1.0 && ms[k].end == cands[k].1.1
            && encode_utf8(ms[k].text@) == s.spec_bytes().subrange(ms[k].start as int, ms[k].end as int)
    &&& forall|k: int|
        0 <= k < cands.len() && #[trigger] accepted(n, spans, k) && clean_before(n, spans, outs, k)
            ==> 0 <= cands[k].0 < handlers.len() && handlers[cands[k].0].ensures((&ms[k],), outs[k])
}

/// When no taken span's handler fails and every byte ends up claimed, the
/// outcome is a success.
pub proof fn lemma_success_owed<T>(
    n: nat,
    spans: Seq<(usize, usize)>,
    outs: Seq<LexResult<T>>,
    r: Result<Seq<LexerMatch<T>>, LexError>,
)
    requires
        lex_outcome(n, spans, outs, r),
        clean_before(n, spans, outs, spans.len() as int),
        forall|i: int| 0 <= i < n ==> #[trigger] claims_after(n, spans, spans.len())[i] is Some,
    ensures
        r is Ok,
{
    if let Err(LexError::HandlerFailure(e)) = r {
        let k = choose|k: int|
            #[trigger] fails_at(n, spans, outs, k) && clean_before(n, spans, outs, k) && outs[k]
                == LexResult::<T>::Error(e);
        assert(!fails_at(n, spans, outs, k));
    }
}

/// A successful outcome leaves every byte of the input in exactly one kept
/// span: the one the final record names for it.
pub proof fn lemma_success_covers<T>(
    n: nat,
    spans: Seq<(usize, usize)>,
    outs: Seq<LexResult<T>>,
    v: Seq<LexerMatch<T>>,
)
    requires
        spans_within(n, spans),
        lex_outcome(n, spans, outs, Ok(v)),
    ensures
        forall|i: int|
            0 <= i < n ==> {
                let k = (#[trigger] claims_after(n, spans, spans.len())[i])->Some_0 as int;
                &&& 0 <= k < spans.len()
                &&& kept(n, spans, k)
                &&& covers(spans[k], i)
            },
        forall|a: int, b: int|
            0 <= a < b < spans.len() && #[trigger] kept(n, spans, a) && #[trigger] kept(n, spans, b)
                ==> !overlap(spans[a], spans[b]),
{
    lemma_full_coverage(n, spans);
}

/// The lexing outcome with the offsets left out.
pub open spec fn without_offsets<T>(r: Result<Seq<LexerMatch<T>>, LexError>) -> Result<Seq<T>, LexError> {
    match r {
        Ok(v) => Ok(v.map_values(|m: LexerMatch<T>| m.token)),
        Err(e) => Err(e),
    }
}

/// A lexing result as a sequence.
pub open spec fn seq_result<A>(r: Result<Vec<A>, LexError>) -> Result<Seq<A>, LexError> {
    match r {
        Ok(v) => Ok(v@),
        Err(e) => Err(e),
    }
}

impl<T, H: Fn(&RuleMatch) -> LexResult<T>> Lexer<H> {
    /// Split `s` into tokens. Every match of every rule is offered in turn,
    /// rule by rule; a match takes its bytes unless one of them is held by a
    /// match at least as long, and then displaces every match it overlaps.
    /// Each match that is taken goes to its rule's handler, and the first
    /// handler error ends the call. Every byte must end up held by some match;
    /// the matches that still stand and made a token come back in order of
    /// their start offsets.
    #[verifier::rlimit(50)]
    pub fn lex_matches(&self, s: &str) -> (r: Result<Vec<LexerMatch<T>>, LexError>)
        requires
            forall|i: int, m: &RuleMatch|
                0 <= i < self.handlers().len() ==> #[trigger] self.handlers()[i].requires((m,)),
        ensures
            exists|ms: Seq<RuleMatch>, outs: Seq<LexResult<T>>|
                handled(self.handlers(), s, offered(self.patterns(), s@), ms, outs) && lex_outcome(
                    input_len(s),
                    offered_spans(self.patterns(), s@),
                    outs,
                    seq_result(r),
                ),
            r matches Ok(v) ==> forall|a: int, b: int|
                0 <= a < b < v@.len() ==> #[trigger] v@[a].start <= #[trigger] v@[b].start,
            r matches Ok(v) ==> forall|a: int, b: int|
                0 <= a < b < v@.len() && #[trigger] v@[a].len > 0 && #[trigger] v@[b].len > 0
                    ==> v@[a].start + v@[a].len <= v@[b].start,
    {
        let n = s.len();
        let ghost pats = self.patterns();
        // Every match of every rule, in the order they are offered.
        let mut found: Vec<Vec<RuleMatch>> = Vec::new();
        let mut spans: Vec<(usize, usize)> = Vec::new();
        let mut origin: Vec<(usize, usize)> = Vec::new();
        let ghost mut ms: Seq<RuleMatch> = Seq::empty();
        let mut i: usize = 0;
        while i < self.rules.len()
            invariant
                n == input_len(s),
                pats == self.patterns(),
                pats.len() == self.rules@.len(),
                i <= self.rules@.len(),
                found@.len() == i,
                spans@.len() == origin@.len() == ms.len() == offered(pats.take(i as int), s@).len(),
                forall|k: int|
                    0 <= k < spans@.len() ==> offered(pats.take(i as int), s@)[k] == ((#[trigger] origin@[k]).0 as int, spans@[k]),
                forall|k: int| 0 <= k < spans@.len() ==> #[trigger] spans@[k].0 <= spans@[k].1 <= n,
                forall|k: int|
                    0 <= k < origin@.len() ==> {
                        let (a, b) = #[trigger] origin@[k];
                        &&& a < i
                        &&& b < found@[a as int]@.len()
                        &&& found@[a as int]@[b as int] == ms[k]
                    },
                forall|k: int|
                    0 <= k < ms.len() ==> (#[trigger] ms[k]).start == spans@[k].0 && ms[k].end == spans@[k].1
                        && encode_utf8(ms[k].text@) == s.spec_bytes().subrange(ms[k].start as int, ms[k].end as int),
            decreases self.rules@.len() - i,
        {
            let found_here = find_all(&self.rules[i].pat, s);
            let ghost base = spans@.len();
            let ghost before = offered(pats.take(i as int), s@);
            let ghost here = match_spans(pats[i as int], s@);
            assert(self.rules@[i as int].pat.source() == pats[i as int]);
            let mut j: usize = 0;
            while j < found_here.len()
                invariant
                    n == input_len(s),
                    i < self.rules@.len(),
                    found@.len() == i,
                    j <= found_here@.len() == here.len(),
                    spans@.len() == origin@.len() == ms.len() == base + j,
                    before.len() == base,
                    forall|k: int|
                        0 <= k < found_here@.len() ==> (#[trigger] found_here@[k]).start == here[k].0 && found_here@[k].end == here[k].1,
                    forall|k: int| 0 <= k < found_here@.len() ==> #[trigger] found_here@[k].start <= found_here@[k].end <= n,
                    forall|k: int|
                        0 <= k < found_here@.len() ==> encode_utf8((#[trigger] found_here@[k]).text@) == s.spec_bytes().subrange(
                            found_here@[k].start as int,
                            found_here@[k].end as int,
                        ),
                    forall|k: int|
                        0 <= k < base ==> before[k] == ((#[trigger] origin@[k]).0 as int, spans@[k]),
                    forall|k: int|
                        base <= k < base + j ==> (#[trigger] origin@[k]).0 == i && origin@[k].1 == k - base
                            && spans@[k] == here[k - base],
                    forall|k: int| 0 <= k < spans@.len() ==> #[trigger] spans@[k].0 <= spans@[k].1 <= n,
                    forall|k: int|
                        0 <= k < base ==> {
                            let (a, b) = #[trigger] origin@[k];
                            &&& a < i
                            &&& b < found@[a as int]@.len()
                            &&& found@[a as int]@[b as int] == ms[k]
                        },
                    forall|k: int| base <= k < base + j ==> #[trigger] ms[k] == found_here@[k - base],
                    forall|k: int|
                        0 <= k < ms.len() ==> (#[trigger] ms[k]).start == spans@[k].0 && ms[k].end == spans@[k].1
                            && encode_utf8(ms[k].text@) == s.spec_bytes().subrange(ms[k].start as int, ms[k].end as int),
                decreases found_here@.len() - j,
            {
                spans.push((found_here[j].start, found_here[j].end));
                origin.push((i, j));
                proof {
                    ms = ms.push(found_here@[j as int]);
                }
                j = j + 1;
            }
            found.push(found_here);
            proof {
                let next = offered(pats.take(i + 1), s@);
                assert(pats.take(i + 1).drop_last() =~= pats.take(i as int));
                assert(next == before + here.map_values(|sp: (usize, usize)| (i as int, sp)));
                assert forall|k: int|
                    0 <= k < spans@.len() implies next[k] == ((#[trigger] origin@[k]).0 as int, spans@[k]) by {
                    if k >= base {
                        assert(origin@[k].0 == i);
                    }
                }
                assert forall|k: int|
                    0 <= k < origin@.len() implies {
                        let (a, b) = #[trigger] origin@[k];
                        &&& a < i + 1
                        &&& b < found@[a as int]@.len()
                        &&& found@[a as int]@[b as int] == ms[k]
                    } by {
                    if k >= base {
                        assert(origin@[k].0 == i);
                    }
                }
            }
            i = i + 1;
        }
        let count = spans.len();
        let ghost cands = offered(pats, s@);
        proof {
            assert(pats.take(i as int) =~= pats);
            assert forall|k: int| 0 <= k < spans@.len() implies cands[k].0 == (#[trigger] origin@[k]).0 as int by {
                assert(offered(pats, s@)[k] == (origin@[k].0 as int, spans@[k]));
            }
            assert forall|k: int| 0 <= k < spans@.len() implies #[trigger] spans@[k] == offered_spans(pats, s@)[k] by {
                assert(offered(pats, s@)[k] == (origin@[k].0 as int, spans@[k]));
            }
            assert(offered(pats.take(i as int), s@) == offered(pats, s@));
            assert(offered_spans(pats, s@).len() == spans@.len());
            assert(spans@ =~= offered_spans(pats, s@));
            assert forall|x: int| 0 <= x < count implies (#[trigger] cands[x]).1 == spans@[x] by {
                assert(offered_spans(pats, s@)[x] == cands[x].1);
            }
        }
        assert(spans_within(n as nat, spans@));
        let (owner, taken) = resolve(n, &spans);
        proof {
            lemma_claims_after_consistent(n as nat, spans@, count as nat);
        }
        // Hand each match that was taken to its rule's handler, in the order
        // the matches were offered.
        let mut slots: Vec<Option<LexerMatch<T>>> = Vec::new();
        let ghost mut outs: Seq<LexResult<T>> = Seq::empty();
        let mut k: usize = 0;
        while k < count
            invariant
                k <= count == spans@.len() == origin@.len() == taken@.len() == cands.len() == ms.len(),
                spans@ == offered_spans(pats, s@),
                cands == offered(pats, s@),
                pats == self.patterns(),
                n == input_len(s),
                found@.len() == self.rules@.len(),
                slots@.len() == k,
                outs.len() == k,
                forall|x: int| 0 <= x < spans@.len() ==> #[trigger] spans@[x].0 <= spans@[x].1 <= n,
                forall|x: int| 0 <= x < count ==> #[trigger] taken@[x] == accepted(n as nat, spans@, x),
                forall|x: int|
                    0 <= x < origin@.len() ==> {
                        let (a, b) = #[trigger] origin@[x];
                        &&& a < found@.len()
                        &&& b < found@[a as int]@.len()
                        &&& found@[a as int]@[b as int] == ms[x]
                        &&& cands[x].0 == a as int
                    },
                forall|i: int, m: &RuleMatch|
                    0 <= i < self.handlers().len() ==> #[trigger] self.handlers()[i].requires((m,)),
                clean_before(n as nat, spans@, outs, k as int),
                forall|x: int| 0 <= x < count ==> (#[trigger] cands[x]).1 == spans@[x],
                forall|x: int|
                    0 <= x < count ==> (#[trigger] ms[x]).start == spans@[x].0 && ms[x].end == spans@[x].1
                        && encode_utf8(ms[x].text@) == s.spec_bytes().subrange(ms[x].start as int, ms[x].end as int),
                forall|x: int|
                    0 <= x < k && #[trigger] accepted(n as nat, spans@, x) ==> 0 <= cands[x].0 < self.handlers().len()
                        && self.handlers()[cands[x].0].ensures((&ms[x],), outs[x]),
                forall|x: int|
                    0 <= x < k ==> #[trigger] slots@[x] == if accepted(n as nat, spans@, x) && outs[x] is Token {
                        Some(LexerMatch { token: outs[x]->Token_0, start: spans@[x].0, len: (spans@[x].1 - spans@[x].0) as usize })
                    } else {
                        None
                    },
            decreases count - k,
        {
            if taken[k] {
                let (a, b) = origin[k];
                let rule = &self.rules[a];
                assert(self.handlers()[a as int] == rule.handler);
                let res = (rule.handler)(&found[a][b]);
                let ghost prior = outs;
                proof {
                    outs = outs.push(res);
                    assert forall|j: int| 0 <= j < k implies !#[trigger] fails_at(n as nat, spans@, outs, j) by {
                        assert(!fails_at(n as nat, spans@, prior, j));
                        assert(outs[j] == prior[j]);
                    }
                    assert(found@[a as int]@[b as int] == ms[k as int]);
                    assert(self.handlers()[cands[k as int].0].ensures((&ms[k as int],), outs[k as int]));
                    assert forall|x: int|
                        0 <= x < k + 1 && #[trigger] accepted(n as nat, spans@, x) implies 0 <= cands[x].0 < self.handlers().len()
                            && self.handlers()[cands[x].0].ensures((&ms[x],), outs[x]) by {
                        if x < k {
                            assert(outs[x] == prior[x]);
                        }
                    }
                }
                match res {
                    LexResult::Token(t) => {
                        let (start, end) = spans[k];
                        slots.push(Some(LexerMatch { token: t, start, len: end - start }));
                    },
                    LexResult::Ignore => {
                        slots.push(None);
                    },
                    LexResult::Error(e) => {
                        proof {
                            let full = outs + Seq::new((count - k - 1) as nat, |x: int| LexResult::<T>::Ignore);
                            assert(fails_at(n as nat, spans@, full, k as int));
                            assert(clean_before(n as nat, spans@, full, k as int)) by {
                                assert forall|j: int| 0 <= j < k implies !#[trigger] fails_at(n as nat, spans@, full, j) by {
                                    assert(!fails_at(n as nat, spans@, outs, j));
                                    assert(full[j] == outs[j]);
                                }
                            }
                            assert(handled(self.handlers(), s, cands, ms, full)) by {
                                assert forall|x: int|
                                    0 <= x < cands.len() && #[trigger] accepted(n as nat, spans@, x) && clean_before(n as nat, spans@, full, x)
                                        implies 0 <= cands[x].0 < self.handlers().len() && self.handlers()[cands[x].0].ensures((&ms[x],), full[x]) by {
                                    if x > k {
                                        assert(!clean_before(n as nat, spans@, full, x)) by {
                                            assert(fails_at(n as nat, spans@, full, k as int));
                                        }
                                    } else {
                                        assert(full[x] == outs[x]);
                                    }
                                }
                                assert(cands.map_values(|c: (int, (usize, usize))| c.1) == spans@);
                            }
                            assert(lex_outcome(n as nat, spans@, full, seq_result(Err::<Vec<LexerMatch<T>>, LexError>(LexError::HandlerFailure(e)))));
                        }
                        return Err(LexError::HandlerFailure(e));
                    },
                }
            } else {
                let ghost prior = outs;
                proof {
                    outs = outs.push(LexResult::<T>::Ignore);
                    assert forall|j: int| 0 <= j < k implies !#[trigger] fails_at(n as nat, spans@, outs, j) by {
                        assert(!fails_at(n as nat, spans@, prior, j));
                        assert(outs[j] == prior[j]);
                    }
                }
                slots.push(None);
            }
            proof {
                assert(!fails_at(n as nat, spans@, outs, k as int));
            }
            k = k + 1;
        }
        assert(cands.map_values(|c: (int, (usize, usize))| c.1) == spans@);
        assert(handled(self.handlers(), s, cands, ms, outs));
        if let Some(p) = first_unclaimed(&owner) {
            assert(lex_outcome(n as nat, spans@, outs, seq_result(Err::<Vec<LexerMatch<T>>, LexError>(LexError::UnmatchedInput(p)))));
            return Err(LexError::UnmatchedInput(p));
        }
        let order = reading_order(n, &spans, &owner, &taken);
        assert forall|x: int| 0 <= x < order@.len() implies #[trigger] order@[x] < count by {
            assert(order@.contains(order@[x]));
        }
        assert forall|x: int| 0 <= x < order@.len() implies kept(n as nat, spans@, #[trigger] order@[x] as int) by {
            assert(order@.contains(order@[x]));
        }
        let ghost full_slots = slots@;
        let mut tokens: Vec<LexerMatch<T>> = Vec::new();
        // For each token, the span it came from and that span's place in `order`.
        let ghost mut src: Seq<int> = Seq::empty();
        let ghost mut pos: Seq<int> = Seq::empty();
        let mut q: usize = 0;
        while q < order.len()
            invariant
                q <= order@.len(),
                slots@.len() == count,
                count == spans@.len() == outs.len(),
                tokens@ == tokens_of(spans@, outs, order@.take(q as int)),
                forall|j: int| q <= j < order@.len() ==> slots@[#[trigger] order@[j] as int] == full_slots[order@[j] as int],
                forall|x: int|
                    0 <= x < count ==> #[trigger] full_slots[x] == if accepted(n as nat, spans@, x) && outs[x] is Token {
                        Some(LexerMatch { token: outs[x]->Token_0, start: spans@[x].0, len: (spans@[x].1 - spans@[x].0) as usize })
                    } else {
                        None
                    },
                forall|x: int| 0 <= x < tokens@.len() ==> #[trigger] tokens@[x].start + tokens@[x].len <= n,
                forall|a: int, b: int|
                    0 <= a < b < tokens@.len() ==> #[trigger] tokens@[a].start <= #[trigger] tokens@[b].start,
                q < order@.len() ==> forall|x: int|
                    0 <= x < tokens@.len() ==> #[trigger] tokens@[x].start <= spans@[order@[q as int] as int].0,
                forall|i: int, j: int|
                    0 <= i < j < order@.len() ==> reads_before(spans@, #[trigger] order@[i], #[trigger] order@[j]),
                forall|x: int| 0 <= x < order@.len() ==> #[trigger] order@[x] < count,
                forall|x: int| 0 <= x < spans@.len() ==> #[trigger] spans@[x].0 <= spans@[x].1 <= n,
                src.len() == tokens@.len() && pos.len() == tokens@.len(),
                forall|x: int|
                    0 <= x < tokens@.len() ==> 0 <= #[trigger] pos[x] < q && src[x] == order@[pos[x]] as int,
                forall|a: int, b: int| 0 <= a < b < tokens@.len() ==> #[trigger] pos[a] < #[trigger] pos[b],
                forall|x: int|
                    0 <= x < tokens@.len() ==> (#[trigger] tokens@[x]).start == spans@[src[x]].0
                        && tokens@[x].len == spans@[src[x]].1 - spans@[src[x]].0,
                forall|x: int| 0 <= x < order@.len() ==> kept(n as nat, spans@, #[trigger] order@[x] as int),
            decreases order@.len() - q,
        {
            let mut slot: Option<LexerMatch<T>> = None;
            let ghost before = slots@;
            let ghost kq = order@[q as int] as int;
            slots.set_and_swap(order[q], &mut slot);
            assert(spans@[kq].0 <= spans@[kq].1 <= n);
            assert(slot == full_slots[kq]);
            assert forall|j: int| q + 1 <= j < order@.len() implies slots@[#[trigger] order@[j] as int] == full_slots[order@[j] as int] by {
                assert(reads_before(spans@, order@[q as int], order@[j]));
            }
            assert(order@.take(q + 1).drop_last() =~= order@.take(q as int));
            if let Some(found_match) = slot {
                tokens.push(found_match);
                proof {
                    src = src.push(kq);
                    pos = pos.push(q as int);
                }
            }
            q = q + 1;
        }
        proof {
            assert(order@.take(q as int) =~= order@);
            lemma_full_coverage(n as nat, spans@);
            assert forall|a: int, b: int|
                0 <= a < b < tokens@.len() && #[trigger] tokens@[a].len > 0 && #[trigger] tokens@[b].len
                    > 0 implies tokens@[a].start + tokens@[a].len <= tokens@[b].start by {
                assert(pos[a] < pos[b]);
                assert(reads_before(spans@, order@[pos[a]], order@[pos[b]]));
                let (x, y) = if src[a] < src[b] { (src[a], src[b]) } else { (src[b], src[a]) };
                assert(kept(n as nat, spans@, x) && kept(n as nat, spans@, y));
                assert(!overlap(spans@[x], spans@[y]));
            }
            assert(lex_outcome(n as nat, spans@, outs, seq_result(Ok::<Vec<LexerMatch<T>>, LexError>(tokens))));
        }
        Ok(tokens)
    }

    /// The tokens of `lex_matches`, without their offsets.
    pub fn lex(&self, s: &str) -> (r: Result<Vec<T>, LexError>)
        requires
            forall|i: int, m: &RuleMatch|
                0 <= i < self.handlers().len() ==> #[trigger] self.handlers()[i].requires((m,)),
        ensures
            exists|ms: Seq<RuleMatch>, outs: Seq<LexResult<T>>, full: Result<Seq<LexerMatch<T>>, LexError>|
                handled(self.handlers(), s, offered(self.patterns(), s@), ms, outs) && lex_outcome(
                    input_len(s),
                    offered_spans(self.patterns(), s@),
                    outs,
                    full,
                ) && seq_result(r) == without_offsets(full),
    {
        let found = self.lex_matches(s);
        let ghost (ms, outs) = choose|ms: Seq<RuleMatch>, outs: Seq<LexResult<T>>|
            handled(self.handlers(), s, offered(self.patterns(), s@), ms, outs) && lex_outcome(
                input_len(s),
                offered_spans(self.patterns(), s@),
                outs,
                seq_result(found),
            );
        let ghost full = seq_result(found);
        let mut matches = match found {
            Ok(matches) => matches,
            Err(e) => {
                assert(seq_result(Err::<Vec<T>, LexError>(e)) == without_offsets(full));
                return Err(e);
            },
        };
        let ghost all = matches@;
        // Take the tokens out from the back, then turn them around.
        let mut reversed: Vec<T> = Vec::new();
        while matches.len() > 0
            invariant
                matches@.len() + reversed@.len() == all.len(),
                forall|q: int| 0 <= q < matches@.len() ==> #[trigger] matches@[q] == all[q],
                forall|q: int|
                    0 <= q < reversed@.len() ==> reversed@[q] == (#[trigger] all[all.len() - 1 - q]).token,
            decreases matches@.len(),
        {
            if let Some(m) = matches.pop() {
                reversed.push(m.token);
            }
        }
        let mut tokens: Vec<T> = Vec::new();
        while reversed.len() > 0
            invariant
                reversed@.len() + tokens@.len() == all.len(),
                forall|q: int|
                    0 <= q < reversed@.len() ==> #[trigger] reversed@[q] == all[all.len() - 1 - q].token,
                forall|q: int| 0 <= q < tokens@.len() ==> #[trigger] tokens@[q] == all[q].token,
            decreases reversed@.len(),
        {
            if let Some(t) = reversed.pop() {
                tokens.push(t);
            }
        }
        assert(tokens@ =~= all.map_values(|m: LexerMatch<T>| m.token));
        assert(seq_result(Ok::<Vec<T>, LexError>(tokens)) == without_offsets(full));
        Ok(tokens)
    }
}

} // verus!
