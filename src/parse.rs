//! A cursor over a shared, immutable token sequence with speculative parsing.

use std::rc::Rc;
use vstd::std_specs::cmp::PartialEqSpec;
use vstd::prelude::*;

verus! {

/// Why a cursor operation or a sub-parser failed.
#[derive(Debug, Clone, PartialEq, Eq)]
pub enum ParseError {
    /// A token was asked for past the end of the sequence (or before its start).
    EmptyQueue,
    /// The token at the cursor was rejected by the predicate or comparison.
    PredicateMismatch,
    /// A grammar-specific violation raised by a sub-parser.
    Syntax(String),
}

/// What a sub-parser hands back: the parsed value and the position it reached.
pub type ParseResult<T> = Result<(T, usize), ParseError>;

/// A position in a token sequence that is shared by every clone of the cursor.
pub struct TokenQueue<T> {
    tokens: Rc<Vec<T>>,
    idx: usize,
}

/// Relies on `Rc::clone`: a second handle to the same allocation, so the
/// value behind it is the same.
#[verifier::external_body]
fn share<V>(rc: &Rc<V>) -> (r: Rc<V>)
    ensures
        r == *rc,
{
    Rc::clone(rc)
}

impl<T> Clone for TokenQueue<T> {
    /// A cursor at the same position over the same sequence; the tokens are
    /// shared, not copied.
    fn clone(&self) -> (r: Self)
        ensures
            r.tokens() == self.tokens(),
            r.pos() == self.pos(),
            r.pos() <= r.tokens().len(),
    {
        proof {
            use_type_invariant(self);
        }
        TokenQueue { tokens: share(&self.tokens), idx: self.idx }
    }
}

impl<T> From<Vec<T>> for TokenQueue<T> {
    /// A cursor at the start of `value`.
    fn from(value: Vec<T>) -> (r: Self)
        ensures
            r.tokens() == value@,
            r.pos() == 0,
            r.pos() <= r.tokens().len(),
    {
        TokenQueue::new(value)
    }
}

impl<T> vstd::std_specs::convert::FromSpecImpl<Vec<T>> for TokenQueue<T> {
    open spec fn obeys_from_spec() -> bool {
        false
    }

    open spec fn from_spec(v: Vec<T>) -> Self {
        arbitrary()
    }
}

impl<T> TokenQueue<T> {
    /// The token sequence the cursor walks.
    pub closed spec fn tokens(&self) -> Seq<T> {
        self.tokens@
    }

    /// The position of the cursor: the number of tokens already passed.
    pub closed spec fn pos(&self) -> nat {
        self.idx as nat
    }

    #[verifier::type_invariant]
    spec fn in_bounds(&self) -> bool {
        self.idx <= self.tokens@.len()
    }

    /// A cursor at the start of `tokens`.
    pub fn new(tokens: Vec<T>) -> (r: Self)
        ensures
            r.tokens() == tokens@,
            r.pos() == 0,
            r.pos() <= r.tokens().len(),
    {
        TokenQueue { tokens: Rc::new(tokens), idx: 0 }
    }

    /// The number of tokens in the whole sequence.
    pub fn len(&self) -> (r: usize)
        ensures
            r == self.tokens().len(),
    {
        self.tokens.len()
    }

    /// Borrow the token at the cursor.
    pub fn peek(&self) -> (r: Result<&T, ParseError>)
        ensures
            self.pos() < self.tokens().len() ==> r == Ok::<&T, ParseError>(
                &self.tokens()[self.pos() as int],
            ),
            self.pos() >= self.tokens().len() ==> r == Err::<&T, ParseError>(
                ParseError::EmptyQueue,
            ),
    {
        if self.idx < self.tokens.len() {
            Ok(&self.tokens[self.idx])
        } else {
            Err(ParseError::EmptyQueue)
        }
    }

    /// Borrow the token just before the cursor, the one consumed last.
    pub fn prev(&self) -> (r: Result<&T, ParseError>)
        ensures
            self.pos() > 0 ==> r == Ok::<&T, ParseError>(&self.tokens()[self.pos() - 1]),
            self.pos() == 0 ==> r == Err::<&T, ParseError>(ParseError::EmptyQueue),
    {
        proof {
            use_type_invariant(self);
        }
        if self.idx > 0 {
            Ok(&self.tokens[self.idx - 1])
        } else {
            Err(ParseError::EmptyQueue)
        }
    }

    /// Pass the token at the cursor and return it; fails without moving when
    /// the sequence is exhausted.
    pub fn consume(&mut self) -> (r: Result<&T, ParseError>)
        ensures
            final(self).tokens() == old(self).tokens(),
            final(self).pos() <= final(self).tokens().len(),
            old(self).pos() < old(self).tokens().len() ==> {
                &&& final(self).pos() == old(self).pos() + 1
                &&& r == Ok::<&T, ParseError>(&old(self).tokens()[old(self).pos() as int])
            },
            old(self).pos() >= old(self).tokens().len() ==> {
                &&& final(self).pos() == old(self).pos()
                &&& r == Err::<&T, ParseError>(ParseError::EmptyQueue)
            },
    {
        proof {
            use_type_invariant(&*self);
        }
        if self.idx < self.tokens.len() {
            self.idx = self.idx + 1;
            Ok(&self.tokens[self.idx - 1])
        } else {
            Err(ParseError::EmptyQueue)
        }
    }

    /// Move the cursor one token forward.
    pub fn increment(&mut self)
        requires
            old(self).pos() < old(self).tokens().len(),
        ensures
            final(self).tokens() == old(self).tokens(),
            final(self).pos() <= final(self).tokens().len(),
            final(self).pos() == old(self).pos() + 1,
    {
        if self.idx < self.tokens.len() {
            self.idx = self.idx + 1;
        }
    }

    /// Set the cursor's position.
    pub fn go_to(&mut self, i: usize)
        requires
            i <= old(self).tokens().len(),
        ensures
            final(self).tokens() == old(self).tokens(),
            final(self).pos() <= final(self).tokens().len(),
            final(self).pos() == i,
    {
        self.idx = i;
    }

    /// The cursor's position.
    pub fn get_idx(&self) -> (r: usize)
        ensures
            r == self.pos(),
            r <= self.tokens().len(),
    {
        proof {
            use_type_invariant(self);
        }
        self.idx
    }

    /// Whether every token has been passed.
    pub fn is_consumed(&self) -> (r: bool)
        ensures
            r == (self.pos() == self.tokens().len()),
            self.pos() <= self.tokens().len(),
    {
        proof {
            use_type_invariant(self);
        }
        self.idx == self.tokens.len()
    }

    /// Borrow the token at the cursor if `f` accepts it.
    pub fn peek_matching<F: Fn(&T) -> bool>(&self, f: F) -> (r: Result<&T, ParseError>)
        requires
            forall|t: &T| f.requires((t,)),
        ensures
            self.pos() >= self.tokens().len() ==> r == Err::<&T, ParseError>(
                ParseError::EmptyQueue,
            ),
            self.pos() < self.tokens().len() ==> {
                let t = &self.tokens()[self.pos() as int];
                ||| r == Ok::<&T, ParseError>(t) && f.ensures((t,), true)
                ||| r == Err::<&T, ParseError>(ParseError::PredicateMismatch) && f.ensures(
                    (t,),
                    false,
                )
            },
    {
        let token = self.peek()?;
        if !f(token) {
            return Err(ParseError::PredicateMismatch);
        }
        Ok(token)
    }

    /// Pass the token at the cursor and return it if `f` accepts it; the cursor
    /// stays where it is otherwise.
    pub fn consume_matching<F: Fn(&T) -> bool>(&mut self, f: F) -> (r: Result<&T, ParseError>)
        requires
            forall|t: &T| f.requires((t,)),
        ensures
            final(self).tokens() == old(self).tokens(),
            final(self).pos() <= final(self).tokens().len(),
            old(self).pos() >= old(self).tokens().len() ==> {
                &&& r == Err::<&T, ParseError>(ParseError::EmptyQueue)
                &&& final(self).pos() == old(self).pos()
            },
            old(self).pos() < old(self).tokens().len() ==> {
                let t = &old(self).tokens()[old(self).pos() as int];
                ||| r == Ok::<&T, ParseError>(t) && f.ensures((t,), true) && final(self).pos()
                    == old(self).pos() + 1
                ||| r == Err::<&T, ParseError>(ParseError::PredicateMismatch) && f.ensures(
                    (t,),
                    false,
                ) && final(self).pos() == old(self).pos()
            },
    {
        proof {
            use_type_invariant(&*self);
        }
        if self.idx >= self.tokens.len() {
            return Err(ParseError::EmptyQueue);
        }
        if !f(&self.tokens[self.idx]) {
            return Err(ParseError::PredicateMismatch);
        }
        self.idx = self.idx + 1;
        Ok(&self.tokens[self.idx - 1])
    }

    /// Apply the outcome of a sub-parser: on success move to the position it
    /// reached and hand back its value; on failure stay put and hand back the
    /// error.
    pub fn commit<V>(&mut self, outcome: ParseResult<V>) -> (r: Result<V, ParseError>)
        requires
            reports_in_bounds(*old(self), outcome),
        ensures
            final(self).tokens() == old(self).tokens(),
            final(self).pos() <= final(self).tokens().len(),
            committed(*old(self), outcome, *final(self), r),
    {
        proof {
            use_type_invariant(&*self);
        }
        match outcome {
            Ok((val, index)) => {
                self.go_to(index);
                Ok(val)
            },
            Err(e) => Err(e),
        }
    }

    /// Run `parse_fn` on a snapshot of the cursor. On success the cursor moves
    /// to the position the sub-parser reports and its value is returned; on
    /// failure the cursor is left exactly where it was.
    pub fn parse<V, F: Fn(&TokenQueue<T>) -> ParseResult<V>>(&mut self, parse_fn: F) -> (r: Result<
        V,
        ParseError,
    >)
        requires
            parse_fn.requires((&*old(self),)),
            forall|out: ParseResult<V>|
                parse_fn.ensures((&*old(self),), out) ==> reports_in_bounds(*old(self), out),
        ensures
            final(self).tokens() == old(self).tokens(),
            final(self).pos() <= final(self).tokens().len(),
            exists|out: ParseResult<V>|
                parse_fn.ensures((&*old(self),), out) && committed(
                    *old(self),
                    out,
                    *final(self),
                    r,
                ),
    {
        let outcome = parse_fn(&*self);
        assert(reports_in_bounds(*self, outcome));
        self.commit(outcome)
    }

    /// As `parse`, handing the sub-parser a read-only `context` as well.
    pub fn parse_with<V, C, F: Fn(&TokenQueue<T>, &C) -> ParseResult<V>>(
        &mut self,
        parse_with_fn: F,
        context: &C,
    ) -> (r: Result<V, ParseError>)
        requires
            parse_with_fn.requires((&*old(self), context)),
            forall|out: ParseResult<V>|
                parse_with_fn.ensures((&*old(self), context), out) ==> reports_in_bounds(
                    *old(self),
                    out,
                ),
        ensures
            final(self).tokens() == old(self).tokens(),
            final(self).pos() <= final(self).tokens().len(),
            exists|out: ParseResult<V>|
                parse_with_fn.ensures((&*old(self), context), out) && committed(
                    *old(self),
                    out,
                    *final(self),
                    r,
                ),
    {
        let outcome = parse_with_fn(&*self, context);
        assert(reports_in_bounds(*self, outcome));
        self.commit(outcome)
    }
}

impl<T: PartialEq> TokenQueue<T> {
    /// Pass the token at the cursor if it equals `token`.
    pub fn consume_eq(&mut self, token: T) -> (r: Result<(), ParseError>)
        ensures
            final(self).tokens() == old(self).tokens(),
            final(self).pos() <= final(self).tokens().len(),
            old(self).pos() >= old(self).tokens().len() ==> {
                &&& r == Err::<(), ParseError>(ParseError::EmptyQueue)
                &&& final(self).pos() == old(self).pos()
            },
            old(self).pos() < old(self).tokens().len() ==> {
                ||| r == Ok::<(), ParseError>(()) && final(self).pos() == old(self).pos() + 1
                ||| r == Err::<(), ParseError>(ParseError::PredicateMismatch) && final(self).pos()
                    == old(self).pos()
            },
            T::obeys_eq_spec() && old(self).pos() < old(self).tokens().len() ==> (r is Ok
                <==> old(self).tokens()[old(self).pos() as int].eq_spec(&token)),
    {
        proof {
            use_type_invariant(&*self);
        }
        if self.idx >= self.tokens.len() {
            return Err(ParseError::EmptyQueue);
        }
        if self.tokens[self.idx].eq(&token) {
            self.idx = self.idx + 1;
            Ok(())
        } else {
            Err(ParseError::PredicateMismatch)
        }
    }
}

/// A sub-parser's outcome names a position within the cursor's sequence.
pub open spec fn reports_in_bounds<T, V>(q: TokenQueue<T>, out: ParseResult<V>) -> bool {
    out matches Ok((_, i)) ==> i <= q.tokens().len()
}

/// The cursor `after` and the result `r` are what applying the sub-parser
/// outcome `out` to the cursor `before` gives: its reported position and value
/// on success; the unchanged position and its error on failure.
pub open spec fn committed<T, V>(
    before: TokenQueue<T>,
    out: ParseResult<V>,
    after: TokenQueue<T>,
    r: Result<V, ParseError>,
) -> bool {
    match out {
        Ok((val, i)) => after.pos() == i && r == Ok::<V, ParseError>(val),
        Err(e) => after.pos() == before.pos() && r == Err::<V, ParseError>(e),
    }
}

/// A sub-parser that fails leaves the caller's cursor where it was, however
/// far it moved its own copy, and its error is what the caller gets.
pub proof fn lemma_failed_parse_keeps_position<T, V>(
    before: TokenQueue<T>,
    out: ParseResult<V>,
    after: TokenQueue<T>,
    r: Result<V, ParseError>,
)
    requires
        out is Err,
        committed(before, out, after, r),
    ensures
        after.pos() == before.pos(),
        r == Err::<V, ParseError>(out->Err_0),
{
}

/// A sub-parser that succeeds moves the caller's cursor to exactly the
/// position it reports, and its value is what the caller gets.
pub proof fn lemma_successful_parse_commits<T, V>(
    before: TokenQueue<T>,
    out: ParseResult<V>,
    after: TokenQueue<T>,
    r: Result<V, ParseError>,
)
    requires
        out is Ok,
        committed(before, out, after, r),
    ensures
        after.pos() == out->Ok_0.1,
        r == Ok::<V, ParseError>(out->Ok_0.0),
{
}

} // verus!
