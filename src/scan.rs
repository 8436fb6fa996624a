use vstd::prelude::*;
use std::collections::VecDeque;
use crate::token::{lemma_decided, lemma_still_running, next_outcome, running, word_at};

verus! {

/// The default delimiters: space, tab, line feed and carriage return.
pub open spec fn white(c: char) -> bool {
    c == ' ' || c == '\t' || c == '\n' || c == '\r'
}

/// Whether `c` is one of the default delimiters.
pub fn is_white(c: &char) -> (r: bool)
    ensures
        r == white(*c),
{
    *c == ' ' || *c == '\t' || *c == '\n' || *c == '\r'
}

/// Why a token could not be turned into a value.
#[derive(Debug)]
pub enum ScanError<P, E> {
    /// A token was read but the target type rejected it.
    Parse(P),
    /// The character source failed before a token was complete.
    Io(E),
}

/// A token request's result as plain values: the token's characters, the
/// source's error, or `None` at the end of the stream.
pub open spec fn token_view<E>(r: Option<Result<String, E>>) -> Option<Result<Seq<char>, E>> {
    match r {
        None => None,
        Some(Ok(s)) => Some(Ok(s@)),
        Some(Err(e)) => Some(Err(e)),
    }
}

/// A parse result lifted into the scanner's error type.
pub open spec fn lift_parse<T, P, E>(res: Result<T, P>) -> Result<T, ScanError<P, E>> {
    match res {
        Ok(v) => Ok(v),
        Err(p) => Err(ScanError::Parse(p)),
    }
}

/// Relies on String::push: the character is appended at the end.
#[verifier::external_body]
fn push_char(s: &mut String, c: char)
    ensures
        final(s)@ == old(s)@.push(c),
{
    s.push(c)
}

/// Every answer `f` gives agrees with the predicate `d`.
pub open spec fn agrees<F: Fn(&char) -> bool>(f: F, d: spec_fn(char) -> bool) -> bool {
    forall|c: char, r: bool| #[trigger] call_ensures(f, (&c,), r) ==> r == d(c)
}

/// What a parsed token request returns, given what the token request yields.
pub open spec fn parsed_outcome<T, P, E, G: Fn(&str) -> Result<T, P>>(
    parse: G,
    o: Option<Result<Seq<char>, E>>,
    r: Option<Result<T, ScanError<P, E>>>,
) -> bool {
    match o {
        None => r is None,
        Some(Err(e)) => r == Some(Err::<T, ScanError<P, E>>(ScanError::Io(e))),
        Some(Ok(w)) => exists|t: &str, res: Result<T, P>|
            t@ == w && call_ensures(parse, (t,), res) && r == Some(lift_parse::<T, P, E>(res)),
    }
}

/// Turns the result of a token request into a value with `parse`: end of
/// stream and source errors pass through, a token becomes `parse`'s value or
/// its error as `ScanError::Parse`.
pub fn parse_outcome<T, P, E, G: Fn(&str) -> Result<T, P>>(tok: Option<Result<String, E>>, parse: G) -> (r:
    Option<Result<T, ScanError<P, E>>>)
    requires
        forall|t: &str| call_requires(parse, (t,)),
    ensures
        parsed_outcome(parse, token_view(tok), r),
{
    match tok {
        None => None,
        Some(Err(e)) => Some(Err(ScanError::Io(e))),
        Some(Ok(tok)) => {
            let t = tok.as_str();
            let res = parse(t);
            let ghost gres = res;
            let r = match res {
                Ok(v) => Ok(v),
                Err(p) => Err(ScanError::Parse(p)),
            };
            assert(r == lift_parse::<T, P, E>(gres));
            Some(r)
        },
    }
}

/// A source of raw tokens, from which values of any type can be parsed.
pub trait Scan {
    /// What the underlying character source fails with.
    type Error;

    /// Whether the next token request may yield `o` (as plain values).
    spec fn yields(&self, o: Option<Result<Seq<char>, Self::Error>>) -> bool;

    /// The next token, `Some(Err(e))` when the source failed, or `None` when
    /// no token is left.
    fn next_str(&mut self) -> (r: Option<Result<String, Self::Error>>)
        ensures
            old(self).yields(token_view(r)),
    ;

    /// The next token, turned into a value by `parse`: end of stream and
    /// source errors pass through, and a token becomes `parse`'s value or
    /// its error as `ScanError::Parse`.
    fn next<T, P, G: Fn(&str) -> Result<T, P>>(&mut self, parse: G) -> (r: Option<
        Result<T, ScanError<P, Self::Error>>,
    >)
        requires
            forall|t: &str| call_requires(parse, (t,)),
        ensures
            exists|o: Option<Result<Seq<char>, Self::Error>>|
                old(self).yields(o) && parsed_outcome(parse, o, r),
    {
        let tok = self.next_str();
        let r = parse_outcome(tok, parse);
        assert(old(self).yields(token_view(tok)) && parsed_outcome(parse, token_view(tok), r));
        r
    }
}

/// One token request in progress, fed one event of the character source at
/// a time; for sources that are read as the tokens are asked for.
pub struct Tokenizer<'a, E, F: Fn(&char) -> bool> {
    ignore: &'a F,
    out: String,
    started: bool,
    seen: Ghost<Seq<Result<char, E>>>,
    start: Ghost<int>,
}

impl<'a, E, F: Fn(&char) -> bool> Tokenizer<'a, E, F> {
    /// The events this request has been fed.
    pub closed spec fn seen(&self) -> Seq<Result<char, E>> {
        self.seen@
    }

    /// `d` is a delimiter predicate of this request: every answer of the
    /// borrowed predicate agrees with it.
    pub closed spec fn decides(&self, d: spec_fn(char) -> bool) -> bool {
        agrees(*self.ignore, d)
    }

    /// The request is still open, and the token so far is what the events
    /// seen make it.
    pub closed spec fn inv(&self) -> bool {
        &&& forall|c: char| call_requires(*self.ignore, (&c,))
        &&& self.started ==> 0 <= self.start@ < self.seen@.len() && self.seen@[self.start@] is Ok
            && self.out@ == word_at(self.seen@, self.start@, self.seen@.len() as int)
        &&& !self.started ==> self.out@ == Seq::<char>::empty()
        &&& forall|d: spec_fn(char) -> bool| #[trigger]
            agrees(*self.ignore, d) ==> running(self.seen@, d, self.started, self.start@)
    }

    /// A new request whose delimiters are the characters on which `f`
    /// answers `true`.
    pub fn begin(f: &'a F) -> (t: Self)
        requires
            forall|c: char| call_requires(*f, (&c,)),
        ensures
            t.inv(),
            t.seen() == Seq::<Result<char, E>>::empty(),
            forall|d: spec_fn(char) -> bool| #[trigger] t.decides(d) == agrees(*f, d),
    {
        Tokenizer {
            ignore: f,
            out: String::new(),
            started: false,
            seen: Ghost(Seq::empty()),
            start: Ghost(0),
        }
    }

    /// Feeds the next event of the source, `None` at its end. Returns `None`
    /// while the request is open, or what the request yields once it is
    /// decided: what follows in the source cannot change that.
    pub fn feed(&mut self, ev: Option<Result<char, E>>) -> (r: Option<Option<Result<String, E>>>)
        requires
            old(self).inv(),
        ensures
            forall|d: spec_fn(char) -> bool| #[trigger] final(self).decides(d) == old(self).decides(d),
            match ev {
                None => r matches Some(o) && forall|d: spec_fn(char) -> bool| #[trigger]
                    old(self).decides(d) ==> next_outcome(old(self).seen(), d) == (
                        token_view(o),
                        old(self).seen().len() as int,
                    ),
                Some(x) => match r {
                    None => final(self).inv() && final(self).seen() == old(self).seen().push(x),
                    Some(o) => forall|d: spec_fn(char) -> bool, more: Seq<Result<char, E>>|
                        old(self).decides(d) ==> #[trigger] next_outcome(
                            old(self).seen().push(x) + more,
                            d,
                        ) == (token_view(o), old(self).seen().len() as int + 1),
                },
            },
    {
        let ghost seen = self.seen@;
        let ghost k = self.start@;
        let ghost started = self.started;
        match ev {
            None => {
                let mut out = String::new();
                std::mem::swap(&mut out, &mut self.out);
                if self.started {
                    Some(Some(Ok(out)))
                } else {
                    Some(None)
                }
            },
            Some(Err(e)) => {
                assert forall|d: spec_fn(char) -> bool, more: Seq<Result<char, E>>|
                    old(self).decides(d) implies #[trigger] next_outcome(seen.push(Err(e)) + more, d)
                    == (Some(Err::<Seq<char>, E>(e)), seen.len() as int + 1) by {
                    lemma_decided(seen, Err(e), more, d, started, k);
                }
                Some(Some(Err(e)))
            },
            Some(Ok(c)) => {
                let f = self.ignore;
                let is_delim = f(&c);
                assert(forall|d: spec_fn(char) -> bool| #[trigger]
                    agrees(*self.ignore, d) ==> d(c) == is_delim);
                if is_delim {
                    if self.started {
                        let mut out = String::new();
                        std::mem::swap(&mut out, &mut self.out);
                        assert forall|d: spec_fn(char) -> bool, more: Seq<Result<char, E>>|
                            old(self).decides(d) implies #[trigger] next_outcome(
                            seen.push(Ok(c)) + more,
                            d,
                        ) == (Some(Ok::<Seq<char>, E>(out@)), seen.len() as int + 1) by {
                            lemma_decided(seen, Ok(c), more, d, started, k);
                        }
                        return Some(Some(Ok(out)));
                    }
                    self.seen = Ghost(seen.push(Ok(c)));
                    assert forall|d: spec_fn(char) -> bool| #[trigger]
                        agrees(*self.ignore, d) implies running(self.seen@, d, false, k) by {
                        lemma_still_running(seen, Ok(c), d, started, k);
                    }
                    None
                } else {
                    push_char(&mut self.out, c);
                    if !self.started {
                        self.start = Ghost(seen.len() as int);
                    }
                    self.seen = Ghost(seen.push(Ok(c)));
                    self.started = true;
                    assert(self.out@ =~= word_at(self.seen@, self.start@, self.seen@.len() as int));
                    assert forall|d: spec_fn(char) -> bool| #[trigger]
                        agrees(*self.ignore, d) implies running(self.seen@, d, true, self.start@) by {
                        lemma_still_running(seen, Ok(c), d, started, k);
                    }
                    None
                }
            },
        }
    }
}

/// A tokenizer over a finite queue of character events, with a delimiter
/// predicate chosen at construction.
pub struct Scanner<E, F: Fn(&char) -> bool> {
    chars: VecDeque<Result<char, E>>,
    ignore: F,
}

impl<E, F: Fn(&char) -> bool> Scanner<E, F> {
    /// The events not yet consumed, in order.
    pub closed spec fn source(&self) -> Seq<Result<char, E>> {
        self.chars@
    }

    /// `d` is a delimiter predicate of this scanner: every answer of the
    /// stored predicate agrees with it.
    pub closed spec fn decides(&self, d: spec_fn(char) -> bool) -> bool {
        agrees(self.ignore, d)
    }

    /// The stored predicate can be called on every character.
    #[verifier::type_invariant]
    spec fn wf(&self) -> bool {
        forall|c: char| call_requires(self.ignore, (&c,))
    }

    fn with_source(source: Vec<Result<char, E>>, f: F) -> (s: Scanner<E, F>)
        requires
            forall|c: char| call_requires(f, (&c,)),
        ensures
            s.source() == source@,
            s.ignore == f,
    {
        let mut src = source;
        let mut chars: VecDeque<Result<char, E>> = VecDeque::new();
        while src.len() > 0
            invariant
                src@ + chars@ == source@,
            decreases src.len(),
        {
            match src.pop() {
                Some(ev) => chars.push_front(ev),
                None => {},
            }
            assert(src@ + chars@ =~= source@);
        }
        assert(chars@ =~= source@);
        Scanner { chars, ignore: f }
    }

    /// A scanner of the events `source` whose delimiters are the characters
    /// on which `f` answers `true`: any predicate that agrees with every
    /// answer of `f` decides the tokens.
    pub fn custom(source: Vec<Result<char, E>>, f: F) -> (s: Scanner<E, F>)
        requires
            forall|c: char| call_requires(f, (&c,)),
        ensures
            s.source() == source@,
            forall|d: spec_fn(char) -> bool| #[trigger] s.decides(d) == agrees(f, d),
    {
        Scanner::with_source(source, f)
    }

    /// The next token: `Some(Ok(token))`, `Some(Err(e))` when the source
    /// failed, or `None` when the stream has ended.
    ///
    /// Delimiters before the token are skipped and the delimiter after it is
    /// consumed. A token cut short by an error is dropped.
    pub fn next_str(&mut self) -> (r: Option<Result<String, E>>)
        ensures
            forall|d: spec_fn(char) -> bool| #[trigger] final(self).decides(d) == old(self).decides(d),
            forall|d: spec_fn(char) -> bool| #[trigger]
                old(self).decides(d) ==> {
                    &&& token_view(r) == next_outcome(old(self).source(), d).0
                    &&& final(self).source() == old(self).source().subrange(
                        next_outcome(old(self).source(), d).1,
                        old(self).source().len() as int,
                    )
                },
    {
        proof {
            use_type_invariant(&*self);
        }
        let ghost s0 = self.chars@;
        let mut rest: VecDeque<Result<char, E>> = VecDeque::new();
        std::mem::swap(&mut rest, &mut self.chars);
        let mut step = Tokenizer::begin(&self.ignore);
        loop
            invariant
                self.ignore == old(self).ignore,
                self.wf(),
                s0 == old(self).chars@,
                step.inv(),
                forall|d: spec_fn(char) -> bool| #[trigger]
                    step.decides(d) == agrees(self.ignore, d),
                step.seen().len() <= s0.len(),
                step.seen() == s0.subrange(0, step.seen().len() as int),
                rest@ == s0.subrange(step.seen().len() as int, s0.len() as int),
            decreases rest@.len(),
        {
            let ghost before = step.seen();
            let ghost st0 = step;
            let ev = rest.pop_front();
            match step.feed(ev) {
                Some(o) => {
                    proof {
                        if ev is Some {
                            assert(before.push(ev->Some_0) + rest@ =~= s0);
                            assert forall|d: spec_fn(char) -> bool| #[trigger]
                                old(self).decides(d) implies next_outcome(s0, d) == (
                                token_view(o),
                                before.len() as int + 1,
                            ) by {
                                assert(next_outcome(before.push(ev->Some_0) + rest@, d) == (
                                    token_view(o),
                                    before.len() as int + 1,
                                ));
                            }
                        } else {
                            assert(before =~= s0);
                            assert forall|d: spec_fn(char) -> bool| #[trigger]
                                old(self).decides(d) implies next_outcome(s0, d) == (
                                token_view(o),
                                s0.len() as int,
                            ) by {
                                assert(st0.decides(d));
                                assert(next_outcome(before, d) == (token_view(o), before.len() as int));
                            }
                        }
                    }
                    self.chars = rest;
                    return o;
                },
                None => {
                    assert(step.seen() =~= s0.subrange(0, step.seen().len() as int));
                },
            }
        }
    }

    /// The next token, turned into a value by `parse` (a type's `from_str`,
    /// or any function from text to a value or an error).
    ///
    /// End of stream and source errors pass through unchanged; a token is
    /// handed to `parse` and its verdict is lifted into `ScanError::Parse`.
    /// A rejected token is consumed all the same, so scanning can go on.
    pub fn next<T, P, G: Fn(&str) -> Result<T, P>>(&mut self, parse: G) -> (r: Option<
        Result<T, ScanError<P, E>>,
    >)
        requires
            forall|t: &str| call_requires(parse, (t,)),
        ensures
            forall|d: spec_fn(char) -> bool| #[trigger] final(self).decides(d) == old(self).decides(d),
            forall|d: spec_fn(char) -> bool| #[trigger]
                old(self).decides(d) ==> {
                    &&& parsed_outcome(parse, next_outcome(old(self).source(), d).0, r)
                    &&& final(self).source() == old(self).source().subrange(
                        next_outcome(old(self).source(), d).1,
                        old(self).source().len() as int,
                    )
                },
    {
        let tok = self.next_str();
        parse_outcome(tok, parse)
    }
}

impl<E> Scanner<E, fn(&char) -> bool> {
    /// A scanner of the events `source` whose delimiters are whitespace: it
    /// tokenizes as `custom(source, is_white)` does.
    pub fn new(source: Vec<Result<char, E>>) -> (s: Scanner<E, impl Fn(&char) -> bool>)
        ensures
            s.source() == source@,
            s.decides(|c: char| white(c)),
            forall|d: spec_fn(char) -> bool| #[trigger] s.decides(d) == agrees(is_white, d),
    {
        Scanner::with_source(source, is_white)
    }
}

impl<E, F: Fn(&char) -> bool> Scan for Scanner<E, F> {
    type Error = E;

    /// `o` is what the token model gives for every delimiter predicate of
    /// this scanner.
    open spec fn yields(&self, o: Option<Result<Seq<char>, E>>) -> bool {
        forall|d: spec_fn(char) -> bool| #[trigger]
            self.decides(d) ==> o == next_outcome(self.source(), d).0
    }

    fn next_str(&mut self) -> (r: Option<Result<String, E>>) {
        Scanner::next_str(self)
    }
}

} // verus!
