use vstd::prelude::*;

verus! {

/// An event is a delimiter when it is a character that the predicate accepts.
pub open spec fn is_sep<E>(ev: Result<char, E>, d: spec_fn(char) -> bool) -> bool {
    match ev {
        Ok(c) => d(c),
        Err(_) => false,
    }
}

/// An event belongs to a token when it is a character that the predicate rejects.
pub open spec fn is_word_char<E>(ev: Result<char, E>, d: spec_fn(char) -> bool) -> bool {
    match ev {
        Ok(c) => !d(c),
        Err(_) => false,
    }
}

/// The first position at or after `i` that does not hold a delimiter.
pub open spec fn skip_seps<E>(s: Seq<Result<char, E>>, d: spec_fn(char) -> bool, i: int) -> int
    decreases s.len() - i,
{
    if 0 <= i < s.len() && is_sep(s[i], d) {
        skip_seps(s, d, i + 1)
    } else {
        i
    }
}

/// The first position at or after `i` that does not hold a token character.
pub open spec fn word_end<E>(s: Seq<Result<char, E>>, d: spec_fn(char) -> bool, i: int) -> int
    decreases s.len() - i,
{
    if 0 <= i < s.len() && is_word_char(s[i], d) {
        word_end(s, d, i + 1)
    } else {
        i
    }
}

/// The character an event carries (only asked of character events).
pub open spec fn char_of<E>(ev: Result<char, E>) -> char {
    match ev {
        Ok(c) => c,
        Err(_) => '\0',
    }
}

/// The characters of the events in `s[i..j]`.
pub open spec fn word_at<E>(s: Seq<Result<char, E>>, i: int, j: int) -> Seq<char> {
    s.subrange(i, j).map_values(|ev: Result<char, E>| char_of(ev))
}

/// What one request for a token yields on the events `s`, and how many
/// events it consumes.
///
/// Leading delimiters are skipped. If nothing follows them, the stream has
/// ended. An error found before any token character is reported. Otherwise
/// the token runs up to the next event that is not a token character: the
/// end of the stream, where the token is flushed; a delimiter, which is
/// consumed with it; or an error, which is reported in its place.
pub open spec fn next_outcome<E>(s: Seq<Result<char, E>>, d: spec_fn(char) -> bool) -> (
    Option<Result<Seq<char>, E>>,
    int,
) {
    let k = skip_seps(s, d, 0);
    if k >= s.len() {
        (None, s.len() as int)
    } else {
        match s[k] {
            Err(e) => (Some(Err(e)), k + 1),
            Ok(_) => {
                let j = word_end(s, d, k);
                if j >= s.len() {
                    (Some(Ok(word_at(s, k, j))), j)
                } else {
                    match s[j] {
                        Err(e) => (Some(Err(e)), j + 1),
                        Ok(_) => (Some(Ok(word_at(s, k, j))), j + 1),
                    }
                }
            },
        }
    }
}

/// Everything that repeated requests yield on the events `s`, up to the end
/// of the stream.
pub open spec fn outcomes<E>(s: Seq<Result<char, E>>, d: spec_fn(char) -> bool) -> Seq<
    Result<Seq<char>, E>,
>
    decreases s.len(),
{
    let step = next_outcome(s, d);
    match step.0 {
        None => Seq::empty(),
        Some(x) => if 0 < step.1 <= s.len() {
            seq![x] + outcomes(s.subrange(step.1, s.len() as int), d)
        } else {
            Seq::empty()
        },
    }
}


/// `skip_seps(s, d, i)` stops at the first non-delimiter at or after `i`.
proof fn lemma_skip_seps_bounds<E>(s: Seq<Result<char, E>>, d: spec_fn(char) -> bool, i: int)
    requires
        0 <= i <= s.len(),
    ensures
        i <= skip_seps(s, d, i) <= s.len(),
        forall|j: int| i <= j < skip_seps(s, d, i) ==> is_sep(#[trigger] s[j], d),
        skip_seps(s, d, i) < s.len() ==> !is_sep(s[skip_seps(s, d, i)], d),
    decreases s.len() - i,
{
    if i < s.len() && is_sep(s[i], d) {
        lemma_skip_seps_bounds(s, d, i + 1);
    }
}

/// Any position with the stopping property is the one `skip_seps` finds.
proof fn lemma_skip_seps_at<E>(s: Seq<Result<char, E>>, d: spec_fn(char) -> bool, i: int, k: int)
    requires
        0 <= i <= k <= s.len(),
        forall|j: int| i <= j < k ==> is_sep(#[trigger] s[j], d),
        k < s.len() ==> !is_sep(s[k], d),
    ensures
        skip_seps(s, d, i) == k,
{
    lemma_skip_seps_bounds(s, d, i);
}

/// `word_end(s, d, i)` stops at the first non-token event at or after `i`.
proof fn lemma_word_end_bounds<E>(s: Seq<Result<char, E>>, d: spec_fn(char) -> bool, i: int)
    requires
        0 <= i <= s.len(),
    ensures
        i <= word_end(s, d, i) <= s.len(),
        forall|j: int| i <= j < word_end(s, d, i) ==> is_word_char(#[trigger] s[j], d),
        word_end(s, d, i) < s.len() ==> !is_word_char(s[word_end(s, d, i)], d),
    decreases s.len() - i,
{
    if i < s.len() && is_word_char(s[i], d) {
        lemma_word_end_bounds(s, d, i + 1);
    }
}

/// Any position with the stopping property is the one `word_end` finds.
proof fn lemma_word_end_at<E>(s: Seq<Result<char, E>>, d: spec_fn(char) -> bool, i: int, k: int)
    requires
        0 <= i <= k <= s.len(),
        forall|j: int| i <= j < k ==> is_word_char(#[trigger] s[j], d),
        k < s.len() ==> !is_word_char(s[k], d),
    ensures
        word_end(s, d, i) == k,
{
    lemma_word_end_bounds(s, d, i);
}

/// A request that yields something consumes at least one event, and a token
/// is never empty and holds no delimiter; a request that yields nothing
/// consumes the whole stream.
pub proof fn lemma_outcome_shape<E>(s: Seq<Result<char, E>>, d: spec_fn(char) -> bool)
    ensures
        next_outcome(s, d).0 is None ==> next_outcome(s, d).1 == s.len(),
        next_outcome(s, d).0 is Some ==> 0 < next_outcome(s, d).1 <= s.len(),
        next_outcome(s, d).0 matches Some(Ok(w)) ==> w.len() > 0 && forall|i: int|
            0 <= i < w.len() ==> !d(#[trigger] w[i]),
{
    lemma_skip_seps_bounds(s, d, 0);
    let k = skip_seps(s, d, 0);
    if k < s.len() && s[k] is Ok {
        lemma_word_end_bounds(s, d, k);
        let j = word_end(s, d, k);
        let w = word_at(s, k, j);
        assert forall|i: int| 0 <= i < w.len() implies !d(#[trigger] w[i]) by {
            assert(is_word_char(s[k + i], d));
        }
    }
}

/// On a stream of delimiters alone, the first request finds the end of the
/// stream; and only there does a first request find it.
pub proof fn lemma_only_delimiters<E>(s: Seq<Result<char, E>>, d: spec_fn(char) -> bool)
    ensures
        (forall|i: int| 0 <= i < s.len() ==> is_sep(#[trigger] s[i], d)) <==> next_outcome(
            s,
            d,
        ).0 is None,
{
    lemma_skip_seps_bounds(s, d, 0);
}

/// Once a request has found the end of the stream, nothing is left, and
/// every later request finds the end again.
pub proof fn lemma_exhausted_stays_exhausted<E>(s: Seq<Result<char, E>>, d: spec_fn(char) -> bool)
    requires
        next_outcome(s, d).0 is None,
    ensures
        s.subrange(next_outcome(s, d).1, s.len() as int).len() == 0,
        next_outcome(s.subrange(next_outcome(s, d).1, s.len() as int), d).0 is None,
        outcomes(s.subrange(next_outcome(s, d).1, s.len() as int), d).len() == 0,
{
    lemma_outcome_shape(s, d);
    let rest = s.subrange(next_outcome(s, d).1, s.len() as int);
    lemma_only_delimiters(rest, d);
}


/// The events after the first `n` are unchanged by inserting `x` at a
/// position before `n`, once the inserted event is skipped too.
proof fn lemma_insert_tail<A>(s: Seq<A>, m: int, x: A, n: int)
    requires
        0 <= m < n <= s.len(),
    ensures
        s.insert(m, x).subrange(n + 1, s.len() as int + 1) == s.subrange(n, s.len() as int),
{
    s.insert_ensures(m, x);
    assert(s.insert(m, x).subrange(n + 1, s.len() as int + 1) =~= s.subrange(n, s.len() as int));
}

/// Inserting `x` at `m` and then dropping the first `n <= m` events is
/// inserting it at `m - n` into what is left.
proof fn lemma_insert_after<A>(s: Seq<A>, m: int, x: A, n: int)
    requires
        0 <= n <= m <= s.len(),
    ensures
        s.insert(m, x).subrange(n, s.len() as int + 1) == s.subrange(n, s.len() as int).insert(m - n, x),
{
    s.insert_ensures(m, x);
    s.subrange(n, s.len() as int).insert_ensures(m - n, x);
    assert(s.insert(m, x).subrange(n, s.len() as int + 1) =~= s.subrange(n, s.len() as int).insert(
        m - n,
        x,
    ));
}

/// A delimiter inserted within the leading delimiters moves the first
/// request's outcome one place along.
proof fn lemma_insert_in_leading_run<E>(
    s: Seq<Result<char, E>>,
    m: int,
    x: Result<char, E>,
    d: spec_fn(char) -> bool,
)
    requires
        0 <= m <= skip_seps(s, d, 0),
        m <= s.len(),
        is_sep(x, d),
    ensures
        next_outcome(s.insert(m, x), d).0 == next_outcome(s, d).0,
        next_outcome(s, d).0 is Some ==> next_outcome(s.insert(m, x), d).1 == next_outcome(s, d).1
            + 1 && next_outcome(s, d).1 > skip_seps(s, d, 0),
{
    let t = s.insert(m, x);
    s.insert_ensures(m, x);
    lemma_skip_seps_bounds(s, d, 0);
    let k = skip_seps(s, d, 0);
    assert forall|j: int| 0 <= j < k + 1 implies is_sep(#[trigger] t[j], d) by {
        if j > m {
            assert(t[j] == s[j - 1]);
        }
    }
    if k < s.len() {
        assert(t[k + 1] == s[k]);
    }
    lemma_skip_seps_at(t, d, 0, k + 1);
    if k < s.len() && s[k] is Ok {
        lemma_word_end_bounds(s, d, k);
        let j = word_end(s, d, k);
        assert forall|i: int| k + 1 <= i < j + 1 implies is_word_char(#[trigger] t[i], d) by {
            assert(t[i] == s[i - 1]);
        }
        if j < s.len() {
            assert(t[j + 1] == s[j]);
        }
        lemma_word_end_at(t, d, k + 1, j + 1);
        assert(word_at(t, k + 1, j + 1) =~= word_at(s, k, j));
    }
}

/// A delimiter inserted after the first token character or error: the first
/// request yields the same. It stops before the insertion, or, where the
/// token ends at a delimiter that the inserted one precedes, consumes the
/// inserted one in place of that delimiter.
proof fn lemma_insert_after_first<E>(
    s: Seq<Result<char, E>>,
    m: int,
    x: Result<char, E>,
    d: spec_fn(char) -> bool,
)
    requires
        skip_seps(s, d, 0) < m <= s.len(),
        is_sep(x, d),
        is_sep(s[m - 1], d) || (m < s.len() && is_sep(s[m], d)),
    ensures
        next_outcome(s.insert(m, x), d).0 == next_outcome(s, d).0,
        next_outcome(s, d).1 <= m && next_outcome(s.insert(m, x), d).1 == next_outcome(s, d).1
            || m < s.len() && is_sep(s[m], d) && next_outcome(s, d).1 == m + 1 && next_outcome(
            s.insert(m, x),
            d,
        ).1 == m + 1,
{
    lemma_skip_seps_bounds(s, d, 0);
    let t = s.insert(m, x);
    s.insert_ensures(m, x);
    let k = skip_seps(s, d, 0);
    assert(t[k] == s[k]);
    assert forall|j: int| 0 <= j < k implies is_sep(#[trigger] t[j], d) by {
        assert(t[j] == s[j]);
    }
    lemma_skip_seps_at(t, d, 0, k);
    if s[k] is Ok {
        lemma_word_end_bounds(s, d, k);
        let j = word_end(s, d, k);
        assert(j <= m) by {
            if j > m {
                assert(is_word_char(s[m - 1], d));
                assert(is_word_char(s[m], d));
            }
        }
        assert forall|i: int| k <= i < j implies is_word_char(#[trigger] t[i], d) by {
            assert(t[i] == s[i]);
        }
        assert(word_at(t, k, j) =~= word_at(s, k, j));
        if j < m {
            assert(t[j] == s[j]);
            lemma_word_end_at(t, d, k, j);
        } else {
            assert(is_word_char(s[m - 1], d));
            assert(t[m] == x);
            lemma_word_end_at(t, d, k, m);
        }
    }
}

/// Delimiter runs collapse: one more delimiter placed at the start of the
/// stream, or next to another delimiter, changes none of the tokens,
/// errors or the end that repeated requests find. So `"a   b"` and `"a b"`
/// yield the same tokens.
pub proof fn lemma_delimiter_runs_collapse<E>(
    s: Seq<Result<char, E>>,
    m: int,
    x: Result<char, E>,
    d: spec_fn(char) -> bool,
)
    requires
        0 <= m <= s.len(),
        is_sep(x, d),
        m == 0 || is_sep(s[m - 1], d) || (m < s.len() && is_sep(s[m], d)),
    ensures
        outcomes(s.insert(m, x), d) == outcomes(s, d),
    decreases s.len(),
{
    let t = s.insert(m, x);
    s.insert_ensures(m, x);
    lemma_outcome_shape(s, d);
    lemma_outcome_shape(t, d);
    lemma_skip_seps_bounds(s, d, 0);
    let o = next_outcome(s, d);
    let n = o.1;
    if m <= skip_seps(s, d, 0) {
        lemma_insert_in_leading_run(s, m, x, d);
        if o.0 is Some {
            lemma_insert_tail(s, m, x, n);
        }
    } else {
        lemma_insert_after_first(s, m, x, d);
        if n <= m && next_outcome(t, d).1 == n {
            lemma_insert_after(s, m, x, n);
            let rest = s.subrange(n, s.len() as int);
            if m - n > 0 {
                assert(rest[m - n - 1] == s[m - 1]);
            }
            if m - n < rest.len() {
                assert(rest[m - n] == s[m]);
            }
            lemma_delimiter_runs_collapse(rest, m - n, x, d);
        } else {
            let rest = s.subrange(m + 1, s.len() as int);
            assert(t.subrange(m + 1, s.len() as int + 1) =~= rest.insert(0, s[m]));
            lemma_delimiter_runs_collapse(rest, 0, s[m], d);
        }
    }
}

/// A run of delimiters yields as its first delimiter alone does.
proof fn lemma_run_to_one<E>(
    a: Seq<Result<char, E>>,
    r: Seq<Result<char, E>>,
    b: Seq<Result<char, E>>,
    d: spec_fn(char) -> bool,
)
    requires
        r.len() > 0,
        forall|i: int| 0 <= i < r.len() ==> is_sep(#[trigger] r[i], d),
    ensures
        outcomes(a + r + b, d) == outcomes(a + seq![r[0]] + b, d),
    decreases r.len(),
{
    if r.len() > 1 {
        let r0 = r.drop_last();
        lemma_run_to_one(a, r0, b, d);
        let s = a + r0 + b;
        let m: int = a.len() as int + r0.len() as int;
        assert(a + r + b =~= s.insert(m, r.last()));
        assert(s[m - 1] == r0.last());
        lemma_delimiter_runs_collapse(s, m, r.last(), d);
        assert(r0[0] == r[0]);
    } else {
        assert(r =~= seq![r[0]]);
    }
}

/// Any run of one or more delimiters may stand in place of any other: the
/// tokens, errors and end that repeated requests find stay the same.
pub proof fn lemma_delimiter_run_replaced<E>(
    a: Seq<Result<char, E>>,
    r1: Seq<Result<char, E>>,
    r2: Seq<Result<char, E>>,
    b: Seq<Result<char, E>>,
    d: spec_fn(char) -> bool,
)
    requires
        r1.len() > 0,
        r2.len() > 0,
        forall|i: int| 0 <= i < r1.len() ==> is_sep(#[trigger] r1[i], d),
        forall|i: int| 0 <= i < r2.len() ==> is_sep(#[trigger] r2[i], d),
    ensures
        outcomes(a + r1 + b, d) == outcomes(a + r2 + b, d),
{
    lemma_run_to_one(a, r1, b, d);
    lemma_run_to_one(a, r2, b, d);
    let x = r1[0];
    let y = r2[0];
    let sx = a + seq![x] + b;
    let sy = a + seq![y] + b;
    let both = a + seq![x, y] + b;
    assert(both =~= sx.insert(a.len() as int + 1, y));
    assert(sx[a.len() as int] == x);
    lemma_delimiter_runs_collapse(sx, a.len() as int + 1, y, d);
    assert(both =~= sy.insert(a.len() as int, x));
    assert(sy[a.len() as int] == y);
    lemma_delimiter_runs_collapse(sy, a.len() as int, x, d);
}

/// Two tokens in a row are found one per request: the first request
/// consumes the first token and exactly one delimiter, whatever becomes of
/// the token afterwards, and the second request finds the second token.
pub proof fn lemma_token_then_token<E>(
    t1: Seq<Result<char, E>>,
    r: Seq<Result<char, E>>,
    t2: Seq<Result<char, E>>,
    rest: Seq<Result<char, E>>,
    d: spec_fn(char) -> bool,
)
    requires
        t1.len() > 0,
        r.len() > 0,
        t2.len() > 0,
        forall|i: int| 0 <= i < t1.len() ==> is_word_char(#[trigger] t1[i], d),
        forall|i: int| 0 <= i < r.len() ==> is_sep(#[trigger] r[i], d),
        forall|i: int| 0 <= i < t2.len() ==> is_word_char(#[trigger] t2[i], d),
        rest.len() == 0 || is_sep(rest[0], d),
    ensures
        next_outcome(t1 + r + t2 + rest, d) == (
            Some(Ok::<Seq<char>, E>(word_at(t1, 0, t1.len() as int))),
            t1.len() as int + 1,
        ),
        next_outcome(
            (t1 + r + t2 + rest).subrange(t1.len() as int + 1, (t1 + r + t2 + rest).len() as int),
            d,
        ).0 == Some(Ok::<Seq<char>, E>(word_at(t2, 0, t2.len() as int))),
{
    let s = t1 + r + t2 + rest;
    let n1 = t1.len() as int;
    assert(s[0] == t1[0]);
    lemma_skip_seps_at(s, d, 0, 0);
    assert forall|i: int| 0 <= i < n1 implies is_word_char(#[trigger] s[i], d) by {
        assert(s[i] == t1[i]);
    }
    assert(s[n1] == r[0]);
    lemma_word_end_at(s, d, 0, n1);
    assert(word_at(s, 0, n1) =~= word_at(t1, 0, n1));
    let s2 = s.subrange(n1 + 1, s.len() as int);
    let k = r.len() - 1;
    assert forall|i: int| 0 <= i < k implies is_sep(#[trigger] s2[i], d) by {
        assert(s2[i] == r[i + 1]);
    }
    assert(s2[k] == t2[0]);
    lemma_skip_seps_at(s2, d, 0, k);
    let e = k + t2.len();
    assert forall|i: int| k <= i < e implies is_word_char(#[trigger] s2[i], d) by {
        assert(s2[i] == t2[i - k]);
    }
    if rest.len() > 0 {
        assert(s2[e] == rest[0]);
    }
    lemma_word_end_at(s2, d, k, e);
    assert(word_at(s2, k, e) =~= word_at(t2, 0, t2.len() as int));
}

/// A token request that has seen the events `seen` is still running: with
/// `started`, the token began at `k` and every event since is a token
/// character; without, every event so far is a delimiter.
pub open spec fn running<E>(seen: Seq<Result<char, E>>, d: spec_fn(char) -> bool, started: bool, k: int) -> bool {
    if started {
        &&& 0 <= k < seen.len()
        &&& skip_seps(seen, d, 0) == k
        &&& word_end(seen, d, k) == seen.len()
    } else {
        skip_seps(seen, d, 0) == seen.len()
    }
}

/// A running request that meets a delimiter with no token yet, or a token
/// character, keeps running.
pub proof fn lemma_still_running<E>(
    seen: Seq<Result<char, E>>,
    x: Result<char, E>,
    d: spec_fn(char) -> bool,
    started: bool,
    k: int,
)
    requires
        running(seen, d, started, k),
        is_word_char(x, d) || (!started && is_sep(x, d)),
    ensures
        is_word_char(x, d) && !started ==> running(seen.push(x), d, true, seen.len() as int),
        is_word_char(x, d) && started ==> running(seen.push(x), d, true, k),
        is_sep(x, d) ==> running(seen.push(x), d, false, k),
{
    let t = seen.push(x);
    let n = seen.len() as int;
    lemma_skip_seps_bounds(seen, d, 0);
    let k0 = skip_seps(seen, d, 0);
    assert forall|j: int| 0 <= j < k0 implies is_sep(#[trigger] t[j], d) by {
        assert(t[j] == seen[j]);
    }
    if started {
        lemma_word_end_bounds(seen, d, k);
        assert(t[k] == seen[k]);
        lemma_skip_seps_at(t, d, 0, k);
        assert forall|j: int| k <= j < n + 1 implies is_word_char(#[trigger] t[j], d) by {
            if j < n {
                assert(t[j] == seen[j]);
            }
        }
        lemma_word_end_at(t, d, k, n + 1);
    } else if is_sep(x, d) {
        lemma_skip_seps_at(t, d, 0, n + 1);
    } else {
        lemma_skip_seps_at(t, d, 0, n);
        lemma_word_end_at(t, d, n, n + 1);
    }
}

/// A running request that meets an error, or a delimiter after its token,
/// is decided: whatever events follow, the request yields the error or the
/// token, and consumes exactly the events seen.
pub proof fn lemma_decided<E>(
    seen: Seq<Result<char, E>>,
    x: Result<char, E>,
    more: Seq<Result<char, E>>,
    d: spec_fn(char) -> bool,
    started: bool,
    k: int,
)
    requires
        running(seen, d, started, k),
        x is Err || (started && is_sep(x, d)),
    ensures
        next_outcome(seen.push(x) + more, d) == (
            match x {
                Err(e) => Some(Err::<Seq<char>, E>(e)),
                Ok(_) => Some(Ok(word_at(seen, k, seen.len() as int))),
            },
            seen.len() as int + 1,
        ),
{
    let s = seen.push(x) + more;
    let n = seen.len() as int;
    lemma_skip_seps_bounds(seen, d, 0);
    let k0 = skip_seps(seen, d, 0);
    assert forall|j: int| 0 <= j < k0 implies is_sep(#[trigger] s[j], d) by {
        assert(s[j] == seen[j]);
    }
    assert(s[n] == x);
    if started {
        lemma_word_end_bounds(seen, d, k);
        assert(s[k] == seen[k]);
        lemma_skip_seps_at(s, d, 0, k);
        assert forall|j: int| k <= j < n implies is_word_char(#[trigger] s[j], d) by {
            assert(s[j] == seen[j]);
        }
        lemma_word_end_at(s, d, k, n);
        assert(word_at(s, k, n) =~= word_at(seen, k, n));
    } else {
        lemma_skip_seps_at(s, d, 0, n);
    }
}

/// At the end of the stream a token with no delimiter after it is flushed
/// whole, and nothing follows it: after any leading delimiters, events that
/// are all token characters yield that one token, then the end.
pub proof fn lemma_trailing_token_flushed<E>(s: Seq<Result<char, E>>, d: spec_fn(char) -> bool, k: int)
    requires
        0 <= k < s.len(),
        forall|i: int| 0 <= i < k ==> is_sep(#[trigger] s[i], d),
        forall|i: int| k <= i < s.len() ==> is_word_char(#[trigger] s[i], d),
    ensures
        next_outcome(s, d) == (Some(Ok::<Seq<char>, E>(word_at(s, k, s.len() as int))), s.len() as int),
        outcomes(s, d) == seq![Ok::<Seq<char>, E>(word_at(s, k, s.len() as int))],
{
    lemma_skip_seps_at(s, d, 0, k);
    lemma_word_end_at(s, d, k, s.len() as int);
    let rest = s.subrange(s.len() as int, s.len() as int);
    lemma_only_delimiters(rest, d);
    assert(outcomes(rest, d) == Seq::<Result<Seq<char>, E>>::empty());
    assert(outcomes(s, d) =~= seq![Ok::<Seq<char>, E>(word_at(s, k, s.len() as int))]);
}

} // verus!
