//! What to do when a request to the model fails: naming the kind of failure,
//! deciding on a retry, and choosing how long to wait before it.
use vstd::arithmetic::power2::{lemma2_to64, pow2};
use vstd::prelude::*;
use crate::platform::{clock_nanos, lowercase, lowercase_of};
use crate::text::{
    begins, contains, decimal, decimal_of, in_order, is_space, is_white_space, law_numerals_are_read_back,
    lemma_in_order_concat, lemma_in_order_more, lemma_in_order_next, lemma_in_order_none,
    lemma_in_order_occurs, lemma_trim_start, lower_char, lower_char_of, occurs, starts_with, to_chars,
    trim_start_of,
};

verus! {

/// Kind of failure of a request.
#[derive(Debug, Clone, Copy, PartialEq, Eq, Structural)]
pub enum ErrorKind {
    ContextLength,
    RateLimit,
    Network,
    Auth,
    Other,
}

/// How often and how patiently failed requests are retried. Waits are in
/// milliseconds.
pub struct RecoveryPolicy {
    max_retries: usize,
    backoff_base: u64,
}

/// Longest wait, in milliseconds, that a provider can ask for.
pub const MAX_SERVER_WAIT_MS: u64 = 300000;

/// Number that looks unrelated to `z` and to the numbers for its neighbours.
pub open spec fn scrambled(z: u64) -> u64 {
    let a = (z ^ (z >> 30u64)).wrapping_mul(0xBF58_476D_1CE4_E5B9u64);
    let b = (a ^ (a >> 27u64)).wrapping_mul(0x94D0_49BB_1331_11EBu64);
    b ^ (b >> 31u64)
}

/// The scrambled number for a clock reading and a salt.
pub open spec fn dispersed(nanos: u64, salt: u64) -> u64 {
    scrambled(nanos.wrapping_add(salt).wrapping_add(0x9E37_79B9_7F4A_7C15u64))
}

/// A number dispersed over all of `u64` from a clock reading and a salt.
pub fn pseudo_random(nanos: u64, salt: u64) -> (r: u64)
    ensures
        r == dispersed(nanos, salt),
{
    let z: u64 = nanos.wrapping_add(salt).wrapping_add(0x9E37_79B9_7F4A_7C15u64);
    let a: u64 = (z ^ (z >> 30u64)).wrapping_mul(0xBF58_476D_1CE4_E5B9u64);
    let b: u64 = (a ^ (a >> 27u64)).wrapping_mul(0x94D0_49BB_1331_11EBu64);
    b ^ (b >> 31u64)
}

/// A number cut to what `u64` holds.
pub open spec fn cut(n: int) -> int {
    if n <= u64::MAX {
        n
    } else {
        u64::MAX as int
    }
}

/// Shortest wait after the given number of failed attempts: the base doubled with
/// each of the first six.
pub open spec fn least_wait(base: u64, attempts: usize) -> int {
    cut(
        base * pow2(
            if attempts <= 6 {
                attempts as nat
            } else {
                6
            },
        ),
    )
}

/// Number of different random additions to a wait: up to a quarter of it.
pub open spec fn spread(wait: int) -> int {
    if wait / 4 > 1 {
        wait / 4
    } else {
        1
    }
}

/// Longest wait after the given number of failed attempts.
pub open spec fn most_wait(base: u64, attempts: usize) -> int {
    cut(least_wait(base, attempts) + spread(least_wait(base, attempts)) - 1)
}

impl RecoveryPolicy {
    /// Number of attempts after which no retry is made.
    pub closed spec fn limit(&self) -> usize {
        self.max_retries
    }

    /// Wait before the first retry.
    pub closed spec fn base(&self) -> u64 {
        self.backoff_base
    }

    /// Number of attempts after which no retry is made.
    pub fn max_retries(&self) -> (r: usize)
        ensures
            r == self.limit(),
    {
        self.max_retries
    }

    /// Whether to retry: only transient failures, and only below the limit.
    pub fn should_retry(&self, attempts: usize, kind: ErrorKind) -> (r: bool)
        ensures
            r == (attempts < self.limit() && (kind == ErrorKind::Network || kind
                == ErrorKind::RateLimit)),
    {
        if attempts >= self.max_retries {
            return false;
        }
        kind == ErrorKind::Network || kind == ErrorKind::RateLimit
    }

    /// The wait after `attempts` failed attempts when the clock reads `nanos`.
    pub fn backoff_at(&self, attempts: usize, nanos: u64) -> (r: u64)
        ensures
            r == cut(
                least_wait(self.base(), attempts) + dispersed(nanos, attempts as u64) as int % spread(
                    least_wait(self.base(), attempts),
                ),
            ),
    {
        proof {
            lemma2_to64();
        }
        let exp: u64 = match attempts {
            0 => 1,
            1 => 2,
            2 => 4,
            3 => 8,
            4 => 16,
            5 => 32,
            _ => 64,
        };
        let base: u64 = self.backoff_base;
        assert(0 <= base * exp <= u64::MAX * 64) by (nonlinear_arith)
            requires
                0 <= base <= u64::MAX,
                1 <= exp <= 64,
        ;
        let product: u128 = base as u128 * exp as u128;
        let ms: u64 = if product > u64::MAX as u128 {
            u64::MAX
        } else {
            product as u64
        };
        assert(ms == least_wait(self.base(), attempts));
        let quarter: u64 = if ms / 4 > 1 {
            ms / 4
        } else {
            1
        };
        let jitter: u64 = pseudo_random(nanos, attempts as u64) % quarter;
        ms.saturating_add(jitter)
    }

    /// The wait after `attempts` failed attempts: at least the doubled base and at
    /// most a quarter more, so that many agents do not retry in step.
    pub fn backoff_duration(&self, attempts: usize) -> (r: u64)
        ensures
            least_wait(self.base(), attempts) <= r <= most_wait(self.base(), attempts),
    {
        let nanos: u64 = clock_nanos();
        self.backoff_at(attempts, nanos)
    }

    /// The wait of [`backoff_duration`](RecoveryPolicy::backoff_duration) against
    /// what the failure message asks for, when the clock reads `nanos`: the longer
    /// one, but never more than the cap where the message asks.
    pub fn backoff_for_msg_at(&self, attempts: usize, error_msg: &str, nanos: u64) -> (r: u64)
        ensures
            r == combined_wait(
                cut(
                    least_wait(self.base(), attempts) + dispersed(nanos, attempts as u64) as int
                        % spread(least_wait(self.base(), attempts)),
                ),
                requested_wait(error_msg@),
            ),
    {
        let computed: u64 = self.backoff_at(attempts, nanos);
        match retry_after_from_error_msg(error_msg) {
            Some(wanted) => {
                let chosen: u64 = if wanted > computed {
                    wanted
                } else {
                    computed
                };
                if chosen > MAX_SERVER_WAIT_MS {
                    MAX_SERVER_WAIT_MS
                } else {
                    chosen
                }
            },
            None => computed,
        }
    }

    /// The wait before the next attempt, given the message of the failure.
    pub fn backoff_duration_for_msg(&self, attempts: usize, error_msg: &str) -> (r: u64)
        ensures
            combined_wait(least_wait(self.base(), attempts), requested_wait(error_msg@)) <= r
                <= combined_wait(most_wait(self.base(), attempts), requested_wait(error_msg@)),
    {
        let nanos: u64 = clock_nanos();
        self.backoff_for_msg_at(attempts, error_msg, nanos)
    }
}

/// The lesser of two numbers.
pub open spec fn least(a: int, b: int) -> int {
    if a <= b {
        a
    } else {
        b
    }
}

impl Default for RecoveryPolicy {
    /// Three attempts, and a second before the first retry.
    fn default() -> (r: Self)
        ensures
            r.limit() == 3,
            r.base() == 1000,
    {
        RecoveryPolicy { max_retries: 3, backoff_base: 1000 }
    }
}

/// The longer of the computed wait and the requested one, the latter case capped.
pub open spec fn combined_wait(computed: int, requested: Option<nat>) -> int {
    match requested {
        Some(w) => least(
            if w > computed {
                w as int
            } else {
                computed
            },
            MAX_SERVER_WAIT_MS as int,
        ),
        None => computed,
    }
}

/// The label stands in `s` at `i`, in whatever case.
pub open spec fn label_at(s: Seq<char>, label: Seq<char>, i: int) -> bool {
    &&& 0 <= i
    &&& i + label.len() <= s.len()
    &&& forall|k: int| 0 <= k < label.len() ==> lower_char_of(s[i + k]) == #[trigger] label[k]
}

/// What follows the first place from `i` on at which the label stands.
pub open spec fn behind_label(s: Seq<char>, label: Seq<char>, i: int) -> Option<Seq<char>>
    decreases s.len() - i,
{
    if i < 0 || i >= s.len() {
        None
    } else if label_at(s, label, i) {
        Some(s.skip(i + label.len()))
    } else {
        behind_label(s, label, i + 1)
    }
}

/// A character that may stand between a label and its number.
pub open spec fn is_filler(c: char) -> bool {
    c == ':' || c == ' ' || c == '\t' || c == '"'
}

/// `s` without the fillers at its start.
pub open spec fn past_filler(s: Seq<char>) -> Seq<char>
    decreases s.len(),
{
    if s.len() == 0 || !is_filler(s[0]) {
        s
    } else {
        past_filler(s.drop_first())
    }
}

/// An ASCII digit.
pub open spec fn is_digit(c: char) -> bool {
    '0' <= c && c <= '9'
}

/// Number of digits at the start of `s`, at most `most`.
pub open spec fn digit_run(s: Seq<char>, most: nat) -> nat
    decreases most,
{
    if most == 0 || s.len() == 0 || !is_digit(s[0]) {
        0
    } else {
        1 + digit_run(s.drop_first(), (most - 1) as nat)
    }
}

/// The number that a run of digits stands for.
pub open spec fn number_of(digits: Seq<char>) -> nat
    decreases digits.len(),
{
    if digits.len() == 0 {
        0
    } else {
        number_of(digits.drop_last()) * 10 + (digits.last() as u32 - 48) as nat
    }
}

/// The number behind the label: fillers and white space may come between, and at
/// most eleven digits count.
pub open spec fn number_behind(s: Seq<char>, label: Seq<char>) -> Option<nat> {
    match behind_label(s, label, 0) {
        Some(tail) => {
            let t = trim_start_of(past_filler(tail));
            let n = digit_run(t, 11);
            if n == 0 {
                None
            } else {
                Some(number_of(t.take(n as int)))
            }
        },
        None => None,
    }
}

/// The wait, in milliseconds, that a failure message asks for.
pub open spec fn requested_wait(s: Seq<char>) -> Option<nat> {
    match number_behind(s, "retry-after-ms"@) {
        Some(ms) => Some(ms),
        None => match number_behind(s, "retry-after"@) {
            Some(secs) => Some(secs * 1000),
            None => match number_behind(s, "retry_after"@) {
                Some(secs) => Some(secs * 1000),
                None => None,
            },
        },
    }
}

proof fn lemma_past_filler(s: Seq<char>, i: int)
    requires
        0 <= i <= s.len(),
        forall|k: int| 0 <= k < i ==> is_filler(s[k]),
        i < s.len() ==> !is_filler(s[i]),
    ensures
        past_filler(s) == s.skip(i),
    decreases i,
{
    if i > 0 {
        let t = s.drop_first();
        assert(forall|k: int| 0 <= k < i - 1 ==> t[k] == s[k + 1]);
        lemma_past_filler(t, i - 1);
        assert(t.skip(i - 1) =~= s.skip(i));
    } else {
        assert(s.skip(0) =~= s);
    }
}

proof fn lemma_digit_run(s: Seq<char>, n: int, most: nat)
    requires
        0 <= n <= s.len(),
        n <= most,
        forall|k: int| 0 <= k < n ==> is_digit(s[k]),
        n < s.len() && n < most ==> !is_digit(s[n]),
    ensures
        digit_run(s, most) == n,
    decreases n,
{
    if n > 0 {
        let t = s.drop_first();
        assert(forall|k: int| 0 <= k < n - 1 ==> t[k] == s[k + 1]);
        lemma_digit_run(t, n - 1, (most - 1) as nat);
    }
}

spec fn ten_to(n: nat) -> nat
    decreases n,
{
    if n == 0 {
        1
    } else {
        10 * ten_to((n - 1) as nat)
    }
}

proof fn lemma_ten_to_grows(a: nat, b: nat)
    requires
        a <= b,
    ensures
        ten_to(a) <= ten_to(b),
    decreases b,
{
    if a < b {
        lemma_ten_to_grows(a, (b - 1) as nat);
    }
}

proof fn lemma_ten_to(n: nat)
    requires
        n <= 11,
    ensures
        ten_to(n) <= 100_000_000_000,
        n <= 10 ==> ten_to(n) <= 10_000_000_000,
{
    assert(ten_to(11) == 100_000_000_000 && ten_to(10) == 10_000_000_000) by {
        reveal_with_fuel(ten_to, 12);
    }
    lemma_ten_to_grows(n, 11);
    if n <= 10 {
        lemma_ten_to_grows(n, 10);
    }
}

/// Position behind the label, where the label stands in the text.
fn find_label(v: &Vec<char>, label: &Vec<char>) -> (r: Option<usize>)
    requires
        label@.len() > 0,
    ensures
        match r {
            Some(i) => i <= v@.len() && behind_label(v@, label@, 0) == Some(v@.skip(i as int)),
            None => behind_label(v@, label@, 0) is None,
        },
{
    let n: usize = v.len();
    let m: usize = label.len();
    let mut i: usize = 0;
    while i < n
        invariant
            i <= n,
            n == v@.len(),
            m == label@.len(),
            m > 0,
            behind_label(v@, label@, 0) == behind_label(v@, label@, i as int),
        decreases n - i,
    {
        if m <= n - i {
            let mut k: usize = 0;
            let mut hit: bool = true;
            while k < m && hit
                invariant
                    k <= m,
                    m == label@.len(),
                    n == v@.len(),
                    i + m <= n,
                    hit ==> forall|j: int|
                        0 <= j < k ==> lower_char_of(v@[i + j]) == #[trigger] label@[j],
                    !hit ==> !label_at(v@, label@, i as int),
                decreases m - k,
            {
                if lower_char(v[i + k]) != label[k] {
                    proof {
                        assert(lower_char_of(v@[i + k]) != label@[k as int]);
                    }
                    hit = false;
                }
                k += 1;
            }
            if hit {
                assert(label_at(v@, label@, i as int));
                return Some(i + m);
            }
        }
        i += 1;
    }
    None
}

fn parse_after_label(msg: &str, label: &str) -> (r: Option<u64>)
    requires
        label@.len() > 0,
    ensures
        match r {
            Some(n) => number_behind(msg@, label@) == Some(n as nat) && n < 100_000_000_000,
            None => number_behind(msg@, label@) is None,
        },
{
    let v = to_chars(msg);
    let lv = to_chars(label);
    let n: usize = v.len();
    match find_label(&v, &lv) {
        None => None,
        Some(at) => {
            let ghost tail = msg@.skip(at as int);
            let mut a: usize = at;
            while a < n && (v[a] == ':' || v[a] == ' ' || v[a] == '\t' || v[a] == '"')
                invariant
                    at <= a <= n,
                    n == v@.len(),
                    forall|k: int| at <= k < a ==> is_filler(v@[k]),
                decreases n - a,
            {
                a += 1;
            }
            proof {
                assert(forall|k: int| 0 <= k < tail.len() ==> tail[k] == v@[k + at]);
                lemma_past_filler(tail, a - at);
                assert(tail.skip(a - at) =~= v@.skip(a as int));
            }
            let mut b: usize = a;
            while b < n && is_space(v[b])
                invariant
                    a <= b <= n,
                    n == v@.len(),
                    forall|k: int| a <= k < b ==> is_white_space(v@[k]),
                decreases n - b,
            {
                b += 1;
            }
            let ghost t = v@.skip(b as int);
            proof {
                let u = v@.skip(a as int);
                assert(forall|k: int| 0 <= k < u.len() ==> u[k] == v@[k + a]);
                lemma_trim_start(u, b - a);
                assert(u.skip(b - a) =~= t);
                assert(forall|k: int| 0 <= k < t.len() ==> t[k] == v@[k + b]);
            }
            let mut value: u64 = 0;
            let mut c: usize = b;
            assert(t.take(0) =~= Seq::empty());
            while c < n && c - b < 11 && '0' <= v[c] && v[c] <= '9'
                invariant
                    b <= c <= n,
                    c - b <= 11,
                    n == v@.len(),
                    t == v@.skip(b as int),
                    forall|k: int| 0 <= k < t.len() ==> t[k] == v@[k + b],
                    forall|k: int| 0 <= k < c - b ==> is_digit(#[trigger] t[k]),
                    value == number_of(t.take(c - b)),
                    value < ten_to((c - b) as nat),
                decreases n - c,
            {
                let d: u64 = v[c] as u64 - 48;
                proof {
                    assert(t.take(c - b + 1).drop_last() =~= t.take(c - b));
                    assert(t.take(c - b + 1).last() == v@[c as int]);
                    lemma_ten_to((c - b) as nat);
                    assert(ten_to((c - b + 1) as nat) == 10 * ten_to((c - b) as nat));
                }
                value = value * 10 + d;
                c += 1;
            }
            proof {
                lemma_digit_run(t, c - b, 11);
                lemma_ten_to((c - b) as nat);
            }
            if c == b {
                None
            } else {
                Some(value)
            }
        },
    }
}

/// The wait, in milliseconds, that a failure message asks for: a number behind
/// `retry-after-ms` in milliseconds, or behind `retry-after` or `retry_after` in
/// seconds, in whatever case.
pub fn retry_after_from_error_msg(msg: &str) -> (r: Option<u64>)
    ensures
        match r {
            Some(n) => requested_wait(msg@) == Some(n as nat),
            None => requested_wait(msg@) is None,
        },
{
    proof {
        reveal_strlit("retry-after-ms");
        reveal_strlit("retry-after");
        reveal_strlit("retry_after");
    }
    match parse_after_label(msg, "retry-after-ms") {
        Some(ms) => Some(ms),
        None => match parse_after_label(msg, "retry-after") {
            Some(secs) => Some(secs * 1000),
            None => match parse_after_label(msg, "retry_after") {
                Some(secs) => Some(secs * 1000),
                None => None,
            },
        },
    }
}

/// The message tells of a refused identity.
pub open spec fn tells_auth(s: Seq<char>) -> bool {
    ||| occurs(s, " 401 "@)
    ||| occurs(s, " 403 "@)
    ||| occurs(s, "error 401"@)
    ||| occurs(s, "error 403"@)
    ||| begins(s, "401 "@)
    ||| begins(s, "403 "@)
    ||| occurs(s, "unauthorized"@)
    ||| occurs(s, "invalid api key"@)
    ||| occurs(s, "authentication failed"@)
}

/// The message tells of too many requests or of too busy a provider.
pub open spec fn tells_rate_limit(s: Seq<char>) -> bool {
    ||| occurs(s, "rate limit"@)
    ||| occurs(s, "too many requests"@)
    ||| occurs(s, " 429 "@)
    ||| occurs(s, "error 429"@)
    ||| begins(s, "429 "@)
    ||| occurs(s, "overloaded"@)
}

/// The message carries the status of an unreachable server.
pub open spec fn tells_gateway(s: Seq<char>) -> bool {
    ||| occurs(s, " 503 "@)
    ||| occurs(s, " 502 "@)
    ||| occurs(s, " 504 "@)
    ||| begins(s, "503 "@)
    ||| begins(s, "502 "@)
    ||| begins(s, "504 "@)
}

/// The message tells of a conversation that is too long.
pub open spec fn tells_context_length(s: Seq<char>) -> bool {
    ||| occurs(s, "context_length_exceeded"@)
    ||| occurs(s, "maximum context length"@)
    ||| occurs(s, "reduce the length of the messages"@)
    ||| occurs(s, "request too large"@)
}

/// The message tells of a broken connection or a broken response.
pub open spec fn tells_network(s: Seq<char>) -> bool {
    ||| occurs(s, "connection refused"@)
    ||| occurs(s, "connection reset"@)
    ||| occurs(s, "broken pipe"@)
    ||| occurs(s, "dns error"@)
    ||| occurs(s, "tls"@)
    ||| occurs(s, "ssl"@)
    ||| occurs(s, "timed out"@)
    ||| occurs(s, "request timeout"@)
    ||| occurs(s, "server error"@)
    ||| occurs(s, "error decoding response body"@)
    ||| occurs(s, "invalid response body"@)
    ||| occurs(s, "decode error"@)
}

/// Kind of the failure that a message in lower case tells of.
pub open spec fn kind_of(s: Seq<char>) -> ErrorKind {
    if tells_auth(s) {
        ErrorKind::Auth
    } else if tells_rate_limit(s) {
        ErrorKind::RateLimit
    } else if tells_gateway(s) {
        ErrorKind::Network
    } else if tells_context_length(s) {
        ErrorKind::ContextLength
    } else if tells_network(s) {
        ErrorKind::Network
    } else {
        ErrorKind::Other
    }
}

/// Kind of the failure that a message in lower case tells of.
pub fn classify_lowered(lower: &str) -> (r: ErrorKind)
    ensures
        r == kind_of(lower@),
{
    if contains(lower, " 401 ") || contains(lower, " 403 ") || contains(lower, "error 401") || contains(
        lower,
        "error 403",
    ) || starts_with(lower, "401 ") || starts_with(lower, "403 ") {
        return ErrorKind::Auth;
    }
    if contains(lower, "unauthorized") || contains(lower, "invalid api key") || contains(
        lower,
        "authentication failed",
    ) {
        return ErrorKind::Auth;
    }
    if contains(lower, "rate limit") || contains(lower, "too many requests") {
        return ErrorKind::RateLimit;
    }
    if contains(lower, " 429 ") || contains(lower, "error 429") || starts_with(lower, "429 ") {
        return ErrorKind::RateLimit;
    }
    if contains(lower, "overloaded") {
        return ErrorKind::RateLimit;
    }
    if contains(lower, " 503 ") || contains(lower, " 502 ") || contains(lower, " 504 ") || starts_with(
        lower,
        "503 ",
    ) || starts_with(lower, "502 ") || starts_with(lower, "504 ") {
        return ErrorKind::Network;
    }
    if contains(lower, "context_length_exceeded") || contains(lower, "maximum context length")
        || contains(lower, "reduce the length of the messages") || contains(
        lower,
        "request too large",
    ) {
        return ErrorKind::ContextLength;
    }
    if contains(lower, "connection refused") || contains(lower, "connection reset") || contains(
        lower,
        "broken pipe",
    ) || contains(lower, "dns error") || contains(lower, "tls") || contains(lower, "ssl") || contains(
        lower,
        "timed out",
    ) || contains(lower, "request timeout") || contains(lower, "server error") || contains(
        lower,
        "error decoding response body",
    ) || contains(lower, "invalid response body") || contains(lower, "decode error") {
        return ErrorKind::Network;
    }
    ErrorKind::Other
}

/// Kind of the failure that a message tells of, in whatever case it is written.
pub fn classify_error(msg: &str) -> (r: ErrorKind)
    ensures
        r == kind_of(lowercase_of(msg@)),
        vstd::utf8::is_ascii_chars(msg@) ==> r == kind_of(crate::text::ascii_lower_of(msg@)),
{
    let lower = lowercase(msg);
    classify_lowered(lower.as_str())
}

/// What went wrong, in a few words.
pub open spec fn headline_of(kind: ErrorKind, lower: Seq<char>) -> Seq<char> {
    match kind {
        ErrorKind::Auth => "authentication failed talking to the LLM provider"@,
        ErrorKind::RateLimit => "provider rate-limited the request"@,
        ErrorKind::ContextLength => "conversation exceeds the model's context window"@,
        ErrorKind::Network => if occurs(lower, "error decoding response body"@) {
            "lost the response stream from the provider (truncated or malformed body)"@
        } else {
            "network error reaching the LLM provider"@
        },
        ErrorKind::Other => "the LLM provider returned an error we didn't recognize"@,
    }
}

/// What to try next.
pub open spec fn hint_of(kind: ErrorKind, lower: Seq<char>) -> Seq<char> {
    match kind {
        ErrorKind::Auth => "check your API key env var (e.g. OPENROUTER_API_KEY) and provider config"@,
        ErrorKind::RateLimit => "wait a moment and retry, or switch to a different model via /model"@,
        ErrorKind::ContextLength => "run /compress to summarize older turns and try again"@,
        ErrorKind::Network => if occurs(lower, "error decoding response body"@) {
            "usually transient — retry. If it persists the provider may be having issues or returning non-JSON (HTML error pages, plaintext)"@
        } else {
            "check connectivity / firewall / proxy; the request will retry automatically"@
        },
        ErrorKind::Other => "see the cause below; consider /model to try a different provider"@,
    }
}

/// The explanation of a failure: what went wrong, after how many attempts, what to
/// try, and the message itself. `lower` is the message in lower case.
pub open spec fn explanation(msg: Seq<char>, lower: Seq<char>, attempts: nat) -> Seq<char> {
    headline_of(kind_of(lower), lower) + (if attempts > 1 {
        " (after "@ + decimal_of(attempts) + " attempt(s))"@
    } else {
        ""@
    }) + "\n  ↳ hint: "@ + hint_of(kind_of(lower), lower) + "\n  ↳ cause: "@ + msg
}

/// The explanation of a failure, from its message and the message in lower case.
pub fn explain_error(msg: &str, lower: &str, attempts: usize) -> (r: String)
    ensures
        r@ == explanation(msg@, lower@, attempts as nat),
{
    let kind = classify_lowered(lower);
    let broken = contains(lower, "error decoding response body");
    let headline = match kind {
        ErrorKind::Auth => "authentication failed talking to the LLM provider",
        ErrorKind::RateLimit => "provider rate-limited the request",
        ErrorKind::ContextLength => "conversation exceeds the model's context window",
        ErrorKind::Network => if broken {
            "lost the response stream from the provider (truncated or malformed body)"
        } else {
            "network error reaching the LLM provider"
        },
        ErrorKind::Other => "the LLM provider returned an error we didn't recognize",
    };
    let hint = match kind {
        ErrorKind::Auth => "check your API key env var (e.g. OPENROUTER_API_KEY) and provider config",
        ErrorKind::RateLimit => "wait a moment and retry, or switch to a different model via /model",
        ErrorKind::ContextLength => "run /compress to summarize older turns and try again",
        ErrorKind::Network => if broken {
            "usually transient — retry. If it persists the provider may be having issues or returning non-JSON (HTML error pages, plaintext)"
        } else {
            "check connectivity / firewall / proxy; the request will retry automatically"
        },
        ErrorKind::Other => "see the cause below; consider /model to try a different provider",
    };
    let mut out = String::new();
    out.append(headline);
    let mut note = "".to_owned();
    if attempts > 1 {
        note = String::new();
        note.append(" (after ");
        let n = decimal(attempts as u128);
        note.append(n.as_str());
        note.append(" attempt(s))");
    }
    out.append(note.as_str());
    out.append("\n  ↳ hint: ");
    out.append(hint);
    out.append("\n  ↳ cause: ");
    out.append(msg);
    out
}

/// A line for the user on what failed and what to try, with the message as cause.
pub fn user_facing_error(msg: &str, attempts: usize) -> (r: String)
    ensures
        r@ == explanation(msg@, lowercase_of(msg@), attempts as nat),
        vstd::utf8::is_ascii_chars(msg@) ==> r@ == explanation(
            msg@,
            crate::text::ascii_lower_of(msg@),
            attempts as nat,
        ),
{
    let lower = lowercase(msg);
    explain_error(msg, lower.as_str(), attempts)
}

/// Waiting grows with the number of attempts: the shortest wait doubles from one
/// attempt to the next up to the sixth, short of the largest number, and then
/// stays.
pub proof fn law_backoff_doubles(base: u64, attempts: usize)
    requires
        attempts < usize::MAX,
    ensures
        attempts < 6 ==> least_wait(base, (attempts + 1) as usize) == cut(
            2 * least_wait(base, attempts),
        ),
        attempts >= 6 ==> least_wait(base, (attempts + 1) as usize) == least_wait(base, attempts),
        least_wait(base, attempts) >= base,
{
    lemma2_to64();
    if attempts < 6 {
        let p = pow2(attempts as nat) as int;
        assert(pow2((attempts + 1) as nat) == 2 * p);
        assert(base * (2 * p) == 2 * (base * p)) by (nonlinear_arith);
    }
    let q = pow2(
        if attempts <= 6 {
            attempts as nat
        } else {
            6
        },
    ) as int;
    assert(base * q >= base) by (nonlinear_arith)
        requires
            q >= 1,
            base >= 0,
    ;
}

proof fn lemma_waits_grow(base: u64, a: usize, b: usize)
    requires
        a < b <= 6,
    ensures
        cut(2 * least_wait(base, a)) <= least_wait(base, b),
    decreases b - a,
{
    law_backoff_doubles(base, (b - 1) as usize);
    if a + 1 < b {
        lemma_waits_grow(base, a, (b - 1) as usize);
    }
}

/// Up to the sixth attempt every wait is shorter than any wait after a later attempt, whatever
/// the clock reads, as long as the later one fits into a `u64`; with the second that the default
/// policy starts from no wait reaches 80 seconds.
pub proof fn law_later_waits_are_longer(base: u64, a: usize, b: usize)
    requires
        base > 0,
        a < b <= 6,
        2 * least_wait(base, a) <= u64::MAX,
    ensures
        most_wait(base, a) < least_wait(base, b),
        most_wait(1000, a) < 80_000,
        most_wait(1000, b) < 80_000,
{
    lemma2_to64();
    lemma_waits_grow(base, a, b);
    law_backoff_doubles(base, a);
}

/// The explanation of a failure ends with the message itself, whatever it is, and says before
/// it after how many attempts, where there were more than one.
pub proof fn law_explanation_holds_the_cause(msg: Seq<char>, lower: Seq<char>, attempts: nat)
    ensures
        in_order(explanation(msg, lower, attempts), seq![msg]),
        explanation(msg, lower, attempts).len() >= msg.len(),
        explanation(msg, lower, attempts).skip(explanation(msg, lower, attempts).len() - msg.len()) == msg,
        attempts > 1 ==> occurs(explanation(msg, lower, attempts), decimal_of(attempts)),
{
    let h = headline_of(kind_of(lower), lower);
    let hint = hint_of(kind_of(lower), lower);
    let n = decimal_of(attempts);
    let none = Seq::<Seq<char>>::empty();
    let count = if attempts > 1 {
        " (after "@ + n + " attempt(s))"@
    } else {
        ""@
    };
    let front = h + count + "\n  ↳ hint: "@ + hint + "\n  ↳ cause: "@;
    assert(explanation(msg, lower, attempts) == front + msg);
    lemma_in_order_none(front);
    lemma_in_order_next(front, none, msg);
    assert(none.push(msg) =~= seq![msg]);
    assert((front + msg).skip(front.len() as int) =~= msg);
    if attempts > 1 {
        let c = " (after "@;
        lemma_in_order_none(c);
        lemma_in_order_next(c, none, n);
        lemma_in_order_more(c + n, none.push(n), " attempt(s))"@);
        lemma_in_order_none(h);
        lemma_in_order_concat(h, count, none, none.push(n));
        assert(none + none.push(n) =~= none.push(n));
        let ps = none.push(n);
        lemma_in_order_more(h + count, ps, "\n  ↳ hint: "@);
        lemma_in_order_more(h + count + "\n  ↳ hint: "@, ps, hint);
        lemma_in_order_more(h + count + "\n  ↳ hint: "@ + hint, ps, "\n  ↳ cause: "@);
        lemma_in_order_more(front, ps, msg);
        lemma_in_order_occurs(front + msg, ps, 0);
    }
}

/// A refused identity outweighs everything else that a message tells of; too many requests
/// outweigh all but that; and each of these phrases is enough by itself.
pub proof fn law_phrases_name_the_kind(s: Seq<char>)
    ensures
        occurs(s, "unauthorized"@) || occurs(s, "invalid api key"@) || occurs(s, "authentication failed"@)
            || occurs(s, " 401 "@) || occurs(s, " 403 "@) || occurs(s, "error 401"@) || occurs(s, "error 403"@)
            || begins(s, "401 "@) || begins(s, "403 "@) ==> kind_of(s) == ErrorKind::Auth,
        (occurs(s, "rate limit"@) || occurs(s, "too many requests"@) || occurs(s, "overloaded"@) || occurs(
            s,
            " 429 "@,
        ) || occurs(s, "error 429"@) || begins(s, "429 "@)) && kind_of(s) != ErrorKind::Auth ==> kind_of(s)
            == ErrorKind::RateLimit,
        (occurs(s, " 502 "@) || occurs(s, " 503 "@) || occurs(s, " 504 "@) || begins(s, "502 "@) || begins(
            s,
            "503 "@,
        ) || begins(s, "504 "@)) && kind_of(s) != ErrorKind::Auth && kind_of(s) != ErrorKind::RateLimit
            ==> kind_of(s) == ErrorKind::Network,
        (occurs(s, "context_length_exceeded"@) || occurs(s, "maximum context length"@) || occurs(
            s,
            "reduce the length of the messages"@,
        ) || occurs(s, "request too large"@)) ==> kind_of(s) == ErrorKind::ContextLength || kind_of(s)
            == ErrorKind::Auth || kind_of(s) == ErrorKind::RateLimit || tells_gateway(s),
        (occurs(s, "connection refused"@) || occurs(s, "connection reset"@) || occurs(s, "broken pipe"@) || occurs(
            s,
            "dns error"@,
        ) || occurs(s, "tls"@) || occurs(s, "ssl"@) || occurs(s, "timed out"@) || occurs(s, "request timeout"@)
            || occurs(s, "server error"@) || occurs(s, "error decoding response body"@) || occurs(
            s,
            "invalid response body"@,
        ) || occurs(s, "decode error"@)) ==> kind_of(s) != ErrorKind::Other,
{
}

/// The wait that is chosen is never shorter than either the computed one or the one that the
/// provider asks for, except that asking never makes it longer than the cap; where nothing is
/// asked for it is the computed one.
pub proof fn law_requested_waits_are_kept(computed: int, w: nat)
    ensures
        combined_wait(computed, None) == computed,
        combined_wait(computed, Some(w)) <= MAX_SERVER_WAIT_MS,
        combined_wait(computed, Some(w)) >= computed || combined_wait(computed, Some(w))
            == MAX_SERVER_WAIT_MS,
        combined_wait(computed, Some(w)) >= w || combined_wait(computed, Some(w)) == MAX_SERVER_WAIT_MS,
        combined_wait(computed, Some(w)) == computed || combined_wait(computed, Some(w)) == w
            || combined_wait(computed, Some(w)) == MAX_SERVER_WAIT_MS,
{
}

proof fn lemma_behind_first(s: Seq<char>, label: Seq<char>, i: int, at: int)
    requires
        0 <= i <= at < s.len(),
        label_at(s, label, at),
        forall|j: int| i <= j < at ==> !#[trigger] label_at(s, label, j),
    ensures
        behind_label(s, label, i) == Some(s.skip(at + label.len())),
    decreases at - i,
{
    if i < at {
        lemma_behind_first(s, label, i + 1, at);
    }
}

/// A number that a message gives behind a label is read as that number: of up to eleven
/// digits, with fillers between the label and it, and with anything behind it that is no digit.
/// The label counts in whatever case, and where it stands more than once the first time.
pub proof fn law_number_behind_a_label_is_read(
    s: Seq<char>,
    label: Seq<char>,
    at: int,
    filler: Seq<char>,
    n: nat,
    rest: Seq<char>,
)
    requires
        0 <= at,
        label.len() > 0,
        label_at(s, label, at),
        forall|j: int| 0 <= j < at ==> !#[trigger] label_at(s, label, j),
        s.skip(at + label.len()) == filler + decimal_of(n) + rest,
        forall|i: int| 0 <= i < filler.len() ==> is_filler(#[trigger] filler[i]),
        decimal_of(n).len() <= 11,
        rest.len() > 0 ==> !is_digit(rest[0]),
    ensures
        number_behind(s, label) == Some(n),
        label == "retry-after-ms"@ ==> requested_wait(s) == Some(n),
        label == "retry-after"@ && number_behind(s, "retry-after-ms"@) is None ==> requested_wait(s) == Some(
            n * 1000,
        ),
        label == "retry_after"@ && number_behind(s, "retry-after-ms"@) is None && number_behind(
            s,
            "retry-after"@,
        ) is None ==> requested_wait(s) == Some(n * 1000),
{
    let digits = decimal_of(n);
    let tail = filler + digits + rest;
    law_numerals_are_read_back(n);
    lemma_behind_first(s, label, 0, at);
    assert(behind_label(s, label, 0) == Some(tail));
    let k = filler.len() as int;
    assert forall|i: int| 0 <= i < k implies is_filler(tail[i]) by {
        assert(tail[i] == filler[i]);
    }
    assert(tail[k] == digits[0]);
    assert(!is_filler(tail[k]));
    lemma_past_filler(tail, k);
    let t = tail.skip(k);
    assert(t =~= digits + rest);
    assert(t[0] == digits[0]);
    assert(!is_white_space(t[0]));
    assert(trim_start_of(t) == t);
    let m = digits.len() as int;
    assert forall|i: int| 0 <= i < m implies is_digit(t[i]) by {
        assert(t[i] == digits[i]);
    }
    if m < t.len() {
        assert(t[m] == rest[0]);
    }
    lemma_digit_run(t, m, 11);
    assert(t.take(m) =~= digits);
    lemma_same_number(digits);
}

proof fn lemma_same_number(s: Seq<char>)
    requires
        forall|i: int| 0 <= i < s.len() ==> '0' <= #[trigger] s[i] <= '9',
    ensures
        number_of(s) == crate::text::number_of(s),
    decreases s.len(),
{
    if s.len() > 0 {
        let front = s.drop_last();
        assert forall|i: int| 0 <= i < front.len() implies '0' <= #[trigger] front[i] <= '9' by {
            assert(front[i] == s[i]);
        }
        lemma_same_number(front);
        assert('0' <= s[s.len() - 1] <= '9');
    }
}

} // verus!
