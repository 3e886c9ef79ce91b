use vstd::prelude::*;
use vstd::string::{StrSliceExecFns, StringSliceAdditionalSpecFns};

use std::time::{Duration, Instant};
use vstd::utf8::{decode_utf8, encode_utf8, is_ascii_chars, valid_utf8};

use crate::base64url::{self, string_push, DecodeError};
use crate::search::{all_satisfy, first_failure, lemma_first_failure_exists, lemma_first_failure_is};
use crate::validation::{validate_wire_format, wire_format_result, ValidationError};

verus! {

broadcast use vstd::string::group_string_axioms;

/// The space mode that `encode_packet` and `decode_packet` use.
pub const NATIVE_SPACE_MODE: SpaceMode = SpaceMode::Underscore;

/// How spaces are carried through the wire alphabet.
#[derive(Debug, Clone, PartialEq, Eq)]
pub enum SpaceMode {
    /// `~` is written `~~` and a space is written `~s`.
    Underscore,
}

/// Why a packet call was refused.
#[derive(Debug, Clone, PartialEq, Eq)]
pub enum PipelineError {
    NonAsciiInput,
    ControlByte { index: usize, byte: u8 },
    RateLimited { allowed_per_second: usize, attempted_chars: usize },
    InvalidEscapeSequence,
    Validation(ValidationError),
    Decode(DecodeError),
    Utf8,
    InternalFailure(&'static str),
}

// ---------------------------------------------------------------------------
// Plaintext policy
// ---------------------------------------------------------------------------

/// Printable ASCII: `0x20` (space) to `0x7E` (`~`).
pub open spec fn is_printable(c: char) -> bool {
    ' ' <= c <= '~'
}

/// What the printable-ASCII guard answers for the text `s`.
pub open spec fn printable_guard_result(s: Seq<char>) -> Result<(), PipelineError> {
    if !is_ascii_chars(s) {
        Err(PipelineError::NonAsciiInput)
    } else if all_satisfy(s, |c: char| is_printable(c)) {
        Ok(())
    } else {
        let i = first_failure(s, |c: char| is_printable(c));
        Err(PipelineError::ControlByte { index: i as usize, byte: s[i] as u8 })
    }
}

fn ascii_guard(input: &str) -> (res: Result<(), PipelineError>)
    ensures
        res == (if is_ascii_chars(input@) {
            Ok::<(), PipelineError>(())
        } else {
            Err(PipelineError::NonAsciiInput)
        }),
{
    if input.is_ascii() {
        Ok(())
    } else {
        Err(PipelineError::NonAsciiInput)
    }
}

fn printable_ascii_guard(input: &str) -> (res: Result<(), PipelineError>)
    ensures
        res == printable_guard_result(input@),
{
    ascii_guard(input)?;
    let bytes = input.as_bytes();
    proof {
        vstd::string::is_ascii_spec_bytes(input);
    }
    for index in 0..bytes.len()
        invariant
            is_ascii_chars(input@),
            bytes@.len() == input@.len(),
            forall|j: int| 0 <= j < bytes@.len() ==> #[trigger] bytes@[j] == input@[j] as u8,
            forall|j: int| 0 <= j < index ==> is_printable(#[trigger] input@[j]),
    {
        let byte = bytes[index];
        if !(0x20 <= byte && byte <= 0x7e) {
            proof {
                lemma_first_failure_is(input@, |c: char| is_printable(c), index as int);
            }
            return Err(PipelineError::ControlByte { index, byte });
        }
    }
    assert(all_satisfy(input@, |c: char| is_printable(c)));
    Ok(())
}

// ---------------------------------------------------------------------------
// Space escaping
// ---------------------------------------------------------------------------

/// How one character is written: `~` as `~~`, a space as `~s`, anything else as itself.
pub open spec fn escape_char(c: char) -> Seq<char> {
    if c == '~' {
        seq!['~', '~']
    } else if c == ' ' {
        seq!['~', 's']
    } else {
        seq![c]
    }
}

/// The escaped form of `s`: each character written by `escape_char`, in order.
pub open spec fn escape(s: Seq<char>) -> Seq<char>
    decreases s.len(),
{
    if s.len() == 0 {
        seq![]
    } else {
        escape(s.drop_last()) + escape_char(s.last())
    }
}

/// Reads escaped text back: `~~` is `~`, `~s` is a space, any other character after `~`,
/// or a `~` at the end, makes the text invalid (`None`).
pub open spec fn unescape(s: Seq<char>) -> Option<Seq<char>>
    decreases s.len(),
{
    if s.len() == 0 {
        Some(seq![])
    } else if s[0] != '~' {
        match unescape(s.drop_first()) {
            Some(r) => Some(seq![s[0]] + r),
            None => None,
        }
    } else if s.len() == 1 {
        None
    } else if s[1] == '~' || s[1] == 's' {
        match unescape(s.skip(2)) {
            Some(r) => Some(seq![if s[1] == '~' { '~' } else { ' ' }] + r),
            None => None,
        }
    } else {
        None
    }
}

/// What `tokenize_spaces` answers for the text `s`.
pub open spec fn tokenize_result(s: Seq<char>) -> Result<Seq<char>, PipelineError> {
    match printable_guard_result(s) {
        Err(e) => Err(e),
        Ok(_) => Ok(escape(s)),
    }
}

/// What `untokenize_spaces` answers for the text `s`.
pub open spec fn untokenize_result(s: Seq<char>) -> Result<Seq<char>, PipelineError> {
    match printable_guard_result(s) {
        Err(e) => Err(e),
        Ok(_) => match unescape(s) {
            Some(u) => Ok(u),
            None => Err(PipelineError::InvalidEscapeSequence),
        },
    }
}

/// The view of a text result.
pub open spec fn text_result(r: Result<String, PipelineError>) -> Result<Seq<char>, PipelineError> {
    match r {
        Ok(s) => Ok(s@),
        Err(e) => Err(e),
    }
}

/// Writes `input` in escaped form.
fn escape_text(input: &str) -> (out: String)
    ensures
        out@ == escape(input@),
{
    let mut out = String::new();
    for c in it: input.chars()
        invariant
            it.seq() == input@,
            out@ == escape(input@.take(it.index() as int)),
    {
        let ghost k = it.index() as int;
        if c == '~' {
            string_push(&mut out, '~');
            string_push(&mut out, '~');
        } else if c == ' ' {
            string_push(&mut out, '~');
            string_push(&mut out, 's');
        } else {
            string_push(&mut out, c);
        }
        proof {
            assert(input@.take(k + 1).drop_last() =~= input@.take(k));
            assert(out@ =~= escape(input@.take(k)) + escape_char(c));
        }
    }
    assert(input@.take(input@.len() as int) =~= input@);
    out
}

pub fn tokenize_spaces(input: &str, space_mode: &SpaceMode) -> (res: Result<String, PipelineError>)
    ensures
        text_result(res) == tokenize_result(input@),
{
    printable_ascii_guard(input)?;
    match space_mode {
        SpaceMode::Underscore => Ok(escape_text(input)),
    }
}

/// The answer owed for reading `s` back from escaped form.
pub open spec fn unescape_result(s: Seq<char>) -> Result<Seq<char>, PipelineError> {
    match unescape(s) {
        Some(u) => Ok(u),
        None => Err(PipelineError::InvalidEscapeSequence),
    }
}

/// `out` followed by whatever `rest` reads back as is what `whole` reads back as.
pub open spec fn unescape_continues(whole: Seq<char>, out: Seq<char>, rest: Seq<char>) -> bool {
    &&& unescape(rest) matches Some(r) ==> unescape(whole) == Some(out + r)
    &&& unescape(rest) is None ==> unescape(whole) is None
}

fn decode_escaped_underscore_mode(input: &str) -> (res: Result<String, PipelineError>)
    ensures
        text_result(res) == unescape_result(input@),
{
    let mut out = String::new();
    // set just after a `~` whose partner has not been read yet
    let mut pending_tilde = false;
    assert(input@.skip(0) =~= input@);
    for ch in it: input.chars()
        invariant
            it.seq() == input@,
            pending_tilde ==> it.index() >= 1 && input@[it.index() - 1] == '~',
            unescape_continues(
                input@,
                out@,
                input@.skip(if pending_tilde { it.index() - 1 } else { it.index() as int }),
            ),
    {
        let ghost k = it.index() as int;
        let ghost s = input@;
        if pending_tilde {
            proof {
                assert(s.skip(k - 1).skip(2) =~= s.skip(k + 1));
            }
            if ch == '~' {
                proof {
                    if let Some(r) = unescape(s.skip(k + 1)) {
                        assert(out@.push('~') + r =~= out@ + (seq!['~'] + r));
                    }
                }
                string_push(&mut out, '~');
            } else if ch == 's' {
                proof {
                    if let Some(r) = unescape(s.skip(k + 1)) {
                        assert(out@.push(' ') + r =~= out@ + (seq![' '] + r));
                    }
                }
                string_push(&mut out, ' ');
            } else {
                return Err(PipelineError::InvalidEscapeSequence);
            }
            pending_tilde = false;
        } else if ch == '~' {
            pending_tilde = true;
        } else {
            proof {
                assert(s.skip(k).drop_first() =~= s.skip(k + 1));
                if let Some(r) = unescape(s.skip(k + 1)) {
                    assert(out@.push(ch) + r =~= out@ + (seq![ch] + r));
                }
            }
            string_push(&mut out, ch);
        }
    }
    if pending_tilde {
        return Err(PipelineError::InvalidEscapeSequence);
    }
    proof {
        assert(input@.skip(input@.len() as int) =~= Seq::<char>::empty());
        assert(out@ + Seq::<char>::empty() =~= out@);
    }
    Ok(out)
}

pub fn untokenize_spaces(input: &str, space_mode: &SpaceMode) -> (res: Result<String, PipelineError>)
    ensures
        text_result(res) == untokenize_result(input@),
{
    printable_ascii_guard(input)?;
    match space_mode {
        SpaceMode::Underscore => decode_escaped_underscore_mode(input),
    }
}

// ---------------------------------------------------------------------------
// Packets
// ---------------------------------------------------------------------------

/// The error of `String::from_utf8`, carried through opaquely.
#[verifier::external_type_specification]
#[verifier::external_body]
pub struct ExFromUtf8Error(std::string::FromUtf8Error);

/// `String::from_utf8` succeeds exactly on valid UTF-8, and the string it returns is made of
/// the given bytes.
pub assume_specification[ std::string::String::from_utf8 ](vec: Vec<u8>) -> (res: Result<String, std::string::FromUtf8Error>)
    ensures
        res is Ok <==> valid_utf8(vec@),
        res matches Ok(s) ==> encode_utf8(s@) == vec@,
;

/// What `encode_packet_with_mode` answers for the text `s`: empty text is refused (a packet is
/// never empty); otherwise the escaped text, in base64url.
pub open spec fn encode_packet_result(s: Seq<char>) -> Result<Seq<char>, PipelineError> {
    if s.len() == 0 {
        Err(PipelineError::Validation(ValidationError::EmptyInput))
    } else {
        match tokenize_result(s) {
            Err(e) => Err(e),
            Ok(t) => Ok(base64url::bytes_as_chars(base64url::encode_bytes(encode_utf8(t)))),
        }
    }
}

/// What `decode_packet_with_mode` answers for the wire text `wire`.
pub open spec fn decode_packet_result(wire: Seq<char>) -> Result<Seq<char>, PipelineError> {
    let bytes = encode_utf8(wire);
    match wire_format_result(bytes) {
        Err(e) => Err(PipelineError::Validation(e)),
        Ok(_) => match base64url::decode_result(bytes) {
            Err(e) => Err(PipelineError::Decode(e)),
            Ok(raw) => if !valid_utf8(raw) {
                Err(PipelineError::Utf8)
            } else {
                match untokenize_result(decode_utf8(raw)) {
                    Err(e) => Err(e),
                    Ok(u) => match printable_guard_result(u) {
                        Err(e) => Err(e),
                        Ok(_) => Ok(u),
                    },
                }
            },
        },
    }
}

pub fn encode_packet_with_mode(input: &str, space_mode: &SpaceMode) -> (res: Result<String, PipelineError>)
    ensures
        text_result(res) == encode_packet_result(input@),
{
    if input.is_empty() {
        return Err(PipelineError::Validation(ValidationError::EmptyInput));
    }
    let tokenized = tokenize_spaces(input, space_mode)?;
    Ok(base64url::encode(tokenized.as_str().as_bytes()))
}

pub fn decode_packet_with_mode(input: &str, space_mode: &SpaceMode) -> (res: Result<String, PipelineError>)
    ensures
        text_result(res) == decode_packet_result(input@),
{
    if let Err(e) = validate_wire_format(input) {
        return Err(PipelineError::Validation(e));
    }
    let decoded = match base64url::decode(input) {
        Ok(d) => d,
        Err(e) => return Err(PipelineError::Decode(e)),
    };
    let ghost raw = decoded@;
    let text = match String::from_utf8(decoded) {
        Ok(t) => t,
        Err(_) => return Err(PipelineError::Utf8),
    };
    proof {
        vstd::utf8::encode_utf8_decode_utf8(text@);
    }
    let untokenized = untokenize_spaces(text.as_str(), space_mode)?;
    printable_ascii_guard(untokenized.as_str())?;
    Ok(untokenized)
}

// ---------------------------------------------------------------------------
// Rate limiting
// ---------------------------------------------------------------------------

/// Characters admitted per window, encode and decode together.
pub const RATE_LIMIT_CHARS_PER_SECOND: usize = 500;

/// Length of a rate-limit window in nanoseconds (one second).
pub const RATE_LIMIT_WINDOW_NANOS: u128 = 1_000_000_000;

/// A reading of the monotonic clock, carried through opaquely.
#[verifier::external_type_specification]
#[verifier::external_body]
pub struct ExInstant(std::time::Instant);

/// Reads the monotonic clock (`Instant::now`). What it returns depends on the time, so
/// nothing is promised of it.
#[verifier::external_body]
fn clock_now() -> Instant {
    Instant::now()
}

/// `Instant::duration_since`: the time from `earlier` to `later`. It rests on the clock's
/// readings, so nothing is promised of it.
#[verifier::external_body]
fn time_between(later: &Instant, earlier: &Instant) -> Duration {
    later.duration_since(*earlier)
}

/// `Duration::as_nanos`: the whole nanoseconds in `d`. `Duration` is opaque here, so nothing
/// is stated of the number.
#[verifier::external_body]
fn duration_nanos(d: &Duration) -> u128 {
    d.as_nanos()
}

/// Characters already charged to the window that an admission is made in: none when the
/// previous window has run out (`reset`), else those charged so far.
pub open spec fn window_base(used: nat, reset: bool) -> nat {
    if reset {
        0
    } else {
        used
    }
}

/// Whether `attempted` characters are admitted: always in a window where nothing is charged
/// yet (there is no cap on the size of one request), else when the window's total stays
/// within the budget.
pub open spec fn rate_admits(used: nat, reset: bool, attempted: nat) -> bool {
    window_base(used, reset) == 0 || window_base(used, reset) + attempted
        <= RATE_LIMIT_CHARS_PER_SECOND
}

/// Characters charged to the window after the admission decision.
pub open spec fn rate_used_after(used: nat, reset: bool, attempted: nat) -> nat {
    if rate_admits(used, reset, attempted) {
        window_base(used, reset) + attempted
    } else {
        window_base(used, reset)
    }
}

/// The answer to an admission request of `attempted` characters.
pub open spec fn rate_result(used: nat, reset: bool, attempted: nat) -> Result<(), PipelineError> {
    if rate_admits(used, reset, attempted) {
        Ok(())
    } else {
        Err(
            PipelineError::RateLimited {
                allowed_per_second: RATE_LIMIT_CHARS_PER_SECOND,
                attempted_chars: attempted as usize,
            },
        )
    }
}

/// A fixed-window character budget shared by packet encoding and decoding.
pub struct RateLimiter {
    window_start: Instant,
    used_chars: usize,
}

impl RateLimiter {
    /// Characters charged to the current window.
    pub closed spec fn used(self) -> nat {
        self.used_chars as nat
    }

    /// When the current window began.
    pub closed spec fn window_start(self) -> Instant {
        self.window_start
    }

    /// A limiter whose window starts now, with nothing charged.
    pub fn new() -> (limiter: Self)
        ensures
            limiter.used() == 0,
    {
        RateLimiter { window_start: clock_now(), used_chars: 0 }
    }

    /// Characters charged to the current window.
    pub fn used_chars(&self) -> (n: usize)
        ensures
            n == self.used(),
    {
        self.used_chars
    }

    /// The admission decision at time `now`, `window_elapsed_nanos` after the window began:
    /// a window that has run a full second starts over at `now`; `attempted` characters are
    /// then admitted and charged if nothing is charged to the window yet or if the window's
    /// total stays within the budget.
    pub fn charge(&mut self, now: Instant, window_elapsed_nanos: u128, attempted: usize) -> (res: Result<(), PipelineError>)
        ensures
            ({
                let reset = window_elapsed_nanos >= RATE_LIMIT_WINDOW_NANOS;
                &&& res == rate_result(old(self).used(), reset, attempted as nat)
                &&& final(self).used() == rate_used_after(old(self).used(), reset, attempted as nat)
                &&& final(self).window_start() == (if reset { now } else { old(self).window_start() })
            }),
    {
        if window_elapsed_nanos >= RATE_LIMIT_WINDOW_NANOS {
            self.window_start = now;
            self.used_chars = 0;
        }
        if self.used_chars != 0 && self.used_chars.saturating_add(attempted) > RATE_LIMIT_CHARS_PER_SECOND {
            return Err(
                PipelineError::RateLimited {
                    allowed_per_second: RATE_LIMIT_CHARS_PER_SECOND,
                    attempted_chars: attempted,
                },
            );
        }
        self.used_chars = if self.used_chars == 0 {
            attempted
        } else {
            self.used_chars + attempted
        };
        Ok(())
    }

    /// Charges the characters of `input` to the budget, reading the clock to decide whether
    /// the window has run out. Whether it has is up to the clock; whichever it is, the
    /// answer and the new charge follow `charge`.
    pub fn enforce_rate_limit(&mut self, input: &str) -> (res: Result<(), PipelineError>)
        ensures
            exists|reset: bool|
                {
                    &&& res == rate_result(old(self).used(), reset, input@.len())
                    &&& final(self).used() == rate_used_after(old(self).used(), reset, input@.len())
                    &&& !reset ==> final(self).window_start() == old(self).window_start()
                },
            old(self).used() + input@.len() <= RATE_LIMIT_CHARS_PER_SECOND ==> res is Ok,
            old(self).used() == 0 ==> res is Ok,
    {
        let attempted = input.unicode_len();
        let now = clock_now();
        let elapsed = duration_nanos(&time_between(&now, &self.window_start));
        let res = self.charge(now, elapsed, attempted);
        proof {
            let reset = elapsed >= RATE_LIMIT_WINDOW_NANOS;
            assert(res == rate_result(old(self).used(), reset, input@.len()));
        }
        res
    }
}

/// The answer of a packet call: the rate limiter's refusal if it refused, else `answer`.
pub open spec fn after_rate_limit(
    admission: Result<(), PipelineError>,
    answer: Result<Seq<char>, PipelineError>,
) -> Result<Seq<char>, PipelineError> {
    match admission {
        Err(e) => Err(e),
        Ok(_) => answer,
    }
}

/// Encodes printable ASCII text as a wire packet, charging its characters to `limiter`.
pub fn encode_packet(limiter: &mut RateLimiter, input: &str) -> (res: Result<String, PipelineError>)
    ensures
        exists|reset: bool|
            {
                &&& final(limiter).used() == rate_used_after(old(limiter).used(), reset, input@.len())
                &&& !reset ==> final(limiter).window_start() == old(limiter).window_start()
                &&& text_result(res) == after_rate_limit(
                    rate_result(old(limiter).used(), reset, input@.len()),
                    encode_packet_result(input@),
                )
            },
        old(limiter).used() + input@.len() <= RATE_LIMIT_CHARS_PER_SECOND ==> text_result(res)
            == encode_packet_result(input@),
        old(limiter).used() == 0 ==> text_result(res) == encode_packet_result(input@),
{
    limiter.enforce_rate_limit(input)?;
    encode_packet_with_mode(input, &NATIVE_SPACE_MODE)
}

/// Decodes a wire packet back to its text, charging its characters to `limiter`.
pub fn decode_packet(limiter: &mut RateLimiter, input: &str) -> (res: Result<String, PipelineError>)
    ensures
        exists|reset: bool|
            {
                &&& final(limiter).used() == rate_used_after(old(limiter).used(), reset, input@.len())
                &&& !reset ==> final(limiter).window_start() == old(limiter).window_start()
                &&& text_result(res) == after_rate_limit(
                    rate_result(old(limiter).used(), reset, input@.len()),
                    decode_packet_result(input@),
                )
            },
        old(limiter).used() + input@.len() <= RATE_LIMIT_CHARS_PER_SECOND ==> text_result(res)
            == decode_packet_result(input@),
        old(limiter).used() == 0 ==> text_result(res) == decode_packet_result(input@),
{
    limiter.enforce_rate_limit(input)?;
    decode_packet_with_mode(input, &NATIVE_SPACE_MODE)
}

// ---------------------------------------------------------------------------
// Laws
// ---------------------------------------------------------------------------

/// Escaping works character by character: the escape of a concatenation is the
/// concatenation of the escapes.
pub proof fn lemma_escape_concat(a: Seq<char>, b: Seq<char>)
    ensures
        escape(a + b) == escape(a) + escape(b),
    decreases b.len(),
{
    if b.len() == 0 {
        assert(a + b =~= a);
        assert(escape(a) + escape(b) =~= escape(a));
    } else {
        lemma_escape_concat(a, b.drop_last());
        assert((a + b).drop_last() =~= a + b.drop_last());
        assert((a + b).last() == b.last());
        assert(escape(a + b) =~= escape(a) + escape(b));
    }
}

proof fn lemma_escape_first(s: Seq<char>)
    requires
        s.len() > 0,
    ensures
        escape(s) == escape_char(s[0]) + escape(s.drop_first()),
{
    let one = seq![s[0]];
    lemma_escape_concat(one, s.drop_first());
    assert(one + s.drop_first() =~= s);
    assert(one.drop_last() =~= Seq::<char>::empty());
    assert(escape(one) == escape(one.drop_last()) + escape_char(one.last()));
    assert(escape(one) =~= escape_char(s[0]));
}

/// Reading back the escaped form of any text gives the text.
pub proof fn law_unescape_escape(s: Seq<char>)
    ensures
        unescape(escape(s)) == Some(s),
    decreases s.len(),
{
    if s.len() == 0 {
    } else {
        lemma_escape_first(s);
        law_unescape_escape(s.drop_first());
        let e = escape(s);
        let rest = escape(s.drop_first());
        let c = s[0];
        if c == '~' || c == ' ' {
            assert(e.skip(2) =~= rest);
        } else {
            assert(e.drop_first() =~= rest);
        }
        assert(seq![c] + s.drop_first() =~= s);
    }
}

/// Escaping is collision-proof: two texts with the same escaped form are the same text.
pub proof fn law_escape_injective(a: Seq<char>, b: Seq<char>)
    requires
        escape(a) == escape(b),
    ensures
        a == b,
{
    law_unescape_escape(a);
    law_unescape_escape(b);
}

/// Escaped text that holds no raw space is the escape of what it reads back as.
pub proof fn law_escape_unescape(t: Seq<char>)
    requires
        unescape(t) is Some,
        forall|i: int| 0 <= i < t.len() ==> #[trigger] t[i] != ' ',
    ensures
        escape(unescape(t).unwrap()) == t,
    decreases t.len(),
{
    if t.len() == 0 {
    } else {
        let u = unescape(t).unwrap();
        if t[0] != '~' {
            let rest = t.drop_first();
            assert forall|i: int| 0 <= i < rest.len() implies #[trigger] rest[i] != ' ' by {
                assert(rest[i] == t[i + 1]);
            }
            law_escape_unescape(rest);
            lemma_escape_first(u);
            assert(u.drop_first() =~= unescape(rest).unwrap());
            assert(t =~= seq![t[0]] + rest);
        } else {
            let rest = t.skip(2);
            assert forall|i: int| 0 <= i < rest.len() implies #[trigger] rest[i] != ' ' by {
                assert(rest[i] == t[i + 2]);
            }
            law_escape_unescape(rest);
            lemma_escape_first(u);
            assert(u.drop_first() =~= unescape(rest).unwrap());
            assert(t =~= seq![t[0], t[1]] + rest);
        }
    }
}

/// The escape of printable ASCII text is printable ASCII, holds no space, and is at least as
/// long as the text.
pub proof fn lemma_escape_printable(s: Seq<char>)
    requires
        is_ascii_chars(s),
        all_satisfy(s, |c: char| is_printable(c)),
    ensures
        is_ascii_chars(escape(s)),
        all_satisfy(escape(s), |c: char| is_printable(c)),
        forall|i: int| 0 <= i < escape(s).len() ==> #[trigger] escape(s)[i] != ' ',
        escape(s).len() >= s.len(),
    decreases s.len(),
{
    if s.len() > 0 {
        let p = |c: char| is_printable(c);
        let front = s.drop_last();
        assert forall|i: int| 0 <= i < front.len() implies #[trigger] p(front[i]) by {
            assert(front[i] == s[i]);
            assert(p(s[i]));
        }
        lemma_escape_printable(front);
        let e = escape(s);
        let ef = escape(front);
        let tail = escape_char(s.last());
        assert(p(s[s.len() - 1]));
        assert(e == ef + tail);
        assert forall|i: int| 0 <= i < e.len() implies '\0' <= #[trigger] e[i] <= '\u{7f}' && p(e[i]) && e[i] != ' ' by {
            if i < ef.len() {
                assert(e[i] == ef[i]);
                assert(p(ef[i]));
            } else {
                assert(e[i] == tail[i - ef.len()]);
            }
        }
    }
}

/// Wire safety: every packet that encoding produces is non-empty and made of
/// `A-Z a-z 0-9 _ -` only, so it passes `validate_wire_format`; encoding succeeds exactly on
/// non-empty printable ASCII text.
pub proof fn law_encoded_packet_is_wire_safe(s: Seq<char>)
    ensures
        encode_packet_result(s) is Ok <==> s.len() > 0 && printable_guard_result(s) is Ok,
        encode_packet_result(s) matches Ok(wire) ==> wire.len() > 0 && wire_format_result(
            encode_utf8(wire),
        ) is Ok,
{
    if s.len() > 0 && printable_guard_result(s) is Ok {
        let t = escape(s);
        lemma_escape_printable(s);
        let b = encode_utf8(t);
        vstd::utf8::is_ascii_chars_encode_utf8(t);
        assert forall|i: int| 0 <= i < b.len() implies #[trigger] b[i] < 128 by {
            assert(b[i] == t[i] as u8);
        }
        let e = base64url::encode_bytes(b);
        base64url::lemma_encode_shape(b);
        base64url::lemma_ascii_text_bytes(e);
        let wire = base64url::bytes_as_chars(e);
        assert(encode_packet_result(s) == Ok::<Seq<char>, PipelineError>(wire));
        assert(e.len() > 0);
        assert forall|i: int| 0 <= i < e.len() implies #[trigger] crate::validation::is_wire_byte(e[i]) by {
            let p = |x: u8| base64url::is_alphabet_byte(x);
            assert(p(e[i]));
        }
        assert(all_satisfy(e, |x: u8| crate::validation::is_wire_byte(x)));
    }
}

/// Round trip: decoding any packet that encoding produced gives the text back.
pub proof fn law_packet_round_trip(s: Seq<char>)
    ensures
        encode_packet_result(s) matches Ok(wire) ==> decode_packet_result(wire) == Ok::<
            Seq<char>,
            PipelineError,
        >(s),
{
    law_encoded_packet_is_wire_safe(s);
    if s.len() > 0 && printable_guard_result(s) is Ok {
        let t = escape(s);
        lemma_escape_printable(s);
        assert(printable_guard_result(t) is Ok);
        let b = encode_utf8(t);
        vstd::utf8::is_ascii_chars_encode_utf8(t);
        vstd::utf8::encode_utf8_valid_utf8(t);
        vstd::utf8::encode_utf8_decode_utf8(t);
        assert forall|i: int| 0 <= i < b.len() implies #[trigger] b[i] < 128 by {
            assert(b[i] == t[i] as u8);
        }
        let e = base64url::encode_bytes(b);
        base64url::lemma_encode_shape(b);
        base64url::lemma_ascii_text_bytes(e);
        base64url::law_decode_inverts_encode(b);
        let wire = base64url::bytes_as_chars(e);
        assert(encode_packet_result(s) == Ok::<Seq<char>, PipelineError>(wire));
        law_unescape_escape(s);
        assert(untokenize_result(t) == Ok::<Seq<char>, PipelineError>(s));
    }
}

/// Characters charged after the requests `attempts` are made, in order, within one window
/// (no reset), starting from `used`.
pub open spec fn used_after_requests(used: nat, attempts: Seq<nat>) -> nat
    decreases attempts.len(),
{
    if attempts.len() == 0 {
        used
    } else {
        used_after_requests(rate_used_after(used, false, attempts[0]), attempts.drop_first())
    }
}

/// Sum of the requests among `attempts` that are admitted, made in order within one window
/// (no reset), starting from `used`.
pub open spec fn admitted_in_window(used: nat, attempts: Seq<nat>) -> nat
    decreases attempts.len(),
{
    if attempts.len() == 0 {
        0
    } else {
        (if rate_admits(used, false, attempts[0]) {
            attempts[0]
        } else {
            0
        }) + admitted_in_window(rate_used_after(used, false, attempts[0]), attempts.drop_first())
    }
}

/// The window budget. Within one window, refused requests add nothing to the charge; once
/// something is charged, the admitted characters stay within 500; a window that holds more
/// than 500 admits nothing more; and from an empty window, what is admitted is at most 500
/// characters or else one single request.
pub proof fn law_window_budget(used: nat, attempts: Seq<nat>)
    ensures
        used_after_requests(used, attempts) == used + admitted_in_window(used, attempts),
        0 < used <= RATE_LIMIT_CHARS_PER_SECOND ==> used + admitted_in_window(used, attempts)
            <= RATE_LIMIT_CHARS_PER_SECOND,
        used > RATE_LIMIT_CHARS_PER_SECOND ==> admitted_in_window(used, attempts) == 0,
        used == 0 ==> admitted_in_window(used, attempts) <= RATE_LIMIT_CHARS_PER_SECOND || exists|
            i: int,
        | 0 <= i < attempts.len() && admitted_in_window(used, attempts) == #[trigger] attempts[i],
    decreases attempts.len(),
{
    if attempts.len() > 0 {
        let a = attempts[0];
        let rest = attempts.drop_first();
        let next = rate_used_after(used, false, a);
        law_window_budget(next, rest);
        if used == 0 && a > RATE_LIMIT_CHARS_PER_SECOND {
            assert(admitted_in_window(used, attempts) == attempts[0]);
        }
        if used == 0 && a == 0 && admitted_in_window(next, rest) > RATE_LIMIT_CHARS_PER_SECOND {
            let i = choose|i: int| 0 <= i < rest.len() && admitted_in_window(next, rest) == #[trigger] rest[i];
            assert(attempts[i + 1] == rest[i]);
        }
    }
}

/// How the character classes of the plaintext policy read as character codes.
proof fn lemma_char_code(c: char)
    ensures
        ((c as u32) < 0x80) <==> ('\0' <= c <= '\u{7f}'),
        (0x20 <= (c as u32) <= 0x7e) <==> is_printable(c),
{
}

/// The plaintext policy is printable ASCII, `0x20` to `0x7E`: the guard accepts exactly the
/// texts whose characters all lie in that range; a text with a character beyond ASCII is
/// refused as non-ASCII; otherwise a refusal names the first character outside the range.
/// So encoding succeeds only on such texts, and decoding only ever yields such texts.
pub proof fn law_printable_policy(s: Seq<char>, wire: Seq<char>)
    requires
        s.len() <= usize::MAX,
    ensures
        printable_guard_result(s) is Ok <==> forall|i: int|
            0 <= i < s.len() ==> 0x20 <= (#[trigger] s[i]) as u32 <= 0x7e,
        printable_guard_result(s) == Err::<(), PipelineError>(PipelineError::NonAsciiInput) <==> exists|i: int|
            0 <= i < s.len() && (#[trigger] s[i]) as u32 >= 0x80,
        printable_guard_result(s) matches Err(PipelineError::ControlByte { index, byte }) ==> {
            &&& index < s.len()
            &&& byte as u32 == s[index as int] as u32
            &&& !(0x20 <= byte <= 0x7e)
            &&& forall|j: int| 0 <= j < index ==> 0x20 <= (#[trigger] s[j]) as u32 <= 0x7e
        },
        encode_packet_result(s) is Ok ==> forall|i: int|
            0 <= i < s.len() ==> 0x20 <= (#[trigger] s[i]) as u32 <= 0x7e,
        decode_packet_result(wire) matches Ok(u) ==> forall|i: int|
            0 <= i < u.len() ==> 0x20 <= (#[trigger] u[i]) as u32 <= 0x7e,
{
    let p = |c: char| is_printable(c);
    assert forall|i: int| 0 <= i < s.len() implies {
        &&& (((#[trigger] s[i]) as u32) < 0x80 <==> '\0' <= s[i] <= '\u{7f}')
        &&& (0x20 <= (s[i] as u32) <= 0x7e <==> p(s[i]))
    } by {
        lemma_char_code(s[i]);
    }
    if is_ascii_chars(s) && !all_satisfy(s, p) {
        let i = choose|i: int| 0 <= i < s.len() && !#[trigger] p(s[i]);
        lemma_first_failure_exists(s, p, i);
        let k = first_failure(s, p);
        assert(k as usize as int == k);
        assert(!p(s[k]));
        assert((s[k] as u32) < 0x80);
        assert(!(0x20 <= (s[k] as u32) <= 0x7e));
    }
    if let Ok(u) = decode_packet_result(wire) {
        assert(printable_guard_result(u) is Ok);
        assert forall|i: int| 0 <= i < u.len() implies 0x20 <= (#[trigger] u[i]) as u32 <= 0x7e by {
            lemma_char_code(u[i]);
            assert(p(u[i]));
        }
    }
}

/// Escaping rewrites only `~` and spaces: a text holding neither is its own escape, and a
/// text holding no `~` reads back as itself. So the packet of a non-empty printable text
/// without `~` or spaces is the plain base64url encoding of the text.
pub proof fn law_escape_rewrites_only_tilde_and_space(s: Seq<char>)
    ensures
        (forall|i: int| 0 <= i < s.len() ==> #[trigger] s[i] != '~' && s[i] != ' ') ==> escape(s) == s,
        (forall|i: int| 0 <= i < s.len() ==> #[trigger] s[i] != '~') ==> unescape(s) == Some(s),
        (forall|i: int| 0 <= i < s.len() ==> #[trigger] s[i] != '~' && s[i] != ' ') && s.len() > 0
            && printable_guard_result(s) is Ok ==> encode_packet_result(s) == Ok::<
            Seq<char>,
            PipelineError,
        >(base64url::bytes_as_chars(base64url::encode_bytes(encode_utf8(s)))),
    decreases s.len(),
{
    if s.len() > 0 {
        law_escape_rewrites_only_tilde_and_space(s.drop_last());
        law_escape_rewrites_only_tilde_and_space(s.drop_first());
        if forall|i: int| 0 <= i < s.len() ==> #[trigger] s[i] != '~' && s[i] != ' ' {
            let f = s.drop_last();
            assert forall|i: int| 0 <= i < f.len() implies #[trigger] f[i] != '~' && f[i] != ' ' by {
                assert(f[i] == s[i]);
            }
            assert(s.last() == s[s.len() - 1]);
            assert(f.push(s.last()) =~= s);
            assert(escape(s) == s);
            if printable_guard_result(s) is Ok {
                assert(tokenize_result(s) == Ok::<Seq<char>, PipelineError>(s));
            }
        }
        if forall|i: int| 0 <= i < s.len() ==> #[trigger] s[i] != '~' {
            let r = s.drop_first();
            assert forall|i: int| 0 <= i < r.len() implies #[trigger] r[i] != '~' by {
                assert(r[i] == s[i + 1]);
            }
            assert(seq![s[0]] + r =~= s);
        }
    }
}

} // verus!
