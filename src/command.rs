//! Parsing of command payloads of the form `angle0[,wait1,angle1[,...]]`
//! into timelines.
use vstd::prelude::*;
use vstd::utf8::{pop_first_scalar, valid_utf8};

verus! {

/// Largest payload, in bytes, that a command may carry.
pub const MAX_PAYLOAD_LEN: usize = 1024;

/// Byte that separates the numbers of a payload.
pub const SEPARATOR: u8 = 0x2c;

/// One target position, reached after holding the previous position for
/// `hold_ms` milliseconds (`None` for the first step, reached at once).
#[derive(Clone, Copy, Debug, PartialEq, Eq)]
pub struct Step {
    pub position: u32,
    pub hold_ms: Option<u32>,
}

/// An ordered list of steps parsed from one command.
#[derive(Clone, Debug, PartialEq, Eq)]
pub struct Timeline {
    pub steps: Vec<Step>,
}

/// Why a payload was refused.
#[derive(Clone, Debug, PartialEq, Eq)]
pub enum ParseError {
    /// The payload is not UTF-8 text.
    Encoding,
    /// The token at index `position` (counting from zero) is not an unsigned
    /// decimal integer that fits in 32 bits.
    InvalidNumber { token: Vec<u8>, position: usize },
    /// The payload is empty or holds an even number of numbers.
    MalformedTimeline,
    /// The payload is longer than `MAX_PAYLOAD_LEN` bytes.
    PayloadTooLarge,
}

/// The mathematical content of a `ParseError`.
pub enum ParseFault {
    Encoding,
    InvalidNumber { token: Seq<u8>, position: int },
    MalformedTimeline,
    PayloadTooLarge,
}

impl View for ParseError {
    type V = ParseFault;

    open spec fn view(&self) -> ParseFault {
        match self {
            ParseError::Encoding => ParseFault::Encoding,
            ParseError::InvalidNumber { token, position } => ParseFault::InvalidNumber {
                token: token@,
                position: *position as int,
            },
            ParseError::MalformedTimeline => ParseFault::MalformedTimeline,
            ParseError::PayloadTooLarge => ParseFault::PayloadTooLarge,
        }
    }
}

impl Timeline {
    /// At least one step; only the first one has no hold.
    pub open spec fn wf(&self) -> bool {
        &&& self.steps@.len() >= 1
        &&& self.steps@[0].hold_ms is None
        &&& forall|k: int| 1 <= k < self.steps@.len() ==> (#[trigger] self.steps@[k]).hold_ms is Some
    }
}

/// The mathematical content of a parse result.
pub open spec fn outcome_view(r: Result<Timeline, ParseError>) -> Result<Seq<Step>, ParseFault> {
    match r {
        Ok(t) => Ok(t.steps@),
        Err(e) => Err(e@),
    }
}

pub open spec fn is_digit(b: u8) -> bool {
    0x30 <= b <= 0x39
}

/// The number that a string of decimal digits denotes.
pub open spec fn digits_value(t: Seq<u8>) -> int
    decreases t.len(),
{
    if t.len() == 0 {
        0
    } else {
        digits_value(t.drop_last()) * 10 + (t.last() - 0x30)
    }
}

/// One or more decimal digits whose value fits in `u32`.
pub open spec fn is_number(t: Seq<u8>) -> bool {
    &&& t.len() > 0
    &&& forall|i: int| 0 <= i < t.len() ==> is_digit(#[trigger] t[i])
    &&& digits_value(t) <= u32::MAX
}

/// The pieces of `s` between occurrences of `sep`; an empty `s` gives one
/// empty piece.
pub open spec fn split_on(s: Seq<u8>, sep: u8) -> Seq<Seq<u8>>
    decreases s.len(),
{
    if s.len() == 0 {
        seq![Seq::<u8>::empty()]
    } else {
        let parts = split_on(s.drop_last(), sep);
        if s.last() == sep {
            parts.push(Seq::<u8>::empty())
        } else {
            parts.update(parts.len() - 1, parts.last().push(s.last()))
        }
    }
}

/// The steps that a list of numbers `angle0, wait1, angle1, ...` describes.
pub open spec fn steps_of(vals: Seq<u32>) -> Seq<Step> {
    Seq::new(
        ((vals.len() + 1) / 2) as nat,
        |k: int|
            Step {
                position: vals[2 * k],
                hold_ms: if k == 0 {
                    None
                } else {
                    Some(vals[2 * k - 1])
                },
            },
    )
}

/// The numbers that a list of valid tokens denotes.
pub open spec fn token_values(toks: Seq<Seq<u8>>) -> Seq<u32> {
    toks.map_values(|t: Seq<u8>| digits_value(t) as u32)
}

/// All tokens before index `n` are numbers.
pub open spec fn numbers_before(toks: Seq<Seq<u8>>, n: int) -> bool {
    forall|i: int| 0 <= i < n ==> is_number(#[trigger] toks[i])
}

/// What parsing a UTF-8 payload `s` gives: the first token that is no number
/// is reported; otherwise an odd count of numbers is a timeline.
pub open spec fn text_outcome(s: Seq<u8>) -> Result<Seq<Step>, ParseFault> {
    let toks = split_on(s, SEPARATOR);
    if s.len() == 0 {
        Err(ParseFault::MalformedTimeline)
    } else if exists|p: int| 0 <= p < toks.len() && !is_number(#[trigger] toks[p]) {
        let p = choose|p: int| 0 <= p < toks.len() && !is_number(toks[p]) && numbers_before(toks, p);
        Err(ParseFault::InvalidNumber { token: toks[p], position: p })
    } else if toks.len() % 2 == 0 {
        Err(ParseFault::MalformedTimeline)
    } else {
        Ok(steps_of(token_values(toks)))
    }
}

/// What parsing the raw payload `s` gives.
pub open spec fn parse_outcome(s: Seq<u8>) -> Result<Seq<Step>, ParseFault> {
    if s.len() > MAX_PAYLOAD_LEN {
        Err(ParseFault::PayloadTooLarge)
    } else if !valid_utf8(s) {
        Err(ParseFault::Encoding)
    } else {
        text_outcome(s)
    }
}

proof fn lemma_split_nonempty(s: Seq<u8>, sep: u8)
    ensures
        split_on(s, sep).len() >= 1,
    decreases s.len(),
{
    if s.len() > 0 {
        lemma_split_nonempty(s.drop_last(), sep);
    }
}

/// A prefix of a string of digits never denotes more than the whole.
proof fn lemma_digits_prefix(t: Seq<u8>, j: int)
    requires
        0 <= j <= t.len(),
        forall|i: int| 0 <= i < t.len() ==> is_digit(#[trigger] t[i]),
    ensures
        0 <= digits_value(t.take(j)) <= digits_value(t),
    decreases t.len(),
{
    if t.len() > 0 {
        let u = t.drop_last();
        assert forall|i: int| 0 <= i < u.len() implies is_digit(#[trigger] u[i]) by {
            assert(u[i] == t[i]);
        }
        if j == t.len() {
            assert(t.take(j) =~= t);
            lemma_digits_prefix(u, 0);
        } else {
            assert(t.take(j) =~= u.take(j));
            lemma_digits_prefix(u, j);
        }
        assert(is_digit(t[t.len() - 1]));
    } else {
        assert(t.take(j) =~= t);
    }
}

/// The value of the decimal token `t`, or `None` when it is empty, holds a
/// byte other than an ASCII digit, or exceeds `u32::MAX`.
pub fn parse_u32(t: &[u8]) -> (r: Option<u32>)
    ensures
        r == (if is_number(t@) {
            Some(digits_value(t@) as u32)
        } else {
            None::<u32>
        }),
        r matches Some(v) ==> v as int == digits_value(t@),
{
    if t.len() == 0 {
        return None;
    }
    let mut acc: u64 = 0;
    let mut i: usize = 0;
    while i < t.len()
        invariant
            i <= t@.len(),
            forall|j: int| 0 <= j < i ==> is_digit(#[trigger] t@[j]),
            acc == digits_value(t@.take(i as int)),
            acc <= u32::MAX,
        decreases t@.len() - i,
    {
        let b = t[i];
        if b < 0x30 || b > 0x39 {
            return None;
        }
        let next = acc * 10 + (b - 0x30) as u64;
        proof {
            assert(t@.take(i + 1).drop_last() =~= t@.take(i as int));
        }
        if next > 0xffff_ffff {
            proof {
                if forall|j: int| 0 <= j < t@.len() ==> is_digit(#[trigger] t@[j]) {
                    lemma_digits_prefix(t@, i + 1);
                }
            }
            return None;
        }
        acc = next;
        i = i + 1;
    }
    assert(t@.take(i as int) =~= t@);
    Some(acc as u32)
}


/// The views of a list of byte vectors.
pub open spec fn views(v: Seq<Vec<u8>>) -> Seq<Seq<u8>> {
    v.map_values(|x: Vec<u8>| x@)
}

/// The pieces of `s` between occurrences of `sep`.
pub fn split_bytes(s: &[u8], sep: u8) -> (r: Vec<Vec<u8>>)
    ensures
        views(r@) == split_on(s@, sep),
{
    let mut parts: Vec<Vec<u8>> = Vec::new();
    let mut cur: Vec<u8> = Vec::new();
    let mut i: usize = 0;
    while i < s.len()
        invariant
            i <= s@.len(),
            views(parts@).push(cur@) == split_on(s@.take(i as int), sep),
        decreases s@.len() - i,
    {
        let b = s[i];
        proof {
            let t = s@.take(i + 1);
            assert(t.drop_last() =~= s@.take(i as int));
            lemma_split_nonempty(s@.take(i as int), sep);
        }
        if b == sep {
            let ghost pv = parts@;
            let done = cur;
            cur = Vec::new();
            parts.push(done);
            assert(views(parts@) =~= views(pv).push(done@));
            assert(cur@ =~= Seq::<u8>::empty());
        } else {
            let ghost before = views(parts@).push(cur@);
            cur.push(b);
            assert(views(parts@).push(cur@) =~= before.update(before.len() - 1, before.last().push(b)));
        }
        i = i + 1;
    }
    assert(s@.take(i as int) =~= s@);
    let last = cur;
    parts.push(last);
    assert(views(parts@) =~= views(parts@.drop_last()).push(last@));
    parts
}


/// Parses a payload already known to be UTF-8 text.
pub fn parse_text(raw: &[u8]) -> (r: Result<Timeline, ParseError>)
    ensures
        outcome_view(r) == text_outcome(raw@),
        r matches Ok(t) ==> t.wf(),
{
    if raw.len() == 0 {
        return Err(ParseError::MalformedTimeline);
    }
    let toks = split_bytes(raw, SEPARATOR);
    let ghost ts = split_on(raw@, SEPARATOR);
    assert(toks@.len() == ts.len());
    let mut vals: Vec<u32> = Vec::new();
    let mut i: usize = 0;
    while i < toks.len()
        invariant
            i <= toks@.len(),
            views(toks@) == ts,
            toks@.len() == ts.len(),
            raw@.len() > 0,
            ts == split_on(raw@, SEPARATOR),
            numbers_before(ts, i as int),
            vals@.len() == i,
            forall|j: int| 0 <= j < i ==> #[trigger] vals@[j] == digits_value(ts[j]) as u32,
        decreases toks@.len() - i,
    {
        assert(toks@[i as int]@ == ts[i as int]);
        match parse_u32(toks[i].as_slice()) {
            Some(v) => {
                vals.push(v);
            },
            None => {
                let token = toks[i].clone();
                assert(token@ =~= ts[i as int]);
                proof {
                    let p = choose|p: int|
                        0 <= p < ts.len() && !is_number(ts[p]) && numbers_before(ts, p);
                    assert(0 <= i < ts.len() && !is_number(ts[i as int]) && numbers_before(
                        ts,
                        i as int,
                    ));
                    if p < i {
                        assert(is_number(ts[p]));
                    }
                    if p > i {
                        assert(is_number(ts[i as int]));
                    }
                }
                return Err(ParseError::InvalidNumber { token, position: i });
            },
        }
        i = i + 1;
    }
    assert(vals@ =~= token_values(ts));
    if vals.len() % 2 == 0 {
        return Err(ParseError::MalformedTimeline);
    }
    let count = (vals.len() - 1) / 2 + 1;
    let ghost want = steps_of(vals@);
    let mut steps: Vec<Step> = Vec::new();
    let mut k: usize = 0;
    while k < count
        invariant
            k <= count,
            count == want.len(),
            count == (vals@.len() - 1) / 2 + 1,
            want == steps_of(vals@),
            vals@.len() % 2 == 1,
            vals@.len() <= usize::MAX,
            steps@.len() == k,
            forall|j: int| 0 <= j < k ==> #[trigger] steps@[j] == want[j],
        decreases count - k,
    {
        assert(2 * k < vals@.len()) by (nonlinear_arith)
            requires
                k < count,
                count == (vals@.len() - 1) / 2 + 1,
                vals@.len() % 2 == 1,
        ;
        let hold = if k == 0 {
            None
        } else {
            Some(vals[2 * k - 1])
        };
        steps.push(Step { position: vals[2 * k], hold_ms: hold });
        k = k + 1;
    }
    assert(steps@ =~= want);
    Ok(Timeline { steps })
}

/// Relies on `std::str::from_utf8`: it succeeds exactly on well-formed
/// UTF-8.
#[verifier::external_body]
fn is_utf8(b: &[u8]) -> (r: bool)
    ensures
        r == valid_utf8(b@),
{
    std::str::from_utf8(b).is_ok()
}

/// Parses a raw command payload into a timeline.
pub fn parse(raw: &[u8]) -> (r: Result<Timeline, ParseError>)
    ensures
        outcome_view(r) == parse_outcome(raw@),
        r matches Ok(t) ==> t.wf(),
{
    if raw.len() > MAX_PAYLOAD_LEN {
        return Err(ParseError::PayloadTooLarge);
    }
    if !is_utf8(raw) {
        return Err(ParseError::Encoding);
    }
    parse_text(raw)
}

/// Parsing is a function of the payload's bytes alone: equal payloads give
/// equal outcomes, and every payload gives one.
pub proof fn lemma_parse_deterministic(a: Seq<u8>, b: Seq<u8>)
    requires
        a =~= b,
    ensures
        parse_outcome(a) == parse_outcome(b),
        parse_outcome(a) is Ok || parse_outcome(a) is Err,
{
}

/// The decimal digits of `n`, without leading zeros.
pub open spec fn decimal(n: nat) -> Seq<u8>
    decreases n,
{
    if n < 10 {
        seq![(0x30 + n) as u8]
    } else {
        decimal(n / 10).push((0x30 + n % 10) as u8)
    }
}

proof fn lemma_decimal(n: nat)
    ensures
        is_number(decimal(n)) <==> n <= u32::MAX,
        decimal(n).len() >= 1,
        digits_value(decimal(n)) == n,
        forall|i: int| 0 <= i < decimal(n).len() ==> is_digit(#[trigger] decimal(n)[i]),
        decimal(n).len() <= 1 || n >= 10,
    decreases n,
{
    let d = decimal(n);
    if n < 10 {
        assert(d.drop_last() =~= Seq::<u8>::empty());
        assert(digits_value(Seq::<u8>::empty()) == 0);
        assert(d.last() == 0x30 + n);
    } else {
        lemma_decimal(n / 10);
        assert(d.drop_last() =~= decimal(n / 10));
        assert(d.last() == 0x30 + n % 10);
        assert((n / 10) * 10 + n % 10 == n);
        assert forall|i: int| 0 <= i < d.len() implies is_digit(#[trigger] d[i]) by {
            if i < d.len() - 1 {
                assert(d[i] == decimal(n / 10)[i]);
            }
        }
    }
}

pub open spec fn pow10(k: nat) -> nat
    decreases k,
{
    if k == 0 {
        1
    } else {
        10 * pow10((k - 1) as nat)
    }
}

proof fn lemma_decimal_len(n: nat, k: nat)
    requires
        k >= 1,
        n < pow10(k),
    ensures
        decimal(n).len() <= k,
    decreases n,
{
    if n >= 10 {
        if k == 1 {
            assert(pow10(0) == 1);
        }
        assert(pow10(k) == 10 * pow10((k - 1) as nat));
        lemma_decimal_len(n / 10, (k - 1) as nat);
    }
}

/// A number that fits in `u32` has at most ten digits.
proof fn lemma_decimal_u32_len(n: u32)
    ensures
        decimal(n as nat).len() <= 10,
{
    reveal_with_fuel(pow10, 11);
    lemma_decimal_len(n as nat, 10);
}

/// Bytes below 0x80 are well-formed UTF-8.
proof fn lemma_ascii_valid_utf8(b: Seq<u8>)
    requires
        forall|i: int| 0 <= i < b.len() ==> #[trigger] b[i] < 0x80,
    ensures
        valid_utf8(b),
    decreases b.len(),
{
    if b.len() > 0 {
        let x = b[0];
        assert((x & 0x7f) == x) by (bit_vector)
            requires
                x < 0x80,
        ;
        let rest = pop_first_scalar(b);
        assert(rest =~= b.subrange(1, b.len() as int));
        lemma_ascii_valid_utf8(rest);
    }
}

/// A payload without `sep` is one piece.
proof fn lemma_split_append(s: Seq<u8>, t: Seq<u8>, sep: u8)
    requires
        forall|i: int| 0 <= i < t.len() ==> #[trigger] t[i] != sep,
    ensures
        split_on(s + t, sep) == split_on(s, sep).update(
            split_on(s, sep).len() - 1,
            split_on(s, sep).last() + t,
        ),
    decreases t.len(),
{
    lemma_split_nonempty(s, sep);
    let q = split_on(s, sep);
    if t.len() == 0 {
        assert(s + t =~= s);
        assert(q.last() + t =~= q.last());
        assert(q.update(q.len() - 1, q.last()) =~= q);
    } else {
        let u = t.drop_last();
        assert forall|i: int| 0 <= i < u.len() implies #[trigger] u[i] != sep by {
            assert(u[i] == t[i]);
        }
        lemma_split_append(s, u, sep);
        assert((s + t).drop_last() =~= s + u);
        assert((s + t).last() == t.last());
        assert(t[t.len() - 1] != sep);
        let p = split_on(s + u, sep);
        assert(p.len() == q.len());
        assert(p.last() == q.last() + u);
        assert(split_on(s + t, sep) == p.update(p.len() - 1, p.last().push(t.last())));
        assert((q.last() + u).push(t.last()) =~= q.last() + t);
        assert(split_on(s + t, sep) =~= q.update(q.len() - 1, q.last() + t));
    }
}

proof fn lemma_split_decimal(s: Seq<u8>, n: nat)
    ensures
        split_on(s + seq![SEPARATOR] + decimal(n), SEPARATOR) == split_on(s, SEPARATOR).push(
            decimal(n),
        ),
{
    lemma_decimal(n);
    let a = s + seq![SEPARATOR];
    assert(a.drop_last() =~= s);
    lemma_split_append(a, decimal(n), SEPARATOR);
    assert(Seq::<u8>::empty() + decimal(n) =~= decimal(n));
    assert(split_on(a, SEPARATOR).update(split_on(a, SEPARATOR).len() - 1, decimal(n))
        =~= split_on(s, SEPARATOR).push(decimal(n)));
}

/// A payload of one number parses to one step reached at once.
pub proof fn lemma_round_trip_single(a0: u32)
    ensures
        parse_outcome(decimal(a0 as nat)) == Ok::<Seq<Step>, ParseFault>(
            seq![Step { position: a0, hold_ms: None }],
        ),
{
    let s = decimal(a0 as nat);
    lemma_decimal(a0 as nat);
    lemma_decimal_u32_len(a0);
    lemma_ascii_valid_utf8(s);
    lemma_split_append(Seq::<u8>::empty(), s, SEPARATOR);
    assert(Seq::<u8>::empty() + s =~= s);
    assert(Seq::<u8>::empty() + s =~= s);
    let toks = split_on(s, SEPARATOR);
    assert(toks =~= seq![s]);
    assert(token_values(toks) =~= seq![a0]);
    assert(steps_of(seq![a0]) =~= seq![Step { position: a0, hold_ms: None }]);
}

/// A payload `a0,w1,a1` parses to two steps: `a0` at once, then `a1` after
/// holding `a0` for `w1` milliseconds.
pub proof fn lemma_round_trip_pair(a0: u32, w1: u32, a1: u32)
    ensures
        parse_outcome(
            decimal(a0 as nat) + seq![SEPARATOR] + decimal(w1 as nat) + seq![SEPARATOR] + decimal(
                a1 as nat,
            ),
        ) == Ok::<Seq<Step>, ParseFault>(
            seq![Step { position: a0, hold_ms: None }, Step { position: a1, hold_ms: Some(w1) }],
        ),
{
    let d0 = decimal(a0 as nat);
    let dw = decimal(w1 as nat);
    let d1 = decimal(a1 as nat);
    let c = seq![SEPARATOR];
    let s = d0 + c + dw + c + d1;
    lemma_decimal(a0 as nat);
    lemma_decimal(w1 as nat);
    lemma_decimal(a1 as nat);
    lemma_decimal_u32_len(a0);
    lemma_decimal_u32_len(w1);
    lemma_decimal_u32_len(a1);
    assert forall|i: int| 0 <= i < s.len() implies #[trigger] s[i] < 0x80 by {
        if i < d0.len() {
            assert(s[i] == d0[i]);
        } else if i < d0.len() + 1 {
            assert(s[i] == SEPARATOR);
        } else if i < d0.len() + 1 + dw.len() {
            assert(s[i] == dw[i - d0.len() - 1]);
        } else if i < d0.len() + 2 + dw.len() {
            assert(s[i] == SEPARATOR);
        } else {
            assert(s[i] == d1[i - d0.len() - 2 - dw.len()]);
        }
    }
    lemma_ascii_valid_utf8(s);
    lemma_split_append(Seq::<u8>::empty(), d0, SEPARATOR);
    assert(Seq::<u8>::empty() + d0 =~= d0);
    assert(split_on(d0, SEPARATOR) =~= seq![d0]);
    lemma_split_decimal(d0, w1 as nat);
    lemma_split_decimal(d0 + c + dw, a1 as nat);
    let toks = split_on(s, SEPARATOR);
    assert(toks =~= seq![d0, dw, d1]);
    assert(token_values(toks) =~= seq![a0, w1, a1]);
    assert(steps_of(seq![a0, w1, a1]) =~= seq![
        Step { position: a0, hold_ms: None },
        Step { position: a1, hold_ms: Some(w1) },
    ]);
}

} // verus!
