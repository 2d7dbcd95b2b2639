use vstd::prelude::*;
use crate::error::{DistanceFault, ParseError, ParseErrorKind};

verus! {

/// Which way to turn before walking.
#[derive(Clone, Copy, Debug, PartialEq, Eq, Structural)]
pub enum InstructionDirection {
    Left,
    Right,
}

/// Turn, then walk `distance` unit steps.
#[derive(Clone, Copy, Debug, PartialEq, Eq, Structural)]
pub struct Instruction {
    pub direction: InstructionDirection,
    pub distance: u32,
}

/// A parsed instruction list, in input order.
#[derive(Debug)]
pub struct Instructions(pub Vec<Instruction>);

/// Whether a separator `", "` starts at index `i` of `s`.
pub open spec fn separator_at(s: Seq<char>, i: int) -> bool {
    0 <= i && i + 1 < s.len() && s[i] == ',' && s[i + 1] == ' '
}

/// The pieces of `s` between the separators `", "`, in order. There is always
/// at least one piece; a piece may be empty.
pub open spec fn tokens(s: Seq<char>) -> Seq<Seq<char>>
    decreases s.len(),
{
    if s.len() == 0 {
        seq![Seq::empty()]
    } else if separator_at(s, s.len() - 2) {
        tokens(s.take(s.len() - 2)).push(Seq::empty())
    } else {
        let t = tokens(s.drop_last());
        t.update(t.len() - 1, t.last().push(s.last()))
    }
}

pub open spec fn is_digit(c: char) -> bool {
    '0' <= c && c <= '9'
}

pub open spec fn digit_value(c: char) -> nat {
    (c as nat - '0' as nat) as nat
}

/// The value of a string of decimal digits read from the left; the first
/// character that is not a digit, or the first digit that takes the value
/// past `u32::MAX`, decides the fault.
pub open spec fn decimal_value(d: Seq<char>) -> Result<nat, DistanceFault>
    decreases d.len(),
{
    if d.len() == 0 {
        Ok(0)
    } else {
        match decimal_value(d.drop_last()) {
            Err(f) => Err(f),
            Ok(v) => if !is_digit(d.last()) {
                Err(DistanceFault::InvalidDigit)
            } else if v * 10 + digit_value(d.last()) > u32::MAX {
                Err(DistanceFault::TooLarge)
            } else {
                Ok(v * 10 + digit_value(d.last()))
            },
        }
    }
}

/// A distance: decimal digits, with an optional leading `+`.
pub open spec fn distance_of(t: Seq<char>) -> Result<u32, DistanceFault> {
    if t.len() == 0 {
        Err(DistanceFault::Empty)
    } else {
        let digits = if t[0] == '+' { t.drop_first() } else { t };
        if digits.len() == 0 {
            Err(DistanceFault::InvalidDigit)
        } else {
            match decimal_value(digits) {
                Ok(v) => Ok(v as u32),
                Err(f) => Err(f),
            }
        }
    }
}

/// The turn that a letter stands for.
pub open spec fn turn_of(c: char) -> Option<InstructionDirection> {
    if c == 'L' {
        Some(InstructionDirection::Left)
    } else if c == 'R' {
        Some(InstructionDirection::Right)
    } else {
        None
    }
}

/// One token: a turn letter, then a distance.
pub open spec fn instruction_of(t: Seq<char>) -> Result<Instruction, ParseErrorKind> {
    if t.len() == 0 || turn_of(t[0]) is None {
        Err(ParseErrorKind::InvalidTurnToken)
    } else {
        match distance_of(t.drop_first()) {
            Ok(d) => Ok(Instruction { direction: turn_of(t[0])->0, distance: d }),
            Err(f) => Err(ParseErrorKind::InvalidDistance(f)),
        }
    }
}

/// The instructions of the tokens in order, or the error of the first
/// malformed token.
pub open spec fn instructions_of_tokens(ts: Seq<Seq<char>>) -> Result<Seq<Instruction>, ParseErrorKind>
    decreases ts.len(),
{
    if ts.len() == 0 {
        Ok(Seq::empty())
    } else {
        match instructions_of_tokens(ts.drop_last()) {
            Err(e) => Err(e),
            Ok(v) => match instruction_of(ts.last()) {
                Ok(i) => Ok(v.push(i)),
                Err(e) => Err(e),
            },
        }
    }
}

/// What parsing the text `s` gives.
pub open spec fn parse_spec(s: Seq<char>) -> Result<Seq<Instruction>, ParseErrorKind> {
    instructions_of_tokens(tokens(s))
}


proof fn lemma_tokens_nonempty(s: Seq<char>)
    ensures
        tokens(s).len() >= 1,
    decreases s.len(),
{
    if s.len() > 0 {
        if separator_at(s, s.len() - 2) {
            lemma_tokens_nonempty(s.take(s.len() - 2));
        } else {
            lemma_tokens_nonempty(s.drop_last());
        }
    }
}

/// The characters of `s`, in order.
fn chars_of(s: &str) -> (r: Vec<char>)
    ensures
        r@ == s@,
{
    let mut r: Vec<char> = Vec::new();
    for c in it: s.chars()
        invariant
            r@ == it.seq().take(it.index() as int),
    {
        r.push(c);
    }
    r
}

/// The pieces of `cs` between the separators `", "`.
fn split_tokens(cs: &Vec<char>) -> (r: Vec<Vec<char>>)
    ensures
        r.len() == tokens(cs@).len(),
        forall|j: int| 0 <= j < r.len() ==> #[trigger] r[j]@ == tokens(cs@)[j],
{
    let n = cs.len();
    let mut done: Vec<Vec<char>> = Vec::new();
    let mut cur: Vec<char> = Vec::new();
    let mut i: usize = 0;
    while i < n
        invariant
            n == cs.len(),
            i <= n,
            0 < i < n ==> !separator_at(cs@, i - 1),
            tokens(cs@.take(i as int)).len() == done.len() + 1,
            forall|j: int| 0 <= j < done.len() ==> #[trigger] done[j]@ == tokens(cs@.take(i as int))[j],
            cur@ == tokens(cs@.take(i as int)).last(),
        decreases n - i,
    {
        let ghost before = cs@.take(i as int);
        if i + 1 < n && cs[i] == ',' && cs[i + 1] == ' ' {
            let ghost after = cs@.take(i + 2);
            assert(separator_at(after, after.len() - 2));
            assert(after.take(after.len() - 2) =~= before);
            done.push(cur);
            cur = Vec::new();
            i = i + 2;
        } else {
            let ghost after = cs@.take(i + 1);
            assert(!separator_at(after, after.len() - 2));
            assert(after.drop_last() =~= before);
            proof {
                lemma_tokens_nonempty(before);
            }
            cur.push(cs[i]);
            i = i + 1;
        }
    }
    assert(cs@.take(n as int) =~= cs@);
    done.push(cur);
    done
}

proof fn lemma_decimal_fault_persists(d: Seq<char>, k: int)
    requires
        0 <= k <= d.len(),
        decimal_value(d.take(k)) is Err,
    ensures
        decimal_value(d) == decimal_value(d.take(k)),
    decreases d.len() - k,
{
    if k < d.len() {
        let next = d.take(k + 1);
        assert(next.drop_last() =~= d.take(k));
        lemma_decimal_fault_persists(d, k + 1);
    } else {
        assert(d.take(k) =~= d);
    }
}

/// Reads `cs[from..]` as decimal digits.
fn decimal_digits(cs: &Vec<char>, from: usize) -> (r: Result<u32, DistanceFault>)
    requires
        from <= cs.len(),
    ensures
        r == (match decimal_value(cs@.skip(from as int)) {
            Ok(v) => Ok(v as u32),
            Err(f) => Err(f),
        }),
{
    let ghost d = cs@.skip(from as int);
    let mut v: u64 = 0;
    let mut i: usize = from;
    while i < cs.len()
        invariant
            from <= i <= cs.len(),
            d == cs@.skip(from as int),
            decimal_value(d.take(i - from)) == Ok::<nat, DistanceFault>(v as nat),
            v <= u32::MAX,
        decreases cs.len() - i,
    {
        let c = cs[i];
        let ghost next = d.take(i - from + 1);
        assert(next.drop_last() =~= d.take(i - from));
        assert(next.last() == c);
        if c < '0' || c > '9' {
            proof {
                lemma_decimal_fault_persists(d, i - from + 1);
            }
            return Err(DistanceFault::InvalidDigit);
        }
        let dv: u64 = (c as u32 - '0' as u32) as u64;
        assert(dv == digit_value(c));
        v = v * 10 + dv;
        if v > 4294967295u64 {
            proof {
                lemma_decimal_fault_persists(d, i - from + 1);
            }
            return Err(DistanceFault::TooLarge);
        }
        i = i + 1;
    }
    assert(d.take(i - from) =~= d);
    Ok(v as u32)
}

/// Reads `cs[from..]` as a distance.
fn distance_digits(cs: &Vec<char>, from: usize) -> (r: Result<u32, DistanceFault>)
    requires
        from <= cs.len(),
    ensures
        r == distance_of(cs@.skip(from as int)),
{
    let ghost t = cs@.skip(from as int);
    if from == cs.len() {
        return Err(DistanceFault::Empty);
    }
    if cs[from] == '+' {
        assert(t.drop_first() =~= cs@.skip(from + 1));
        if from + 1 == cs.len() {
            return Err(DistanceFault::InvalidDigit);
        }
        decimal_digits(cs, from + 1)
    } else {
        decimal_digits(cs, from)
    }
}

impl InstructionDirection {
    /// The turn that a letter stands for: `L` or `R`, nothing else.
    pub fn from_char(c: char) -> (r: Option<InstructionDirection>)
        ensures
            r == turn_of(c),
    {
        if c == 'L' {
            Some(InstructionDirection::Left)
        } else if c == 'R' {
            Some(InstructionDirection::Right)
        } else {
            None
        }
    }
}

impl Instruction {
    /// Reads one token: a turn letter, then a distance.
    pub fn from_chars(t: &Vec<char>) -> (r: Result<Instruction, ParseErrorKind>)
        ensures
            r == instruction_of(t@),
    {
        if t.len() == 0 {
            return Err(ParseErrorKind::InvalidTurnToken);
        }
        match InstructionDirection::from_char(t[0]) {
            None => Err(ParseErrorKind::InvalidTurnToken),
            Some(direction) => {
                assert(t@.skip(1) =~= t@.drop_first());
                match distance_digits(t, 1) {
                    Ok(distance) => Ok(Instruction { direction, distance }),
                    Err(f) => Err(ParseErrorKind::InvalidDistance(f)),
                }
            },
        }
    }
}

proof fn lemma_token_fault_persists(ts: Seq<Seq<char>>, k: int)
    requires
        0 <= k <= ts.len(),
        instructions_of_tokens(ts.take(k)) is Err,
    ensures
        instructions_of_tokens(ts) == instructions_of_tokens(ts.take(k)),
    decreases ts.len() - k,
{
    if k < ts.len() {
        assert(ts.take(k + 1).drop_last() =~= ts.take(k));
        lemma_token_fault_persists(ts, k + 1);
    } else {
        assert(ts.take(k) =~= ts);
    }
}

impl core::str::FromStr for Instructions {
    type Err = ParseError;

    /// Same as [`Instructions::parse`].
    fn from_str(s: &str) -> Result<Instructions, ParseError> {
        Instructions::parse(s)
    }
}

impl Instructions {
    /// Parses tokens of the form `L<distance>` or `R<distance>` separated by
    /// `", "`. The first malformed token fails the whole parse.
    pub fn parse(s: &str) -> (r: Result<Instructions, ParseError>)
        ensures
            match parse_spec(s@) {
                Ok(v) => r is Ok && r->Ok_0.0@ == v,
                Err(kind) => r is Err && r->Err_0.kind == kind,
            },
    {
        let cs = chars_of(s);
        let toks = split_tokens(&cs);
        let ghost ts = tokens(s@);
        let mut v: Vec<Instruction> = Vec::new();
        let mut k: usize = 0;
        while k < toks.len()
            invariant
                k <= toks.len(),
                ts == tokens(s@),
                toks.len() == ts.len(),
                forall|j: int| 0 <= j < toks.len() ==> #[trigger] toks[j]@ == ts[j],
                instructions_of_tokens(ts.take(k as int)) == Ok::<Seq<Instruction>, ParseErrorKind>(v@),
            decreases toks.len() - k,
        {
            assert(ts.take(k + 1).drop_last() =~= ts.take(k as int));
            match Instruction::from_chars(&toks[k]) {
                Ok(i) => {
                    v.push(i);
                },
                Err(kind) => {
                    assert(instructions_of_tokens(ts.take(k + 1)) == Err::<Seq<Instruction>, ParseErrorKind>(kind));
                    proof {
                        lemma_token_fault_persists(ts, k + 1);
                    }
                    return Err(ParseError::from(kind));
                },
            }
            k = k + 1;
        }
        assert(ts.take(k as int) =~= ts);
        Ok(Instructions(v))
    }
}

/// The number that a string of decimal digits writes.
pub open spec fn digits_number(d: Seq<char>) -> nat
    decreases d.len(),
{
    if d.len() == 0 {
        0
    } else {
        digits_number(d.drop_last()) * 10 + digit_value(d.last())
    }
}

/// A token that names a turn and a distance: `L` or `R`, then one or more
/// decimal digits whose number fits in a `u32`.
pub open spec fn well_formed_token(t: Seq<char>) -> bool {
    &&& t.len() >= 2
    &&& turn_of(t[0]) is Some
    &&& forall|i: int| 1 <= i < t.len() ==> is_digit(#[trigger] t[i])
    &&& digits_number(t.drop_first()) <= u32::MAX
}

/// A text whose every piece between separators is a well-formed token.
pub open spec fn well_formed(s: Seq<char>) -> bool {
    forall|j: int| 0 <= j < tokens(s).len() ==> well_formed_token(#[trigger] tokens(s)[j])
}

proof fn lemma_digits_read(d: Seq<char>)
    requires
        forall|i: int| 0 <= i < d.len() ==> is_digit(#[trigger] d[i]),
        digits_number(d) <= u32::MAX,
    ensures
        decimal_value(d) == Ok::<nat, DistanceFault>(digits_number(d)),
    decreases d.len(),
{
    if d.len() > 0 {
        let e = d.drop_last();
        assert forall|i: int| 0 <= i < e.len() implies is_digit(#[trigger] e[i]) by {
            assert(e[i] == d[i]);
        }
        assert(is_digit(d[d.len() - 1]));
        lemma_digits_read(e);
    }
}

proof fn lemma_tokens_read(ts: Seq<Seq<char>>)
    requires
        forall|j: int| 0 <= j < ts.len() ==> well_formed_token(#[trigger] ts[j]),
    ensures
        instructions_of_tokens(ts) is Ok,
        instructions_of_tokens(ts)->Ok_0.len() == ts.len(),
        forall|j: int|
            0 <= j < ts.len() ==> #[trigger] instructions_of_tokens(ts)->Ok_0[j] == (Instruction {
                direction: turn_of(ts[j][0])->0,
                distance: digits_number(ts[j].drop_first()) as u32,
            }),
    decreases ts.len(),
{
    if ts.len() > 0 {
        let rest = ts.drop_last();
        assert forall|j: int| 0 <= j < rest.len() implies well_formed_token(#[trigger] rest[j]) by {
            assert(rest[j] == ts[j]);
        }
        lemma_tokens_read(rest);
        let t = ts.last();
        assert(well_formed_token(ts[ts.len() - 1]));
        let d = t.drop_first();
        assert forall|i: int| 0 <= i < d.len() implies is_digit(#[trigger] d[i]) by {
            assert(d[i] == t[i + 1]);
        }
        assert(d[0] == t[1]);
        lemma_digits_read(d);
    }
}

/// Parsing a well-formed text succeeds, with one instruction per token in
/// order, and equal texts give equal results: the outcome is a function of the
/// text alone.
pub proof fn lemma_parse_total_and_deterministic(s1: Seq<char>, s2: Seq<char>)
    requires
        well_formed(s1),
        s1 == s2,
    ensures
        parse_spec(s1) is Ok,
        parse_spec(s1) == parse_spec(s2),
        parse_spec(s1)->Ok_0.len() == tokens(s1).len(),
        forall|j: int|
            0 <= j < tokens(s1).len() ==> #[trigger] parse_spec(s1)->Ok_0[j] == (Instruction {
                direction: turn_of(tokens(s1)[j][0])->0,
                distance: digits_number(tokens(s1)[j].drop_first()) as u32,
            }),
{
    lemma_tokens_read(tokens(s1));
}
} // verus!
