//! The text that describes an instance: unsigned numbers, one to a line.

use vstd::prelude::*;
use crate::error::ScheduleError;

verus! {

/// The byte that ends a line.
pub const NEWLINE: u8 = 10;

/// The carriage return.
pub const RETURN: u8 = 13;

/// The plus sign.
pub const PLUS: u8 = 43;

/// The digit 0.
pub const ZERO: u8 = 48;

/// The digit 9.
pub const NINE: u8 = 57;

/// The byte is a decimal digit.
pub open spec fn is_digit(b: u8) -> bool {
    ZERO <= b <= NINE
}

/// The number that the digits `s` spell.
pub open spec fn value_of(s: Seq<u8>) -> int
    decreases s.len(),
{
    if s.len() == 0 {
        0
    } else {
        value_of(s.drop_last()) * 10 + (s.last() - ZERO)
    }
}

/// `s` is one digit or more, and nothing else.
pub open spec fn is_numeral(s: Seq<u8>) -> bool {
    s.len() > 0 && forall|i: int| 0 <= i < s.len() ==> is_digit(#[trigger] s[i])
}

/// `line` without the plus sign that may stand before a number.
pub open spec fn unsigned_part(line: Seq<u8>) -> Seq<u8> {
    if line.len() > 0 && line[0] == PLUS {
        line.drop_first()
    } else {
        line
    }
}

/// The number that `line` spells, where it spells one that a `u32` holds:
/// digits alone, after a plus sign or without.
pub open spec fn number_of(line: Seq<u8>) -> Option<u32> {
    let body = unsigned_part(line);
    if is_numeral(body) && value_of(body) <= u32::MAX {
        Some(value_of(body) as u32)
    } else {
        None
    }
}

/// What a line that has come to its end contributes: nothing where it is
/// empty, else the number it spells.
pub open spec fn closed_line(line: Seq<u8>) -> Option<Seq<u32>> {
    if line.len() == 0 {
        Some(Seq::empty())
    } else {
        match number_of(line) {
            Some(v) => Some(seq![v]),
            None => None,
        }
    }
}

/// The numbers `a` followed by the numbers `b`, where both are there.
pub open spec fn followed_by(a: Option<Seq<u32>>, b: Option<Seq<u32>>) -> Option<Seq<u32>> {
    match (a, b) {
        (Some(x), Some(y)) => Some(x + y),
        _ => None,
    }
}

/// The numbers that `text` spells from byte `from` on, `line` being what
/// has been read of the line at hand: a newline closes the line, a carriage
/// return does not count, any other byte belongs to the line. Nothing is
/// spelled where a line that is not empty spells no number.
pub open spec fn numbers_from(text: Seq<u8>, from: int, line: Seq<u8>) -> Option<Seq<u32>>
    decreases text.len() - from,
{
    if from >= text.len() || from < 0 {
        closed_line(line)
    } else if text[from] == NEWLINE {
        followed_by(closed_line(line), numbers_from(text, from + 1, Seq::empty()))
    } else if text[from] == RETURN {
        numbers_from(text, from + 1, line)
    } else {
        numbers_from(text, from + 1, line.push(text[from]))
    }
}

/// The numbers that the lines of `text` spell.
pub open spec fn numbers_of(text: Seq<u8>) -> Option<Seq<u32>> {
    numbers_from(text, 0, Seq::empty())
}

proof fn lemma_value_grows(s: Seq<u8>)
    requires
        forall|i: int| 0 <= i < s.len() ==> is_digit(#[trigger] s[i]),
    ensures
        value_of(s) >= 0,
        forall|k: int| 0 <= k <= s.len() ==> value_of(s.take(k)) <= value_of(s),
    decreases s.len(),
{
    if s.len() > 0 {
        let rest = s.drop_last();
        assert forall|i: int| 0 <= i < rest.len() implies is_digit(#[trigger] rest[i]) by {
            assert(rest[i] == s[i]);
        }
        lemma_value_grows(rest);
        assert(is_digit(s[s.len() - 1]));
        assert forall|k: int| 0 <= k <= s.len() implies value_of(s.take(k)) <= value_of(s) by {
            if k < s.len() {
                assert(s.take(k) =~= rest.take(k));
            } else {
                assert(s.take(k) =~= s);
            }
        }
    } else {
        assert forall|k: int| 0 <= k <= s.len() implies value_of(s.take(k)) <= value_of(s) by {
            assert(s.take(k) =~= s);
        }
    }
}

/// The number that `line` spells.
pub fn parse_number(line: &Vec<u8>) -> (r: Option<u32>)
    ensures
        r == number_of(line@),
{
    let n: usize = line.len();
    let start: usize = if n > 0 && line[0] == PLUS {
        1
    } else {
        0
    };
    let ghost body = unsigned_part(line@);
    assert(body =~= line@.subrange(start as int, n as int));
    if start == n {
        return None;
    }
    let mut value: u64 = 0;
    let mut i: usize = start;
    assert(body.take(0) =~= Seq::empty());
    while i < n
        invariant
            start <= i <= n,
            n == line@.len(),
            body == line@.subrange(start as int, n as int),
            body == unsigned_part(line@),
            forall|k: int| 0 <= k < i - start ==> is_digit(#[trigger] body[k]),
            value == value_of(body.take(i - start)),
            value <= u32::MAX,
        decreases n - i,
    {
        let b: u8 = line[i];
        assert(body[i - start] == b);
        if b < ZERO || b > NINE {
            assert(!is_digit(body[i - start]));
            assert(!is_numeral(body));
            return None;
        }
        assert(body.take(i - start + 1).drop_last() =~= body.take(i - start));
        assert(body.take(i - start + 1).last() == b);
        let next: u64 = value * 10 + (b - ZERO) as u64;
        if next > 0xffff_ffff {
            proof {
                if is_numeral(body) {
                    lemma_value_grows(body);
                    assert(value_of(body.take(i - start + 1)) <= value_of(body));
                    assert(value_of(body) > u32::MAX);
                }
                assert(number_of(line@).is_none());
            }
            return None;
        }
        value = next;
        i += 1;
    }
    assert(body.take(n - start) =~= body);
    Some(value as u32)
}

/// Reads the numbers of an instance off the text of its file: one unsigned
/// number to a line, carriage returns and empty lines not counting. A line
/// that spells no number that a `u32` holds is out of range.
pub fn read_random_prcpsp(contents: &Vec<u8>) -> (r: Result<Vec<u32>, ScheduleError>)
    ensures
        match r {
            Ok(params) => numbers_of(contents@) == Some(params@),
            Err(e) => e == ScheduleError::ParameterOutOfRange && numbers_of(contents@).is_none(),
        },
{
    let ghost text = contents@;
    let n: usize = contents.len();
    let mut params: Vec<u32> = Vec::new();
    let mut line: Vec<u8> = Vec::new();
    let mut i: usize = 0;
    proof {
        match numbers_of(text) {
            Some(all) => {
                assert(params@ + all =~= all);
            },
            None => {},
        }
    }
    while i < n
        invariant
            i <= n,
            n == text.len(),
            text == contents@,
            numbers_of(text) == followed_by(Some(params@), numbers_from(text, i as int, line@)),
        decreases n - i,
    {
        let b: u8 = contents[i];
        if b == NEWLINE {
            let ghost so_far = params@;
            let ghost rest = numbers_from(text, i + 1, Seq::empty());
            if line.len() != 0 {
                match parse_number(&line) {
                    Some(v) => {
                        params.push(v);
                        proof {
                            match rest {
                                Some(more) => {
                                    assert(so_far + (seq![v] + more) =~= params@ + more);
                                },
                                None => {},
                            }
                        }
                    },
                    None => {
                        return Err(ScheduleError::ParameterOutOfRange);
                    },
                }
            } else {
                proof {
                    match rest {
                        Some(more) => {
                            assert(Seq::<u32>::empty() + more =~= more);
                        },
                        None => {},
                    }
                }
            }
            line = Vec::new();
        } else if b != RETURN {
            line.push(b);
        }
        i += 1;
    }
    if line.len() != 0 {
        match parse_number(&line) {
            Some(v) => {
                params.push(v);
            },
            None => {
                return Err(ScheduleError::ParameterOutOfRange);
            },
        }
    } else {
        assert(params@ + Seq::<u32>::empty() =~= params@);
    }
    Ok(params)
}

} // verus!
