use vstd::prelude::*;
use vstd::string::*;
use crate::model::{RankedCandidate, ReleaseGroupSummary};

verus! {

/// What the user's answer asks for.
#[derive(PartialEq, Eq, Structural, Clone, Copy, Debug)]
pub enum Choice {
    /// The candidate with this 1-based rank.
    Rank(usize),
    /// Stop the program without an error.
    Quit,
}

/// Why an answer selects nothing.
#[derive(PartialEq, Eq, Structural, Clone, Copy, Debug)]
pub enum SelectionError {
    /// The answer is not a decimal number.
    NotANumber,
    /// The number names no displayed candidate.
    OutOfRange,
}

pub open spec fn is_digit(c: char) -> bool {
    48 <= (c as u32) && (c as u32) <= 57
}

pub open spec fn all_digits(s: Seq<char>) -> bool {
    forall|i: int| 0 <= i < s.len() ==> is_digit(#[trigger] s[i])
}

/// The number that the decimal digits `s` write.
pub open spec fn decimal_value(s: Seq<char>) -> int
    decreases s.len(),
{
    if s.len() == 0 {
        0
    } else {
        decimal_value(s.drop_last()) * 10 + (s.last() as u32 - 48)
    }
}

/// The meaning of the answer `input` when `count` candidates are shown: empty picks
/// rank 1, "0" quits, any other decimal number picks that rank.
pub open spec fn choice_spec(input: Seq<char>, count: nat) -> Result<Choice, SelectionError> {
    if input.len() == 0 {
        if count >= 1 {
            Ok(Choice::Rank(1))
        } else {
            Err(SelectionError::OutOfRange)
        }
    } else if input.len() == 1 && input[0] == '0' {
        Ok(Choice::Quit)
    } else if !all_digits(input) {
        Err(SelectionError::NotANumber)
    } else if 1 <= decimal_value(input) <= count {
        Ok(Choice::Rank(decimal_value(input) as usize))
    } else {
        Err(SelectionError::OutOfRange)
    }
}

/// Reads the user's answer to a list of `count` candidates.
pub fn parse_choice(input: &str, count: usize) -> (r: Result<Choice, SelectionError>)
    ensures
        r == choice_spec(input@, count as nat),
{
    let n = input.unicode_len();
    if n == 0 {
        if count >= 1 {
            return Ok(Choice::Rank(1));
        } else {
            return Err(SelectionError::OutOfRange);
        }
    }
    if n == 1 && input.get_char(0) == '0' {
        return Ok(Choice::Quit);
    }
    let ghost s = input@;
    let mut acc: u128 = 0;
    let mut over = false;
    let mut i: usize = 0;
    while i < n
        invariant
            n == s.len(),
            s == input@,
            i <= n,
            all_digits(s.take(i as int)),
            over ==> decimal_value(s.take(i as int)) > count,
            !over ==> acc == decimal_value(s.take(i as int)) && acc <= count,
        decreases n - i,
    {
        let c = input.get_char(i);
        let code = c as u32;
        if code < 48 || code > 57 {
            proof {
                assert(!is_digit(s[i as int]));
                assert(!all_digits(s));
            }
            return Err(SelectionError::NotANumber);
        }
        proof {
            assert(s.take(i as int + 1).drop_last() =~= s.take(i as int));
            assert(s.take(i as int + 1).last() == c);
        }
        if !over {
            let next = acc * 10 + (code - 48) as u128;
            if next > count as u128 {
                over = true;
            } else {
                acc = next;
            }
        }
        proof {
            assert forall|j: int| 0 <= j < i + 1 implies is_digit(#[trigger] s.take(i as int + 1)[j]) by {
                if j < i {
                    assert(s.take(i as int + 1)[j] == s.take(i as int)[j]);
                }
            }
        }
        i = i + 1;
    }
    proof {
        assert(s.take(n as int) =~= s);
    }
    if over {
        Err(SelectionError::OutOfRange)
    } else if acc >= 1 {
        Ok(Choice::Rank(acc as usize))
    } else {
        Err(SelectionError::OutOfRange)
    }
}

/// The outcome of the selection step.
pub enum Selection {
    Chosen(RankedCandidate),
    Quit,
}

/// Applies the answer `input` to the displayed `candidates`.
pub fn select(candidates: Vec<RankedCandidate>, input: &str) -> (r: Result<Selection, SelectionError>)
    ensures
        match choice_spec(input@, candidates.len() as nat) {
            Ok(Choice::Rank(n)) => r matches Ok(Selection::Chosen(c)) && c == candidates@[n - 1],
            Ok(Choice::Quit) => r matches Ok(Selection::Quit),
            Err(e) => r == Err::<Selection, SelectionError>(e),
        },
{
    let mut candidates = candidates;
    match parse_choice(input, candidates.len()) {
        Ok(Choice::Rank(n)) => Ok(Selection::Chosen(candidates.remove(n - 1))),
        Ok(Choice::Quit) => Ok(Selection::Quit),
        Err(e) => Err(e),
    }
}

/// The labels of a release-group's types: the primary type, or "none", then the
/// secondary types in order.
pub fn type_labels(s: &ReleaseGroupSummary) -> (r: Vec<String>)
    ensures
        r@.len() == s.secondary_types@.len() + 1,
        r@[0]@ == (match s.primary_type {
            Some(t) => t@,
            None => "none"@,
        }),
        forall|i: int| 0 <= i < s.secondary_types@.len() ==> r@[i + 1]@ == (#[trigger] s.secondary_types@[i])@,
{
    let mut r: Vec<String> = Vec::new();
    match &s.primary_type {
        Some(t) => r.push(t.clone()),
        None => r.push(String::from_str("none")),
    }
    let mut i: usize = 0;
    while i < s.secondary_types.len()
        invariant
            i <= s.secondary_types@.len(),
            r@.len() == i + 1,
            r@[0]@ == (match s.primary_type {
                Some(t) => t@,
                None => "none"@,
            }),
            forall|j: int| 0 <= j < i ==> r@[j + 1]@ == (#[trigger] s.secondary_types@[j])@,
        decreases s.secondary_types@.len() - i,
    {
        r.push(s.secondary_types[i].clone());
        i = i + 1;
    }
    r
}

} // verus!
