//! Plans as the oracle reads them: a digit presses a door, a digit in
//! brackets writes a label.

use crate::error::SolveError;
use crate::outside::push_char;
use vstd::prelude::*;

verus! {

/// One step of a labelled plan. Every step yields one observation.
#[derive(Clone, Copy, Debug, PartialEq, Eq, Structural)]
pub enum PlanStep {
    /// Press the door with this number.
    Move(usize),
    /// Overwrite the label of the current room.
    ChangeLabel(usize),
}

/// The door that a character names, if it names one.
pub open spec fn door_of(c: char) -> Option<usize> {
    if c == '0' {
        Some(0usize)
    } else if c == '1' {
        Some(1usize)
    } else if c == '2' {
        Some(2usize)
    } else if c == '3' {
        Some(3usize)
    } else if c == '4' {
        Some(4usize)
    } else if c == '5' {
        Some(5usize)
    } else {
        None
    }
}

/// The label that a character names, if it names one.
pub open spec fn label_of(c: char) -> Option<usize> {
    if c == '4' || c == '5' {
        None
    } else {
        door_of(c)
    }
}

/// The steps that a plan text spells, read from position `at` on: a door
/// digit is a move, `[k]` writes label `k`; `None` if anything else occurs.
pub open spec fn steps_from(s: Seq<char>, at: int) -> Option<Seq<PlanStep>>
    decreases s.len() - at,
{
    if at < 0 || at >= s.len() {
        Some(Seq::empty())
    } else if s[at] == '[' {
        if at + 2 < s.len() && label_of(s[at + 1]) is Some && s[at + 2] == ']' {
            match steps_from(s, at + 3) {
                Some(rest) => Some(seq![PlanStep::ChangeLabel(label_of(s[at + 1])->0)] + rest),
                None => None,
            }
        } else {
            None
        }
    } else if door_of(s[at]) is Some {
        match steps_from(s, at + 1) {
            Some(rest) => Some(seq![PlanStep::Move(door_of(s[at])->0)] + rest),
            None => None,
        }
    } else {
        None
    }
}

/// The character that stands for a door below six.
pub open spec fn door_char(d: usize) -> char {
    if d == 0 {
        '0'
    } else if d == 1 {
        '1'
    } else if d == 2 {
        '2'
    } else if d == 3 {
        '3'
    } else if d == 4 {
        '4'
    } else {
        '5'
    }
}

/// The doors-only text of a list of steps: its moves, in order.
pub open spec fn doors_only(steps: Seq<PlanStep>) -> Seq<char>
    decreases steps.len(),
{
    if steps.len() == 0 {
        Seq::empty()
    } else {
        match steps.last() {
            PlanStep::Move(d) => doors_only(steps.drop_last()).push(door_char(d)),
            PlanStep::ChangeLabel(_) => doors_only(steps.drop_last()),
        }
    }
}

/// Whether a step names a door below six or a label below four.
pub open spec fn step_ok(step: PlanStep) -> bool {
    match step {
        PlanStep::Move(d) => d < 6,
        PlanStep::ChangeLabel(k) => k < 4,
    }
}

/// Whether every character of a text is a digit below `limit`.
pub open spec fn digits_below(s: Seq<char>, limit: usize) -> bool {
    forall|i: int| 0 <= i < s.len() ==> door_of(#[trigger] s[i]) is Some && door_of(s[i])->0 < limit
}

/// The numbers that the digits of a text spell, one per character.
pub open spec fn digits_of(s: Seq<char>) -> Seq<usize> {
    Seq::new(s.len(), |i: int| door_of(s[i])->0)
}

/// Reads a text of digits below `limit`, one number per character; `None`
/// where a character is anything else.
pub fn parse_digits(text: &str, limit: usize) -> (r: Option<Vec<usize>>)
    ensures
        r is Some <==> digits_below(text@, limit),
        r is Some ==> r->0@ == digits_of(text@),
{
    let n = text.unicode_len();
    let mut digits: Vec<usize> = Vec::new();
    let mut i: usize = 0;
    while i < n
        invariant
            n == text@.len(),
            i <= n,
            digits.len() == i,
            forall|j: int|
                0 <= j < i ==> door_of(#[trigger] text@[j]) is Some && door_of(text@[j])->0 < limit
                    && digits[j] == door_of(text@[j])->0,
        decreases n - i,
    {
        match door_digit(text.get_char(i)) {
            Some(d) => {
                if d >= limit {
                    return None;
                }
                digits.push(d);
            },
            None => {
                return None;
            },
        }
        i = i + 1;
    }
    proof {
        assert(digits@ =~= digits_of(text@));
    }
    Some(digits)
}

/// Reads a character as a door.
fn door_digit(c: char) -> (r: Option<usize>)
    ensures
        r == door_of(c),
{
    if c == '0' {
        Some(0)
    } else if c == '1' {
        Some(1)
    } else if c == '2' {
        Some(2)
    } else if c == '3' {
        Some(3)
    } else if c == '4' {
        Some(4)
    } else if c == '5' {
        Some(5)
    } else {
        None
    }
}

/// Splits a labelled plan into its steps and its doors-only text.
///
/// A door digit `0`..`5` is a move and `[k]` with `k` in `0`..`3` writes a
/// label; any other character, or a bracket that is cut short, makes the
/// whole plan malformed.
pub fn parse_full_plan(plan_str: &str) -> (r: Result<(Vec<PlanStep>, String), SolveError>)
    ensures
        match r {
            Ok((steps, doors)) => steps_from(plan_str@, 0) == Some(steps@) && doors@ == doors_only(
                steps@,
            ),
            Err(e) => e == SolveError::MalformedPlan && steps_from(plan_str@, 0) is None,
        },
{
    let n = plan_str.unicode_len();
    let mut steps: Vec<PlanStep> = Vec::new();
    let mut doors = String::new();
    let mut i: usize = 0;
    while i < n
        invariant
            n == plan_str@.len(),
            i <= n,
            doors@ == doors_only(steps@),
            steps_from(plan_str@, 0) == match steps_from(plan_str@, i as int) {
                Some(rest) => Some(steps@ + rest),
                None => None,
            },
        decreases n - i,
    {
        let ghost before = steps@;
        let c = plan_str.get_char(i);
        if c == '[' {
            if n - i < 3 {
                return Err(SolveError::MalformedPlan);
            }
            let k = door_digit(plan_str.get_char(i + 1));
            let close = plan_str.get_char(i + 2);
            match k {
                Some(label) => {
                    if label >= 4 || close != ']' {
                        return Err(SolveError::MalformedPlan);
                    }
                    steps.push(PlanStep::ChangeLabel(label));
                    i = i + 3;
                },
                None => {
                    return Err(SolveError::MalformedPlan);
                },
            }
        } else {
            match door_digit(c) {
                Some(d) => {
                    steps.push(PlanStep::Move(d));
                    push_char(&mut doors, c);
                    i = i + 1;
                },
                None => {
                    return Err(SolveError::MalformedPlan);
                },
            }
        }
        proof {
            assert(steps@.drop_last() =~= before);
            match steps_from(plan_str@, i as int) {
                Some(rest) => {
                    assert(before + (seq![steps@.last()] + rest) =~= steps@ + rest);
                },
                None => {},
            }
        }
    }
    proof {
        assert(steps@ + Seq::<PlanStep>::empty() =~= steps@);
    }
    Ok((steps, doors))
}

/// Every step that a well-formed plan spells names a door below six or a
/// label below four.
pub proof fn lemma_parsed_steps_in_range(s: Seq<char>, at: int)
    requires
        steps_from(s, at) is Some,
    ensures
        forall|i: int| 0 <= i < steps_from(s, at)->0.len() ==> step_ok(#[trigger] steps_from(s, at)->0[i]),
    decreases s.len() - at,
{
    if at < 0 || at >= s.len() {
    } else if s[at] == '[' {
        lemma_parsed_steps_in_range(s, at + 3);
    } else {
        lemma_parsed_steps_in_range(s, at + 1);
    }
}

/// The text of one step: the digit of a door, or the digit of a label in
/// brackets.
pub open spec fn step_text(step: PlanStep) -> Seq<char> {
    match step {
        PlanStep::Move(d) => seq![door_char(d)],
        PlanStep::ChangeLabel(k) => seq!['[', door_char(k), ']'],
    }
}

/// The text of a list of steps: the texts of its steps, one after the
/// other.
pub open spec fn steps_text(steps: Seq<PlanStep>) -> Seq<char>
    decreases steps.len(),
{
    if steps.len() == 0 {
        Seq::empty()
    } else {
        steps_text(steps.drop_last()) + step_text(steps.last())
    }
}

/// The text of a list of steps starts with the text of its first step.
pub proof fn lemma_steps_text_front(first: PlanStep, rest: Seq<PlanStep>)
    ensures
        steps_text(seq![first] + rest) == step_text(first) + steps_text(rest),
    decreases rest.len(),
{
    let all = seq![first] + rest;
    if rest.len() == 0 {
        assert(all.drop_last() =~= Seq::<PlanStep>::empty());
        assert(all.last() == first);
        assert(steps_text(all.drop_last()) =~= Seq::<char>::empty());
        assert(steps_text(rest) =~= Seq::<char>::empty());
        assert(steps_text(all) =~= step_text(first) + steps_text(rest));
    } else {
        lemma_steps_text_front(first, rest.drop_last());
        assert(all.drop_last() =~= seq![first] + rest.drop_last());
        assert(all.last() == rest.last());
        assert(steps_text(all) =~= step_text(first) + steps_text(rest));
    }
}

/// What a text spells from some position on depends on the text from that
/// position on only.
pub proof fn lemma_steps_from_tail(s: Seq<char>, at: int, t: Seq<char>, from: int)
    requires
        0 <= at <= s.len(),
        0 <= from <= t.len(),
        s.skip(at) == t.skip(from),
    ensures
        steps_from(s, at) == steps_from(t, from),
    decreases s.len() - at,
{
    assert(s.len() - at == t.len() - from) by {
        assert(s.skip(at).len() == t.skip(from).len());
    }
    let a = s.skip(at);
    let b = t.skip(from);
    if at < s.len() {
        assert(a[0] == s[at]);
        assert(b[0] == t[from]);
        if s[at] == '[' {
            if at + 2 < s.len() {
                assert(a[1] == s[at + 1]);
                assert(b[1] == t[from + 1]);
                assert(a[2] == s[at + 2]);
                assert(b[2] == t[from + 2]);
                if label_of(s[at + 1]) is Some && s[at + 2] == ']' {
                    assert(s.skip(at + 3) =~= s.skip(at).skip(3));
                    assert(t.skip(from + 3) =~= t.skip(from).skip(3));
                    lemma_steps_from_tail(s, at + 3, t, from + 3);
                }
            }
        } else if door_of(s[at]) is Some {
            assert(s.skip(at + 1) =~= s.skip(at).skip(1));
            assert(t.skip(from + 1) =~= t.skip(from).skip(1));
            lemma_steps_from_tail(s, at + 1, t, from + 1);
        }
    }
}

/// The text of a list of steps spells those steps: reading what was
/// written gives back what was meant.
pub proof fn lemma_text_spells_steps(steps: Seq<PlanStep>)
    requires
        forall|i: int| 0 <= i < steps.len() ==> step_ok(#[trigger] steps[i]),
    ensures
        steps_from(steps_text(steps), 0) == Some(steps),
    decreases steps.len(),
{
    let text = steps_text(steps);
    if steps.len() == 0 {
        assert(steps =~= Seq::<PlanStep>::empty());
    } else {
        let first = steps[0];
        let rest = steps.drop_first();
        assert(steps =~= seq![first] + rest);
        lemma_steps_text_front(first, rest);
        lemma_text_spells_steps(rest);
        let head = step_text(first);
        let tail = steps_text(rest);
        assert(text == head + tail);
        assert(step_ok(first));
        assert((head + tail).skip(head.len() as int) =~= tail.skip(0));
        lemma_steps_from_tail(text, head.len() as int, tail, 0);
        match first {
            PlanStep::Move(d) => {
                assert(text[0] == door_char(d));
                assert(door_of(door_char(d)) == Some(d));
            },
            PlanStep::ChangeLabel(k) => {
                assert(text[0] == '[');
                assert(text[1] == door_char(k));
                assert(text[2] == ']');
                assert(label_of(door_char(k)) == Some(k));
            },
        }
    }
}

/// The character of a door or a label.
fn digit_for(d: usize) -> (c: char)
    requires
        d < 6,
    ensures
        c == door_char(d),
{
    if d == 0 {
        '0'
    } else if d == 1 {
        '1'
    } else if d == 2 {
        '2'
    } else if d == 3 {
        '3'
    } else if d == 4 {
        '4'
    } else {
        '5'
    }
}

/// Writes a list of steps as a plan; a step that names no door of the six,
/// or no label of the four, makes the list malformed. What is written
/// reads back as the steps given.
pub fn plan_text(steps: &Vec<PlanStep>) -> (r: Result<String, SolveError>)
    ensures
        match r {
            Ok(text) => {
                &&& forall|i: int| 0 <= i < steps.len() ==> step_ok(#[trigger] steps[i])
                &&& text@ == steps_text(steps@)
                &&& steps_from(text@, 0) == Some(steps@)
            },
            Err(e) => e == SolveError::MalformedPlan && exists|i: int|
                0 <= i < steps.len() && !step_ok(#[trigger] steps[i]),
        },
{
    let mut text = String::new();
    let mut i: usize = 0;
    while i < steps.len()
        invariant
            i <= steps.len(),
            forall|j: int| 0 <= j < i ==> step_ok(#[trigger] steps[j]),
            text@ == steps_text(steps@.take(i as int)),
        decreases steps.len() - i,
    {
        proof {
            assert(steps@.take(i + 1).drop_last() =~= steps@.take(i as int));
            assert(steps@.take(i + 1).last() == steps@[i as int]);
        }
        match steps[i] {
            PlanStep::Move(d) => {
                if d >= 6 {
                    proof {
                        assert(!step_ok(steps[i as int]));
                    }
                    return Err(SolveError::MalformedPlan);
                }
                push_char(&mut text, digit_for(d));
                proof {
                    assert(text@ =~= steps_text(steps@.take(i as int)) + seq![door_char(d)]);
                }
            },
            PlanStep::ChangeLabel(k) => {
                if k >= 4 {
                    proof {
                        assert(!step_ok(steps[i as int]));
                    }
                    return Err(SolveError::MalformedPlan);
                }
                push_char(&mut text, '[');
                push_char(&mut text, digit_for(k));
                push_char(&mut text, ']');
                proof {
                    assert(text@ =~= steps_text(steps@.take(i as int)) + seq![
                        '[',
                        door_char(k),
                        ']',
                    ]);
                }
            },
        }
        i = i + 1;
    }
    proof {
        assert(steps@.take(steps.len() as int) =~= steps@);
        lemma_text_spells_steps(steps@);
    }
    Ok(text)
}

} // verus!
