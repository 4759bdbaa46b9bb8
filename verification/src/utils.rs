//! Actions of an explorer and their text form.

use crate::outside::push_char;
use vstd::prelude::*;

verus! {

/// One thing an explorer does in a room.
#[derive(Clone, Copy, Debug, PartialEq, Eq, Structural)]
pub enum Action {
    /// Press the door with this number.
    Door(usize),
    /// Write this label on the room.
    Mark(usize),
}

/// The character of a decimal digit.
pub open spec fn digit_char(d: nat) -> char {
    if d == 0 {
        '0'
    } else if d == 1 {
        '1'
    } else if d == 2 {
        '2'
    } else if d == 3 {
        '3'
    } else if d == 4 {
        '4'
    } else if d == 5 {
        '5'
    } else if d == 6 {
        '6'
    } else if d == 7 {
        '7'
    } else if d == 8 {
        '8'
    } else {
        '9'
    }
}

/// The decimal digit that a character is, if it is one.
pub open spec fn digit_value(c: char) -> Option<usize> {
    if c == '0' {
        Some(0usize)
    } else if c == '1' {
        Some(1usize)
    } else if c == '2' {
        Some(2usize)
    } else if c == '3' {
        Some(3usize)
    } else if c == '4' {
        Some(4usize)
    } else if c == '5' {
        Some(5usize)
    } else if c == '6' {
        Some(6usize)
    } else if c == '7' {
        Some(7usize)
    } else if c == '8' {
        Some(8usize)
    } else if c == '9' {
        Some(9usize)
    } else {
        None
    }
}

/// A number in decimal digits, without leading zeros.
pub open spec fn decimal_of(n: nat) -> Seq<char>
    decreases n,
{
    if n < 10 {
        seq![digit_char(n)]
    } else {
        decimal_of(n / 10).push(digit_char(n % 10))
    }
}

/// The text of one action: the number of a door, or a label in brackets.
pub open spec fn action_text(a: Action) -> Seq<char> {
    match a {
        Action::Door(d) => decimal_of(d as nat),
        Action::Mark(m) => seq!['['] + decimal_of(m as nat) + seq![']'],
    }
}

/// The texts of the first `n` actions of a list, one after the other.
pub open spec fn actions_text(actions: Seq<Action>, n: int) -> Seq<char>
    decreases n,
{
    if n <= 0 {
        Seq::empty()
    } else {
        actions_text(actions, n - 1) + action_text(actions[n - 1])
    }
}

/// The decimal texts of the first `n` numbers of a list, one after the
/// other.
pub open spec fn numbers_text(numbers: Seq<usize>, n: int) -> Seq<char>
    decreases n,
{
    if n <= 0 {
        Seq::empty()
    } else {
        numbers_text(numbers, n - 1) + decimal_of(numbers[n - 1] as nat)
    }
}

/// Every action there is: the six doors, then the four labels.
pub fn all_actions() -> (actions: Vec<Action>)
    ensures
        actions@ == seq![
            Action::Door(0),
            Action::Door(1),
            Action::Door(2),
            Action::Door(3),
            Action::Door(4),
            Action::Door(5),
            Action::Mark(0),
            Action::Mark(1),
            Action::Mark(2),
            Action::Mark(3),
        ],
{
    let mut actions = all_doors();
    let mut marks = all_marks();
    actions.append(&mut marks);
    proof {
        assert(actions@ =~= seq![
            Action::Door(0),
            Action::Door(1),
            Action::Door(2),
            Action::Door(3),
            Action::Door(4),
            Action::Door(5),
            Action::Mark(0),
            Action::Mark(1),
            Action::Mark(2),
            Action::Mark(3),
        ]);
    }
    actions
}

/// The six doors, in order.
pub fn all_doors() -> (actions: Vec<Action>)
    ensures
        actions@ == seq![
            Action::Door(0),
            Action::Door(1),
            Action::Door(2),
            Action::Door(3),
            Action::Door(4),
            Action::Door(5),
        ],
{
    let mut actions: Vec<Action> = Vec::new();
    actions.push(Action::Door(0));
    actions.push(Action::Door(1));
    actions.push(Action::Door(2));
    actions.push(Action::Door(3));
    actions.push(Action::Door(4));
    actions.push(Action::Door(5));
    proof {
        assert(actions@ =~= seq![
            Action::Door(0),
            Action::Door(1),
            Action::Door(2),
            Action::Door(3),
            Action::Door(4),
            Action::Door(5),
        ]);
    }
    actions
}

/// The four labels, in order.
pub fn all_marks() -> (actions: Vec<Action>)
    ensures
        actions@ == seq![Action::Mark(0), Action::Mark(1), Action::Mark(2), Action::Mark(3)],
{
    let mut actions: Vec<Action> = Vec::new();
    actions.push(Action::Mark(0));
    actions.push(Action::Mark(1));
    actions.push(Action::Mark(2));
    actions.push(Action::Mark(3));
    proof {
        assert(actions@ =~= seq![
            Action::Mark(0),
            Action::Mark(1),
            Action::Mark(2),
            Action::Mark(3),
        ]);
    }
    actions
}

/// The character of a decimal digit.
fn digit_to_char(d: usize) -> (c: char)
    requires
        d < 10,
    ensures
        c == digit_char(d as nat),
{
    if d == 0 {
        '0'
    } else if d == 1 {
        '1'
    } else if d == 2 {
        '2'
    } else if d == 3 {
        '3'
    } else if d == 4 {
        '4'
    } else if d == 5 {
        '5'
    } else if d == 6 {
        '6'
    } else if d == 7 {
        '7'
    } else if d == 8 {
        '8'
    } else {
        '9'
    }
}

/// Writes a number in decimal digits, without leading zeros.
pub fn number_text(n: usize) -> (text: String)
    ensures
        text@ == decimal_of(n as nat),
{
    let mut digits: Vec<char> = Vec::new();
    let mut rest = n;
    let mut more = true;
    while more
        invariant
            more ==> decimal_of(n as nat) == decimal_of(rest as nat) + digits@.reverse(),
            !more ==> decimal_of(n as nat) == digits@.reverse(),
        decreases
                rest + if more {
                    1nat
                } else {
                    0nat
                },
    {
        let ghost before = digits@;
        let ghost whole = rest;
        digits.push(digit_to_char(rest % 10));
        rest = rest / 10;
        proof {
            assert(digits@.reverse() =~= seq![digit_char((whole % 10) as nat)] + before.reverse());
            if whole < 10 {
                assert(decimal_of(whole as nat) + before.reverse() =~= digits@.reverse());
            } else {
                assert(decimal_of(whole as nat) + before.reverse() =~= decimal_of(rest as nat)
                    + digits@.reverse());
            }
        }
        if rest == 0 {
            more = false;
        }
    }
    let mut text = String::new();
    let mut k = digits.len();
    while k > 0
        invariant
            k <= digits.len(),
            text@ == digits@.reverse().take(digits.len() - k),
        decreases k,
    {
        k = k - 1;
        push_char(&mut text, digits[k]);
        proof {
            let r = digits@.reverse();
            assert(r.take(digits.len() - k) =~= r.take(digits.len() - k - 1).push(digits@[k as int]));
        }
    }
    proof {
        assert(digits@.reverse().take(digits.len() as int) =~= digits@.reverse());
    }
    text
}

/// Reads a character as a decimal digit.
fn decimal_digit(c: char) -> (r: Option<usize>)
    ensures
        r == digit_value(c),
{
    if c == '0' {
        Some(0)
    } else if c == '1' {
        Some(1)
    } else if c == '2' {
        Some(2)
    } else if c == '3' {
        Some(3)
    } else if c == '4' {
        Some(4)
    } else if c == '5' {
        Some(5)
    } else if c == '6' {
        Some(6)
    } else if c == '7' {
        Some(7)
    } else if c == '8' {
        Some(8)
    } else if c == '9' {
        Some(9)
    } else {
        None
    }
}

/// The label that character `i` of a text of digits spells.
pub fn get_ith_label(s: &String, i: usize) -> (label: usize)
    requires
        i < s@.len(),
        digit_value(s@[i as int]) is Some,
    ensures
        Some(label) == digit_value(s@[i as int]),
{
    let ch = s.as_str().get_char(i);
    match decimal_digit(ch) {
        Some(label) => label,
        None => 0,
    }
}

/// The labels of a trace as one text, each in decimal.
pub fn query_result_to_string(query_result: &Vec<usize>) -> (text: String)
    ensures
        text@ == numbers_text(query_result@, query_result.len() as int),
{
    let mut text = String::new();
    let mut i: usize = 0;
    while i < query_result.len()
        invariant
            i <= query_result.len(),
            text@ == numbers_text(query_result@, i as int),
        decreases query_result.len() - i,
    {
        let digits = number_text(query_result[i]);
        text.append(digits.as_str());
        i = i + 1;
    }
    text
}

impl Action {
    /// The text of the action: the number of a door, or a label in
    /// brackets.
    pub fn to_string(&self) -> (text: String)
        ensures
            text@ == action_text(*self),
    {
        match self {
            Action::Door(d) => number_text(*d),
            Action::Mark(m) => {
                let mut text = String::new();
                push_char(&mut text, '[');
                let digits = number_text(*m);
                text.append(digits.as_str());
                push_char(&mut text, ']');
                proof {
                    assert(text@ =~= seq!['['] + decimal_of(*m as nat) + seq![']']);
                }
                text
            },
        }
    }

    /// The texts of a list of actions, one after the other.
    pub fn vec_to_str(actions: &[Action]) -> (text: String)
        ensures
            text@ == actions_text(actions@, actions.len() as int),
    {
        let mut text = String::new();
        let mut i: usize = 0;
        while i < actions.len()
            invariant
                i <= actions.len(),
                text@ == actions_text(actions@, i as int),
            decreases actions.len() - i,
        {
            let one = actions[i].to_string();
            text.append(one.as_str());
            i = i + 1;
        }
        text
    }

    /// Reads a text of digits as a list of doors, one per digit.
    pub fn from_string(s: &String) -> (actions: Vec<Action>)
        requires
            forall|i: int| 0 <= i < s@.len() ==> digit_value(#[trigger] s@[i]) is Some,
        ensures
            actions.len() == s@.len(),
            forall|i: int|
                0 <= i < s@.len() ==> #[trigger] actions[i] == Action::Door(digit_value(s@[i])->0),
    {
        let text = s.as_str();
        let n = text.unicode_len();
        let mut actions: Vec<Action> = Vec::new();
        let mut i: usize = 0;
        while i < n
            invariant
                i <= n,
                n == s@.len(),
                text@ == s@,
                actions.len() == i,
                forall|j: int| 0 <= j < s@.len() ==> digit_value(#[trigger] s@[j]) is Some,
                forall|j: int|
                    0 <= j < i ==> #[trigger] actions[j] == Action::Door(digit_value(s@[j])->0),
            decreases n - i,
        {
            match decimal_digit(text.get_char(i)) {
                Some(d) => {
                    actions.push(Action::Door(d));
                },
                None => {
                    actions.push(Action::Door(0));
                },
            }
            i = i + 1;
        }
        actions
    }
}

} // verus!
