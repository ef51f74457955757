//! Regular expressions of a tokenizer's parts: which of them plainly never match an empty text, and
//! which never move the start of a match.

use vstd::prelude::*;

use crate::text::chars_of;

verus! {

/// The position behind a class of characters whose inside goes on at `j`.
pub open spec fn class_rest(s: Seq<char>, j: int) -> Option<int>
    decreases s.len() - j,
{
    if j < 0 || j >= s.len() || s[j] == '[' {
        None
    } else if s[j] == ']' {
        Some(j + 1)
    } else if s[j] == '\\' {
        if j + 1 < s.len() {
            class_rest(s, j + 2)
        } else {
            None
        }
    } else {
        class_rest(s, j + 1)
    }
}

/// Where the inside of a class of characters begins: behind the bracket, and behind the sign that
/// turns the class round.
pub open spec fn class_inside(s: Seq<char>, i: int) -> int {
    if i + 1 < s.len() && s[i + 1] == '^' {
        i + 2
    } else {
        i + 1
    }
}

/// The position behind a class of characters that begins at `i`: not empty, and with no other
/// class in it.
pub open spec fn class_end(s: Seq<char>, i: int) -> Option<int> {
    let j = class_inside(s, i);
    if j < s.len() && s[j] != ']' {
        class_rest(s, j)
    } else {
        None
    }
}

/// From `i` on there is neither a choice nor a group.
pub open spec fn is_straight(s: Seq<char>, i: int) -> bool
    decreases s.len() - i,
{
    if i < 0 || i >= s.len() {
        true
    } else if s[i] == '|' || s[i] == '(' {
        false
    } else if s[i] == '\\' {
        if i + 1 < s.len() {
            is_straight(s, i + 2)
        } else {
            true
        }
    } else if s[i] == '[' {
        match class_end(s, i) {
            Some(e) => if i < e <= s.len() {
                is_straight(s, e)
            } else {
                false
            },
            None => false,
        }
    } else {
        is_straight(s, i + 1)
    }
}

/// A character that says how often what stands before it may come.
pub open spec fn counts(c: char) -> bool {
    c == '*' || c == '+' || c == '?' || c == '{'
}

/// A character that, behind a backslash, stands for one character of the text.
pub open spec fn escapes(c: char) -> bool {
    c == 's' || c == 'S' || c == 'd' || c == 'D' || c == 'w' || c == 'W' || c == 'n' || c == 't'
        || c == 'r' || c == '.' || c == '*' || c == '+' || c == '?' || c == '(' || c == ')' || c
        == '[' || c == ']' || c == '{' || c == '}' || c == '|' || c == '^' || c == '$' || c == '\\'
        || c == '/' || c == '-'
}

/// The position behind the first thing of a pattern, if that thing stands for one character.
pub open spec fn first_end(s: Seq<char>) -> Option<int> {
    if s.len() == 0 {
        None
    } else if s[0] == '[' {
        class_end(s, 0)
    } else if s[0] == '\\' {
        if s.len() > 1 && escapes(s[1]) {
            Some(2)
        } else {
            None
        }
    } else if counts(s[0]) || s[0] == '^' || s[0] == '$' || s[0] == '|' || s[0] == '(' || s[0]
        == ')' || s[0] == '}' {
        None
    } else {
        Some(1)
    }
}

/// The position behind a count in braces whose inside goes on at `j`.
pub open spec fn brace_end(s: Seq<char>, j: int) -> Option<int>
    decreases s.len() - j,
{
    if j < 0 || j >= s.len() {
        None
    } else if s[j] == '}' {
        Some(j + 1)
    } else if ('0' <= s[j] && s[j] <= '9') || s[j] == ',' {
        brace_end(s, j + 1)
    } else {
        None
    }
}

/// The position behind what says at `e` how often the first thing comes, if that is at least once.
pub open spec fn count_end(s: Seq<char>, e: int) -> Option<int> {
    if e >= s.len() || !counts(s[e]) {
        Some(e)
    } else if s[e] == '+' {
        Some(e + 1)
    } else if s[e] == '{' && e + 1 < s.len() && '1' <= s[e + 1] && s[e + 1] <= '9' {
        brace_end(s, e + 1)
    } else {
        None
    }
}

/// A pattern that plainly takes at least one character: its first thing stands for a character
/// that comes at least once, and there is neither a choice nor a group behind it.
pub open spec fn takes_text(s: Seq<char>) -> bool {
    match first_end(s) {
        Some(e) => match count_end(s, e) {
            Some(k) => !(k < s.len() && counts(s[k])) && is_straight(s, k),
            None => false,
        },
        None => false,
    }
}

/// From `i` on nothing moves the start of a match: there is no `\K`.
pub open spec fn keeps_start(s: Seq<char>, i: int) -> bool
    decreases s.len() - i,
{
    if i < 0 || i + 1 >= s.len() {
        true
    } else if s[i] == '\\' {
        if s[i + 1] == 'K' {
            false
        } else if i + 2 <= s.len() {
            keeps_start(s, i + 2)
        } else {
            true
        }
    } else {
        keeps_start(s, i + 1)
    }
}

/// Whether nothing in a pattern moves the start of a match.
pub fn never_moves(pattern: &str) -> (b: bool)
    ensures
        b == keeps_start(pattern@, 0),
{
    let s = chars_of(pattern);
    let n: usize = s.len();
    let mut i: usize = 0;
    while n - i > 1
        invariant
            i <= n == s@.len(),
            s@ == pattern@,
            keeps_start(pattern@, 0) == keeps_start(pattern@, i as int),
        decreases n - i,
    {
        if s[i] == '\\' {
            if s[i + 1] == 'K' {
                return false;
            }
            i = i + 2;
        } else {
            i = i + 1;
        }
    }
    true
}

fn find_class_end(s: &Vec<char>, i: usize) -> (r: Option<usize>)
    requires
        i < s@.len(),
    ensures
        match r {
            Some(e) => class_end(s@, i as int) == Some(e as int) && i < e <= s@.len(),
            None => class_end(s@, i as int) is None,
        },
{
    let n: usize = s.len();
    let mut j: usize = if i + 1 < n && s[i + 1] == '^' {
        i + 2
    } else {
        i + 1
    };
    if j >= n || s[j] == ']' {
        return None;
    }
    let ghost first = j as int;
    while j < n
        invariant
            i < j,
            n == s@.len(),
            class_rest(s@, first) == class_rest(s@, j as int),
            class_end(s@, i as int) == class_rest(s@, first),
        decreases n - j,
    {
        let c = s[j];
        if c == '[' {
            return None;
        }
        if c == ']' {
            return Some(j + 1);
        }
        if c == '\\' {
            if n - j < 2 {
                return None;
            }
            j = j + 2;
        } else {
            j = j + 1;
        }
    }
    None
}

fn runs_straight(s: &Vec<char>, from: usize) -> (b: bool)
    ensures
        b == is_straight(s@, from as int),
{
    let n: usize = s.len();
    let mut i: usize = from;
    while i < n
        invariant
            n == s@.len(),
            is_straight(s@, from as int) == is_straight(s@, i as int),
        decreases n - i,
    {
        let c = s[i];
        if c == '|' || c == '(' {
            return false;
        }
        if c == '\\' {
            if n - i < 2 {
                return true;
            }
            i = i + 2;
        } else if c == '[' {
            match find_class_end(s, i) {
                Some(e) => {
                    i = e;
                },
                None => return false,
            }
        } else {
            i = i + 1;
        }
    }
    true
}

fn is_count(c: char) -> (b: bool)
    ensures
        b == counts(c),
{
    c == '*' || c == '+' || c == '?' || c == '{'
}

fn is_escape(c: char) -> (b: bool)
    ensures
        b == escapes(c),
{
    c == 's' || c == 'S' || c == 'd' || c == 'D' || c == 'w' || c == 'W' || c == 'n' || c == 't'
        || c == 'r' || c == '.' || c == '*' || c == '+' || c == '?' || c == '(' || c == ')' || c
        == '[' || c == ']' || c == '{' || c == '}' || c == '|' || c == '^' || c == '$' || c == '\\'
        || c == '/' || c == '-'
}

fn find_first_end(s: &Vec<char>) -> (r: Option<usize>)
    ensures
        match r {
            Some(e) => first_end(s@) == Some(e as int) && e <= s@.len(),
            None => first_end(s@) is None,
        },
{
    if s.len() == 0 {
        return None;
    }
    let c = s[0];
    if c == '[' {
        find_class_end(s, 0)
    } else if c == '\\' {
        if s.len() > 1 && is_escape(s[1]) {
            Some(2)
        } else {
            None
        }
    } else if is_count(c) || c == '^' || c == '$' || c == '|' || c == '(' || c == ')' || c == '}' {
        None
    } else {
        Some(1)
    }
}

fn find_brace_end(s: &Vec<char>, from: usize) -> (r: Option<usize>)
    ensures
        match r {
            Some(e) => brace_end(s@, from as int) == Some(e as int) && e <= s@.len(),
            None => brace_end(s@, from as int) is None,
        },
{
    let n: usize = s.len();
    let mut j: usize = from;
    while j < n
        invariant
            n == s@.len(),
            brace_end(s@, from as int) == brace_end(s@, j as int),
        decreases n - j,
    {
        let c = s[j];
        if c == '}' {
            return Some(j + 1);
        }
        if !(('0' <= c && c <= '9') || c == ',') {
            return None;
        }
        j = j + 1;
    }
    None
}

/// Whether a pattern plainly takes at least one character.
pub fn never_empty(pattern: &str) -> (b: bool)
    ensures
        b == takes_text(pattern@),
{
    let s = chars_of(pattern);
    let n: usize = s.len();
    let e = match find_first_end(&s) {
        Some(e) => e,
        None => return false,
    };
    let k = if e >= n || !is_count(s[e]) {
        e
    } else if s[e] == '+' {
        e + 1
    } else if s[e] == '{' && n - e > 1 && '1' <= s[e + 1] && s[e + 1] <= '9' {
        match find_brace_end(&s, e + 1) {
            Some(k) => k,
            None => return false,
        }
    } else {
        return false;
    };
    !(k < n && is_count(s[k])) && runs_straight(&s, k)
}

/// A pattern without escapes keeps the start of what it finds, and one with the escape that moves
/// it does not, wherever that stands.
pub proof fn law_moved_starts_are_noticed(a: Seq<char>, b: Seq<char>)
    requires
        forall|i: int| 0 <= i < a.len() ==> #[trigger] a[i] != '\\',
    ensures
        keeps_start(a, 0),
        !keeps_start(a + seq!['\\', 'K'] + b, 0),
{
    lemma_no_escape(a, 0);
    lemma_escape_ahead(a, b, 0);
}

proof fn lemma_no_escape(a: Seq<char>, i: int)
    requires
        forall|i: int| 0 <= i < a.len() ==> #[trigger] a[i] != '\\',
        0 <= i,
    ensures
        keeps_start(a, i),
    decreases a.len() - i,
{
    if i < a.len() {
        assert(a[i] != '\\');
        lemma_no_escape(a, i + 1);
    }
}

proof fn lemma_escape_ahead(a: Seq<char>, b: Seq<char>, i: int)
    requires
        forall|i: int| 0 <= i < a.len() ==> #[trigger] a[i] != '\\',
        0 <= i <= a.len(),
    ensures
        !keeps_start(a + seq!['\\', 'K'] + b, i),
    decreases a.len() - i,
{
    let s = a + seq!['\\', 'K'] + b;
    if i < a.len() {
        assert(s[i] == a[i]);
        lemma_escape_ahead(a, b, i + 1);
    } else {
        assert(s[i] == '\\' && s[i + 1] == 'K');
    }
}

/// A pattern of letters and digits alone finds no empty text; one that begins with a character
/// that may be left out can, and so can an empty one or one with a choice.
pub proof fn law_patterns_that_may_be_empty_are_noticed(c: char, rest: Seq<char>)
    requires
        'a' <= c <= 'z' || 'A' <= c <= 'Z' || '0' <= c <= '9',
    ensures
        !takes_text(Seq::empty()),
        !takes_text(seq![c, '*'] + rest),
        !takes_text(seq![c, '?'] + rest),
        !takes_text(seq![c, '|'] + rest),
        (forall|i: int| #![trigger rest[i]]
            0 <= i < rest.len() ==> 'a' <= rest[i] <= 'z' || 'A' <= rest[i] <= 'Z' || '0' <= rest[i]
                <= '9') ==> takes_text(seq![c] + rest),
{
    let s = seq![c] + rest;
    let star = seq![c, '*'] + rest;
    let maybe = seq![c, '?'] + rest;
    let either = seq![c, '|'] + rest;
    assert(star[0] == c && star[1] == '*');
    assert(maybe[0] == c && maybe[1] == '?');
    assert(either[0] == c && either[1] == '|');
    assert(count_end(either, 1) == Some(1int));
    assert(!is_straight(either, 1));
    if forall|i: int| #![trigger rest[i]]
        0 <= i < rest.len() ==> 'a' <= rest[i] <= 'z' || 'A' <= rest[i] <= 'Z' || '0' <= rest[i]
            <= '9' {
        assert forall|i: int| #![trigger s[i]]
            0 <= i < s.len() implies 'a' <= s[i] <= 'z' || 'A' <= s[i] <= 'Z' || '0' <= s[i]
                <= '9' by {
            if i > 0 {
                assert(s[i] == rest[i - 1]);
            }
        }
        assert(s[0] == c);
        lemma_plain_is_straight(s, 1);
        assert(s.len() > 1 ==> !counts(s[1]));
        assert(count_end(s, 1) == Some(1int));
    }
}

proof fn lemma_plain_is_straight(s: Seq<char>, i: int)
    requires
        0 <= i,
        forall|i: int| #![trigger s[i]]
            0 <= i < s.len() ==> 'a' <= s[i] <= 'z' || 'A' <= s[i] <= 'Z' || '0' <= s[i] <= '9',
    ensures
        is_straight(s, i),
    decreases s.len() - i,
{
    if i < s.len() {
        let c = s[i];
        lemma_plain_is_straight(s, i + 1);
    }
}

} // verus!
