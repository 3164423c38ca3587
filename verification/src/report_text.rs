//! Text produced for people and pages: escaping data embedded in an HTML `<script>`
//! element, and the signed counts of a route comparison.

use vstd::prelude::*;

use crate::text::push_char;
use vstd::std_specs::iter::IteratorSpec;
use vstd::string::StringExecFns;

verus! {

broadcast use vstd::string::group_string_axioms;

/// What a character of script data becomes: `&`, `<`, `>`, and the line and paragraph
/// separators U+2028 and U+2029 are written as JSON `\uXXXX` escapes.
pub open spec fn escape_char(c: char) -> Seq<char> {
    if c == '&' {
        seq!['\\', 'u', '0', '0', '2', '6']
    } else if c == '<' {
        seq!['\\', 'u', '0', '0', '3', 'c']
    } else if c == '>' {
        seq!['\\', 'u', '0', '0', '3', 'e']
    } else if c == '\u{2028}' {
        seq!['\\', 'u', '2', '0', '2', '8']
    } else if c == '\u{2029}' {
        seq!['\\', 'u', '2', '0', '2', '9']
    } else {
        seq![c]
    }
}

/// `s` with every character escaped by `escape_char`.
pub open spec fn escaped(s: Seq<char>) -> Seq<char>
    decreases s.len(),
{
    if s.len() == 0 {
        Seq::empty()
    } else {
        escaped(s.drop_last()) + escape_char(s.last())
    }
}

fn push_escape(out: &mut String, a: char, b: char, c: char, d: char)
    ensures
        final(out)@ == old(out)@ + seq!['\\', 'u', a, b, c, d],
{
    push_char(out, '\\');
    push_char(out, 'u');
    push_char(out, a);
    push_char(out, b);
    push_char(out, c);
    push_char(out, d);
    proof {
        assert(final(out)@ =~= old(out)@ + seq!['\\', 'u', a, b, c, d]);
    }
}

/// JSON text made safe to embed in a `<script>` element: it cannot close the element or
/// open a comment, and JavaScript cannot read a line break into it.
pub fn escape_script_data(input: &str) -> (r: String)
    ensures
        r@ == escaped(input@),
{
    let mut out = String::new();
    let mut chars = input.chars();
    let ghost all = input@;
    let ghost mut done: int = 0;
    loop
        invariant
            chars.obeys_prophetic_iter_laws(),
            all == input@,
            0 <= done <= all.len(),
            chars.remaining() == all.subrange(done, all.len() as int),
            out@ == escaped(all.subrange(0, done)),
        decreases all.len() - done,
    {
        let ghost before = chars.remaining();
        let next = chars.next();
        match next {
            None => {
                proof {
                    assert(all.subrange(0, done) =~= all);
                }
                return out;
            },
            Some(c) => {
                proof {
                    assert(c == all[done]);
                    let p = all.subrange(0, done + 1);
                    assert(p.drop_last() =~= all.subrange(0, done));
                    assert(p.last() == c);
                    assert(before.drop_first() =~= all.subrange(done + 1, all.len() as int));
                }
                if c == '&' {
                    push_escape(&mut out, '0', '0', '2', '6');
                } else if c == '<' {
                    push_escape(&mut out, '0', '0', '3', 'c');
                } else if c == '>' {
                    push_escape(&mut out, '0', '0', '3', 'e');
                } else if c == '\u{2028}' {
                    push_escape(&mut out, '2', '0', '2', '8');
                } else if c == '\u{2029}' {
                    push_escape(&mut out, '2', '0', '2', '9');
                } else {
                    push_char(&mut out, c);
                    proof {
                        assert(out@ =~= escaped(all.subrange(0, done)) + seq![c]);
                    }
                }
                proof {
                    done = done + 1;
                }
            },
        }
    }
}

/// The character of decimal digit `d`.
pub open spec fn digit_char(d: int) -> char {
    ((d + 48) as u32) as char
}

/// The decimal digits of `n`, without leading zeros.
pub open spec fn decimal_digits(n: nat) -> Seq<char>
    decreases n,
{
    if n < 10 {
        seq![digit_char(n as int)]
    } else {
        decimal_digits(n / 10).push(digit_char((n % 10) as int))
    }
}

/// The text that reports a change of a count from `baseline` to `value`: the signed
/// difference, a space, and the label.
pub open spec fn count_change_text(value: int, baseline: int, label: Seq<char>) -> Seq<char> {
    let sign = if value > baseline {
        '+'
    } else {
        '-'
    };
    let magnitude = if value > baseline {
        value - baseline
    } else {
        baseline - value
    };
    seq![sign] + decimal_digits(magnitude as nat) + seq![' '] + label
}

fn push_decimal(out: &mut String, n: u64)
    ensures
        final(out)@ == old(out)@ + decimal_digits(n as nat),
    decreases n,
{
    if n >= 10 {
        push_decimal(out, n / 10);
    }
    let d = (n % 10) as u8;
    push_char(out, (d + 48) as char);
    proof {
        assert(final(out)@ =~= old(out)@ + decimal_digits(n as nat));
    }
}

/// Adds the change of a count to `changes`, unless the count did not change.
pub fn push_count_change(changes: &mut Vec<String>, label: &str, value: usize, baseline: usize)
    ensures
        value == baseline ==> final(changes)@ == old(changes)@,
        value != baseline ==> {
            &&& final(changes)@.len() == old(changes)@.len() + 1
            &&& final(changes)@.drop_last() == old(changes)@
            &&& final(changes)@.last()@ == count_change_text(value as int, baseline as int, label@)
        },
{
    if value == baseline {
        return;
    }
    let mut text = String::new();
    let magnitude = if value > baseline {
        push_char(&mut text, '+');
        (value - baseline) as u64
    } else {
        push_char(&mut text, '-');
        (baseline - value) as u64
    };
    push_decimal(&mut text, magnitude);
    push_char(&mut text, ' ');
    text.append(label);
    proof {
        assert(text@ =~= count_change_text(value as int, baseline as int, label@));
    }
    changes.push(text);
    proof {
        assert(final(changes)@.drop_last() =~= old(changes)@);
    }
}

} // verus!
