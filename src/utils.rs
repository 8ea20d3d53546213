//! Escaping of the characters that chat markup gives a meaning to.
use vstd::prelude::*;
use crate::text::push_char;

verus! {

/// The characters that markup gives a meaning to.
pub open spec fn special(c: char) -> bool {
    c == '_' || c == '*' || c == '[' || c == ']' || c == '(' || c == ')' || c == '~' || c == '`'
        || c == '>' || c == '#' || c == '+' || c == '-' || c == '=' || c == '|' || c == '{'
        || c == '}' || c == '.' || c == '!'
}

/// Whether `c` is one of the characters that markup gives a meaning to.
pub fn is_special(c: char) -> (r: bool)
    ensures
        r == special(c),
{
    c == '_' || c == '*' || c == '[' || c == ']' || c == '(' || c == ')' || c == '~' || c == '`'
        || c == '>' || c == '#' || c == '+' || c == '-' || c == '=' || c == '|' || c == '{'
        || c == '}' || c == '.' || c == '!'
}

/// `s` with a backslash before every special character.
pub open spec fn escaped(s: Seq<char>) -> Seq<char>
    decreases s.len(),
{
    if s.len() == 0 {
        seq![]
    } else {
        escaped(s.drop_last()) + if special(s.last()) {
            seq!['\\', s.last()]
        } else {
            seq![s.last()]
        }
    }
}

/// The character at `i` stays when unescaping: it is not a backslash
/// followed by a special character.
pub open spec fn kept(s: Seq<char>, i: int) -> bool {
    !(s[i] == '\\' && i + 1 < s.len() && special(s[i + 1]))
}

/// The first `n` characters of `s` that stay when unescaping.
pub open spec fn unescaped_upto(s: Seq<char>, n: nat) -> Seq<char>
    decreases n,
{
    if n == 0 {
        seq![]
    } else {
        unescaped_upto(s, (n - 1) as nat) + if kept(s, n - 1) {
            seq![s[n - 1]]
        } else {
            seq![]
        }
    }
}

/// `s` with the backslash before every special character removed.
pub open spec fn unescaped(s: Seq<char>) -> Seq<char> {
    unescaped_upto(s, s.len())
}

/// Puts a backslash before every special character of `text`.
pub fn escape_markdown(text: &str) -> (r: String)
    ensures
        r@ == escaped(text@),
{
    let n = text.unicode_len();
    let mut out = String::new();
    let mut i: usize = 0;
    while i < n
        invariant
            n == text@.len(),
            i <= n,
            out@ == escaped(text@.subrange(0, i as int)),
        decreases n - i,
    {
        let c = text.get_char(i);
        assert(text@.subrange(0, i + 1).drop_last() =~= text@.subrange(0, i as int));
        if is_special(c) {
            push_char(&mut out, '\\');
        }
        push_char(&mut out, c);
        proof {
            let t = text@.subrange(0, i + 1);
            assert(t.last() == c);
            if special(c) {
                assert(out@ =~= escaped(text@.subrange(0, i as int)) + seq!['\\', c]);
            } else {
                assert(out@ =~= escaped(text@.subrange(0, i as int)) + seq![c]);
            }
        }
        i = i + 1;
    }
    assert(text@.subrange(0, n as int) =~= text@);
    out
}

/// Removes the backslash before every special character of `text`.
pub fn unescape_markdown(text: &str) -> (r: String)
    ensures
        r@ == unescaped(text@),
{
    let n = text.unicode_len();
    let mut out = String::new();
    let mut i: usize = 0;
    while i < n
        invariant
            n == text@.len(),
            i <= n,
            out@ == unescaped_upto(text@, i as nat),
        decreases n - i,
    {
        let c = text.get_char(i);
        let drop = c == '\\' && i + 1 < n && is_special(text.get_char(i + 1));
        if !drop {
            push_char(&mut out, c);
            assert(out@ =~= unescaped_upto(text@, i as nat) + seq![c]);
        } else {
            assert(out@ =~= unescaped_upto(text@, i as nat) + seq![]);
        }
        i = i + 1;
    }
    out
}

} // verus!
