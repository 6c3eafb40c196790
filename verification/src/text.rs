//! What the run does with text: prefixes, numbers in decimal.
use vstd::prelude::*;

verus! {

/// Text, as contracts speak of it.
pub type Text = Seq<char>;

/// Whether `text` starts with `prefix`.
pub fn starts_with(text: &str, prefix: &str) -> (found: bool)
    ensures
        found == prefix@.is_prefix_of(text@),
{
    let width: usize = prefix.unicode_len();
    if text.unicode_len() < width {
        return false;
    }
    let mut i: usize = 0;
    while i < width
        invariant
            i <= width,
            width == prefix@.len(),
            width <= text@.len(),
            forall|k: int| 0 <= k < i ==> text@[k] == prefix@[k],
        decreases width - i,
    {
        if text.get_char(i) != prefix.get_char(i) {
            return false;
        }
        i += 1;
    }
    true
}

/// `text` without the leading copies of `prefix`.
pub open spec fn trimmed(text: Text, prefix: Text) -> Text
    decreases text.len(),
{
    if 0 < prefix.len() && prefix.is_prefix_of(text) {
        trimmed(text.skip(prefix.len() as int), prefix)
    } else {
        text
    }
}

/// The text a number of times in a row.
pub open spec fn times(text: Text, n: nat) -> Text
    decreases n,
{
    if n == 0 {
        Seq::empty()
    } else {
        text + times(text, (n - 1) as nat)
    }
}

/// All copies of the prefix at the front are taken away, and nothing else.
pub proof fn all_copies_are_trimmed(prefix: Text, n: nat, rest: Text)
    requires
        0 < prefix.len(),
        !prefix.is_prefix_of(rest),
    ensures
        trimmed(times(prefix, n) + rest, prefix) == rest,
    decreases n,
{
    let text = times(prefix, n) + rest;
    if n == 0 {
        assert(text =~= rest);
    } else {
        let fewer = times(prefix, (n - 1) as nat) + rest;
        assert(text =~= prefix + fewer);
        assert(text.subrange(0, prefix.len() as int) =~= prefix);
        assert(text.skip(prefix.len() as int) =~= fewer);
        all_copies_are_trimmed(prefix, (n - 1) as nat, rest);
    }
}

/// Takes the leading copies of `prefix` away, as many as there are.
pub fn trim_start(text: &str, prefix: &str) -> (rest: String)
    ensures
        rest@ == trimmed(text@, prefix@),
{
    let mut rest = text.to_owned();
    let width: usize = prefix.unicode_len();
    if width == 0 {
        return rest;
    }
    while starts_with(rest.as_str(), prefix)
        invariant
            width == prefix@.len(),
            prefix@.len() > 0,
            trimmed(text@, prefix@) == trimmed(rest@, prefix@),
        decreases rest@.len(),
    {
        let end: usize = rest.as_str().unicode_len();
        rest = rest.as_str().substring_char(width, end).to_owned();
    }
    rest
}

/// The digit that stands for `d` in decimal.
pub open spec fn decimal_digit(d: nat) -> char {
    (48 + d) as char
}

/// `n` in decimal.
pub open spec fn decimal(n: nat) -> Text
    decreases n,
{
    if n < 10 {
        seq![decimal_digit(n)]
    } else {
        decimal(n / 10).push(decimal_digit(n % 10))
    }
}

fn digit_text(d: usize) -> (text: &'static str)
    requires
        d < 10,
    ensures
        text@ == seq![decimal_digit(d as nat)],
{
    proof {
        reveal_strlit("0");
        reveal_strlit("1");
        reveal_strlit("2");
        reveal_strlit("3");
        reveal_strlit("4");
        reveal_strlit("5");
        reveal_strlit("6");
        reveal_strlit("7");
        reveal_strlit("8");
        reveal_strlit("9");
    }
    let text = match d {
        0 => "0",
        1 => "1",
        2 => "2",
        3 => "3",
        4 => "4",
        5 => "5",
        6 => "6",
        7 => "7",
        8 => "8",
        _ => "9",
    };
    assert(text@ =~= seq![decimal_digit(d as nat)]);
    text
}

/// Writes `n` in decimal.
pub fn decimal_text(n: usize) -> (text: String)
    ensures
        text@ == decimal(n as nat),
    decreases n,
{
    if n < 10 {
        digit_text(n).to_owned()
    } else {
        let mut text = decimal_text(n / 10);
        text.append(digit_text(n % 10));
        assert(text@ =~= decimal(n as nat));
        text
    }
}

} // verus!
