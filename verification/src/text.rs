//! Small text utilities shared by the other modules: building strings one
//! character at a time, decimal rendering of positions, and maximal runs of
//! characters.

use vstd::prelude::*;
use vstd::std_specs::iter::IteratorSpec;

verus! {

/// Appends one character to a string. Stands for `String::push`: the string
/// afterwards is the string before with `c` added at its end.
#[verifier::external_body]
pub(crate) fn push_char(s: &mut String, c: char)
    ensures
        final(s)@ == old(s)@.push(c),
{
    s.push(c)
}

/// The scalar value with the given code, if there is one. Stands for
/// `char::from_u32`, which returns `None` exactly for the surrogate codes
/// `0xD800..=0xDFFF` and for codes above `0x10FFFF`.
#[verifier::external_body]
pub(crate) fn char_from_code(code: u32) -> (r: Option<char>)
    ensures
        r == (if code <= 0xD7FF || (0xE000 <= code && code <= 0x10FFFF) {
            Some(code as char)
        } else {
            None::<char>
        }),
{
    char::from_u32(code)
}

/// The text that `{:?}` gives for a string: the string between double
/// quotes, with the characters that Rust escapes in debug output escaped.
pub uninterp spec fn debug_quoted(s: Seq<char>) -> Seq<char>;

/// Renders a string as `{:?}` does. Stands for `<str as Debug>::fmt`, whose
/// output depends on the string alone.
#[verifier::external_body]
pub(crate) fn debug_quote(s: &str) -> (out: String)
    ensures
        out@ == debug_quoted(s@),
{
    format!("{:?}", s)
}

/// The characters of `s`, in order.
pub fn chars_of(s: &str) -> (out: Vec<char>)
    ensures
        out@ == s@,
{
    broadcast use vstd::string::group_string_axioms;

    let mut out: Vec<char> = Vec::new();
    let mut iter = s.chars();
    loop
        invariant
            out@ + iter.remaining() == s@,
            iter.obeys_prophetic_iter_laws(),
            iter.decrease() is Some,
        ensures
            out@ == s@,
        decreases iter.decrease()->0,
    {
        match iter.next() {
            Some(c) => {
                out.push(c);
            },
            None => {
                assert(out@ =~= s@);
                break ;
            },
        }
    }
    out
}

/// The string made of the characters `chars[from..to]`.
pub(crate) fn string_of(chars: &Vec<char>, from: usize, to: usize) -> (out: String)
    requires
        from <= to <= chars@.len(),
    ensures
        out@ == chars@.subrange(from as int, to as int),
{
    let mut out = String::new();
    let mut i: usize = from;
    while i < to
        invariant
            from <= i <= to <= chars@.len(),
            out@ == chars@.subrange(from as int, i as int),
        decreases to - i,
    {
        push_char(&mut out, chars[i]);
        i += 1;
        assert(out@ =~= chars@.subrange(from as int, i as int));
    }
    out
}

/// A copy of the characters `chars[from..to]`.
pub(crate) fn slice_of(chars: &Vec<char>, from: usize, to: usize) -> (out: Vec<char>)
    requires
        from <= to <= chars@.len(),
    ensures
        out@ == chars@.subrange(from as int, to as int),
{
    let mut out: Vec<char> = Vec::new();
    let mut i: usize = from;
    while i < to
        invariant
            from <= i <= to <= chars@.len(),
            out@ == chars@.subrange(from as int, i as int),
        decreases to - i,
    {
        out.push(chars[i]);
        i += 1;
        assert(out@ =~= chars@.subrange(from as int, i as int));
    }
    out
}

/// The decimal digit `d` as a character.
pub open spec fn digit_char(d: nat) -> char
    recommends
        d < 10,
{
    (('0' as u8) + (d as u8)) as char
}

/// The decimal numeral of `n`, without leading zeros.
pub open spec fn decimal_digits(n: nat) -> Seq<char>
    decreases n,
{
    if n < 10 {
        seq![digit_char(n)]
    } else {
        decimal_digits(n / 10).push(digit_char(n % 10))
    }
}

/// Appends the decimal numeral of `n` to `s`.
pub(crate) fn push_decimal(s: &mut String, n: usize)
    ensures
        final(s)@ == old(s)@ + decimal_digits(n as nat),
    decreases n,
{
    if n >= 10 {
        push_decimal(s, n / 10);
    }
    let d: u8 = (n % 10) as u8;
    let c: char = (48u8 + d) as char;
    assert(c == digit_char((n % 10) as nat));
    push_char(s, c);
    assert(final(s)@ =~= old(s)@ + decimal_digits(n as nat));
}

/// The character classes whose maximal runs the scanners collect.
#[derive(Debug, Clone, Copy)]
pub enum CharClass {
    /// `0` to `9`.
    Digit,
    /// `a` to `z`.
    Lowercase,
    /// `0` to `9`, `.` and `-`: what a number's text is collected from.
    Numeric,
}

impl CharClass {
    /// Whether `c` belongs to the class.
    pub open spec fn contains(self, c: char) -> bool {
        match self {
            CharClass::Digit => '0' <= c <= '9',
            CharClass::Lowercase => 'a' <= c <= 'z',
            CharClass::Numeric => '0' <= c <= '9' || c == '.' || c == '-',
        }
    }

    /// Whether `c` belongs to the class.
    pub fn has(&self, c: char) -> (b: bool)
        ensures
            b == self.contains(c),
    {
        match self {
            CharClass::Digit => '0' <= c && c <= '9',
            CharClass::Lowercase => 'a' <= c && c <= 'z',
            CharClass::Numeric => ('0' <= c && c <= '9') || c == '.' || c == '-',
        }
    }
}

/// The end of the longest run of characters of `class` that starts at
/// `from`: the first index at or after `from` that is the end of `s` or holds
/// a character outside the class.
pub open spec fn run_end(s: Seq<char>, from: int, class: CharClass) -> int
    decreases s.len() - from,
{
    if 0 <= from < s.len() && class.contains(s[from]) {
        run_end(s, from + 1, class)
    } else {
        from
    }
}

/// A run ends no earlier than it starts and no later than the text;
/// everything in it belongs to the class, and what follows it does not.
pub proof fn lemma_run_end(s: Seq<char>, from: int, class: CharClass)
    requires
        0 <= from <= s.len(),
    ensures
        from <= run_end(s, from, class) <= s.len(),
        forall|i: int| from <= i < run_end(s, from, class) ==> class.contains(#[trigger] s[i]),
        run_end(s, from, class) < s.len() ==> !class.contains(s[run_end(s, from, class)]),
    decreases s.len() - from,
{
    if from < s.len() && class.contains(s[from]) {
        lemma_run_end(s, from + 1, class);
    }
}

/// A stretch of characters of the class that ends at the end of the text
/// or before a character outside the class is the run that starts where it
/// starts.
pub proof fn lemma_run_covers(s: Seq<char>, from: int, to: int, class: CharClass)
    requires
        0 <= from <= to <= s.len(),
        forall|i: int| from <= i < to ==> class.contains(#[trigger] s[i]),
        to == s.len() || !class.contains(s[to]),
    ensures
        run_end(s, from, class) == to,
    decreases to - from,
{
    if from < to {
        lemma_run_covers(s, from + 1, to, class);
    }
}

/// Finds the end of the run of `class` that starts at `from`.
pub(crate) fn scan_run(chars: &Vec<char>, from: usize, class: CharClass) -> (end: usize)
    requires
        from <= chars@.len(),
    ensures
        end as int == run_end(chars@, from as int, class),
        from <= end <= chars@.len(),
{
    let mut i: usize = from;
    while i < chars.len() && class.has(chars[i])
        invariant
            from <= i <= chars@.len(),
            run_end(chars@, from as int, class) == run_end(chars@, i as int, class),
        decreases chars@.len() - i,
    {
        i += 1;
    }
    i
}

} // verus!
