//! JSON numbers as exact decimals.
//!
//! A number is kept as the decimal numeral that was written, reduced to its
//! canonical form: no leading zeros in the whole part, no trailing zeros in
//! the fraction, and no sign on zero. Two numbers are equal exactly when
//! they denote the same decimal value.

use vstd::prelude::*;
use vstd::std_specs::cmp::PartialEqSpecImpl;
use vstd::string::StringExecFns;
use crate::text::{chars_of, lemma_run_end, push_char, run_end, scan_run, string_of, CharClass};

verus! {

/// A JSON number in canonical decimal form.
#[derive(Debug)]
pub struct JsonNumber {
    negative: bool,
    whole: String,
    fraction: String,
}

/// The mathematical content of a [`JsonNumber`]: a sign, the digits before
/// the decimal point and the digits after it.
pub ghost struct NumberView {
    pub negative: bool,
    pub whole: Seq<char>,
    pub fraction: Seq<char>,
}

impl NumberView {
    /// Whether the number is zero.
    pub open spec fn is_zero(self) -> bool {
        self.whole == seq!['0'] && self.fraction.len() == 0
    }

    /// Canonical form: at least one whole digit, no leading zero before
    /// another whole digit, no trailing zero in the fraction, no negative
    /// zero.
    pub open spec fn wf(self) -> bool {
        &&& self.whole.len() > 0
        &&& forall|i: int| 0 <= i < self.whole.len() ==> CharClass::Digit.contains(#[trigger] self.whole[i])
        &&& forall|i: int|
            0 <= i < self.fraction.len() ==> CharClass::Digit.contains(#[trigger] self.fraction[i])
        &&& self.whole.len() > 1 ==> self.whole[0] != '0'
        &&& self.fraction.len() > 0 ==> self.fraction.last() != '0'
        &&& self.negative ==> !self.is_zero()
    }

    /// The canonical text of the number: a `-` if it is negative, the whole
    /// digits, and, unless the fraction is empty, a `.` and the fraction
    /// digits.
    pub open spec fn text(self) -> Seq<char> {
        (if self.negative {
            seq!['-']
        } else {
            Seq::<char>::empty()
        }) + self.whole + (if self.fraction.len() > 0 {
            seq!['.'] + self.fraction
        } else {
            Seq::<char>::empty()
        })
    }
}

/// 1 if the text starts with a minus sign, else 0.
pub open spec fn sign_len(s: Seq<char>) -> int {
    if s.len() > 0 && s[0] == '-' {
        1
    } else {
        0
    }
}

/// The index just after the whole digits of a number's text.
pub open spec fn whole_end(s: Seq<char>) -> int {
    run_end(s, sign_len(s), CharClass::Digit)
}

/// Whether `s` is the text of a number: an optional `-`, one or more digits,
/// and optionally a `.` followed by any number of digits.
pub open spec fn is_number_text(s: Seq<char>) -> bool {
    let w = whole_end(s);
    &&& w > sign_len(s)
    &&& (w == s.len() || (s[w] == '.' && run_end(s, w + 1, CharClass::Digit) == s.len()))
}

/// The first index in `from..to` that is not a zero followed by another
/// character of the range.
pub open spec fn skip_zeros(s: Seq<char>, from: int, to: int) -> int
    decreases to - from,
{
    if from + 1 < to && s[from] == '0' {
        skip_zeros(s, from + 1, to)
    } else {
        from
    }
}

/// The end of `from..to` once the zeros at its end are left off.
pub open spec fn trim_zeros(s: Seq<char>, from: int, to: int) -> int
    decreases to - from,
{
    if from < to && s[to - 1] == '0' {
        trim_zeros(s, from, to - 1)
    } else {
        to
    }
}

/// The number that the text `s` denotes, in canonical form.
pub open spec fn decimal_of(s: Seq<char>) -> NumberView
    recommends
        is_number_text(s),
{
    let w = whole_end(s);
    let whole = s.subrange(skip_zeros(s, sign_len(s), w), w);
    let fraction = if w < s.len() {
        s.subrange(w + 1, trim_zeros(s, w + 1, s.len() as int))
    } else {
        Seq::<char>::empty()
    };
    let magnitude = NumberView { negative: false, whole, fraction };
    NumberView { negative: sign_len(s) == 1 && !magnitude.is_zero(), whole, fraction }
}

proof fn lemma_skip_zeros(s: Seq<char>, from: int, to: int)
    requires
        0 <= from < to <= s.len(),
    ensures
        from <= skip_zeros(s, from, to) < to,
        skip_zeros(s, from, to) + 1 < to ==> s[skip_zeros(s, from, to)] != '0',
    decreases to - from,
{
    if from + 1 < to && s[from] == '0' {
        lemma_skip_zeros(s, from + 1, to);
    }
}

proof fn lemma_trim_zeros(s: Seq<char>, from: int, to: int)
    requires
        0 <= from <= to <= s.len(),
    ensures
        from <= trim_zeros(s, from, to) <= to,
        from < trim_zeros(s, from, to) ==> s[trim_zeros(s, from, to) - 1] != '0',
    decreases to - from,
{
    if from < to && s[to - 1] == '0' {
        lemma_trim_zeros(s, from, to - 1);
    }
}

/// The number denoted by a number's text is in canonical form.
pub proof fn lemma_decimal_of_wf(s: Seq<char>)
    requires
        is_number_text(s),
    ensures
        decimal_of(s).wf(),
{
    let w = whole_end(s);
    lemma_run_end(s, sign_len(s), CharClass::Digit);
    lemma_skip_zeros(s, sign_len(s), w);
    if w < s.len() {
        lemma_run_end(s, w + 1, CharClass::Digit);
        lemma_trim_zeros(s, w + 1, s.len() as int);
    }
}

impl View for JsonNumber {
    type V = NumberView;

    closed spec fn view(&self) -> NumberView {
        NumberView { negative: self.negative, whole: self.whole@, fraction: self.fraction@ }
    }
}

impl JsonNumber {
    /// Every number is held in canonical form.
    #[verifier::type_invariant]
    closed spec fn canonical(&self) -> bool {
        self@.wf()
    }

    /// Reads a number from its text. Returns `None` unless the text is an
    /// optional `-`, one or more digits, and optionally a `.` followed by
    /// any number of digits.
    pub fn from_chars(text: &Vec<char>) -> (r: Option<JsonNumber>)
        ensures
            r is Some <==> is_number_text(text@),
            r matches Some(n) ==> n@ == decimal_of(text@) && n@.wf(),
    {
        proof {
            if is_number_text(text@) {
                lemma_decimal_of_wf(text@);
            }
        }
        let len = text.len();
        let start: usize = if len > 0 && text[0] == '-' {
            1
        } else {
            0
        };
        let w = scan_run(text, start, CharClass::Digit);
        if w == start {
            return None;
        }
        if w < len {
            if text[w] != '.' {
                return None;
            }
            let e = scan_run(text, w + 1, CharClass::Digit);
            if e != len {
                return None;
            }
        }
        let mut first: usize = start;
        while first + 1 < w && text[first] == '0'
            invariant
                start <= first < w <= len,
                len == text@.len(),
                skip_zeros(text@, start as int, w as int) == skip_zeros(text@, first as int, w as int),
            decreases w - first,
        {
            first += 1;
        }
        let whole = string_of(text, first, w);
        let mut fraction = String::new();
        let mut last: usize = len;
        if w < len {
            while w + 1 < last && text[last - 1] == '0'
                invariant
                    w + 1 <= last <= len,
                    len == text@.len(),
                    trim_zeros(text@, w + 1, len as int) == trim_zeros(text@, w + 1, last as int),
                decreases last - w,
            {
                last -= 1;
            }
            fraction = string_of(text, w + 1, last);
        }
        let zero = first + 1 == w && text[first] == '0' && (w == len || last == w + 1);
        proof {
            let t = text@;
            assert(sign_len(t) == start as int);
            assert(whole_end(t) == w as int);
            assert(skip_zeros(t, first as int, w as int) == first as int);
            if w < len {
                assert(trim_zeros(t, w + 1, last as int) == last as int);
            }
            if first + 1 == w && t[first as int] == '0' {
                assert(whole@ =~= seq!['0']);
            }
            if whole@ == seq!['0'] {
                assert(whole@.len() == 1);
                assert(whole@[0] == '0');
            }
            assert(fraction@.len() == 0 <==> (w == len || last == w + 1));
        }
        Some(JsonNumber { negative: start == 1 && !zero, whole, fraction })
    }

    /// Reads a number from its text, as [`JsonNumber::from_chars`] does.
    pub fn from_text(text: &str) -> (r: Option<JsonNumber>)
        ensures
            r is Some <==> is_number_text(text@),
            r matches Some(n) ==> n@ == decimal_of(text@) && n@.wf(),
    {
        let chars = chars_of(text);
        JsonNumber::from_chars(&chars)
    }

    /// Whether the number has no fraction.
    pub fn is_integer(&self) -> (b: bool)
        ensures
            b == (self@.fraction.len() == 0),
    {
        self.fraction.as_str().unicode_len() == 0
    }

    /// The canonical text of the number. The number is in canonical form.
    pub fn to_text(&self) -> (out: String)
        ensures
            out@ == self@.text(),
            self@.wf(),
    {
        proof {
            use_type_invariant(self);
        }
        let mut out = String::new();
        if self.negative {
            push_char(&mut out, '-');
        }
        out.append(self.whole.as_str());
        if self.fraction.as_str().unicode_len() > 0 {
            push_char(&mut out, '.');
            out.append(self.fraction.as_str());
        }
        proof {
            assert(out@ =~= self@.text());
        }
        out
    }
}

impl PartialEq for JsonNumber {
    /// Whether the two numbers denote the same decimal value.
    fn eq(&self, other: &JsonNumber) -> (r: bool) {
        self.negative == other.negative && self.whole == other.whole && self.fraction
            == other.fraction
    }
}

impl PartialEqSpecImpl for JsonNumber {
    open spec fn obeys_eq_spec() -> bool {
        true
    }

    open spec fn eq_spec(&self, other: &JsonNumber) -> bool {
        self@ == other@
    }
}

impl Clone for JsonNumber {
    /// A copy of the number.
    fn clone(&self) -> (out: JsonNumber)
        ensures
            out@ == self@,
    {
        proof {
            use_type_invariant(self);
        }
        JsonNumber {
            negative: self.negative,
            whole: self.whole.clone(),
            fraction: self.fraction.clone(),
        }
    }
}

} // verus!
