//! The canonical text of a value is read back as that value.

use vstd::prelude::*;
use crate::error::ErrorView;
use crate::number::{
    decimal_of, is_number_text, lemma_decimal_of_wf, sign_len, skip_zeros, trim_zeros, whole_end,
    NumberView,
};
use crate::parser::{
    after_element, after_member, parse_elements, parse_members, parse_text, parse_value_at,
};
use crate::text::{lemma_run_covers, run_end, CharClass};
use crate::tokenizer::{
    has_leading_dot, keyword, lemma_scan_token_advances, scan_escape, scan_keyword, scan_number,
    scan_string, scan_string_body, scan_token, scan_tokens, structural, tokens_of, TokenView,
};
use crate::value::{
    all_well_formed, distinct_keys, equivalent, escape_char, escaped, lemma_equivalent_reflexive,
    lemma_position_of, lemma_with_member, members_well_formed, position_of, quoted, render,
    render_items, render_members, well_formed, with_member, ValueView,
};

verus! {

/// The canonical text of a number in canonical form is a number's text
/// without a leading dot, and denotes that number.
pub proof fn lemma_number_text_round_trip(n: NumberView)
    requires
        n.wf(),
    ensures
        is_number_text(n.text()),
        !has_leading_dot(n.text()),
        decimal_of(n.text()) == n,
        n.text().len() > 0,
        CharClass::Digit.contains(n.text()[0]) || n.text()[0] == '-',
        forall|i: int| 0 <= i < n.text().len() ==> CharClass::Numeric.contains(#[trigger] n.text()[i]),
{
    let t = n.text();
    let sl: int = if n.negative {
        1
    } else {
        0
    };
    let w = sl + n.whole.len();
    assert(CharClass::Digit.contains(n.whole[0]));
    assert(t[sl] == n.whole[0]);
    assert(sign_len(t) == sl);
    assert forall|i: int| sl <= i < w implies CharClass::Digit.contains(#[trigger] t[i]) by {
        assert(t[i] == n.whole[i - sl]);
    }
    if n.fraction.len() > 0 {
        assert(t[w] == '.');
        assert forall|i: int| w + 1 <= i < t.len() implies CharClass::Digit.contains(
            #[trigger] t[i],
        ) by {
            assert(t[i] == n.fraction[i - w - 1]);
        }
        lemma_run_covers(t, w + 1, t.len() as int, CharClass::Digit);
        assert(t[t.len() - 1] == n.fraction.last());
        assert(trim_zeros(t, w + 1, t.len() as int) == t.len());
        assert(t.subrange(w + 1, t.len() as int) =~= n.fraction);
    }
    lemma_run_covers(t, sl, w, CharClass::Digit);
    assert(whole_end(t) == w);
    if n.whole.len() > 1 {
        assert(t[sl] != '0');
    }
    assert(skip_zeros(t, sl, w) == sl);
    assert(t.subrange(sl, w) =~= n.whole);
    assert(decimal_of(t).whole == n.whole);
    assert(decimal_of(t).fraction =~= n.fraction);
    assert forall|i: int| 0 <= i < t.len() implies CharClass::Numeric.contains(#[trigger] t[i]) by {
        if i < sl {
        } else if i < w {
            assert(CharClass::Digit.contains(t[i]));
        } else if i == w {
        } else {
            assert(CharClass::Digit.contains(t[i]));
        }
    }
}

/// Scanning the escaped form of `x` inside a string literal decodes `x`:
/// the scan goes on after it with `x` added to what was decoded before.
pub proof fn lemma_scan_escaped(s: Seq<char>, start: int, pos: int, acc: Seq<char>, x: Seq<char>)
    requires
        0 <= pos,
        pos + escaped(x).len() <= s.len(),
        s.subrange(pos, pos + escaped(x).len()) == escaped(x),
    ensures
        scan_string_body(s, start, pos, acc) == scan_string_body(
            s,
            start,
            pos + escaped(x).len(),
            acc + x,
        ),
    decreases x.len(),
{
    if x.len() == 0 {
        assert(acc + x =~= acc);
    } else {
        let front = x.drop_last();
        let c = x.last();
        let mid = pos + escaped(front).len();
        let whole = escaped(x);
        assert(whole == escaped(front) + escape_char(c));
        assert(s.subrange(pos, mid) =~= escaped(front)) by {
            assert forall|i: int| 0 <= i < escaped(front).len() implies s.subrange(pos, mid)[i]
                == escaped(front)[i] by {
                assert(s.subrange(pos, pos + whole.len())[i] == whole[i]);
            }
        }
        lemma_scan_escaped(s, start, pos, acc, front);
        assert forall|i: int| 0 <= i < escape_char(c).len() implies s[mid + i] == escape_char(c)[i] by {
            assert(s.subrange(pos, pos + whole.len())[mid - pos + i] == whole[mid - pos + i]);
        }
        assert((acc + front).push(c) =~= acc + x);
        if c == '"' || c == '\\' || c == '\n' || c == '\r' || c == '\t' {
            assert(s[mid] == escape_char(c)[0]);
            assert(s[mid + 1] == escape_char(c)[1]);
            assert(scan_escape(s, mid + 1) == Ok::<(char, int), ErrorView>((c, mid + 2)));
        } else {
            assert(s[mid] == escape_char(c)[0]);
        }
    }
}

/// A string literal is scanned as the string that it quotes.
pub proof fn lemma_scan_quoted(s: Seq<char>, from: int, x: Seq<char>)
    requires
        0 <= from,
        from + quoted(x).len() <= s.len(),
        s.subrange(from, from + quoted(x).len()) == quoted(x),
    ensures
        scan_string(s, from) == Ok::<(Seq<char>, int), ErrorView>((x, from + quoted(x).len())),
{
    let q = quoted(x);
    let n = escaped(x).len() as int;
    assert(q.len() == n + 2);
    assert forall|i: int| 0 <= i < q.len() implies s[from + i] == q[i] by {
        assert(s.subrange(from, from + q.len())[i] == q[i]);
    }
    assert(s[from] == q[0]);
    assert(s[from + n + 1] == q[n + 1]);
    assert(s.subrange(from + 1, from + 1 + n) =~= escaped(x)) by {
        assert forall|i: int| 0 <= i < n implies s.subrange(from + 1, from + 1 + n)[i] == escaped(
            x,
        )[i] by {
            assert(s[from + 1 + i] == q[i + 1]);
        }
    }
    lemma_scan_escaped(s, from, from + 1, Seq::empty(), x);
    assert(Seq::<char>::empty() + x =~= x);
}

/// The tokens of the canonical text of a value.
pub open spec fn tokens_for(v: ValueView) -> Seq<TokenView>
    decreases v, 0int,
{
    match v {
        ValueView::Null => seq![TokenView::Null],
        ValueView::Boolean(b) => seq![TokenView::Boolean(b)],
        ValueView::Number(n) => seq![TokenView::Number(n)],
        ValueView::String(x) => seq![TokenView::String(x)],
        ValueView::Array(items) => seq![TokenView::LeftBracket] + items_tokens(
            items,
            items.len() as int,
        ) + seq![TokenView::RightBracket],
        ValueView::Object(members) => seq![TokenView::LeftBrace] + members_tokens(
            members,
            members.len() as int,
        ) + seq![TokenView::RightBrace],
    }
}

/// The tokens of the first `n` items, with a comma between each two.
pub open spec fn items_tokens(items: Seq<ValueView>, n: int) -> Seq<TokenView>
    decreases items, n,
{
    if n <= 0 || n > items.len() {
        Seq::empty()
    } else if n == 1 {
        tokens_for(items[0])
    } else {
        items_tokens(items, n - 1) + seq![TokenView::Comma] + tokens_for(items[n - 1])
    }
}

/// The tokens of the first `n` members, with a comma between each two.
pub open spec fn members_tokens(members: Seq<(Seq<char>, ValueView)>, n: int) -> Seq<TokenView>
    decreases members, n,
{
    if n <= 0 || n > members.len() {
        Seq::empty()
    } else if n == 1 {
        seq![TokenView::String(members[0].0), TokenView::Colon] + tokens_for(members[0].1)
    } else {
        members_tokens(members, n - 1) + seq![
            TokenView::Comma,
            TokenView::String(members[n - 1].0),
            TokenView::Colon,
        ] + tokens_for(members[n - 1].1)
    }
}

/// Whether a token may end just before `to`: the text ends there, or a
/// comma or a closing bracket or brace stands there.
pub open spec fn ends_token(s: Seq<char>, to: int) -> bool {
    to == s.len() || s[to] == ',' || s[to] == ']' || s[to] == '}'
}

/// Where a stretch of `s` is `a` followed by `b`, its front is `a` and its
/// back is `b`.
pub proof fn lemma_split<T>(s: Seq<T>, from: int, a: Seq<T>, b: Seq<T>)
    requires
        0 <= from,
        from + a.len() + b.len() <= s.len(),
        s.subrange(from, from + a.len() + b.len()) == a + b,
    ensures
        s.subrange(from, from + a.len()) == a,
        s.subrange(from + a.len(), from + a.len() + b.len()) == b,
{
    let whole = s.subrange(from, from + a.len() + b.len());
    let la = a.len() as int;
    let lb = b.len() as int;
    assert(whole.len() == la + lb);
    assert forall|i: int| 0 <= i < la implies s.subrange(from, from + la)[i] == a[i] by {
        assert(whole[i] == (a + b)[i]);
        assert(whole[i] == s[from + i]);
    }
    assert forall|i: int| 0 <= i < lb implies s.subrange(from + la, from + la + lb)[i] == b[i] by {
        assert(whole[la + i] == (a + b)[la + i]);
        assert(whole[la + i] == s[from + la + i]);
    }
    assert(s.subrange(from, from + la) =~= a);
    assert(s.subrange(from + la, from + la + lb) =~= b);
}

/// A structural character is scanned as its token.
proof fn lemma_lex_structural(s: Seq<char>, pos: int, acc: Seq<TokenView>)
    requires
        0 <= pos < s.len(),
        structural(s[pos]) is Some,
    ensures
        scan_tokens(s, pos, acc) == scan_tokens(s, pos + 1, acc.push(structural(s[pos])->0)),
{
    assert(scan_token(s, pos) == Ok::<(Option<TokenView>, int), ErrorView>(
        (structural(s[pos]), pos + 1),
    ));
}

/// A keyword that a token may end after is scanned as its token.
proof fn lemma_lex_keyword(s: Seq<char>, from: int, word: Seq<char>, acc: Seq<TokenView>)
    requires
        0 <= from,
        from + word.len() <= s.len(),
        s.subrange(from, from + word.len()) == word,
        keyword(word) is Some,
        ends_token(s, from + word.len()),
    ensures
        scan_tokens(s, from, acc) == scan_tokens(
            s,
            from + word.len(),
            acc.push(keyword(word)->0),
        ),
{
    reveal_strlit("true");
    reveal_strlit("false");
    reveal_strlit("null");
    let to = from + word.len();
    assert forall|i: int| from <= i < to implies CharClass::Lowercase.contains(#[trigger] s[i]) by {
        assert(s.subrange(from, to)[i - from] == word[i - from]);
    }
    assert(s[from] == word[0]) by {
        assert(s.subrange(from, to)[0] == word[0]);
    }
    lemma_run_covers(s, from, to, CharClass::Lowercase);
    assert(scan_keyword(s, from) == Ok::<(TokenView, int), ErrorView>((keyword(word)->0, to)));
    assert(scan_token(s, from) == Ok::<(Option<TokenView>, int), ErrorView>((keyword(word), to)));
}

/// A quoted string is scanned as its string token.
proof fn lemma_lex_string(s: Seq<char>, from: int, x: Seq<char>, acc: Seq<TokenView>)
    requires
        0 <= from,
        from + quoted(x).len() <= s.len(),
        s.subrange(from, from + quoted(x).len()) == quoted(x),
    ensures
        scan_tokens(s, from, acc) == scan_tokens(
            s,
            from + quoted(x).len(),
            acc.push(TokenView::String(x)),
        ),
{
    lemma_scan_quoted(s, from, x);
    assert(s[from] == '"') by {
        assert(s.subrange(from, from + quoted(x).len())[0] == quoted(x)[0]);
    }
}

/// The canonical text of a number, where a token may end after it, is
/// scanned as that number's token.
proof fn lemma_lex_number(s: Seq<char>, from: int, n: NumberView, acc: Seq<TokenView>)
    requires
        n.wf(),
        0 <= from,
        from + n.text().len() <= s.len(),
        s.subrange(from, from + n.text().len()) == n.text(),
        ends_token(s, from + n.text().len()),
    ensures
        scan_tokens(s, from, acc) == scan_tokens(
            s,
            from + n.text().len(),
            acc.push(TokenView::Number(n)),
        ),
{
    let t = n.text();
    let to = from + t.len();
    lemma_number_text_round_trip(n);
    assert forall|i: int| from <= i < to implies CharClass::Numeric.contains(#[trigger] s[i]) by {
        assert(s.subrange(from, to)[i - from] == t[i - from]);
    }
    assert(s[from] == t[0]) by {
        assert(s.subrange(from, to)[0] == t[0]);
    }
    lemma_run_covers(s, from, to, CharClass::Numeric);
    assert(scan_number(s, from) == Ok::<(NumberView, int), ErrorView>((n, to)));
    assert(scan_token(s, from) == Ok::<(Option<TokenView>, int), ErrorView>(
        (Some(TokenView::Number(n)), to),
    ));
}

/// The canonical text of `null`, `true` or `false`, where a token may end
/// after it, is scanned as its token.
proof fn lemma_lex_literal(s: Seq<char>, from: int, v: ValueView, acc: Seq<TokenView>)
    requires
        v is Null || v is Boolean,
        0 <= from,
        from + render(v).len() <= s.len(),
        s.subrange(from, from + render(v).len()) == render(v),
        ends_token(s, from + render(v).len()),
    ensures
        render(v).len() > 0,
        scan_tokens(s, from, acc) == scan_tokens(s, from + render(v).len(), acc + tokens_for(v)),
{
    reveal_strlit("null");
    reveal_strlit("true");
    reveal_strlit("false");
    let word = render(v);
    match v {
        ValueView::Boolean(b) => {
            if !b {
                assert(word.len() != "true"@.len());
            }
        },
        _ => {
            assert(word[0] != "true"@[0]);
            assert(word.len() != "false"@.len());
        },
    }
    assert(keyword(word) == Some(tokens_for(v)[0]));
    lemma_lex_keyword(s, from, word, acc);
    assert(acc.push(tokens_for(v)[0]) =~= acc + tokens_for(v));
}

/// The canonical text of a value, where a token may end after it, is
/// scanned as the tokens of the value.
pub proof fn lemma_lex_value(s: Seq<char>, from: int, v: ValueView, acc: Seq<TokenView>)
    requires
        well_formed(v),
        0 <= from,
        from + render(v).len() <= s.len(),
        s.subrange(from, from + render(v).len()) == render(v),
        ends_token(s, from + render(v).len()),
    ensures
        render(v).len() > 0,
        scan_tokens(s, from, acc) == scan_tokens(s, from + render(v).len(), acc + tokens_for(v)),
    decreases v, 0int,
{
    match v {
        ValueView::Null => {
            lemma_lex_literal(s, from, v, acc);
        },
        ValueView::Boolean(b) => {
            lemma_lex_literal(s, from, v, acc);
        },
        ValueView::Number(n) => {
            lemma_number_text_round_trip(n);
            lemma_lex_number(s, from, n, acc);
            assert(acc.push(TokenView::Number(n)) =~= acc + tokens_for(v));
        },
        ValueView::String(x) => {
            lemma_lex_string(s, from, x, acc);
            assert(acc.push(TokenView::String(x)) =~= acc + tokens_for(v));
        },
        ValueView::Array(items) => {
            lemma_lex_array(s, from, items, acc);
        },
        ValueView::Object(members) => {
            lemma_lex_object(s, from, members, acc);
        },
    }
}

/// The canonical text of an array, where a token may end after it, is
/// scanned as the tokens of the array.
pub proof fn lemma_lex_array(s: Seq<char>, from: int, items: Seq<ValueView>, acc: Seq<TokenView>)
    requires
        well_formed(ValueView::Array(items)),
        0 <= from,
        from + render(ValueView::Array(items)).len() <= s.len(),
        s.subrange(from, from + render(ValueView::Array(items)).len()) == render(
            ValueView::Array(items),
        ),
    ensures
        render(ValueView::Array(items)).len() > 0,
        scan_tokens(s, from, acc) == scan_tokens(
            s,
            from + render(ValueView::Array(items)).len(),
            acc + tokens_for(ValueView::Array(items)),
        ),
    decreases items, items.len() + 1,
{
    let v = ValueView::Array(items);
    let r = render(v);
    let inner = render_items(items, items.len() as int);
    let open = seq!['['];
    let close = seq![']'];
    assert(r == (open + inner) + close);
    lemma_split(s, from, open + inner, close);
    lemma_split(s, from, open, inner);
    let mid = from + 1 + inner.len();
    assert(s[from] == '[') by {
        assert(s.subrange(from, from + 1)[0] == open[0]);
    }
    assert(s[mid] == ']') by {
        assert(s.subrange(mid, mid + 1)[0] == close[0]);
    }
    lemma_lex_structural(s, from, acc);
    let acc1 = acc.push(TokenView::LeftBracket);
    lemma_lex_items(s, from + 1, items, items.len() as int, acc1);
    let acc2 = acc1 + items_tokens(items, items.len() as int);
    lemma_lex_structural(s, mid, acc2);
    assert(acc2.push(TokenView::RightBracket) =~= acc + tokens_for(v));
}

/// The canonical text of an object, where a token may end after it, is
/// scanned as the tokens of the object.
pub proof fn lemma_lex_object(
    s: Seq<char>,
    from: int,
    members: Seq<(Seq<char>, ValueView)>,
    acc: Seq<TokenView>,
)
    requires
        well_formed(ValueView::Object(members)),
        0 <= from,
        from + render(ValueView::Object(members)).len() <= s.len(),
        s.subrange(from, from + render(ValueView::Object(members)).len()) == render(
            ValueView::Object(members),
        ),
    ensures
        render(ValueView::Object(members)).len() > 0,
        scan_tokens(s, from, acc) == scan_tokens(
            s,
            from + render(ValueView::Object(members)).len(),
            acc + tokens_for(ValueView::Object(members)),
        ),
    decreases members, members.len() + 1,
{
    let v = ValueView::Object(members);
    let r = render(v);
    let inner = render_members(members, members.len() as int);
    let open = seq!['{'];
    let close = seq!['}'];
    assert(r == (open + inner) + close);
    lemma_split(s, from, open + inner, close);
    lemma_split(s, from, open, inner);
    let mid = from + 1 + inner.len();
    assert(s[from] == '{') by {
        assert(s.subrange(from, from + 1)[0] == open[0]);
    }
    assert(s[mid] == '}') by {
        assert(s.subrange(mid, mid + 1)[0] == close[0]);
    }
    lemma_lex_structural(s, from, acc);
    let acc1 = acc.push(TokenView::LeftBrace);
    lemma_lex_members(s, from + 1, members, members.len() as int, acc1);
    let acc2 = acc1 + members_tokens(members, members.len() as int);
    lemma_lex_structural(s, mid, acc2);
    assert(acc2.push(TokenView::RightBrace) =~= acc + tokens_for(v));
}

/// The canonical text of the first `n` items of an array, where a token
/// may end after it, is scanned as the tokens of these items.
pub proof fn lemma_lex_items(
    s: Seq<char>,
    from: int,
    items: Seq<ValueView>,
    n: int,
    acc: Seq<TokenView>,
)
    requires
        0 <= n <= items.len(),
        forall|i: int| 0 <= i < items.len() ==> well_formed(#[trigger] items[i]),
        0 <= from,
        from + render_items(items, n).len() <= s.len(),
        s.subrange(from, from + render_items(items, n).len()) == render_items(items, n),
        ends_token(s, from + render_items(items, n).len()),
    ensures
        scan_tokens(s, from, acc) == scan_tokens(
            s,
            from + render_items(items, n).len(),
            acc + items_tokens(items, n),
        ),
    decreases items, n,
{
    if n == 0 {
        assert(acc + items_tokens(items, n) =~= acc);
    } else if n == 1 {
        lemma_lex_value(s, from, items[0], acc);
    } else {
        let front = render_items(items, n - 1);
        let comma = seq![','];
        let last = render(items[n - 1]);
        assert(render_items(items, n) == (front + comma) + last);
        lemma_split(s, from, front + comma, last);
        lemma_split(s, from, front, comma);
        let mid = from + front.len();
        assert(s[mid] == ',') by {
            assert(s.subrange(mid, mid + 1)[0] == comma[0]);
        }
        lemma_lex_items(s, from, items, n - 1, acc);
        let acc1 = acc + items_tokens(items, n - 1);
        lemma_lex_structural(s, mid, acc1);
        let acc2 = acc1.push(TokenView::Comma);
        lemma_lex_value(s, mid + 1, items[n - 1], acc2);
        assert(acc2 + tokens_for(items[n - 1]) =~= acc + items_tokens(items, n));
    }
}

/// The canonical text of the first `n` members of an object, where a token
/// may end after it, is scanned as the tokens of these members.
pub proof fn lemma_lex_members(
    s: Seq<char>,
    from: int,
    members: Seq<(Seq<char>, ValueView)>,
    n: int,
    acc: Seq<TokenView>,
)
    requires
        0 <= n <= members.len(),
        forall|i: int| 0 <= i < members.len() ==> well_formed((#[trigger] members[i]).1),
        0 <= from,
        from + render_members(members, n).len() <= s.len(),
        s.subrange(from, from + render_members(members, n).len()) == render_members(members, n),
        ends_token(s, from + render_members(members, n).len()),
    ensures
        scan_tokens(s, from, acc) == scan_tokens(
            s,
            from + render_members(members, n).len(),
            acc + members_tokens(members, n),
        ),
    decreases members, n,
{
    if n == 0 {
        assert(acc + members_tokens(members, n) =~= acc);
    } else {
        let key = quoted(members[n - 1].0);
        let colon = seq![':'];
        let value = render(members[n - 1].1);
        let front: Seq<char> = if n == 1 {
            Seq::empty()
        } else {
            render_members(members, n - 1) + seq![',']
        };
        assert(render_members(members, n) =~= ((front + key) + colon) + value);
        lemma_split(s, from, (front + key) + colon, value);
        lemma_split(s, from, front + key, colon);
        lemma_split(s, from, front, key);
        let key_at = from + front.len();
        let colon_at = key_at + key.len();
        assert(s[colon_at] == ':') by {
            assert(s.subrange(colon_at, colon_at + 1)[0] == colon[0]);
        }
        let acc1: Seq<TokenView> = if n == 1 {
            acc
        } else {
            (acc + members_tokens(members, n - 1)).push(TokenView::Comma)
        };
        if n > 1 {
            let before = render_members(members, n - 1);
            let comma = seq![','];
            lemma_split(s, from, before, comma);
            let mid = from + before.len();
            assert(s[mid] == ',') by {
                assert(s.subrange(mid, mid + 1)[0] == comma[0]);
            }
            lemma_lex_members(s, from, members, n - 1, acc);
            lemma_lex_structural(s, mid, acc + members_tokens(members, n - 1));
        }
        assert(scan_tokens(s, from, acc) == scan_tokens(s, key_at, acc1));
        lemma_lex_string(s, key_at, members[n - 1].0, acc1);
        let acc2 = acc1.push(TokenView::String(members[n - 1].0));
        lemma_lex_structural(s, colon_at, acc2);
        let acc3 = acc2.push(TokenView::Colon);
        lemma_lex_value(s, colon_at + 1, members[n - 1].1, acc3);
        assert(acc3 + tokens_for(members[n - 1].1) =~= acc + members_tokens(members, n));
    }
}

/// Whether a value can start with the token: it is no comma, colon or
/// closing bracket or brace.
pub open spec fn starts_value(t: TokenView) -> bool {
    !(t is Comma || t is Colon || t is RightBracket || t is RightBrace)
}

/// The tokens of a value are parsed as that value.
pub proof fn lemma_parse_value(ts: Seq<TokenView>, pos: int, v: ValueView)
    requires
        well_formed(v),
        0 <= pos,
        pos + tokens_for(v).len() <= ts.len(),
        ts.subrange(pos, pos + tokens_for(v).len()) == tokens_for(v),
    ensures
        tokens_for(v).len() > 0,
        starts_value(ts[pos]),
        parse_value_at(ts, pos) == Ok::<(ValueView, int), ErrorView>(
            (v, pos + tokens_for(v).len()),
        ),
    decreases v, 0int,
{
    let t = tokens_for(v);
    assert(t.len() > 0);
    assert(ts[pos] == t[0]) by {
        assert(ts.subrange(pos, pos + t.len())[0] == t[0]);
    }
    match v {
        ValueView::Array(items) => {
            lemma_parse_array(ts, pos, items);
        },
        ValueView::Object(members) => {
            lemma_parse_object(ts, pos, members);
        },
        _ => {},
    }
}

/// The tokens of an array are parsed as that array.
pub proof fn lemma_parse_array(ts: Seq<TokenView>, pos: int, items: Seq<ValueView>)
    requires
        well_formed(ValueView::Array(items)),
        0 <= pos,
        pos + tokens_for(ValueView::Array(items)).len() <= ts.len(),
        ts.subrange(pos, pos + tokens_for(ValueView::Array(items)).len()) == tokens_for(
            ValueView::Array(items),
        ),
    ensures
        parse_value_at(ts, pos) == Ok::<(ValueView, int), ErrorView>(
            (ValueView::Array(items), pos + tokens_for(ValueView::Array(items)).len()),
        ),
    decreases items, items.len() + 1,
{
    let v = ValueView::Array(items);
    let n = items.len() as int;
    let inner = items_tokens(items, n);
    let open = seq![TokenView::LeftBracket];
    let close = seq![TokenView::RightBracket];
    assert(tokens_for(v) == (open + inner) + close);
    lemma_split(ts, pos, open + inner, close);
    lemma_split(ts, pos, open, inner);
    let end = pos + 1 + inner.len();
    assert(ts[pos] == TokenView::LeftBracket) by {
        assert(ts.subrange(pos, pos + 1)[0] == open[0]);
    }
    assert(ts[end] == TokenView::RightBracket) by {
        assert(ts.subrange(end, end + 1)[0] == close[0]);
    }
    if n == 0 {
        assert(items =~= Seq::empty());
    } else {
        lemma_parse_items(ts, pos + 1, items, n, Seq::empty());
        assert(Seq::<ValueView>::empty() + items.take(n) =~= items);
    }
}

/// The tokens of the first `n` items of an array are parsed as these
/// items: the parse goes on after them with the items added to those
/// parsed before.
pub proof fn lemma_parse_items(
    ts: Seq<TokenView>,
    from: int,
    items: Seq<ValueView>,
    n: int,
    acc: Seq<ValueView>,
)
    requires
        1 <= n <= items.len(),
        forall|i: int| 0 <= i < items.len() ==> well_formed(#[trigger] items[i]),
        0 <= from,
        from + items_tokens(items, n).len() <= ts.len(),
        ts.subrange(from, from + items_tokens(items, n).len()) == items_tokens(items, n),
    ensures
        starts_value(ts[from]),
        parse_elements(ts, from, acc) == after_element(
            ts,
            from + items_tokens(items, n).len(),
            acc + items.take(n),
        ),
    decreases items, n,
{
    if n == 1 {
        lemma_parse_value(ts, from, items[0]);
        assert(acc.push(items[0]) =~= acc + items.take(1));
    } else {
        let front = items_tokens(items, n - 1);
        let comma = seq![TokenView::Comma];
        let last = tokens_for(items[n - 1]);
        assert(items_tokens(items, n) == (front + comma) + last);
        lemma_split(ts, from, front + comma, last);
        lemma_split(ts, from, front, comma);
        let mid = from + front.len();
        assert(ts[mid] == TokenView::Comma) by {
            assert(ts.subrange(mid, mid + 1)[0] == comma[0]);
        }
        lemma_parse_items(ts, from, items, n - 1, acc);
        lemma_parse_value(ts, mid + 1, items[n - 1]);
        let acc1 = acc + items.take(n - 1);
        assert(after_element(ts, mid, acc1) == parse_elements(ts, mid + 1, acc1));
        assert(acc1.push(items[n - 1]) =~= acc + items.take(n));
    }
}

/// The tokens of an object are parsed as that object.
pub proof fn lemma_parse_object(ts: Seq<TokenView>, pos: int, members: Seq<(Seq<char>, ValueView)>)
    requires
        well_formed(ValueView::Object(members)),
        0 <= pos,
        pos + tokens_for(ValueView::Object(members)).len() <= ts.len(),
        ts.subrange(pos, pos + tokens_for(ValueView::Object(members)).len()) == tokens_for(
            ValueView::Object(members),
        ),
    ensures
        parse_value_at(ts, pos) == Ok::<(ValueView, int), ErrorView>(
            (ValueView::Object(members), pos + tokens_for(ValueView::Object(members)).len()),
        ),
    decreases members, members.len() + 1,
{
    let v = ValueView::Object(members);
    let n = members.len() as int;
    let inner = members_tokens(members, n);
    let open = seq![TokenView::LeftBrace];
    let close = seq![TokenView::RightBrace];
    assert(tokens_for(v) == (open + inner) + close);
    lemma_split(ts, pos, open + inner, close);
    lemma_split(ts, pos, open, inner);
    let end = pos + 1 + inner.len();
    assert(ts[pos] == TokenView::LeftBrace) by {
        assert(ts.subrange(pos, pos + 1)[0] == open[0]);
    }
    assert(ts[end] == TokenView::RightBrace) by {
        assert(ts.subrange(end, end + 1)[0] == close[0]);
    }
    if n == 0 {
        assert(members =~= Seq::empty());
    } else {
        lemma_parse_members(ts, pos + 1, members, n);
        assert(members.take(n) =~= members);
    }
}

/// The tokens of the first `n` members of an object are parsed as these
/// members.
pub proof fn lemma_parse_members(
    ts: Seq<TokenView>,
    from: int,
    members: Seq<(Seq<char>, ValueView)>,
    n: int,
)
    requires
        1 <= n <= members.len(),
        distinct_keys(members),
        forall|i: int| 0 <= i < members.len() ==> well_formed((#[trigger] members[i]).1),
        0 <= from,
        from + members_tokens(members, n).len() <= ts.len(),
        ts.subrange(from, from + members_tokens(members, n).len()) == members_tokens(members, n),
    ensures
        ts[from] is String,
        parse_members(ts, from, Seq::empty()) == after_member(
            ts,
            from + members_tokens(members, n).len(),
            members.take(n),
        ),
    decreases members, n,
{
    let key = members[n - 1].0;
    let value = members[n - 1].1;
    let head: Seq<TokenView> = if n == 1 {
        seq![TokenView::String(key), TokenView::Colon]
    } else {
        members_tokens(members, n - 1) + seq![
            TokenView::Comma,
            TokenView::String(key),
            TokenView::Colon,
        ]
    };
    let last = tokens_for(value);
    assert(members_tokens(members, n) == head + last);
    lemma_split(ts, from, head, last);
    let at = from + head.len();
    lemma_parse_value(ts, at, value);
    let before = members.take(n - 1);
    lemma_position_of(before, key, 0);
    assert(position_of(before, key, 0) is None) by {
        if position_of(before, key, 0) is Some {
            let j = position_of(before, key, 0)->0;
            assert(members[j].0 == before[j].0);
            assert(members[j].0 != members[n - 1].0);
        }
    }
    assert(with_member(before, key, value) =~= members.take(n));
    assert(ts[at - 1] == TokenView::Colon && ts[at - 2] == TokenView::String(key)) by {
        assert(ts.subrange(from, from + head.len())[head.len() - 1] == head[head.len() - 1]);
        assert(ts.subrange(from, from + head.len())[head.len() - 2] == head[head.len() - 2]);
    }
    if n == 1 {
        assert(before =~= Seq::empty());
    } else {
        let front = members_tokens(members, n - 1);
        let link = seq![TokenView::Comma, TokenView::String(key), TokenView::Colon];
        lemma_split(ts, from, front, link);
        let mid = from + front.len();
        assert(ts[mid] == TokenView::Comma) by {
            assert(ts.subrange(mid, mid + 3)[0] == link[0]);
        }
        lemma_parse_members(ts, from, members, n - 1);
        assert(after_member(ts, mid, before) == parse_members(ts, mid + 1, before));
    }
}

/// The canonical text of a well-formed value parses, and parses to that
/// value.
pub proof fn lemma_render_parses(v: ValueView)
    requires
        well_formed(v),
    ensures
        tokens_of(render(v)) == Ok::<Seq<TokenView>, ErrorView>(tokens_for(v)),
        parse_text(render(v)) == Ok::<ValueView, ErrorView>(v),
{
    let s = render(v);
    let t = tokens_for(v);
    assert(s.subrange(0, s.len() as int) =~= s);
    lemma_lex_value(s, 0, v, Seq::empty());
    assert(Seq::<TokenView>::empty() + t =~= t);
    assert(t.subrange(0, t.len() as int) =~= t);
    lemma_parse_value(t, 0, v);
}

/// Whether every number token is in canonical form.
pub open spec fn canonical_tokens(ts: Seq<TokenView>) -> bool {
    forall|i: int| 0 <= i < ts.len() && (#[trigger] ts[i]) is Number ==> ts[i]->Number_0.wf()
}

/// The tokenizer yields numbers in canonical form only.
pub proof fn lemma_scanned_tokens_canonical(s: Seq<char>, pos: int, acc: Seq<TokenView>)
    requires
        canonical_tokens(acc),
    ensures
        scan_tokens(s, pos, acc) matches Ok(ts) ==> canonical_tokens(ts),
    decreases s.len() - pos,
{
    if 0 <= pos < s.len() {
        lemma_scan_token_advances(s, pos);
        match scan_token(s, pos) {
            Ok((t, next)) => {
                let acc1 = match t {
                    Some(token) => acc.push(token),
                    None => acc,
                };
                if t is Some && t->0 is Number {
                    let end = run_end(s, pos, CharClass::Numeric);
                    lemma_decimal_of_wf(s.subrange(pos, end));
                }
                assert(canonical_tokens(acc1)) by {
                    assert forall|i: int| 0 <= i < acc1.len() && (#[trigger] acc1[i]) is Number implies acc1[i]->Number_0.wf() by {
                        if i < acc.len() {
                            assert(acc1[i] == acc[i]);
                        }
                    }
                }
                lemma_scanned_tokens_canonical(s, next, acc1);
            },
            Err(_) => {},
        }
    }
}

/// Members stay well-formed when a key is given a well-formed value.
pub proof fn lemma_with_member_well_formed(
    members: Seq<(Seq<char>, ValueView)>,
    key: Seq<char>,
    value: ValueView,
)
    requires
        members_well_formed(members),
        well_formed(value),
    ensures
        members_well_formed(with_member(members, key, value)),
{
    let after = with_member(members, key, value);
    lemma_with_member(members, key, value, key);
    lemma_position_of(members, key, 0);
    assert forall|i: int| 0 <= i < after.len() implies well_formed((#[trigger] after[i]).1) by {
        if i < members.len() && after[i] != (key, value) {
            assert(after[i] == members[i]);
        }
    }
}

/// A value parsed from tokens with canonical numbers is well-formed.
pub proof fn lemma_parsed_value_well_formed(ts: Seq<TokenView>, pos: int)
    requires
        canonical_tokens(ts),
    ensures
        parse_value_at(ts, pos) matches Ok((v, _)) ==> well_formed(v),
    decreases ts.len() - pos, 0int,
{
    if 0 <= pos < ts.len() {
        match ts[pos] {
            TokenView::LeftBracket => {
                if !(pos + 1 < ts.len() && ts[pos + 1] is RightBracket) {
                    lemma_parsed_elements_well_formed(ts, pos + 1, Seq::empty());
                }
            },
            TokenView::LeftBrace => {
                if !(pos + 1 < ts.len() && ts[pos + 1] is RightBrace) {
                    lemma_parsed_members_well_formed(ts, pos + 1, Seq::empty());
                }
            },
            _ => {},
        }
    }
}

/// An array parsed from tokens with canonical numbers is well-formed, if
/// the elements parsed before are.
pub proof fn lemma_parsed_elements_well_formed(ts: Seq<TokenView>, pos: int, acc: Seq<ValueView>)
    requires
        canonical_tokens(ts),
        all_well_formed(acc),
    ensures
        parse_elements(ts, pos, acc) matches Ok((v, _)) ==> well_formed(v),
    decreases ts.len() - pos, 1int,
{
    lemma_parsed_value_well_formed(ts, pos);
    match parse_value_at(ts, pos) {
        Ok((v, next)) => {
            if pos < next <= ts.len() {
                let acc1 = acc.push(v);
                assert(all_well_formed(acc1)) by {
                    assert forall|i: int| 0 <= i < acc1.len() implies well_formed(
                        #[trigger] acc1[i],
                    ) by {
                        if i < acc.len() {
                            assert(acc1[i] == acc[i]);
                        }
                    }
                }
                if next < ts.len() && ts[next] is Comma && !(next + 1 < ts.len() && ts[next
                    + 1] is RightBracket) {
                    lemma_parsed_elements_well_formed(ts, next + 1, acc1);
                }
            }
        },
        Err(_) => {},
    }
}

/// An object parsed from tokens with canonical numbers is well-formed,
/// if the members parsed before are.
pub proof fn lemma_parsed_members_well_formed(
    ts: Seq<TokenView>,
    pos: int,
    acc: Seq<(Seq<char>, ValueView)>,
)
    requires
        canonical_tokens(ts),
        members_well_formed(acc),
    ensures
        parse_members(ts, pos, acc) matches Ok((v, _)) ==> well_formed(v),
    decreases ts.len() - pos, 1int,
{
    if 0 <= pos < ts.len() && ts[pos] is String && pos + 1 < ts.len() && ts[pos + 1] is Colon {
        let key = ts[pos]->String_0;
        lemma_parsed_value_well_formed(ts, pos + 2);
        match parse_value_at(ts, pos + 2) {
            Ok((v, next)) => {
                if pos + 2 < next <= ts.len() {
                    let acc1 = with_member(acc, key, v);
                    lemma_with_member_well_formed(acc, key, v);
                    if next < ts.len() && ts[next] is Comma && !(next + 1 < ts.len() && ts[next
                        + 1] is RightBrace) {
                        lemma_parsed_members_well_formed(ts, next + 1, acc1);
                    }
                }
            },
            Err(_) => {},
        }
    }
}

/// Whatever a text parses to is well-formed, and its canonical text
/// parses to the same value again, which is equal to it.
pub proof fn lemma_round_trip(s: Seq<char>)
    ensures
        parse_text(s) matches Ok(v) ==> {
            &&& well_formed(v)
            &&& parse_text(render(v)) == Ok::<ValueView, ErrorView>(v)
            &&& equivalent(v, v)
        },
{
    lemma_scanned_tokens_canonical(s, 0, Seq::empty());
    match tokens_of(s) {
        Ok(ts) => {
            lemma_parsed_value_well_formed(ts, 0);
            match parse_text(s) {
                Ok(v) => {
                    lemma_render_parses(v);
                    lemma_equivalent_reflexive(v);
                },
                Err(_) => {},
            }
        },
        Err(_) => {},
    }
}

} // verus!
