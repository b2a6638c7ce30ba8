use vstd::prelude::*;
use crate::compact::{
    encode, escape, escape_char, int_text, items_text, nat_text, number_text, pair_text, pairs_text,
    Number, Value,
};

verus! {

/// Characters that delimit structure in compact text.
pub open spec fn is_structural(c: char) -> bool {
    c == '{' || c == '}' || c == '[' || c == ']' || c == ',' || c == ':'
}

/// Characters that are safe in string content: neither structural nor a
/// line break.
pub open spec fn is_plain_char(c: char) -> bool {
    !is_structural(c) && c != '\n' && c != '\r'
}

pub open spec fn is_plain_text(s: Seq<char>) -> bool {
    forall|i: int| 0 <= i < s.len() ==> is_plain_char(#[trigger] s[i])
}

/// A value whose strings and keys hold only plain characters, at every depth.
pub open spec fn is_plain_value(v: Value) -> bool
    decreases v,
{
    match v {
        Value::Number(Number::Float(t)) => is_plain_text(t@),
        Value::String(s) => is_plain_text(s@),
        Value::Array(items) => forall|i: int|
            #![trigger items@[i]]
            0 <= i < items@.len() ==> is_plain_value(items@[i]),
        Value::Object(pairs) => forall|i: int|
            0 <= i < pairs@.len() ==> is_plain_text(#[trigger] pairs@[i].0@)
                && is_plain_value(pairs@[i].1),
        _ => true,
    }
}

/// Change of nesting depth over a text: opening brackets and braces count one
/// up, closing ones one down.
pub open spec fn depth_change(t: Seq<char>) -> int
    decreases t.len(),
{
    if t.len() == 0 {
        0
    } else {
        let c = t[0];
        let step: int = if c == '[' || c == '{' {
            1
        } else if c == ']' || c == '}' {
            -1
        } else {
            0
        };
        step + depth_change(t.drop_first())
    }
}

/// Number of commas in `t` that stand at depth zero, when `t` starts at depth `d`.
pub open spec fn commas_at(t: Seq<char>, d: int) -> nat
    decreases t.len(),
{
    if t.len() == 0 {
        0
    } else {
        let c = t[0];
        let rest = t.drop_first();
        if c == '[' || c == '{' {
            commas_at(rest, d + 1)
        } else if c == ']' || c == '}' {
            commas_at(rest, d - 1)
        } else if c == ',' && d == 0 {
            1 + commas_at(rest, d)
        } else {
            commas_at(rest, d)
        }
    }
}

/// Commas of a text that are not nested inside brackets or braces.
pub open spec fn top_level_commas(t: Seq<char>) -> nat {
    commas_at(t, 0)
}

proof fn lemma_concat_counts(a: Seq<char>, b: Seq<char>, d: int)
    ensures
        commas_at(a + b, d) == commas_at(a, d) + commas_at(b, d + depth_change(a)),
        depth_change(a + b) == depth_change(a) + depth_change(b),
    decreases a.len(),
{
    if a.len() == 0 {
        assert(a + b =~= b);
    } else {
        assert((a + b).drop_first() =~= a.drop_first() + b);
        assert((a + b)[0] == a[0]);
        let c = a[0];
        let e: int = if c == '[' || c == '{' {
            d + 1
        } else if c == ']' || c == '}' {
            d - 1
        } else {
            d
        };
        lemma_concat_counts(a.drop_first(), b, e);
    }
}

proof fn lemma_plain_text_counts(s: Seq<char>, d: int)
    requires
        is_plain_text(s),
    ensures
        commas_at(s, d) == 0,
        depth_change(s) == 0,
    decreases s.len(),
{
    if s.len() > 0 {
        assert(is_plain_char(s[0]));
        assert forall|i: int| 0 <= i < s.drop_first().len() implies is_plain_char(
            #[trigger] s.drop_first()[i],
        ) by {
            assert(s.drop_first()[i] == s[i + 1]);
        }
        lemma_plain_text_counts(s.drop_first(), d);
    }
}

/// Text without line breaks is left unchanged by escaping.
pub proof fn lemma_escape_unbroken(s: Seq<char>)
    requires
        forall|i: int| 0 <= i < s.len() ==> #[trigger] s[i] != '\n' && s[i] != '\r',
    ensures
        escape(s) == s,
    decreases s.len(),
{
    if s.len() > 0 {
        lemma_escape_unbroken(s.drop_last());
        assert(s.drop_last() + seq![s.last()] =~= s);
    }
}

/// Escaping works character by character: the escape of a concatenation is the
/// concatenation of the escapes.
pub proof fn lemma_escape_concat(a: Seq<char>, b: Seq<char>)
    ensures
        escape(a + b) == escape(a) + escape(b),
    decreases b.len(),
{
    if b.len() == 0 {
        assert(a + b =~= a);
        assert(escape(a) + escape(b) =~= escape(a));
    } else {
        assert((a + b).drop_last() =~= a + b.drop_last());
        assert((a + b).last() == b.last());
        lemma_escape_concat(a, b.drop_last());
        assert(escape(a + b) =~= escape(a) + escape(b));
    }
}

/// A string encodes to its characters, each line feed replaced by a backslash
/// and `n`, each carriage return by a backslash and `r`, and nothing else
/// changed: a string of one character becomes that character's escape, a
/// longer one the escapes of its parts in order, and one without line breaks
/// stays as it is.
pub proof fn law_string_encoding(s: String, a: Seq<char>, b: Seq<char>, c: char)
    ensures
        encode(Value::String(s)) == escape(s@),
        escape(seq![c]) == escape_char(c),
        escape(a + b) == escape(a) + escape(b),
        (forall|i: int| 0 <= i < s@.len() ==> #[trigger] s@[i] != '\n' && s@[i] != '\r')
            ==> encode(Value::String(s)) == s@,
{
    lemma_escape_concat(a, b);
    assert(seq![c].drop_last() =~= Seq::<char>::empty());
    assert(seq![c].last() == c);
    assert(escape(Seq::<char>::empty()) == Seq::<char>::empty());
    assert(escape(seq![c]) == escape(seq![c].drop_last()) + escape_char(c));
    assert(Seq::<char>::empty() + escape_char(c) =~= escape_char(c));
    if forall|i: int| 0 <= i < s@.len() ==> #[trigger] s@[i] != '\n' && s@[i] != '\r' {
        lemma_escape_unbroken(s@);
    }
}

proof fn lemma_char_counts(c: char, d: int)
    requires
        d != 0 || c != ',',
        !(c == '[' || c == '{' || c == ']' || c == '}'),
    ensures
        commas_at(seq![c], d) == 0,
        depth_change(seq![c]) == 0,
{
    let t = seq![c];
    assert(t.drop_first() =~= Seq::<char>::empty());
    assert(t[0] == c);
    assert(commas_at(Seq::<char>::empty(), d) == 0);
    assert(depth_change(Seq::<char>::empty()) == 0);
}

proof fn lemma_separator_counts(e: int)
    ensures
        commas_at(seq![','], e) == if e == 0 {
            1nat
        } else {
            0
        },
        depth_change(seq![',']) == 0,
{
    let t = seq![','];
    assert(t.drop_first() =~= Seq::<char>::empty());
    assert(t[0] == ',');
    assert(commas_at(Seq::<char>::empty(), e) == 0);
    assert(depth_change(Seq::<char>::empty()) == 0);
}

proof fn lemma_literal_counts(t: Seq<char>, d: int)
    requires
        forall|i: int| 0 <= i < t.len() ==> #[trigger] t[i] != ',' && t[i] != '[' && t[i] != ']'
            && t[i] != '{' && t[i] != '}' && t[i] != ':' && t[i] != '\n' && t[i] != '\r',
    ensures
        commas_at(t, d) == 0,
        depth_change(t) == 0,
{
    assert forall|i: int| 0 <= i < t.len() implies is_plain_char(#[trigger] t[i]) by {}
    lemma_plain_text_counts(t, d);
}

proof fn lemma_nat_text_plain(n: nat)
    ensures
        is_plain_text(nat_text(n)),
    decreases n,
{
    if n >= 10 {
        lemma_nat_text_plain(n / 10);
        let t = nat_text(n / 10);
        assert forall|i: int| 0 <= i < nat_text(n).len() implies is_plain_char(
            #[trigger] nat_text(n)[i],
        ) by {
            if i < t.len() {
                assert(nat_text(n)[i] == t[i]);
            }
        }
    }
}

pub(crate) proof fn lemma_number_plain(n: Number)
    requires
        n is Float ==> is_plain_text(n->Float_0@),
    ensures
        is_plain_text(number_text(n)),
{
    match n {
        Number::Unsigned(u) => lemma_nat_text_plain(u as nat),
        Number::Signed(i) => {
            if i < 0 {
                let m = (-i) as nat;
                lemma_nat_text_plain(m);
                let t = seq!['-'] + nat_text(m);
                assert forall|k: int| 0 <= k < t.len() implies is_plain_char(#[trigger] t[k]) by {
                    if k > 0 {
                        assert(t[k] == nat_text(m)[k - 1]);
                    }
                }
            } else {
                lemma_nat_text_plain(i as nat);
            }
        },
        Number::Float(t) => {},
    }
}

proof fn lemma_char_counts_open_close(d: int)
    ensures
        commas_at(seq!['['], d) == 0,
        commas_at(seq!['{'], d) == 0,
        depth_change(seq!['[']) == 1,
        depth_change(seq!['{']) == 1,
        commas_at(seq![']'], d + 1) == 0,
        commas_at(seq!['}'], d + 1) == 0,
        depth_change(seq![']']) == -1,
        depth_change(seq!['}']) == -1,
{
    let e = Seq::<char>::empty();
    assert(seq!['['].drop_first() =~= e);
    assert(seq!['{'].drop_first() =~= e);
    assert(seq![']'].drop_first() =~= e);
    assert(seq!['}'].drop_first() =~= e);
    assert(seq!['['][0] == '[');
    assert(seq!['{'][0] == '{');
    assert(seq![']'][0] == ']');
    assert(seq!['}'][0] == '}');
    assert(commas_at(e, d + 1) == 0);
    assert(commas_at(e, d) == 0);
    assert(depth_change(e) == 0);
}

/// A plain value's text is balanced and holds no comma at the depth it starts from.
proof fn lemma_value_counts(v: Value, d: int)
    requires
        is_plain_value(v),
        d >= 0,
    ensures
        commas_at(encode(v), d) == 0,
        depth_change(encode(v)) == 0,
    decreases v,
{
    match v {
        Value::Null => {
            let t = seq!['n', 'u', 'l', 'l'];
            assert(t[0] == 'n' && t[1] == 'u' && t[2] == 'l' && t[3] == 'l');
            lemma_literal_counts(t, d);
        },
        Value::Bool(b) => {
            let t = seq!['t', 'r', 'u', 'e'];
            let f = seq!['f', 'a', 'l', 's', 'e'];
            assert(t[0] == 't' && t[1] == 'r' && t[2] == 'u' && t[3] == 'e');
            assert(f[0] == 'f' && f[1] == 'a' && f[2] == 'l' && f[3] == 's' && f[4] == 'e');
            lemma_literal_counts(t, d);
            lemma_literal_counts(f, d);
        },
        Value::Number(n) => {
            lemma_number_plain(n);
            lemma_plain_text_counts(number_text(n), d);
        },
        Value::String(t) => {
            lemma_escape_unbroken(t@);
            lemma_plain_text_counts(t@, d);
        },
        Value::Array(items) => {
            assert(decreases_to!(v => v->Array_0));
            assert forall|i: int| 0 <= i < items@.len() implies #[trigger] is_plain_value(
                items@[i],
            ) by {
                assert(items@[i] == items@[i]);
            }
            lemma_items_counts(items@, d + 1);
            lemma_char_counts_open_close(d);
            let open = seq!['['];
            let inner = items_text(items@);
            let close = seq![']'];
            assert(open.drop_first() =~= Seq::<char>::empty());
            assert(close.drop_first() =~= Seq::<char>::empty());
            lemma_concat_counts(open, inner, d);
            lemma_concat_counts(open + inner, close, d);
        },
        Value::Object(pairs) => {
            assert(decreases_to!(v => v->Object_0));
            lemma_pairs_counts(pairs@, d + 1);
            lemma_char_counts_open_close(d);
            let open = seq!['{'];
            let inner = pairs_text(pairs@);
            let close = seq!['}'];
            assert(open.drop_first() =~= Seq::<char>::empty());
            assert(close.drop_first() =~= Seq::<char>::empty());
            lemma_concat_counts(open, inner, d);
            lemma_concat_counts(open + inner, close, d);
        },
    }
}

/// The items of a plain list are balanced; at depth zero the separators are
/// the only commas counted.
proof fn lemma_items_counts(s: Seq<Value>, e: int)
    requires
        forall|i: int| 0 <= i < s.len() ==> #[trigger] is_plain_value(s[i]),
        e >= 0,
    ensures
        depth_change(items_text(s)) == 0,
        commas_at(items_text(s), e) == if e == 0 && s.len() > 0 {
            (s.len() - 1) as nat
        } else {
            0
        },
    decreases s,
{
    if s.len() == 1 {
        lemma_value_counts(s[0], e);
    } else if s.len() > 1 {
        let init = s.drop_last();
        assert forall|i: int| 0 <= i < init.len() implies #[trigger] is_plain_value(init[i]) by {
            assert(init[i] == s[i]);
        }
        lemma_items_counts(init, e);
        assert(is_plain_value(s[s.len() - 1]));
        lemma_value_counts(s.last(), e);
        lemma_separator_counts(e);
        lemma_concat_counts(items_text(init), seq![','], e);
        lemma_concat_counts(items_text(init) + seq![','], encode(s.last()), e);
    }
}

proof fn lemma_pair_counts(p: (String, Value), d: int)
    requires
        is_plain_text(p.0@),
        is_plain_value(p.1),
        d >= 0,
    ensures
        commas_at(pair_text(p), d) == 0,
        depth_change(pair_text(p)) == 0,
    decreases p,
{
    lemma_escape_unbroken(p.0@);
    lemma_plain_text_counts(p.0@, d);
    lemma_char_counts(':', d);
    lemma_value_counts(p.1, d);
    lemma_concat_counts(p.0@, seq![':'], d);
    lemma_concat_counts(p.0@ + seq![':'], encode(p.1), d);
}

/// The pairs of a plain object are balanced; at depth zero the separators are
/// the only commas counted.
proof fn lemma_pairs_counts(s: Seq<(String, Value)>, e: int)
    requires
        forall|i: int| 0 <= i < s.len() ==> is_plain_text(#[trigger] s[i].0@) && is_plain_value(
            s[i].1,
        ),
        e >= 0,
    ensures
        depth_change(pairs_text(s)) == 0,
        commas_at(pairs_text(s), e) == if e == 0 && s.len() > 0 {
            (s.len() - 1) as nat
        } else {
            0
        },
    decreases s,
{
    if s.len() == 1 {
        assert(is_plain_text(s[0].0@));
        lemma_pair_counts(s[0], e);
    } else if s.len() > 1 {
        let init = s.drop_last();
        assert forall|i: int| 0 <= i < init.len() implies is_plain_text(#[trigger] init[i].0@)
            && is_plain_value(init[i].1) by {
            assert(init[i] == s[i]);
        }
        lemma_pairs_counts(init, e);
        assert(is_plain_text(s[s.len() - 1].0@));
        lemma_pair_counts(s.last(), e);
        lemma_separator_counts(e);
        lemma_concat_counts(pairs_text(init), seq![','], e);
        lemma_concat_counts(pairs_text(init) + seq![','], pair_text(s.last()), e);
    }
}

/// An array of n plain elements encodes as its elements' texts between
/// brackets, with exactly n - 1 commas at the top level between the brackets
/// and none when it is empty.
pub proof fn law_array_separators(items: Vec<Value>)
    requires
        forall|i: int| 0 <= i < items@.len() ==> #[trigger] is_plain_value(items@[i]),
    ensures
        encode(Value::Array(items)) == seq!['['] + items_text(items@) + seq![']'],
        top_level_commas(items_text(items@)) == if items@.len() == 0 {
            0
        } else {
            (items@.len() - 1) as nat
        },
{
    lemma_items_counts(items@, 0);
}

} // verus!
