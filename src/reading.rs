use vstd::prelude::*;
use crate::compact::{encode, escape, items_text, pair_text, pairs_text, Number, Value};
use crate::laws::{is_plain_text, is_structural, lemma_escape_unbroken, lemma_number_plain};

verus! {

/// What a reader of compact text can recover: scalars as their text, lists,
/// and records of key/value pairs.
pub enum Shape {
    Atom(Seq<char>),
    List(Seq<Shape>),
    Record(Seq<(Seq<char>, Shape)>),
}

/// The shape of a value: scalars become the atom of their text.
pub open spec fn shape(v: Value) -> Shape
    decreases v,
{
    match v {
        Value::Array(items) => Shape::List(shapes(items@)),
        Value::Object(pairs) => Shape::Record(pair_shapes(pairs@)),
        _ => Shape::Atom(encode(v)),
    }
}

pub open spec fn shapes(s: Seq<Value>) -> Seq<Shape>
    decreases s,
{
    if s.len() == 0 {
        Seq::empty()
    } else {
        seq![shape(s[0])] + shapes(s.drop_first())
    }
}

pub open spec fn pair_shapes(s: Seq<(String, Value)>) -> Seq<(Seq<char>, Shape)>
    decreases s,
{
    if s.len() == 0 {
        Seq::empty()
    } else {
        seq![(s[0].0@, shape(s[0].1))] + pair_shapes(s.drop_first())
    }
}

/// Length of the run of non-structural characters that starts `t`.
pub open spec fn atom_len(t: Seq<char>) -> nat
    decreases t.len(),
{
    if t.len() == 0 || is_structural(t[0]) {
        0
    } else {
        1 + atom_len(t.drop_first())
    }
}

/// Reads one value from the front of `t`, giving it and the text after it.
pub open spec fn parse_value(t: Seq<char>) -> Option<(Shape, Seq<char>)>
    decreases t.len(), 0nat,
{
    if t.len() > 0 && t[0] == '[' {
        let r = t.drop_first();
        if r.len() > 0 && r[0] == ']' {
            Some((Shape::List(Seq::empty()), r.drop_first()))
        } else {
            match parse_elems(r) {
                Some((xs, rest)) => Some((Shape::List(xs), rest)),
                None => None,
            }
        }
    } else if t.len() > 0 && t[0] == '{' {
        let r = t.drop_first();
        if r.len() > 0 && r[0] == '}' {
            Some((Shape::Record(Seq::empty()), r.drop_first()))
        } else {
            match parse_pairs(r) {
                Some((ps, rest)) => Some((Shape::Record(ps), rest)),
                None => None,
            }
        }
    } else {
        let k = atom_len(t) as int;
        Some((Shape::Atom(t.take(k)), t.skip(k)))
    }
}

/// Reads comma-separated values up to and including the closing bracket.
pub open spec fn parse_elems(t: Seq<char>) -> Option<(Seq<Shape>, Seq<char>)>
    decreases t.len(), 1nat,
{
    match parse_value(t) {
        None => None,
        Some((x, r)) => if r.len() > 0 && r[0] == ',' && r.len() <= t.len() {
            match parse_elems(r.drop_first()) {
                Some((xs, rest)) => Some((seq![x] + xs, rest)),
                None => None,
            }
        } else if r.len() > 0 && r[0] == ']' {
            Some((seq![x], r.drop_first()))
        } else {
            None
        },
    }
}

/// Reads comma-separated `key:value` pairs up to and including the closing brace.
pub open spec fn parse_pairs(t: Seq<char>) -> Option<(Seq<(Seq<char>, Shape)>, Seq<char>)>
    decreases t.len(), 1nat,
{
    let k = atom_len(t) as int;
    let key = t.take(k);
    let r1 = t.skip(k);
    if 0 <= k <= t.len() && r1.len() > 0 && r1[0] == ':' {
        match parse_value(r1.drop_first()) {
            None => None,
            Some((x, r)) => if r.len() > 0 && r[0] == ',' && r.len() <= t.len() {
                match parse_pairs(r.drop_first()) {
                    Some((ps, rest)) => Some((seq![(key, x)] + ps, rest)),
                    None => None,
                }
            } else if r.len() > 0 && r[0] == '}' {
                Some((seq![(key, x)], r.drop_first()))
            } else {
                None
            },
        }
    } else {
        None
    }
}

/// A value that compact text renders without loss of structure: strings,
/// keys and float texts hold no structural character and no line break, and
/// no array holds a single element whose text is empty (it would read back as
/// an empty array).
pub open spec fn is_readable(v: Value) -> bool
    decreases v,
{
    match v {
        Value::Number(Number::Float(t)) => is_plain_text(t@),
        Value::String(s) => is_plain_text(s@),
        Value::Array(items) => !(items@.len() == 1 && encode(items@[0]).len() == 0) && forall|i: int|
            #![trigger items@[i]]
            0 <= i < items@.len() ==> is_readable(items@[i]),
        Value::Object(pairs) => forall|i: int|
            #![trigger pairs@[i]]
            0 <= i < pairs@.len() ==> is_plain_text(pairs@[i].0@) && is_readable(pairs@[i].1),
        _ => true,
    }
}

/// Text that may follow a value: nothing, a separator or a closing delimiter.
pub open spec fn may_follow(r: Seq<char>) -> bool {
    r.len() == 0 || r[0] == ',' || r[0] == ']' || r[0] == '}' || r[0] == ':'
}

proof fn lemma_atom(p: Seq<char>, r: Seq<char>)
    requires
        is_plain_text(p),
        may_follow(r),
    ensures
        atom_len(p + r) == p.len(),
        (p + r).take(p.len() as int) == p,
        (p + r).skip(p.len() as int) == r,
    decreases p.len(),
{
    assert((p + r).take(p.len() as int) =~= p);
    assert((p + r).skip(p.len() as int) =~= r);
    if p.len() == 0 {
        assert(p + r =~= r);
    } else {
        let q = p.drop_first();
        assert(is_plain_text(q)) by {
            assert forall|i: int| 0 <= i < q.len() implies crate::laws::is_plain_char(
                #[trigger] q[i],
            ) by {
                assert(q[i] == p[i + 1]);
            }
        }
        assert((p + r).drop_first() =~= q + r);
        assert((p + r)[0] == p[0]);
        assert(crate::laws::is_plain_char(p[0]));
        lemma_atom(q, r);
    }
}

/// A scalar's text holds no structural character.
proof fn lemma_scalar_plain(v: Value)
    requires
        is_readable(v),
        !(v is Array),
        !(v is Object),
    ensures
        is_plain_text(encode(v)),
{
    match v {
        Value::Null => {
            let t = seq!['n', 'u', 'l', 'l'];
            assert(t[0] == 'n' && t[1] == 'u' && t[2] == 'l' && t[3] == 'l');
        },
        Value::Bool(b) => {
            let t = seq!['t', 'r', 'u', 'e'];
            let f = seq!['f', 'a', 'l', 's', 'e'];
            assert(t[0] == 't' && t[1] == 'r' && t[2] == 'u' && t[3] == 'e');
            assert(f[0] == 'f' && f[1] == 'a' && f[2] == 'l' && f[3] == 's' && f[4] == 'e');
        },
        Value::Number(n) => lemma_number_plain(n),
        Value::String(s) => lemma_escape_unbroken(s@),
        _ => {},
    }
}

proof fn lemma_items_front(s: Seq<Value>)
    requires
        s.len() >= 2,
    ensures
        items_text(s) == encode(s[0]) + seq![','] + items_text(s.drop_first()),
    decreases s.len(),
{
    let init = s.drop_last();
    let tail = s.drop_first();
    assert(tail.drop_last() =~= init.drop_first());
    assert(tail.last() == s.last());
    if s.len() == 2 {
        assert(init.len() == 1 && init[0] == s[0]);
        assert(tail.len() == 1 && tail[0] == s[1]);
        assert(items_text(s) =~= encode(s[0]) + seq![','] + items_text(tail));
    } else {
        lemma_items_front(init);
        assert(init[0] == s[0]);
        assert(items_text(tail) == items_text(tail.drop_last()) + seq![','] + encode(tail.last()));
        assert(items_text(s) == items_text(init) + seq![','] + encode(s.last()));
        assert(items_text(s) =~= encode(s[0]) + seq![','] + items_text(tail));
    }
}

proof fn lemma_pairs_front(s: Seq<(String, Value)>)
    requires
        s.len() >= 2,
    ensures
        pairs_text(s) == pair_text(s[0]) + seq![','] + pairs_text(s.drop_first()),
    decreases s.len(),
{
    let init = s.drop_last();
    let tail = s.drop_first();
    assert(tail.drop_last() =~= init.drop_first());
    assert(tail.last() == s.last());
    if s.len() == 2 {
        assert(init.len() == 1 && init[0] == s[0]);
        assert(tail.len() == 1 && tail[0] == s[1]);
        assert(pairs_text(s) =~= pair_text(s[0]) + seq![','] + pairs_text(tail));
    } else {
        lemma_pairs_front(init);
        assert(init[0] == s[0]);
        assert(pairs_text(tail) == pairs_text(tail.drop_last()) + seq![','] + pair_text(
            tail.last(),
        ));
        assert(pairs_text(s) == pairs_text(init) + seq![','] + pair_text(s.last()));
        assert(pairs_text(s) =~= pair_text(s[0]) + seq![','] + pairs_text(tail));
    }
}

proof fn lemma_plain_unbroken(p: Seq<char>)
    requires
        is_plain_text(p),
    ensures
        escape(p) == p,
{
    assert forall|i: int| 0 <= i < p.len() implies #[trigger] p[i] != '\n' && p[i] != '\r' by {
        assert(crate::laws::is_plain_char(p[i]));
    }
    lemma_escape_unbroken(p);
}

/// A readable value's text, when not empty, opens with a character that does
/// not close a list or a record.
proof fn lemma_value_head(v: Value)
    requires
        is_readable(v),
    ensures
        encode(v).len() > 0 ==> encode(v)[0] != ']' && encode(v)[0] != '}',
{
    match v {
        Value::Array(items) => {},
        Value::Object(pairs) => {},
        _ => {
            lemma_scalar_plain(v);
            if encode(v).len() > 0 {
                assert(crate::laws::is_plain_char(encode(v)[0]));
            }
        },
    }
}

proof fn lemma_read_value(v: Value, r: Seq<char>)
    requires
        is_readable(v),
        may_follow(r),
    ensures
        parse_value(encode(v) + r) == Some((shape(v), r)),
    decreases v,
{
    let t = encode(v) + r;
    match v {
        Value::Array(items) => {
            let s = items@;
            assert(t[0] == '[');
            let rr = t.drop_first();
            let close = seq![']'] + r;
            assert(rr =~= items_text(s) + close);
            if s.len() == 0 {
                assert(items_text(s) == Seq::<char>::empty());
                assert(close.drop_first() =~= r);
                assert(shapes(s) == Seq::<Shape>::empty());
            } else {
                assert forall|i: int| 0 <= i < s.len() implies #[trigger] is_readable(s[i]) by {
                    assert(items@[i] == s[i]);
                }
                if s.len() == 1 {
                    lemma_value_head(s[0]);
                } else {
                    lemma_items_front(s);
                    lemma_value_head(s[0]);
                    if encode(s[0]).len() > 0 {
                        assert(items_text(s)[0] == encode(s[0])[0]);
                    } else {
                        assert(items_text(s)[0] == ',');
                    }
                }
                assert(rr[0] == items_text(s)[0]);
                assert(decreases_to!(v => v->Array_0));
                lemma_read_elems(s, close);
                assert(close.drop_first() =~= r);
            }
        },
        Value::Object(pairs) => {
            let s = pairs@;
            assert(t[0] == '{');
            let rr = t.drop_first();
            let close = seq!['}'] + r;
            assert(rr =~= pairs_text(s) + close);
            if s.len() == 0 {
                assert(pairs_text(s) == Seq::<char>::empty());
                assert(close.drop_first() =~= r);
                assert(pair_shapes(s) == Seq::<(Seq<char>, Shape)>::empty());
            } else {
                assert forall|i: int| 0 <= i < s.len() implies is_plain_text(#[trigger] s[i].0@)
                    && is_readable(s[i].1) by {
                    assert(pairs@[i] == s[i]);
                }
                let key = s[0].0@;
                lemma_plain_unbroken(key);
                let first = pair_text(s[0]);
                if s.len() >= 2 {
                    lemma_pairs_front(s);
                }
                assert(pairs_text(s).len() >= first.len());
                assert(pairs_text(s)[0] == first[0]);
                if key.len() > 0 {
                    assert(first[0] == key[0]);
                    assert(crate::laws::is_plain_char(key[0]));
                } else {
                    assert(first[0] == ':');
                }
                assert(rr[0] == pairs_text(s)[0]);
                assert(decreases_to!(v => v->Object_0));
                lemma_read_pairs(s, close);
                assert(close.drop_first() =~= r);
            }
        },
        _ => {
            lemma_scalar_plain(v);
            lemma_atom(encode(v), r);
            if encode(v).len() > 0 {
                assert(t[0] == encode(v)[0]);
                assert(crate::laws::is_plain_char(encode(v)[0]));
            } else {
                assert(t =~= r);
            }
        },
    }
}

proof fn lemma_read_elems(s: Seq<Value>, r: Seq<char>)
    requires
        s.len() >= 1,
        forall|i: int| 0 <= i < s.len() ==> #[trigger] is_readable(s[i]),
        r.len() > 0,
        r[0] == ']',
    ensures
        parse_elems(items_text(s) + r) == Some((shapes(s), r.drop_first())),
    decreases s,
{
    let t = items_text(s) + r;
    let tail = s.drop_first();
    assert(is_readable(s[0]));
    if s.len() == 1 {
        assert(items_text(s) == encode(s[0]));
        lemma_read_value(s[0], r);
        assert(tail.len() == 0);
        assert(shapes(tail) == Seq::<Shape>::empty());
        assert(shapes(s) =~= seq![shape(s[0])]);
    } else {
        lemma_items_front(s);
        let r2 = seq![','] + (items_text(tail) + r);
        assert(t =~= encode(s[0]) + r2);
        lemma_read_value(s[0], r2);
        assert(r2.drop_first() =~= items_text(tail) + r);
        assert forall|i: int| 0 <= i < tail.len() implies #[trigger] is_readable(tail[i]) by {
            assert(tail[i] == s[i + 1]);
        }
        lemma_read_elems(tail, r);
    }
}

proof fn lemma_read_pairs(s: Seq<(String, Value)>, r: Seq<char>)
    requires
        s.len() >= 1,
        forall|i: int| 0 <= i < s.len() ==> is_plain_text(#[trigger] s[i].0@) && is_readable(
            s[i].1,
        ),
        r.len() > 0,
        r[0] == '}',
    ensures
        parse_pairs(pairs_text(s) + r) == Some((pair_shapes(s), r.drop_first())),
    decreases s,
{
    let t = pairs_text(s) + r;
    let tail = s.drop_first();
    let p = s[0];
    let key = p.0@;
    assert(is_plain_text(key) && is_readable(p.1));
    lemma_plain_unbroken(key);
    let r2 = if s.len() == 1 {
        r
    } else {
        seq![','] + (pairs_text(tail) + r)
    };
    if s.len() == 1 {
        assert(pairs_text(s) == pair_text(p));
    } else {
        lemma_pairs_front(s);
    }
    let after_key = seq![':'] + (encode(p.1) + r2);
    assert(t =~= key + after_key);
    lemma_atom(key, after_key);
    assert(after_key.drop_first() =~= encode(p.1) + r2);
    assert(decreases_to!(s => s[0]));
    lemma_read_value(p.1, r2);
    if s.len() == 1 {
        assert(tail.len() == 0);
        assert(pair_shapes(tail) == Seq::<(Seq<char>, Shape)>::empty());
        assert(pair_shapes(s) =~= seq![(key, shape(p.1))]);
    } else {
        assert(r2.drop_first() =~= pairs_text(tail) + r);
        assert forall|i: int| 0 <= i < tail.len() implies is_plain_text(#[trigger] tail[i].0@)
            && is_readable(tail[i].1) by {
            assert(tail[i] == s[i + 1]);
        }
        lemma_read_pairs(tail, r);
    }
}

/// Compact text of a readable value reads back: the relaxed reader over the
/// compact grammar recovers the whole text as one value whose lists, records
/// and keys are those of the value and whose scalars are their texts.
pub proof fn law_readable_round_trip(v: Value)
    requires
        is_readable(v),
    ensures
        parse_value(encode(v)) == Some((shape(v), Seq::<char>::empty())),
{
    lemma_read_value(v, Seq::empty());
    assert(encode(v) + Seq::<char>::empty() =~= encode(v));
}

} // verus!
