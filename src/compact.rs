use vstd::prelude::*;

verus! {

/// A number as the value tree holds it: an unsigned or a signed integer, or a
/// floating-point value carried as its shortest round-trip decimal text.
pub enum Number {
    Unsigned(u64),
    Signed(i64),
    Float(String),
}

/// The universal value tree that the encoder reads.
pub enum Value {
    Null,
    Bool(bool),
    Number(Number),
    String(String),
    Array(Vec<Value>),
    /// Key/value pairs in iteration order.
    Object(Vec<(String, Value)>),
}

/// Decimal digit character for a value below ten.
pub open spec fn digit_char(d: nat) -> char {
    if d == 0 { '0' } else if d == 1 { '1' } else if d == 2 { '2' } else if d == 3 { '3' }
    else if d == 4 { '4' } else if d == 5 { '5' } else if d == 6 { '6' } else if d == 7 { '7' }
    else if d == 8 { '8' } else { '9' }
}

/// Decimal rendering of a natural number, without sign or leading zeros.
pub open spec fn nat_text(n: nat) -> Seq<char>
    decreases n,
{
    if n < 10 {
        seq![digit_char(n)]
    } else {
        nat_text(n / 10).push(digit_char(n % 10))
    }
}

fn digit_str(d: u64) -> (r: &'static str)
    requires
        d < 10,
    ensures
        r@ == seq![digit_char(d as nat)],
{
    proof {
        reveal_strlit("0"); reveal_strlit("1"); reveal_strlit("2"); reveal_strlit("3");
        reveal_strlit("4"); reveal_strlit("5"); reveal_strlit("6"); reveal_strlit("7");
        reveal_strlit("8"); reveal_strlit("9");
    }
    if d == 0 { "0" } else if d == 1 { "1" } else if d == 2 { "2" } else if d == 3 { "3" }
    else if d == 4 { "4" } else if d == 5 { "5" } else if d == 6 { "6" } else if d == 7 { "7" }
    else if d == 8 { "8" } else { "9" }
}

/// Appends the decimal text of `n`.
fn write_unsigned(n: u64, output: &mut String)
    ensures
        final(output)@ == old(output)@ + nat_text(n as nat),
    decreases n,
{
    if n >= 10 {
        write_unsigned(n / 10, output);
    }
    output.append(digit_str(n % 10));
}

/// Decimal rendering of an integer, with a leading minus sign when negative.
pub open spec fn int_text(i: int) -> Seq<char> {
    if i < 0 {
        seq!['-'] + nat_text((-i) as nat)
    } else {
        nat_text(i as nat)
    }
}

/// Text of a number.
pub open spec fn number_text(n: Number) -> Seq<char> {
    match n {
        Number::Unsigned(u) => nat_text(u as nat),
        Number::Signed(i) => int_text(i as int),
        Number::Float(t) => t@,
    }
}

/// A character as it appears in compact text: line feed and carriage return
/// become a backslash followed by `n` or `r`; everything else stays as it is.
pub open spec fn escape_char(c: char) -> Seq<char> {
    if c == '\n' {
        seq!['\\', 'n']
    } else if c == '\r' {
        seq!['\\', 'r']
    } else {
        seq![c]
    }
}

/// A string with each character escaped by `escape_char`.
pub open spec fn escape(s: Seq<char>) -> Seq<char>
    decreases s.len(),
{
    if s.len() == 0 {
        Seq::empty()
    } else {
        escape(s.drop_last()) + escape_char(s.last())
    }
}

/// The compact text of a value.
pub open spec fn encode(v: Value) -> Seq<char>
    decreases v,
{
    match v {
        Value::Null => seq!['n', 'u', 'l', 'l'],
        Value::Bool(b) => if b {
            seq!['t', 'r', 'u', 'e']
        } else {
            seq!['f', 'a', 'l', 's', 'e']
        },
        Value::Number(n) => number_text(n),
        Value::String(s) => escape(s@),
        Value::Array(items) => seq!['['] + items_text(items@) + seq![']'],
        Value::Object(pairs) => seq!['{'] + pairs_text(pairs@) + seq!['}'],
    }
}

/// The encodings of a sequence of values, separated by commas.
pub open spec fn items_text(s: Seq<Value>) -> Seq<char>
    decreases s,
{
    if s.len() == 0 {
        Seq::empty()
    } else if s.len() == 1 {
        encode(s[0])
    } else {
        items_text(s.drop_last()) + seq![','] + encode(s.last())
    }
}

/// The text of one key/value pair: escaped key, colon, encoded value.
pub open spec fn pair_text(p: (String, Value)) -> Seq<char>
    decreases p,
{
    escape(p.0@) + seq![':'] + encode(p.1)
}

/// The texts of a sequence of key/value pairs, separated by commas.
pub open spec fn pairs_text(s: Seq<(String, Value)>) -> Seq<char>
    decreases s,
{
    if s.len() == 0 {
        Seq::empty()
    } else if s.len() == 1 {
        pair_text(s[0])
    } else {
        pairs_text(s.drop_last()) + seq![','] + pair_text(s.last())
    }
}

/// Appends the decimal text of a signed integer.
fn write_signed(n: i64, output: &mut String)
    ensures
        final(output)@ == old(output)@ + int_text(n as int),
{
    if n < 0 {
        proof {
            reveal_strlit("-");
        }
        output.append("-");
        let m: u64 = if n == i64::MIN {
            9223372036854775808u64
        } else {
            (-n) as u64
        };
        write_unsigned(m, output);
        assert(final(output)@ =~= old(output)@ + int_text(n as int));
    } else {
        write_unsigned(n as u64, output);
    }
}

/// Appends the text of a number.
fn write_number(n: &Number, output: &mut String)
    ensures
        final(output)@ == old(output)@ + number_text(*n),
{
    match n {
        Number::Unsigned(u) => write_unsigned(*u, output),
        Number::Signed(i) => write_signed(*i, output),
        Number::Float(t) => output.append(t.as_str()),
    }
}

/// Appends `s` with line feeds and carriage returns escaped.
pub fn write_escaped(s: &str, output: &mut String)
    ensures
        final(output)@ == old(output)@ + escape(s@),
{
    let n = s.unicode_len();
    let mut i: usize = 0;
    assert(s@.subrange(0, 0) =~= Seq::<char>::empty());
    while i < n
        invariant
            n == s@.len(),
            i <= n,
            output@ == old(output)@ + escape(s@.subrange(0, i as int)),
        decreases n - i,
    {
        let c = s.get_char(i);
        let ghost before = output@;
        if c == '\n' {
            proof {
                reveal_strlit("\\n");
            }
            output.append("\\n");
            assert(output@ =~= before + escape_char(c));
        } else if c == '\r' {
            proof {
                reveal_strlit("\\r");
            }
            output.append("\\r");
            assert(output@ =~= before + escape_char(c));
        } else {
            let one = s.substring_char(i, i + 1);
            assert(one@ =~= seq![c]);
            output.append(one);
            assert(output@ =~= before + escape_char(c));
        }
        proof {
            let next = s@.subrange(0, i + 1);
            assert(next.drop_last() =~= s@.subrange(0, i as int));
            assert(next.last() == c);
            assert(s@.subrange(i as int, i + 1) =~= seq![c]);
            assert(output@ =~= before + escape_char(c));
        }
        i = i + 1;
    }
    assert(s@.subrange(0, n as int) =~= s@);
}

/// Appends the compact text of a value.
fn write_compact_value(value: &Value, output: &mut String)
    ensures
        final(output)@ == old(output)@ + encode(*value),
    decreases value,
{
    match value {
        Value::Null => {
            proof {
                reveal_strlit("null");
            }
            output.append("null");
        },
        Value::Bool(b) => {
            proof {
                reveal_strlit("true");
                reveal_strlit("false");
            }
            output.append(if *b { "true" } else { "false" });
        },
        Value::Number(n) => write_number(n, output),
        Value::String(s) => write_escaped(s.as_str(), output),
        Value::Array(items) => {
            proof {
                reveal_strlit("[");
                reveal_strlit("]");
            }
            output.append("[");
            let ghost start = output@;
            let mut i: usize = 0;
            assert(items@.subrange(0, 0) =~= Seq::<Value>::empty());
            while i < items.len()
                invariant
                    i <= items@.len(),
                    *value == Value::Array(*items),
                    output@ == start + items_text(items@.subrange(0, i as int)),
                decreases items@.len() - i,
            {
                proof {
                    reveal_strlit(",");
                }
                if i > 0 {
                    output.append(",");
                }
                assert(decreases_to!(*value => value->Array_0));
                assert(decreases_to!(*items => items[i as int]));
                write_compact_value(&items[i], output);
                proof {
                    let prev = items@.subrange(0, i as int);
                    let next = items@.subrange(0, i + 1);
                    assert(next.drop_last() =~= prev);
                    assert(next.last() == items@[i as int]);
                    if i == 0 {
                        assert(next[0] == items@[0]);
                        assert(items_text(next) == encode(items@[0]));
                        assert(output@ =~= start + items_text(next));
                    } else {
                        assert(items_text(next) == items_text(prev) + seq![','] + encode(
                            items@[i as int],
                        ));
                        assert(output@ =~= start + items_text(next));
                    }
                }
                i = i + 1;
            }
            assert(items@.subrange(0, items@.len() as int) =~= items@);
            output.append("]");
        },
        Value::Object(pairs) => {
            proof {
                reveal_strlit("{");
                reveal_strlit("}");
            }
            output.append("{");
            let ghost start = output@;
            let mut i: usize = 0;
            assert(pairs@.subrange(0, 0) =~= Seq::<(String, Value)>::empty());
            while i < pairs.len()
                invariant
                    i <= pairs@.len(),
                    *value == Value::Object(*pairs),
                    output@ == start + pairs_text(pairs@.subrange(0, i as int)),
                decreases pairs@.len() - i,
            {
                proof {
                    reveal_strlit(",");
                    reveal_strlit(":");
                }
                if i > 0 {
                    output.append(",");
                }
                let pair = &pairs[i];
                write_escaped(pair.0.as_str(), output);
                output.append(":");
                assert(decreases_to!(*value => value->Object_0));
                assert(decreases_to!(*pairs => pairs[i as int]));
                assert(decreases_to!(pairs[i as int] => pairs[i as int].1));
                write_compact_value(&pair.1, output);
                proof {
                    let prev = pairs@.subrange(0, i as int);
                    let next = pairs@.subrange(0, i + 1);
                    assert(next.drop_last() =~= prev);
                    assert(next.last() == pairs@[i as int]);
                    if i == 0 {
                        assert(next[0] == pairs@[0]);
                        assert(pairs_text(next) == pair_text(pairs@[0]));
                        assert(output@ =~= start + pairs_text(next));
                    } else {
                        assert(pairs_text(next) == pairs_text(prev) + seq![','] + pair_text(
                            pairs@[i as int],
                        ));
                        assert(output@ =~= start + pairs_text(next));
                    }
                }
                i = i + 1;
            }
            assert(pairs@.subrange(0, pairs@.len() as int) =~= pairs@);
            output.append("}");
        },
    }
}

/// Encodes a value in compact form: no quotes, no whitespace, line feeds and
/// carriage returns escaped.
pub fn to_compact_string(value: &Value) -> (r: String)
    ensures
        r@ == encode(*value),
{
    let mut output = String::new();
    write_compact_value(value, &mut output);
    assert(output@ =~= encode(*value));
    output
}

} // verus!
