//! Values produced by evaluating a descriptor or override script, and their
//! canonical literal text.
use vstd::prelude::*;

verus! {

/// A value read out of an evaluated script.
///
/// A table keeps its sequence part (the values at keys `1..=n`) apart from
/// its string-keyed fields; other keys carry nothing this library reads.
pub enum ScriptValue {
    Nil,
    Boolean(bool),
    Str(String),
    Integer(i64),
    /// A floating-point number, held as its canonical decimal text.
    Number(String),
    Table(ScriptTable),
    /// A function, a userdata or any other kind that has no literal text.
    Other,
}

pub struct ScriptTable {
    pub items: Vec<ScriptValue>,
    pub fields: Vec<(String, ScriptValue)>,
}

/// Asked to render a value that has no literal text.
#[derive(Debug, PartialEq, Eq, Structural)]
pub struct UnsupportedValue;

/// The character of a decimal digit.
pub open spec fn digit_char(d: nat) -> char
    recommends
        d < 10,
{
    if d == 0 { '0' }
    else if d == 1 { '1' }
    else if d == 2 { '2' }
    else if d == 3 { '3' }
    else if d == 4 { '4' }
    else if d == 5 { '5' }
    else if d == 6 { '6' }
    else if d == 7 { '7' }
    else if d == 8 { '8' }
    else { '9' }
}

/// The decimal text of a natural number, without leading zeros.
pub open spec fn decimal(n: nat) -> Seq<char>
    decreases n,
{
    if n < 10 {
        seq![digit_char(n)]
    } else {
        decimal(n / 10).push(digit_char(n % 10))
    }
}

/// The decimal text of an integer, with a leading `-` when it is negative.
pub open spec fn int_text(i: int) -> Seq<char> {
    if i < 0 {
        seq!['-'] + decimal((-i) as nat)
    } else {
        decimal(i as nat)
    }
}

/// The literal text of a value: `true`/`false`, a string between double
/// quotes with its content as it is, an integer or a number in decimal.
pub open spec fn literal(v: ScriptValue) -> Option<Seq<char>> {
    match v {
        ScriptValue::Boolean(b) => Some(if b { "true"@ } else { "false"@ }),
        ScriptValue::Str(s) => Some(seq!['"'] + s@ + seq!['"']),
        ScriptValue::Integer(i) => Some(int_text(i as int)),
        ScriptValue::Number(t) => Some(t@),
        _ => None,
    }
}

/// Whether a value counts as true in a condition: anything but nil and false.
pub open spec fn truthy(v: ScriptValue) -> bool {
    match v {
        ScriptValue::Nil => false,
        ScriptValue::Boolean(b) => b,
        _ => true,
    }
}

/// The value of the last field of `fields` named `key`.
pub open spec fn field_of(fields: Seq<(String, ScriptValue)>, key: Seq<char>) -> Option<ScriptValue>
    decreases fields.len(),
{
    if fields.len() == 0 {
        None
    } else if fields.last().0@ == key {
        Some(fields.last().1)
    } else {
        field_of(fields.drop_last(), key)
    }
}

/// The value of a field, nil where the table has no such field.
pub open spec fn field_or_nil(t: ScriptTable, key: Seq<char>) -> ScriptValue {
    match field_of(t.fields@, key) {
        Some(v) => v,
        None => ScriptValue::Nil,
    }
}

fn digit_str(d: u64) -> (r: &'static str)
    requires
        d < 10,
    ensures
        r@ == seq![digit_char(d as nat)],
{
    proof {
        reveal_strlit("0");
        reveal_strlit("1");
        reveal_strlit("2");
        reveal_strlit("3");
        reveal_strlit("4");
        reveal_strlit("5");
        reveal_strlit("6");
        reveal_strlit("7");
        reveal_strlit("8");
        reveal_strlit("9");
    }
    if d == 0 { "0" }
    else if d == 1 { "1" }
    else if d == 2 { "2" }
    else if d == 3 { "3" }
    else if d == 4 { "4" }
    else if d == 5 { "5" }
    else if d == 6 { "6" }
    else if d == 7 { "7" }
    else if d == 8 { "8" }
    else { "9" }
}

/// Appends the decimal text of `n` to `out`.
pub fn push_decimal(out: &mut String, n: u64)
    ensures
        final(out)@ == old(out)@ + decimal(n as nat),
    decreases n,
{
    if n >= 10 {
        push_decimal(out, n / 10);
    }
    out.append(digit_str(n % 10));
    proof {
        if n >= 10 {
            assert(old(out)@ + decimal(n as nat) =~= old(out)@ + decimal((n / 10) as nat) + seq![digit_char((n % 10) as nat)]);
        }
    }
}

/// The decimal text of an unsigned integer.
pub fn usize_text(n: usize) -> (r: String)
    ensures
        r@ == decimal(n as nat),
{
    let mut out = String::new();
    push_decimal(&mut out, n as u64);
    assert(out@ =~= decimal(n as nat));
    out
}

/// The decimal text of a signed integer.
pub fn int_to_text(i: i64) -> (r: String)
    ensures
        r@ == int_text(i as int),
{
    let mut out = String::new();
    if i < 0 {
        proof { reveal_strlit("-"); }
        out.append("-");
        let m: u64 = (0i128 - i as i128) as u64;
        push_decimal(&mut out, m);
    } else {
        push_decimal(&mut out, i as u64);
    }
    assert(out@ =~= int_text(i as int));
    out
}

/// Renders a primitive value as literal text; tables, nil and the other kinds
/// are refused.
pub fn value2str(value: &ScriptValue) -> (r: Result<String, UnsupportedValue>)
    ensures
        match literal(*value) {
            Some(t) => r matches Ok(s) && s@ == t,
            None => r is Err,
        },
{
    match value {
        ScriptValue::Boolean(b) => {
            proof {
                reveal_strlit("true");
                reveal_strlit("false");
            }
            if *b {
                Ok(String::from_str("true"))
            } else {
                Ok(String::from_str("false"))
            }
        },
        ScriptValue::Str(s) => {
            proof { reveal_strlit("\""); }
            let mut out = String::from_str("\"");
            out.append(s.as_str());
            out.append("\"");
            assert(out@ =~= seq!['"'] + s@ + seq!['"']);
            Ok(out)
        },
        ScriptValue::Integer(i) => Ok(int_to_text(*i)),
        ScriptValue::Number(t) => Ok(t.clone()),
        _ => Err(UnsupportedValue),
    }
}

/// Whether a value counts as true in a condition.
pub fn is_truthy(v: &ScriptValue) -> (r: bool)
    ensures
        r == truthy(*v),
{
    match v {
        ScriptValue::Nil => false,
        ScriptValue::Boolean(b) => *b,
        _ => true,
    }
}

/// Looks up a string-keyed field of a table.
pub fn get_field<'a>(t: &'a ScriptTable, key: &str) -> (r: Option<&'a ScriptValue>)
    ensures
        match field_of(t.fields@, key@) {
            Some(v) => r matches Some(x) && *x == v,
            None => r is None,
        },
{
    let k = String::from_str(key);
    let mut i: usize = t.fields.len();
    assert(t.fields@.subrange(0, i as int) =~= t.fields@);
    while i > 0
        invariant
            i <= t.fields@.len(),
            k@ == key@,
            field_of(t.fields@.subrange(0, i as int), key@) == field_of(t.fields@, key@),
        decreases i,
    {
        assert(t.fields@.subrange(0, i as int).drop_last() =~= t.fields@.subrange(0, i - 1));
        if t.fields[i - 1].0 == k {
            return Some(&t.fields[i - 1].1);
        }
        i = i - 1;
    }
    None
}

} // verus!
