//! The value tree that parsing produces, the error type that parsing
//! reports, and the constructors for each kind of value.

use vstd::prelude::*;

use crate::model::SpecError;
use crate::model::SpecValue;

verus! {

/// The kind of a [`Value`], without its payload.
pub enum ObjectType {
    Symbol,
    Str,
    Number,
    Boolean,
    List,
}

/// A parsed node: a bare identifier, a quoted string's content, a
/// non-negative integer, a boolean, or an ordered list of child values.
///
/// Once constructed a `Value` is immutable; a `List` owns its children
/// exclusively, so the whole structure is a tree. `Boolean` is a reserved
/// variant: no surface syntax produces it.
#[derive(Debug, PartialEq, Eq)]
pub enum Value {
    Symbol(String),
    Str(String),
    Number(u64),
    Boolean(bool),
    List(Vec<Value>),
}

/// The denotation of one value.
pub open spec fn value_view(v: Value) -> SpecValue
    decreases v,
{
    match v {
        Value::Symbol(s) => SpecValue::Symbol(s@),
        Value::Str(s) => SpecValue::Str(s@),
        Value::Number(n) => SpecValue::Number(n),
        Value::Boolean(b) => SpecValue::Boolean(b),
        Value::List(items) => SpecValue::List(seq_view(items@)),
    }
}

/// The denotations of a sequence of values, in order.
pub open spec fn seq_view(s: Seq<Value>) -> Seq<SpecValue>
    decreases s,
{
    if s.len() == 0 {
        Seq::empty()
    } else {
        seq![value_view(s[0])] + seq_view(s.subrange(1, s.len() as int))
    }
}

impl View for Value {
    type V = SpecValue;

    open spec fn view(&self) -> SpecValue {
        value_view(*self)
    }
}

/// `seq_view` taken apart: it keeps the length and maps each element to its
/// denotation.
pub proof fn lemma_seq_view(s: Seq<Value>)
    ensures
        seq_view(s).len() == s.len(),
        forall|i: int| 0 <= i < s.len() ==> seq_view(s)[i] == #[trigger] s[i]@,
    decreases s.len(),
{
    if s.len() > 0 {
        let tail = s.subrange(1, s.len() as int);
        lemma_seq_view(tail);
        assert forall|i: int| 0 <= i < s.len() implies seq_view(s)[i] == #[trigger] s[i]@ by {
            if i >= 1 {
                assert(tail[i - 1] == s[i]);
                assert(seq_view(s)[i] == seq_view(tail)[i - 1]);
            }
        }
    }
}

/// Appending a value to a sequence appends its denotation to the sequence's
/// denotation.
pub proof fn lemma_seq_view_push(s: Seq<Value>, v: Value)
    ensures
        seq_view(s.push(v)) == seq_view(s).push(v@),
{
    lemma_seq_view(s);
    lemma_seq_view(s.push(v));
    assert forall|i: int| 0 <= i < s.len() + 1 implies seq_view(s.push(v))[i] == seq_view(
        s,
    ).push(v@)[i] by {
        assert(seq_view(s.push(v))[i] == s.push(v)[i]@);
        if i < s.len() {
            assert(s.push(v)[i] == s[i]);
            assert(seq_view(s)[i] == s[i]@);
        } else {
            assert(s.push(v)[i] == v);
        }
    }
    assert(seq_view(s.push(v)) =~= seq_view(s).push(v@));
}

/// A parse failure. Every failure aborts the whole parse; no partial
/// structure is handed out beside it.
#[derive(Debug, PartialEq, Eq, Clone)]
pub enum ParseError {
    /// The text to parse has zero length.
    EmptyInput,
    /// A list or string was opened but never closed, or dispatch was
    /// attempted with nothing left to read.
    UnexpectedEndOfInput,
    /// The lookahead character matches none of the recognized classes.
    InvalidCharacter(char),
    /// A digit run whose value does not fit in `u64`; carries the digits.
    NotANumber(String),
}

impl View for ParseError {
    type V = SpecError;

    open spec fn view(&self) -> SpecError {
        match self {
            ParseError::EmptyInput => SpecError::EmptyInput,
            ParseError::UnexpectedEndOfInput => SpecError::UnexpectedEndOfInput,
            ParseError::InvalidCharacter(c) => SpecError::InvalidCharacter(*c),
            ParseError::NotANumber(s) => SpecError::NotANumber(s@),
        }
    }
}

/// The empty value of the given kind: an empty symbol, an empty string, the
/// number zero, false, or an empty list.
pub fn create_object(kind: ObjectType) -> (r: Value)
    ensures
        kind is Symbol ==> r@ == SpecValue::Symbol(Seq::<char>::empty()),
        kind is Str ==> r@ == SpecValue::Str(Seq::<char>::empty()),
        kind is Number ==> r@ == SpecValue::Number(0u64),
        kind is Boolean ==> r@ == SpecValue::Boolean(false),
        kind is List ==> r@ == SpecValue::List(Seq::<SpecValue>::empty()),
{
    match kind {
        ObjectType::Symbol => Value::Symbol(String::new()),
        ObjectType::Str => Value::Str(String::new()),
        ObjectType::Number => Value::Number(0),
        ObjectType::Boolean => Value::Boolean(false),
        ObjectType::List => {
            let items: Vec<Value> = Vec::new();
            let r = Value::List(items);
            proof {
                assert(r@ matches SpecValue::List(s) && s =~= Seq::<SpecValue>::empty());
            }
            r
        },
    }
}

/// A symbol value holding the given text.
pub fn create_sym_obj(content: &str) -> (r: Value)
    ensures
        r@ == SpecValue::Symbol(content@),
{
    Value::Symbol(content.to_owned())
}

/// A boolean value holding the given flag.
pub fn create_bool_obj(value: bool) -> (r: Value)
    ensures
        r@ == SpecValue::Boolean(value),
{
    Value::Boolean(value)
}

/// A number value holding the given non-negative integer.
pub fn create_num_obj(content: u64) -> (r: Value)
    ensures
        r@ == SpecValue::Number(content),
{
    Value::Number(content)
}

/// A string value holding the given text.
pub fn create_str_obj(text: String) -> (r: Value)
    ensures
        r@ == SpecValue::Str(text@),
{
    Value::Str(text)
}

/// A list value holding the given children, in order.
pub fn create_list_obj(content: Vec<Value>) -> (r: Value)
    ensures
        r@ == SpecValue::List(seq_view(content@)),
{
    let r = Value::List(content);
    proof {
        assert(r@ matches SpecValue::List(s) && s =~= seq_view(content@));
    }
    r
}

} // verus!
