//! The text of the JSON objects that are sent out.

use vstd::prelude::*;

verus! {

/// The decimal digits of `n`.
pub open spec fn digits(n: nat) -> Seq<char>
    decreases n,
{
    if n < 10 {
        seq![(48 + n) as char]
    } else {
        digits(n / 10).push((48 + n % 10) as char)
    }
}

/// `n` in decimal, with a minus sign where it is negative.
pub open spec fn decimal(n: int) -> Seq<char> {
    if n < 0 {
        seq!['-'] + digits((-n) as nat)
    } else {
        digits(n as nat)
    }
}

/// A member of an object: the quoted key, a colon and the value.
pub open spec fn member(key: Seq<char>, value: Seq<char>) -> Seq<char> {
    seq!['"'] + key + seq!['"', ':'] + value
}

/// An object with the members `a` to `d`.
pub open spec fn object_of_four(a: Seq<char>, b: Seq<char>, c: Seq<char>, d: Seq<char>) -> Seq<
    char,
> {
    seq!['{'] + a + seq![','] + b + seq![','] + c + seq![','] + d + seq!['}']
}

/// A key that stands in an object as it is: lower-case letters and underscores.
pub open spec fn is_plain_key(key: Seq<char>) -> bool {
    &&& key.len() > 0
    &&& forall|i: int|
        0 <= i < key.len() ==> ('a' <= #[trigger] key[i] && key[i] <= 'z') || key[i] == '_'
}

/// How the JSON value that `literal` writes down is written back; `None` where
/// `literal` is not valid JSON.
pub uninterp spec fn rewritten_literal(literal: Seq<char>) -> Option<Seq<char>>;

/// Calls `serde_json::from_str` on the literal, and `to_string` on the
/// `serde_json::Value` that holds the object.
///
/// Claims that an object with plain keys is written without white space, its
/// members in the order of their keys and its integers in decimal, and that how
/// the value of the literal is written depends on the literal alone. There is no
/// text exactly where the literal cannot be read.
#[verifier::external_body]
pub(crate) fn json_object(
    a: (&str, i64),
    b: (&str, i64),
    c: (&str, &str),
    d: (&str, i64),
) -> (r: Option<String>)
    requires
        is_plain_key(a.0@),
        is_plain_key(b.0@),
        is_plain_key(c.0@),
        is_plain_key(d.0@),
        a.0@[0] < b.0@[0],
        b.0@[0] < c.0@[0],
        c.0@[0] < d.0@[0],
    ensures
        match (r, rewritten_literal(c.1@)) {
            (Some(text), Some(value)) => text@ == object_of_four(
                member(a.0@, decimal(a.1 as int)),
                member(b.0@, decimal(b.1 as int)),
                member(c.0@, value),
                member(d.0@, decimal(d.1 as int)),
            ),
            (None, None) => true,
            _ => false,
        },
{
    let literal: serde_json::Value = serde_json::from_str(c.1).ok()?;
    let mut members = serde_json::Map::new();
    members.insert(a.0.to_owned(), a.1.into());
    members.insert(b.0.to_owned(), b.1.into());
    members.insert(c.0.to_owned(), literal);
    members.insert(d.0.to_owned(), d.1.into());
    Some(serde_json::Value::Object(members).to_string())
}

/// Decimal digits, read from the right: the last one is the remainder by ten, the
/// ones before it are those of the tenth part, and a number below ten has one digit.
/// A negative number is written as a minus sign and the number without it.
pub proof fn law_numbers_are_written_in_decimal(n: nat)
    ensures
        digits(n).len() > 0,
        digits(n).last() as int == 48 + n % 10,
        n < 10 ==> digits(n).len() == 1,
        n >= 10 ==> digits(n).drop_last() == digits(n / 10),
        decimal(n as int) == digits(n),
        n > 0 ==> decimal(-(n as int)) == seq!['-'] + digits(n),
{
    let d = n % 10;
    assert((48 + d) as char as int == 48 + d);
    if n >= 10 {
        assert(digits(n).drop_last() =~= digits(n / 10));
    }
}

/// An object is written without white space, its keys quoted and its members
/// separated by commas.
pub proof fn law_objects_are_compact(
    keys: (Seq<char>, Seq<char>, Seq<char>, Seq<char>),
    values: (Seq<char>, Seq<char>, Seq<char>, Seq<char>),
)
    ensures
        object_of_four(
            member(keys.0, values.0),
            member(keys.1, values.1),
            member(keys.2, values.2),
            member(keys.3, values.3),
        ) == seq!['{', '"'] + keys.0 + seq!['"', ':'] + values.0 + seq![',', '"'] + keys.1 + seq![
            '"',
            ':',
        ] + values.1 + seq![',', '"'] + keys.2 + seq!['"', ':'] + values.2 + seq![',', '"']
            + keys.3 + seq!['"', ':'] + values.3 + seq!['}'],
{
    assert(object_of_four(
        member(keys.0, values.0),
        member(keys.1, values.1),
        member(keys.2, values.2),
        member(keys.3, values.3),
    ) =~= seq!['{', '"'] + keys.0 + seq!['"', ':'] + values.0 + seq![',', '"'] + keys.1 + seq![
        '"',
        ':',
    ] + values.1 + seq![',', '"'] + keys.2 + seq!['"', ':'] + values.2 + seq![',', '"'] + keys.3
        + seq!['"', ':'] + values.3 + seq!['}']);
}

} // verus!
