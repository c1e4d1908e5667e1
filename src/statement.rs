//! The arguments of an insert statement: an id, a name and a description.
use vstd::prelude::*;
use vstd::string::StringSliceAdditionalSpecFns;
use crate::codec::zeros;
use crate::layout::{DESCRIPTION_MAX_SIZE, NAME_MAX_SIZE};
use crate::node::{DbError, Row};

verus! {

pub open spec fn is_digit(b: u8) -> bool {
    48 <= b <= 57
}

pub open spec fn all_digits(s: Seq<u8>) -> bool {
    forall|i: int| 0 <= i < s.len() ==> is_digit(#[trigger] s[i])
}

/// The number that decimal digits write.
pub open spec fn digits_value(s: Seq<u8>) -> int
    decreases s.len(),
{
    if s.len() == 0 {
        0
    } else {
        digits_value(s.drop_last()) * 10 + (s.last() - 48)
    }
}

/// The number that a decimal integer writes: an optional `+` or `-`, then at least one digit.
pub open spec fn decimal_value(s: Seq<u8>) -> Option<int> {
    if s.len() > 0 && (s[0] == 43u8 || s[0] == 45u8) {
        let d = s.drop_first();
        if d.len() > 0 && all_digits(d) {
            Some(if s[0] == 45u8 { -digits_value(d) } else { digits_value(d) })
        } else {
            None
        }
    } else if s.len() > 0 && all_digits(s) {
        Some(digits_value(s))
    } else {
        None
    }
}

/// The `i64` that the text writes in decimal, if it writes one that fits.
pub open spec fn parsed_i64(s: Seq<u8>) -> Option<i64> {
    match decimal_value(s) {
        Some(v) => if i64::MIN <= v <= i64::MAX {
            Some(v as i64)
        } else {
            None
        },
        None => None,
    }
}

/// Relies on `str::parse::<i64>` (the `FromStr` of `i64`): an optional `+` or `-` and then one
/// or more ASCII digits, with an error for anything else and for a value out of range.
#[verifier::external_body]
fn parse_i64(s: &str) -> (r: Option<i64>)
    ensures
        r == parsed_i64(s.spec_bytes()),
{
    s.parse::<i64>().ok()
}

/// The bytes of a text field, padded with NUL to the field's width.
pub open spec fn padded(b: Seq<u8>, width: nat) -> Seq<u8> {
    b + zeros((width - b.len()) as nat)
}

/// `r` is the row with this id, name and description.
pub open spec fn row_holds(r: Row, id: i64, name: Seq<u8>, description: Seq<u8>) -> bool {
    &&& r.id == id
    &&& r.name@ == padded(name, NAME_MAX_SIZE as nat)
    &&& r.description@ == padded(description, DESCRIPTION_MAX_SIZE as nat)
}

/// The error that rejects the arguments of an insert statement, checked in this order: not
/// three arguments or an id that is no `i64`, an id not above zero, a name longer than its
/// field, a description longer than its field.
pub open spec fn args_error(args: Seq<Seq<u8>>) -> Option<DbError> {
    if args.len() != 3 {
        Some(DbError::InsertSyntax)
    } else {
        match parsed_i64(args[0]) {
            None => Some(DbError::InsertSyntax),
            Some(id) => if id <= 0 {
                Some(DbError::NotPositiveId)
            } else if args[1].len() > NAME_MAX_SIZE {
                Some(DbError::NameTooLong)
            } else if args[2].len() > DESCRIPTION_MAX_SIZE {
                Some(DbError::DescriptionTooLong)
            } else {
                None
            },
        }
    }
}

pub open spec fn args_bytes(args: Seq<&str>) -> Seq<Seq<u8>> {
    args.map_values(|a: &str| a.spec_bytes())
}

fn fill<const N: usize>(b: &[u8]) -> (r: [u8; N])
    requires
        b@.len() <= N,
    ensures
        r@ == padded(b@, N as nat),
{
    let mut a = [0u8; N];
    let mut i: usize = 0;
    while i < b.len()
        invariant
            i <= b@.len(),
            b@.len() <= N,
            a@.len() == N,
            forall|j: int| 0 <= j < i ==> a@[j] == b@[j],
            forall|j: int| i <= j < N ==> a@[j] == 0u8,
        decreases b@.len() - i,
    {
        a[i] = b[i];
        i += 1;
    }
    assert(a@ =~= padded(b@, N as nat));
    a
}

/// Checks the arguments of an insert statement and builds the row that they describe.
pub fn parse_insert_args(args: &[&str]) -> (r: Result<Row, DbError>)
    ensures
        match args_error(args_bytes(args@)) {
            Some(e) => r == Err::<Row, DbError>(e),
            None => r matches Ok(row) && row_holds(
                row,
                parsed_i64(args@[0].spec_bytes()).unwrap(),
                args@[1].spec_bytes(),
                args@[2].spec_bytes(),
            ),
        },
{
    let ghost a = args_bytes(args@);
    if args.len() != 3 {
        return Err(DbError::InsertSyntax);
    }
    assert(a[0] == args@[0].spec_bytes());
    let id = match parse_i64(args[0]) {
        Some(id) => id,
        None => {
            return Err(DbError::InsertSyntax);
        },
    };
    if id <= 0 {
        return Err(DbError::NotPositiveId);
    }
    let name = args[1].as_bytes();
    assert(a[1] == name@);
    if name.len() > NAME_MAX_SIZE {
        return Err(DbError::NameTooLong);
    }
    let description = args[2].as_bytes();
    assert(a[2] == description@);
    if description.len() > DESCRIPTION_MAX_SIZE {
        return Err(DbError::DescriptionTooLong);
    }
    Ok(Row { id, name: fill(name), description: fill(description) })
}

} // verus!
