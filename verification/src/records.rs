//! The entity types, their mathematical views, the validation rules, and the
//! public error taxonomy of the record service.

use vstd::prelude::*;
use vstd::string::StringExecFns;

use crate::dmap::Record;

verus! {

/// A customer record. `id` is unique and stable once assigned; `created_at`
/// is stamped at creation and never mutated.
#[derive(Debug, PartialEq, Eq)]
pub struct Customer {
    pub id: u64,
    pub name: String,
    pub email: String,
    pub phone: String,
    pub created_at: u64,
}

/// Mathematical view of a [`Customer`]: the strings as character sequences.
pub struct CustomerV {
    pub id: u64,
    pub name: Seq<char>,
    pub email: Seq<char>,
    pub phone: Seq<char>,
    pub created_at: u64,
}

impl View for Customer {
    type V = CustomerV;

    open spec fn view(&self) -> CustomerV {
        CustomerV {
            id: self.id,
            name: self.name@,
            email: self.email@,
            phone: self.phone@,
            created_at: self.created_at,
        }
    }
}

impl Record for Customer {
    fn duplicate(&self) -> (r: Self) {
        Customer {
            id: self.id,
            name: self.name.clone(),
            email: self.email.clone(),
            phone: self.phone.clone(),
            created_at: self.created_at,
        }
    }
}

/// An interaction with a customer. `customer_id` is a logical foreign key:
/// it may name a customer that never existed or was deleted; no referential
/// check is made. `created_at` is immutable; `updated_at` is absent until
/// the first update and refreshed on every later one.
#[derive(Debug, PartialEq, Eq)]
pub struct Interaction {
    pub id: u64,
    pub customer_id: u64,
    pub interaction_type: String,
    pub content: String,
    pub created_at: u64,
    pub updated_at: Option<u64>,
}

/// Mathematical view of an [`Interaction`].
pub struct InteractionV {
    pub id: u64,
    pub customer_id: u64,
    pub interaction_type: Seq<char>,
    pub content: Seq<char>,
    pub created_at: u64,
    pub updated_at: Option<u64>,
}

impl View for Interaction {
    type V = InteractionV;

    open spec fn view(&self) -> InteractionV {
        InteractionV {
            id: self.id,
            customer_id: self.customer_id,
            interaction_type: self.interaction_type@,
            content: self.content@,
            created_at: self.created_at,
            updated_at: self.updated_at,
        }
    }
}

impl Record for Interaction {
    fn duplicate(&self) -> (r: Self) {
        Interaction {
            id: self.id,
            customer_id: self.customer_id,
            interaction_type: self.interaction_type.clone(),
            content: self.content.clone(),
            created_at: self.created_at,
            updated_at: self.updated_at,
        }
    }
}

/// The caller-supplied part of an interaction.
#[derive(Debug, PartialEq, Eq)]
pub struct InteractionPayload {
    pub customer_id: u64,
    pub interaction_type: String,
    pub content: String,
}

/// Mathematical view of an [`InteractionPayload`].
pub struct InteractionPayloadV {
    pub customer_id: u64,
    pub interaction_type: Seq<char>,
    pub content: Seq<char>,
}

impl View for InteractionPayload {
    type V = InteractionPayloadV;

    open spec fn view(&self) -> InteractionPayloadV {
        InteractionPayloadV {
            customer_id: self.customer_id,
            interaction_type: self.interaction_type@,
            content: self.content@,
        }
    }
}

/// The two user-facing error kinds. Internal conditions (an oversized
/// encoding, a counter at its limit) are not part of this taxonomy: the
/// operations exclude them by precondition instead.
#[derive(Debug, PartialEq, Eq)]
pub enum Error {
    NotFound { msg: String },
    InvalidInput { msg: String },
}

/// The character for one decimal digit.
pub open spec fn digit_char(d: nat) -> char {
    if d == 0 {
        '0'
    } else if d == 1 {
        '1'
    } else if d == 2 {
        '2'
    } else if d == 3 {
        '3'
    } else if d == 4 {
        '4'
    } else if d == 5 {
        '5'
    } else if d == 6 {
        '6'
    } else if d == 7 {
        '7'
    } else if d == 8 {
        '8'
    } else {
        '9'
    }
}

/// The decimal digits of a number, most significant first, no leading
/// zeroes except for the number zero itself.
pub open spec fn dec_digits(n: nat) -> Seq<char>
    decreases n,
{
    if n < 10 {
        seq![digit_char(n)]
    } else {
        dec_digits(n / 10).push(digit_char(n % 10))
    }
}

fn digit_string(d: u64) -> (r: &'static str)
    requires
        d < 10,
    ensures
        r@ == seq![digit_char(d as nat)],
{
    if d == 0 {
        proof {
            reveal_strlit("0");
            assert("0"@ =~= seq![digit_char(0)]);
        }
        "0"
    } else if d == 1 {
        proof {
            reveal_strlit("1");
            assert("1"@ =~= seq![digit_char(1)]);
        }
        "1"
    } else if d == 2 {
        proof {
            reveal_strlit("2");
            assert("2"@ =~= seq![digit_char(2)]);
        }
        "2"
    } else if d == 3 {
        proof {
            reveal_strlit("3");
            assert("3"@ =~= seq![digit_char(3)]);
        }
        "3"
    } else if d == 4 {
        proof {
            reveal_strlit("4");
            assert("4"@ =~= seq![digit_char(4)]);
        }
        "4"
    } else if d == 5 {
        proof {
            reveal_strlit("5");
            assert("5"@ =~= seq![digit_char(5)]);
        }
        "5"
    } else if d == 6 {
        proof {
            reveal_strlit("6");
            assert("6"@ =~= seq![digit_char(6)]);
        }
        "6"
    } else if d == 7 {
        proof {
            reveal_strlit("7");
            assert("7"@ =~= seq![digit_char(7)]);
        }
        "7"
    } else if d == 8 {
        proof {
            reveal_strlit("8");
            assert("8"@ =~= seq![digit_char(8)]);
        }
        "8"
    } else {
        proof {
            reveal_strlit("9");
            assert("9"@ =~= seq![digit_char(9)]);
        }
        "9"
    }
}

/// The number in decimal, for the human-readable error messages.
pub fn u64_to_decimal(n: u64) -> (r: String)
    ensures
        r@ == dec_digits(n as nat),
    decreases n,
{
    if n < 10 {
        digit_string(n).to_owned()
    } else {
        let mut s = u64_to_decimal(n / 10);
        s.append(digit_string(n % 10));
        proof {
            assert(s@ =~= dec_digits((n / 10) as nat).push(digit_char((n % 10) as nat)));
        }
        s
    }
}

/// Whether the Unicode character counts as numeric.
pub uninterp spec fn numeric_char(c: char) -> bool;

/// Relies on `char::is_numeric`: true exactly for characters with a Unicode
/// numeric property; the result depends on the character alone. The ASCII
/// decimal digits all have it — so a call on a digit is how verified code
/// learns that a concrete phone string is valid.
#[verifier::external_body]
pub(crate) fn char_is_numeric(c: char) -> (r: bool)
    ensures
        r == numeric_char(c),
        ('0' as u32 <= c as u32 && c as u32 <= '9' as u32) ==> r,
{
    c.is_numeric()
}

/// A valid email contains the character `@`. Deliberately weak.
pub open spec fn valid_email(email: Seq<char>) -> bool {
    exists|i: int| 0 <= i < email.len() && email[i] == '@'
}

/// A valid phone contains at least one numeric character. Deliberately weak.
pub open spec fn valid_phone(phone: Seq<char>) -> bool {
    exists|i: int| 0 <= i < phone.len() && numeric_char(phone[i])
}

/// A valid interaction payload has a non-empty type and a non-empty content.
pub open spec fn valid_payload(payload: InteractionPayloadV) -> bool {
    payload.interaction_type.len() > 0 && payload.content.len() > 0
}

pub fn is_valid_email(email: &str) -> (r: bool)
    ensures
        r == valid_email(email@),
{
    let len: usize = email.unicode_len();
    let mut i: usize = 0;
    while i < len
        invariant
            i <= len,
            len == email@.len(),
            forall|j: int| 0 <= j < i ==> email@[j] != '@',
        decreases len - i,
    {
        if email.get_char(i) == '@' {
            return true;
        }
        i += 1;
    }
    false
}

pub fn is_valid_phone(phone: &str) -> (r: bool)
    ensures
        r == valid_phone(phone@),
{
    let len: usize = phone.unicode_len();
    let mut i: usize = 0;
    while i < len
        invariant
            i <= len,
            len == phone@.len(),
            forall|j: int| 0 <= j < i ==> !numeric_char(phone@[j]),
        decreases len - i,
    {
        if char_is_numeric(phone.get_char(i)) {
            return true;
        }
        i += 1;
    }
    false
}

pub fn is_valid_interaction_payload(payload: &InteractionPayload) -> (r: bool)
    ensures
        r == valid_payload(payload@),
{
    !payload.interaction_type.as_str().is_empty() && !payload.content.as_str().is_empty()
}

} // verus!
