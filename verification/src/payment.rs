use vstd::prelude::*;
use crate::text::{chars_of, same_chars};

verus! {

/// How a comand was paid.
#[derive(Clone, Copy, Debug, PartialEq, Eq, Structural)]
pub enum Payment {
    Pix,
    Debit,
    Credit,
    Money,
    NotSelected,
}

/// The label shown for each payment method.
pub open spec fn payment_label(p: Payment) -> Seq<char> {
    match p {
        Payment::NotSelected => "Metodo de pagamento"@,
        Payment::Debit => "Débito"@,
        Payment::Credit => "Crédito"@,
        Payment::Pix => "Pix"@,
        Payment::Money => "Dinheiro"@,
    }
}

/// The payment method a label names; any other text is `NotSelected`.
pub open spec fn payment_of_label(s: Seq<char>) -> Payment {
    if s == "Débito"@ {
        Payment::Debit
    } else if s == "Crédito"@ {
        Payment::Credit
    } else if s == "Dinheiro"@ {
        Payment::Money
    } else if s == "Pix"@ {
        Payment::Pix
    } else {
        Payment::NotSelected
    }
}

impl Payment {
    /// The payment method a label names (`From<String>`).
    pub fn from_label(value: &str) -> (res: Payment)
        ensures
            res == payment_of_label(value@),
    {
        let v = chars_of(value);
        if same_chars(&v, &chars_of("Débito")) {
            Payment::Debit
        } else if same_chars(&v, &chars_of("Crédito")) {
            Payment::Credit
        } else if same_chars(&v, &chars_of("Dinheiro")) {
            Payment::Money
        } else if same_chars(&v, &chars_of("Pix")) {
            Payment::Pix
        } else {
            Payment::NotSelected
        }
    }

    /// No method chosen yet.
    pub fn default() -> (res: Payment)
        ensures
            res == Payment::NotSelected,
    {
        Payment::NotSelected
    }

    /// All payment methods, in the order the selection list shows them.
    pub fn iter() -> (res: Vec<Payment>)
        ensures
            res@ == seq![Payment::NotSelected, Payment::Debit, Payment::Credit, Payment::Money, Payment::Pix],
    {
        vec![Payment::NotSelected, Payment::Debit, Payment::Credit, Payment::Money, Payment::Pix]
    }

    /// The label of this payment method.
    pub fn to_string(&self) -> (res: &'static str)
        ensures
            res@ == payment_label(*self),
    {
        match self {
            Payment::NotSelected => "Metodo de pagamento",
            Payment::Debit => "Débito",
            Payment::Credit => "Crédito",
            Payment::Pix => "Pix",
            Payment::Money => "Dinheiro",
        }
    }
}

/// Feeds a text to a hasher by std's `<str as Hash>::hash`, which vstd does
/// not specify. Trusted: nothing is claimed of the hasher's state after it.
#[verifier::external_body]
fn hash_text<H: core::hash::Hasher>(text: &str, state: &mut H) {
    core::hash::Hash::hash(text, state)
}

/// A payment method hashes as its label.
impl core::hash::Hash for Payment {
    fn hash<H: core::hash::Hasher>(&self, state: &mut H) {
        hash_text(self.to_string(), state)
    }
}

impl From<String> for Payment {
    fn from(value: String) -> (res: Payment) {
        Payment::from_label(value.as_str())
    }
}

impl vstd::std_specs::convert::FromSpecImpl<String> for Payment {
    open spec fn obeys_from_spec() -> bool {
        true
    }

    open spec fn from_spec(v: String) -> Payment {
        payment_of_label(v@)
    }
}

/// Reading back the label of any payment method gives that method.
pub proof fn law_label_round_trip(p: Payment)
    ensures
        payment_of_label(payment_label(p)) == p,
{
    reveal_strlit("Débito");
    reveal_strlit("Crédito");
    reveal_strlit("Dinheiro");
    reveal_strlit("Pix");
    reveal_strlit("Metodo de pagamento");
    assert("Débito"@[0] != "Crédito"@[0]);
    assert("Débito"@[1] != "Dinheiro"@[1]);
    assert("Débito"@ != "Pix"@);
    assert("Crédito"@ != "Dinheiro"@);
    assert("Crédito"@ != "Pix"@);
    assert("Dinheiro"@[0] != "Pix"@[0]);
    assert("Metodo de pagamento"@ != "Débito"@);
    assert("Metodo de pagamento"@ != "Crédito"@);
    assert("Metodo de pagamento"@ != "Dinheiro"@);
    assert("Metodo de pagamento"@[0] != "Pix"@[0]);
}

} // verus!
