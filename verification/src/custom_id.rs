use vstd::prelude::*;

use crate::internal::id::{decimal, digit_char};

verus! {

/// Identifier of a block, as the first version of the workspace names it.
#[derive(Debug, Clone, Copy, PartialEq, Eq, Structural, PartialOrd, Ord, Hash)]
pub struct ID(usize);

impl View for ID {
    type V = usize;

    closed spec fn view(&self) -> usize {
        self.0
    }
}

impl From<usize> for ID {
    fn from(value: usize) -> (r: Self) {
        ID(value)
    }
}

impl vstd::std_specs::convert::FromSpecImpl<usize> for ID {
    open spec fn obeys_from_spec() -> bool {
        true
    }

    open spec fn from_spec(v: usize) -> ID {
        id_of(v)
    }
}

impl From<ID> for usize {
    fn from(id: ID) -> (r: Self) {
        id.0
    }
}

impl vstd::std_specs::convert::FromSpecImpl<ID> for usize {
    open spec fn obeys_from_spec() -> bool {
        true
    }

    open spec fn from_spec(v: ID) -> usize {
        v@
    }
}

/// The identifier that wraps `v`.
pub closed spec fn id_of(v: usize) -> ID {
    ID(v)
}

/// Converting a number into an identifier and back gives the number, and an
/// identifier into a number and back gives the identifier.
pub proof fn lemma_id_round_trip(v: usize, id: ID)
    ensures
        id_of(v)@ == v,
        id_of(id@) == id,
{
}

impl ID {
    /// The number of the identifier in decimal, as its `Display` writes it.
    pub fn to_string(&self) -> (r: String)
        ensures
            r@ == decimal(self@ as nat),
    {
        let digits = "0123456789";
        proof {
            reveal_strlit("0123456789");
        }
        let mut rev: Vec<usize> = Vec::new();
        let mut n: usize = self.0;
        let ghost mut tail: Seq<char> = Seq::empty();
        while n >= 10
            invariant
                forall|k: int| 0 <= k < rev@.len() ==> rev@[k] < 10,
                tail == Seq::new(rev@.len(), |k: int| digit_char(rev@[rev@.len() - 1 - k] as nat)),
                decimal(self@ as nat) == decimal(n as nat) + tail,
            decreases n,
        {
            let d = n % 10;
            let ghost old_rev = rev@;
            proof {
                assert(decimal(n as nat) == decimal((n / 10) as nat).push(digit_char(d as nat)));
                assert(decimal(n as nat) + tail =~= decimal((n / 10) as nat) + (seq![digit_char(d as nat)] + tail));
                tail = seq![digit_char(d as nat)] + tail;
            }
            rev.push(d);
            n = n / 10;
            assert(tail =~= Seq::new(rev@.len(), |k: int| digit_char(rev@[rev@.len() - 1 - k] as nat)));
        }
        let mut r = String::new();
        r.append(digits.substring_char(n, n + 1));
        assert(r@ =~= seq![digit_char(n as nat)]);
        let mut i: usize = rev.len();
        while i > 0
            invariant
                i <= rev@.len(),
                n < 10,
                forall|k: int| 0 <= k < rev@.len() ==> rev@[k] < 10,
                digits@ == seq!['0', '1', '2', '3', '4', '5', '6', '7', '8', '9'],
                tail == Seq::new(rev@.len(), |k: int| digit_char(rev@[rev@.len() - 1 - k] as nat)),
                decimal(self@ as nat) == seq![digit_char(n as nat)] + tail,
                r@ == seq![digit_char(n as nat)] + tail.take((rev@.len() - i) as int),
            decreases i,
        {
            i = i - 1;
            let d = rev[i];
            let ghost before = r@;
            r.append(digits.substring_char(d, d + 1));
            assert(tail.take((rev@.len() - i) as int) =~= tail.take((rev@.len() - i - 1) as int).push(digit_char(d as nat)));
            assert(r@ =~= seq![digit_char(n as nat)] + tail.take((rev@.len() - i) as int));
        }
        assert(tail.take(rev@.len() as int) =~= tail);
        r
    }
}

} // verus!
