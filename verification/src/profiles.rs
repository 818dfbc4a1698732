//! Selection of the embedded printer profiles by id.
use crate::error::K1FixError;
use vstd::prelude::*;
use vstd::string::*;

verus! {

/// Ids of the embedded printer profiles, in listing order.
pub open spec fn profile_ids() -> Seq<Seq<char>> {
    seq!["k1"@, "k1c"@, "k1max"@]
}

/// Number of embedded printer profiles.
pub const PROFILE_COUNT: usize = 3;

/// The id of embedded profile `slot`.
pub fn profile_id(slot: usize) -> (r: &'static str)
    requires
        slot < PROFILE_COUNT,
    ensures
        r@ == profile_ids()[slot as int],
{
    proof {
        reveal_strlit("k1");
        reveal_strlit("k1c");
        reveal_strlit("k1max");
    }
    if slot == 0 {
        "k1"
    } else if slot == 1 {
        "k1c"
    } else {
        "k1max"
    }
}

fn same_text(a: &str, b: &str) -> (r: bool)
    ensures
        r == (a@ == b@),
{
    let n = a.unicode_len();
    if n != b.unicode_len() {
        return false;
    }
    let mut i: usize = 0;
    while i < n
        invariant
            i <= n,
            n == a@.len(),
            n == b@.len(),
            forall|j: int| 0 <= j < i ==> a@[j] == b@[j],
        decreases n - i,
    {
        if a.get_char(i) != b.get_char(i) {
            return false;
        }
        i = i + 1;
    }
    proof {
        assert(a@ =~= b@);
    }
    true
}

/// The slot of the embedded profile with id `id`, or
/// [`K1FixError::UnknownProfile`] naming `id` when there is none.
pub fn profile_slot(id: &str) -> (r: Result<usize, K1FixError>)
    ensures
        match r {
            Ok(slot) => slot < PROFILE_COUNT && profile_ids()[slot as int] == id@,
            Err(K1FixError::UnknownProfile(m)) => m@ == id@ && forall|k: int|
                0 <= k < PROFILE_COUNT ==> profile_ids()[k] != id@,
            Err(_) => false,
        },
{
    let mut slot: usize = 0;
    while slot < PROFILE_COUNT
        invariant
            slot <= PROFILE_COUNT,
            forall|k: int| 0 <= k < slot ==> profile_ids()[k] != id@,
        decreases PROFILE_COUNT - slot,
    {
        if same_text(profile_id(slot), id) {
            return Ok(slot);
        }
        slot = slot + 1;
    }
    Err(K1FixError::UnknownProfile(String::from_str(id)))
}

} // verus!
