use vstd::prelude::*;

verus! {

/// Whether `v` holds `id`.
pub fn holds_id(v: &Vec<i32>, id: i32) -> (r: bool)
    ensures
        r == v@.contains(id),
{
    let mut i: usize = 0;
    while i < v.len()
        invariant
            i <= v@.len(),
            forall|j: int| 0 <= j < i ==> v@[j] != id,
        decreases v.len() - i,
    {
        if v[i] == id {
            return true;
        }
        i = i + 1;
    }
    false
}

/// Some id of `b` is in `a`.
pub open spec fn seq_shares(a: Seq<i32>, b: Seq<i32>) -> bool {
    exists|x: int| 0 <= x < b.len() && a.contains(#[trigger] b[x])
}

/// Whether some id of `b` is in `a`.
pub fn shares_any(a: &Vec<i32>, b: &Vec<i32>) -> (r: bool)
    ensures
        r == seq_shares(a@, b@),
{
    let mut i: usize = 0;
    while i < b.len()
        invariant
            i <= b@.len(),
            forall|x: int| 0 <= x < i ==> !a@.contains(#[trigger] b@[x]),
        decreases b.len() - i,
    {
        if holds_id(a, b[i]) {
            return true;
        }
        i = i + 1;
    }
    false
}

/// Every id of `a` is in `b`.
pub open spec fn seq_holds_all(b: Seq<i32>, a: Seq<i32>) -> bool {
    forall|x: int| 0 <= x < a.len() ==> b.contains(#[trigger] a[x])
}

/// Whether every id of `a` is in `b`.
pub fn holds_all(b: &Vec<i32>, a: &Vec<i32>) -> (r: bool)
    ensures
        r == seq_holds_all(b@, a@),
{
    let mut i: usize = 0;
    while i < a.len()
        invariant
            i <= a@.len(),
            forall|x: int| 0 <= x < i ==> b@.contains(#[trigger] a@[x]),
        decreases a.len() - i,
    {
        if !holds_id(b, a[i]) {
            return false;
        }
        i = i + 1;
    }
    true
}

} // verus!
