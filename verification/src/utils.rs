//! Walking two sorted streams in step.

use vstd::prelude::*;

verus! {

/// The pairing of two sorted integer lists: equal values side by side, a
/// value missing from the other list paired with nothing.
pub open spec fn match_sorted_spec(a: Seq<u64>, b: Seq<u64>) -> Seq<(Option<u64>, Option<u64>)>
    decreases a.len() + b.len(),
{
    if a.len() == 0 && b.len() == 0 {
        Seq::empty()
    } else if b.len() == 0 {
        seq![(Some(a[0]), None::<u64>)] + match_sorted_spec(a.skip(1), b)
    } else if a.len() == 0 {
        seq![(None::<u64>, Some(b[0]))] + match_sorted_spec(a, b.skip(1))
    } else if a[0] < b[0] {
        seq![(Some(a[0]), None::<u64>)] + match_sorted_spec(a.skip(1), b)
    } else if b[0] < a[0] {
        seq![(None::<u64>, Some(b[0]))] + match_sorted_spec(a, b.skip(1))
    } else {
        seq![(Some(a[0]), Some(b[0]))] + match_sorted_spec(a.skip(1), b.skip(1))
    }
}

/// Pair two sorted lists value by value: a pair of equal values where both
/// lists have one, a one-sided pair where only one does.
pub fn match_sorted(it1: &Vec<u64>, it2: &Vec<u64>) -> (r: Vec<(Option<u64>, Option<u64>)>)
    ensures
        r@ == match_sorted_spec(it1@, it2@),
{
    let mut r: Vec<(Option<u64>, Option<u64>)> = Vec::new();
    let mut i: usize = 0;
    let mut j: usize = 0;
    proof {
        assert(it1@.skip(0) =~= it1@);
        assert(it2@.skip(0) =~= it2@);
        assert(r@ + match_sorted_spec(it1@, it2@) =~= match_sorted_spec(it1@, it2@));
    }
    while i < it1.len() || j < it2.len()
        invariant
            0 <= i <= it1@.len(),
            0 <= j <= it2@.len(),
            match_sorted_spec(it1@, it2@) == r@ + match_sorted_spec(
                it1@.skip(i as int),
                it2@.skip(j as int),
            ),
        decreases it1@.len() - i + it2@.len() - j,
    {
        let ghost ra = it1@.skip(i as int);
        let ghost rb = it2@.skip(j as int);
        proof {
            if i < it1@.len() {
                assert(ra[0] == it1@[i as int]);
                assert(ra.skip(1) =~= it1@.skip(i as int + 1));
            }
            if j < it2@.len() {
                assert(rb[0] == it2@[j as int]);
                assert(rb.skip(1) =~= it2@.skip(j as int + 1));
            }
        }
        if j >= it2.len() || (i < it1.len() && it1[i] < it2[j]) {
            let pair = (Some(it1[i]), None::<u64>);
            proof {
                assert(match_sorted_spec(ra, rb) == seq![pair] + match_sorted_spec(
                    ra.skip(1),
                    rb,
                ));
                assert(r@.push(pair) + match_sorted_spec(it1@.skip(i as int + 1), rb) =~= r@
                    + match_sorted_spec(ra, rb));
            }
            r.push(pair);
            i += 1;
        } else if i >= it1.len() || it2[j] < it1[i] {
            let pair = (None::<u64>, Some(it2[j]));
            proof {
                assert(match_sorted_spec(ra, rb) == seq![pair] + match_sorted_spec(
                    ra,
                    rb.skip(1),
                ));
                assert(r@.push(pair) + match_sorted_spec(ra, it2@.skip(j as int + 1)) =~= r@
                    + match_sorted_spec(ra, rb));
            }
            r.push(pair);
            j += 1;
        } else {
            let pair = (Some(it1[i]), Some(it2[j]));
            proof {
                assert(match_sorted_spec(ra, rb) == seq![pair] + match_sorted_spec(
                    ra.skip(1),
                    rb.skip(1),
                ));
                assert(r@.push(pair) + match_sorted_spec(
                    it1@.skip(i as int + 1),
                    it2@.skip(j as int + 1),
                ) =~= r@ + match_sorted_spec(ra, rb));
            }
            r.push(pair);
            i += 1;
            j += 1;
        }
    }
    proof {
        assert(match_sorted_spec(it1@.skip(i as int), it2@.skip(j as int)) =~= Seq::<
            (Option<u64>, Option<u64>),
        >::empty());
        assert(r@ + Seq::<(Option<u64>, Option<u64>)>::empty() =~= r@);
    }
    r
}

/// Two sorted lists held together, walked in step with [`match_sorted`].
#[derive(Debug)]
pub struct MatchSorted_ {
    pub it1: Vec<u64>,
    pub it2: Vec<u64>,
}

impl MatchSorted_ {
    /// Hold two sorted lists for pairing.
    pub fn new(it1: Vec<u64>, it2: Vec<u64>) -> (r: Self)
        ensures
            r.it1@ == it1@,
            r.it2@ == it2@,
    {
        MatchSorted_ { it1, it2 }
    }

    /// The pairing of the two lists.
    pub fn pairs(&self) -> (r: Vec<(Option<u64>, Option<u64>)>)
        ensures
            r@ == match_sorted_spec(self.it1@, self.it2@),
    {
        match_sorted(&self.it1, &self.it2)
    }
}

} // verus!
