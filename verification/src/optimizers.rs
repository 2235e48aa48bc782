use vstd::prelude::*;

use crate::retriever::{words_any, words_intersect};

verus! {

/// A user profile: the record shape of the concrete retrieval path.
#[derive(Debug, Clone, PartialEq, Eq)]
pub struct UserProfile {
    pub id: u32,
    pub name: String,
    pub age: u32,
    pub interests: Option<Vec<String>>,
}

/// The concrete retrieval path over user profiles: an age range plus an
/// interest intersection, truncated to a result limit.
pub struct Optimizer;

/// Whether a profile matches a query: its age lies in the inclusive
/// range, and it has at least one of the queried interests.  A profile
/// without interests never matches.
pub open spec fn profile_matches(
    p: UserProfile,
    interests: Seq<String>,
    min_age: u32,
    max_age: u32,
) -> bool {
    &&& min_age <= p.age
    &&& p.age <= max_age
    &&& match p.interests {
        Some(ints) => words_intersect(ints@, interests),
        None => false,
    }
}

/// The profiles that match, in their given order.
pub open spec fn matching_profiles(
    db: Seq<UserProfile>,
    interests: Seq<String>,
    min_age: u32,
    max_age: u32,
) -> Seq<UserProfile> {
    db.filter(|p: UserProfile| profile_matches(p, interests, min_age, max_age))
}

/// The first `k` elements, or all of them when there are fewer.
pub open spec fn first_at_most(s: Seq<UserProfile>, k: int) -> Seq<UserProfile> {
    s.subrange(0, if k <= s.len() { k } else { s.len() as int })
}

/// Whether one profile matches, as `profile_matches` says.
fn profile_eval(p: &UserProfile, interests: &Vec<String>, min_age: u32, max_age: u32) -> (r:
    bool)
    ensures
        r == profile_matches(*p, interests@, min_age, max_age),
{
    if p.age < min_age || p.age > max_age {
        return false;
    }
    match &p.interests {
        Some(ints) => words_any(ints, interests),
        None => false,
    }
}

impl Optimizer {
    /// Creates the stateless optimizer.
    pub fn new() -> Optimizer {
        Optimizer
    }

    /// Returns the first `limit` profiles whose age lies within
    /// `min_age ..= max_age` (inclusive) and which share at least one
    /// interest with the query, in their given order.  An empty
    /// interest list matches no profile: the intersection test asks for
    /// at least one shared interest.
    pub fn query(
        &self,
        user_db: Vec<UserProfile>,
        interests: &Vec<String>,
        limit: usize,
        min_age: u32,
        max_age: u32,
    ) -> (r: Vec<UserProfile>)
        ensures
            r@ == first_at_most(
                matching_profiles(user_db@, interests@, min_age, max_age),
                limit as int,
            ),
    {
        let ghost orig = user_db@;
        let mut pending = user_db;
        let n = pending.len();
        let mut out: Vec<UserProfile> = Vec::new();
        let mut i: usize = 0;
        proof {
            reveal(Seq::filter);
            assert(out@ =~= first_at_most(
                matching_profiles(orig.subrange(0, 0), interests@, min_age, max_age),
                limit as int,
            ));
        }
        while i < n
            invariant
                i <= n,
                n == orig.len(),
                pending@ == orig.subrange(i as int, n as int),
                out@ == first_at_most(
                    matching_profiles(orig.subrange(0, i as int), interests@, min_age, max_age),
                    limit as int,
                ),
                out@.len() <= limit,
            decreases n - i,
        {
            let p = pending.remove(0);
            proof {
                assert(p == orig[i as int]);
                assert(pending@ =~= orig.subrange(i + 1, n as int));
            }
            let keep = profile_eval(&p, interests, min_age, max_age);
            let ghost m0 = matching_profiles(orig.subrange(0, i as int), interests@, min_age,
                max_age);
            let ghost m1 = matching_profiles(orig.subrange(0, i + 1), interests@, min_age,
                max_age);
            proof {
                reveal(Seq::filter);
                assert(orig.subrange(0, i + 1).drop_last() =~= orig.subrange(0, i as int));
                assert(orig.subrange(0, i + 1).last() == orig[i as int]);
                if keep {
                    assert(m1 == m0.push(p));
                } else {
                    assert(m1 == m0);
                }
            }
            if keep && out.len() < limit {
                out.push(p);
                proof {
                    assert(m0.len() < limit);
                    assert(out@ =~= first_at_most(m1, limit as int));
                }
            } else {
                proof {
                    if keep {
                        assert(m0.len() >= limit);
                        assert(out@ =~= first_at_most(m1, limit as int));
                    }
                }
            }
            i += 1;
        }
        proof {
            assert(orig.subrange(0, n as int) =~= orig);
        }
        out
    }
}

} // verus!
