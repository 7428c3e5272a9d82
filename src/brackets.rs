use vstd::prelude::*;
use std::collections::HashMap;
use crate::text::chars_of;

verus! {

broadcast use vstd::std_specs::hash::group_hash_axioms;

/// Why program text could not be prepared for running.
#[derive(Debug, Clone, Copy, PartialEq, Eq, Structural)]
pub enum Malformed {
    /// A loop bracket without a partner.
    UnbalancedBrackets,
}

/// Opens minus closes among the first `i` characters.
pub open spec fn depth(s: Seq<char>, i: int) -> int
    decreases i,
{
    if i <= 0 || i > s.len() {
        0
    } else {
        depth(s, i - 1) + if s[i - 1] == '[' {
            1int
        } else if s[i - 1] == ']' {
            -1int
        } else {
            0int
        }
    }
}

/// No prefix closes more loops than it opens, and the whole text closes
/// every loop it opens.
pub open spec fn balanced(s: Seq<char>) -> bool {
    &&& forall|i: int| 0 <= i <= s.len() ==> #[trigger] depth(s, i) >= 0
    &&& depth(s, s.len() as int) == 0
}

/// `m` pairs the brackets of `s`: its keys are exactly the bracket
/// positions, each entry's partner maps back to it, and each open maps to
/// the first later close that brings the depth back to where it was before
/// the open.
pub open spec fn pairs_brackets(s: Seq<char>, m: Map<usize, usize>) -> bool {
    &&& forall|p: usize| #[trigger] m.contains_key(p) <==> (p < s.len() && (s[p as int] == '[' || s[p as int] == ']'))
    &&& forall|p: usize| #[trigger] m.contains_key(p) ==> {
        let q = m[p];
        &&& m.contains_key(q)
        &&& m[q] == p
        &&& s[p as int] == '[' ==> p < q && s[q as int] == ']' && encloses(s, p as int, q as int)
        &&& s[p as int] == ']' ==> q < p && s[q as int] == '['
    }
}

/// Between the open at `p` and the close at `q` the depth stays above
/// its level before `p`, and after `q` it is back at that level.
pub open spec fn encloses(s: Seq<char>, p: int, q: int) -> bool {
    &&& depth(s, q + 1) == depth(s, p)
    &&& forall|k: int| p < k <= q ==> #[trigger] depth(s, k) > depth(s, p)
}

/// At most one table pairs the brackets of a text: two tables that both
/// pair them are equal.
pub proof fn bracket_pairing_is_unique(s: Seq<char>, m1: Map<usize, usize>, m2: Map<usize, usize>)
    requires
        pairs_brackets(s, m1),
        pairs_brackets(s, m2),
    ensures
        m1 == m2,
{
    assert forall|p: usize| #[trigger] m1.contains_key(p) && s[p as int] == '[' implies m1[p] == m2[p] by {
        let q1 = m1[p] as int;
        let q2 = m2[p] as int;
        assert(m2.contains_key(p));
        if q1 < q2 {
            assert(depth(s, q1 + 1) > depth(s, p as int));
        } else if q2 < q1 {
            assert(depth(s, q2 + 1) > depth(s, p as int));
        }
    }
    assert forall|q: usize| #[trigger] m1.contains_key(q) implies m2.contains_key(q) && m1[q] == m2[q] by {
        assert(m2.contains_key(q));
        if s[q as int] == ']' {
            let p2 = m2[q];
            assert(m1.contains_key(p2));
            assert(m1[p2] == m2[p2]);
        }
    }
    assert(m1 =~= m2);
}

/// Builds the table that pairs each loop bracket of `c` with its partner,
/// in both directions; fails when the brackets do not balance.
pub fn process_parens(c: &str) -> (r: Result<HashMap<usize, usize>, Malformed>)
    ensures
        r is Ok <==> balanced(c@),
        r matches Ok(m) ==> pairs_brackets(c@, m@),
{
    let s = chars_of(c);
    brackets_of(&s)
}

pub(crate) fn brackets_of(s: &Vec<char>) -> (r: Result<HashMap<usize, usize>, Malformed>)
    ensures
        r is Ok <==> balanced(s@),
        r matches Ok(m) ==> pairs_brackets(s@, m@),
{
    let len = s.len();
    let mut paren_map: HashMap<usize, usize> = HashMap::new();
    let mut stack: Vec<usize> = Vec::new();
    let mut i: usize = 0;
    while i < len
        invariant
            i <= len,
            len == s@.len(),
            stack@.len() == depth(s@, i as int),
            forall|k: int| 0 <= k <= i ==> #[trigger] depth(s@, k) >= 0,
            forall|j: int| 0 <= j < stack@.len() ==> #[trigger] stack@[j] < i && s@[stack@[j] as int] == '['
                && depth(s@, stack@[j] as int) == j,
            forall|j: int, k: int|
                #![trigger stack@[j], depth(s@, k)]
                0 <= j < stack@.len() && stack@[j] < k <= i ==> depth(s@, k) > j,
            forall|j: int| 0 <= j < stack@.len() ==> !paren_map@.contains_key(#[trigger] stack@[j]),
            forall|j1: int, j2: int| 0 <= j1 < j2 < stack@.len() ==> stack@[j1] != stack@[j2],
            forall|p: usize| #[trigger] paren_map@.contains_key(p) ==> p < i && (s@[p as int] == '[' || s@[p as int] == ']'),
            forall|p: usize| p < i && (s@[p as int] == '[' || s@[p as int] == ']') ==>
                (#[trigger] paren_map@.contains_key(p) || exists|j: int| 0 <= j < stack@.len() && stack@[j] == p),
            forall|p: usize| #[trigger] paren_map@.contains_key(p) ==> {
                let q = paren_map@[p];
                &&& paren_map@.contains_key(q)
                &&& paren_map@[q] == p
                &&& s@[p as int] == '[' ==> p < q && s@[q as int] == ']' && encloses(s@, p as int, q as int)
                &&& s@[p as int] == ']' ==> q < p && s@[q as int] == '['
            },
        decreases len - i,
    {
        let ch = s[i];
        let ghost old_stack = stack@;
        let ghost old_map = paren_map@;
        if ch == '[' {
            stack.push(i);
        } else if ch == ']' {
            match stack.pop() {
                Some(left) => {
                    paren_map.insert(left, i);
                    paren_map.insert(i, left);
                },
                None => {
                    assert(depth(s@, i + 1) < 0);
                    return Err(Malformed::UnbalancedBrackets);
                },
            }
        }
        i = i + 1;
        assert forall|p: usize| p < i && (s@[p as int] == '[' || s@[p as int] == ']') implies
            (#[trigger] paren_map@.contains_key(p) || exists|j: int| 0 <= j < stack@.len() && stack@[j] == p) by {
            if p + 1 == i {
                if s@[p as int] == '[' {
                    assert(stack@[stack@.len() - 1] == p);
                }
            } else if !old_map.contains_key(p) {
                let j = choose|j: int| 0 <= j < old_stack.len() && old_stack[j] == p;
                if ch == '[' {
                    assert(stack@[j] == p);
                } else if ch == ']' {
                    if j == old_stack.len() - 1 {
                        assert(paren_map@.contains_key(p));
                    } else {
                        assert(stack@[j] == p);
                    }
                } else {
                    assert(stack@[j] == p);
                }
            }
        }
    }
    if stack.len() > 0 {
        return Err(Malformed::UnbalancedBrackets);
    }
    Ok(paren_map)
}

} // verus!
