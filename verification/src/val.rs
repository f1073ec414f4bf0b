//! The payload currency of the engine.
//!
//! Success values, error values and the caller state threaded through a chain
//! are all carried as [`Val`].  The engine itself never inspects a payload:
//! it only moves values between records.  Only the fan-in combinators build
//! composite values — a winner is reported as a pair of its carried state
//! and its outcome, and an aggregation as a `Pair`-encoded list of
//! outcomes.

use vstd::prelude::*;

verus! {

/// A plain, structural payload value.
///
/// Lists are encoded as right-nested pairs terminated by `Unit`, so the type
/// recurses only through `Box` and stays fully structural in specifications.
#[derive(Debug, PartialEq, Eq)]
pub enum Val {
    Unit,
    Bool(bool),
    Int(i64),
    Pair(Box<Val>, Box<Val>),
}

impl Clone for Val {
    /// A deep copy that is known to equal the original.
    fn clone(&self) -> (r: Self)
        ensures
            r == *self,
        decreases *self,
    {
        match self {
            Val::Unit => Val::Unit,
            Val::Bool(b) => Val::Bool(*b),
            Val::Int(i) => Val::Int(*i),
            Val::Pair(a, b) => Val::Pair(Box::new((**a).clone()), Box::new((**b).clone())),
        }
    }
}

/// How a settled outcome is written down as a single value: success tags the
/// payload with `true`, failure with `false`.
pub open spec fn spec_outcome_val(r: Result<Val, Val>) -> Val {
    match r {
        Ok(v) => Val::Pair(Box::new(Val::Bool(true)), Box::new(v)),
        Err(e) => Val::Pair(Box::new(Val::Bool(false)), Box::new(e)),
    }
}

/// Encode a settled outcome as a value, for fan-in results.
pub fn outcome_val(r: Result<Val, Val>) -> (v: Val)
    ensures
        v == spec_outcome_val(r),
{
    match r {
        Ok(v) => Val::Pair(Box::new(Val::Bool(true)), Box::new(v)),
        Err(e) => Val::Pair(Box::new(Val::Bool(false)), Box::new(e)),
    }
}

/// The list encoding: right-nested pairs ending in `Unit`, head first.
pub open spec fn spec_list_val(s: Seq<Val>) -> Val
    decreases s.len(),
{
    if s.len() == 0 {
        Val::Unit
    } else {
        Val::Pair(Box::new(s[0]), Box::new(spec_list_val(s.skip(1))))
    }
}

/// The element at position `i` of a `Pair`-encoded list, `Unit` past its
/// end.
pub open spec fn spec_list_nth(v: Val, i: int) -> Val
    decreases v,
{
    match v {
        Val::Pair(head, tail) => if i == 0 {
            *head
        } else {
            spec_list_nth(*tail, i - 1)
        },
        _ => Val::Unit,
    }
}

/// Indexing the list encoding of a sequence gives the sequence's element.
pub proof fn lemma_list_nth(s: Seq<Val>, i: int)
    requires
        0 <= i < s.len(),
    ensures
        spec_list_nth(spec_list_val(s), i) == s[i],
    decreases i,
{
    if i > 0 {
        lemma_list_nth(s.skip(1), i - 1);
        assert(s.skip(1)[i - 1] == s[i]);
    }
}

/// The list of filled aggregation slots as one value.
pub open spec fn spec_slots_list(s: Seq<Option<Val>>) -> Val {
    spec_list_val(s.map_values(|o: Option<Val>| o.unwrap()))
}

/// Whether every aggregation slot is filled.
pub open spec fn spec_slots_full(s: Seq<Option<Val>>) -> bool {
    forall|i: int| 0 <= i < s.len() ==> (#[trigger] s[i]) is Some
}

/// Collect a fully filled slot vector into its list value.
pub fn collect_slots(slots: Vec<Option<Val>>) -> (v: Val)
    requires
        spec_slots_full(slots@),
    ensures
        v == spec_slots_list(slots@),
{
    let mut slots = slots;
    let mut v = Val::Unit;
    let ghost whole = slots@;
    proof {
        lemma_build_tail_base(whole);
        assert(whole.take(whole.len() as int) =~= whole);
    }
    loop
        invariant
            spec_slots_full(whole),
            slots@ == whole.take(slots@.len() as int),
            slots@.len() <= whole.len(),
            v == build_tail(whole, slots@.len() as int),
        ensures
            slots@.len() == 0,
            v == build_tail(whole, slots@.len() as int),
        decreases slots@.len(),
    {
        match slots.pop() {
            Some(slot) => {
                let ghost n = slots@.len() as int;
                proof {
                    assert(slot == whole.take(n + 1)[n]);
                    assert(whole.take(n + 1)[n] == whole[n]);
                    assert(slots@ =~= whole.take(n));
                }
                match slot {
                    Some(x) => {
                        v = Val::Pair(Box::new(x), Box::new(v));
                        proof {
                            assert(whole[n] is Some);
                            lemma_build_tail_unfold(whole, n);
                            assert(x == whole[n].unwrap());
                        }
                    },
                    None => {
                        proof {
                            assert(whole[n] is Some);
                            assert(false);
                        }
                    },
                }
            },
            None => {
                break ;
            },
        }
    }
    proof {
        assert(v == build_tail(whole, 0));
        assert(whole.skip(0) =~= whole);
    }
    v
}

proof fn lemma_build_tail_base(s: Seq<Option<Val>>)
    ensures
        build_tail(s, s.len() as int) == Val::Unit,
{
    assert(s.skip(s.len() as int) =~= Seq::empty());
    assert(s.skip(s.len() as int).map_values(|o: Option<Val>| o.unwrap()) =~= Seq::empty());
}

/// The list value of the slots from position `i` on.
spec fn build_tail(s: Seq<Option<Val>>, i: int) -> Val {
    spec_list_val(s.skip(i).map_values(|o: Option<Val>| o.unwrap()))
}

proof fn lemma_build_tail_unfold(s: Seq<Option<Val>>, i: int)
    requires
        0 <= i < s.len(),
        s[i] is Some,
    ensures
        build_tail(s, i) == Val::Pair(Box::new(s[i].unwrap()), Box::new(build_tail(s, i + 1))),
{
    let m = s.skip(i).map_values(|o: Option<Val>| o.unwrap());
    assert(m.len() == s.len() - i);
    assert(m[0] == s[i].unwrap());
    assert(m.skip(1) =~= s.skip(i + 1).map_values(|o: Option<Val>| o.unwrap())) by {
        assert forall|k: int| 0 <= k < m.len() - 1 implies m.skip(1)[k] == s.skip(i + 1).map_values(
            |o: Option<Val>| o.unwrap(),
        )[k] by {
            assert(m.skip(1)[k] == m[k + 1]);
            assert(s.skip(i)[k + 1] == s[i + 1 + k]);
            assert(s.skip(i + 1)[k] == s[i + 1 + k]);
        }
    }
}

} // verus!
