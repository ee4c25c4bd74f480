//! Edit scripts: what the edit distance counts.
//!
//! A script is read along a string from left to right. Each step keeps,
//! replaces or deletes the next character of the string, or inserts a
//! character. The laws of this module say that the distance between two
//! strings is the cost of the cheapest script that turns the one into the
//! other.

use crate::distance::edit_distance;
use vstd::prelude::*;

verus! {

/// One step of an edit script.
pub ghost enum Edit {
    /// Leaves the next character as it is.
    Keep,
    /// Puts the given character in the place of the next one.
    Substitute(char),
    /// Puts the given character before the next one.
    Insert(char),
    /// Drops the next character.
    Delete,
}

/// What a step costs: a kept character is free, every edit costs one.
pub open spec fn step_cost(step: Edit) -> nat {
    match step {
        Edit::Keep => 0,
        _ => 1,
    }
}

/// The number of edits in `script`.
pub open spec fn cost(script: Seq<Edit>) -> nat
    decreases script.len(),
{
    if script.len() == 0 {
        0
    } else {
        cost(script.drop_last()) + step_cost(script.last())
    }
}

/// The string that `script` makes of `a`, or `None` where the script does
/// not fit `a`: where it has steps left when `a` has run out, or leaves
/// characters of `a` over.
pub open spec fn apply(script: Seq<Edit>, a: Seq<char>) -> Option<Seq<char>>
    decreases script.len(),
{
    if script.len() == 0 {
        if a.len() == 0 {
            Some(Seq::empty())
        } else {
            None
        }
    } else {
        let before = script.drop_last();
        match script.last() {
            Edit::Keep => if a.len() == 0 {
                None
            } else {
                match apply(before, a.drop_last()) {
                    Some(made) => Some(made.push(a.last())),
                    None => None,
                }
            },
            Edit::Substitute(c) => if a.len() == 0 {
                None
            } else {
                match apply(before, a.drop_last()) {
                    Some(made) => Some(made.push(c)),
                    None => None,
                }
            },
            Edit::Insert(c) => match apply(before, a) {
                Some(made) => Some(made.push(c)),
                None => None,
            },
            Edit::Delete => if a.len() == 0 {
                None
            } else {
                apply(before, a.drop_last())
            },
        }
    }
}

/// No script that turns `a` into `b` is cheaper than the distance between
/// them.
pub proof fn lemma_no_script_is_cheaper(script: Seq<Edit>, a: Seq<char>, b: Seq<char>)
    requires
        apply(script, a) == Some(b),
    ensures
        cost(script) >= edit_distance(a, b),
    decreases script.len(),
{
    if script.len() > 0 {
        let before = script.drop_last();
        match script.last() {
            Edit::Keep => {
                let made = apply(before, a.drop_last())->0;
                assert(b.drop_last() =~= made);
                lemma_no_script_is_cheaper(before, a.drop_last(), made);
            },
            Edit::Substitute(c) => {
                let made = apply(before, a.drop_last())->0;
                assert(b.drop_last() =~= made);
                lemma_no_script_is_cheaper(before, a.drop_last(), made);
            },
            Edit::Insert(c) => {
                let made = apply(before, a)->0;
                assert(b.drop_last() =~= made);
                lemma_no_script_is_cheaper(before, a, made);
            },
            Edit::Delete => {
                lemma_no_script_is_cheaper(before, a.drop_last(), b);
            },
        }
    }
}

/// The step that inserts `c`.
spec fn insertion(c: char) -> Edit {
    Edit::Insert(c)
}

/// The step that puts `c` in the place of the next character.
spec fn substitution(c: char) -> Edit {
    Edit::Substitute(c)
}

/// Some script turns `a` into `b` at the cost of the distance between
/// them. The proof builds one.
pub proof fn lemma_cheapest_script(a: Seq<char>, b: Seq<char>) -> (script: Seq<Edit>)
    ensures
        apply(script, a) == Some(b),
        cost(script) == edit_distance(a, b),
    decreases a.len() + b.len(),
{
    if a.len() == 0 && b.len() == 0 {
        assert(b =~= Seq::<char>::empty());
        Seq::empty()
    } else if b.len() == 0 {
        let before = lemma_cheapest_script(a.drop_last(), b);
        assert(before.push(Edit::Delete).drop_last() =~= before);
        before.push(Edit::Delete)
    } else {
        assert(b.drop_last().push(b.last()) =~= b);
        if a.len() == 0 || edit_distance(a, b) == edit_distance(a, b.drop_last()) + 1 {
            let before = lemma_cheapest_script(a, b.drop_last());
            let step = insertion(b.last());
            assert(before.push(step).drop_last() =~= before);
            before.push(step)
        } else if edit_distance(a, b) == edit_distance(a.drop_last(), b) + 1 {
            let before = lemma_cheapest_script(a.drop_last(), b);
            assert(before.push(Edit::Delete).drop_last() =~= before);
            before.push(Edit::Delete)
        } else {
            let before = lemma_cheapest_script(a.drop_last(), b.drop_last());
            let step = if a.last() == b.last() {
                Edit::Keep
            } else {
                substitution(b.last())
            };
            assert(before.push(step).drop_last() =~= before);
            before.push(step)
        }
    }
}

/// The distance between `a` and `b` is the least cost of a script that
/// turns `a` into `b`: one script costs exactly that, and none costs less.
pub proof fn lemma_distance_is_least_cost(a: Seq<char>, b: Seq<char>)
    ensures
        exists|script: Seq<Edit>| #[trigger]
            apply(script, a) == Some(b) && cost(script) == edit_distance(a, b),
        forall|script: Seq<Edit>| #[trigger]
            apply(script, a) == Some(b) ==> cost(script) >= edit_distance(a, b),
{
    let cheapest = lemma_cheapest_script(a, b);
    assert(apply(cheapest, a) == Some(b) && cost(cheapest) == edit_distance(a, b));
    assert forall|script: Seq<Edit>| #[trigger] apply(script, a) == Some(b) implies cost(script)
        >= edit_distance(a, b) by {
        lemma_no_script_is_cheaper(script, a, b);
    }
}

} // verus!
