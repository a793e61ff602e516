//! Small facts about sequences shared by the other modules.
use vstd::prelude::*;

verus! {

/// The position of the first `false` in `flags`, or its length when there is none.
pub open spec fn first_false(flags: Seq<bool>) -> nat
    decreases flags.len(),
{
    if flags.len() == 0 {
        0
    } else {
        let f = first_false(flags.drop_last());
        if f < flags.len() - 1 {
            f
        } else if !flags.last() {
            (flags.len() - 1) as nat
        } else {
            flags.len()
        }
    }
}

/// `i` is the position of the first `false` when all flags before it are
/// `true` and it holds a `false` or is the end.
pub proof fn lemma_first_false(flags: Seq<bool>, i: int)
    requires
        0 <= i <= flags.len(),
        forall|k: int| 0 <= k < i ==> #[trigger] flags[k],
        i < flags.len() ==> !flags[i],
    ensures
        first_false(flags) == i,
    decreases flags.len(),
{
    if flags.len() > 0 {
        let rest = flags.drop_last();
        if i < flags.len() - 1 {
            assert(!rest[i]);
            lemma_first_false(rest, i);
        } else {
            lemma_first_false(rest, rest.len() as int);
        }
    }
}

/// When the first `i` flags are all `true`, the first `false` is at or after
/// `i`, and never past the end.
pub proof fn lemma_first_false_at_least(flags: Seq<bool>, i: int)
    requires
        0 <= i <= flags.len(),
        forall|k: int| 0 <= k < i ==> #[trigger] flags[k],
    ensures
        i <= first_false(flags) <= flags.len(),
    decreases flags.len(),
{
    if flags.len() > 0 {
        let rest = flags.drop_last();
        if i == flags.len() {
            lemma_first_false_at_least(rest, rest.len() as int);
        } else {
            assert forall|k: int| 0 <= k < i implies #[trigger] rest[k] by {
                assert(rest[k] == flags[k]);
            }
            lemma_first_false_at_least(rest, i);
        }
    }
}

/// The first `false` is at most the length, every flag before it is `true`,
/// and the flag there, if any, is `false`.
pub proof fn lemma_first_false_props(flags: Seq<bool>)
    ensures
        first_false(flags) <= flags.len(),
        forall|k: int| 0 <= k < first_false(flags) ==> #[trigger] flags[k],
        first_false(flags) < flags.len() ==> !flags[first_false(flags) as int],
    decreases flags.len(),
{
    if flags.len() > 0 {
        let rest = flags.drop_last();
        lemma_first_false_props(rest);
        assert forall|k: int| 0 <= k < first_false(flags) implies #[trigger] flags[k] by {
            if k < rest.len() {
                assert(rest[k] == flags[k]);
            }
        }
    }
}

} // verus!
