//! Stopping a search and counting what it has done.

use std::sync::atomic::{AtomicBool, AtomicUsize, Ordering};
use std::sync::Arc;
use vstd::prelude::*;

verus! {

/// Whether someone has asked to stop. The flag may change between two calls.
pub(crate) fn check_if_stop_received(stop_flag: &Arc<AtomicBool>) -> bool {
    stop_flag.load(Ordering::Relaxed)
}

/// Whether a question, such as whether to stop, is never answered with yes.
pub open spec fn never<F: Fn() -> bool>(question: F) -> bool {
    forall|answer: bool| #[trigger] call_ensures(question, (), answer) ==> !answer
}

/// Whether a question, such as whether to stop, is always answered with yes.
pub open spec fn always<F: Fn() -> bool>(question: F) -> bool {
    forall|answer: bool| #[trigger] call_ensures(question, (), answer) ==> answer
}

/// Tells whoever watches that some more items are done.
pub(crate) fn count_items(items_counter: &Arc<AtomicUsize>, items: usize) {
    items_counter.fetch_add(items, Ordering::Relaxed);
}

/// A question that is never answered with yes has no answer but no, and one that is always answered
/// with yes has no answer but yes; where it has an answer it cannot be both.
pub proof fn law_answers<F: Fn() -> bool>(question: F, answer: bool)
    requires
        call_ensures(question, (), answer),
    ensures
        never(question) ==> !answer,
        always(question) ==> answer,
        !never(question) <==> call_ensures(question, (), true),
        !always(question) <==> call_ensures(question, (), false),
{
}

} // verus!
