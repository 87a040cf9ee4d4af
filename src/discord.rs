use vstd::prelude::*;

verus! {

/// State shared with the chat bot's commands; it holds nothing yet.
pub struct Data {}

} // verus!
