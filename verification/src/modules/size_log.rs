use vstd::prelude::*;

verus! {

/// The answers the terminal gave to the size queries made through one
/// renderer, oldest first. It holds no data at run time: it lets contracts
/// speak of the terminal's answers, and only the size query adds to it.
pub struct SizeAnswers {
    answers: Ghost<Seq<Option<(u16, u16)>>>,
}

impl View for SizeAnswers {
    type V = Seq<Option<(u16, u16)>>;

    closed spec fn view(&self) -> Seq<Option<(u16, u16)>> {
        self.answers@
    }
}

impl SizeAnswers {
    /// No answers yet.
    pub fn new() -> (r: SizeAnswers)
        ensures
            r@ == Seq::<Option<(u16, u16)>>::empty(),
    {
        SizeAnswers { answers: Ghost(Seq::empty()) }
    }
}

} // verus!
