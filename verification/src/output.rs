//! Where the messages for the user go.

use vstd::prelude::*;

verus! {

/// A place that takes messages for the user, one after the other.
pub trait Output {
    /// The messages taken so far, the oldest first, where the output keeps
    /// them. An output tells nothing unless it says otherwise.
    open spec fn taken(&self) -> Option<Seq<Seq<char>>> {
        None
    }

    /// Takes one more message. An output that keeps its messages has
    /// `message` as its newest from then on.
    fn write(&mut self, message: &str)
        ensures
            old(self).taken() matches Some(log) ==> final(self).taken() == Some(
                log.push(message@),
            ),
    ;
}

/// An output that keeps its messages.
pub struct FakeOutput {
    pub messages: Vec<String>,
}

impl FakeOutput {
    /// The texts of `messages`, in their order.
    pub open spec fn texts(messages: Seq<String>) -> Seq<Seq<char>> {
        messages.map_values(|m: String| m@)
    }

    /// The texts of the messages kept, the oldest first.
    pub open spec fn written(&self) -> Seq<Seq<char>> {
        Self::texts(self.messages@)
    }
}

impl Default for FakeOutput {
    fn default() -> (output: Self)
        ensures
            output.messages@.len() == 0,
    {
        FakeOutput { messages: Vec::new() }
    }
}

impl Output for FakeOutput {
    open spec fn taken(&self) -> Option<Seq<Seq<char>>> {
        Some(self.written())
    }

    fn write(&mut self, message: &str)
        ensures
            final(self).written() == old(self).written().push(message@),
    {
        self.messages.push(message.to_owned());
        assert(self.written() =~= old(self).written().push(message@));
    }
}

} // verus!
