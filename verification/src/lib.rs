//! A workload compiler for driving a key/value storage engine with
//! synthetic, reproducible benchmarks.
//!
//! A workload is written in a small textual language, parsed into a
//! [`Workload`] value, and compiled by the generator into a concrete,
//! replayable sequence of [`RealCommand`] operations against a simulated
//! population of live keys.

use vstd::prelude::*;

pub mod generator;
pub mod integrity;
pub mod parse;
pub mod report;
pub mod rng;

verus! {

broadcast use vstd::std_specs::vec::axiom_vec_index_decreases;

/// A byte count, as written in a workload (command sizes, capacities).
pub type Bytes = usize;

/// A percentage position inside the live-key population, 0 to 100.
pub type Perc = u8;

/// The weight of a statement inside a section, in percent of the
/// section's iteration count.
pub type Freq = u8;

/// An abstract, unexpanded operation request.
#[derive(Debug, PartialEq)]
pub enum Command {
    /// Create a new key with a value of the given size.
    NewPut(Bytes),
    /// Replace the value of a randomly chosen live key.
    Overwrite(Bytes),
    /// Create a new key whose payload the engine should inline.
    Embed(Bytes),
    /// Read a live key chosen uniformly from the whole population.
    RandomGet,
    /// Read a live key chosen from the given percentage window.
    Get(Perc, Perc),
    /// Delete a live key chosen uniformly from the whole population.
    RandomDelete,
    /// Delete a live key chosen from the given percentage window.
    Delete(Perc, Perc),
    /// Delete a contiguous band of the live population.
    DeleteRange(Perc, Perc),
    /// Repeat an embedded command list the given number of times.
    Times(usize, Vec<Command>),
}

/// The mathematical shape of a [`Command`], with sequences in place of
/// vectors.
pub ghost enum CommandV {
    NewPut(usize),
    Overwrite(usize),
    Embed(usize),
    RandomGet,
    Get(u8, u8),
    RandomDelete,
    Delete(u8, u8),
    DeleteRange(u8, u8),
    Times(usize, Seq<CommandV>),
}

/// The mathematical shape of one command; commands inside `Times` are
/// taken to their shapes elementwise.
pub open spec fn cmd_view(c: Command) -> CommandV
    decreases c,
{
    match c {
        Command::NewPut(b) => CommandV::NewPut(b),
        Command::Overwrite(b) => CommandV::Overwrite(b),
        Command::Embed(b) => CommandV::Embed(b),
        Command::RandomGet => CommandV::RandomGet,
        Command::Get(l, r) => CommandV::Get(l, r),
        Command::RandomDelete => CommandV::RandomDelete,
        Command::Delete(l, r) => CommandV::Delete(l, r),
        Command::DeleteRange(l, r) => CommandV::DeleteRange(l, r),
        Command::Times(n, cs) => CommandV::Times(n, cmd_vec_view(cs)),
    }
}

/// The shapes of a vector of commands, in order.
pub open spec fn cmd_vec_view(cs: Vec<Command>) -> Seq<CommandV>
    decreases cs,
{
    Seq::new(
        cs@.len(),
        |i: int|
            if 0 <= i < cs@.len() {
                cmd_view(cs@[i])
            } else {
                CommandV::RandomGet
            },
    )
}

impl DeepView for Command {
    type V = CommandV;

    open spec fn deep_view(&self) -> CommandV {
        cmd_view(*self)
    }
}

/// The two ways of viewing a command vector agree.
pub proof fn lemma_cmd_vec_view(cs: Vec<Command>)
    ensures
        cmd_vec_view(cs) == cs.deep_view(),
{
    assert(cmd_vec_view(cs) =~= cs.deep_view());
}

impl Clone for Command {
    /// A clone has the same mathematical shape as the value cloned.
    fn clone(&self) -> (res: Self)
        ensures
            res.deep_view() == self.deep_view(),
        decreases *self,
    {
        match self {
            Command::NewPut(b) => Command::NewPut(*b),
            Command::Overwrite(b) => Command::Overwrite(*b),
            Command::Embed(b) => Command::Embed(*b),
            Command::RandomGet => Command::RandomGet,
            Command::Get(l, r) => Command::Get(*l, *r),
            Command::RandomDelete => Command::RandomDelete,
            Command::Delete(l, r) => Command::Delete(*l, *r),
            Command::DeleteRange(l, r) => Command::DeleteRange(*l, *r),
            Command::Times(n, cs) => {
                let copy = clone_commands(cs);
                Command::Times(*n, copy)
            },
        }
    }
}

/// Clones every command of a vector; the result has the same shape,
/// element for element.
pub fn clone_commands(cs: &Vec<Command>) -> (res: Vec<Command>)
    ensures
        res.deep_view() == cs.deep_view(),
        cmd_vec_view(res) == cmd_vec_view(*cs),
    decreases *cs,
{
    let n = cs.len();
    let mut res: Vec<Command> = Vec::new();
    let mut i: usize = 0;
    while i < n
        invariant
            n == cs@.len(),
            i <= n,
            res@.len() == i,
            forall|j: int| 0 <= j < i ==> res@[j].deep_view() == cs@[j].deep_view(),
        decreases n - i,
    {
        proof {
            assert(cs@[i as int].deep_view() == cmd_view(cs@[i as int]));
        }
        res.push(cs[i].clone());
        i = i + 1;
    }
    proof {
        assert(res.deep_view() =~= cs.deep_view());
        assert(cmd_vec_view(res) =~= cmd_vec_view(*cs));
    }
    res
}

/// An ordered, non-empty list of commands treated as one atomic unit for
/// shuffling: a statement's internal order is never reshuffled.
#[derive(Debug, PartialEq)]
pub struct Statement(pub Vec<Command>);

impl Clone for Statement {
    /// A clone has the same mathematical shape as the value cloned.
    fn clone(&self) -> (res: Self)
        ensures
            res.deep_view() == self.deep_view(),
    {
        let copy = clone_commands(&self.0);
        Statement(copy)
    }
}

impl DeepView for Statement {
    type V = Seq<CommandV>;

    open spec fn deep_view(&self) -> Seq<CommandV> {
        self.0.deep_view()
    }
}

/// One block of a workload.
#[derive(Clone, Debug, PartialEq)]
pub enum Section {
    /// Expand each statement `iterations * frequency / 100` times and
    /// concatenate in declaration order.
    Ordered(usize, Vec<(Freq, Statement)>),
    /// Same expansion, then the statement instances are randomly permuted
    /// before flattening.
    Unordered(usize, Vec<(Freq, Statement)>),
    /// A literal command list inserted verbatim.
    Commands(Vec<Command>),
}

/// The mathematical shape of a [`Section`].
pub ghost enum SectionV {
    Ordered(usize, Seq<(u8, Seq<CommandV>)>),
    Unordered(usize, Seq<(u8, Seq<CommandV>)>),
    Commands(Seq<CommandV>),
}

impl DeepView for Section {
    type V = SectionV;

    open spec fn deep_view(&self) -> SectionV {
        match self {
            Section::Ordered(it, v) => SectionV::Ordered(*it, v.deep_view()),
            Section::Unordered(it, v) => SectionV::Unordered(*it, v.deep_view()),
            Section::Commands(cs) => SectionV::Commands(cs.deep_view()),
        }
    }
}

/// An optional random seed plus an ordered sequence of sections.
#[derive(Clone, Debug, PartialEq)]
pub struct Workload {
    pub seed: Option<u64>,
    pub sections: Vec<Section>,
}

/// The mathematical shape of a [`Workload`].
pub ghost struct WorkloadV {
    pub seed: Option<u64>,
    pub sections: Seq<SectionV>,
}

impl DeepView for Workload {
    type V = WorkloadV;

    open spec fn deep_view(&self) -> WorkloadV {
        WorkloadV { seed: self.seed, sections: self.sections.deep_view() }
    }
}

/// A fully concrete operation, ready for execution against the engine.
/// Keys are 128-bit identifiers assigned in strictly increasing order
/// starting from 1.
#[derive(Clone, Copy, Debug, PartialEq, Eq, Structural)]
pub enum RealCommand {
    /// Store a value of the given size under the key.
    Put(u128, Bytes),
    /// Store a value whose payload the engine should inline.
    Embed(u128, Bytes),
    /// Read the key; the size is what the simulator believes is stored.
    Get(u128, Bytes),
    /// Remove the key; the size is what the simulator believes is stored.
    Delete(u128, Bytes),
    /// Remove every key in the half-open band between the two keys.
    DeleteRange(u128, u128),
}

/// A malformed workload text, reported with the byte position at which
/// parsing failed.
#[derive(Clone, Copy, Debug, PartialEq, Eq, Structural)]
pub struct SyntaxError {
    pub position: usize,
}

} // verus!
