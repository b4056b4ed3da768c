//! One run of the program: from the serialized state and an execution to the
//! public output.

use crate::codec::{state_decoding, state_encoding};
use crate::model::{Action, Execution, RawBlock, State, StateView};
use crate::output::{commit, commitment};
use crate::rules::{transition, StfError};
use crate::stf::stf;
use vstd::prelude::*;

verus! {

/// Why a run gave no output.
#[derive(Clone, Copy, Debug, PartialEq, Eq, Structural)]
pub enum RunError {
    /// The bytes handed in as the state do not encode a state.
    MalformedState,
    /// The transition was refused.
    Refused(StfError),
}

/// What a run gives: the packed public output, and the state to go on from.
#[derive(Clone, Debug, PartialEq, Eq)]
pub struct Outcome {
    /// The packed public output.
    pub public_values: Vec<u8>,
    /// The state after the transition.
    pub state: State,
}

/// What a run leaves behind, as mathematical values.
pub struct OutcomeView {
    /// The packed public output.
    pub public_values: Seq<u8>,
    /// The state after the transition.
    pub state: StateView,
}

impl View for Outcome {
    type V = OutcomeView;

    open spec fn view(&self) -> OutcomeView {
        OutcomeView { public_values: self.public_values@, state: self.state@ }
    }
}

/// The outcome of a run on the serialized state `state_bytes`.
///
/// The output commits to the block and the action chain that the state stood
/// at, to those it stands at after the transition, to the digests of the
/// state's encoding before and after, and to the closed orders.
pub open spec fn run_outcome(state_bytes: Seq<u8>, actions: Seq<Action>, blocks: Seq<RawBlock>)
    -> Result<OutcomeView, RunError> {
    match state_decoding(state_bytes) {
        None => Err(RunError::MalformedState),
        Some(before) => match transition(before, actions, blocks) {
            Err(e) => Err(RunError::Refused(e)),
            Ok(after) => Ok(
                OutcomeView {
                    public_values: commitment(
                        before.latest_block_id,
                        before.action_chain,
                        state_bytes,
                        after.state,
                        state_encoding(after.state),
                        after.closed,
                    ),
                    state: after.state,
                },
            ),
        },
    }
}

/// Runs the program once: decodes the state, applies the execution, and
/// packs the public output.
pub fn run(state_bytes: &[u8], execution: Execution) -> (r: Result<Outcome, RunError>)
    ensures
        match run_outcome(state_bytes@, execution.actions@, execution.blocks@) {
            Ok(outcome) => r is Ok && r->Ok_0@ == outcome,
            Err(e) => r is Err && r->Err_0 == e,
        },
{
    let mut state = match State::deserialize(state_bytes) {
        Some(state) => state,
        None => {
            return Err(RunError::MalformedState);
        },
    };
    let old_block_id = state.latest_block_id;
    let old_action_chain = state.action_chain;
    let closed = match stf(&mut state, execution) {
        Ok(closed) => closed,
        Err(e) => {
            return Err(RunError::Refused(e));
        },
    };
    let new_bytes = state.serialize();
    let public_values = commit(
        old_block_id,
        old_action_chain,
        state_bytes,
        &state,
        new_bytes.as_slice(),
        &closed,
    );
    Ok(Outcome { public_values, state })
}

/// A run depends on its input alone: the same bytes and the same execution
/// give the same public output and leave the same state, whose encoding is
/// then the same too.
pub proof fn lemma_run_is_a_function(
    state_bytes: Seq<u8>,
    actions: Seq<Action>,
    blocks: Seq<RawBlock>,
    other_bytes: Seq<u8>,
    other_actions: Seq<Action>,
    other_blocks: Seq<RawBlock>,
)
    requires
        state_bytes == other_bytes,
        actions == other_actions,
        blocks == other_blocks,
        run_outcome(state_bytes, actions, blocks) is Ok,
    ensures
        run_outcome(other_bytes, other_actions, other_blocks) is Ok,
        run_outcome(state_bytes, actions, blocks)->Ok_0.public_values == run_outcome(
            other_bytes,
            other_actions,
            other_blocks,
        )->Ok_0.public_values,
        state_encoding(run_outcome(state_bytes, actions, blocks)->Ok_0.state) == state_encoding(
            run_outcome(other_bytes, other_actions, other_blocks)->Ok_0.state,
        ),
{
}

} // verus!
