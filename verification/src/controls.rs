use vstd::prelude::*;

verus! {

/// What an arrow key asks of GDB: the right arrow steps forward (and has
/// the registers, locals and disassembly read again), the left one steps
/// back.
#[derive(PartialEq, Eq, Structural, Debug, Clone, Copy)]
pub enum KeyCommand {
    Step,
    ReverseStep,
}

/// The commands for the arrow keys that are down in this frame and were not
/// in the one before: stepping forward first, then stepping back.
pub fn key_commands(right_now: bool, right_before: bool, left_now: bool, left_before: bool) -> (r:
    Vec<KeyCommand>)
    ensures
        r@ == (if right_now && !right_before {
            seq![KeyCommand::Step]
        } else {
            seq![]
        }) + (if left_now && !left_before {
            seq![KeyCommand::ReverseStep]
        } else {
            seq![]
        }),
{
    let mut r: Vec<KeyCommand> = Vec::new();
    if right_now && !right_before {
        r.push(KeyCommand::Step);
    }
    if left_now && !left_before {
        r.push(KeyCommand::ReverseStep);
    }
    assert(r@ =~= (if right_now && !right_before {
        seq![KeyCommand::Step]
    } else {
        seq![]
    }) + (if left_now && !left_before {
        seq![KeyCommand::ReverseStep]
    } else {
        seq![]
    }));
    r
}

} // verus!
