use gdb_funend::controls::{key_commands, KeyCommand};

#[test]
fn keys_pressed_in_this_frame_give_commands() {
    assert_eq!(key_commands(true, false, false, false), vec![KeyCommand::Step]);
    assert_eq!(key_commands(false, false, true, false), vec![KeyCommand::ReverseStep]);
    assert_eq!(
        key_commands(true, false, true, false),
        vec![KeyCommand::Step, KeyCommand::ReverseStep]
    );
}

#[test]
fn keys_held_since_the_last_frame_give_nothing() {
    assert_eq!(key_commands(true, true, true, true), vec![]);
    assert_eq!(key_commands(false, true, false, true), vec![]);
    assert_eq!(key_commands(true, true, true, false), vec![KeyCommand::ReverseStep]);
}
