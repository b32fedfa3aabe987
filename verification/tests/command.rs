use cavegen::command::{command_for, Command, Input, Key};

#[test]
fn closing_the_window_and_escape_end_the_program() {
    assert_eq!(command_for(Input::Quit), Some(Command::Exit));
    assert_eq!(command_for(Input::KeyDown(Key::Escape)), Some(Command::Exit));
}

#[test]
fn each_key_gives_its_command() {
    assert_eq!(command_for(Input::KeyDown(Key::Q)), Some(Command::IncreaseNoiseDensity));
    assert_eq!(command_for(Input::KeyDown(Key::A)), Some(Command::DecreaseNoiseDensity));
    assert_eq!(command_for(Input::KeyDown(Key::W)), Some(Command::IncreaseIterations));
    assert_eq!(command_for(Input::KeyDown(Key::S)), Some(Command::DecreaseIterations));
    assert_eq!(command_for(Input::KeyDown(Key::R)), Some(Command::Regenerate));
    assert_eq!(command_for(Input::KeyDown(Key::N)), Some(Command::NextIteration));
    assert_eq!(command_for(Input::KeyDown(Key::F)), Some(Command::Filter));
}

#[test]
fn any_other_key_shows_the_status() {
    assert_eq!(command_for(Input::KeyDown(Key::Other)), Some(Command::ShowStatus));
}

#[test]
fn other_inputs_give_no_command() {
    assert_eq!(command_for(Input::Other), None);
}
