//! The commands of the program and the keys that give them.

use vstd::prelude::*;

verus! {

/// A key, as far as the program tells keys apart.
#[derive(Copy, Clone, Debug, PartialEq, Eq, Structural)]
pub enum Key {
    Escape,
    Q,
    A,
    W,
    S,
    R,
    N,
    F,
    Other,
}

/// What the window reports, as far as the program reacts to it.
#[derive(Copy, Clone, Debug, PartialEq, Eq, Structural)]
pub enum Input {
    /// The window is being closed.
    Quit,
    /// A key went down.
    KeyDown(Key),
    /// Anything else.
    Other,
}

/// What the user can ask for.
#[derive(Copy, Clone, Debug, PartialEq, Eq, Structural)]
pub enum Command {
    IncreaseNoiseDensity,
    DecreaseNoiseDensity,
    IncreaseIterations,
    NextIteration,
    DecreaseIterations,
    Regenerate,
    ShowStatus,
    Filter,
    Exit,
}

/// The command that an input gives: closing the window and Escape end the program, Q
/// and A raise and lower the noise density, W and S the number of iterations, R
/// regenerates, N runs one more iteration, F filters, and any other key shows the
/// status. Other inputs give no command.
pub open spec fn command_of(input: Input) -> Option<Command> {
    match input {
        Input::Quit => Some(Command::Exit),
        Input::KeyDown(Key::Escape) => Some(Command::Exit),
        Input::KeyDown(Key::Q) => Some(Command::IncreaseNoiseDensity),
        Input::KeyDown(Key::A) => Some(Command::DecreaseNoiseDensity),
        Input::KeyDown(Key::W) => Some(Command::IncreaseIterations),
        Input::KeyDown(Key::S) => Some(Command::DecreaseIterations),
        Input::KeyDown(Key::R) => Some(Command::Regenerate),
        Input::KeyDown(Key::N) => Some(Command::NextIteration),
        Input::KeyDown(Key::F) => Some(Command::Filter),
        Input::KeyDown(Key::Other) => Some(Command::ShowStatus),
        Input::Other => None,
    }
}

/// The command that an input gives, if it gives one.
pub fn command_for(input: Input) -> (command: Option<Command>)
    ensures
        command == command_of(input),
{
    match input {
        Input::Quit => Some(Command::Exit),
        Input::KeyDown(key) => Some(
            match key {
                Key::Escape => Command::Exit,
                Key::Q => Command::IncreaseNoiseDensity,
                Key::A => Command::DecreaseNoiseDensity,
                Key::W => Command::IncreaseIterations,
                Key::S => Command::DecreaseIterations,
                Key::R => Command::Regenerate,
                Key::N => Command::NextIteration,
                Key::F => Command::Filter,
                Key::Other => Command::ShowStatus,
            },
        ),
        Input::Other => None,
    }
}

} // verus!
