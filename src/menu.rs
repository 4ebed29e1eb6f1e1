//! The play/pause state shown on the control surface.
use vstd::prelude::*;

verus! {

/// What the audio sink is told after the state is read.
#[derive(Clone, Copy, Debug, PartialEq, Eq, Structural)]
pub enum SinkCommand {
    Play,
    Pause,
}

/// Play/pause flag, flipped by the user, and the status text shown beside it.
pub struct Menu {
    pub playing: bool,
    pub status: String,
}

impl Menu {
    pub fn icon_name(&self) -> (r: String)
        ensures
            r@ == "help-about"@,
    {
        String::from_str("help-about")
    }

    /// The status text is the title.
    pub fn title(&self) -> (r: String)
        ensures
            r@ == self.status@,
    {
        self.status.clone()
    }

    /// A click on the control flips between playing and paused.
    pub fn activate(&mut self, _x: i32, _y: i32)
        ensures
            final(self).playing == !old(self).playing,
            final(self).status@ == old(self).status@,
    {
        self.playing = !self.playing;
    }

    /// Brings the status text in line with the flag and says what the sink
    /// must do: play and show "Playing", or pause and show "Paused".
    pub fn sync_status(&mut self) -> (r: SinkCommand)
        ensures
            final(self).playing == old(self).playing,
            old(self).playing ==> r == SinkCommand::Play && final(self).status@ == "Playing"@,
            !old(self).playing ==> r == SinkCommand::Pause && final(self).status@ == "Paused"@,
    {
        if self.playing {
            self.status = String::from_str("Playing");
            SinkCommand::Play
        } else {
            self.status = String::from_str("Paused");
            SinkCommand::Pause
        }
    }
}

} // verus!
