use vstd::prelude::*;

verus! {

/// The playback of a short audio clip next to a screenshot. Cutting the clip and playing it
/// happen elsewhere; this keeps the state that decides what is playing. Each request gets a
/// number, and news about an older request (one that was stopped or replaced) is ignored.
pub struct AudioPlayer {
    request: u64,
    waiting_for_clip: bool,
    is_playing: bool,
    playback_running: bool,
}

impl AudioPlayer {
    /// A clip being cut counts as playing; a clip being played was cut.
    #[verifier::type_invariant]
    spec fn consistent(&self) -> bool {
        &&& self.waiting_for_clip ==> self.is_playing && !self.playback_running
        &&& self.playback_running ==> self.is_playing && !self.waiting_for_clip
    }

    /// The number of the latest request.
    pub closed spec fn current_request(&self) -> u64 {
        self.request
    }

    /// Whether the clip of the latest request is still being cut.
    pub closed spec fn waiting(&self) -> bool {
        self.waiting_for_clip
    }

    /// Whether the clip of the latest request is being played.
    pub closed spec fn running(&self) -> bool {
        self.playback_running
    }

    /// Whether the player reports that something plays.
    pub closed spec fn playing(&self) -> bool {
        self.is_playing
    }

    /// Nothing requested, nothing playing.
    pub fn new() -> (r: Self)
        ensures
            !r.playing(),
            !r.waiting(),
            !r.running(),
            r.current_request() == 0,
    {
        AudioPlayer { request: 0, waiting_for_clip: false, is_playing: false, playback_running: false }
    }

    /// Starts a request for a clip, after stopping whatever played; returns the request's
    /// number, to be handed back with the news about it.
    pub fn start_clip(&mut self) -> (r: u64)
        ensures
            r == final(self).current_request(),
            r == old(self).current_request().wrapping_add(1),
            final(self).playing(),
            final(self).waiting(),
            !final(self).running(),
    {
        self.stop();
        self.request = self.request.wrapping_add(1);
        self.is_playing = true;
        self.waiting_for_clip = true;
        self.request
    }

    /// The clip of request `request` was cut (`cut_ok`) or could not be. Returns whether to start
    /// playing it: only for the latest request still waiting, and only when it was cut.
    pub fn on_clip_ready(&mut self, request: u64, cut_ok: bool) -> (r: bool)
        ensures
            r == (request == old(self).current_request() && old(self).waiting() && cut_ok),
            final(self).current_request() == old(self).current_request(),
            (request == old(self).current_request() && old(self).waiting()) ==> (!final(self).waiting()
                && final(self).running() == cut_ok && final(self).playing() == cut_ok),
            !(request == old(self).current_request() && old(self).waiting()) ==> *final(self) == *old(self),
    {
        proof {
            use_type_invariant(&*self);
        }
        if request != self.request || !self.waiting_for_clip {
            return false;
        }
        self.waiting_for_clip = false;
        if !cut_ok {
            self.is_playing = false;
            return false;
        }
        self.playback_running = true;
        true
    }

    /// The playback of request `request` ended.
    pub fn on_playback_finished(&mut self, request: u64)
        ensures
            final(self).current_request() == old(self).current_request(),
            final(self).waiting() == old(self).waiting(),
            (request == old(self).current_request() && old(self).running()) ==> (!final(self).running()
                && !final(self).playing()),
            !(request == old(self).current_request() && old(self).running()) ==> *final(self) == *old(self),
    {
        proof {
            use_type_invariant(&*self);
        }
        if request == self.request && self.playback_running {
            self.playback_running = false;
            self.is_playing = false;
        }
    }

    /// Forgets the request in progress: nothing plays any more.
    pub fn stop(&mut self)
        ensures
            final(self).current_request() == old(self).current_request(),
            !final(self).playing(),
            !final(self).waiting(),
            !final(self).running(),
    {
        proof {
            use_type_invariant(&*self);
        }
        self.playback_running = false;
        self.waiting_for_clip = false;
        self.is_playing = false;
    }

    /// Whether a clip is being cut or played.
    pub fn is_playing(&self) -> (r: bool)
        ensures
            r == self.playing(),
    {
        self.is_playing
    }
}

} // verus!
