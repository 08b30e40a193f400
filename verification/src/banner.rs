//! The state of the startup banner animation.
use vstd::prelude::*;
use crate::text::push_char;

verus! {

/// The animation's progress: a phase, the frames shown so far and whether it is over.
pub struct BannerState {
    pub phase: u8,
    pub tick: u32,
    pub done: bool,
}

/// The phase a frame count belongs to: the symbol fades in (frames up to 50),
/// the title appears (up to 95), the tagline types in (up to 140), then it settles
/// (up to 175). `None` past that: the animation is over.
pub open spec fn phase_of_tick(t: int) -> Option<u8> {
    if t <= 50 {
        Some(0u8)
    } else if t <= 95 {
        Some(1u8)
    } else if t <= 140 {
        Some(2u8)
    } else if t <= 175 {
        Some(3u8)
    } else {
        None
    }
}

/// The tagline that types in during phase 2.
pub open spec fn tagline() -> Seq<char> {
    "Torah at your fingertips"@
}

/// How many characters of the tagline show at this point of the animation.
pub open spec fn tagline_shown(phase: u8, tick: u32) -> nat {
    if phase == 2 {
        let n = ((tick - 96) * 24 / 44) as nat;
        if n < 24 {
            n
        } else {
            24
        }
    } else {
        24
    }
}

impl BannerState {
    /// The state before the first frame.
    pub fn new() -> (r: Self)
        ensures
            r.phase == 0,
            r.tick == 0,
            !r.done,
    {
        BannerState { phase: 0, tick: 0, done: false }
    }

    /// Advance the animation by one frame: the frame count grows by one and the
    /// phase follows it; past the last phase the phase stays and the animation is done.
    pub fn tick(&mut self)
        requires
            old(self).tick < u32::MAX,
        ensures
            final(self).tick == old(self).tick + 1,
            match phase_of_tick(old(self).tick + 1) {
                Some(p) => final(self).phase == p && final(self).done == old(self).done,
                None => final(self).phase == old(self).phase && final(self).done,
            },
    {
        self.tick = self.tick + 1;
        if self.tick <= 50 {
            self.phase = 0;
        } else if self.tick <= 95 {
            self.phase = 1;
        } else if self.tick <= 140 {
            self.phase = 2;
        } else if self.tick <= 175 {
            self.phase = 3;
        } else {
            self.done = true;
        }
    }

    /// The part of the tagline that shows in the current frame: it types in over
    /// phase 2 and shows whole afterwards.
    pub fn tagline_text(&self) -> (r: String)
        requires
            self.phase == 2 ==> self.tick >= 96,
        ensures
            r@ == tagline().subrange(0, tagline_shown(self.phase, self.tick) as int),
    {
        let n: u64 = if self.phase == 2 {
            let p = ((self.tick - 96) as u64) * 24 / 44;
            if p < 24 {
                p
            } else {
                24
            }
        } else {
            24
        };
        let line = "Torah at your fingertips";
        let mut r = String::new();
        let mut i: usize = 0;
        proof {
            reveal_strlit("Torah at your fingertips");
        }
        while (i as u64) < n
            invariant
                n <= 24,
                n == tagline_shown(self.phase, self.tick),
                line@ == tagline(),
                line@.len() == 24,
                i <= n,
                r@ == tagline().subrange(0, i as int),
            decreases n - i,
        {
            push_char(&mut r, line.get_char(i));
            assert(r@ =~= tagline().subrange(0, i + 1));
            i = i + 1;
        }
        r
    }
}

} // verus!
