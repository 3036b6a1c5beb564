//! A flash job from the user's choices to the written card: where the panel
//! overlay comes from, what becomes of it, and in which order things are done.

use crate::panel_config::{custom_dtbo, custom_fits, try_build_custom_dtbo, unchanged, PanelConfig};
use crate::text::{contains, join, occurs, same};
use crate::tree::readable;
use vstd::prelude::*;

verus! {

/// Where a job stands.
pub enum JobState {
    /// Read the overlay file that the user picked.
    ReadCustom,
    /// Have the image decompressed in the cache.
    Prepare,
    /// Read the overlay out of the image: the one for the variant, or, where
    /// the image does not have it, the one of the panel.
    ReadImage { fallback: bool },
    /// Put the overlay into a temporary file.
    WriteOverlay(Vec<u8>),
    /// Write the card.
    Flash,
    RemoveOverlay,
    RemoveImage,
    Done(Result<(), String>),
    /// The settings change an overlay that cannot be read, or that would
    /// become too long.
    Broken,
}

pub ghost enum JobStateView {
    ReadCustom,
    Prepare,
    ReadImage { fallback: bool },
    WriteOverlay(Seq<u8>),
    Flash,
    RemoveOverlay,
    RemoveImage,
    Done(Result<(), Seq<char>>),
    Broken,
}

impl JobState {
    pub open spec fn view(&self) -> JobStateView {
        match self {
            JobState::ReadCustom => JobStateView::ReadCustom,
            JobState::Prepare => JobStateView::Prepare,
            JobState::ReadImage { fallback } => JobStateView::ReadImage { fallback: *fallback },
            JobState::WriteOverlay(v) => JobStateView::WriteOverlay(v@),
            JobState::Flash => JobStateView::Flash,
            JobState::RemoveOverlay => JobStateView::RemoveOverlay,
            JobState::RemoveImage => JobStateView::RemoveImage,
            JobState::Done(Ok(_)) => JobStateView::Done(Ok(())),
            JobState::Done(Err(e)) => JobStateView::Done(Err(e@)),
            JobState::Broken => JobStateView::Broken,
        }
    }
}

/// What the step came to: the bytes it read, if it reads any, or a message.
pub type StepResult = Result<Vec<u8>, String>;

/// The user's choices.
#[verifier::ext_equal]
pub ghost struct Choices {
    /// The overlay is a file of the user's own.
    pub custom: bool,
    pub compressed: bool,
    pub panel_dtbo: Seq<char>,
    pub variant_dtbo: Seq<char>,
    pub config: PanelConfig,
}

/// The first state of a job.
pub open spec fn first_state(c: Choices) -> JobStateView {
    if c.custom {
        JobStateView::ReadCustom
    } else if c.compressed {
        JobStateView::Prepare
    } else {
        JobStateView::ReadImage { fallback: false }
    }
}

/// The state after an overlay was read.
pub open spec fn overlay_read(c: Choices, dtbo: Seq<u8>) -> JobStateView {
    if c.config != unchanged() && !(readable(dtbo) && custom_fits(dtbo, c.config)) {
        JobStateView::Broken
    } else {
        match flashed_dtbo(dtbo, c.config) {
            Ok(v) => JobStateView::WriteOverlay(v),
            Err(e) => JobStateView::Done(Err(e)),
        }
    }
}

/// The state after a step has succeeded, with the bytes it read.
pub open spec fn succeeded(c: Choices, s: JobStateView, bytes: Seq<u8>) -> JobStateView {
    match s {
        JobStateView::ReadCustom => overlay_read(c, bytes),
        JobStateView::ReadImage { .. } => overlay_read(c, bytes),
        JobStateView::Prepare => if c.custom {
            JobStateView::Flash
        } else {
            JobStateView::ReadImage { fallback: false }
        },
        JobStateView::WriteOverlay(_) => if c.custom && c.compressed {
            JobStateView::Prepare
        } else {
            JobStateView::Flash
        },
        JobStateView::Flash => JobStateView::RemoveOverlay,
        JobStateView::RemoveOverlay => if c.compressed {
            JobStateView::RemoveImage
        } else {
            JobStateView::Done(Ok(()))
        },
        JobStateView::RemoveImage => JobStateView::Done(Ok(())),
        JobStateView::Done(_) => s,
        JobStateView::Broken => s,
    }
}

/// The state after a step has failed: the job ends, except that a missing
/// overlay for the variant is made up for by that of the panel, and that
/// files left behind do no harm.
pub open spec fn failed(c: Choices, s: JobStateView, message: Seq<char>) -> JobStateView {
    match s {
        JobStateView::ReadImage { fallback: false } => if c.variant_dtbo != c.panel_dtbo {
            JobStateView::ReadImage { fallback: true }
        } else {
            JobStateView::Done(Err(message))
        },
        JobStateView::RemoveOverlay => succeeded(c, s, Seq::empty()),
        JobStateView::RemoveImage => succeeded(c, s, Seq::empty()),
        JobStateView::Done(_) => s,
        JobStateView::Broken => s,
        _ => JobStateView::Done(Err(message)),
    }
}

/// A flash job.
pub struct FlashJob {
    custom: bool,
    compressed: bool,
    panel_dtbo: String,
    variant_dtbo: String,
    config: PanelConfig,
    state: JobState,
    overlay: Ghost<Option<Seq<u8>>>,
    prepared: Ghost<bool>,
}

impl FlashJob {
    pub closed spec fn choices(&self) -> Choices {
        Choices {
            custom: self.custom,
            compressed: self.compressed,
            panel_dtbo: self.panel_dtbo@,
            variant_dtbo: self.variant_dtbo@,
            config: self.config,
        }
    }

    pub closed spec fn view(&self) -> JobStateView {
        self.state@
    }

    /// The overlay in the temporary file, once it was written.
    pub closed spec fn overlay(&self) -> Option<Seq<u8>> {
        self.overlay@
    }

    /// The image is decompressed.
    pub closed spec fn prepared(&self) -> bool {
        self.prepared@
    }

    /// The card is only written when the overlay is in its file, and the
    /// image decompressed.
    pub open spec fn wf(&self) -> bool {
        &&& self@ is Flash || self@ is RemoveOverlay || self@ is RemoveImage ==> self.overlay()
            is Some && (self.choices().compressed ==> self.prepared())
        &&& self@ is Prepare && self.choices().custom ==> self.overlay() is Some
        &&& self@ is Prepare ==> self.choices().compressed
        &&& self@ is ReadCustom ==> self.choices().custom
        &&& self@ is ReadImage ==> !self.choices().custom && (self.choices().compressed
            ==> self.prepared())
        &&& self@ is WriteOverlay && !self.choices().custom && self.choices().compressed
            ==> self.prepared()
    }

    pub fn new(
        custom: bool,
        compressed: bool,
        panel_dtbo: &str,
        variant_dtbo: &str,
        config: PanelConfig,
    ) -> (r: Self)
        ensures
            r.wf(),
            r.choices() == (Choices {
                custom,
                compressed,
                panel_dtbo: panel_dtbo@,
                variant_dtbo: variant_dtbo@,
                config,
            }),
            r@ == first_state(r.choices()),
            r.overlay() is None,
            !r.prepared(),
    {
        let state = if custom {
            JobState::ReadCustom
        } else if compressed {
            JobState::Prepare
        } else {
            JobState::ReadImage { fallback: false }
        };
        FlashJob {
            custom,
            compressed,
            panel_dtbo: panel_dtbo.to_string(),
            variant_dtbo: variant_dtbo.to_string(),
            config,
            state,
            overlay: Ghost(None),
            prepared: Ghost(false),
        }
    }

    /// The step that is due.
    pub fn state(&self) -> (r: &JobState)
        ensures
            r@ == self@,
    {
        &self.state
    }

    /// The file to look for in the image.
    pub fn overlay_name(&self) -> (r: &str)
        ensures
            r@ == (if self@ matches JobStateView::ReadImage { fallback: true } {
                self.choices().panel_dtbo
            } else {
                self.choices().variant_dtbo
            }),
    {
        match self.state {
            JobState::ReadImage { fallback: true } => self.panel_dtbo.as_str(),
            _ => self.variant_dtbo.as_str(),
        }
    }

    fn take_overlay(&mut self, dtbo: Vec<u8>)
        ensures
            final(self)@ == overlay_read(old(self).choices(), dtbo@),
            final(self).choices() == old(self).choices(),
            final(self).overlay() == old(self).overlay(),
            final(self).prepared() == old(self).prepared(),
    {
        self.state = match final_dtbo(dtbo, &self.config) {
            Some(Ok(v)) => JobState::WriteOverlay(v),
            Some(Err(e)) => JobState::Done(Err(e)),
            None => JobState::Broken,
        };
    }

    fn move_on(&mut self, bytes: Vec<u8>)
        requires
            old(self).wf(),
        ensures
            final(self).wf(),
            final(self).choices() == old(self).choices(),
            final(self)@ == succeeded(old(self).choices(), old(self)@, bytes@),
            final(self).overlay() == (match old(self)@ {
                JobStateView::WriteOverlay(v) => Some(v),
                _ => old(self).overlay(),
            }),
            final(self).prepared() == (old(self).prepared() || old(self)@ is Prepare),
    {
        match &self.state {
            JobState::ReadCustom => {
                self.take_overlay(bytes);
            },
            JobState::ReadImage { .. } => {
                self.take_overlay(bytes);
            },
            JobState::Prepare => {
                self.state = if self.custom {
                    JobState::Flash
                } else {
                    JobState::ReadImage { fallback: false }
                };
                proof {
                    self.prepared@ = true;
                }
            },
            JobState::WriteOverlay(v) => {
                let ghost written = v@;
                self.state = if self.custom && self.compressed {
                    JobState::Prepare
                } else {
                    JobState::Flash
                };
                proof {
                    self.overlay@ = Some(written);
                }
            },
            JobState::Flash => {
                self.state = JobState::RemoveOverlay;
            },
            JobState::RemoveOverlay => {
                self.state = if self.compressed {
                    JobState::RemoveImage
                } else {
                    JobState::Done(Ok(()))
                };
            },
            JobState::RemoveImage => {
                self.state = JobState::Done(Ok(()));
            },
            JobState::Done(_) => {},
            JobState::Broken => {},
        }
    }

    /// Goes on with what the step came to.
    pub fn proceed(&mut self, result: StepResult)
        requires
            old(self).wf(),
        ensures
            final(self).wf(),
            final(self).choices() == old(self).choices(),
            match result {
                Ok(bytes) => {
                    &&& final(self)@ == succeeded(old(self).choices(), old(self)@, bytes@)
                    &&& final(self).overlay() == (match old(self)@ {
                        JobStateView::WriteOverlay(v) => Some(v),
                        _ => old(self).overlay(),
                    })
                    &&& final(self).prepared() == (old(self).prepared() || old(self)@ is Prepare)
                },
                Err(e) => {
                    &&& final(self)@ == failed(old(self).choices(), old(self)@, e@)
                    &&& final(self).overlay() == old(self).overlay()
                    &&& final(self).prepared() == old(self).prepared()
                },
            },
    {
        match result {
            Ok(bytes) => {
                self.move_on(bytes);
            },
            Err(e) => match &self.state {
                JobState::ReadImage { fallback: false } => {
                    if same(self.variant_dtbo.as_str(), self.panel_dtbo.as_str()) {
                        self.state = JobState::Done(Err(e));
                    } else {
                        self.state = JobState::ReadImage { fallback: true };
                    }
                },
                JobState::RemoveOverlay => {
                    self.move_on(Vec::new());
                },
                JobState::RemoveImage => {
                    self.move_on(Vec::new());
                },
                JobState::Done(_) => {},
                JobState::Broken => {},
                _ => {
                    self.state = JobState::Done(Err(e));
                },
            },
        }
    }
}

/// A job in which every step succeeds, and that reads the overlay `dtbo`,
/// flashes exactly that overlay with the settings in it, and ends well.
pub open spec fn ends_well(c: Choices, s: JobStateView, dtbo: Seq<u8>, fuel: nat) -> bool
    decreases fuel,
{
    s == JobStateView::Done(Ok(())) || fuel > 0 && (s matches JobStateView::WriteOverlay(v)
        ==> flashed_dtbo(dtbo, c.config) == Ok::<Seq<u8>, Seq<char>>(v)) && ends_well(
        c,
        succeeded(c, s, dtbo),
        dtbo,
        (fuel - 1) as nat,
    )
}

/// Whatever the user chose: if each step succeeds and the overlay can take the
/// settings, the job ends well, and the overlay that is flashed is the one
/// that was read with the settings in it.
pub proof fn lemma_job_ends_well(c: Choices, dtbo: Seq<u8>)
    requires
        c.config == unchanged() || readable(dtbo) && custom_fits(dtbo, c.config),
        flashed_dtbo(dtbo, c.config) is Ok,
    ensures
        ends_well(c, first_state(c), dtbo, 6),
{
    reveal_with_fuel(ends_well, 7);
}

/// The overlay that is flashed: as it is, unless the settings change it.
pub open spec fn flashed_dtbo(dtbo: Seq<u8>, cfg: PanelConfig) -> Result<Seq<u8>, Seq<char>> {
    if cfg == unchanged() {
        Ok(dtbo)
    } else {
        custom_dtbo(dtbo, cfg)
    }
}

/// The overlay that is flashed. `None`: the settings change it, and it cannot
/// be read or would become too long.
pub fn final_dtbo(dtbo: Vec<u8>, config: &PanelConfig) -> (r: Option<Result<Vec<u8>, String>>)
    ensures
        r is Some == (*config == unchanged() || readable(dtbo@) && custom_fits(dtbo@, *config)),
        match r {
            Some(Ok(v)) => flashed_dtbo(dtbo@, *config) == Ok::<Seq<u8>, Seq<char>>(v@),
            Some(Err(e)) => flashed_dtbo(dtbo@, *config) == Err::<Seq<u8>, Seq<char>>(e@),
            None => true,
        },
{
    if config.is_default() {
        Some(Ok(dtbo))
    } else {
        try_build_custom_dtbo(dtbo.as_slice(), config)
    }
}

/// Whether a decompressed image is out of date: the image it was made from is
/// newer. Where a time is not known, it is not.
pub fn is_stale(source_modified: Option<u128>, cached_modified: Option<u128>) -> (r: bool)
    ensures
        r == (source_modified is Some && cached_modified is Some && source_modified->0
            > cached_modified->0),
{
    match (source_modified, cached_modified) {
        (Some(s), Some(c)) => s > c,
        _ => false,
    }
}

/// The preload list with a library put first; `None` if the list has a
/// Wayland client library already.
pub fn preload_list(current: &str, library: &str) -> (r: Option<String>)
    ensures
        match r {
            Some(s) => !occurs(current@, "libwayland-client"@) && s@ == (if current@.len() == 0 {
                library@
            } else {
                library@ + ":"@ + current@
            }),
            None => occurs(current@, "libwayland-client"@),
        },
{
    if contains(current, "libwayland-client") {
        None
    } else if current.is_empty() {
        Some(library.to_string())
    } else {
        Some(join(join(library, ":").as_str(), current))
    }
}

} // verus!
