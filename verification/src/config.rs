//! The capability switches the embedding chooses once, when the runtime is
//! built: an explicit value rather than ambient global state.

use vstd::prelude::*;

verus! {

/// Which optional runtime capabilities the embedding enables at
/// initialization.
#[derive(Clone, Copy, PartialEq, Eq, Structural)]
pub struct RuntimeConfig {
    pub enable_event_loop: bool,
    pub enable_text_encoding: bool,
    pub enable_stream_io: bool,
}

impl RuntimeConfig {
    /// A configuration with every capability disabled.
    pub fn new() -> (c: RuntimeConfig)
        ensures
            !c.enable_event_loop,
            !c.enable_text_encoding,
            !c.enable_stream_io,
    {
        RuntimeConfig { enable_event_loop: false, enable_text_encoding: false, enable_stream_io: false }
    }

    /// Chooses whether the event loop is enabled.
    pub fn event_loop(self, enabled: bool) -> (c: RuntimeConfig)
        ensures
            c.enable_event_loop == enabled,
            c.enable_text_encoding == self.enable_text_encoding,
            c.enable_stream_io == self.enable_stream_io,
    {
        RuntimeConfig { enable_event_loop: enabled, ..self }
    }

    /// Chooses whether the text-encoding bindings are enabled.
    pub fn text_encoding(self, enabled: bool) -> (c: RuntimeConfig)
        ensures
            c.enable_text_encoding == enabled,
            c.enable_event_loop == self.enable_event_loop,
            c.enable_stream_io == self.enable_stream_io,
    {
        RuntimeConfig { enable_text_encoding: enabled, ..self }
    }

    /// Chooses whether the stream I/O bindings are enabled.
    pub fn stream_io(self, enabled: bool) -> (c: RuntimeConfig)
        ensures
            c.enable_stream_io == enabled,
            c.enable_event_loop == self.enable_event_loop,
            c.enable_text_encoding == self.enable_text_encoding,
    {
        RuntimeConfig { enable_stream_io: enabled, ..self }
    }
}

} // verus!
