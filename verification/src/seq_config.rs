//! Configuration of the sequence layout engine. All lengths are integer
//! pixel units; well-formedness keeps every constant within `[8, 4096]` so
//! that the engine's coordinate arithmetic stays exact in `i64`.

use vstd::prelude::*;
use crate::ast::MAX_TEXT;
use crate::geom::spec_imax;

verus! {

#[derive(Clone, Copy, Debug, PartialEq, Eq, Structural)]
pub struct SequenceLayoutConfig {
    pub margin: i64,
    pub participant_height: i64,
    pub participant_min_width: i64,
    pub participant_padding: i64,
    pub char_width: i64,
    pub font_size: i64,
    pub line_height: i64,
    pub message_spacing: i64,
    pub min_spacing: i64,
    pub activation_width: i64,
    pub note_width: i64,
    pub note_height: i64,
    pub divider_height: i64,
    pub delay_height: i64,
    pub fragment_header_height: i64,
    pub fragment_padding: i64,
    pub box_title_height: i64,
}

impl SequenceLayoutConfig {
    /// Every constant lies in `[8, 4096]`.
    pub open spec fn wf(self) -> bool {
        &&& 8 <= self.margin <= 4096
        &&& 8 <= self.participant_height <= 4096
        &&& 8 <= self.participant_min_width <= 4096
        &&& 8 <= self.participant_padding <= 4096
        &&& 8 <= self.char_width <= 4096
        &&& 8 <= self.font_size <= 4096
        &&& 8 <= self.line_height <= 4096
        &&& 8 <= self.message_spacing <= 4096
        &&& 8 <= self.min_spacing <= 4096
        &&& 8 <= self.activation_width <= 4096
        &&& 8 <= self.note_width <= 4096
        &&& 8 <= self.note_height <= 4096
        &&& 8 <= self.divider_height <= 4096
        &&& 8 <= self.delay_height <= 4096
        &&& 8 <= self.fragment_header_height <= 4096
        &&& 8 <= self.fragment_padding <= 4096
        &&& 8 <= self.box_title_height <= 4096
    }

    /// The width of a run of text in the configured monospace metric.
    pub open spec fn spec_text_width(self, s: Seq<char>) -> int {
        s.len() * self.char_width
    }

    /// The width reserved for a message label: zero when empty.
    pub open spec fn spec_label_width(self, s: Seq<char>) -> int {
        if s.len() == 0 {
            0
        } else {
            self.spec_text_width(s)
        }
    }

    /// The header width of a participant with the given display name.
    pub open spec fn spec_participant_width(self, name: Seq<char>) -> int {
        spec_imax(
            self.participant_min_width as int,
            self.spec_text_width(name) + self.participant_padding,
        )
    }

    pub fn text_width(&self, s: &str) -> (w: i64)
        requires
            self.wf(),
            s@.len() <= MAX_TEXT,
        ensures
            w == self.spec_text_width(s@),
            0 <= w <= MAX_TEXT * 4096,
    {
        let n = s.unicode_len();
        proof {
            assert(n <= MAX_TEXT);
        }
        crate::geom::mul_nn(n as i64, self.char_width, Ghost(4096), Ghost(4096))
    }

    pub fn message_label_width(&self, s: &str) -> (w: i64)
        requires
            self.wf(),
            s@.len() <= MAX_TEXT,
        ensures
            w == self.spec_label_width(s@),
            0 <= w <= MAX_TEXT * 4096,
    {
        if s.unicode_len() == 0 {
            0
        } else {
            self.text_width(s)
        }
    }

    pub fn participant_width_for_name(&self, name: &str) -> (w: i64)
        requires
            self.wf(),
            name@.len() <= MAX_TEXT,
        ensures
            w == self.spec_participant_width(name@),
            0 < w <= MAX_TEXT * 4096 + 8192,
    {
        let tw = self.text_width(name);
        crate::geom::imax(self.participant_min_width, tw + self.participant_padding)
    }
}

impl Default for SequenceLayoutConfig {
    /// The stock configuration.
    fn default() -> (c: SequenceLayoutConfig)
        ensures
            c == default_sequence_config(),
            c.wf(),
    {
        SequenceLayoutConfig {
            margin: 10,
            participant_height: 40,
            participant_min_width: 60,
            participant_padding: 20,
            char_width: 8,
            font_size: 13,
            line_height: 15,
            message_spacing: 28,
            min_spacing: 50,
            activation_width: 10,
            note_width: 120,
            note_height: 40,
            divider_height: 20,
            delay_height: 25,
            fragment_header_height: 22,
            fragment_padding: 10,
            box_title_height: 20,
        }
    }
}

/// The stock configuration, as a value.
pub open spec fn default_sequence_config() -> SequenceLayoutConfig {
    SequenceLayoutConfig {
        margin: 10,
        participant_height: 40,
        participant_min_width: 60,
        participant_padding: 20,
        char_width: 8,
        font_size: 13,
        line_height: 15,
        message_spacing: 28,
        min_spacing: 50,
        activation_width: 10,
        note_width: 120,
        note_height: 40,
        divider_height: 20,
        delay_height: 25,
        fragment_header_height: 22,
        fragment_padding: 10,
        box_title_height: 20,
    }
}

} // verus!
