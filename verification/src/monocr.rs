//! The recogniser and its settings: a character set and a line detector.
//!
//! The sequence model itself is not part of this library. What the recogniser does with a line
//! before the model sees it, with the scores that the model gives, and with a page as a whole
//! is in the modules `tensor`, `decoder` and `pipeline`.

use crate::segmenter::LineSegmenter;
use crate::text::{trim_chars, trimmed};
use crate::utils::chars_of;
use vstd::prelude::*;
use vstd::string::StringExecFns;

verus! {

/// Minimum line height used unless the builder is told otherwise.
pub const DEFAULT_MIN_LINE_HEIGHT: u32 = 10;

/// Smoothing window used unless the builder is told otherwise.
pub const DEFAULT_SMOOTH_WINDOW: u32 = 3;

/// Why the recogniser could not be built, or a page not be read.
#[derive(Debug, Clone, Copy, PartialEq, Eq, Structural)]
pub enum OcrError {
    /// The character set is empty once the white space around it is removed.
    EmptyCharset,
    /// The scores handed back do not have the shape of a batch of time steps by classes, with
    /// one class for each symbol of the character set and one for the blank, or there are
    /// fewer of them than the shape announces.
    MalformedLogits,
    /// A line is too wide to be resampled on this machine.
    OversizedLine,
    /// Scores were handed back although no line of the page was waiting for them.
    UnexpectedLogits,
}

/// A rectangle in page coordinates.
#[derive(Debug, Clone, Copy)]
pub struct BBox {
    /// Column of the top-left corner.
    pub x: u32,
    /// Row of the top-left corner.
    pub y: u32,
    /// Number of columns.
    pub w: u32,
    /// Number of rows.
    pub h: u32,
}

/// The text read from one line of a page, and where the line stands.
#[derive(Debug, Clone)]
pub struct LineResult {
    /// The recognised text.
    pub text: String,
    /// The line's box on the page.
    pub bbox: BBox,
}

/// Settings from which a recogniser is built.
pub struct MonOcrBuilder {
    /// Where the model is stored, if not at its default place.
    pub model_path: Option<String>,
    /// The character set, if not the default one.
    pub charset: Option<String>,
    /// Runs of text rows shorter than this are not lines.
    pub min_line_height: u32,
    /// Width of the moving average that smooths the projection profile.
    pub smooth_window: u32,
}

/// The recogniser: a character set and a line detector.
pub struct MonOcr {
    /// Class `k` of the model, for `k` from 1 on, stands for `charset[k - 1]`.
    pub charset: Vec<char>,
    /// Finds the lines of a page.
    pub segmenter: LineSegmenter,
}

/// The character set written in `text`: its characters, without the white space around them.
pub fn parse_charset(text: &str) -> (charset: Result<Vec<char>, OcrError>)
    ensures
        match charset {
            Ok(symbols) => symbols@ == trimmed(text@) && symbols@.len() > 0,
            Err(e) => trimmed(text@).len() == 0 && e == OcrError::EmptyCharset,
        },
{
    let all = chars_of(text);
    let symbols = trim_chars(&all);
    if symbols.len() == 0 {
        Err(OcrError::EmptyCharset)
    } else {
        Ok(symbols)
    }
}

impl Default for MonOcrBuilder {
    /// Settings with their defaults: no model path, no character set, lines of at least
    /// `DEFAULT_MIN_LINE_HEIGHT` rows, a profile smoothed over `DEFAULT_SMOOTH_WINDOW` rows.
    fn default() -> (builder: Self)
        ensures
            builder.model_path is None,
            builder.charset is None,
            builder.min_line_height == DEFAULT_MIN_LINE_HEIGHT,
            builder.smooth_window == DEFAULT_SMOOTH_WINDOW,
    {
        Self {
            model_path: None,
            charset: None,
            min_line_height: DEFAULT_MIN_LINE_HEIGHT,
            smooth_window: DEFAULT_SMOOTH_WINDOW,
        }
    }
}

impl MonOcrBuilder {
    /// Settings with their defaults, as `default` gives them.
    pub fn new() -> (builder: Self)
        ensures
            builder.model_path is None,
            builder.charset is None,
            builder.min_line_height == DEFAULT_MIN_LINE_HEIGHT,
            builder.smooth_window == DEFAULT_SMOOTH_WINDOW,
    {
        Self::default()
    }

    /// The same settings with the model stored at `path`.
    pub fn model_path(self, path: &str) -> (builder: Self)
        ensures
            builder.model_path is Some,
            builder.model_path->0@ == path@,
            builder.charset == self.charset,
            builder.min_line_height == self.min_line_height,
            builder.smooth_window == self.smooth_window,
    {
        Self {
            model_path: Some(String::from_str(path)),
            charset: self.charset,
            min_line_height: self.min_line_height,
            smooth_window: self.smooth_window,
        }
    }

    /// The same settings with `charset` as the character set.
    pub fn charset(self, charset: &str) -> (builder: Self)
        ensures
            builder.charset is Some,
            builder.charset->0@ == charset@,
            builder.model_path == self.model_path,
            builder.min_line_height == self.min_line_height,
            builder.smooth_window == self.smooth_window,
    {
        Self {
            model_path: self.model_path,
            charset: Some(String::from_str(charset)),
            min_line_height: self.min_line_height,
            smooth_window: self.smooth_window,
        }
    }

    /// The same settings with lines of at least `height` rows.
    pub fn min_line_height(self, height: u32) -> (builder: Self)
        ensures
            builder.min_line_height == height,
            builder.model_path == self.model_path,
            builder.charset == self.charset,
            builder.smooth_window == self.smooth_window,
    {
        Self {
            model_path: self.model_path,
            charset: self.charset,
            min_line_height: height,
            smooth_window: self.smooth_window,
        }
    }

    /// The same settings with a profile smoothed over `window` rows.
    pub fn smooth_window(self, window: u32) -> (builder: Self)
        ensures
            builder.smooth_window == window,
            builder.model_path == self.model_path,
            builder.charset == self.charset,
            builder.min_line_height == self.min_line_height,
    {
        Self {
            model_path: self.model_path,
            charset: self.charset,
            min_line_height: self.min_line_height,
            smooth_window: window,
        }
    }

    /// The text of the character set that `build` will use: the one that was set, else
    /// `default_charset`.
    pub open spec fn charset_text(&self, default_charset: Seq<char>) -> Seq<char> {
        match self.charset {
            Some(text) => text@,
            None => default_charset,
        }
    }

    /// The recogniser for these settings. The character set is the one that was set, else
    /// `default_charset`; either is trimmed, and an empty one is refused.
    pub fn build(self, default_charset: &str) -> (ocr: Result<MonOcr, OcrError>)
        ensures
            match ocr {
                Ok(o) => {
                    &&& o.wf()
                    &&& o.charset@ == trimmed(self.charset_text(default_charset@))
                    &&& o.segmenter.min_line_height == self.min_line_height
                    &&& o.segmenter.smooth_window == self.smooth_window
                },
                Err(e) => {
                    &&& e == OcrError::EmptyCharset
                    &&& trimmed(self.charset_text(default_charset@)).len() == 0
                },
            },
    {
        match self.charset {
            Some(text) => MonOcr::new(text.as_str(), self.min_line_height, self.smooth_window),
            None => MonOcr::new(default_charset, self.min_line_height, self.smooth_window),
        }
    }
}

impl MonOcr {
    /// The recogniser has at least one symbol to write.
    pub open spec fn wf(&self) -> bool {
        self.charset@.len() > 0
    }

    /// Settings with their defaults.
    pub fn builder() -> (builder: MonOcrBuilder)
        ensures
            builder.model_path is None,
            builder.charset is None,
            builder.min_line_height == DEFAULT_MIN_LINE_HEIGHT,
            builder.smooth_window == DEFAULT_SMOOTH_WINDOW,
    {
        MonOcrBuilder::new()
    }

    /// A recogniser for the character set written in `charset`. The text is trimmed; an empty
    /// character set is refused.
    pub fn new(charset: &str, min_line_height: u32, smooth_window: u32) -> (ocr: Result<
        MonOcr,
        OcrError,
    >)
        ensures
            match ocr {
                Ok(o) => {
                    &&& o.wf()
                    &&& o.charset@ == trimmed(charset@)
                    &&& o.segmenter.min_line_height == min_line_height
                    &&& o.segmenter.smooth_window == smooth_window
                },
                Err(e) => e == OcrError::EmptyCharset && trimmed(charset@).len() == 0,
            },
    {
        match parse_charset(charset) {
            Ok(symbols) => Ok(
                MonOcr {
                    charset: symbols,
                    segmenter: LineSegmenter::new(min_line_height, smooth_window),
                },
            ),
            Err(e) => Err(e),
        }
    }
}

} // verus!
