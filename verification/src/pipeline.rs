//! Reading a page line by line, and a batch page by page.
//!
//! The library does not run the model. For a page it says what is to be done next; the caller
//! runs the model on the tensor it is given and hands the scores back, until the page is
//! finished. The first failure fails the page for good: nothing more of it is read, and none
//! of its lines is given out. A failed page ends its batch.

use crate::decoder::{collapsed, is_well_shaped, labels_of};
use crate::monocr::{BBox, LineResult, MonOcr, OcrError};
use crate::raster::GrayImage;
use crate::resample::can_resample;
use crate::profile::page_mask;
use crate::segmenter::{line_regions, lines_match, LineSegment};
use crate::tensor::{is_tensor_of, Tensor, TARGET_HEIGHT};
use crate::text::joined_lines;
use crate::utils::{accuracy_hundredths, calculate_accuracy};
use vstd::prelude::*;
use vstd::string::StringExecFns;

verus! {

/// A text with its score against a ground truth.
#[derive(Debug, Clone)]
pub struct OcrResult {
    /// The recognised text.
    pub text: String,
    /// The score in hundredths of a percent: 10000 stands for 100.00 %.
    pub accuracy: u32,
}

/// A page on its way through the recogniser: its lines, and the results for the first of them.
pub struct PageRun {
    /// The lines of the page, from the top down.
    pub lines: Vec<LineSegment>,
    /// The results for the lines read so far, in the same order.
    pub results: Vec<LineResult>,
    /// Why the page has failed, once it has. A failed page stays failed: no line of it is
    /// read again.
    pub failure: Option<OcrError>,
}

/// What was read from a page: its lines from the top down, and its text.
#[derive(Debug, Clone)]
pub struct PageResult {
    /// The lines with their texts and boxes.
    pub lines: Vec<LineResult>,
    /// The texts of the lines, joined by line feeds.
    pub text: String,
}

/// The pages of a batch that were read so far, in the order in which they were handed in.
pub struct BatchRun {
    /// The pages read so far.
    pub pages: Vec<PageResult>,
}

/// What the caller is to do next with a page.
#[derive(Debug, Clone)]
pub enum PageAction {
    /// Run the model on this tensor and hand the scores back.
    Infer(Tensor),
    /// Every line has been read.
    Finished,
}

/// The texts of the results, in order.
pub open spec fn texts_of(results: Seq<LineResult>) -> Seq<Seq<char>> {
    Seq::new(results.len(), |i: int| results[i].text@)
}

impl PageRun {
    /// Every line can be read, and each result so far belongs to the line at its place.
    pub open spec fn wf(&self) -> bool {
        &&& self.results@.len() <= self.lines@.len()
        &&& forall|i: int| 0 <= i < self.lines@.len() ==> (#[trigger] self.lines@[i]).img.wf()
        &&& forall|i: int|
            0 <= i < self.results@.len() ==> same_box(
                (#[trigger] self.results@[i]).bbox,
                self.lines@[i].bbox,
            )
    }

    /// Whether every line of the page has been read.
    pub open spec fn is_finished(&self) -> bool {
        self.results@.len() == self.lines@.len()
    }

    /// What was read from the page, once every line has been read; `None` before that, and
    /// for a page that has failed: of such a page not even the lines read so far are given.
    pub fn finish(self) -> (page: Option<PageResult>)
        ensures
            page is Some <==> self.is_finished() && self.failure is None,
            page is Some ==> {
                &&& page->0.lines@ == self.results@
                &&& page->0.text@ == joined_lines(texts_of(self.results@))
            },
    {
        if self.failure.is_none() && self.results.len() == self.lines.len() {
            let text = page_text(&self.results);
            Some(PageResult { lines: self.results, text })
        } else {
            None
        }
    }
}

impl BatchRun {
    /// A batch of which no page has been read yet.
    pub fn new() -> (batch: Self)
        ensures
            batch.pages@.len() == 0,
    {
        BatchRun { pages: Vec::new() }
    }

    /// Takes the outcome of the next page. A page that was read joins those before it; a page
    /// that failed ends the batch with its failure, and the pages read before it are given up.
    pub fn accept_page<E>(self, outcome: Result<PageResult, E>) -> (next: Result<BatchRun, E>)
        ensures
            match outcome {
                Ok(page) => next is Ok && next->Ok_0.pages@ == self.pages@.push(page),
                Err(e) => next is Err && next->Err_0 == e,
            },
    {
        match outcome {
            Ok(page) => {
                let mut pages = self.pages;
                pages.push(page);
                Ok(BatchRun { pages })
            },
            Err(e) => Err(e),
        }
    }

    /// The pages of the batch, in the order in which they were handed in.
    pub fn into_pages(self) -> (pages: Vec<PageResult>)
        ensures
            pages@ == self.pages@,
    {
        self.pages
    }
}

/// Whether a result's box is the box of a line.
pub open spec fn same_box(result: BBox, line: crate::segmenter::BBox) -> bool {
    result.x == line.x && result.y == line.y && result.w == line.w && result.h == line.h
}

impl MonOcr {
    /// Takes up a page: finds its lines, none of which is read yet.
    pub fn begin_page(&self, page: &GrayImage) -> (run: PageRun)
        requires
            page.wf(),
        ensures
            run.wf(),
            run.results@.len() == 0,
            run.failure is None,
            lines_match(
                page,
                line_regions(
                    page,
                    page_mask(page, self.segmenter.smooth_window),
                    self.segmenter.min_line_height,
                ),
                run.lines@,
            ),
    {
        let lines = self.segmenter.segment(page);
        PageRun { lines, results: Vec::new(), failure: None }
    }

    /// What is to be done next with the page: nothing more when every line is read, else the
    /// model is to be run on the tensor of the first line that is not. A line too wide to be
    /// resampled on this machine fails the page, and a page that has failed gives its failure
    /// again.
    pub fn next_action(&self, run: &PageRun) -> (action: Result<PageAction, OcrError>)
        requires
            run.wf(),
        ensures
            match action {
                Ok(PageAction::Finished) => run.failure is None && run.is_finished(),
                Ok(PageAction::Infer(tensor)) => {
                    &&& run.failure is None
                    &&& !run.is_finished()
                    &&& can_resample(run.lines@[run.results@.len() as int].img.width, TARGET_HEIGHT)
                    &&& tensor.wf()
                    &&& is_tensor_of(tensor.samples@, &run.lines@[run.results@.len() as int].img)
                },
                Err(e) => match run.failure {
                    Some(failure) => e == failure,
                    None => {
                        &&& !run.is_finished()
                        &&& e == OcrError::OversizedLine
                        &&& !can_resample(
                            run.lines@[run.results@.len() as int].img.width,
                            TARGET_HEIGHT,
                        )
                    },
                },
            },
    {
        match run.failure {
            Some(failure) => {
                return Err(failure);
            },
            None => {},
        }
        let done: usize = run.results.len();
        if done >= run.lines.len() {
            return Ok(PageAction::Finished);
        }
        match self.preprocess(&run.lines[done].img) {
            Ok(tensor) => Ok(PageAction::Infer(tensor)),
            Err(e) => Err(e),
        }
    }

    /// Takes the scores that the model gave for the line that was waiting, and records the
    /// line's text with its box. Scores that are malformed, or that do not have one class for
    /// each symbol of the character set and one for the blank, fail the page for good and
    /// record nothing. Scores for a page that has failed are refused with its failure, and
    /// scores that come when no line is waiting are refused too.
    pub fn accept_logits(&self, run: &mut PageRun, data: &Vec<i32>, shape: &Vec<usize>) -> (outcome:
        Result<(), OcrError>)
        requires
            old(run).wf(),
        ensures
            final(run).lines == old(run).lines,
            final(run).wf(),
            outcome is Ok <==> old(run).failure is None && !old(run).is_finished() && is_well_shaped(
                data@,
                shape@,
                self.charset@.len(),
            ),
            match outcome {
                Ok(_) => {
                    &&& final(run).failure is None
                    &&& final(run).results@.len() == old(run).results@.len() + 1
                    &&& final(run).results@.drop_last() == old(run).results@
                    &&& final(run).results@.last().text@ == collapsed(
                        labels_of(data@, shape@[1] as int, shape@[2] as int),
                        self.charset@,
                    )
                },
                Err(e) => {
                    &&& final(run).results == old(run).results
                    &&& e == match old(run).failure {
                        Some(failure) => failure,
                        None => if old(run).is_finished() {
                            OcrError::UnexpectedLogits
                        } else {
                            OcrError::MalformedLogits
                        },
                    }
                    &&& final(run).failure == if old(run).failure is None && !old(run).is_finished() {
                        Some(OcrError::MalformedLogits)
                    } else {
                        old(run).failure
                    }
                },
            },
    {
        match run.failure {
            Some(failure) => {
                return Err(failure);
            },
            None => {},
        }
        let done: usize = run.results.len();
        if done >= run.lines.len() {
            return Err(OcrError::UnexpectedLogits);
        }
        match self.decode_owned(data, shape) {
            Err(e) => {
                run.failure = Some(e);
                Err(e)
            },
            Ok(text) => {
                let b = run.lines[done].bbox;
                let result = LineResult { text, bbox: BBox { x: b.x, y: b.y, w: b.w, h: b.h } };
                run.results.push(result);
                assert(run.results@.drop_last() =~= old(run).results@);
                Ok(())
            },
        }
    }
}

/// The text of a page: the texts of its lines, in order, with a line feed between each two.
pub fn page_text(results: &Vec<LineResult>) -> (text: String)
    ensures
        text@ == joined_lines(texts_of(results@)),
{
    let ghost texts = texts_of(results@);
    let mut text = String::new();
    let mut i: usize = 0;
    while i < results.len()
        invariant
            i <= results@.len(),
            texts == texts_of(results@),
            text@ == joined_lines(texts.take(i as int)),
        decreases results@.len() - i,
    {
        if i > 0 {
            text.push('\n');
        }
        text.append(results[i].text.as_str());
        proof {
            let shorter = texts.take(i as int);
            let longer = texts.take(i + 1);
            assert(longer.drop_last() =~= shorter);
            assert(longer.last() == results@[i as int].text@);
            if i == 0 {
                assert(text@ =~= longer[0]);
            } else {
                assert(text@ =~= joined_lines(shorter) + seq!['\n'] + longer.last());
            }
        }
        i = i + 1;
    }
    assert(texts.take(results@.len() as int) =~= texts);
    text
}

/// The text with its score against `ground_truth`.
pub fn score_text(text: String, ground_truth: &str) -> (result: OcrResult)
    ensures
        result.text@ == text@,
        result.accuracy == accuracy_hundredths(text@, ground_truth@),
        result.accuracy <= 10000,
{
    let accuracy = calculate_accuracy(text.as_str(), ground_truth);
    OcrResult { text, accuracy }
}

} // verus!
