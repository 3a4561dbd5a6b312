//! The calibration of a scene: the entries of its three matrices as the
//! calibration text gives them.
//!
//! A line of the text holds a key and the entries of one matrix, row after
//! row. Three keys are needed: `P2:` for the projection from the rectified
//! camera frame to the image (3 rows of 4), `Tr_velo_to_cam:` for the rigid
//! transform from the laser scanner to the camera (3 rows of 4), and
//! `R0_rect:` for the rectifying rotation (3 rows of 3). Lines with other
//! keys are passed over. Where a key comes twice, its last line counts.

use crate::error::KittiError;
use crate::number::{is_real, parse_numbers, Number};
use crate::text::{
    chars_of, lemma_words_of_spans, line_spans, lines, rows, same_word, span_pairs, split_lines,
    split_words, cut, word_spans, words, Span,
};
use vstd::prelude::*;

verus! {

/// The number of entries of the projection and of the rigid transform.
pub const ENTRIES_3X4: usize = 12;

/// The number of entries of the rectifying rotation.
pub const ENTRIES_3X3: usize = 9;

/// The key of the projection.
pub open spec fn projection_key() -> Seq<char> {
    "P2:"@
}

/// The key of the rigid transform from the laser scanner to the camera.
pub open spec fn velo_to_cam_key() -> Seq<char> {
    "Tr_velo_to_cam:"@
}

/// The key of the rectifying rotation.
pub open spec fn rectification_key() -> Seq<char> {
    "R0_rect:"@
}

/// The calibration of a scene. Each matrix is held row after row.
#[derive(Debug, PartialEq, Eq)]
pub struct Calibration {
    p: Vec<Number>,
    v2c: Vec<Number>,
    r0: Vec<Number>,
}

/// What a calibration holds: the words for the entries of each matrix, row
/// after row.
pub struct CalibrationWords {
    pub p: Seq<Seq<char>>,
    pub v2c: Seq<Seq<char>>,
    pub r0: Seq<Seq<char>>,
}

/// The words behind `numbers`.
pub open spec fn words_of(numbers: Seq<Number>) -> Seq<Seq<char>> {
    numbers.map_values(|number: Number| number@)
}

impl View for Calibration {
    type V = CalibrationWords;

    closed spec fn view(&self) -> CalibrationWords {
        CalibrationWords { p: words_of(self.p@), v2c: words_of(self.v2c@), r0: words_of(self.r0@) }
    }
}

/// The words after the key in the last row of `table` that begins with `key`,
/// if there is such a row.
pub open spec fn entry_of(table: Seq<Seq<Seq<char>>>, key: Seq<char>) -> Option<Seq<Seq<char>>>
    decreases table.len(),
{
    if table.len() == 0 {
        None
    } else if table.last().len() > 0 && table.last()[0] == key {
        Some(table.last().skip(1))
    } else {
        entry_of(table.drop_last(), key)
    }
}

/// Whether `entries` are `count` words that each denote a real number.
pub open spec fn is_matrix(entries: Seq<Seq<char>>, count: int) -> bool {
    &&& entries.len() == count
    &&& forall|k: int| 0 <= k < entries.len() ==> is_real(#[trigger] entries[k])
}

/// The matrix of `count` entries that `table` gives under `key`: an invalid
/// calibration if the key is absent, a malformed line if what follows the key
/// is not `count` numbers.
pub open spec fn matrix_of(table: Seq<Seq<Seq<char>>>, key: Seq<char>, count: int) -> Result<
    Seq<Seq<char>>,
    KittiError,
> {
    match entry_of(table, key) {
        None => Err(KittiError::InvalidCalibration),
        Some(entries) => if is_matrix(entries, count) {
            Ok(entries)
        } else {
            Err(KittiError::Parse)
        },
    }
}

/// The calibration that `text` gives, or the error of the first matrix that
/// it does not give, in the order projection, rigid transform, rotation.
pub open spec fn calibration_of(text: Seq<char>) -> Result<CalibrationWords, KittiError> {
    let table = rows(text);
    match matrix_of(table, projection_key(), ENTRIES_3X4 as int) {
        Err(error) => Err(error),
        Ok(p) => match matrix_of(table, velo_to_cam_key(), ENTRIES_3X4 as int) {
            Err(error) => Err(error),
            Ok(v2c) => match matrix_of(table, rectification_key(), ENTRIES_3X3 as int) {
                Err(error) => Err(error),
                Ok(r0) => Ok(CalibrationWords { p, v2c, r0 }),
            },
        },
    }
}

/// What a source gives: the error for a source that cannot be read if there
/// are no contents, else what the contents give.
pub open spec fn source_gives(contents: Option<Seq<char>>) -> Result<CalibrationWords, KittiError> {
    match contents {
        None => Err(KittiError::Io),
        Some(text) => calibration_of(text),
    }
}

/// A row that does not begin with `key` changes nothing in what `table` gives
/// under `key`, wherever it stands.
pub proof fn lemma_other_rows_change_nothing(
    before: Seq<Seq<Seq<char>>>,
    row: Seq<Seq<char>>,
    after: Seq<Seq<Seq<char>>>,
    key: Seq<char>,
)
    requires
        row.len() == 0 || row[0] != key,
    ensures
        entry_of(before.push(row) + after, key) == entry_of(before + after, key),
    decreases after.len(),
{
    if after.len() == 0 {
        assert(before.push(row) + after == before.push(row));
        assert(before + after == before);
        assert(before.push(row).drop_last() == before);
    } else {
        lemma_other_rows_change_nothing(before, row, after.drop_last(), key);
        assert((before.push(row) + after).drop_last() == before.push(row) + after.drop_last());
        assert((before + after).drop_last() == before + after.drop_last());
        assert((before.push(row) + after).last() == after.last());
        assert((before + after).last() == after.last());
    }
}

/// Where a key comes twice, its last line counts: what follows a row that
/// begins with `key` decides alone, if a row that begins with `key` is in it.
pub proof fn lemma_last_row_counts(
    before: Seq<Seq<Seq<char>>>,
    after: Seq<Seq<Seq<char>>>,
    key: Seq<char>,
)
    requires
        entry_of(after, key) is Some,
    ensures
        entry_of(before + after, key) == entry_of(after, key),
    decreases after.len(),
{
    assert(after.len() > 0);
    assert((before + after).last() == after.last());
    assert((before + after).drop_last() == before + after.drop_last());
    if !(after.last().len() > 0 && after.last()[0] == key) {
        lemma_last_row_counts(before, after.drop_last(), key);
    }
}

/// The matrix of `count` entries that the lines of `chars` give under `key`.
fn read_matrix(chars: &[char], line_list: &Vec<Span>, key: &str, count: usize) -> (r: Result<
    Vec<Number>,
    KittiError,
>)
    requires
        span_pairs(line_list@) == line_spans(chars@, 0),
        forall|j: int|
            0 <= j < line_list.len() ==> (#[trigger] line_list[j]).start <= line_list[j].end
                <= chars.len(),
    ensures
        match r {
            Ok(numbers) => matrix_of(rows(chars@), key@, count as int) == Ok::<
                Seq<Seq<char>>,
                KittiError,
            >(words_of(numbers@)),
            Err(error) => matrix_of(rows(chars@), key@, count as int) == Err::<
                Seq<Seq<char>>,
                KittiError,
            >(error),
        },
{
    let key_chars = chars_of(key);
    let ghost table = rows(chars@);
    assert(table.len() == line_list.len());
    let mut found: Option<(Span, Vec<Span>)> = None;
    let mut i: usize = 0;
    while i < line_list.len()
        invariant
            i <= line_list.len(),
            key_chars@ == key@,
            table == rows(chars@),
            table.len() == line_list.len(),
            span_pairs(line_list@) == line_spans(chars@, 0),
            forall|j: int|
                0 <= j < line_list.len() ==> (#[trigger] line_list[j]).start <= line_list[j].end
                    <= chars.len(),
            match found {
                None => entry_of(table.take(i as int), key@) is None,
                Some((line_span, spans)) => {
                    &&& line_span.start <= line_span.end <= chars.len()
                    &&& span_pairs(spans@) == word_spans(line_span.of(chars@), 0)
                    &&& forall|j: int|
                        0 <= j < spans.len() ==> (#[trigger] spans[j]).start < spans[j].end
                            <= line_span.end - line_span.start
                    &&& spans.len() > 0
                    &&& entry_of(table.take(i as int), key@) == Some(
                        words(line_span.of(chars@)).skip(1),
                    )
                },
            },
        decreases line_list.len() - i,
    {
        let line = cut(chars, line_list[i]);
        let spans = split_words(line);
        proof {
            assert(span_pairs(line_list@)[i as int] == line_spans(chars@, 0)[i as int]);
            assert(lines(chars@)[i as int] == line@);
            assert(table[i as int] == words(line@));
            lemma_words_of_spans(line@, spans@);
            assert(table.take(i + 1).drop_last() == table.take(i as int));
            assert(table.take(i + 1).last() == table[i as int]);
        }
        if spans.len() > 0 && same_word(cut(line, spans[0]), key_chars.as_slice()) {
            found = Some((line_list[i], spans));
        }
        i += 1;
    }
    assert(table.take(i as int) == table);
    match found {
        None => Err(KittiError::InvalidCalibration),
        Some((line_span, spans)) => {
            let line = cut(chars, line_span);
            let ghost entries = words(line@).skip(1);
            proof {
                lemma_words_of_spans(line@, spans@);
            }
            if spans.len() - 1 != count {
                return Err(KittiError::Parse);
            }
            match parse_numbers(line, &spans, 1, spans.len()) {
                Some(numbers) => {
                    assert(words_of(numbers@) =~= entries);
                    assert forall|k: int| 0 <= k < entries.len() implies is_real(
                        #[trigger] entries[k],
                    ) by {
                        assert(entries[k] == spans[k + 1].of(line@));
                    }
                    Ok(numbers)
                },
                None => {
                    proof {
                        let k = choose|k: int|
                            1 <= k < spans.len() && !is_real((#[trigger] spans[k]).of(line@));
                        assert(entries[k - 1] == spans[k].of(line@));
                    }
                    Err(KittiError::Parse)
                },
            }
        },
    }
}

impl Calibration {
    #[verifier::type_invariant]
    spec fn well_formed(self) -> bool {
        &&& is_matrix(words_of(self.p@), ENTRIES_3X4 as int)
        &&& is_matrix(words_of(self.v2c@), ENTRIES_3X4 as int)
        &&& is_matrix(words_of(self.r0@), ENTRIES_3X3 as int)
    }

    /// The calibration that a calibration source gives; `None` stands for a
    /// source that cannot be read.
    pub fn new(contents: Option<&str>) -> (r: Result<Calibration, KittiError>)
        ensures
            match r {
                Ok(calibration) => Ok::<CalibrationWords, KittiError>(calibration@),
                Err(error) => Err::<CalibrationWords, KittiError>(error),
            } == source_gives(
                match contents {
                    Some(text) => Some(text@),
                    None => None,
                },
            ),
    {
        let text = match contents {
            Some(text) => text,
            None => {
                return Err(KittiError::Io);
            },
        };
        let chars = chars_of(text);
        let line_list = split_lines(chars.as_slice());
        let p = match read_matrix(chars.as_slice(), &line_list, "P2:", ENTRIES_3X4) {
            Ok(numbers) => numbers,
            Err(error) => {
                return Err(error);
            },
        };
        let v2c = match read_matrix(chars.as_slice(), &line_list, "Tr_velo_to_cam:", ENTRIES_3X4) {
            Ok(numbers) => numbers,
            Err(error) => {
                return Err(error);
            },
        };
        let r0 = match read_matrix(chars.as_slice(), &line_list, "R0_rect:", ENTRIES_3X3) {
            Ok(numbers) => numbers,
            Err(error) => {
                return Err(error);
            },
        };
        Ok(Calibration { p, v2c, r0 })
    }

    /// The projection from the rectified camera frame to the image: 3 rows
    /// of 4 entries, row after row.
    pub fn projection(&self) -> (r: &Vec<Number>)
        ensures
            words_of(r@) == self@.p,
            is_matrix(self@.p, ENTRIES_3X4 as int),
    {
        proof {
            use_type_invariant(self);
        }
        &self.p
    }

    /// The rigid transform from the laser scanner to the camera: 3 rows of 4
    /// entries, row after row.
    pub fn velo_to_cam(&self) -> (r: &Vec<Number>)
        ensures
            words_of(r@) == self@.v2c,
            is_matrix(self@.v2c, ENTRIES_3X4 as int),
    {
        proof {
            use_type_invariant(self);
        }
        &self.v2c
    }

    /// The rectifying rotation: 3 rows of 3 entries, row after row.
    pub fn rectification(&self) -> (r: &Vec<Number>)
        ensures
            words_of(r@) == self@.r0,
            is_matrix(self@.r0, ENTRIES_3X3 as int),
    {
        proof {
            use_type_invariant(self);
        }
        &self.r0
    }
}

} // verus!
