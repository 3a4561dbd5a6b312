//! Annotation records: one labelled object per line of text.
//!
//! A line holds the object's category and fourteen numbers. Lines without a
//! word, and lines of the category `DontCare`, give no record.

use crate::error::KittiError;
use crate::number::{integer_of, is_real, one_text, parse_integer, parse_numbers, Number};
use crate::text::{
    chars_of, cut, lemma_lines_of_joined_texts, lemma_one_line, lemma_words_of_spans, line_spans,
    lines, rows, span_pairs, split_lines, split_words, string_of, word_spans, words, Span,
};
use vstd::prelude::*;
use vstd::string::StringExecFns;

verus! {

/// One labelled object.
#[derive(Debug, PartialEq, Eq)]
pub struct KittiAnnotation {
    /// The type of object: `Car`, `Van`, `Truck`, `Pedestrian`,
    /// `Person_sitting`, `Cyclist`, `Tram` or `Misc`.
    pub category: String,
    /// From 0 (not truncated) to 1 (truncated): how far the object leaves the
    /// image.
    pub truncation: Number,
    /// 0 = fully visible, 1 = partly occluded, 2 = largely occluded,
    /// 3 = unknown.
    pub occlusion: i16,
    /// Observation angle of the object, in radians.
    pub alpha: Number,
    /// Left edge of the box in the image, in pixels.
    pub xmin: Number,
    /// Upper edge of the box in the image.
    pub ymin: Number,
    /// Right edge of the box in the image.
    pub xmax: Number,
    /// Lower edge of the box in the image.
    pub ymax: Number,
    /// Height of the object, in meters.
    pub h: Number,
    /// Width of the object.
    pub w: Number,
    /// Length of the object.
    pub l: Number,
    /// Place of the object in camera coordinates, in meters.
    pub x: Number,
    pub y: Number,
    pub z: Number,
    /// Rotation around the vertical axis of the camera, in radians.
    pub ry: Number,
    /// Confidence of the detection, from 0 to 1; 1 for ground truth.
    pub score: Number,
}

impl Clone for KittiAnnotation {
    fn clone(&self) -> (r: Self)
        ensures
            r == *self,
    {
        KittiAnnotation {
            category: self.category.clone(),
            truncation: self.truncation.clone(),
            occlusion: self.occlusion,
            alpha: self.alpha.clone(),
            xmin: self.xmin.clone(),
            ymin: self.ymin.clone(),
            xmax: self.xmax.clone(),
            ymax: self.ymax.clone(),
            h: self.h.clone(),
            w: self.w.clone(),
            l: self.l.clone(),
            x: self.x.clone(),
            y: self.y.clone(),
            z: self.z.clone(),
            ry: self.ry.clone(),
            score: self.score.clone(),
        }
    }
}

impl KittiAnnotation {
    /// A record of the given values.
    pub fn new(
        category: String,
        truncation: Number,
        occlusion: i16,
        alpha: Number,
        xmin: Number,
        ymin: Number,
        xmax: Number,
        ymax: Number,
        height: Number,
        width: Number,
        length: Number,
        xc: Number,
        yc: Number,
        zc: Number,
        ry: Number,
        score: Number,
    ) -> (r: Self)
        ensures
            r == (KittiAnnotation {
                category,
                truncation,
                occlusion,
                alpha,
                xmin,
                ymin,
                xmax,
                ymax,
                h: height,
                w: width,
                l: length,
                x: xc,
                y: yc,
                z: zc,
                ry,
                score,
            }),
    {
        KittiAnnotation {
            category,
            truncation,
            occlusion,
            alpha,
            xmin,
            ymin,
            xmax,
            ymax,
            h: height,
            w: width,
            l: length,
            x: xc,
            y: yc,
            z: zc,
            ry,
            score,
        }
    }

    /// The box in the image: left, upper, right and lower edge.
    pub fn get_2d_bounding_box(self) -> (r: [Number; 4])
        ensures
            r@ == seq![self.xmin, self.ymin, self.xmax, self.ymax],
    {
        [self.xmin, self.ymin, self.xmax, self.ymax]
    }

    /// The box in space: center, then height, width and length, then yaw.
    pub fn get_3d_bounding_box(self) -> (r: [Number; 7])
        ensures
            r@ == seq![self.x, self.y, self.z, self.h, self.w, self.l, self.ry],
    {
        [self.x, self.y, self.z, self.h, self.w, self.l, self.ry]
    }
}

/// The category of what is not to be assessed.
pub open spec fn dont_care() -> Seq<char> {
    seq!['D', 'o', 'n', 't', 'C', 'a', 'r', 'e']
}

/// The number of words of a line that gives a record.
pub const FIELDS: usize = 15;

/// Whether `row` gives no record and no error: it has no word, or is of the
/// category `DontCare`.
pub open spec fn is_skipped(row: Seq<Seq<char>>) -> bool {
    row.len() == 0 || row[0] == dont_care()
}

/// Whether `row` holds a record: fifteen words or more, the third an integer
/// and the second and the fourth to fifteenth real numbers.
pub open spec fn is_record(row: Seq<Seq<char>>) -> bool {
    &&& row.len() >= FIELDS
    &&& integer_of(row[2]) is Some
    &&& forall|k: int| 1 <= k < FIELDS && k != 2 ==> is_real(#[trigger] row[k])
}

/// Whether `record` is what `row` holds: the words in their fixed order, and
/// a score of one.
pub open spec fn describes(row: Seq<Seq<char>>, record: KittiAnnotation) -> bool {
    &&& record.category@ == row[0]
    &&& record.truncation@ == row[1]
    &&& Some(record.occlusion) == integer_of(row[2])
    &&& record.alpha@ == row[3]
    &&& record.xmin@ == row[4]
    &&& record.ymin@ == row[5]
    &&& record.xmax@ == row[6]
    &&& record.ymax@ == row[7]
    &&& record.h@ == row[8]
    &&& record.w@ == row[9]
    &&& record.l@ == row[10]
    &&& record.x@ == row[11]
    &&& record.y@ == row[12]
    &&& record.z@ == row[13]
    &&& record.ry@ == row[14]
    &&& record.score@ == one_text()
}

/// The rows of `table` that are not skipped, in order.
pub open spec fn kept_rows(table: Seq<Seq<Seq<char>>>) -> Seq<Seq<Seq<char>>>
    decreases table.len(),
{
    if table.len() == 0 {
        Seq::empty()
    } else if is_skipped(table.last()) {
        kept_rows(table.drop_last())
    } else {
        kept_rows(table.drop_last()).push(table.last())
    }
}

/// Whether `result` is what the annotation text `text` gives: one record for
/// each row that is kept, in order, if each of them holds one; else the error
/// for a malformed line.
pub open spec fn parses_to(text: Seq<char>, result: Result<Vec<KittiAnnotation>, KittiError>) -> bool {
    let kept = kept_rows(rows(text));
    match result {
        Ok(records) => {
            &&& forall|i: int| 0 <= i < kept.len() ==> is_record(#[trigger] kept[i])
            &&& records@.len() == kept.len()
            &&& forall|i: int| 0 <= i < kept.len() ==> describes(kept[i], #[trigger] records@[i])
        },
        Err(error) => {
            &&& error == KittiError::Parse
            &&& exists|i: int| 0 <= i < kept.len() && !is_record(#[trigger] kept[i])
        },
    }
}

/// Whether `source` gives `result`: the error for a source of the wrong kind
/// unless the extension is `txt`; else the error for a source that cannot be
/// read if there are no contents; else what the contents give.
pub open spec fn source_gives(
    extension: Option<Seq<char>>,
    contents: Option<Seq<char>>,
    result: Result<Vec<KittiAnnotation>, KittiError>,
) -> bool {
    if extension != Some("txt"@) {
        result == Err::<Vec<KittiAnnotation>, KittiError>(KittiError::Format)
    } else {
        match contents {
            None => result == Err::<Vec<KittiAnnotation>, KittiError>(KittiError::Io),
            Some(text) => parses_to(text, result),
        }
    }
}

fn is_dont_care(word: &[char]) -> (r: bool)
    ensures
        r == (word@ == dont_care()),
{
    let r = word.len() == 8 && word[0] == 'D' && word[1] == 'o' && word[2] == 'n' && word[3] == 't'
        && word[4] == 'C' && word[5] == 'a' && word[6] == 'r' && word[7] == 'e';
    assert(r == (word@ =~= dont_care()));
    r
}

/// The record that a line holds, if it holds one. `spans` marks the words of
/// the line.
fn parse_record(line: &[char], spans: &Vec<Span>) -> (r: Option<KittiAnnotation>)
    requires
        span_pairs(spans@) == word_spans(line@, 0),
        forall|i: int|
            0 <= i < spans.len() ==> (#[trigger] spans[i]).start < spans[i].end <= line.len(),
    ensures
        match r {
            Some(record) => is_record(words(line@)) && describes(words(line@), record),
            None => !is_record(words(line@)),
        },
{
    proof {
        lemma_words_of_spans(line@, spans@);
    }
    if spans.len() < FIELDS {
        return None;
    }
    let ghost row = words(line@);
    assert(row[1] == spans[1].of(line@) && row[2] == spans[2].of(line@));
    let truncation = match Number::parse(cut(line, spans[1])) {
        Some(number) => number,
        None => {
            return None;
        },
    };
    let occlusion = match parse_integer(cut(line, spans[2])) {
        Some(value) => value,
        None => {
            return None;
        },
    };
    let mut rest = match parse_numbers(line, spans, 3, FIELDS) {
        Some(numbers) => numbers,
        None => {
            proof {
                let k = choose|k: int|
                    3 <= k < FIELDS && !is_real((#[trigger] spans[k]).of(line@));
                assert(row[k] == spans[k].of(line@));
            }
            return None;
        },
    };
    assert forall|k: int| 1 <= k < FIELDS && k != 2 implies is_real(#[trigger] row[k]) by {
        assert(row[k] == spans[k].of(line@));
    }
    let ry = rest.pop().unwrap();
    let z = rest.pop().unwrap();
    let y = rest.pop().unwrap();
    let x = rest.pop().unwrap();
    let l = rest.pop().unwrap();
    let w = rest.pop().unwrap();
    let h = rest.pop().unwrap();
    let ymax = rest.pop().unwrap();
    let xmax = rest.pop().unwrap();
    let ymin = rest.pop().unwrap();
    let xmin = rest.pop().unwrap();
    let alpha = rest.pop().unwrap();
    let category = string_of(cut(line, spans[0]));
    Some(
        KittiAnnotation::new(
            category,
            truncation,
            occlusion,
            alpha,
            xmin,
            ymin,
            xmax,
            ymax,
            h,
            w,
            l,
            x,
            y,
            z,
            ry,
            Number::one(),
        ),
    )
}

/// The records of an annotation text.
///
/// Each line is cut into words. A line without a word, or whose first word
/// is `DontCare`, is passed over, whatever else it holds. Every other line
/// must hold a record; the first that does not makes the whole text fail.
pub fn parse_annotations(text: &str) -> (r: Result<Vec<KittiAnnotation>, KittiError>)
    ensures
        parses_to(text@, r),
{
    let chars = chars_of(text);
    let line_list = split_lines(chars.as_slice());
    let ghost table = rows(text@);
    assert(table.len() == line_list.len());
    let mut records: Vec<KittiAnnotation> = Vec::new();
    let mut i: usize = 0;
    while i < line_list.len()
        invariant
            i <= line_list.len(),
            chars@ == text@,
            table == rows(text@),
            table.len() == line_list.len(),
            span_pairs(line_list@) == line_spans(chars@, 0),
            forall|j: int|
                0 <= j < line_list.len() ==> (#[trigger] line_list[j]).start <= line_list[j].end
                    <= chars.len(),
            ({
                let kept = kept_rows(table.take(i as int));
                &&& forall|j: int| 0 <= j < kept.len() ==> is_record(#[trigger] kept[j])
                &&& records@.len() == kept.len()
                &&& forall|j: int|
                    0 <= j < kept.len() ==> describes(kept[j], #[trigger] records@[j])
            }),
        decreases line_list.len() - i,
    {
        let line = cut(chars.as_slice(), line_list[i]);
        let spans = split_words(line);
        proof {
            assert(span_pairs(line_list@)[i as int] == line_spans(chars@, 0)[i as int]);
            assert(lines(text@)[i as int] == line@);
            assert(table[i as int] == words(line@));
            assert(words(line@).len() == spans.len());
            assert(table.take(i + 1).drop_last() == table.take(i as int));
            assert(table.take(i + 1).last() == table[i as int]);
            if spans.len() > 0 {
                assert(span_pairs(spans@)[0] == word_spans(line@, 0)[0]);
            }
        }
        if spans.len() > 0 && !is_dont_care(cut(line, spans[0])) {
            match parse_record(line, &spans) {
                Some(record) => {
                    records.push(record);
                },
                None => {
                    proof {
                        lemma_kept_rows_keeps(table, i as int);
                    }
                    return Err(KittiError::Parse);
                },
            }
        }
        i += 1;
    }
    assert(table.take(i as int) == table);
    Ok(records)
}

/// A row that is not skipped is among the rows that are kept.
pub proof fn lemma_kept_rows_keeps(table: Seq<Seq<Seq<char>>>, i: int)
    requires
        0 <= i < table.len(),
        !is_skipped(table[i]),
    ensures
        exists|j: int| 0 <= j < kept_rows(table).len() && #[trigger] kept_rows(table)[j] == table[i],
    decreases table.len(),
{
    if i == table.len() - 1 {
        let j = kept_rows(table.drop_last()).len() as int;
        assert(kept_rows(table)[j] == table[i]);
    } else {
        lemma_kept_rows_keeps(table.drop_last(), i);
        let j = choose|j: int|
            0 <= j < kept_rows(table.drop_last()).len() && #[trigger] kept_rows(
                table.drop_last(),
            )[j] == table.drop_last()[i];
        assert(kept_rows(table)[j] == table[i]);
    }
}

/// Where every row is skipped, no row is kept.
pub proof fn lemma_skipped_rows_keep_nothing(table: Seq<Seq<Seq<char>>>)
    requires
        forall|i: int| 0 <= i < table.len() ==> is_skipped(#[trigger] table[i]),
    ensures
        kept_rows(table).len() == 0,
    decreases table.len(),
{
    if table.len() > 0 {
        assert(is_skipped(table[table.len() - 1]));
        assert forall|i: int| 0 <= i < table.drop_last().len() implies is_skipped(
            #[trigger] table.drop_last()[i],
        ) by {
            assert(table.drop_last()[i] == table[i]);
        }
        lemma_skipped_rows_keep_nothing(table.drop_last());
    }
}

/// A text that holds nothing but lines without a word and lines of the
/// category `DontCare` gives no record, and no error either, whatever else
/// those lines hold.
pub proof fn lemma_skipped_lines_give_nothing(
    text: Seq<char>,
    result: Result<Vec<KittiAnnotation>, KittiError>,
)
    requires
        forall|i: int| 0 <= i < rows(text).len() ==> is_skipped(#[trigger] rows(text)[i]),
        parses_to(text, result),
    ensures
        result is Ok,
        result->Ok_0@.len() == 0,
{
    lemma_skipped_rows_keep_nothing(rows(text));
}

/// No row that is kept is one that is skipped.
pub proof fn lemma_kept_rows_are_not_skipped(table: Seq<Seq<Seq<char>>>, j: int)
    requires
        0 <= j < kept_rows(table).len(),
    ensures
        !is_skipped(kept_rows(table)[j]),
    decreases table.len(),
{
    if table.len() > 0 {
        if is_skipped(table.last()) || j < kept_rows(table.drop_last()).len() {
            lemma_kept_rows_are_not_skipped(table.drop_last(), j);
        }
    }
}

/// No record of a parsed text is of the category `DontCare`.
pub proof fn lemma_no_record_is_dont_care(
    text: Seq<char>,
    records: Vec<KittiAnnotation>,
    i: int,
)
    requires
        parses_to(text, Ok(records)),
        0 <= i < records@.len(),
    ensures
        records@[i].category@ != dont_care(),
{
    lemma_kept_rows_are_not_skipped(rows(text), i);
    assert(describes(kept_rows(rows(text))[i], records@[i]));
}

/// A row that is skipped adds nothing to what is kept, wherever it stands
/// and whatever follows its first word.
pub proof fn lemma_skipped_row_adds_nothing(
    before: Seq<Seq<Seq<char>>>,
    row: Seq<Seq<char>>,
    after: Seq<Seq<Seq<char>>>,
)
    requires
        is_skipped(row),
    ensures
        kept_rows(before.push(row) + after) == kept_rows(before + after),
    decreases after.len(),
{
    if after.len() == 0 {
        assert(before.push(row) + after == before.push(row));
        assert(before + after == before);
        assert(before.push(row).drop_last() == before);
    } else {
        lemma_skipped_row_adds_nothing(before, row, after.drop_last());
        assert((before.push(row) + after).drop_last() == before.push(row) + after.drop_last());
        assert((before + after).drop_last() == before + after.drop_last());
        assert((before.push(row) + after).last() == after.last());
        assert((before + after).last() == after.last());
    }
}

/// A line without a word, or of the category `DontCare`, adds nothing to
/// what a text gives, wherever it stands between whole lines and whatever
/// follows its first word.
pub proof fn lemma_skipped_line_adds_nothing(
    before: Seq<char>,
    line: Seq<char>,
    after: Seq<char>,
    result: Result<Vec<KittiAnnotation>, KittiError>,
)
    requires
        before.len() == 0 || before.last() == '\n',
        forall|i: int| 0 <= i < line.len() ==> #[trigger] line[i] != '\n',
        is_skipped(words(line)),
    ensures
        kept_rows(rows(before + line.push('\n') + after)) == kept_rows(rows(before + after)),
        parses_to(before + line.push('\n') + after, result) == parses_to(before + after, result),
{
    let whole = before + line.push('\n');
    lemma_one_line(line);
    lemma_lines_of_joined_texts(before, line.push('\n'));
    assert(whole.last() == '\n');
    lemma_lines_of_joined_texts(whole, after);
    lemma_lines_of_joined_texts(before, after);
    assert(rows(whole) == rows(before).push(words(line)));
    lemma_skipped_row_adds_nothing(rows(before), words(line), rows(after));
}

/// The extension of the file that `path` names, if it has one.
///
/// Trusted: the body calls `std::path::Path::extension`. What it gives
/// follows the conventions of the machine for the parts of a path, so nothing
/// is claimed of it.
#[verifier::external_body]
fn path_extension(path: &str) -> (r: Option<String>) {
    match std::path::Path::new(path).extension() {
        Some(extension) => Some(extension.to_string_lossy().into_owned()),
        None => None,
    }
}

/// The records of an annotation source, given the extension of its name and
/// its contents; `None` stands for contents that cannot be read.
pub fn annotations_from_source(extension: Option<String>, contents: Option<&str>) -> (r: Result<
    Vec<KittiAnnotation>,
    KittiError,
>)
    ensures
        source_gives(
            match extension {
                Some(e) => Some(e@),
                None => None,
            },
            match contents {
                Some(text) => Some(text@),
                None => None,
            },
            r,
        ),
{
    let is_text = match extension {
        Some(e) => e == String::from_str("txt"),
        None => false,
    };
    if !is_text {
        return Err(KittiError::Format);
    }
    match contents {
        Some(text) => parse_annotations(text),
        None => Err(KittiError::Io),
    }
}

/// The records of the annotation file at `kitti_annotations_path`, whose
/// contents are `contents`; `None` stands for a file that cannot be read.
///
/// The file must be a text file by its name. Whether it is depends on the
/// machine's conventions for paths; where it is, the result is that of
/// [`annotations_from_source`] for the extension `txt`.
pub fn read_annotation_file(kitti_annotations_path: String, contents: Option<&str>) -> (r: Result<
    Vec<KittiAnnotation>,
    KittiError,
>)
    ensures
        r == Err::<Vec<KittiAnnotation>, KittiError>(KittiError::Format) || source_gives(
            Some("txt"@),
            match contents {
                Some(text) => Some(text@),
                None => None,
            },
            r,
        ),
{
    let extension = path_extension(kitti_annotations_path.as_str());
    annotations_from_source(extension, contents)
}

} // verus!
