use kitti_boxes::annotation::{
    annotations_from_source, parse_annotations, read_annotation_file, KittiAnnotation,
};
use kitti_boxes::error::KittiError;
use kitti_boxes::number::Number;
use kitti_boxes::text::chars_of;

const CAR: &str =
    "Car 0.00 0 -1.58 587.01 173.33 614.12 200.12 1.65 1.67 3.64 -0.65 1.71 46.70 -1.59";
const CYCLIST: &str =
    "Cyclist 0.32 2 1.93 0.00 192.37 402.31 374.00 1.78 0.58 1.80 -4.55 1.92 7.48 1.47";
const PEDESTRIAN: &str =
    "Pedestrian 0.00 1 0.30 883.68 144.15 937.35 259.01 1.90 0.42 1.04 5.06 1.43 12.42 0.68";
const DONT_CARE: &str =
    "DontCare -1 -1 -10 503.89 169.71 590.61 190.13 -1 -1 -1 -1000 -1000 -1000 -10";

fn number(word: &str) -> Number {
    Number::parse(&chars_of(word)).expect("a number")
}

#[test]
fn a_line_gives_its_fields_in_order() {
    let records = parse_annotations(CAR).unwrap();
    assert_eq!(records.len(), 1);
    let car = &records[0];
    assert_eq!(car.category, "Car");
    assert_eq!(car.truncation.as_str(), "0.00");
    assert_eq!(car.occlusion, 0);
    assert_eq!(car.alpha.as_str(), "-1.58");
    assert_eq!(car.xmin.as_str(), "587.01");
    assert_eq!(car.ymin.as_str(), "173.33");
    assert_eq!(car.xmax.as_str(), "614.12");
    assert_eq!(car.ymax.as_str(), "200.12");
    assert_eq!(car.h.as_str(), "1.65");
    assert_eq!(car.w.as_str(), "1.67");
    assert_eq!(car.l.as_str(), "3.64");
    assert_eq!(car.x.as_str(), "-0.65");
    assert_eq!(car.y.as_str(), "1.71");
    assert_eq!(car.z.as_str(), "46.70");
    assert_eq!(car.ry.as_str(), "-1.59");
}

#[test]
fn the_score_of_a_parsed_record_is_one() {
    let records = parse_annotations(CYCLIST).unwrap();
    assert_eq!(records[0].score.as_str(), "1.0");
    assert_eq!(records[0].score.as_str().parse::<f32>().unwrap(), 1.0);
}

#[test]
fn every_field_of_a_record_converts_to_single_precision() {
    let text = format!("{}\n{}\n{}\n", CAR, CYCLIST, PEDESTRIAN);
    for record in parse_annotations(&text).unwrap() {
        let numbers = [
            &record.truncation,
            &record.alpha,
            &record.xmin,
            &record.ymin,
            &record.xmax,
            &record.ymax,
            &record.h,
            &record.w,
            &record.l,
            &record.x,
            &record.y,
            &record.z,
            &record.ry,
            &record.score,
        ];
        for n in numbers {
            assert!(n.as_str().parse::<f32>().is_ok());
        }
    }
}

#[test]
fn only_dont_care_lines_give_no_record() {
    let text = format!("{}\n{}\n{}\n", DONT_CARE, DONT_CARE, DONT_CARE);
    assert_eq!(parse_annotations(&text), Ok(vec![]));
}

#[test]
fn three_objects_and_two_dont_care_lines_give_three_records() {
    let text = format!("{}\n{}\n{}\n{}\n{}\n", CAR, DONT_CARE, CYCLIST, DONT_CARE, PEDESTRIAN);
    let records = parse_annotations(&text).unwrap();
    assert_eq!(records.len(), 3);
    assert_eq!(records[0].category, "Car");
    assert_eq!(records[1].category, "Cyclist");
    assert_eq!(records[2].category, "Pedestrian");
    assert_eq!(records[1].occlusion, 2);
    assert_eq!(records[2].occlusion, 1);
    assert!(records.iter().all(|r| r.category != "DontCare"));
}

#[test]
fn a_dont_care_line_of_zeros_gives_no_record() {
    assert_eq!(parse_annotations("DontCare 0 0 0 0 0 0 0 0 0 0 0 0 0 0"), Ok(vec![]));
}

#[test]
fn a_dont_care_line_is_skipped_whatever_follows() {
    assert_eq!(parse_annotations("DontCare"), Ok(vec![]));
    assert_eq!(parse_annotations("DontCare not numbers at all\n"), Ok(vec![]));
    let text = format!("DontCare 1 x\n{}\nDontCare\n", CAR);
    assert_eq!(parse_annotations(&text).unwrap().len(), 1);
}

#[test]
fn the_category_is_matched_by_the_whole_word_and_by_case() {
    let lower = CAR.replace("Car", "dontcare");
    assert_eq!(parse_annotations(&lower).unwrap()[0].category, "dontcare");
    let longer = CAR.replace("Car", "DontCares");
    assert_eq!(parse_annotations(&longer).unwrap()[0].category, "DontCares");
}

#[test]
fn empty_text_gives_no_record() {
    assert_eq!(parse_annotations(""), Ok(vec![]));
}

#[test]
fn blank_lines_are_skipped() {
    let text = format!("\n   \n{}\n\t\n\n{}\n\n", CAR, CYCLIST);
    assert_eq!(parse_annotations(&text).unwrap().len(), 2);
}

#[test]
fn a_last_line_needs_no_line_feed() {
    let text = format!("{}\n{}", CAR, CYCLIST);
    assert_eq!(parse_annotations(&text).unwrap().len(), 2);
}

#[test]
fn carriage_returns_and_runs_of_white_space_separate_words() {
    let spaced = CAR.replace(' ', " \t  ");
    let text = format!("  {}\r\n{}\r\n", spaced, CYCLIST);
    let records = parse_annotations(&text).unwrap();
    assert_eq!(records.len(), 2);
    assert_eq!(records[0], parse_annotations(CAR).unwrap()[0]);
    assert_eq!(records[1].ry.as_str(), "1.47");
}

#[test]
fn words_after_the_fifteenth_are_ignored() {
    let text = format!("{} 0.93 more\n", CAR);
    assert_eq!(parse_annotations(&text), parse_annotations(CAR));
}

#[test]
fn a_line_of_fewer_than_fifteen_words_is_malformed() {
    let short = "Car 0.00 0 -1.58 587.01 173.33 614.12 200.12 1.65 1.67 3.64 -0.65 1.71 46.70";
    assert_eq!(parse_annotations(short), Err(KittiError::Parse));
    assert_eq!(parse_annotations("Car"), Err(KittiError::Parse));
}

#[test]
fn a_word_that_is_no_number_is_malformed() {
    for k in 1..15 {
        let mut words: Vec<&str> = CAR.split(' ').collect();
        words[k] = "1.6x";
        assert_eq!(parse_annotations(&words.join(" ")), Err(KittiError::Parse), "word {}", k);
    }
}

#[test]
fn the_occlusion_must_be_an_integer() {
    let fraction = CAR.replacen(" 0 ", " 0.5 ", 1);
    assert_eq!(parse_annotations(&fraction), Err(KittiError::Parse));
    let large = CAR.replacen(" 0 ", " 32768 ", 1);
    assert_eq!(parse_annotations(&large), Err(KittiError::Parse));
    let negative = CAR.replacen(" 0 ", " -1 ", 1);
    assert_eq!(parse_annotations(&negative).unwrap()[0].occlusion, -1);
}

#[test]
fn one_malformed_line_fails_the_whole_text() {
    let text = format!("{}\n{}\nTram 1 2 3\n{}\n", CAR, CYCLIST, PEDESTRIAN);
    assert_eq!(parse_annotations(&text), Err(KittiError::Parse));
}

#[test]
fn numbers_that_are_not_finite_are_numbers() {
    let text = CAR.replace("46.70", "inf").replace("-1.59", "NaN").replace("1.71", "-Infinity");
    let records = parse_annotations(&text).unwrap();
    assert_eq!(records[0].z.as_str(), "inf");
    assert_eq!(records[0].ry.as_str(), "NaN");
    assert_eq!(records[0].y.as_str(), "-Infinity");
}

#[test]
fn a_source_that_is_no_text_file_is_of_the_wrong_kind() {
    assert_eq!(read_annotation_file("label_2/000001.bin".to_string(), Some(CAR)), Err(KittiError::Format));
    assert_eq!(read_annotation_file("label_2/000001".to_string(), Some(CAR)), Err(KittiError::Format));
    assert_eq!(read_annotation_file("label_2/000001.TXT".to_string(), Some(CAR)), Err(KittiError::Format));
    assert_eq!(read_annotation_file("label.txt/000001".to_string(), Some(CAR)), Err(KittiError::Format));
    assert_eq!(read_annotation_file(".txt".to_string(), Some(CAR)), Err(KittiError::Format));
    assert_eq!(read_annotation_file("000001.bin".to_string(), None), Err(KittiError::Format));
}

#[test]
fn a_text_file_that_cannot_be_read_is_an_io_error() {
    assert_eq!(read_annotation_file("label_2/000001.txt".to_string(), None), Err(KittiError::Io));
}

#[test]
fn a_text_file_gives_what_its_contents_give() {
    let text = format!("{}\n{}\n", CAR, DONT_CARE);
    assert_eq!(
        read_annotation_file("kitti/label_2/000001.txt".to_string(), Some(&text)),
        parse_annotations(&text)
    );
    assert_eq!(read_annotation_file("a.txt".to_string(), Some("Car 1")), Err(KittiError::Parse));
}

#[test]
fn the_extension_decides_before_the_contents() {
    assert_eq!(annotations_from_source(None, Some(CAR)), Err(KittiError::Format));
    assert_eq!(annotations_from_source(Some("png".to_string()), None), Err(KittiError::Format));
    assert_eq!(annotations_from_source(Some("txt".to_string()), None), Err(KittiError::Io));
    assert_eq!(
        annotations_from_source(Some("txt".to_string()), Some(CAR)),
        parse_annotations(CAR)
    );
}

#[test]
fn a_copy_of_a_record_is_the_record() {
    let record = parse_annotations(CAR).unwrap().remove(0);
    assert_eq!(record.clone(), record);
}

#[test]
fn new_keeps_each_value_in_its_field() {
    let record = KittiAnnotation::new(
        "Van".to_string(),
        number("0.1"),
        3,
        number("0.2"),
        number("1"),
        number("2"),
        number("3"),
        number("4"),
        number("1.5"),
        number("1.6"),
        number("4.2"),
        number("-1"),
        number("-2"),
        number("30"),
        number("0.7"),
        number("0.9"),
    );
    assert_eq!(record.category, "Van");
    assert_eq!(record.truncation.as_str(), "0.1");
    assert_eq!(record.occlusion, 3);
    assert_eq!(record.alpha.as_str(), "0.2");
    assert_eq!(record.h.as_str(), "1.5");
    assert_eq!(record.w.as_str(), "1.6");
    assert_eq!(record.l.as_str(), "4.2");
    assert_eq!(record.score.as_str(), "0.9");
}

#[test]
fn the_box_in_the_image_is_left_upper_right_lower() {
    let record = parse_annotations(CAR).unwrap().remove(0);
    let edges = record.get_2d_bounding_box();
    let words: Vec<&str> = edges.iter().map(|n| n.as_str()).collect();
    assert_eq!(words, vec!["587.01", "173.33", "614.12", "200.12"]);
}

#[test]
fn the_box_in_space_is_center_extents_and_yaw() {
    let record = parse_annotations(CAR).unwrap().remove(0);
    let values = record.get_3d_bounding_box();
    let words: Vec<&str> = values.iter().map(|n| n.as_str()).collect();
    assert_eq!(words, vec!["-0.65", "1.71", "46.70", "1.65", "1.67", "3.64", "-1.59"]);
}

#[test]
fn each_error_has_a_sentence_of_its_own() {
    let all = [KittiError::Io, KittiError::Format, KittiError::Parse, KittiError::InvalidCalibration];
    assert_eq!(KittiError::Io.message(), "the source cannot be read");
    assert_eq!(KittiError::Format.message(), "the source is not a text file");
    assert_eq!(KittiError::Parse.message(), "a line of the source is malformed");
    assert_eq!(
        KittiError::InvalidCalibration.message(),
        "a required key is missing from the calibration"
    );
    for a in 0..all.len() {
        for b in 0..a {
            assert_ne!(all[a].message(), all[b].message());
        }
    }
}
