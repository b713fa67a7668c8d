use icu_tool::zip::{build_stored_zip, crc32};

#[test]
fn crc32_of_the_check_string() {
    assert_eq!(crc32(b"123456789"), 0xCBF4_3926);
    assert_eq!(crc32(b""), 0);
}

#[test]
fn stored_zip_has_local_central_and_end_records() {
    let data = build_stored_zip(&[("a.txt".to_string(), b"hi".to_vec())]).unwrap();
    assert_eq!(&data[0..4], &[0x50, 0x4b, 0x03, 0x04]);
    let central = data.windows(4).position(|w| w == [0x50, 0x4b, 0x01, 0x02]).unwrap();
    let end = data.windows(4).position(|w| w == [0x50, 0x4b, 0x05, 0x06]).unwrap();
    assert!(central < end);
    assert_eq!(data.len(), end + 22);
    let crc = u32::from_le_bytes([data[14], data[15], data[16], data[17]]);
    assert_eq!(crc, crc32(b"hi"));
    assert_eq!(&data[30..35], b"a.txt");
    assert_eq!(&data[35..37], b"hi");
}

#[test]
fn empty_zip_is_just_the_end_record() {
    let data = build_stored_zip(&[]).unwrap();
    assert_eq!(data.len(), 22);
    assert_eq!(&data[0..4], &[0x50, 0x4b, 0x05, 0x06]);
}

fn source(name: &str, dir: Option<&str>) -> icu_tool::export::ExportSource {
    icu_tool::export::ExportSource {
        input_name: name.to_string(),
        relative_path: dir.map(|d| d.to_string()),
        image: icu_tool::image_item::ImageItem {
            path: name.to_string(),
            info: icu_tool::image_item::ImageInfo { width: 1, height: 1, data_size: 4, format: "rgba".to_string() },
            width: 1,
            height: 1,
            frames: icu_tool::image_item::FrameSource::single(
                vec![icu_tool::image_item::Color32 { r: 0, g: 0, b: 0, a: 255 }],
                1,
                1,
            ),
            midata: None,
            expanded: false,
        },
    }
}

#[test]
fn archive_paths_use_slashes_and_number_repeats() {
    let mut used = Vec::new();
    let first = icu_tool::export::zip_source_path(&source("a.png", Some("x\\y")), "webp", &mut used).unwrap();
    assert_eq!(first, "x/y/a.webp");
    let second = icu_tool::export::zip_source_path(&source("a.png", Some("x/y")), "webp", &mut used).unwrap();
    assert_eq!(second, "x/y/a-2.webp");
    let third = icu_tool::export::zip_source_path(&source("a.gif", None), "png", &mut used).unwrap();
    assert_eq!(third, "a.png");
    assert_eq!(used, vec!["x/y/a.webp".to_string(), "x/y/a-2.webp".to_string(), "a.png".to_string()]);
}

#[test]
fn archive_paths_refuse_unsafe_names() {
    let mut used = Vec::new();
    assert_eq!(
        icu_tool::export::zip_source_path(&source("../a.png", None), "png", &mut used),
        Err("Invalid export file name: ../a.png".to_string())
    );
    assert_eq!(
        icu_tool::export::zip_source_path(&source("a.png", Some("../up")), "png", &mut used),
        Err("Invalid export directory: ../up".to_string())
    );
    assert!(used.is_empty());
}

#[test]
fn archive_paths_skip_every_used_number() {
    let mut used = vec!["a.png".to_string(), "a-2.png".to_string(), "other.png".to_string()];
    let path = icu_tool::export::zip_source_path(&source("a.gif", None), "png", &mut used).unwrap();
    assert_eq!(path, "a-3.png");
    assert_eq!(used.len(), 4);
}
