use supermd::editor::paste_image::{extension, markdown_link, pick_name, ImageFormat};

#[test]
fn names_stamp_and_dodge_collisions() {
    assert_eq!(pick_name(&[], "20260825-101500", "png"), "pasted-20260825-101500.png");
    let taken = ["pasted-s.png".to_string(), "pasted-s-2.png".to_string()];
    assert_eq!(pick_name(&taken, "s", "png"), "pasted-s-3.png");
}

#[test]
fn link_is_relative_to_the_assets_folder() {
    assert_eq!(markdown_link("pasted-s.png"), "![](assets/pasted-s.png)");
}

#[test]
fn a_free_numbered_name_below_a_taken_one_is_used() {
    let taken = ["pasted-s.png".to_string(), "pasted-s-3.png".to_string()];
    assert_eq!(pick_name(&taken, "s", "jpg"), "pasted-s.jpg");
    let taken = ["pasted-s.jpg".to_string(), "pasted-s-3.jpg".to_string()];
    assert_eq!(pick_name(&taken, "s", "jpg"), "pasted-s-2.jpg");
}

#[test]
fn ten_taken_names_lead_to_the_eleventh() {
    let mut taken = vec!["pasted-t.gif".to_string()];
    for n in 2..=10 {
        taken.push(format!("pasted-t-{n}.gif"));
    }
    assert_eq!(pick_name(&taken, "t", "gif"), "pasted-t-11.gif");
}

#[test]
fn extensions_cover_every_format() {
    assert_eq!(extension(ImageFormat::Png), "png");
    assert_eq!(extension(ImageFormat::Jpeg), "jpg");
    assert_eq!(extension(ImageFormat::Webp), "webp");
    assert_eq!(extension(ImageFormat::Gif), "gif");
    assert_eq!(extension(ImageFormat::Svg), "svg");
    assert_eq!(extension(ImageFormat::Bmp), "bmp");
    assert_eq!(extension(ImageFormat::Tiff), "tiff");
}
