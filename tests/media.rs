use docx_pdf::display::DisplayMap;
use docx_pdf::media::{is_image_entry, process_single_image, temp_file_name, zip_path_for_target, ImageMap, ImageParams, RelMap, media_lookup};
use docx_pdf::walker::XmlEvent;

fn png(w: u32, h: u32) -> Vec<u8> {
    let img = image::RgbImage::from_pixel(w, h, image::Rgb([10, 200, 30]));
    let mut out = std::io::Cursor::new(Vec::new());
    img.write_to(&mut out, image::ImageFormat::Png).unwrap();
    out.into_inner()
}

#[test]
fn image_entries_are_media_rasters() {
    assert!(is_image_entry(b"word/media/image1.png"));
    assert!(is_image_entry(b"word/media/p.jpeg"));
    assert!(is_image_entry(b"word/media/p.jpg"));
    assert!(is_image_entry(b"word/media/p.gif"));
    assert!(is_image_entry(b"word/media/p.bmp"));
    assert!(!is_image_entry(b"word/media/p.emf"));
    assert!(!is_image_entry(b"word/document.xml"));
    assert!(!is_image_entry(b"media/p.png"));
}

#[test]
fn temp_names_drop_the_directory_and_end_in_jpg() {
    assert_eq!(temp_file_name(b"word/media/image1.png"), b"image1.jpg".to_vec());
    assert_eq!(temp_file_name(b"word/media/a.b.jpeg"), b"a.b.jpg".to_vec());
    assert_eq!(temp_file_name(b"word/media/x.jpg"), b"x.jpg".to_vec());
    assert_eq!(temp_file_name(b"other/pic"), b"other/pic.jpg".to_vec());
    assert_eq!(temp_file_name(b"word/media/.png"), b".png.jpg".to_vec());
}

#[test]
fn targets_are_rebased_under_word() {
    assert_eq!(zip_path_for_target(b"media/a.png"), b"word/media/a.png".to_vec());
    assert_eq!(zip_path_for_target(b"../media/a.png"), b"word/media/a.png".to_vec());
}

#[test]
fn decodable_image_is_described() {
    let data = png(3, 2);
    let d = process_single_image(&data, b"word/media/pic.png").unwrap();
    assert_eq!((d.w, d.h), (3, 2));
    assert_eq!(d.path, b"pic.jpg".to_vec());
    assert_eq!(d.pixels.len(), 18);
    assert_eq!(&d.pixels[..3], &[10, 200, 30]);
    let p = d.describe(b"encoded!");
    assert_eq!((p.w, p.h, p.len), (3, 2, 8));
    assert_eq!(p.path, b"pic.jpg".to_vec());
}

#[test]
fn describing_twice_gives_the_same_descriptor() {
    let data = png(5, 7);
    let a = process_single_image(&data, b"word/media/one.png").unwrap();
    let b = process_single_image(&data, b"word/media/two.png").unwrap();
    assert_eq!((a.w, a.h), (b.w, b.h));
    assert_eq!(a.pixels, b.pixels);
    assert_ne!(a.path, b.path);
    let (da, db) = (a.describe(b"jpeg"), b.describe(b"jpeg"));
    assert_eq!((da.w, da.h, da.len), (db.w, db.h, db.len));
}

#[test]
fn undecodable_image_is_dropped() {
    assert!(process_single_image(b"not an image", b"word/media/bad.png").is_none());
    let good = ImageParams { w: 1, h: 1, len: 3, path: b"ok.jpg".to_vec() };
    let map = ImageMap::from_outcomes(vec![
        (b"word/media/bad.png".to_vec(), None),
        (b"word/media/ok.png".to_vec(), Some(good)),
    ]);
    assert_eq!(map.entries.len(), 1);
    assert!(map.get(b"word/media/bad.png").is_none());
    assert_eq!(map.get(b"word/media/ok.png").unwrap().path, b"ok.jpg".to_vec());
}

#[test]
fn relationships_need_id_and_target() {
    let mut rels = RelMap::new();
    let attrs = |pairs: &[(&str, &str)]| -> Vec<(Vec<u8>, Vec<u8>)> {
        pairs.iter().map(|(k, v)| (k.as_bytes().to_vec(), v.as_bytes().to_vec())).collect()
    };
    rels.handle_event(&XmlEvent::Empty { name: b"Relationship".to_vec(), attrs: attrs(&[("Id", "rId1"), ("Target", "media/a.png")]) });
    rels.handle_event(&XmlEvent::Start { name: b"Relationship".to_vec(), attrs: attrs(&[("Id", "rId2")]) });
    rels.handle_event(&XmlEvent::Empty { name: b"Other".to_vec(), attrs: attrs(&[("Id", "rId3"), ("Target", "x")]) });
    assert_eq!(rels.get(b"rId1"), Some(b"media/a.png".to_vec()));
    assert_eq!(rels.get(b"rId2"), None);
    assert_eq!(rels.get(b"rId3"), None);
    let images = ImageMap { entries: vec![(b"word/media/a.png".to_vec(), ImageParams { w: 4, h: 5, len: 6, path: b"a.jpg".to_vec() })] };
    let p = media_lookup(&rels, &images, b"rId1").unwrap();
    assert_eq!((p.w, p.h), (4, 5));
    assert!(media_lookup(&rels, &images, b"rId9").is_none());
}

#[test]
fn only_media_rasters_are_selected() {
    let names = vec![
        b"word/document.xml".to_vec(),
        b"word/media/a.png".to_vec(),
        b"word/media/b.emf".to_vec(),
        b"word/media/c.jpg".to_vec(),
    ];
    let picked = docx_pdf::media::select_image_entries(&names);
    assert_eq!(picked, vec![(1, b"word/media/a.png".to_vec()), (3, b"word/media/c.jpg".to_vec())]);
}

#[test]
fn display_map_renders_in_braces() {
    let entries = vec![(b"a".to_vec(), b"1".to_vec()), (b"b".to_vec(), b"2".to_vec())];
    assert_eq!(DisplayMap(&entries).render(), b"{a: 1, b: 2}".to_vec());
    let none: Vec<(Vec<u8>, Vec<u8>)> = vec![];
    assert_eq!(DisplayMap(&none).render(), b"{}".to_vec());
}


#[test]
fn jpeg_sources_are_decoded_for_re_encoding_too() {
    let img = image::RgbImage::from_pixel(4, 4, image::Rgb([0, 0, 0]));
    let mut out = std::io::Cursor::new(Vec::new());
    img.write_to(&mut out, image::ImageFormat::Jpeg).unwrap();
    let data = out.into_inner();
    let d = process_single_image(&data, b"word/media/photo.jpg").unwrap();
    assert_eq!((d.w, d.h), (4, 4));
    assert_eq!(d.path, b"photo.jpg".to_vec());
    assert_eq!(d.pixels.len(), 48);
    let e = process_single_image(&data, b"word/media/photo.jpeg").unwrap();
    assert_eq!(e.path, b"photo.jpg".to_vec());
    assert_eq!(e.pixels, d.pixels);
}

#[test]
fn bytes_of_no_known_format_are_not_decoded() {
    assert!(process_single_image(&[0xABu8; 64], b"word/media/x.png").is_none());
    assert!(process_single_image(b"", b"word/media/x.png").is_none());
}
